use asw::bench::{bench_route, resolve_routes, RouteStats, Trial, NUM_ROUTES};
use asw::bounds::Bbox;
use asw::cli::{
    bbox_fields, listen_address, parse_bbox, ready_url, resolve_ssh_key, serving_key, BboxError,
};
use asw::clock::{chrono_now, civil_date};
use asw::download::{
    ensure_graph, is_success, Event, Fetching, GraphSource, Progress, LOG_EVERY,
};
use asw::export::{
    coast_segments, coastline_feature_string, coastline_path, feature_collection, hex_color,
    hex_feature_string, hex_nodes, hexagons_path,
};
use asw::figures::{format_distance, format_number, format_time, rounded};
use asw::path::{extension, file_name, file_stem, join, parent, with_extension, with_file_name};
use asw::report::{
    build_result, category, compare, feature_color, feature_name, judge, map_features, markdown,
    BenchResult, Mark, Verdict,
};
use asw::srcdir::{is_workspace_root, resolve_src_dir, rust_src_dir, worth_warning};
use asw::ssh::KeyError;
use asw::survey::{survey_region, survey_weights, Region};
use h3o::{CellIndex, LatLng, Resolution};

const WORKSPACE: &str = "[workspace]\nmembers = []\n";

#[test]
fn explicit_src_flag_wins_over_everything() {
    let resolved = resolve_src_dir(
        Some("/explicit/src/dir".to_string()),
        "/cwd",
        Some(WORKSPACE),
        "/compile/time/fallback",
    );
    assert_eq!(resolved, "/explicit/src/dir");
}

#[test]
fn cwd_with_workspace_cargo_toml_wins_over_fallback() {
    let resolved = resolve_src_dir(None, "/cwd", Some(WORKSPACE), "/compile/time/fallback");
    assert_eq!(resolved, "/cwd");
}

#[test]
fn non_workspace_cwd_falls_back_to_compile_time_path() {
    let manifest = "[package]\nname = \"not-a-workspace\"\nversion = \"0.1.0\"\n";
    let resolved = resolve_src_dir(None, "/cwd", Some(manifest), "/compile/time/fallback");
    assert_eq!(resolved, "/compile/time/fallback");
}

#[test]
fn missing_cargo_toml_falls_back_to_compile_time_path() {
    let resolved = resolve_src_dir(None, "/cwd", None, "/compile/time/fallback");
    assert_eq!(resolved, "/compile/time/fallback");
}

#[test]
fn explicit_src_flag_wins_even_over_a_workspace_cwd() {
    let resolved = resolve_src_dir(
        Some("/some/other/path".to_string()),
        "/cwd",
        Some(WORKSPACE),
        "/unused",
    );
    assert_eq!(resolved, "/some/other/path");
}

#[test]
fn a_workspace_is_a_line_of_its_own() {
    assert!(is_workspace_root(Some("[package]\r\n  [workspace]\t\r\n")));
    assert!(is_workspace_root(Some("[workspace]")));
    assert!(!is_workspace_root(Some("# [workspace]\n")));
    assert!(!is_workspace_root(Some("[workspace.dependencies]\n")));
    assert!(!is_workspace_root(Some("")));
    assert!(!is_workspace_root(None));
}

#[test]
fn the_workspace_is_two_directories_up() {
    assert_eq!(rust_src_dir("/src/asw/crates/asw-cli"), "/src/asw");
    assert_eq!(rust_src_dir("/a/b/"), "/");
    assert_eq!(rust_src_dir("/a"), "/a");
    assert_eq!(rust_src_dir("a"), "a");
    assert!(worth_warning(true, &vec![1]));
    assert!(!worth_warning(true, &vec![]));
    assert!(!worth_warning(false, &vec![1]));
}

#[test]
fn paths() {
    assert_eq!(join("a", "b"), "a/b");
    assert_eq!(join("a/", "b"), "a/b");
    assert_eq!(join("", "b"), "b");
    assert_eq!(file_name("/x/y.z"), Some("y.z".to_string()));
    assert_eq!(file_name("/x/y/"), Some("y".to_string()));
    assert_eq!(file_name("/x/.."), None);
    assert_eq!(file_name("/"), None);
    assert_eq!(with_file_name("/x/y.z", "w"), "/x/w");
    assert_eq!(with_extension("/x/y.graph", "graph.tmp"), "/x/y.graph.tmp");
    assert_eq!(with_extension("y", "e"), "y.e");
    assert_eq!(file_stem("/x/a.b.c"), "a.b");
    assert_eq!(file_stem("/x/.hidden"), ".hidden");
    assert_eq!(file_stem("/x/.."), "");
    assert_eq!(extension("a.b.c"), Some("c".to_string()));
    assert_eq!(extension(".hidden"), None);
    assert_eq!(extension("a."), Some(String::new()));
    assert_eq!(parent("/a/b"), Some("/a".to_string()));
    assert_eq!(parent("/a"), Some("/".to_string()));
    assert_eq!(parent("a"), Some(String::new()));
    assert_eq!(parent("/"), None);
    assert_eq!(parent(""), None);
}

#[test]
fn boxes_from_the_command_line() {
    assert_eq!(bbox_fields(" 1, 2 ,3,4"), vec!["1", "2", "3", "4"]);
    assert_eq!(bbox_fields(""), vec![""]);
    assert_eq!(bbox_fields("1,"), vec!["1", ""]);
    let b = Bbox {
        min_lon: 1,
        min_lat: 2,
        max_lon: 3,
        max_lat: 4,
    };
    let four = vec![Some(1), Some(2), Some(3), Some(4)];
    assert_eq!(parse_bbox("1,2,3,4", &four), Ok(b));
    assert_eq!(
        parse_bbox("1,2", &vec![Some(1), Some(2)]),
        Err(BboxError::WrongCount)
    );
    assert_eq!(
        parse_bbox("1,x", &vec![Some(1), None]),
        Err(BboxError::NotNumbers)
    );
    assert_eq!(
        parse_bbox("marmaris", &vec![None]),
        Ok(asw::config::resolve_bbox("marmaris").unwrap())
    );
    assert_eq!(
        BboxError::WrongCount.message(),
        "bbox must have exactly 4 values"
    );
    assert!(BboxError::NotNumbers
        .message()
        .starts_with("bbox must be 4 comma-separated floats"));
}

#[test]
fn other_arguments() {
    assert_eq!(
        resolve_ssh_key(Some("k".to_string()), Err(KeyError::NoKey)),
        Ok("k".to_string())
    );
    assert_eq!(
        resolve_ssh_key(None, Err(KeyError::NoKey)),
        Err(KeyError::NoKey)
    );
    assert_eq!(serving_key(" secret\n"), Some("secret".to_string()));
    assert_eq!(serving_key(" \t"), None);
    assert_eq!(listen_address("0.0.0.0", 3000), "0.0.0.0:3000");
    assert_eq!(ready_url("127.0.0.1", 80), "http://127.0.0.1:80/ready");
}

#[test]
fn graphs_are_fetched_when_missing() {
    assert!(matches!(
        ensure_graph(true, "a.graph", None),
        GraphSource::Present
    ));
    assert!(matches!(
        ensure_graph(false, "a.graph", None),
        GraphSource::Missing
    ));
    match ensure_graph(false, "export/a.graph", Some("http://x")) {
        GraphSource::Fetch { url, tmp } => {
            assert_eq!(url, "http://x");
            assert_eq!(tmp, "export/a.graph.tmp");
        }
        _ => panic!("not there, and a place is known"),
    }
    // The bytes never go straight to the final place.
    for path in ["a", "a.tmp", "x/a.graph.tmp", "x.d/a"] {
        match ensure_graph(false, path, Some("u")) {
            GraphSource::Fetch { tmp, .. } => assert_ne!(tmp, path),
            _ => panic!("not there, and a place is known"),
        }
    }
    assert!(is_success(200) && is_success(299));
    assert!(!is_success(199) && !is_success(300));
}

/// The steps of a fetch with these events, the first one included.
fn steps(events: &[Event]) -> Vec<Fetching> {
    let mut all = vec![Fetching::Ask];
    for &event in events {
        let last = *all.last().unwrap();
        all.push(last.next(event));
    }
    all
}

#[test]
fn a_fetch_is_published_when_complete() {
    let whole = [
        Event::Answered(200),
        Event::Good,
        Event::Piece(65_536),
        Event::Good,
        Event::Piece(3),
        Event::Good,
        Event::End,
        Event::Good,
    ];
    assert_eq!(
        steps(&whole),
        vec![
            Fetching::Ask,
            Fetching::Open,
            Fetching::Read,
            Fetching::Write,
            Fetching::Read,
            Fetching::Write,
            Fetching::Read,
            Fetching::Publish,
            Fetching::Done,
        ]
    );
    // Wherever it breaks, nothing is published.
    for k in 0..whole.len() {
        let mut broken = whole;
        broken[k] = Event::Bad;
        let taken = steps(&broken);
        assert_eq!(taken.last(), Some(&Fetching::Failed));
        assert!(!taken.contains(&Fetching::Done));
        assert_eq!(taken.contains(&Fetching::Publish), k == whole.len() - 1);
    }
}

#[test]
fn a_refused_fetch_opens_no_file() {
    for status in [199, 300, 404, 500] {
        assert_eq!(Fetching::Ask.next(Event::Answered(status)), Fetching::Failed);
    }
    assert_eq!(Fetching::Ask.next(Event::Answered(206)), Fetching::Open);
    assert_eq!(Fetching::Ask.next(Event::Good), Fetching::Failed);
    assert_eq!(Fetching::Write.next(Event::End), Fetching::Failed);
}

#[test]
fn progress_is_logged_now_and_then() {
    let mut p = Progress::new();
    assert!(!p.advance(LOG_EVERY - 1));
    assert!(p.advance(1));
    assert_eq!(p.last_logged, LOG_EVERY);
    assert!(!p.advance(LOG_EVERY - 1));
    assert!(p.advance(5));
    assert_eq!(p.downloaded, 2 * LOG_EVERY + 4);
}

#[test]
fn dates() {
    assert_eq!(chrono_now(0), "1970-01-01T00:00:00Z");
    assert_eq!(chrono_now(951_782_400), "2000-02-29T00:00:00Z");
    assert_eq!(chrono_now(1_709_251_199), "2024-02-29T23:59:59Z");
    assert_eq!(chrono_now(1_709_251_200), "2024-03-01T00:00:00Z");
    assert_eq!(chrono_now(4_102_444_800), "2100-01-01T00:00:00Z");
    assert_eq!(chrono_now(1_234_567_890), "2009-02-13T23:31:30Z");
    assert_eq!(civil_date(364), (1970, 12, 31));
}

#[test]
fn times_as_the_formatter_rounds_them() {
    for us in [
        0, 7, 999, 1_000, 1_049, 1_050, 1_149, 1_150, 1_250, 1_350, 1_450, 1_550, 1_650, 1_750,
        1_850, 1_950, 8_500, 9_949, 9_950, 99_950, 629_400, 999_949, 999_950, 999_999, 1_000_000,
        1_005_000, 1_015_000, 1_025_000, 1_035_000, 1_115_000, 1_125_000, 1_375_000, 9_995_000,
        12_345_000, 12_345_678, 59_999_999, 86_400_005_000, 4_503_599_627_370_497,
        9_007_199_254_740_993, u64::MAX,
    ] {
        let expected = if us < 1_000 {
            format!("{}us", us)
        } else if us < 1_000_000 {
            format!("{:.1}ms", us as f64 / 1_000.0)
        } else {
            format!("{:.2}s", us as f64 / 1_000_000.0)
        };
        assert_eq!(format_time(us), expected);
    }
    for k in 0..9_990u64 {
        let us = 1_050 + 100 * k;
        assert_eq!(format_time(us), format!("{:.1}ms", us as f64 / 1_000.0));
        let us = 1_005_000 + 10_000 * k;
        assert_eq!(format_time(us), format!("{:.2}s", us as f64 / 1_000_000.0));
    }
}

#[test]
fn numbers_in_groups() {
    assert_eq!(format_number(0), "0");
    assert_eq!(format_number(999), "999");
    assert_eq!(format_number(1_000), "1,000");
    assert_eq!(format_number(40_012_345), "40,012,345");
    assert_eq!(format_number(u32::MAX), "4,294,967,295");
    assert_eq!(format_distance(22_149_999), "22.1");
    assert_eq!(format_distance(22_150_001), "22.2");
    assert_eq!(format_distance(0), "0.0");
    assert_eq!(rounded(5, 2), 2);
    assert_eq!(rounded(7, 2), 4);
}

fn stats(name: &str, timings: &[u64], is_passage: bool) -> RouteStats<(i64, i64)> {
    RouteStats {
        name: name.to_string(),
        distance: 22_100_000,
        raw_hops: 32,
        smooth_hops: 3,
        timings_us: timings.to_vec(),
        is_passage,
        coordinates: vec![(0, 0), (1, 1)],
        from: (0, 0),
        to: (1, 1),
    }
}

#[test]
fn percentiles() {
    let s = stats("x", &[50, 10, 40, 20, 30], false);
    assert_eq!(s.sorted_timings(), vec![10, 20, 30, 40, 50]);
    assert_eq!((s.min_us(), s.max_us()), (10, 50));
    assert_eq!(s.p50_us(), 30);
    assert_eq!(s.p95_us(), 50);
    assert_eq!(s.percentile(0), 10);
    assert_eq!(s.percentile(100), 50);
    let none = stats("x", &[], false);
    assert_eq!(
        (none.min_us(), none.p50_us(), none.p95_us(), none.max_us()),
        (0, 0, 0, 0)
    );
    let hundred: Vec<u64> = (0..100).rev().collect();
    assert_eq!(stats("x", &hundred, false).p95_us(), 95);
}

#[test]
fn routes_of_the_benchmark() {
    let first = bench_route(0);
    assert_eq!(first.name, "English Channel");
    assert_eq!(
        (first.from_lat, first.from_lon, first.to_lat, first.to_lon),
        (5111, 132, 5097, 186)
    );
    assert!(!bench_route(9).is_passage);
    let suez = bench_route(10);
    assert_eq!(suez.name, "Suez Canal");
    assert!(suez.is_passage);
    let last = bench_route(NUM_ROUTES - 1);
    assert_eq!(last.name, "Dover Strait");
    assert_eq!((last.to_lat, last.to_lon), (5085, 175));
    let kept = resolve_routes(&|i: usize| match i {
        3 | 12 => Trial::Routable,
        4 => Trial::NoRoute,
        _ => Trial::NotInGraph,
    });
    let names: Vec<&str> = kept.iter().map(|r| r.name).collect();
    assert_eq!(names, vec!["Baltic Crossing", "Kiel Canal"]);
}

fn result(routes: &[(&str, u64)]) -> BenchResult {
    let list: Vec<RouteStats<(i64, i64)>> = routes
        .iter()
        .map(|&(name, t)| stats(name, &[t], false))
        .collect();
    build_result(&list, 4, 8, "a.graph", "abc", "2024-01-01T00:00:00Z", 50)
}

#[test]
fn comparisons() {
    assert_eq!(judge(None, 5), Verdict::New);
    assert_eq!(judge(Some(0), 5), Verdict::Steady);
    assert_eq!(judge(Some(100), 110), Verdict::Steady);
    assert_eq!(judge(Some(100), 111), Verdict::Regression);
    assert_eq!(judge(Some(100), 90), Verdict::Steady);
    assert_eq!(judge(Some(100), 89), Verdict::Improved);
    assert_eq!(Verdict::Regression.word(), "REGRESSION");
    assert_eq!(Verdict::Improved.word(), "IMPROVED");
    assert_eq!(Verdict::Steady.word(), "OK");
    assert_eq!(Verdict::New.word(), "NEW");

    let before = result(&[("a", 100), ("b", 100)]);
    let now = result(&[("b", 120), ("c", 5)]);
    assert_eq!((now.graph.nodes, now.graph.edges), (4, 8));
    assert_eq!(now.routes[0].p95_us, 120);
    let c = compare(&now, &before);
    assert_eq!(
        c.rows,
        vec![
            (Some(100), Verdict::Regression),
            (None, Verdict::New)
        ]
    );
    assert!(c.has_regression);
    let same = compare(&before, &before);
    assert!(!same.has_regression);
    assert_eq!(same.rows, vec![(Some(100), Verdict::Steady); 2]);
}

#[test]
fn reports_in_markdown() {
    let list = vec![
        stats("English Channel", &[8_500], false),
        stats("Suez Canal", &[14_200], true),
    ];
    let md = markdown(&list, 40_000_000, 12, "abc", "2024-01-01T00:00:00Z", 50);
    assert_eq!(
        md,
        "# Routing Benchmarks\n\n\
         **Graph**: 40,000,000 nodes / 12 edges\n\
         **Commit**: `abc` | **Date**: 2024-01-01 | **Iterations**: 50\n\n\
         ## Sailing Routes\n\n\
         | Route | Distance | Min | P50 | P95 | Max | Hops |\n\
         |-------|----------|-----|-----|-----|-----|------|\n\
         | English Channel | 22.1nm | 8.5ms | 8.5ms | 8.5ms | 8.5ms | 32>3 |\n\n\
         ## Passage Transits\n\n\
         | Route | Distance | Min | P50 | P95 | Max | Hops |\n\
         |-------|----------|-----|-----|-----|-----|------|\n\
         | Suez Canal | 22.1nm | 14.2ms | 14.2ms | 14.2ms | 14.2ms | 32>3 |\n\n\
         *Generated by `asw bench`*\n"
    );
    let none: Vec<RouteStats<(i64, i64)>> = vec![];
    assert!(!markdown(&none, 1, 1, "c", "2024-01-01", 1).contains("##"));
}

#[test]
fn features_of_the_map() {
    let mut empty = stats("none", &[], false);
    empty.coordinates.clear();
    let list = vec![empty, stats("x", &[1], true)];
    assert_eq!(
        map_features(&list),
        vec![(1, Mark::Line), (1, Mark::Start), (1, Mark::End)]
    );
    assert_eq!(feature_name("x", Mark::Line), "x");
    assert_eq!(feature_name("x", Mark::Start), "x (start)");
    assert_eq!(feature_name("x", Mark::End), "x (end)");
    assert_eq!(feature_color(Mark::Line, true), "#0000ff");
    assert_eq!(feature_color(Mark::Line, false), "#0088ff");
    assert_eq!(feature_color(Mark::Start, true), "#00cc00");
    assert_eq!(feature_color(Mark::End, true), "#ff0000");
    assert_eq!(category(true), "passage");
    assert_eq!(category(false), "sailing");
}

fn point(a: &str, b: &str) -> (String, String) {
    (a.to_string(), b.to_string())
}

#[test]
fn features_of_cells_and_coast() {
    assert_eq!(
        hex_feature_string(&vec![point("1", "2"), point("3", "4.5")], 5, "#00cc00"),
        "{\"type\":\"Feature\",\"geometry\":{\"type\":\"Polygon\",\"coordinates\":\
         [[[2,1],[4.5,3],[2,1]]]},\"properties\":{\"layer\":\"hex-res-5\",\"fill\":\"#00cc00\",\
         \"fill-opacity\":0.38,\"stroke\":\"#00cc00\",\"stroke-opacity\":1.0,\"stroke-width\":1}}"
    );
    assert_eq!(
        coastline_feature_string(&vec![point("1", "2"), point("3", "4")]),
        "{\"type\":\"Feature\",\"geometry\":{\"type\":\"LineString\",\"coordinates\":\
         [[1,2],[3,4]]},\"properties\":{\"layer\":\"coastline\",\"stroke\":\"#ff0000\",\
         \"stroke-width\":1.5}}"
    );
    assert_eq!(
        feature_collection(&vec!["A".to_string(), "B".to_string()]),
        "{\"type\":\"FeatureCollection\",\"features\":[A,B]}"
    );
    assert_eq!(
        feature_collection(&vec![]),
        "{\"type\":\"FeatureCollection\",\"features\":[]}"
    );
    let colors: Vec<&str> = (0..10).map(hex_color).collect();
    assert_eq!(
        colors,
        vec![
            "#0088ff", "#0088ff", "#0088ff", "#0088ff", "#00cc00", "#00cc00", "#ffaa00", "#ffaa00",
            "#00ffff", "#ff00ff"
        ]
    );
}

fn cell(lat: f64, lng: f64, res: Resolution) -> u64 {
    u64::from(LatLng::new(lat, lng).unwrap().to_cell(res))
}

fn center(bits: u64) -> (i64, i64) {
    let ll = LatLng::from(CellIndex::try_from(bits).unwrap());
    ((ll.lng() * 1e9) as i64, (ll.lat() * 1e9) as i64)
}

#[test]
fn cells_are_exported_by_resolution() {
    let cells = vec![
        cell(10.0, 10.0, Resolution::Seven),
        cell(10.0, 10.0, Resolution::Five),
        cell(50.0, 50.0, Resolution::Five),
        cell(11.0, 10.0, Resolution::Five),
    ];
    assert_eq!(hex_nodes(&cells, None, &center), Some(vec![1, 2, 3, 0]));
    let near = Bbox {
        min_lon: 9_000_000_000,
        min_lat: 9_000_000_000,
        max_lon: 12_000_000_000,
        max_lat: 12_000_000_000,
    };
    assert_eq!(hex_nodes(&cells, Some(near), &center), Some(vec![1, 3, 0]));
    assert_eq!(hex_nodes(&vec![0], None, &center), None);
    let lines = vec![vec![(0, 0)], vec![(0, 0), (1, 1)], vec![(5, 5), (9, 9)]];
    let at = |p: (i64, i64)| p;
    assert_eq!(coast_segments(&lines, None, &at), vec![1, 2]);
    let b = Bbox {
        min_lon: 4,
        min_lat: 4,
        max_lon: 6,
        max_lat: 6,
    };
    assert_eq!(coast_segments(&lines, Some(b), &at), vec![2]);
}

#[test]
fn layers_have_files_of_their_own() {
    assert_eq!(
        hexagons_path("export/asw.geojson"),
        "export/asw-hexagons.geojson"
    );
    assert_eq!(coastline_path("asw.geojson"), "asw-coastline.geojson");
    assert_eq!(coastline_path("/"), "./-coastline.geojson");
}

#[test]
fn figures_of_a_graph() {
    let mut b: asw::graph::GraphBuilder<()> = asw::graph::GraphBuilder::new();
    for i in 0..4 {
        b.add_node(i, 0);
    }
    b.add_directed_edge(0, 1, 0);
    b.add_directed_edge(0, 2, 1);
    b.add_directed_edge(1, 2, 100_000);
    b.add_directed_edge(2, 3, 110_000);
    b.add_directed_edge(3, 3, 40_000);
    let s = survey_weights(&b.build());
    assert_eq!((s.zero, s.one, s.few, s.many), (1, 1, 2, 1));
    assert_eq!(s.min_nonzero, 1);
    let empty: asw::graph::GraphBuilder<()> = asw::graph::GraphBuilder::new();
    assert_eq!(survey_weights(&empty.build()).min_nonzero, u16::MAX);

    let at = |lat: i64, lon: i64| (lat * 1_000_000_000, lon * 1_000_000_000);
    let places = [at(0, 175), at(65, -170), at(-18, -178), at(38, 15)];
    let position = |v: u32| places[v as usize];
    let count = |r: Region| survey_region(4, r, &position);
    assert_eq!(count(Region::Seam), 2);
    assert_eq!(count(Region::Bering), 1);
    assert_eq!(count(Region::Fiji), 1);
    assert_eq!(count(Region::Mediterranean), 1);
}

#[test]
fn an_export_holds_cells_and_coast() {
    let c = cell(10.0, 10.0, Resolution::Five);
    let lines = vec![vec![(0, 0)], vec![(0, 0), (1, 1)]];
    let outline = |_: u64| vec![point("1", "2")];
    let at = |p: (i64, i64)| p;
    let points = |_: usize| vec![point("3", "4")];
    let export = |cells: &Vec<u64>, coast: bool| {
        asw::export::export_geojson(
            cells, &lines, coast, None, &center, &outline, &at, &points,
        )
    };
    let all = export(&vec![c], true).unwrap();
    assert_eq!(
        all.hexagons,
        vec![hex_feature_string(&vec![point("1", "2")], 5, "#00cc00")]
    );
    assert_eq!(
        all.coastline,
        vec![coastline_feature_string(&vec![point("3", "4")])]
    );
    let (hex, coast) = (all.hexagons[0].clone(), all.coastline[0].clone());
    let combined = feature_collection(&vec![hex.clone(), coast.clone()]);
    assert_eq!(all.combined(), combined);
    assert_eq!(
        all.files("out/asw.geojson"),
        vec![
            (
                "out/asw-hexagons.geojson".to_string(),
                feature_collection(&vec![hex])
            ),
            (
                "out/asw-coastline.geojson".to_string(),
                feature_collection(&vec![coast])
            ),
            ("out/asw.geojson".to_string(), combined),
        ]
    );
    // A layer without features has no file of its own.
    let empty = export(&vec![], false).unwrap();
    assert_eq!(
        empty.files("asw.geojson"),
        vec![("asw.geojson".to_string(), feature_collection(&vec![]))]
    );
    assert!(export(&vec![c], false).unwrap().coastline.is_empty());
    assert!(export(&vec![1], true).is_none());
}
