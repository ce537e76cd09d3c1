use asw::assembly::{assemble_graph, compute_shore_distances};
use asw::bounds::{bounding_rect, Bbox, LonLat};
use asw::build_graph::{run, BuildError, Site};
use asw::canal_water::{
    canal_dir, canal_files, canals_in_build, coords_to_polygon, export_args, filter_args,
    geojson_geometry_to_polygons, hyphenate, keep_feature, passage_water, Feature, Geometry, Tags,
};
use asw::cell_list::sorted_cells;
use asw::cells::{
    cascade, cell_min_coast_dist, cell_radius, coast_distance_of, generate_cells, global_cells,
    in_passage_corridor, insert_cell, passage_in_build, tier_name, Ground,
};
use asw::coastline::{clip_coastline, extract_coastline, subdivide_ring};
use asw::edges::{build_edges, Spans};
use asw::geo_index::CoastlineIndex;
use asw::graph::quantize_shore_dist;
use asw::h3::{children, neighbors, parent, resolution};
use asw::passages::passages;
use asw::shapefile::{
    archive_path, convert_shapefile_polygon, entry_file_name, extract_path, extracting_path,
    in_build, is_shapefile, Extraction, Ring, Shape,
};
use asw::water_text::{water_of_document, water_of_text, Document, RawFeature};
use h3o::{CellIndex, LatLng, Resolution};
use std::collections::HashMap;

fn nano(deg: f64) -> i64 {
    (deg * 1e9).round() as i64
}

fn cell(lat: f64, lng: f64, res: Resolution) -> u64 {
    u64::from(LatLng::new(lat, lng).unwrap().to_cell(res))
}

/// Latitude and longitude of a cell's centre.
fn center(bits: u64) -> (i64, i64) {
    let ll = LatLng::from(CellIndex::try_from(bits).unwrap());
    (nano(ll.lat()), nano(ll.lng()))
}

fn span(a: u64, b: u64) -> u32 {
    let (p, q) = (
        LatLng::from(CellIndex::try_from(a).unwrap()),
        LatLng::from(CellIndex::try_from(b).unwrap()),
    );
    (p.distance_m(q) / 1852.0 * 1e6).round() as u32
}

#[test]
fn near_and_far_cells() {
    // Vertical coastline at lon 28.0
    let line: Vec<LonLat> = vec![(nano(28.0), nano(36.0)), (nano(28.0), nano(37.0))];
    let index = CoastlineIndex::new(&vec![bounding_rect(&line).unwrap()]);
    let cos = |lat: i64| ((lat as f64 / 1e9).to_radians().cos() * 1e9).round() as i64;
    // Both cells lie between the ends of the coastline.
    let to_line = |_: usize, p: LonLat| {
        let lat = p.1 as f64 / 1e9;
        ((p.0 - nano(28.0)).abs() as f64 / 1e9 * 60.0 * lat.to_radians().cos() * 1e6).round() as i64
    };
    let distance = |c: u64| {
        let (lat, lon) = center(c);
        index.min_distance_nm(&to_line, &cos, lon, lat, 5_100_000)
    };

    let near = cell(36.5, 28.05, Resolution::Nine);
    let far = cell(36.5, 29.5, Resolution::Nine);
    let result = compute_shore_distances(&vec![(near, 0), (far, 1)], &distance);

    let (lat, lon) = center(near);
    let (lat, lon) = (lat as f64 / 1e9, lon as f64 / 1e9);
    let nm = (lon - 28.0) * 60.0 * lat.to_radians().cos();
    let expected = quantize_shore_dist((nm * 1e6).round() as i64);
    assert_eq!(result[0], expected);
    assert_eq!(result[1], 255, "cell ~72 nm from shore must saturate");
}

#[test]
fn cells_of_the_grid() {
    let c = cell(51.5, -0.1, Resolution::Five);
    assert_eq!(resolution(c), 5);
    assert_eq!(parent(c, 6), None);
    assert_eq!(parent(c, 5), Some(c));
    let p = parent(c, 4).unwrap();
    assert_eq!(resolution(p), 4);
    let kids = children(p, 5);
    assert_eq!(kids.len(), 7);
    assert!(kids.contains(&c));
    assert!(kids.iter().all(|&k| parent(k, 4) == Some(p)));
    assert!(children(c, 4).is_empty());
    let around = neighbors(c);
    assert_eq!(around.len(), 6);
    assert!(!around.contains(&c));
    assert!(around.iter().all(|&n| neighbors(n).contains(&c)));
    let d = 0x8a1f_b466_22df_fff;
    assert_eq!(parent(d, 5), Some(0x851f_b467_ffff_fff));
    assert_eq!(parent(parent(d, 8).unwrap(), 5), parent(d, 5));
    assert_eq!(parent(d, 0), Some(0x801f_ffff_ffff_fff));
    // All base cells: 122, and 7 times as many on the next, less for pentagons.
    assert_eq!(global_cells(0).len(), 122);
    let all = global_cells(1);
    assert_eq!(all.len(), 842);
    let mut once = all.clone();
    once.sort();
    once.dedup();
    assert_eq!(once.len(), all.len());
}

#[test]
fn tiers_of_cells() {
    assert_eq!(
        cascade(),
        vec![
            (3, nano(0.30)),
            (4, nano(0.15)),
            (5, nano(0.05)),
            (6, nano(0.025)),
            (7, nano(0.012)),
            (8, nano(0.005)),
            (9, nano(0.002)),
        ]
    );
    assert_eq!(tier_name(3), "ocean");
    assert_eq!(tier_name(10), "shoreline");
    assert_eq!(tier_name(2), "unknown");
    assert_eq!(cell_radius(cell(0.0, 0.0, Resolution::Three)), nano(0.6));
    assert_eq!(cell_radius(cell(0.0, 0.0, Resolution::Ten)), nano(0.002));
}

#[test]
fn distance_of_a_cell_is_that_of_its_nearest_point() {
    let c = cell(0.0, 0.0, Resolution::Eight);
    let points = vec![(10, 0), (-3, 0), (20, 0)];
    let coast = |lon: i64, _: i64, radius: i64| {
        assert_eq!(radius, nano(0.005) + nano(0.005));
        lon.abs()
    };
    assert_eq!(cell_min_coast_dist(c, &points, &coast, nano(0.005)), 3);
    assert_eq!(
        coast_distance_of(c, &points, &coast, nano(0.005)),
        Some(3)
    );
    assert_eq!(coast_distance_of(7, &points, &coast, nano(0.005)), None);
}

#[test]
fn cells_are_numbered_once() {
    let mut map = HashMap::new();
    assert!(insert_cell(&mut map, 30).is_ok());
    assert!(insert_cell(&mut map, 10).is_ok());
    assert!(insert_cell(&mut map, 30).is_ok());
    assert_eq!(sorted_cells(&map), vec![(10, 1), (30, 0)]);
}

#[test]
fn passages_of_the_globe() {
    let all = passages();
    assert_eq!(all.len(), 14);
    assert_eq!(all[0].name, "Suez Canal");
    assert!(in_passage_corridor(&all, nano(32.3), nano(30.0)));
    assert!(!in_passage_corridor(&all, nano(0.0), nano(0.0)));
    assert!(passage_in_build(&all[0], None));
    let marmaris = asw::config::resolve_bbox("marmaris");
    assert!(!passage_in_build(&all[0], marmaris));
}

/// Open sea without any coast.
fn open_sea(
) -> Ground<fn(u64) -> bool, fn(u64) -> bool, fn(u64, i64) -> i64, fn(u64) -> (i64, i64)> {
    Ground {
        contains: |_| false,
        intersects: |_| false,
        coast_distance: |_, _| i64::MAX,
        center,
    }
}

#[test]
fn far_from_land_cells_stay_large() {
    let c = cell(0.0, -30.0, Resolution::Three);
    let base = vec![c];
    let cells = generate_cells(&base, &vec![], None, &vec![], &open_sea()).unwrap();
    assert_eq!(sorted_cells(&cells), vec![(c, 0)]);
}

#[test]
fn land_is_left_out() {
    let base = vec![cell(0.0, -30.0, Resolution::Three)];
    let ground = Ground {
        contains: |_: u64| true,
        intersects: |_: u64| true,
        coast_distance: |_: u64, _: i64| 0,
        center,
    };
    let cells = generate_cells(&base, &vec![], None, &vec![], &ground).unwrap();
    assert!(cells.is_empty());
}

#[test]
fn cells_near_the_coast_are_refined() {
    let c = cell(0.0, -30.0, Resolution::Three);
    let base = vec![c];
    // Near as cells of resolution 3, far once they are smaller.
    let ground = Ground {
        contains: |_: u64| false,
        intersects: |_: u64| false,
        coast_distance: |c: u64, _: i64| if resolution(c) == 3 { 0 } else { i64::MAX },
        center,
    };
    let cells = generate_cells(&base, &vec![], None, &vec![], &ground).unwrap();
    let mut expected = children(c, 4);
    expected.sort();
    let found: Vec<u64> = sorted_cells(&cells).iter().map(|e| e.0).collect();
    assert_eq!(found, expected);
}

#[test]
fn no_cell_lies_inside_another() {
    let base = vec![cell(0.0, -30.0, Resolution::Three)];
    // Cells with an odd last digit are kept below the base, the others refined.
    let ground = Ground {
        contains: |_: u64| false,
        intersects: |_: u64| false,
        coast_distance: |c: u64, _: i64| {
            let digit = c >> (3 * (15 - resolution(c)));
            if resolution(c) == 3 || digit % 2 == 0 {
                0
            } else {
                i64::MAX
            }
        },
        center,
    };
    let cells = generate_cells(&base, &vec![], None, &vec![], &ground).unwrap();
    let resolutions: Vec<u8> = cells.keys().map(|&c| resolution(c)).collect();
    assert!(resolutions.contains(&5) && resolutions.contains(&9));
    for &c in cells.keys() {
        for res in 0..resolution(c) {
            assert!(!cells.contains_key(&parent(c, res).unwrap()));
        }
    }
}

fn sea_spans(
) -> Spans<fn(u64) -> (i64, i64), fn(u64, u64) -> u32, fn(i64, i64) -> bool> {
    Spans {
        center,
        distance: span,
        is_water: |_, _| true,
    }
}

#[test]
fn neighbours_are_joined() {
    let c = cell(0.0, -30.0, Resolution::Three);
    let mut map: HashMap<u64, u32> = HashMap::new();
    map.insert(c, 0);
    for (i, n) in neighbors(c).into_iter().enumerate() {
        map.insert(n, i as u32 + 1);
    }
    let edges = build_edges(&map, &sea_spans());
    // Six spokes and six sides.
    assert_eq!(edges.len(), 12);
    assert!(edges.iter().all(|e| e.0 < e.1 && e.2 > 0));
    let dry = Spans {
        center,
        distance: span,
        is_water: |_: i64, _: i64| false,
    };
    assert!(build_edges(&map, &dry).is_empty());
    // Numbers only have to tell the cells apart.
    let spread: HashMap<u64, u32> = map.iter().map(|(&c, &id)| (c, 1000 * id + 7)).collect();
    let far = build_edges(&spread, &sea_spans());
    assert_eq!(far.len(), edges.len());
    for (a, b, w) in edges {
        assert!(far.contains(&(1000 * a + 7, 1000 * b + 7, w)));
    }
}

#[test]
fn graphs_are_assembled_in_the_order_of_cells() {
    let mut map: HashMap<u64, u32> = HashMap::new();
    map.insert(30, 0);
    map.insert(10, 1);
    map.insert(20, 2);
    let list = sorted_cells(&map);
    let coast = vec![vec![(1.0f32, 2.0f32)]];
    let g = assemble_graph(
        &map,
        &list,
        &vec![1, 2, 3],
        &vec![(0, 1, 50_000)],
        coast.clone(),
    )
    .unwrap();
    assert_eq!(g.node_h3, vec![10, 20, 30]);
    assert_eq!(g.shore_dist, vec![1, 2, 3]);
    assert_eq!(g.neighbor_list(0), vec![(2, 5)]);
    assert_eq!(g.neighbor_list(2), vec![(0, 5)]);
    assert_eq!(g.num_edges, 2);
    assert_eq!(g.coastline_coords, coast);
}

#[test]
fn a_build_from_end_to_end() {
    let c = cell(0.0, -30.0, Resolution::Three);
    let mut base = neighbors(c);
    base.push(c);
    // A cell far away is cut off from the rest.
    base.push(cell(0.0, 80.0, Resolution::Three));
    let none = vec![];
    let zones = vec![];
    let coast = vec![vec![(0, 0), (1, 1)], vec![(50, 50), (60, 60)]];
    let bbox = Bbox {
        min_lon: -5,
        min_lat: -5,
        max_lon: 5,
        max_lat: 5,
    };
    let site = Site {
        base: &base,
        passages: &none,
        bbox: Some(bbox),
        zone_cells: &zones,
        coastline: &coast,
        ground: open_sea(),
        spans: sea_spans(),
    };
    let g = run(&site, &|_: u64| 40_000, &|p: (i64, i64)| p)
        .ok()
        .unwrap();
    let mut expected = neighbors(c);
    expected.push(c);
    expected.sort();
    assert_eq!(g.node_h3, expected);
    assert_eq!(g.num_edges, 24);
    assert_eq!(g.shore_dist, vec![2; 7]);
    assert_eq!(g.coastline_coords, vec![vec![(0, 0), (1, 1)]]);
    assert_eq!(g.connected_components(), vec![7]);

    let wrong = vec![cell(0.0, 0.0, Resolution::Four)];
    let site = Site {
        base: &wrong,
        ..site
    };
    let refused = run(&site, &|_: u64| 0, &|p: (i64, i64)| p).err();
    assert_eq!(refused, Some(BuildError::NotBaseCells));
}

#[test]
fn edges_too_long_for_a_weight() {
    let c = cell(0.0, -30.0, Resolution::Three);
    let base = vec![c, neighbors(c)[0]];
    let none = vec![];
    let zones = vec![];
    let coast: Vec<Vec<(i64, i64)>> = vec![];
    let site = Site {
        base: &base,
        passages: &none,
        bbox: None,
        zone_cells: &zones,
        coastline: &coast,
        ground: open_sea(),
        spans: Spans {
            center,
            distance: |_: u64, _: u64| 655_360_000,
            is_water: |_: i64, _: i64| true,
        },
    };
    let refused = run(&site, &|_: u64| 0, &|p: (i64, i64)| p).err();
    assert_eq!(refused, Some(BuildError::EdgeTooLong));
}

#[test]
fn rings_are_cut_into_pieces() {
    let short: Vec<u32> = (0..256).collect();
    assert_eq!(subdivide_ring(&short), vec![short.clone()]);
    let long: Vec<u32> = (0..600).collect();
    let pieces = subdivide_ring(&long);
    assert_eq!(
        pieces,
        vec![
            (0..256).collect::<Vec<u32>>(),
            (255..511).collect(),
            (510..600).collect()
        ]
    );
    assert_eq!(subdivide_ring(&Vec::<u32>::new()), vec![Vec::<u32>::new()]);
}

#[test]
fn holes_are_coast_too() {
    let shapes = vec![
        Shape {
            exterior: vec![1, 2, 3],
            holes: vec![vec![4, 5], vec![6, 7]],
        },
        Shape {
            exterior: vec![8, 9],
            holes: vec![],
        },
    ];
    assert_eq!(
        extract_coastline(&shapes),
        vec![vec![1, 2, 3], vec![4, 5], vec![6, 7], vec![8, 9]]
    );
}

#[test]
fn coastline_outside_the_box_is_dropped() {
    let lines = vec![vec![(0, 0), (9, 9)], vec![(5, 5)], vec![]];
    let b = Bbox {
        min_lon: 4,
        min_lat: 4,
        max_lon: 6,
        max_lat: 6,
    };
    assert_eq!(
        clip_coastline(&lines, b, &|p: (i64, i64)| p),
        vec![vec![(5, 5)]]
    );
}

fn ring(outer: bool, points: &[u32]) -> Ring<u32> {
    Ring {
        outer,
        points: points.to_vec(),
    }
}

#[test]
fn inner_rings_belong_to_the_outer_one_before() {
    let shapes = convert_shapefile_polygon(&vec![
        ring(false, &[9]),
        ring(true, &[1]),
        ring(false, &[2]),
        ring(false, &[3]),
        ring(true, &[4]),
    ]);
    assert_eq!(shapes.len(), 2);
    assert_eq!(shapes[0].exterior, vec![1]);
    assert_eq!(shapes[0].holes, vec![vec![2], vec![3]]);
    assert_eq!(shapes[1].exterior, vec![4]);
    assert!(shapes[1].holes.is_empty());
    assert!(convert_shapefile_polygon(&vec![ring(false, &[1])]).is_empty());
}

#[test]
fn files_of_the_land_polygons() {
    assert!(is_shapefile("/d/land_polygons.shp"));
    assert!(!is_shapefile("/d/land_polygons.shx"));
    assert!(!is_shapefile("/d/.shp"));
    assert_eq!(archive_path("w"), "w/land-polygons-split-4326.zip");
    assert_eq!(extract_path("w"), "w/land-polygons-split-4326");
    assert_eq!(extracting_path("w/land"), "w/land.extracting.tmp");
    assert_eq!(extracting_path("/"), "/extract.extracting.tmp");
    assert_eq!(
        entry_file_name("land-polygons/a.shp"),
        Some("a.shp".to_string())
    );
    assert_eq!(entry_file_name("a.shp"), Some("a.shp".to_string()));
    assert_eq!(entry_file_name("land-polygons/"), None);
    let b = Bbox {
        min_lon: 0,
        min_lat: 0,
        max_lon: 5,
        max_lat: 5,
    };
    assert!(in_build(&vec![(9, 9)], None));
    assert!(in_build(&vec![(5, 5), (9, 9)], Some(b)));
    assert!(!in_build(&vec![(6, 6), (9, 9)], Some(b)));
}

#[test]
fn a_broken_archive_is_not_published() {
    let mut step = Extraction::Prepare;
    let mut seen = vec![step];
    for ok in [true, true, true, true] {
        step = step.next(ok, 2);
        seen.push(step);
    }
    assert_eq!(
        seen,
        vec![
            Extraction::Prepare,
            Extraction::Entry(0),
            Extraction::Entry(1),
            Extraction::Publish,
            Extraction::Done
        ]
    );
    let broken = Extraction::Entry(1).next(false, 2);
    assert_eq!(broken, Extraction::Discard);
    assert_eq!(broken.next(true, 2), Extraction::Failed);
    assert_eq!(Extraction::Prepare.next(true, 0), Extraction::Publish);
    assert_eq!(Extraction::Prepare.next(false, 5), Extraction::Failed);
}

#[test]
fn canals_with_an_extract() {
    let all = passages();
    let everywhere = canals_in_build(&all, None);
    assert!(!everywhere.is_empty());
    for &i in &everywhere {
        assert!(all[i].geofabrik_url.is_some());
        assert!(!all[i].water_types.is_empty());
    }
    let marmaris = asw::config::resolve_bbox("marmaris");
    assert!(canals_in_build(&all, marmaris).is_empty());
}

#[test]
fn files_of_a_canal() {
    assert_eq!(hyphenate("a b c"), "a-b-c");
    assert_eq!(canal_dir("w"), "w/canal-water");
    let f = canal_files("w", "Welland Canal");
    assert_eq!(f.pbf, "w/welland-canal.osm.pbf");
    assert_eq!(f.water, "w/welland-canal-water.osm.pbf");
    assert_eq!(f.geojson, "w/welland-canal-water.geojson");
    assert_eq!(
        filter_args(&f),
        vec![
            "tags-filter",
            "w/welland-canal.osm.pbf",
            "nwr/natural=water",
            "-o",
            "w/welland-canal-water.osm.pbf",
            "--overwrite"
        ]
    );
    assert_eq!(
        export_args(&f),
        vec![
            "export",
            "w/welland-canal-water.osm.pbf",
            "-o",
            "w/welland-canal-water.geojson",
            "--overwrite"
        ]
    );
}

fn tags(water: Option<&str>, natural: Option<&str>) -> Option<Tags> {
    Some(Tags {
        water: water.map(str::to_string),
        natural: natural.map(str::to_string),
    })
}

#[test]
fn wanted_features() {
    let types = vec!["lock", "canal"];
    assert!(keep_feature(&tags(Some("canal"), Some("water")), &types));
    assert!(keep_feature(&tags(None, Some("water")), &types));
    assert!(keep_feature(&tags(Some(""), Some("water")), &types));
    assert!(!keep_feature(&tags(Some("pond"), Some("water")), &types));
    assert!(!keep_feature(&tags(Some("canal"), Some("wood")), &types));
    assert!(!keep_feature(&tags(Some("canal"), None), &types));
    assert!(!keep_feature(&None, &types));
}

#[test]
fn polygons_of_geometries() {
    let square = vec![vec![vec![0, 0, 7], vec![1, 0], vec![1, 1]], vec![vec![2, 3]]];
    let p = coords_to_polygon(&square).unwrap();
    assert_eq!(p.exterior, vec![(0, 0), (1, 0), (1, 1)]);
    assert_eq!(p.holes, vec![vec![(2, 3)]]);
    assert!(coords_to_polygon(&Vec::<Vec<Vec<i32>>>::new()).is_none());
    let one = geojson_geometry_to_polygons(&Geometry::Polygon(square.clone()));
    assert_eq!(one.len(), 1);
    let many = geojson_geometry_to_polygons(&Geometry::MultiPolygon(vec![
        square.clone(),
        vec![],
        square,
    ]));
    assert_eq!(many.len(), 2);
    assert!(geojson_geometry_to_polygons::<i32>(&Geometry::Other).is_empty());
}

#[test]
fn water_of_a_passage() {
    let corridor = Bbox {
        min_lon: 0,
        min_lat: 0,
        max_lon: 10,
        max_lat: 10,
    };
    let square = |x: i64| {
        let at = |dx: i64, dy: i64| vec![x + dx, dy];
        vec![vec![at(0, 0), at(2, 0), at(2, 2), at(0, 0)]]
    };
    let canal = || tags(Some("canal"), Some("water"));
    let features: Vec<Feature<i64>> = vec![
        (canal(), Some(Geometry::Polygon(square(1)))),
        (canal(), Some(Geometry::Polygon(square(50)))),
        (tags(Some("pond"), Some("water")), Some(Geometry::Polygon(square(3)))),
        (None, Some(Geometry::Polygon(square(3)))),
        (canal(), None),
        (canal(), Some(Geometry::MultiPolygon(vec![square(60), square(7)]))),
    ];
    let found = passage_water(&features, &vec!["canal"], corridor, &|p: (i64, i64)| p);
    let starts: Vec<(i64, i64)> = found.iter().map(|s| s.exterior[0]).collect();
    assert_eq!(starts, vec![(1, 0), (7, 0)]);
    assert!(found.iter().all(|s| s.exterior.len() == 4 && s.holes.is_empty()));
}

/// Degrees in nanodegrees, from the bits of the numbers.
fn by_bits(p: (u64, u64)) -> LonLat {
    (nano(f64::from_bits(p.0)), nano(f64::from_bits(p.1)))
}

fn suez() -> Bbox {
    Bbox {
        min_lon: nano(32.0),
        min_lat: nano(29.0),
        max_lon: nano(33.0),
        max_lat: nano(32.0),
    }
}

fn feature_text(properties: &str, kind: &str, coordinates: &str) -> String {
    format!(
        "{{\"type\":\"Feature\",\"properties\":{},\"geometry\":\
         {{\"type\":\"{}\",\"coordinates\":{}}}}}",
        properties, kind, coordinates
    )
}

fn collection_text(features: &[String]) -> String {
    format!(
        "{{\"type\":\"FeatureCollection\",\"features\":[{}]}}",
        features.join(",")
    )
}

const CANAL: &str = "{\"natural\":\"water\",\"name\":\"x\",\"water\":\"canal\"}";
const RING: &str = "[[32.5,30.25],[32.5,30.5],[32.75,30.5],[32.5,30.25]]";

#[test]
fn water_in_the_text_of_an_extract() {
    let square = format!("[{}]", RING);
    let text = collection_text(&[
        feature_text(CANAL, "Polygon", &square),
        feature_text("{\"natural\":\"water\",\"water\":7}", "Polygon", &square),
        feature_text("{\"natural\":\"water\",\"water\":\"pond\"}", "Polygon", &square),
        feature_text("{\"water\":\"canal\"}", "Polygon", &square),
        feature_text("null", "Polygon", &square),
        feature_text(CANAL, "Point", "[32.5,30.5]"),
        feature_text(CANAL, "Polygon", "[[[50,50],[51,50],[51,51],[50,50]]]"),
        feature_text(
            CANAL,
            "MultiPolygon",
            &format!("[[{},[[32.6,30.4,9.5],[32.6,30.45],[32.65,30.45],[32.6,30.4]]]]", RING),
        ),
        "{\"type\":\"Feature\",\"properties\":{\"natural\":\"water\"},\"geometry\":null}".to_string(),
    ]);
    let found = water_of_text(&text, &vec!["canal"], suez(), &by_bits).unwrap();
    assert_eq!(found.len(), 3);
    let first = (f64::to_bits(32.5), f64::to_bits(30.25));
    assert!(found.iter().all(|s| s.exterior.len() == 4 && s.exterior[0] == first));
    assert!(found[0].holes.is_empty() && found[1].holes.is_empty());
    assert_eq!(found[2].holes.len(), 1);
    assert_eq!(found[2].holes[0][0], (f64::to_bits(32.6), f64::to_bits(30.4)));
}

#[test]
fn texts_without_water() {
    let types = vec!["canal"];
    let lone = feature_text(CANAL, "Polygon", &format!("[{}]", RING));
    let geometry = format!("{{\"type\":\"Polygon\",\"coordinates\":[{}]}}", RING);
    // Only collections are looked through.
    for text in [lone, geometry, collection_text(&[])] {
        let found = water_of_text(&text, &types, suez(), &by_bits);
        assert!(found.unwrap().is_empty());
    }
    let short = feature_text(CANAL, "Polygon", "[[[32.5],[32.6,30.5]]]");
    for text in ["", "{}", "[1]", "{\"type\":\"FeatureCollection\"}", &collection_text(&[short])] {
        assert!(water_of_text(text, &types, suez(), &by_bits).is_none());
    }
}

#[test]
fn water_of_the_features_of_a_document() {
    let property = |name: &str, value: Option<&str>| (name.to_string(), value.map(str::to_string));
    let raw = |water: Option<&str>| RawFeature {
        properties: Some(vec![
            property("name", Some("natural")),
            property("natural", Some("water")),
            property("water", water),
            property("water", Some("canal")),
        ]),
        geometry: Some(Geometry::Polygon(vec![vec![vec![3, 4], vec![5, 6]]])),
    };
    let area = Bbox {
        min_lon: 0,
        min_lat: 0,
        max_lon: 10,
        max_lat: 10,
    };
    let at = |p: (u64, u64)| (p.0 as i64, p.1 as i64);
    let types = vec!["canal"];
    // The first property of a name counts.
    let list = vec![raw(Some("canal")), raw(Some("lake")), raw(None)];
    let found = water_of_document(Document::Collection(list), &types, area, &at);
    assert_eq!(found.len(), 2);
    assert_eq!(found[1].exterior, vec![(3, 4), (5, 6)]);
    assert!(water_of_document(Document::Feature, &types, area, &at).is_empty());
    assert!(water_of_document(Document::Geometry, &types, area, &at).is_empty());
}
