use asw::api::{
    admit_route, health_reply, outcome_of, route_reply, usable_key, ApiError, Endpoint, RouteQuery,
    ServerState,
};
use asw::astar_pool::{AstarBuffers, AstarPool, DEFAULT_POOL_SIZE, NO_NODE, UNREACHED};
use asw::graph::{GraphBuilder, RoutingGraph};
use asw::bounds::LonLat;
use asw::route::{compute_route, Measures, RouteResult};
use asw::state::{AppState, NotACell, SNAP_RESOLUTIONS};
use h3o::{CellIndex, LatLng, Resolution};

type Graph = RoutingGraph<(f32, f32)>;
type Builder = GraphBuilder<(f32, f32)>;

const NM: u32 = 1_000_000;

fn parse_latlng(s: &str) -> Option<(f64, f64)> {
    let (lat, lon) = asw::api::parse_latlng(s)?;
    Some((lat.parse().ok()?, lon.parse().ok()?))
}

#[test]
fn parse_valid() {
    let (lat, lon) = parse_latlng("36.85,28.27").unwrap();
    assert!((lat - 36.85).abs() < 1e-10);
    assert!((lon - 28.27).abs() < 1e-10);
}

#[test]
fn parse_whitespace() {
    let (lat, lon) = parse_latlng(" 36.85 , 28.27 ").unwrap();
    assert!((lat - 36.85).abs() < 1e-10);
    assert!((lon - 28.27).abs() < 1e-10);
}

#[test]
fn parse_negative() {
    let (lat, lon) = parse_latlng("-33.9,18.4").unwrap();
    assert!((lat - -33.9).abs() < 1e-10);
    assert!((lon - 18.4).abs() < 1e-10);
}

#[test]
fn parse_invalid() {
    assert!(parse_latlng("abc,def").is_none());
}

#[test]
fn parse_too_many_commas() {
    assert!(parse_latlng("1,2,3").is_none());
}

#[test]
fn parse_empty() {
    assert!(parse_latlng("").is_none());
}

#[test]
fn parts_of_a_point() {
    assert_eq!(
        asw::api::parse_latlng("\ta , b c "),
        Some(("a".to_string(), "b c".to_string()))
    );
    assert_eq!(
        asw::api::parse_latlng(","),
        Some((String::new(), String::new()))
    );
}

#[test]
fn server_state_stores_api_key() {
    let state: ServerState<()> = ServerState::new("test.graph".into(), "test-key-1234".into());
    assert_eq!(state.api_key(), "test-key-1234");
    assert_eq!(state.graph_path, "test.graph");
}

fn test_state() -> ServerState<u8> {
    ServerState::new("test.graph".into(), "secret-key-1234567890".into())
}

#[test]
fn health_is_always_ok() {
    assert_eq!(health_reply(), "ok");
}

#[test]
fn readiness_follows_the_graph() {
    assert_eq!(test_state().ready_reply(), Err(503));
    let mut state = test_state();
    state.set_ready(1);
    assert_eq!(state.ready_reply(), Ok("ready"));
}

#[test]
fn a_missing_key_is_unauthorized() {
    let refused = test_state().authorize(None).unwrap_err();
    assert_eq!(refused, ApiError::Unauthorized);
    assert_eq!(refused.status(), 401);
    assert_eq!(refused.response().error, "unauthorized");
}

#[test]
fn a_wrong_key_is_unauthorized() {
    let refused = test_state().authorize(Some("wrong-key")).unwrap_err();
    assert_eq!(refused.status(), 401);
    // As long as the right one.
    assert!(test_state()
        .authorize(Some("secret-key-1234567891"))
        .is_err());
}

#[test]
fn the_right_key_leads_to_the_graph() {
    let state = test_state();
    assert_eq!(state.authorize(Some("secret-key-1234567890")), Ok(()));
    // The graph is not loaded: past the key, the answer is 503.
    let refused = admit_route(false, Some(1), Some(2), true).unwrap_err();
    assert_eq!(refused.status(), 503);
    assert_eq!(refused.response().error, "Server is loading graph...");
}

#[test]
fn info_names_the_graph() {
    let state = test_state();
    assert_eq!(state.authorize(Some("secret-key-1234567890")), Ok(()));
    let size = |app: &u8| (*app as u32, *app as u32 + 1);
    assert_eq!(state.info_reply(&size, "1.0").err(), Some(503));
    let mut state = state;
    state.set_ready(3);
    let info = state.info_reply(&size, "1.0").ok().unwrap();
    assert_eq!((info.nodes, info.edges), (3, 4));
    assert_eq!(info.graph_path, "test.graph");
    assert_eq!(info.version, "1.0");
}

#[test]
fn the_first_obstacle_counts() {
    let none: Option<u8> = None;
    assert_eq!(admit_route(true, none, none, false), Err(ApiError::BadFrom));
    assert_eq!(
        admit_route(true, Some(1), none, false),
        Err(ApiError::BadTo)
    );
    assert_eq!(
        admit_route(true, Some(1), Some(2), false),
        Err(ApiError::AtCapacity)
    );
    assert_eq!(admit_route(true, Some(1), Some(2), true), Ok((1, 2)));
    assert_eq!(ApiError::BadFrom.status(), 400);
    assert_eq!(ApiError::BadTo.status(), 400);
    assert_eq!(
        ApiError::BadTo.response().error,
        "Invalid 'to' parameter. Expected: lat,lon"
    );
    let query = RouteQuery {
        from: "1,2".to_string(),
        to: "3,4".to_string(),
    };
    assert!(parse_latlng(&query.from).is_some() && parse_latlng(&query.to).is_some());
}

#[test]
fn route_replies() {
    let found = RouteResult {
        distance: 1_250_000,
        raw_hops: 9,
        smooth_hops: 2,
        coordinates: vec![1, 2],
    };
    let reply = route_reply(Some(Some(found))).ok().unwrap();
    assert_eq!(reply.distance_tenths, 13);
    assert_eq!((reply.raw_hops, reply.smooth_hops), (9, 2));
    assert_eq!(reply.coordinates, vec![1, 2]);
    let none: Option<Option<RouteResult<u8>>> = Some(None);
    let refused = route_reply(none).err().unwrap();
    assert_eq!(refused.status(), 404);
    let broken: Option<Option<RouteResult<u8>>> = None;
    assert_eq!(route_reply(broken).err().unwrap().status(), 500);
}

#[test]
fn keys_of_white_space_are_useless() {
    assert!(usable_key(" k "));
    assert!(!usable_key(" \t\n"));
    assert!(!usable_key(""));
    assert!(!usable_key("\u{b}\u{85}\u{a0}\u{1680}\u{2003}\u{2028}\u{202f}\u{205f}\u{3000}"));
    // The zero-width space has a width of none, and is not white space.
    assert!(usable_key("\u{200b}"));
}

#[test]
fn buffers_new_initializes_correctly() {
    let mut buf = AstarBuffers::new(100);
    assert_eq!(buf.g_score.len(), 100);
    assert_eq!(buf.came_from.len(), 100);
    assert_eq!(buf.closed.len(), 100);

    // Every node reads as "unset" the first time it's touched.
    for &i in &[0u32, 50, 99] {
        assert!(
            buf.touch(i),
            "node {i} should be a first touch on a fresh buffer"
        );
        assert_eq!(buf.g_score[i as usize], UNREACHED);
        assert_eq!(buf.came_from[i as usize], NO_NODE);
        assert_eq!(NO_NODE, u32::MAX);
        assert!(!buf.closed[i as usize]);
    }
}

#[test]
fn buffers_reset_clears_state() {
    let mut buf = AstarBuffers::new(10);
    assert!(buf.touch(0));
    buf.g_score[0] = 0;
    buf.came_from[0] = 5;
    buf.closed[0] = true;

    buf.reset();

    assert!(
        buf.touch(0),
        "node touched before a previous generation should present as untouched after reset"
    );
    assert_eq!(buf.g_score[0], UNREACHED);
    assert_eq!(buf.came_from[0], NO_NODE);
    assert!(!buf.closed[0]);
}

#[test]
fn reset_is_o1_generation_bump_not_full_clear() {
    let mut buf = AstarBuffers::new(5);
    assert!(buf.touch(2));
    buf.g_score[2] = 7;
    buf.closed[2] = true;

    buf.reset();

    // reset() must not eagerly rewrite the raw arrays: the old values
    // are still physically present until the node is touched again.
    assert_eq!(buf.g_score[2], 7);
    assert!(buf.closed[2]);

    // But logically, the generation guard treats it as fresh: touch()
    // reports a first touch and reinitializes the entry lazily.
    assert!(buf.touch(2));
    assert_eq!(buf.g_score[2], UNREACHED);
    assert!(!buf.closed[2]);
}

#[test]
fn reset_handles_generation_wraparound() {
    let mut buf = AstarBuffers::new(10);
    buf.current_gen = u32::MAX;

    assert!(buf.touch(3));
    buf.g_score[3] = 42;
    buf.closed[3] = true;
    // A node NOT touched under this generation.
    assert_eq!(buf.g_score[4], UNREACHED);

    buf.reset(); // wraps: full clear of `gen`, current_gen restarts at 1

    // Previously-touched node must present as fresh again, not as
    // "already valid" due to reused generation numbers.
    assert!(buf.touch(3));
    assert_eq!(buf.g_score[3], UNREACHED);
    assert!(!buf.closed[3]);

    // A second reset after wraparound should go back to simple bumps.
    buf.reset();
    assert!(buf.touch(3));
}

#[test]
fn pool_acquire_and_release() {
    let mut pool = AstarPool::new(50, 2);

    // Acquire a buffer
    let mut buf = pool.acquire();
    assert_eq!(buf.g_score.len(), 50);

    // Mutate it
    assert!(buf.touch(0));
    buf.g_score[0] = 1;
    buf.closed[0] = true;

    // Release resets the buffer
    pool.release(buf);

    // Re-acquire: should present as reset
    let mut buf2 = pool.acquire();
    assert!(buf2.touch(0));
    assert_eq!(buf2.g_score[0], UNREACHED);
    assert!(!buf2.closed[0]);
}

#[test]
fn an_empty_pool_makes_more() {
    let mut pool = AstarPool::new(10, DEFAULT_POOL_SIZE);
    let mut out = Vec::new();
    for _ in 0..4 {
        let buf = pool.acquire();
        assert_eq!(buf.g_score.len(), 10);
        out.push(buf);
    }
    assert!(pool.buffers.is_empty());
    for buf in out {
        pool.release(buf);
    }
    assert_eq!(pool.buffers.len(), 4);
}

#[test]
fn a_touched_node_keeps_its_entry() {
    let mut buf = AstarBuffers::new(3);
    assert!(buf.touch(1));
    buf.g_score[1] = 12;
    assert!(!buf.touch(1));
    assert_eq!(buf.g_score[1], 12);
}

fn haversine_nm(lat1: f64, lon1: f64, lat2: f64, lon2: f64) -> f64 {
    let dlat = (lat2 - lat1).to_radians();
    let dlon = (lon2 - lon1).to_radians();
    let a = (dlat / 2.0).sin().powi(2)
        + lat1.to_radians().cos() * lat2.to_radians().cos() * (dlon / 2.0).sin().powi(2);
    3440.065 * 2.0 * a.sqrt().asin()
}

fn cell(lat: f64, lng: f64, res: Resolution) -> u64 {
    u64::from(LatLng::new(lat, lng).unwrap().to_cell(res))
}

/// The nearest node of the main component, with its distance in nm.
fn nearest_node(state: &AppState<(f32, f32)>, lat: f64, lon: f64) -> Option<(u32, f64)> {
    let cells: Vec<u64> = (0..SNAP_RESOLUTIONS)
        .map(|r| cell(lat, lon, Resolution::try_from(r as u8).unwrap()))
        .collect();
    let dist = |v: u32| {
        let ll = LatLng::from(CellIndex::try_from(state.graph.node_h3[v as usize]).unwrap());
        (haversine_nm(lat, lon, ll.lat(), ll.lng()) * 1e6).round() as u64
    };
    let best = state.snap(&cells, &dist).unwrap();
    assert_eq!(best, state.nearest_node(&cells, &dist));
    best.map(|(node, d)| (node, d as f64 / 1e6))
}

/// Nodes in a chain, so that they share one component.
fn test_graph(coords: &[(f64, f64)]) -> Graph {
    let mut entries: Vec<u64> = coords
        .iter()
        .map(|&(lat, lng)| cell(lat, lng, Resolution::Five))
        .collect();
    entries.sort();
    entries.dedup();
    let mut b = Builder::new();
    let ids: Vec<u32> = entries.iter().map(|&h3| b.add_node(h3, 255)).collect();
    for w in ids.windows(2) {
        b.add_edge(w[0], w[1], NM);
    }
    b.build()
}

#[test]
fn exact_cell_match_finds_node() {
    let graph = test_graph(&[(36.848, 28.268), (37.0, 28.5), (36.5, 28.0)]);
    let state = AppState::new(graph);

    // Query at the exact position of the first node: should snap to it
    let result = nearest_node(&state, 36.848, 28.268);
    assert!(result.is_some(), "should find a node near (36.848, 28.268)");
    let (_, dist) = result.unwrap();
    // Distance should be very small (cell center offset)
    assert!(dist < 5.0, "distance {} nm should be < 5 nm", dist);
}

#[test]
fn nearby_offset_snaps_to_closest() {
    let graph = test_graph(&[(36.848, 28.268), (37.0, 28.5), (36.5, 28.0)]);
    let state = AppState::new(graph);

    // Query slightly offset from first node: should still find a node
    let result = nearest_node(&state, 36.85, 28.27);
    assert!(result.is_some(), "should find a node near offset position");
    let (_, dist) = result.unwrap();
    assert!(dist < 10.0, "distance {} nm should be < 10 nm", dist);
}

#[test]
fn empty_graph_returns_none() {
    let state = AppState::new(Builder::new().build());
    let result = nearest_node(&state, 36.848, 28.268);
    assert!(result.is_none(), "empty graph should return None");
}

fn position(graph: &Graph, node: u32) -> LonLat {
    let ll = LatLng::from(CellIndex::try_from(graph.node_h3[node as usize]).unwrap());
    ((ll.lng() * 1e9).round() as i64, (ll.lat() * 1e9).round() as i64)
}

fn leg(a: LonLat, b: LonLat) -> u64 {
    let deg = |n: i64| n as f64 / 1e9;
    (haversine_nm(deg(a.1), deg(a.0), deg(b.1), deg(b.0)) * 1e6).round() as u64
}

type App = AppState<(f32, f32)>;

const KEY: &str = "secret-key-1234567890";
const FROM: &str = "36.848,28.268";
const TO: &str = "37.0,28.5";

fn loading() -> ServerState<App> {
    ServerState::new("test.graph".into(), KEY.into())
}

fn ready(graph: Graph) -> ServerState<App> {
    let mut state = loading();
    state.set_ready(AppState::new(graph));
    state
}

/// A route over open sea between two points as they are asked for.
fn open_sea_route(
    server: &ServerState<App>,
    from: &str,
    to: &str,
) -> Result<asw::api::RouteResponse<LonLat>, ApiError> {
    let point = |s: &str| {
        parse_latlng(s).map(|(lat, lon)| ((lon * 1e9).round() as i64, (lat * 1e9).round() as i64))
    };
    let (from, to) = server.admit_request(point(from), point(to), true)?;
    let app = server.inner.as_ref().unwrap();
    let measures = Measures {
        crosses: |_: LonLat, _: LonLat| false,
        coast_distance: |_: LonLat, max: i64| max,
        segment_distance: |_: LonLat, _: LonLat, max: i64| max,
        leg,
    };
    let snap = |p: LonLat| {
        nearest_node(app, p.1 as f64 / 1e9, p.0 as f64 / 1e9).map(|(node, _)| node)
    };
    let mut buffers = AstarBuffers::new(app.graph.num_nodes as usize);
    let found = compute_route(
        &app.graph,
        from,
        to,
        &|v: u32| position(&app.graph, v),
        &snap,
        &measures,
        &mut buffers,
        0,
    );
    route_reply(Some(outcome_of(app.graph.num_nodes, found)))
}

/// The status of the answer to a request.
fn status_of(server: &ServerState<App>, endpoint: Endpoint, key: Option<&str>) -> u16 {
    if let Err(e) = server.ask_key(endpoint, key) {
        return e.status();
    }
    let size = |app: &App| (app.graph.num_nodes, app.graph.num_edges);
    match endpoint {
        Endpoint::Health => {
            assert_eq!(health_reply(), "ok");
            200
        }
        Endpoint::Ready => server.ready_reply().err().unwrap_or(200),
        Endpoint::Info => server.info_reply(&size, "1.0").err().unwrap_or(200),
        Endpoint::Route => match open_sea_route(server, FROM, TO) {
            Ok(_) => 200,
            Err(e) => e.status(),
        },
    }
}

#[test]
fn health_no_auth_required() {
    assert_eq!(status_of(&loading(), Endpoint::Health, None), 200);
    assert_eq!(Endpoint::Health.path(), "/health");
}

#[test]
fn ready_no_auth_required() {
    assert_eq!(status_of(&loading(), Endpoint::Ready, None), 503);
    assert_eq!(Endpoint::Ready.path(), "/ready");
}

#[test]
fn route_returns_401_without_key() {
    assert_eq!(status_of(&loading(), Endpoint::Route, None), 401);
    assert_eq!(Endpoint::Route.path(), "/route");
}

#[test]
fn info_returns_401_without_key() {
    assert_eq!(status_of(&loading(), Endpoint::Info, None), 401);
    assert_eq!(Endpoint::Info.path(), "/info");
}

#[test]
fn route_returns_401_with_wrong_key() {
    assert_eq!(status_of(&loading(), Endpoint::Route, Some("wrong-key")), 401);
    let refused = loading().ask_key(Endpoint::Route, Some("wrong-key"));
    assert_eq!(refused.unwrap_err().response().error, "unauthorized");
}

#[test]
fn info_returns_401_with_wrong_key() {
    assert_eq!(status_of(&loading(), Endpoint::Info, Some("wrong-key")), 401);
}

#[test]
fn route_passes_with_correct_key() {
    assert_eq!(status_of(&loading(), Endpoint::Route, Some(KEY)), 503);
}

#[test]
fn info_passes_with_correct_key() {
    assert_eq!(status_of(&loading(), Endpoint::Info, Some(KEY)), 503);
}

#[test]
fn route_returns_200_with_valid_route_once_ready() {
    let state = ready(test_graph(&[(36.848, 28.268), (36.9, 28.3), (37.0, 28.5)]));
    assert_eq!(status_of(&state, Endpoint::Route, Some(KEY)), 200);
    let reply = open_sea_route(&state, FROM, TO).ok().unwrap();
    assert!(reply.distance_tenths > 0);
    assert!(reply.raw_hops >= 1);
    assert_eq!(reply.coordinates.len(), reply.smooth_hops);
}

#[test]
fn route_returns_404_when_no_route_found_once_ready() {
    let state = ready(Builder::new().build());
    assert_eq!(status_of(&state, Endpoint::Route, Some(KEY)), 404);
    let refused = open_sea_route(&state, FROM, TO).err().unwrap();
    assert_eq!(
        refused.response().error,
        "No route found between the given points"
    );
}

#[test]
fn a_loaded_graph_does_not_open_the_doors() {
    let state = ready(test_graph(&[(36.848, 28.268), (37.0, 28.5)]));
    for key in [None, Some("wrong-key"), Some("")] {
        assert_eq!(status_of(&state, Endpoint::Health, key), 200);
        assert_eq!(status_of(&state, Endpoint::Ready, key), 200);
        assert_eq!(status_of(&state, Endpoint::Route, key), 401);
        assert_eq!(status_of(&state, Endpoint::Info, key), 401);
    }
    assert_eq!(status_of(&state, Endpoint::Info, Some(KEY)), 200);
}

#[test]
fn points_that_cannot_be_read() {
    let state = ready(test_graph(&[(36.848, 28.268)]));
    assert_eq!(
        open_sea_route(&state, "here", TO).err(),
        Some(ApiError::BadFrom)
    );
    assert_eq!(
        open_sea_route(&state, FROM, "1,2,3").err(),
        Some(ApiError::BadTo)
    );
}

#[test]
fn skips_isolated_component_snaps_to_main() {
    let main: Vec<u64> = [(36.0, 28.0), (36.5, 28.5), (37.0, 29.0)]
        .iter()
        .map(|&(lat, lng)| cell(lat, lng, Resolution::Five))
        .collect();
    // Close to the main component but NOT connected.
    let isolated = cell(36.3, 28.3, Resolution::Five);
    let mut entries = main.clone();
    entries.push(isolated);
    entries.sort();
    entries.dedup();
    let mut b = Builder::new();
    let mut main_ids = Vec::new();
    for &h3 in &entries {
        let id = b.add_node(h3, 255);
        if h3 != isolated {
            main_ids.push(id);
        }
    }
    for w in main_ids.windows(2) {
        b.add_edge(w[0], w[1], NM);
    }
    let state = AppState::new(b.build());

    // Query at the isolated node's position: should snap to main component instead
    let result = nearest_node(&state, 36.3, 28.3);
    assert!(result.is_some(), "should find a main-component node");
    let (node_id, _dist) = result.unwrap();
    assert_eq!(
        state.component_labels[node_id as usize], state.main_component,
        "snapped node must be in main component"
    );
}

#[test]
fn prefers_closer_node_across_resolutions() {
    // A res-5 node far from the query point and a res-9 node close to it.
    let mut entries = vec![
        cell(37.0, 29.0, Resolution::Five),
        cell(36.05, 28.05, Resolution::Nine),
    ];
    entries.sort();
    let mut b = Builder::new();
    let ids: Vec<u32> = entries.iter().map(|&h3| b.add_node(h3, 255)).collect();
    b.add_edge(ids[0], ids[1], NM);
    let state = AppState::new(b.build());

    // Query near the res-9 node
    let result = nearest_node(&state, 36.0, 28.0);
    assert!(result.is_some(), "should find a node");
    let (_, dist) = result.unwrap();
    // Should snap to the nearby res-9 node (~3 nm away), not the far res-5 node (~60 nm away)
    assert!(
        dist < 10.0,
        "distance {} nm should be that of the nearby res-9 node, not the far res-5 node",
        dist
    );
}

#[test]
fn remote_query_finds_distant_node() {
    // Single res-3 ocean node at (40.0, 20.0)
    let mut b = Builder::new();
    b.add_node(cell(40.0, 20.0, Resolution::Three), 255);
    let state = AppState::new(b.build());

    // Query 5 degrees away (~300 nm): simulates a remote island
    let result = nearest_node(&state, 42.0, 16.0);
    assert!(result.is_some(), "should find a node even 300nm away");
    let (_, dist) = result.unwrap();
    assert!(dist < 500.0, "distance {} nm should be < 500 nm", dist);
}

#[test]
fn deep_inland_finds_ocean_node() {
    // Single res-3 ocean node in the Mediterranean
    let mut b = Builder::new();
    b.add_node(cell(36.0, 18.0, Resolution::Three), 255);
    let state = AppState::new(b.build());

    // Query from deep inland (~400nm from the Mediterranean)
    let result = nearest_node(&state, 44.8, 20.5);
    assert!(result.is_some(), "should find ocean node from inland point");
}

#[test]
fn lookups_are_exact() {
    let graph = test_graph(&[(36.848, 28.268), (37.0, 28.5), (36.5, 28.0)]);
    let cells = graph.node_h3.clone();
    let state = AppState::new(graph);
    for (i, &c) in cells.iter().enumerate() {
        assert_eq!(state.h3_lookup(c), Some(i as u32));
        assert_eq!(state.h3_lookup(c + 1), None);
    }
    assert_eq!(state.h3_lookup(0), None);
    assert!(state.graph.coastline_coords.is_empty());
}

#[test]
fn snapping_needs_cells() {
    let state = AppState::new(test_graph(&[(36.848, 28.268)]));
    let dist = |_: u32| 1;
    assert_eq!(state.snap(&vec![], &dist), Err(NotACell));
    assert_eq!(
        state.snap(&vec![0; SNAP_RESOLUTIONS], &dist),
        Err(NotACell)
    );
}
