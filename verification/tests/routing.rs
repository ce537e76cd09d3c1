use asw::astar_pool::AstarBuffers;
use asw::bounds::{bounding_rect, Bbox, LonLat};
use asw::geo_index::CoastlineIndex;
use asw::graph::{GraphBuilder, RoutingGraph};
use asw::range_min::RangeMin;
use asw::route::{compute_route, direct_line_ok, finish_route, smooth, Measures, RouteResult};
use asw::routing::{scale_of, ShorePenalty};
use asw::seam::LonLatSegment;
use asw::smoothing::smooth_indices;
use geo::{Coord, Intersects, Line, LineString};
use h3o::{CellIndex, LatLng, Resolution};

type Graph = RoutingGraph<(f32, f32)>;
type Builder = GraphBuilder<(f32, f32)>;

fn nano(deg: f64) -> i64 {
    (deg * 1e9).round() as i64
}

fn deg(n: i64) -> f64 {
    n as f64 / 1e9
}

fn micro(nm: f64) -> i64 {
    (nm * 1e6).round() as i64
}

fn cos_lat(lat: i64) -> i64 {
    (deg(lat).to_radians().cos() * 1e9).round() as i64
}

fn box_of(ls: &LineString<f64>) -> Bbox {
    let points: Vec<LonLat> = ls.coords().map(|c| (nano(c.x), nano(c.y))).collect();
    bounding_rect(&points).unwrap()
}

fn point_to_segment(p: Coord<f64>, a: Coord<f64>, b: Coord<f64>) -> f64 {
    let (dx, dy) = (b.x - a.x, b.y - a.y);
    let len_sq = dx * dx + dy * dy;
    let t = if len_sq == 0.0 {
        0.0
    } else {
        (((p.x - a.x) * dx + (p.y - a.y) * dy) / len_sq).clamp(0.0, 1.0)
    };
    ((p.x - a.x - t * dx).powi(2) + (p.y - a.y - t * dy).powi(2)).sqrt()
}

fn nm_frame(c: Coord<f64>, lon: f64, lat: f64, cos: f64) -> Coord<f64> {
    Coord {
        x: (c.x - lon) * 60.0 * cos,
        y: (c.y - lat) * 60.0,
    }
}

struct Coast {
    lines: Vec<LineString<f64>>,
    index: CoastlineIndex,
}

impl Coast {
    fn new(lines: Vec<LineString<f64>>) -> Coast {
        let boxes: Vec<Bbox> = lines.iter().map(box_of).collect();
        let index = CoastlineIndex::new(&boxes);
        Coast { lines, index }
    }

    fn crosses_land(&self, lon1: f64, lat1: f64, lon2: f64, lat2: f64) -> bool {
        let crosses = |i: usize, s: LonLatSegment| {
            let line = Line::new(
                Coord {
                    x: deg(s.0),
                    y: deg(s.1),
                },
                Coord {
                    x: deg(s.2),
                    y: deg(s.3),
                },
            );
            line.intersects(&self.lines[i])
        };
        self.index
            .crosses_land(&crosses, nano(lon1), nano(lat1), nano(lon2), nano(lat2))
    }

    fn min_distance_nm(&self, lon: f64, lat: f64, max: f64) -> f64 {
        let distance = |i: usize, p: LonLat| {
            let (lon, lat) = (deg(p.0), deg(p.1));
            let cos = lat.to_radians().cos().max(0.01);
            let origin = Coord { x: 0.0, y: 0.0 };
            self.lines[i]
                .lines()
                .map(|l| {
                    let a = nm_frame(l.start, lon, lat, cos);
                    let b = nm_frame(l.end, lon, lat, cos);
                    micro(point_to_segment(origin, a, b))
                })
                .min()
                .unwrap()
        };
        let d =
            self.index
                .min_distance_nm(&distance, &cos_lat, nano(lon), nano(lat), micro(max));
        d as f64 / 1e6
    }

    fn segment_min_distance_nm(&self, s: (f64, f64, f64, f64), max: f64) -> f64 {
        let distance = |i: usize, s: LonLatSegment| {
            let (a, b) = (
                Coord {
                    x: deg(s.0),
                    y: deg(s.1),
                },
                Coord {
                    x: deg(s.2),
                    y: deg(s.3),
                },
            );
            let lat = (a.y + b.y) / 2.0;
            let cos = lat.to_radians().cos().max(0.01);
            let qa = nm_frame(a, a.x, lat, cos);
            let qb = nm_frame(b, a.x, lat, cos);
            self.lines[i]
                .lines()
                .map(|l| {
                    let ca = nm_frame(l.start, a.x, lat, cos);
                    let cb = nm_frame(l.end, a.x, lat, cos);
                    if Line::new(qa, qb).intersects(&Line::new(ca, cb)) {
                        return 0;
                    }
                    let d = point_to_segment(qa, ca, cb)
                        .min(point_to_segment(qb, ca, cb))
                        .min(point_to_segment(ca, qa, qb))
                        .min(point_to_segment(cb, qa, qb));
                    micro(d)
                })
                .min()
                .unwrap()
        };
        let s = (nano(s.0), nano(s.1), nano(s.2), nano(s.3));
        let d = self
            .index
            .segment_min_distance_nm(&distance, &cos_lat, s, micro(max));
        d as f64 / 1e6
    }
}

fn haversine_nm(lat1: f64, lon1: f64, lat2: f64, lon2: f64) -> f64 {
    let dlat = (lat2 - lat1).to_radians();
    let dlon = (lon2 - lon1).to_radians();
    let a = (dlat / 2.0).sin().powi(2)
        + lat1.to_radians().cos() * lat2.to_radians().cos() * (dlon / 2.0).sin().powi(2);
    3440.065 * 2.0 * a.sqrt().asin()
}

/// A point as longitude and latitude.
fn pin(lat: f64, lon: f64) -> LonLat {
    (nano(lon), nano(lat))
}

fn node_pos(g: &Graph, node: u32) -> LonLat {
    let ll = LatLng::from(CellIndex::try_from(g.node_h3[node as usize]).unwrap());
    pin(ll.lat(), ll.lng())
}

fn leg(a: LonLat, b: LonLat) -> u64 {
    micro(haversine_nm(deg(a.1), deg(a.0), deg(b.1), deg(b.0))) as u64
}

fn crosses(coast: &Coast, a: LonLat, b: LonLat) -> bool {
    coast.crosses_land(deg(a.0), deg(a.1), deg(b.0), deg(b.1))
}

fn segment_distance(coast: &Coast, a: LonLat, b: LonLat, max: i64) -> i64 {
    let s = (deg(a.0), deg(a.1), deg(b.0), deg(b.1));
    micro(coast.segment_min_distance_nm(s, max as f64 / 1e6))
}

fn point_distance(coast: &Coast, p: LonLat, max: i64) -> i64 {
    micro(coast.min_distance_nm(deg(p.0), deg(p.1), max as f64 / 1e6))
}

/// The search with great-circle distances as its estimate, and its cost in nm.
fn astar(
    g: &Graph,
    start: u32,
    goal: u32,
    buffers: &mut AstarBuffers,
    shore: Option<ShorePenalty>,
) -> Option<(Vec<u32>, f64)> {
    let h = |v: u32| leg(node_pos(g, v), node_pos(g, goal));
    asw::search::astar(g, start, goal, buffers, shore, &h)
        .map(|(path, cost)| (path, cost as f64 / (100.0 * scale_of(shore) as f64)))
}

fn route(
    g: &Graph,
    from: LonLat,
    to: LonLat,
    coast: &Coast,
    knn: &impl Fn(LonLat) -> Option<u32>,
    buffers: &mut AstarBuffers,
    buffer_nm: f64,
) -> Option<RouteResult<LonLat>> {
    let m = Measures {
        crosses: |a: LonLat, b: LonLat| crosses(coast, a, b),
        coast_distance: |p: LonLat, max: i64| point_distance(coast, p, max),
        segment_distance: |a: LonLat, b: LonLat, max: i64| segment_distance(coast, a, b, max),
        leg,
    };
    let pos = |v: u32| node_pos(g, v);
    compute_route(g, from, to, &pos, knn, &m, buffers, micro(buffer_nm))
}

fn cell(lat: f64, lng: f64, res: Resolution) -> u64 {
    u64::from(LatLng::new(lat, lng).unwrap().to_cell(res))
}

/// Adds nodes in ascending order of their cells; gives their ids in the order of
/// the points.
fn add_nodes(b: &mut Builder, points: &[(f64, f64, u8)], res: Resolution) -> Vec<u32> {
    let mut cells: Vec<(u64, u8, usize)> = points
        .iter()
        .enumerate()
        .map(|(i, &(lat, lng, q))| (cell(lat, lng, res), q, i))
        .collect();
    cells.sort();
    cells.dedup_by_key(|c| c.0);
    assert_eq!(cells.len(), points.len(), "need distinct cells");
    let mut ids = vec![0; points.len()];
    for &(h3, q, orig) in &cells {
        ids[orig] = b.add_node(h3, q);
    }
    ids
}

/// Returns (graph, node_a, node_d) where A->B->D is shortest (cost 10).
fn diamond_graph() -> (Graph, u32, u32) {
    let mut b = Builder::new();
    let ids = add_nodes(
        &mut b,
        &[
            (0.0, 0.0, 255),
            (1.0, 0.0, 255),
            (0.0, 1.0, 255),
            (1.0, 1.0, 255),
        ],
        Resolution::Five,
    );
    b.add_edge(ids[0], ids[1], micro(5.0) as u32);
    b.add_edge(ids[0], ids[2], micro(10.0) as u32);
    b.add_edge(ids[1], ids[3], micro(5.0) as u32);
    b.add_edge(ids[2], ids[3], micro(10.0) as u32);
    (b.build(), ids[0], ids[3])
}

#[test]
fn astar_shortest_path() {
    let (g, node_a, node_d) = diamond_graph();
    let mut buffers = AstarBuffers::new(g.num_nodes as usize);
    let result = astar(&g, node_a, node_d, &mut buffers, None);
    assert!(result.is_some());
    let (path, cost) = result.unwrap();
    assert!((cost - 10.0).abs() < 1e-6, "cost was {cost}, expected 10.0");
    assert_eq!(path.len(), 3);
    assert_eq!(path[0], node_a);
    assert_eq!(*path.last().unwrap(), node_d);
}

#[test]
fn astar_same_node() {
    let (g, node_a, _) = diamond_graph();
    let mut buffers = AstarBuffers::new(g.num_nodes as usize);
    let result = astar(&g, node_a, node_a, &mut buffers, None);
    assert!(result.is_some());
    let (path, cost) = result.unwrap();
    assert_eq!(path, vec![node_a]);
    assert!((cost - 0.0).abs() < 1e-6);
}

/// Buffers that were used and reset must give the very result of new ones.
#[test]
fn astar_reused_buffers_match_fresh_buffers_after_reset() {
    let (g, node_a, node_d) = diamond_graph();

    let mut reused = AstarBuffers::new(g.num_nodes as usize);

    // First search touches (and closes) every node in the tiny diamond graph.
    let first = astar(&g, node_a, node_d, &mut reused, None).expect("first search finds a path");

    reused.reset();

    // Second search on the same (now stale-but-reset) buffers.
    let second = astar(&g, node_a, node_d, &mut reused, None).expect("second search finds a path");

    // Baseline: identical query on completely fresh buffers.
    let mut fresh = AstarBuffers::new(g.num_nodes as usize);
    let baseline = astar(&g, node_a, node_d, &mut fresh, None).expect("baseline search finds a path");

    assert_eq!(
        second.0, baseline.0,
        "path nodes must match a fresh-buffer run"
    );
    assert!(
        (second.1 - baseline.1).abs() < 1e-6,
        "cost {} must match fresh-buffer cost {}",
        second.1,
        baseline.1
    );
    // Repeating the identical query twice should also yield identical results.
    assert_eq!(first.0, second.0);
    assert!((first.1 - second.1).abs() < 1e-6);
}

#[test]
fn astar_stale_state_does_not_leak_across_generations() {
    let (g, node_a, node_d) = diamond_graph();
    let mut buffers = AstarBuffers::new(g.num_nodes as usize);

    // First: forward search closes/stamps every node on the A->D path.
    let _ = astar(&g, node_a, node_d, &mut buffers, None).expect("path exists");

    buffers.reset();

    // Second: reverse search (D -> A) on the same, now-stale buffers.
    let reused_result = astar(&g, node_d, node_a, &mut buffers, None).expect("path exists");
    let mut fresh = AstarBuffers::new(g.num_nodes as usize);
    let fresh_result = astar(&g, node_d, node_a, &mut fresh, None).expect("path exists");

    assert_eq!(reused_result.0, fresh_result.0);
    assert!((reused_result.1 - fresh_result.1).abs() < 1e-6);
}

#[test]
fn astar_unreachable() {
    let mut b = Builder::new();
    add_nodes(
        &mut b,
        &[(0.0, 0.0, 255), (10.0, 10.0, 255)],
        Resolution::Five,
    );
    let g = b.build();
    let mut buffers = AstarBuffers::new(g.num_nodes as usize);
    let result = astar(&g, 0, 1, &mut buffers, None);
    assert!(result.is_none());
}

#[test]
fn range_min_matches_brute_force_min() {
    let values: [u8; 9] = [5, 3, 8, 1, 9, 2, 7, 6, 4];
    let rm = RangeMin::build(&values);
    for i in 0..values.len() {
        for j in i..values.len() {
            let expected = values[i..=j].iter().copied().min().unwrap();
            assert_eq!(
                rm.query(i, j),
                expected,
                "range [{i}, {j}] expected {expected}"
            );
        }
    }
}

#[test]
fn range_min_single_element() {
    let values: [u8; 1] = [42];
    let rm = RangeMin::build(&values);
    assert_eq!(rm.query(0, 0), 42);
}

fn penalty(nm: f64) -> Option<ShorePenalty> {
    ShorePenalty::from_nm(micro(nm))
}

fn factor(p: &ShorePenalty, d: u8) -> f64 {
    let (num, den) = p.factor(d);
    num as f64 / den as f64
}

#[test]
fn shore_penalty_from_nm_and_factor() {
    assert!(penalty(0.0).is_none());
    assert!(penalty(-1.0).is_none());
    let p = penalty(0.1).unwrap(); // 0.1 / 0.02 = 5
    assert_eq!(p.buffer_q, 5);
    let p2 = penalty(0.001).unwrap(); // rounds UP to 1
    assert_eq!(p2.buffer_q, 1);
    let p3 = penalty(99.0).unwrap(); // clamps to 255
    assert_eq!(p3.buffer_q, 255);
    // 0.14 / 0.02 is 7, not a hair more.
    let p4 = penalty(0.14).unwrap();
    assert_eq!(p4.buffer_q, 7);

    assert_eq!(factor(&p, 5), 1.0); // at the buffer: no penalty
    assert_eq!(factor(&p, 255), 1.0); // far offshore: no penalty
    assert!((factor(&p, 0) - 16.0).abs() < 1e-6); // 1 + 15*1
    assert!((factor(&p, 2) - (1.0 + 15.0 * 0.6)).abs() < 1e-4);
}

/// Two corridors S->A->G (short, A hugs the shore) and S->B->G (long, B
/// offshore). Without a buffer the short corridor wins; with one, the long.
fn corridor_graph() -> (Graph, u32, u32, u32, u32) {
    let mut b = Builder::new();
    let ids = add_nodes(
        &mut b,
        &[
            (0.0, 0.0, 255),
            (1.0, 0.0, 0), // on the shore
            (0.0, 1.0, 255),
            (1.0, 1.0, 255),
        ],
        Resolution::Five,
    );
    b.add_edge(ids[0], ids[1], micro(5.0) as u32);
    b.add_edge(ids[1], ids[3], micro(5.0) as u32); // near-shore total: 10
    b.add_edge(ids[0], ids[2], micro(8.0) as u32);
    b.add_edge(ids[2], ids[3], micro(8.0) as u32); // offshore total: 16
    (b.build(), ids[0], ids[1], ids[2], ids[3])
}

#[test]
fn penalty_diverts_route_offshore() {
    let (g, s, a, b_node, goal) = corridor_graph();
    let mut buffers = AstarBuffers::new(g.num_nodes as usize);

    // Without penalty: short near-shore corridor via A.
    let (path, cost) = astar(&g, s, goal, &mut buffers, None).unwrap();
    assert_eq!(path, vec![s, a, goal]);
    assert!((cost - 10.0).abs() < 1e-4);

    // With a 0.1 nm buffer: edge S->A costs 5 * 16 = 80 -> offshore wins.
    buffers.reset();
    let shore = penalty(0.1);
    let (path, cost) = astar(&g, s, goal, &mut buffers, shore).unwrap();
    assert_eq!(path, vec![s, b_node, goal]);
    assert!((cost - 16.0).abs() < 1e-4);
}

#[test]
fn penalty_with_all_nodes_offshore_is_identity() {
    let (g, node_a, node_d) = diamond_graph(); // all nodes shore_dist=255
    let mut b1 = AstarBuffers::new(g.num_nodes as usize);
    let mut b2 = AstarBuffers::new(g.num_nodes as usize);
    let plain = astar(&g, node_a, node_d, &mut b1, None).unwrap();
    let with = astar(&g, node_a, node_d, &mut b2, penalty(0.2)).unwrap();
    assert_eq!(plain.0, with.0);
    assert!((plain.1 - with.1).abs() < 1e-6);
}

/// Coastline at lon 28.0 (lat 36.45..36.55) and a 3-node dogleg around it.
/// Direct P0->P2 passes ~2.4 nm off the coast; the dogleg via P1 ~7 nm.
fn dogleg() -> (Graph, Coast, Vec<u32>) {
    dogleg_with_shore(&[255, 255, 255])
}

fn dogleg_with_shore(shore_q: &[u8; 3]) -> (Graph, Coast, Vec<u32>) {
    let coastline = wall_index(28.0, 36.45, 36.55);
    let mut b = Builder::new();
    let ids = add_nodes(
        &mut b,
        &[
            (36.3, 28.05, shore_q[0]),
            (36.5, 28.15, shore_q[1]),
            (36.7, 28.05, shore_q[2]),
        ],
        Resolution::Nine,
    );
    b.add_edge(ids[0], ids[1], micro(1.0) as u32);
    b.add_edge(ids[1], ids[2], micro(1.0) as u32);
    (b.build(), coastline, ids)
}

fn smoothed_path(g: &Graph, path: &Vec<u32>, coast: &Coast, buffer_nm: f64) -> Vec<u32> {
    smooth(
        g,
        path,
        &|v: u32| node_pos(g, v),
        &|a: LonLat, b: LonLat| crosses(coast, a, b),
        &|a: LonLat, b: LonLat, max: i64| segment_distance(coast, a, b, max),
        micro(buffer_nm),
    )
}

#[test]
fn smooth_without_buffer_cuts_the_corner() {
    let (g, coast, path) = dogleg();
    let smoothed = smoothed_path(&g, &path, &coast, 0.0);
    assert_eq!(smoothed, vec![path[0], path[2]]);
}

#[test]
fn smooth_respects_buffer() {
    let (g, coast, path) = dogleg();
    // Direct line is ~2.41 nm off the coast: allowed at 2.0, blocked at 3.0.
    let loose = smoothed_path(&g, &path, &coast, 2.0);
    assert_eq!(loose, vec![path[0], path[2]]);
    let strict = smoothed_path(&g, &path, &coast, 3.0);
    assert_eq!(strict, path, "3 nm buffer must keep the dogleg waypoint");
}

#[test]
fn smooth_relaxes_near_endpoints() {
    // Path nodes themselves are close to shore (q=20 = 0.4 nm): the
    // threshold becomes min(3.0, 0.4) = 0.4 nm, so the direct line
    // (~2.4 nm off) is allowed even under a 3 nm buffer.
    let (g, coast, path) = dogleg_with_shore(&[20, 255, 20]);
    let smoothed = smoothed_path(&g, &path, &coast, 3.0);
    assert_eq!(smoothed, vec![path[0], path[2]]);
}

/// Vertical coastline "wall" at `lon`, spanning `lat_min..lat_max`.
fn wall_index(lon: f64, lat_min: f64, lat_max: f64) -> Coast {
    Coast::new(vec![LineString::from(vec![(lon, lat_min), (lon, lat_max)])])
}

/// Closed square ring around (0, 0), side 0.2 degrees: a tiny "island" used to
/// simulate a pin on land.
fn island_around_origin() -> Coast {
    Coast::new(vec![LineString::from(vec![
        (-0.1, -0.1),
        (0.1, -0.1),
        (0.1, 0.1),
        (-0.1, 0.1),
        (-0.1, -0.1),
    ])])
}

/// Smooths a line of `[lon, lat]` points.
fn indices(coords: &[[f64; 2]], shore: &[u8], coast: &Coast, buffer_nm: f64) -> Vec<usize> {
    let points: Vec<LonLat> = coords.iter().map(|c| (nano(c[0]), nano(c[1]))).collect();
    smooth_indices(
        &points,
        &shore.to_vec(),
        &|a: LonLat, b: LonLat| crosses(coast, a, b),
        &|a: LonLat, b: LonLat, max: i64| segment_distance(coast, a, b, max),
        micro(buffer_nm),
    )
}

#[test]
fn smooth_indices_collapses_clear_path() {
    let coastline = Coast::new(vec![]);
    let coords = [[0.0, 0.0], [0.3, 0.1], [0.6, -0.1], [1.0, 0.0]];
    let out = indices(&coords, &[255; 4], &coastline, 0.0);
    assert_eq!(out, vec![0, 3]);
}

#[test]
fn smooth_indices_keeps_necessary_corner() {
    // Wall at lon 0.5 (lat -1..1); the path detours over its top at lat 1.5.
    // Only the corner above the wall must survive smoothing.
    let coastline = wall_index(0.5, -1.0, 1.0);
    let coords = [[0.0, 0.0], [0.2, 0.5], [0.5, 1.5], [0.8, 0.5], [1.0, 0.0]];
    let out = indices(&coords, &[255; 5], &coastline, 0.0);
    assert_eq!(out, vec![0, 2, 4]);
}

#[test]
fn smooth_indices_short_input_passthrough() {
    let coastline = wall_index(0.5, -1.0, 1.0);
    let coords = [[0.0, 0.0], [1.0, 0.0]];
    assert_eq!(indices(&coords, &[255; 2], &coastline, 0.0), vec![0, 1]);
}

#[test]
fn smooth_indices_blocked_next_hop_still_progresses() {
    // First point sits inside a ring "island": it can see nothing, so the
    // smoother must keep the (land-clipping) segment to the next point and
    // continue.
    let coastline = island_around_origin();
    let coords = [[0.0, 0.0], [0.5, 0.0], [1.0, 0.0]];
    let out = indices(&coords, &[255; 3], &coastline, 0.0);
    assert_eq!(*out.first().unwrap(), 0);
    assert_eq!(*out.last().unwrap(), 2);
}

#[test]
fn smooth_indices_respects_buffer() {
    // Same geometry as the node-based dogleg tests: coastline at lon 28.0
    // (lat 36.45..36.55), direct P0->P2 line ~2.41 nm off the coast.
    let coastline = wall_index(28.0, 36.45, 36.55);
    let coords = [[28.05, 36.3], [28.15, 36.5], [28.05, 36.7]];
    let loose = indices(&coords, &[255; 3], &coastline, 2.0);
    assert_eq!(loose, vec![0, 2]);
    let strict = indices(&coords, &[255; 3], &coastline, 3.0);
    assert_eq!(strict, vec![0, 1, 2], "3 nm buffer must keep the dogleg");
}

#[test]
fn smooth_indices_relaxes_for_near_shore_endpoints() {
    // Endpoints themselves are close to shore (q=20 = 0.4 nm): threshold
    // becomes min(3.0, 0.4) = 0.4 nm, so the ~2.4 nm direct line passes.
    let coastline = wall_index(28.0, 36.45, 36.55);
    let coords = [[28.05, 36.3], [28.15, 36.5], [28.05, 36.7]];
    let out = indices(&coords, &[20, 255, 20], &coastline, 3.0);
    assert_eq!(out, vec![0, 2]);
}

/// Builds a chain graph from (lat, lon) waypoints; returns the graph and node
/// ids in input order.
fn chain_graph(coords: &[(f64, f64)]) -> (Graph, Vec<u32>) {
    let points: Vec<(f64, f64, u8)> = coords.iter().map(|&(lat, lon)| (lat, lon, 255)).collect();
    let mut b = Builder::new();
    let ids = add_nodes(&mut b, &points, Resolution::Five);
    for w in ids.windows(2) {
        b.add_edge(w[0], w[1], micro(60.0) as u32);
    }
    (b.build(), ids)
}

fn snaps_nowhere(_: LonLat) -> Option<u32> {
    None
}

#[test]
fn shortcut_returns_direct_route_when_line_is_clear() {
    let coastline = Coast::new(vec![]);
    let g = Builder::new().build();
    // Snapping to nothing proves the shortcut runs BEFORE snapping.
    let mut buffers = AstarBuffers::new(1);
    let r = route(
        &g,
        pin(0.0, 0.0),
        pin(0.3, 0.2),
        &coastline,
        &snaps_nowhere,
        &mut buffers,
        0.0,
    )
    .unwrap();
    assert_eq!(r.coordinates, vec![pin(0.0, 0.0), pin(0.3, 0.2)]);
    assert_eq!(
        r.distance,
        micro(haversine_nm(0.0, 0.0, 0.3, 0.2)) as u128
    );
    assert_eq!(r.raw_hops, 2);
    assert_eq!(r.smooth_hops, 2);
}

#[test]
fn shortcut_handles_identical_points() {
    let coastline = Coast::new(vec![]);
    let g = Builder::new().build();
    let mut buffers = AstarBuffers::new(1);
    let r = route(
        &g,
        pin(0.5, 0.5),
        pin(0.5, 0.5),
        &coastline,
        &snaps_nowhere,
        &mut buffers,
        0.0,
    )
    .unwrap();
    assert_eq!(r.distance, 0);
    assert_eq!(r.coordinates.len(), 2);
}

#[test]
fn shortcut_respects_shore_buffer() {
    // Dogleg geometry: wall at lon 28.0 (lat 36.45..36.55); the direct
    // pin-to-pin line at lon 28.05 passes ~2.41 nm off the coast.
    let coastline = wall_index(28.0, 36.45, 36.55);
    let g = Builder::new().build();
    let mut buffers = AstarBuffers::new(0);
    let (from, to) = (pin(36.3, 28.05), pin(36.7, 28.05));

    // 2 nm buffer: 2.41 nm clearance suffices -> shortcut fires.
    let loose = route(&g, from, to, &coastline, &snaps_nowhere, &mut buffers, 2.0);
    assert!(loose.is_some_and(|r| r.coordinates.len() == 2));

    // 3 nm buffer: clearance violated -> shortcut declined, falls through
    // to snapping (to nothing -> no route).
    let strict = route(&g, from, to, &coastline, &snaps_nowhere, &mut buffers, 3.0);
    assert!(strict.is_none());
}

#[test]
fn shortcut_relaxes_for_near_shore_pins() {
    // From-pin is only ~0.39 nm off the wall, so the threshold degrades
    // to min(3.0, pin clearance) and the direct line (whose closest
    // approach IS the from-pin) passes despite the 3 nm buffer.
    let coastline = wall_index(28.0, 36.45, 36.55);
    let g = Builder::new().build();
    let mut buffers = AstarBuffers::new(0);
    let r = route(
        &g,
        pin(36.5, 28.008),
        pin(36.5, 28.4),
        &coastline,
        &snaps_nowhere,
        &mut buffers,
        3.0,
    );
    assert!(
        r.is_some_and(|r| r.coordinates.len() == 2),
        "graceful degradation: pins closer than the buffer keep their own clearance"
    );
}

#[test]
fn stitched_route_starts_and_ends_at_pins() {
    // Wall at lon 0.5 (lat -1..1). Chain S(0,0) -> M(1.5,0.5) -> G(0,1)
    // goes over the top of the wall. Pins are offset from S and G.
    let coastline = wall_index(0.5, -1.0, 1.0);
    let (g, ids) = chain_graph(&[(0.0, 0.0), (1.5, 0.5), (0.0, 1.0)]);
    let (s, goal) = (ids[0], ids[2]);
    let knn = move |p: LonLat| Some(if deg(p.0) < 0.5 { s } else { goal });
    let mut buffers = AstarBuffers::new(g.num_nodes as usize);
    let r = route(
        &g,
        pin(0.0, -0.1),
        pin(0.0, 1.1),
        &coastline,
        &knn,
        &mut buffers,
        0.0,
    )
    .unwrap();

    assert_eq!(r.coordinates.first().unwrap(), &pin(0.0, -0.1));
    assert_eq!(r.coordinates.last().unwrap(), &pin(0.0, 1.1));
    // The detour over the wall must be longer than the blocked direct line.
    assert!(r.distance as f64 / 1e6 > haversine_nm(0.0, -0.1, 0.0, 1.1));
    // No segment of the returned polyline may cross the coastline
    // (endpoints here are on open water, so no clipping is expected).
    for w in r.coordinates.windows(2) {
        assert!(
            !crosses(&coastline, w[0], w[1]),
            "smoothed segment {:?} -> {:?} crosses land",
            w[0],
            w[1]
        );
    }
}

#[test]
fn same_node_snap_yields_positive_distance() {
    // Both pins snap to the single node N above the wall; the direct
    // pin-to-pin line is blocked. Expect [from, N, to] with the exact
    // two-leg distance.
    let coastline = wall_index(0.5, -1.0, 1.0);
    let (g, ids) = chain_graph(&[(1.5, 0.5)]);
    let n = ids[0];
    let knn = move |_: LonLat| Some(n);
    let mut buffers = AstarBuffers::new(g.num_nodes as usize);
    let (from, to) = (pin(0.0, 0.4), pin(0.0, 0.6));
    let r = route(&g, from, to, &coastline, &knn, &mut buffers, 0.0).unwrap();

    let at = node_pos(&g, n);
    let expected = leg(from, at) as u128 + leg(at, to) as u128;
    assert_eq!(r.distance, expected);
    assert!(r.distance > 0);
    assert_eq!(r.coordinates.len(), 3);
    assert_eq!(r.coordinates[0], from);
    assert_eq!(r.coordinates[2], to);
}

#[test]
fn land_pin_still_returns_route() {
    // From-pin sits inside a ring island at (0,0); to-pin is on open
    // water: no error, route starts at the pin and the first segment clips
    // the island.
    let coastline = island_around_origin();
    let (g, ids) = chain_graph(&[(0.0, 0.5), (0.0, 2.0)]);
    let (s, goal) = (ids[0], ids[1]);
    let knn = move |p: LonLat| Some(if deg(p.0) < 1.0 { s } else { goal });
    let mut buffers = AstarBuffers::new(g.num_nodes as usize);
    let r = route(
        &g,
        pin(0.0, 0.0),
        pin(0.0, 2.2),
        &coastline,
        &knn,
        &mut buffers,
        0.0,
    )
    .expect("land pin must still produce a route");
    assert_eq!(r.coordinates.first().unwrap(), &pin(0.0, 0.0));
    assert_eq!(r.coordinates.last().unwrap(), &pin(0.0, 2.2));
    assert!(r.distance > 0);
}

#[test]
fn penalised_cost_counts_the_far_end() {
    // S->A->G with A on the shore: only the edge into A is dearer.
    let (g, s, a, _, goal) = corridor_graph();
    let shore = penalty(0.1);
    let h = |_: u32| 0;
    let mut buffers = AstarBuffers::new(g.num_nodes as usize);
    let (path, cost) = asw::search::astar(&g, s, a, &mut buffers, shore, &h).unwrap();
    assert_eq!(path, vec![s, a]);
    // 500 centi-nm, sixteen times, in fifths.
    assert_eq!(cost, 500 * 16 * 5);
    buffers.reset();
    let (path, cost) = asw::search::astar(&g, a, goal, &mut buffers, shore, &h).unwrap();
    assert_eq!(path, vec![a, goal]);
    assert_eq!(cost, 500 * 5);
}

#[test]
fn a_poor_estimate_still_finds_the_way() {
    let (g, node_a, node_d) = diamond_graph();
    let mut buffers = AstarBuffers::new(g.num_nodes as usize);
    let (path, cost) =
        asw::search::astar(&g, node_a, node_d, &mut buffers, None, &|_: u32| 0).unwrap();
    assert_eq!(path.len(), 3);
    assert_eq!(cost, 1000);
}

#[test]
fn a_direct_line_needs_its_clearance() {
    let coast = wall_index(28.0, 36.45, 36.55);
    let m = Measures {
        crosses: |a: LonLat, b: LonLat| crosses(&coast, a, b),
        coast_distance: |p: LonLat, max: i64| point_distance(&coast, p, max),
        segment_distance: |a: LonLat, b: LonLat, max: i64| segment_distance(&coast, a, b, max),
        leg,
    };
    let (from, to) = (pin(36.3, 28.05), pin(36.7, 28.05));
    assert!(direct_line_ok(&m, from, to, 0));
    assert!(direct_line_ok(&m, from, to, micro(2.0)));
    assert!(!direct_line_ok(&m, from, to, micro(3.0)));
    assert!(!direct_line_ok(&m, pin(36.5, 27.9), pin(36.5, 28.1), 0));
}

#[test]
fn a_finished_route_counts_its_hops() {
    let coast = wall_index(0.5, -1.0, 1.0);
    let (g, ids) = chain_graph(&[(0.0, 0.0), (1.5, 0.5), (0.0, 1.0)]);
    let m = Measures {
        crosses: |a: LonLat, b: LonLat| crosses(&coast, a, b),
        coast_distance: |p: LonLat, max: i64| point_distance(&coast, p, max),
        segment_distance: |a: LonLat, b: LonLat, max: i64| segment_distance(&coast, a, b, max),
        leg,
    };
    let pos = |v: u32| node_pos(&g, v);
    let (from, to) = (pin(0.0, -0.1), pin(0.0, 1.1));
    let r = finish_route(&g, from, to, &pos, &m, 0, &ids);
    assert_eq!(r.coordinates, vec![from, node_pos(&g, ids[1]), to]);
    assert_eq!(r.smooth_hops, 3);
    let length = leg(from, node_pos(&g, ids[1])) as u128 + leg(node_pos(&g, ids[1]), to) as u128;
    assert_eq!(r.distance, length);
}

#[test]
fn no_route_between_parts_of_a_graph() {
    let coast = wall_index(0.5, -1.0, 1.0);
    let mut b = Builder::new();
    let ids = add_nodes(&mut b, &[(0.0, 0.0, 255), (0.0, 1.0, 255)], Resolution::Five);
    let g = b.build();
    let knn = move |p: LonLat| Some(if deg(p.0) < 0.5 { ids[0] } else { ids[1] });
    let mut buffers = AstarBuffers::new(2);
    let r = route(
        &g,
        pin(0.0, 0.0),
        pin(0.0, 1.0),
        &coast,
        &knn,
        &mut buffers,
        0.0,
    );
    assert!(r.is_none());
}
