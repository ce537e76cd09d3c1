use asw::bounds::{bounding_rect, polygon_intersects_bbox, Bbox, LonLat};
use asw::geo_index::{subtract_water, CoastlineIndex, LandIndex};
use asw::seam::{
    cell_polygon, is_traceable, split_at_antimeridian, wrap_aware_mid_lon, wrap_retry,
    LonLatSegment, FULL_TURN, MAX_REACH,
};
use geo::{Contains, Coord, Intersects, Line, LineString, Point, Polygon};
use h3o::{LatLng, Resolution};

fn nano(deg: f64) -> i64 {
    (deg * 1e9).round() as i64
}

fn deg(n: i64) -> f64 {
    n as f64 / 1e9
}

fn micro(nm: f64) -> i64 {
    (nm * 1e6).round() as i64
}

fn cos_lat(lat: i64) -> i64 {
    (deg(lat).to_radians().cos() * 1e9).round() as i64
}

fn box_of(ls: &LineString<f64>) -> Bbox {
    let points: Vec<LonLat> = ls.coords().map(|c| (nano(c.x), nano(c.y))).collect();
    bounding_rect(&points).unwrap()
}

fn point_to_segment(p: Coord<f64>, a: Coord<f64>, b: Coord<f64>) -> f64 {
    let (dx, dy) = (b.x - a.x, b.y - a.y);
    let len_sq = dx * dx + dy * dy;
    let t = if len_sq == 0.0 {
        0.0
    } else {
        (((p.x - a.x) * dx + (p.y - a.y) * dy) / len_sq).clamp(0.0, 1.0)
    };
    ((p.x - a.x - t * dx).powi(2) + (p.y - a.y - t * dy).powi(2)).sqrt()
}

fn nm_frame(c: Coord<f64>, lon: f64, lat: f64, cos: f64) -> Coord<f64> {
    Coord {
        x: (c.x - lon) * 60.0 * cos,
        y: (c.y - lat) * 60.0,
    }
}

struct Coast {
    lines: Vec<LineString<f64>>,
    index: CoastlineIndex,
}

impl Coast {
    fn new(lines: Vec<LineString<f64>>) -> Coast {
        let boxes: Vec<Bbox> = lines.iter().map(box_of).collect();
        let index = CoastlineIndex::new(&boxes);
        Coast { lines, index }
    }

    fn crosses_land(&self, lon1: f64, lat1: f64, lon2: f64, lat2: f64) -> bool {
        let crosses = |i: usize, s: LonLatSegment| {
            let line = Line::new(
                Coord {
                    x: deg(s.0),
                    y: deg(s.1),
                },
                Coord {
                    x: deg(s.2),
                    y: deg(s.3),
                },
            );
            line.intersects(&self.lines[i])
        };
        self.index
            .crosses_land(&crosses, nano(lon1), nano(lat1), nano(lon2), nano(lat2))
    }

    fn min_distance_deg(&self, lon: f64, lat: f64, radius: f64) -> f64 {
        let distance = |i: usize, p: LonLat| {
            let p = Coord {
                x: deg(p.0),
                y: deg(p.1),
            };
            self.lines[i]
                .lines()
                .map(|l| nano(point_to_segment(p, l.start, l.end)))
                .min()
                .unwrap()
        };
        let d = self
            .index
            .min_distance_deg(&distance, nano(lon), nano(lat), nano(radius));
        if d == i64::MAX {
            f64::MAX
        } else {
            deg(d)
        }
    }

    fn min_distance_nm(&self, lon: f64, lat: f64, max: f64) -> f64 {
        let distance = |i: usize, p: LonLat| {
            let (lon, lat) = (deg(p.0), deg(p.1));
            let cos = lat.to_radians().cos().max(0.01);
            let origin = Coord { x: 0.0, y: 0.0 };
            self.lines[i]
                .lines()
                .map(|l| {
                    let a = nm_frame(l.start, lon, lat, cos);
                    let b = nm_frame(l.end, lon, lat, cos);
                    micro(point_to_segment(origin, a, b))
                })
                .min()
                .unwrap()
        };
        let d =
            self.index
                .min_distance_nm(&distance, &cos_lat, nano(lon), nano(lat), micro(max));
        d as f64 / 1e6
    }

    fn segment_min_distance_nm(&self, s: (f64, f64, f64, f64), max: f64) -> f64 {
        let distance = |i: usize, s: LonLatSegment| {
            let (a, b) = (
                Coord {
                    x: deg(s.0),
                    y: deg(s.1),
                },
                Coord {
                    x: deg(s.2),
                    y: deg(s.3),
                },
            );
            let lat = (a.y + b.y) / 2.0;
            let cos = lat.to_radians().cos().max(0.01);
            let qa = nm_frame(a, a.x, lat, cos);
            let qb = nm_frame(b, a.x, lat, cos);
            self.lines[i]
                .lines()
                .map(|l| {
                    let ca = nm_frame(l.start, a.x, lat, cos);
                    let cb = nm_frame(l.end, a.x, lat, cos);
                    if Line::new(qa, qb).intersects(&Line::new(ca, cb)) {
                        return 0;
                    }
                    let d = point_to_segment(qa, ca, cb)
                        .min(point_to_segment(qb, ca, cb))
                        .min(point_to_segment(ca, qa, qb))
                        .min(point_to_segment(cb, qa, qb));
                    micro(d)
                })
                .min()
                .unwrap()
        };
        let s = (nano(s.0), nano(s.1), nano(s.2), nano(s.3));
        let d = self
            .index
            .segment_min_distance_nm(&distance, &cos_lat, s, micro(max));
        d as f64 / 1e6
    }
}

struct Land {
    polygons: Vec<Polygon<f64>>,
    index: LandIndex,
}

fn shifted(poly: &Polygon<f64>, turn: i64) -> Polygon<f64> {
    let coords = poly
        .exterior()
        .coords()
        .map(|c| Coord {
            x: c.x + deg(turn),
            y: c.y,
        })
        .collect();
    Polygon::new(LineString::new(coords), vec![])
}

fn exterior_of(poly: &Polygon<f64>) -> Vec<LonLat> {
    poly.exterior()
        .coords()
        .map(|c| (nano(c.x), nano(c.y)))
        .collect()
}

impl Land {
    fn new(polygons: Vec<Polygon<f64>>) -> Land {
        let boxes: Vec<Bbox> = polygons.iter().map(|p| box_of(p.exterior())).collect();
        let index = LandIndex::new(&boxes);
        Land { polygons, index }
    }

    fn is_water(&self, lon: f64, lat: f64) -> bool {
        let contains =
            |i: usize, p: LonLat| self.polygons[i].contains(&Point::new(deg(p.0), deg(p.1)));
        self.index.is_water(&contains, nano(lon), nano(lat))
    }

    fn intersects_polygon(&self, poly: &Polygon<f64>) -> bool {
        let test = |i: usize, turn: i64| self.polygons[i].intersects(&shifted(poly, turn));
        self.index.intersects_polygon(&exterior_of(poly), &test)
    }

    fn contains_polygon(&self, poly: &Polygon<f64>) -> bool {
        let test = |i: usize, turn: i64| self.polygons[i].contains(&shifted(poly, turn));
        self.index.contains_polygon(&exterior_of(poly), &test)
    }
}

fn line_of(coords: &[(f64, f64)]) -> LineString<f64> {
    LineString::from(coords.to_vec())
}

fn square(x0: f64, x1: f64, y0: f64, y1: f64) -> Polygon<f64> {
    Polygon::new(
        line_of(&[(x0, y0), (x1, y0), (x1, y1), (x0, y1), (x0, y0)]),
        vec![],
    )
}

/// A short all-water segment hugging the antimeridian must not be reported as
/// crossing land just because a coastline segment exists on the far side of the
/// planet.
#[test]
fn crosses_land_antimeridian_no_false_positive_from_far_land() {
    let index = Coast::new(vec![line_of(&[(0.0, -1.0), (0.0, 1.0)])]);
    assert!(
        !index.crosses_land(179.9, 0.0, -179.9, 0.0),
        "seam-hugging water segment must not report a land crossing from unrelated \
         coastline on the far side of the planet"
    );
}

/// A coastline segment that actually straddles the seam-crossing path, right at
/// the antimeridian, must be detected.
#[test]
fn crosses_land_antimeridian_detects_real_crossing_near_seam() {
    let index = Coast::new(vec![line_of(&[(179.95, -1.0), (179.95, 1.0)])]);
    assert!(
        index.crosses_land(179.9, 0.0, -179.9, 0.0),
        "a coastline segment actually straddling the seam-crossing path must be detected"
    );
}

#[test]
fn crosses_land_normal_case_unaffected() {
    let index = Coast::new(vec![line_of(&[(10.0, -1.0), (10.0, 1.0)])]);
    assert!(index.crosses_land(5.0, 0.0, 15.0, 0.0));
    assert!(!index.crosses_land(5.0, 0.0, 5.0, 1.0));
}

#[test]
fn land_index_intersects_polygon_handles_unwrapped_transmeridian_ring() {
    // A ring across the seam, unwrapped: it spans lon 179.5..180.5.
    let poly = square(179.5, 180.5, 0.0, 1.0);

    // Land just west of the seam, only reachable by the shifted variant.
    let index_west = Land::new(vec![square(-179.9, -179.7, 0.4, 0.6)]);
    assert!(
        index_west.intersects_polygon(&poly),
        "transmeridian polygon must detect land just west of the seam"
    );

    // Land just east of the seam, reachable directly.
    let index_east = Land::new(vec![square(179.55, 179.65, 0.4, 0.6)]);
    assert!(
        index_east.intersects_polygon(&poly),
        "transmeridian polygon must detect land just east of the seam"
    );

    // Unrelated land far away must not match.
    let index_far = Land::new(vec![square(0.0, 0.1, 0.4, 0.6)]);
    assert!(!index_far.intersects_polygon(&poly));
}

#[test]
fn min_distance_deg_matches_expected_point_to_segment_distance() {
    // A simple L-shaped coastline; point-to-segment distance is well known here.
    let index = Coast::new(vec![line_of(&[(0.0, 0.0), (0.0, 1.0), (1.0, 1.0)])]);

    // Directly on the line -> distance ~0.
    let on_line = index.min_distance_deg(0.0, 0.5, 5.0);
    assert!(on_line < 1e-9, "expected ~0, got {on_line}");

    // Perpendicular distance of 0.5 deg from the vertical segment.
    let off_line = index.min_distance_deg(0.5, 0.5, 5.0);
    assert!(
        (off_line - 0.5).abs() < 1e-9,
        "expected ~0.5, got {off_line}"
    );

    // Nothing within a tiny radius far away.
    let far = index.min_distance_deg(50.0, 50.0, 0.5);
    assert_eq!(far, f64::MAX);
}

#[test]
fn min_distance_deg_finds_coastline_across_antimeridian_seam() {
    // Coastline segment just east of the seam, spanning the query's latitude.
    let index = Coast::new(vec![line_of(&[(179.98, -0.5), (179.98, 0.5)])]);

    // True short-way distance is 0.02 + 0.01 = 0.03 deg.
    let dist = index.min_distance_deg(-179.99, 0.0, 0.05);
    assert!(
        (dist - 0.03).abs() < 1e-9,
        "expected ~0.03 deg across the antimeridian seam, got {dist}"
    );
}

#[test]
fn min_distance_deg_finds_coastline_across_antimeridian_seam_other_side() {
    let index = Coast::new(vec![line_of(&[(-179.98, -0.5), (-179.98, 0.5)])]);

    let dist = index.min_distance_deg(179.99, 0.0, 0.05);
    assert!(
        (dist - 0.03).abs() < 1e-9,
        "expected ~0.03 deg across the antimeridian seam, got {dist}"
    );
}

#[test]
fn min_distance_deg_normal_case_unaffected_by_antimeridian_handling() {
    let index = Coast::new(vec![line_of(&[(10.0, -1.0), (10.0, 1.0)])]);
    let dist = index.min_distance_deg(9.5, 0.0, 5.0);
    assert!((dist - 0.5).abs() < 1e-9, "expected ~0.5, got {dist}");
}

/// Vertical coastline at lon=28.0 from lat 36.0 to 37.0.
fn coast() -> Coast {
    Coast::new(vec![line_of(&[(28.0, 36.0), (28.0, 37.0)])])
}

#[test]
fn point_distance_mid_latitude() {
    // 0.1 deg of longitude at lat 36.5 = 0.1 * 60 * cos(36.5 deg) nm
    let expected = 0.1 * 60.0 * (36.5f64).to_radians().cos();
    let d = coast().min_distance_nm(28.1, 36.5, 5.1);
    assert!((d - expected).abs() < 0.05, "got {d}, expected {expected}");
}

#[test]
fn point_distance_high_latitude_cos_correction() {
    let idx = Coast::new(vec![line_of(&[(10.0, 59.5), (10.0, 60.5)])]);
    // 0.1 deg lon at lat 60 = 0.1 * 60 * 0.5 = 3.0 nm
    let d = idx.min_distance_nm(10.1, 60.0, 5.1);
    assert!((d - 3.0).abs() < 0.05, "got {d}, expected 3.0");
}

#[test]
fn point_beyond_cap_returns_max() {
    // ~48 nm away, cap 5.1 -> envelope finds nothing
    let d = coast().min_distance_nm(29.0, 36.5, 5.1);
    assert_eq!(d, 5.1);
}

#[test]
fn empty_index_returns_max() {
    let idx = Coast::new(vec![]);
    assert_eq!(idx.min_distance_nm(28.0, 36.5, 5.1), 5.1);
}

#[test]
fn segment_distance_parallel() {
    // Query segment at lon 28.05, parallel to the coast
    let expected = 0.05 * 60.0 * (36.5f64).to_radians().cos();
    let d = coast().segment_min_distance_nm((28.05, 36.4, 28.05, 36.6), 5.1);
    assert!((d - expected).abs() < 0.05, "got {d}, expected {expected}");
}

#[test]
fn segment_crossing_coast_returns_zero() {
    let d = coast().segment_min_distance_nm((27.9, 36.5, 28.1, 36.5), 5.1);
    assert_eq!(d, 0.0);
}

#[test]
fn point_distance_across_antimeridian() {
    // Coastline just west of the seam; query point just east of it.
    let idx = Coast::new(vec![line_of(&[(179.98, -0.5), (179.98, 0.5)])]);
    // 0.03 deg of longitude at the equator = 1.8 nm, across the seam
    let d = idx.min_distance_nm(-179.99, 0.0, 5.1);
    assert!((d - 1.8).abs() < 0.05, "got {d}, expected 1.8");
}

#[test]
fn segment_distance_across_antimeridian() {
    // Coastline north of a seam-crossing query segment.
    let idx = Coast::new(vec![line_of(&[(179.98, 0.05), (179.98, 0.2)])]);
    // Horizontal query at the equator crossing the seam: closest approach
    // is the coastline's south endpoint, 0.05 deg lat = 3.0 nm.
    let d = idx.segment_min_distance_nm((179.9, 0.0, -179.9, 0.0), 5.1);
    assert!((d - 3.0).abs() < 0.05, "got {d}, expected 3.0");
}

fn boundary_of(lat: f64, lng: f64) -> Vec<(i64, i64)> {
    let cell = LatLng::new(lat, lng)
        .expect("valid lat/lng")
        .to_cell(Resolution::Five);
    cell.boundary()
        .iter()
        .map(|ll| (nano(ll.lat()), nano(ll.lng())))
        .collect()
}

/// A res-5 cell seeded right at the antimeridian must produce a compact polygon,
/// not a degenerate ring spanning ~360 degrees.
#[test]
fn cell_polygon_transmeridian_cell_has_small_lon_extent() {
    let boundary = boundary_of(65.0, 179.99);

    // The cell straddles the antimeridian: the boundary has a jump > 180 degrees
    // between two consecutive vertices.
    let n = boundary.len();
    let straddles = (0..n).any(|i| {
        let a = deg(boundary[i].1);
        let b = deg(boundary[(i + 1) % n].1);
        (a - b).abs() > 180.0
    });
    assert!(
        straddles,
        "test cell does not actually straddle the antimeridian; pick a different seed point"
    );

    let poly = cell_polygon(&boundary);
    let lons: Vec<f64> = poly.iter().map(|c| deg(c.0)).collect();
    let min_lon = lons.iter().cloned().fold(f64::MAX, f64::min);
    let max_lon = lons.iter().cloned().fold(f64::MIN, f64::max);
    assert!(
        max_lon - min_lon < 5.0,
        "transmeridian cell polygon should have small lon extent, got {} (min={}, max={})",
        max_lon - min_lon,
        min_lon,
        max_lon
    );
}

#[test]
fn cell_polygon_normal_cell_unaffected() {
    let poly = cell_polygon(&boundary_of(51.5, -0.1));
    let lons: Vec<f64> = poly.iter().map(|c| deg(c.0)).collect();
    let min_lon = lons.iter().cloned().fold(f64::MAX, f64::min);
    let max_lon = lons.iter().cloned().fold(f64::MIN, f64::max);
    assert!(max_lon - min_lon < 1.0);
}

#[test]
fn wrap_aware_mid_lon_handles_antimeridian() {
    let mid = deg(wrap_aware_mid_lon(nano(179.95), nano(-179.95)));
    assert!(
        (mid.abs() - 180.0).abs() < 1.0,
        "expected midpoint near +/-180 (the seam), got {mid}"
    );
}

#[test]
fn wrap_aware_mid_lon_handles_antimeridian_other_order() {
    let mid = deg(wrap_aware_mid_lon(nano(-179.95), nano(179.95)));
    assert!(
        (mid.abs() - 180.0).abs() < 1.0,
        "expected midpoint near +/-180 (the seam), got {mid}"
    );
}

#[test]
fn wrap_aware_mid_lon_normal_case_unaffected() {
    let mid = deg(wrap_aware_mid_lon(nano(10.0), nano(20.0)));
    assert!((mid - 15.0).abs() < 1e-9);
}

#[test]
fn water_is_outside_every_polygon() {
    let land = Land::new(vec![square(0.0, 1.0, 0.0, 1.0), square(2.0, 3.0, 0.0, 1.0)]);
    assert_eq!(land.index.polygon_count(), 2);
    assert!(!land.is_water(0.5, 0.5));
    assert!(!land.is_water(2.5, 0.5));
    assert!(land.is_water(1.5, 0.5));
    // On the edge is not inside.
    assert!(land.is_water(0.0, 0.5));
}

#[test]
fn a_cell_is_land_only_inside_one_polygon() {
    let land = Land::new(vec![square(0.0, 1.0, 0.0, 1.0), square(1.0, 2.0, 0.0, 1.0)]);
    assert!(land.contains_polygon(&square(0.2, 0.8, 0.2, 0.8)));
    assert!(!land.contains_polygon(&square(0.8, 1.2, 0.2, 0.8)));
    assert!(land.intersects_polygon(&square(0.8, 1.2, 0.2, 0.8)));
    assert!(!land.intersects_polygon(&square(5.0, 6.0, 0.2, 0.8)));
    // Beyond the antimeridian to the west.
    let far = Land::new(vec![square(179.0, 180.0, 0.0, 1.0)]);
    assert!(far.contains_polygon(&square(-180.9, -180.5, 0.2, 0.8)));
}

#[test]
fn water_is_taken_from_the_land_around_it() {
    let b = |x: i64| Bbox {
        min_lon: x,
        min_lat: 0,
        max_lon: x + 10,
        max_lat: 10,
    };
    let near = subtract_water(&vec![b(0), b(100), b(50)], &vec![b(5), b(55), b(60)]);
    assert_eq!(near.len(), 3);
    assert_eq!(near[0], vec![0]);
    assert_eq!(near[1], Vec::<usize>::new());
    let mut third = near[2].clone();
    third.sort();
    assert_eq!(third, vec![1, 2]);
}

#[test]
fn many_boxes_are_all_found() {
    let boxes: Vec<Bbox> = (0..500)
        .map(|i| Bbox {
            min_lon: i * 10,
            min_lat: i,
            max_lon: i * 10 + 5,
            max_lat: i + 1,
        })
        .collect();
    let index = CoastlineIndex::new(&boxes);
    assert_eq!(index.segment_count(), 500);
    for i in 0..500usize {
        let lon = i as i64 * 10 + 2;
        let lat = i as i64;
        assert!(index.crosses_land(&|k: usize, _: LonLatSegment| k == i, lon, lat, lon, lat));
        assert!(!index.crosses_land(&|k: usize, _: LonLatSegment| k != i, lon, lat, lon, lat));
    }
}

#[test]
fn a_line_across_the_seam_is_cut_there() {
    let (a, b) = split_at_antimeridian((nano(179.0), nano(10.0), nano(-178.0), nano(40.0)));
    assert_eq!(a, (nano(179.0), nano(10.0), nano(180.0), nano(20.0)));
    assert_eq!(b, (nano(-180.0), nano(20.0), nano(-178.0), nano(40.0)));
    let (a, b) = split_at_antimeridian((nano(-178.0), nano(40.0), nano(179.0), nano(10.0)));
    assert_eq!(a, (nano(-178.0), nano(40.0), nano(-180.0), nano(20.0)));
    assert_eq!(b, (nano(180.0), nano(20.0), nano(179.0), nano(10.0)));
    // Along the seam there is no crossing in between.
    let (a, b) = split_at_antimeridian((nano(180.0), 7, nano(-180.0), 9));
    assert_eq!(a, (nano(180.0), 7, nano(180.0), 7));
    assert_eq!(b, (nano(-180.0), 7, nano(-180.0), 9));
}

#[test]
fn lines_beyond_the_map() {
    // The extension of the line crosses the antimeridian.
    let s = (nano(350.0), nano(10.0), nano(10.0), nano(30.0));
    assert!(is_traceable(s));
    let (a, b) = split_at_antimeridian(s);
    assert_eq!(a, (nano(350.0), nano(10.0), nano(180.0), nano(-160.0)));
    assert_eq!(b, (nano(180.0), nano(-160.0), nano(10.0), nano(30.0)));
    // A line that runs along another meridian never does.
    assert!(!is_traceable((nano(400.0), 0, nano(40.0), 1)));
    assert!(!is_traceable((MAX_REACH + 1, 0, 0, 0)));
    assert!(is_traceable((nano(180.0), 7, nano(-180.0), 9)));
    let piece = Bbox {
        min_lon: nano(190.0),
        min_lat: 0,
        max_lon: nano(191.0),
        max_lat: nano(1.0),
    };
    let index = CoastlineIndex::new(&vec![piece]);
    let any = |_: usize, _: LonLatSegment| true;
    assert!(index.crosses_land(&any, nano(185.0), 0, nano(195.0), nano(1.0)));
    assert!(!index.crosses_land(&any, nano(192.0), 0, nano(195.0), nano(1.0)));
}

#[test]
fn taking_water_away_adds_just_that_water() {
    // Shapes that fill their boxes.
    let b = |x: i64, w: i64| Bbox {
        min_lon: x,
        min_lat: 0,
        max_lon: x + w,
        max_lat: 10,
    };
    let land = vec![b(0, 10), b(5, 20), b(100, 3)];
    let water = vec![b(8, 4), b(30, 5), b(24, 10)];
    let near = subtract_water(&land, &water);
    let before = LandIndex::new(&land);
    let holds = |all: &Vec<Bbox>, i: usize, p: LonLat| all[i].contains_point(p.0, p.1);
    for lon in -2..110 {
        let p = (lon, 5);
        let left = (0..land.len())
            .any(|i| holds(&land, i, p) && !near[i].iter().any(|&k| holds(&water, k, p)));
        let was_water = before.is_water(&|i: usize, p: LonLat| holds(&land, i, p), p.0, p.1);
        let wet = (0..water.len()).any(|k| holds(&water, k, p));
        assert_eq!(!left, was_water || wet);
    }
    assert!(subtract_water(&land, &vec![]).iter().all(|list| list.is_empty()));
}

#[test]
fn queries_near_the_seam_are_turned() {
    assert_eq!(wrap_retry(nano(170.0), nano(170.0), nano(10.0)), 0);
    assert_eq!(wrap_retry(nano(170.0), nano(171.0), nano(10.0)), -FULL_TURN);
    assert_eq!(wrap_retry(nano(-171.0), nano(-170.0), nano(10.0)), FULL_TURN);
}

#[test]
fn a_ring_goes_on_beyond_the_seam() {
    let ring = cell_polygon(&vec![
        (1, nano(179.0)),
        (2, nano(-179.0)),
        (3, nano(-178.0)),
        (4, nano(179.5)),
    ]);
    assert_eq!(
        ring,
        vec![
            (nano(179.0), 1),
            (nano(181.0), 2),
            (nano(182.0), 3),
            (nano(179.5), 4),
            (nano(179.0), 1),
        ]
    );
    assert_eq!(cell_polygon(&vec![]), vec![]);
}

#[test]
fn boxes_of_points() {
    assert_eq!(bounding_rect(&vec![]), None);
    let points = vec![(3, 4), (-1, 9), (2, -5)];
    let b = bounding_rect(&points).unwrap();
    assert_eq!(
        b,
        Bbox {
            min_lon: -1,
            min_lat: -5,
            max_lon: 3,
            max_lat: 9
        }
    );
    assert!(b.contains_point(3, 9));
    assert!(!b.contains_point(4, 9));
    assert!(polygon_intersects_bbox(
        &points,
        Bbox {
            min_lon: 3,
            min_lat: 9,
            max_lon: 8,
            max_lat: 12
        }
    ));
    assert!(!polygon_intersects_bbox(
        &points,
        Bbox {
            min_lon: 4,
            min_lat: 9,
            max_lon: 8,
            max_lat: 12
        }
    ));
    assert!(!polygon_intersects_bbox(&vec![], b));
}
