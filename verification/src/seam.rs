//! Longitudes around the antimeridian, in nanodegrees.

use vstd::prelude::*;
use crate::bounds::LonLat;

verus! {

/// Half a turn.
pub const HALF_TURN: i64 = 180_000_000_000;

/// A full turn.
pub const FULL_TURN: i64 = 360_000_000_000;

/// A longitude as maps write it.
pub open spec fn is_lon(lon: i64) -> bool {
    -HALF_TURN <= lon <= HALF_TURN
}

/// A latitude as maps write it.
pub open spec fn is_lat(lat: i64) -> bool {
    -HALF_TURN <= 2 * lat <= HALF_TURN
}

/// Half of a number, rounded towards zero.
pub open spec fn half(s: int) -> int {
    if s >= 0 {
        s / 2
    } else {
        -((-s) / 2)
    }
}

/// Computes [`half`].
pub fn half_of(s: i64) -> (r: i64)
    requires
        s > i64::MIN,
    ensures
        r == half(s as int),
{
    if s >= 0 {
        s / 2
    } else {
        -((-s) / 2)
    }
}

/// The two points are on opposite sides of the antimeridian: the short way
/// between them crosses it.
pub open spec fn across_seam(lon1: i64, lon2: i64) -> bool {
    lon1 - lon2 > HALF_TURN || lon2 - lon1 > HALF_TURN
}

/// Longitude of the midpoint on the short way.
pub open spec fn mid_lon(lon1: i64, lon2: i64) -> int {
    if across_seam(lon1, lon2) {
        let mid = half(lon1 + lon2 + FULL_TURN);
        (mid + HALF_TURN + FULL_TURN) % (FULL_TURN as int) - HALF_TURN
    } else {
        half(lon1 + lon2)
    }
}

/// Longitude of the midpoint. Averaging alone would put the middle of a line
/// across the antimeridian on the other side of the globe; there the negative
/// longitude is taken a turn further first.
pub fn wrap_aware_mid_lon(lon1: i64, lon2: i64) -> (r: i64)
    requires
        is_lon(lon1),
        is_lon(lon2),
    ensures
        r == mid_lon(lon1, lon2),
        is_lon(r),
{
    if lon1 - lon2 > HALF_TURN || lon2 - lon1 > HALF_TURN {
        let mid: i64 = half_of(lon1 + lon2 + FULL_TURN);
        (mid + HALF_TURN + FULL_TURN) % FULL_TURN - HALF_TURN
    } else {
        half_of(lon1 + lon2)
    }
}

/// The midpoint does not depend on the order of the ends, and lies within a
/// quarter turn of each, across the antimeridian where need be.
pub proof fn lemma_mid_lon(lon1: i64, lon2: i64)
    requires
        is_lon(lon1),
        is_lon(lon2),
    ensures
        mid_lon(lon1, lon2) == mid_lon(lon2, lon1),
        near(mid_lon(lon1, lon2), lon1 as int),
        near(mid_lon(lon1, lon2), lon2 as int),
{
}

/// The ends of a line: the longitude and latitude of each.
pub type LonLatSegment = (i64, i64, i64, i64);

/// The line is on the map.
pub open spec fn on_map(s: LonLatSegment) -> bool {
    is_lon(s.0) && is_lat(s.1) && is_lon(s.2) && is_lat(s.3)
}

/// Largest distance that is searched around a point or a line, and largest
/// coordinate that is reckoned with, in nanodegrees.
pub const MAX_REACH: i64 = 1_000_000_000_000_000_000;

pub open spec fn in_reach(x: i64) -> bool {
    -MAX_REACH <= x <= MAX_REACH
}

/// The longitudes of the ends in a frame without a jump at the antimeridian: the
/// first is a turn further where it is negative, else the second is.
pub open spec fn unrolled(s: LonLatSegment) -> (int, int) {
    if s.0 < 0 {
        (s.0 + FULL_TURN, s.2 as int)
    } else {
        (s.0 as int, s.2 + FULL_TURN)
    }
}

pub open spec fn distance_between(a: int, b: int) -> int {
    if a < b {
        b - a
    } else {
        a - b
    }
}

/// Latitude at which a line across the antimeridian, or its extension, crosses
/// it, rounded towards the first end. A line along it counts as crossing at the
/// first end.
pub open spec fn crossing_lat(s: LonLatSegment) -> int {
    let (u1, u2) = unrolled(s);
    let part = distance_between(u1, HALF_TURN as int);
    let whole = distance_between(u1, u2);
    let rise = distance_between(s.1 as int, s.3 as int);
    let step = if whole == 0 {
        0
    } else {
        part * rise / whole
    };
    let ahead = (u1 <= HALF_TURN) == (u1 <= u2);
    if (s.1 <= s.3) == ahead {
        s.1 + step
    } else {
        s.1 - step
    }
}

/// The line is within reach. Where it goes across the antimeridian, so is the
/// place at which it does.
pub open spec fn traceable(s: LonLatSegment) -> bool {
    &&& in_reach(s.0) && in_reach(s.1) && in_reach(s.2) && in_reach(s.3)
    &&& across_seam(s.0, s.2) ==> {
        &&& unrolled(s).0 != unrolled(s).1 || unrolled(s).0 == HALF_TURN
        &&& -MAX_REACH <= crossing_lat(s) <= MAX_REACH
    }
}

fn apart(a: i64, b: i64) -> (r: u64)
    ensures
        r == distance_between(a as int, b as int),
{
    if a < b {
        (b as i128 - a as i128) as u64
    } else {
        (a as i128 - b as i128) as u64
    }
}

fn unroll(s: LonLatSegment) -> (r: (i64, i64))
    requires
        in_reach(s.0),
        in_reach(s.2),
    ensures
        (r.0 as int, r.1 as int) == unrolled(s),
{
    if s.0 < 0 {
        (s.0 + FULL_TURN, s.2)
    } else {
        (s.0, s.2 + FULL_TURN)
    }
}

fn crossing(s: LonLatSegment) -> (r: i128)
    requires
        in_reach(s.0),
        in_reach(s.1),
        in_reach(s.2),
        in_reach(s.3),
    ensures
        r == crossing_lat(s),
{
    let (u1, u2): (i64, i64) = unroll(s);
    let part: u64 = apart(u1, HALF_TURN);
    let whole: u64 = apart(u1, u2);
    let rise: u64 = apart(s.1, s.3);
    proof {
        let (p, w, h) = (part as int, whole as int, rise as int);
        let (most, high) = (2 * MAX_REACH as int, 2 * MAX_REACH as int);
        assert(0 <= p * h <= most * high) by (nonlinear_arith)
            requires
                0 <= p <= most,
                0 <= h <= high,
        ;
        if w > 0 {
            assert(0 <= p * h / w <= p * h) by (nonlinear_arith)
                requires
                    0 <= p * h,
                    w >= 1,
            ;
        }
    }
    let step: u128 = if whole == 0 {
        0
    } else {
        part as u128 * rise as u128 / whole as u128
    };
    let ahead: bool = (u1 <= HALF_TURN) == (u1 <= u2);
    if (s.1 <= s.3) == ahead {
        s.1 as i128 + step as i128
    } else {
        s.1 as i128 - step as i128
    }
}

fn within_reach(x: i64) -> (r: bool)
    ensures
        r == in_reach(x),
{
    x >= -MAX_REACH && x <= MAX_REACH
}

/// Computes [`traceable`].
pub fn is_traceable(s: LonLatSegment) -> (r: bool)
    ensures
        r == traceable(s),
{
    if !within_reach(s.0) || !within_reach(s.1) || !within_reach(s.2) || !within_reach(s.3) {
        return false;
    }
    if s.0 - s.2 <= HALF_TURN && s.2 - s.0 <= HALF_TURN {
        return true;
    }
    let (u1, u2): (i64, i64) = unroll(s);
    let lat: i128 = crossing(s);
    (u1 != u2 || u1 == HALF_TURN) && lat >= -MAX_REACH as i128 && lat <= MAX_REACH as i128
}

/// The side of the antimeridian that a longitude is on.
pub open spec fn seam_side(lon: i64) -> i64 {
    if lon < 0 {
        (-HALF_TURN) as i64
    } else {
        HALF_TURN
    }
}

/// The two parts of a line across the antimeridian.
pub open spec fn parts_at_seam(s: LonLatSegment) -> (LonLatSegment, LonLatSegment) {
    let lat = crossing_lat(s) as i64;
    ((s.0, s.1, seam_side(s.0), lat), (seam_side(s.2), lat, s.2, s.3))
}

fn side_of(lon: i64) -> (r: i64)
    ensures
        r == seam_side(lon),
{
    if lon < 0 {
        -HALF_TURN
    } else {
        HALF_TURN
    }
}

/// Every line on the map can be traced, and crosses the antimeridian between the
/// latitudes of its ends.
pub proof fn lemma_traceable_on_map(s: LonLatSegment)
    requires
        on_map(s),
    ensures
        traceable(s),
        across_seam(s.0, s.2) ==> s.1 <= crossing_lat(s) <= s.3 || s.3 <= crossing_lat(s) <= s.1,
{
    if across_seam(s.0, s.2) {
        let (u1, u2) = unrolled(s);
        let part = distance_between(u1, HALF_TURN as int);
        let whole = distance_between(u1, u2);
        let rise = distance_between(s.1 as int, s.3 as int);
        if whole > 0 {
            assert(0 <= part * rise / whole <= rise) by (nonlinear_arith)
                requires
                    0 <= part <= whole,
                    0 < whole,
                    0 <= rise,
            ;
            assert(part == 0 ==> part * rise / whole == 0) by (nonlinear_arith)
                requires
                    0 < whole,
            ;
        }
    }
}

/// The crossing is on the line, up to rounding: with `u1` and `u2` the longitudes of
/// the ends, negative ones taken a turn further, the latitude rises from the first
/// end to the crossing as it does on the whole way, in proportion.
pub proof fn lemma_crossing_on_line(s: LonLatSegment, u1: int, u2: int)
    requires
        on_map(s),
        across_seam(s.0, s.2),
        u1 == if s.0 < 0 {
            s.0 + 360_000_000_000
        } else {
            s.0 as int
        },
        u2 == if s.2 < 0 {
            s.2 + 360_000_000_000
        } else {
            s.2 as int
        },
        u1 != u2,
    ensures
        distance_between(
            (crossing_lat(s) - s.1) * (u2 - u1),
            (180_000_000_000 - u1) * (s.3 - s.1),
        ) < distance_between(u1, u2),
{
    assert(unrolled(s) == (u1, u2));
    let part = distance_between(u1, HALF_TURN as int);
    let whole = distance_between(u1, u2);
    let rise = distance_between(s.1 as int, s.3 as int);
    let step = part * rise / whole;
    assert(0 <= part * rise - step * whole < whole) by (nonlinear_arith)
        requires
            whole > 0,
            step == part * rise / whole,
    ;
    assert(part == 0 ==> step == 0) by (nonlinear_arith)
        requires
            whole > 0,
            step == part * rise / whole,
    ;
    let way = u2 - u1;
    let rest = 180_000_000_000 - u1;
    let up = s.3 - s.1;
    let gone = crossing_lat(s) - s.1;
    assert(way == whole || way == -whole);
    assert(rest == part || rest == -part);
    assert(up == rise || up == -rise);
    assert(gone == step || gone == -step);
    assert((-part) * rise == -(part * rise)) by (nonlinear_arith);
    assert(part * (-rise) == -(part * rise)) by (nonlinear_arith);
    assert((-part) * (-rise) == part * rise) by (nonlinear_arith);
    assert((-step) * whole == -(step * whole)) by (nonlinear_arith);
    assert(step * (-whole) == -(step * whole)) by (nonlinear_arith);
    assert((-step) * (-whole) == step * whole) by (nonlinear_arith);
    assert(part == 0 ==> part * rise == 0) by (nonlinear_arith);
    assert(step == 0 ==> step * whole == 0) by (nonlinear_arith);
    assert(rise == 0 ==> part * rise == 0 && step * whole == 0) by (nonlinear_arith)
        requires
            whole > 0,
            step == part * rise / whole,
    ;
}

/// Cuts a line across the antimeridian in two. On the map each part keeps to one
/// side.
pub fn split_at_antimeridian(s: LonLatSegment) -> (r: (LonLatSegment, LonLatSegment))
    requires
        traceable(s),
        across_seam(s.0, s.2),
    ensures
        r == parts_at_seam(s),
{
    let lat: i64 = crossing(s) as i64;
    ((s.0, s.1, side_of(s.0), lat), (side_of(s.2), lat, s.2, s.3))
}

/// The parts of a line across the antimeridian meet there, one on each side of
/// it, do not cross it themselves, and together are as wide as the line.
pub proof fn lemma_parts(s: LonLatSegment)
    requires
        is_lon(s.0),
        is_lon(s.2),
        across_seam(s.0, s.2),
    ensures
        ({
            let (a, b) = parts_at_seam(s);
            &&& (a.0, a.1) == (s.0, s.1)
            &&& (b.2, b.3) == (s.2, s.3)
            &&& a.3 == b.1
            &&& a.2 == -b.0
            &&& a.2 == HALF_TURN || a.2 == -HALF_TURN
            &&& !across_seam(a.0, a.2)
            &&& !across_seam(b.0, b.2)
            &&& distance_between(a.0 as int, a.2 as int) + distance_between(b.0 as int, b.2 as int)
                == FULL_TURN - distance_between(s.0 as int, s.2 as int)
        }),
{
}

/// How far a query must be turned to meet what lies across the antimeridian:
/// not at all where its longitudes, `reach` wider on both sides, stay on the
/// map.
pub open spec fn retry_turn(lon_min: i64, lon_max: i64, reach: i64) -> i64 {
    if lon_max + reach > HALF_TURN {
        (-FULL_TURN) as i64
    } else if lon_min - reach < -HALF_TURN {
        FULL_TURN
    } else {
        0
    }
}

/// Computes [`retry_turn`].
pub fn wrap_retry(lon_min: i64, lon_max: i64, reach: i64) -> (r: i64)
    requires
        in_reach(lon_min),
        in_reach(lon_max),
        0 <= reach <= MAX_REACH,
    ensures
        r == retry_turn(lon_min, lon_max, reach),
{
    if lon_max + reach > HALF_TURN {
        -FULL_TURN
    } else if lon_min - reach < -HALF_TURN {
        FULL_TURN
    } else {
        0
    }
}

/// What is within `reach` of a longitude, or nearer than that across the
/// antimeridian, is within `reach` of the query as it is or of the one that is
/// turned: no coast that is near the short way round is missed.
pub proof fn lemma_retry_reaches(lon: i64, other: i64, reach: i64)
    requires
        is_lon(lon),
        is_lon(other),
        0 <= reach < HALF_TURN,
        ({
            let d = distance_between(lon as int, other as int);
            d <= reach || FULL_TURN - d < reach
        }),
    ensures
        distance_between(lon as int, other as int) <= reach || distance_between(
            lon + retry_turn(lon, lon, reach),
            other as int,
        ) <= reach,
{
}

/// Takes the turns that lead to vertex `n` of a ring: one back for each jump up
/// past the antimeridian, one forward for each jump down.
pub open spec fn turns_before(lons: Seq<i64>, n: int) -> int
    decreases n,
{
    if n <= 0 {
        0
    } else if lons[n] - lons[n - 1] > HALF_TURN {
        turns_before(lons, n - 1) - 1
    } else if lons[n] - lons[n - 1] < -HALF_TURN {
        turns_before(lons, n - 1) + 1
    } else {
        turns_before(lons, n - 1)
    }
}

/// The longitudes of a boundary that lists latitudes and longitudes.
pub open spec fn lons_of(boundary: Seq<(i64, i64)>) -> Seq<i64> {
    boundary.map_values(|v: (i64, i64)| v.1)
}

/// Most vertices of a boundary.
pub const MAX_VERTICES: usize = 1_000_000;

/// The ring around a cell, as longitudes and latitudes, from its boundary, which
/// lists latitudes and longitudes. Where the boundary jumps at the antimeridian
/// the ring goes on beyond it, so it stays compact. Its first vertex comes again
/// at the end.
pub fn cell_polygon(boundary: &Vec<(i64, i64)>) -> (r: Vec<LonLat>)
    requires
        boundary@.len() <= MAX_VERTICES,
        forall|i: int| 0 <= i < boundary@.len() ==> is_lon((#[trigger] boundary@[i]).1),
    ensures
        boundary@.len() == 0 ==> r@.len() == 0,
        boundary@.len() > 0 ==> {
            &&& r@.len() == boundary@.len() + 1
            &&& r@.last() == r@[0]
        },
        forall|i: int|
            0 <= i < boundary@.len() ==> {
                &&& (#[trigger] r@[i]).0 == boundary@[i].1 + turns_before(lons_of(boundary@), i)
                    * FULL_TURN
                &&& r@[i].1 == boundary@[i].0
            },
{
    let ghost lons = lons_of(boundary@);
    let mut coords: Vec<LonLat> = Vec::new();
    let mut offset: i64 = 0;
    let mut i: usize = 0;
    while i < boundary.len()
        invariant
            boundary@.len() <= MAX_VERTICES,
            forall|k: int| 0 <= k < boundary@.len() ==> is_lon((#[trigger] boundary@[k]).1),
            lons == lons_of(boundary@),
            i <= boundary@.len(),
            coords@.len() == i,
            -(i * FULL_TURN) <= offset <= i * FULL_TURN,
            offset == turns_before(lons, i - 1) * FULL_TURN,
            forall|k: int|
                0 <= k < i ==> {
                    &&& (#[trigger] coords@[k]).0 == boundary@[k].1 + turns_before(lons, k)
                        * FULL_TURN
                    &&& coords@[k].1 == boundary@[k].0
                },
        decreases boundary@.len() - i,
    {
        let (lat, lon): (i64, i64) = boundary[i];
        if i > 0 {
            let delta: i64 = lon - boundary[i - 1].1;
            assert(lons[i as int] - lons[i - 1] == delta);
            if delta > HALF_TURN {
                offset = offset - FULL_TURN;
            } else if delta < -HALF_TURN {
                offset = offset + FULL_TURN;
            }
        }
        coords.push((lon + offset, lat));
        i = i + 1;
    }
    if boundary.len() > 0 {
        let first = coords[0];
        coords.push(first);
    }
    coords
}

/// On the ring of [`cell_polygon`] no two vertices that follow on each other are
/// more than half a turn apart.
pub proof fn lemma_ring_has_no_jump(lons: Seq<i64>, i: int)
    requires
        0 < i < lons.len(),
        is_lon(lons[i]),
        is_lon(lons[i - 1]),
    ensures
        distance_between(
            lons[i] + turns_before(lons, i) * FULL_TURN,
            lons[i - 1] + turns_before(lons, i - 1) * FULL_TURN,
        ) <= HALF_TURN,
{
}

/// Two longitudes are at most a quarter turn apart, up to rounding.
pub open spec fn near(a: int, b: int) -> bool {
    let quarter = HALF_TURN / 2 + 1;
    ||| -quarter <= a - b <= quarter
    ||| -quarter <= a - b + FULL_TURN <= quarter
    ||| -quarter <= a - b - FULL_TURN <= quarter
}

} // verus!
