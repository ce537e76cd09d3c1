//! Spatial indices of land polygons and of pieces of coastline. The trees hold
//! the box of each; the caller tests and measures the shapes themselves. All
//! coordinates are in nanodegrees.

use vstd::prelude::*;
use crate::bounds::{bounding_rect, encloses, lemma_one_bounding_box, Bbox, LonLat};
use crate::boxtree::{boxes_of, bulk_load, lists_meeting, locate, size, BoxTree};
use crate::oracle::{call1, call2, function1, function2, value1, value2};
use crate::seam::{
    across_seam, crossing_lat, half, half_of, in_reach, parts_at_seam, retry_turn, split_at_antimeridian, traceable,
    wrap_retry, LonLatSegment, FULL_TURN, HALF_TURN, MAX_REACH,
};

verus! {

/// All boxes have their corners in order.
pub open spec fn all_proper(boxes: Seq<Bbox>) -> bool {
    forall|i: int| 0 <= i < boxes.len() ==> (#[trigger] boxes[i]).is_proper()
}

/// The test holds of a shape whose box meets `area`.
pub open spec fn some_near(boxes: Seq<Bbox>, area: Bbox, test: spec_fn(int) -> bool) -> bool {
    exists|i: int| 0 <= i < boxes.len() && area.meets(#[trigger] boxes[i]) && test(i)
}

/// The least of `cap` and the distances of those among the first `n` shapes
/// whose boxes meet `area`.
pub open spec fn least_near(
    boxes: Seq<Bbox>,
    area: Bbox,
    distance: spec_fn(int) -> i64,
    cap: i64,
    n: int,
) -> i64
    decreases n,
{
    if n <= 0 {
        cap
    } else {
        let before = least_near(boxes, area, distance, cap, n - 1);
        if area.meets(boxes[n - 1]) && distance(n - 1) < before {
            distance(n - 1)
        } else {
            before
        }
    }
}

/// [`least_near`] of all shapes.
pub open spec fn nearest(
    boxes: Seq<Bbox>,
    area: Bbox,
    distance: spec_fn(int) -> i64,
    cap: i64,
) -> i64 {
    least_near(boxes, area, distance, cap, boxes.len() as int)
}

/// `r` is the least of `cap` and the distances of the first `n` shapes that are
/// near.
proof fn lemma_least_near(
    boxes: Seq<Bbox>,
    area: Bbox,
    distance: spec_fn(int) -> i64,
    cap: i64,
    n: int,
)
    requires
        0 <= n <= boxes.len(),
    ensures
        ({
            let r = least_near(boxes, area, distance, cap, n);
            &&& r <= cap
            &&& forall|i: int| 0 <= i < n && area.meets(#[trigger] boxes[i]) ==> r <= distance(i)
            &&& r == cap || exists|i: int|
                0 <= i < n && area.meets(#[trigger] boxes[i]) && r == distance(i)
        }),
    decreases n,
{
    if n > 0 {
        lemma_least_near(boxes, area, distance, cap, n - 1);
        let before = least_near(boxes, area, distance, cap, n - 1);
        let r = least_near(boxes, area, distance, cap, n);
        if r == before && r != cap {
            let i = choose|i: int|
                0 <= i < n - 1 && area.meets(#[trigger] boxes[i]) && r == distance(i);
            assert(area.meets(boxes[i]) && i < n);
        } else if r != before {
            assert(area.meets(boxes[n - 1]));
        }
    }
}

/// Where every shape lies in its box, going by the boxes first misses none: the
/// index answers as if each shape were tested.
pub proof fn lemma_index_is_exact(boxes: Seq<Bbox>, area: Bbox, test: spec_fn(int) -> bool)
    requires
        forall|i: int| 0 <= i < boxes.len() && test(i) ==> area.meets(#[trigger] boxes[i]),
    ensures
        some_near(boxes, area, test) <==> exists|i: int| 0 <= i < boxes.len() && #[trigger] test(i),
{
    if exists|i: int| 0 <= i < boxes.len() && #[trigger] test(i) {
        let i = choose|i: int| 0 <= i < boxes.len() && #[trigger] test(i);
        assert(area.meets(boxes[i]));
    }
}

/// Where every shape that is nearer than `cap` has a box that meets `area`, the
/// distance that the index gives is the least of all.
pub proof fn lemma_nearest_is_least(
    boxes: Seq<Bbox>,
    area: Bbox,
    distance: spec_fn(int) -> i64,
    cap: i64,
)
    requires
        forall|i: int| 0 <= i < boxes.len() && distance(i) < cap ==> area.meets(#[trigger] boxes[i]),
    ensures
        ({
            let r = nearest(boxes, area, distance, cap);
            &&& r <= cap
            &&& forall|i: int| 0 <= i < boxes.len() ==> r <= #[trigger] distance(i)
            &&& r == cap || exists|i: int| 0 <= i < boxes.len() && r == #[trigger] distance(i)
        }),
{
    let r = nearest(boxes, area, distance, cap);
    lemma_least_near(boxes, area, distance, cap, boxes.len() as int);
    assert forall|i: int| 0 <= i < boxes.len() implies r <= #[trigger] distance(i) by {
        if distance(i) < cap {
            assert(area.meets(boxes[i]));
        }
    }
    if r != cap {
        let i = choose|i: int|
            0 <= i < boxes.len() && area.meets(#[trigger] boxes[i]) && r == distance(i);
        assert(r == distance(i));
    }
}

/// Tests the shapes whose boxes meet `area`.
fn any_near<Q: Copy, F: Fn(usize, Q) -> bool>(tree: &BoxTree, area: Bbox, test: &F, query: Q) -> (r:
    bool)
    requires
        function2(*test),
        area.is_proper(),
    ensures
        r == some_near(boxes_of(*tree), area, |i: int| value2(*test, i as usize, query)),
{
    let near: Vec<usize> = locate(tree, &area);
    let ghost boxes = boxes_of(*tree);
    let ghost holds = |i: int| value2(*test, i as usize, query);
    let mut k: usize = 0;
    while k < near.len()
        invariant
            function2(*test),
            lists_meeting(near@, boxes, area),
            boxes == boxes_of(*tree),
            k <= near@.len(),
            forall|j: int| 0 <= j < k ==> !value2(*test, #[trigger] near@[j], query),
            holds == (|i: int| value2(*test, i as usize, query)),
        decreases near@.len() - k,
    {
        let i: usize = near[k];
        if call2(test, i, query) {
            assert(area.meets(boxes[i as int]) && holds(i as int));
            return true;
        }
        k = k + 1;
    }
    proof {
        if some_near(boxes, area, holds) {
            let i = choose|i: int|
                0 <= i < boxes.len() && area.meets(#[trigger] boxes[i]) && holds(i);
            assert(near@.contains(i as usize));
            let j = choose|j: int| 0 <= j < near@.len() && near@[j] == i as usize;
            assert(!value2(*test, near@[j], query));
        }
    }
    false
}

/// Measures the shapes whose boxes meet `area`.
fn least_distance<Q: Copy, F: Fn(usize, Q) -> i64>(
    tree: &BoxTree,
    area: Bbox,
    distance: &F,
    query: Q,
    cap: i64,
) -> (r: i64)
    requires
        function2(*distance),
        area.is_proper(),
    ensures
        r == nearest(
            boxes_of(*tree),
            area,
            |i: int| value2(*distance, i as usize, query),
            cap,
        ),
{
    let near: Vec<usize> = locate(tree, &area);
    let ghost boxes = boxes_of(*tree);
    let ghost d = |i: int| value2(*distance, i as usize, query);
    let mut best: i64 = cap;
    let mut k: usize = 0;
    while k < near.len()
        invariant
            function2(*distance),
            lists_meeting(near@, boxes, area),
            boxes == boxes_of(*tree),
            k <= near@.len(),
            d == (|i: int| value2(*distance, i as usize, query)),
            best <= cap,
            forall|j: int| 0 <= j < k ==> best <= value2(*distance, #[trigger] near@[j], query),
            best == cap || exists|j: int|
                0 <= j < k && best == value2(*distance, #[trigger] near@[j], query),
        decreases near@.len() - k,
    {
        let here: i64 = call2(distance, near[k], query);
        let ghost before = best;
        if here < best {
            best = here;
        }
        proof {
            if best == before && best != cap {
                let j = choose|j: int|
                    0 <= j < k && best == value2(*distance, #[trigger] near@[j], query);
                assert(best == value2(*distance, near@[j], query) && j < k + 1);
            } else if best != before {
                assert(best == value2(*distance, near@[k as int], query));
            }
        }
        k = k + 1;
    }
    proof {
        let least = nearest(boxes, area, d, cap);
        lemma_least_near(boxes, area, d, cap, boxes.len() as int);
        if best != cap {
            let j = choose|j: int|
                0 <= j < near@.len() && best == value2(*distance, #[trigger] near@[j], query);
            let i = near@[j] as int;
            assert(area.meets(boxes[i]));
            assert(least <= d(i));
        }
        if least != cap {
            let i = choose|i: int|
                0 <= i < boxes.len() && area.meets(#[trigger] boxes[i]) && least == d(i);
            assert(near@.contains(i as usize));
            let j = choose|j: int| 0 <= j < near@.len() && near@[j] == i as usize;
            assert(best <= value2(*distance, near@[j], query));
        }
    }
    best
}

/// The box of one point.
pub open spec fn point_box(lon: i64, lat: i64) -> Bbox {
    Bbox { min_lon: lon, min_lat: lat, max_lon: lon, max_lat: lat }
}

/// The point is moved east by `turn`.
pub open spec fn turned(p: LonLat, turn: i64) -> LonLat {
    ((p.0 + turn) as i64, p.1)
}

/// Some of the points are beyond the antimeridian in the east, or in the west.
pub open spec fn beyond_east(points: Seq<LonLat>) -> bool {
    exists|i: int| 0 <= i < points.len() && (#[trigger] points[i]).0 > HALF_TURN
}

pub open spec fn beyond_west(points: Seq<LonLat>) -> bool {
    exists|i: int| 0 <= i < points.len() && (#[trigger] points[i]).0 < -HALF_TURN
}

/// The shapes meet a polygon, given by its exterior, somewhere around the globe:
/// `test` holds of one as the polygon is, or turned back onto the map from
/// beyond the antimeridian. The second argument of `test` is the turn.
pub open spec fn some_around<F: Fn(usize, i64) -> bool>(
    boxes: Seq<Bbox>,
    exterior: Seq<LonLat>,
    test: F,
) -> bool {
    ||| near_turned(boxes, exterior, test, 0)
    ||| beyond_east(exterior) && near_turned(boxes, exterior, test, (-FULL_TURN) as i64)
    ||| beyond_west(exterior) && near_turned(boxes, exterior, test, FULL_TURN)
}

/// `test` holds of a shape whose box meets that of the turned exterior.
pub open spec fn near_turned<F: Fn(usize, i64) -> bool>(
    boxes: Seq<Bbox>,
    exterior: Seq<LonLat>,
    test: F,
    turn: i64,
) -> bool {
    exists|b: Bbox| #[trigger]
        encloses(b, exterior) && some_near(
            boxes,
            turned_box(b, turn),
            |i: int| value2(test, i as usize, turn),
        )
}

/// The box is moved east by `turn`.
pub open spec fn turned_box(b: Bbox, turn: i64) -> Bbox {
    Bbox {
        min_lon: (b.min_lon + turn) as i64,
        min_lat: b.min_lat,
        max_lon: (b.max_lon + turn) as i64,
        max_lat: b.max_lat,
    }
}

/// Longitudes that can be turned.
pub open spec fn turnable(points: Seq<LonLat>) -> bool {
    forall|i: int| 0 <= i < points.len() ==> -MAX_REACH <= (#[trigger] points[i]).0 <= MAX_REACH
}

/// An index of land polygons. What is in none of them is water.
pub struct LandIndex {
    tree: BoxTree,
}

impl LandIndex {
    /// The boxes of the polygons.
    pub closed spec fn boxes(&self) -> Seq<Bbox> {
        boxes_of(self.tree)
    }

    /// Indexes polygons by their boxes.
    pub fn new(envelopes: &Vec<Bbox>) -> (r: LandIndex)
        requires
            all_proper(envelopes@),
        ensures
            r.boxes() == envelopes@,
    {
        LandIndex { tree: bulk_load(envelopes) }
    }

    pub fn polygon_count(&self) -> (r: usize)
        ensures
            r == self.boxes().len(),
    {
        size(&self.tree)
    }

    /// Whether a point is on water: no polygon holds it. `contains` tests one
    /// polygon.
    pub fn is_water<F: Fn(usize, LonLat) -> bool>(&self, contains: &F, lon: i64, lat: i64) -> (r:
        bool)
        requires
            function2(*contains),
        ensures
            r == !some_near(
                self.boxes(),
                point_box(lon, lat),
                |i: int| value2(*contains, i as usize, (lon, lat)),
            ),
    {
        let area = Bbox { min_lon: lon, min_lat: lat, max_lon: lon, max_lat: lat };
        !any_near(&self.tree, area, contains, (lon, lat))
    }

    /// Whether land meets a polygon. `intersects` tests one polygon of the
    /// index, with the turn that takes the other back onto the map.
    pub fn intersects_polygon<F: Fn(usize, i64) -> bool>(
        &self,
        exterior: &Vec<LonLat>,
        intersects: &F,
    ) -> (r: bool)
        requires
            function2(*intersects),
            turnable(exterior@),
        ensures
            r == some_around(self.boxes(), exterior@, *intersects),
    {
        self.any_around(exterior, intersects)
    }

    /// Whether one polygon of the index holds all of another. `contains` tests
    /// one, with the turn that takes the other back onto the map.
    pub fn contains_polygon<F: Fn(usize, i64) -> bool>(
        &self,
        exterior: &Vec<LonLat>,
        contains: &F,
    ) -> (r: bool)
        requires
            function2(*contains),
            turnable(exterior@),
        ensures
            r == some_around(self.boxes(), exterior@, *contains),
    {
        self.any_around(exterior, contains)
    }

    fn any_around<F: Fn(usize, i64) -> bool>(&self, exterior: &Vec<LonLat>, test: &F) -> (r: bool)
        requires
            function2(*test),
            turnable(exterior@),
        ensures
            r == some_around(self.boxes(), exterior@, *test),
    {
        match bounding_rect(exterior) {
            None => false,
            Some(b) => {
                proof {
                    lemma_box_turnable(b, exterior@);
                }
                let (over, under): (bool, bool) = beyond(exterior);
                if self.near_with(exterior, b, test, 0) {
                    return true;
                }
                if over && self.near_with(exterior, b, test, -FULL_TURN) {
                    return true;
                }
                under && self.near_with(exterior, b, test, FULL_TURN)
            },
        }
    }

    fn near_with<F: Fn(usize, i64) -> bool>(
        &self,
        exterior: &Vec<LonLat>,
        b: Bbox,
        test: &F,
        turn: i64,
    ) -> (r: bool)
        requires
            function2(*test),
            encloses(b, exterior@),
            b.is_proper(),
            -MAX_REACH <= b.min_lon,
            b.max_lon <= MAX_REACH,
            -FULL_TURN <= turn <= FULL_TURN,
        ensures
            r == near_turned(self.boxes(), exterior@, *test, turn),
    {
        let area = Bbox {
            min_lon: b.min_lon + turn,
            min_lat: b.min_lat,
            max_lon: b.max_lon + turn,
            max_lat: b.max_lat,
        };
        assert(area == turned_box(b, turn));
        let r: bool = any_near(&self.tree, area, test, turn);
        proof {
            if near_turned(self.boxes(), exterior@, *test, turn) {
                let c = choose|c: Bbox| #[trigger]
                    encloses(c, exterior@) && some_near(
                        self.boxes(),
                        turned_box(c, turn),
                        |i: int| value2(*test, i as usize, turn),
                    );
                lemma_one_bounding_box(b, c, exterior@);
            }
        }
        r
    }
}

proof fn lemma_box_turnable(b: Bbox, points: Seq<LonLat>)
    requires
        encloses(b, points),
        turnable(points),
    ensures
        -MAX_REACH <= b.min_lon,
        b.max_lon <= MAX_REACH,
{
    let w = choose|i: int| 0 <= i < points.len() && (#[trigger] points[i]).0 == b.min_lon;
    let e = choose|i: int| 0 <= i < points.len() && (#[trigger] points[i]).0 == b.max_lon;
    assert(-MAX_REACH <= points[w].0 && points[e].0 <= MAX_REACH);
}

/// Tests for vertices beyond the antimeridian, in the east and in the west.
fn beyond(points: &Vec<LonLat>) -> (r: (bool, bool))
    ensures
        r.0 == beyond_east(points@),
        r.1 == beyond_west(points@),
{
    let mut over = false;
    let mut under = false;
    let mut i: usize = 0;
    while i < points.len()
        invariant
            i <= points@.len(),
            over ==> beyond_east(points@),
            under ==> beyond_west(points@),
            !over ==> forall|k: int| 0 <= k < i ==> (#[trigger] points@[k]).0 <= HALF_TURN,
            !under ==> forall|k: int| 0 <= k < i ==> (#[trigger] points@[k]).0 >= -HALF_TURN,
        decreases points@.len() - i,
    {
        let lon: i64 = points[i].0;
        if lon > HALF_TURN {
            assert(points@[i as int].0 > HALF_TURN);
            over = true;
        }
        if lon < -HALF_TURN {
            assert(points@[i as int].0 < -HALF_TURN);
            under = true;
        }
        i = i + 1;
    }
    (over, under)
}

/// Which water to take away from each land polygon, by their boxes. A polygon
/// with none near stays as it is.
pub fn subtract_water(land: &Vec<Bbox>, water: &Vec<Bbox>) -> (r: Vec<Vec<usize>>)
    requires
        all_proper(land@),
        all_proper(water@),
    ensures
        r@.len() == land@.len(),
        forall|i: int|
            0 <= i < land@.len() ==> lists_meeting((#[trigger] r@[i])@, water@, land@[i]),
{
    let tree = bulk_load(water);
    let mut out: Vec<Vec<usize>> = Vec::new();
    let mut i: usize = 0;
    while i < land.len()
        invariant
            all_proper(land@),
            boxes_of(tree) == water@,
            i <= land@.len(),
            out@.len() == i,
            forall|k: int| 0 <= k < i ==> lists_meeting((#[trigger] out@[k])@, water@, land@[k]),
        decreases land@.len() - i,
    {
        out.push(locate(&tree, &land[i]));
        i = i + 1;
    }
    out
}

/// Every shape that holds the point has it in its box.
pub open spec fn boxes_hold(
    boxes: Seq<Bbox>,
    holds: spec_fn(int) -> bool,
    lon: i64,
    lat: i64,
) -> bool {
    forall|i: int| 0 <= i < boxes.len() && holds(i) ==> (#[trigger] boxes[i]).has(lon, lat)
}

/// Some shape holds the point.
pub open spec fn some_holds(n: nat, holds: spec_fn(int) -> bool) -> bool {
    exists|i: int| 0 <= i < n && #[trigger] holds(i)
}

/// None of the listed shapes holds the point.
pub open spec fn spared(list: Seq<usize>, holds: spec_fn(int) -> bool) -> bool {
    forall|k: int| 0 <= k < list.len() ==> !holds((#[trigger] list[k]) as int)
}

/// The point is in a land shape and in none of the water that is listed for it.
pub open spec fn still_land(
    lists: Seq<Vec<usize>>,
    in_land: spec_fn(int) -> bool,
    in_water: spec_fn(int) -> bool,
) -> bool {
    exists|i: int| 0 <= i < lists.len() && #[trigger] in_land(i) && spared(lists[i]@, in_water)
}

/// The water that [`subtract_water`] lists is all that matters: a point is in a
/// land shape and in none of the water listed for it exactly if it is in a land
/// shape and in no water at all. Land that no water is near has none listed.
pub proof fn lemma_listed_water(
    land: Seq<Bbox>,
    water: Seq<Bbox>,
    lists: Seq<Vec<usize>>,
    in_land: spec_fn(int) -> bool,
    in_water: spec_fn(int) -> bool,
    lon: i64,
    lat: i64,
)
    requires
        water.len() <= usize::MAX,
        lists.len() == land.len(),
        forall|i: int|
            0 <= i < land.len() ==> lists_meeting((#[trigger] lists[i])@, water, land[i]),
        boxes_hold(land, in_land, lon, lat),
        boxes_hold(water, in_water, lon, lat),
    ensures
        still_land(lists, in_land, in_water) <==> some_holds(land.len(), in_land) && !some_holds(
            water.len(),
            in_water,
        ),
        forall|i: int|
            0 <= i < land.len() && (forall|k: int|
                0 <= k < water.len() ==> !land[i].meets(#[trigger] water[k])) ==> (
            #[trigger] lists[i])@.len() == 0,
{
    if still_land(lists, in_land, in_water) {
        let i = choose|i: int|
            0 <= i < lists.len() && #[trigger] in_land(i) && spared(lists[i]@, in_water);
        assert(land[i].has(lon, lat));
        let list = lists[i]@;
        assert(lists_meeting(list, water, land[i]));
        if some_holds(water.len(), in_water) {
            let w = choose|w: int| 0 <= w < water.len() && #[trigger] in_water(w);
            assert(water[w].has(lon, lat));
            assert(land[i].meets(water[w]));
            let k = choose|k: int| 0 <= k < list.len() && list[k] == w as usize;
            assert(!in_water(list[k] as int));
        }
    }
    if some_holds(land.len(), in_land) && !some_holds(water.len(), in_water) {
        let i = choose|i: int| 0 <= i < land.len() && #[trigger] in_land(i);
        let list = lists[i]@;
        assert(lists_meeting(list, water, land[i]));
        assert forall|k: int| 0 <= k < list.len() implies !in_water(
            (#[trigger] list[k]) as int,
        ) by {
            assert(list[k] < water.len());
        }
        assert(in_land(i) && spared(lists[i]@, in_water));
    }
    assert forall|i: int|
        0 <= i < land.len() && (forall|k: int|
            0 <= k < water.len() ==> !land[i].meets(#[trigger] water[k])) implies (
    #[trigger] lists[i])@.len() == 0 by {
        let list = lists[i]@;
        assert(lists_meeting(list, water, land[i]));
        if list.len() > 0 {
            assert(land[i].meets(water[list[0] as int]));
        }
    }
}

/// Taking water away from land adds just that water: where the pieces that are
/// left hold a point exactly if it is [`still_land`], the index of the pieces
/// calls water what the index of the land did, and what a water shape holds.
pub proof fn lemma_water_added(
    land: Seq<Bbox>,
    water: Seq<Bbox>,
    lists: Seq<Vec<usize>>,
    pieces: Seq<Bbox>,
    in_land: spec_fn(int) -> bool,
    in_water: spec_fn(int) -> bool,
    in_piece: spec_fn(int) -> bool,
    lon: i64,
    lat: i64,
)
    requires
        water.len() <= usize::MAX,
        lists.len() == land.len(),
        forall|i: int|
            0 <= i < land.len() ==> lists_meeting((#[trigger] lists[i])@, water, land[i]),
        boxes_hold(land, in_land, lon, lat),
        boxes_hold(water, in_water, lon, lat),
        boxes_hold(pieces, in_piece, lon, lat),
        some_holds(pieces.len(), in_piece) <==> still_land(lists, in_land, in_water),
    ensures
        !some_near(pieces, point_box(lon, lat), in_piece) <==> !some_near(
            land,
            point_box(lon, lat),
            in_land,
        ) || some_holds(water.len(), in_water),
{
    lemma_listed_water(land, water, lists, in_land, in_water, lon, lat);
    lemma_index_is_exact(land, point_box(lon, lat), in_land);
    lemma_index_is_exact(pieces, point_box(lon, lat), in_piece);
}

/// The box around a line, `dlon` and `dlat` wider on each side.
pub open spec fn around_segment(s: LonLatSegment, dlon: int, dlat: int) -> Bbox {
    Bbox {
        min_lon: (lesser(s.0, s.2) - dlon) as i64,
        min_lat: (lesser(s.1, s.3) - dlat) as i64,
        max_lon: (greater(s.0, s.2) + dlon) as i64,
        max_lat: (greater(s.1, s.3) + dlat) as i64,
    }
}

pub open spec fn lesser(a: i64, b: i64) -> i64 {
    if a < b {
        a
    } else {
        b
    }
}

pub open spec fn greater(a: i64, b: i64) -> i64 {
    if a > b {
        a
    } else {
        b
    }
}

fn min_of(a: i64, b: i64) -> (r: i64)
    ensures
        r == lesser(a, b),
{
    if a < b {
        a
    } else {
        b
    }
}

fn max_of(a: i64, b: i64) -> (r: i64)
    ensures
        r == greater(a, b),
{
    if a > b {
        a
    } else {
        b
    }
}

fn segment_box(s: LonLatSegment, dlon: i64, dlat: i64) -> (r: Bbox)
    requires
        -2 * MAX_REACH <= s.0 <= 2 * MAX_REACH,
        -2 * MAX_REACH <= s.1 <= 2 * MAX_REACH,
        -2 * MAX_REACH <= s.2 <= 2 * MAX_REACH,
        -2 * MAX_REACH <= s.3 <= 2 * MAX_REACH,
        0 <= dlon <= MAX_REACH,
        0 <= dlat <= MAX_REACH,
    ensures
        r == around_segment(s, dlon as int, dlat as int),
        r.is_proper(),
{
    Bbox {
        min_lon: min_of(s.0, s.2) - dlon,
        min_lat: min_of(s.1, s.3) - dlat,
        max_lon: max_of(s.0, s.2) + dlon,
        max_lat: max_of(s.1, s.3) + dlat,
    }
}

/// The line crosses a piece of coastline in the plane of the map.
pub open spec fn crosses_flat<F: Fn(usize, LonLatSegment) -> bool>(
    boxes: Seq<Bbox>,
    crosses: F,
    s: LonLatSegment,
) -> bool {
    some_near(boxes, around_segment(s, 0, 0), |i: int| value2(crosses, i as usize, s))
}

/// The line crosses a piece of coastline the short way round.
pub open spec fn crosses_coast<F: Fn(usize, LonLatSegment) -> bool>(
    boxes: Seq<Bbox>,
    crosses: F,
    s: LonLatSegment,
) -> bool {
    if across_seam(s.0, s.2) {
        let (a, b) = parts_at_seam(s);
        crosses_flat(boxes, crosses, a) || crosses_flat(boxes, crosses, b)
    } else {
        crosses_flat(boxes, crosses, s)
    }
}

/// Billionths.
pub const BILLION: i64 = 1_000_000_000;

/// Least cosine that is reckoned with, near the poles, in billionths.
pub const MIN_COS: i64 = 10_000_000;

/// Largest distance that is searched, in micro-nm.
pub const MAX_SEARCH: i64 = 1_000_000_000_000;

/// `a / b` rounded up.
pub open spec fn div_up(a: int, b: int) -> int {
    (a + b - 1) / b
}

/// The latitudes within a distance, in micro-nm: a nautical mile is a minute.
pub open spec fn lat_reach(d: int) -> int {
    div_up(50 * d, 3)
}

/// The longitudes within a distance where the cosine of the latitude is `cos`.
pub open spec fn lon_reach(d: int, cos: int) -> int {
    let c = if cos < MIN_COS {
        MIN_COS as int
    } else {
        cos
    };
    div_up(50 * d * BILLION, 3 * c)
}

fn reach_of(d: i64, cos: i64) -> (r: (i64, i64))
    requires
        0 <= d <= MAX_SEARCH,
    ensures
        r.0 == lon_reach(d as int, cos as int),
        r.1 == lat_reach(d as int),
        0 <= r.0 <= MAX_REACH,
        0 <= r.1 <= MAX_REACH,
{
    let c: i64 = if cos < MIN_COS {
        MIN_COS
    } else {
        cos
    };
    let by: u128 = 3 * c as u128;
    let wide: u128 = 50 * d as u128 * 1_000_000_000 + (by - 1);
    proof {
        let (w, n) = (wide as int, by as int);
        assert(0 <= w / n <= MAX_REACH) by (nonlinear_arith)
            requires
                0 <= w <= 50 * MAX_SEARCH * BILLION + n - 1,
                n >= 3 * MIN_COS,
        ;
    }
    let dlon: i64 = (wide / by) as i64;
    let dlat: i64 = (50 * d + 2) / 3;
    (dlon, dlat)
}

/// The distance of a point to the coast, in the plane of the map and again
/// turned where it is that near to the antimeridian.
pub open spec fn point_distance<F: Fn(usize, LonLat) -> i64>(
    boxes: Seq<Bbox>,
    distance: F,
    p: LonLat,
    dlon: int,
    dlat: int,
    cap: i64,
) -> i64 {
    let here = point_distance_flat(boxes, distance, p, dlon, dlat, cap);
    let turn = retry_turn(p.0, p.0, dlon as i64);
    if turn == 0 {
        here
    } else {
        lesser(here, point_distance_flat(boxes, distance, turned(p, turn), dlon, dlat, cap))
    }
}

pub open spec fn point_distance_flat<F: Fn(usize, LonLat) -> i64>(
    boxes: Seq<Bbox>,
    distance: F,
    p: LonLat,
    dlon: int,
    dlat: int,
    cap: i64,
) -> i64 {
    nearest(
        boxes,
        around_segment((p.0, p.1, p.0, p.1), dlon, dlat),
        |i: int| value2(distance, i as usize, p),
        cap,
    )
}

/// The line is moved east by `turn`.
pub open spec fn turned_segment(s: LonLatSegment, turn: i64) -> LonLatSegment {
    ((s.0 + turn) as i64, s.1, (s.2 + turn) as i64, s.3)
}

/// As [`point_distance`], of a line that does not cross the antimeridian. `cos`
/// gives the cosine of a latitude; the one in the middle counts.
pub open spec fn part_distance<F: Fn(usize, LonLatSegment) -> i64, C: Fn(i64) -> i64>(
    boxes: Seq<Bbox>,
    distance: F,
    cos: C,
    s: LonLatSegment,
    cap: i64,
) -> i64 {
    let dlon = lon_reach(cap as int, value1(cos, half(s.1 + s.3) as i64) as int);
    let dlat = lat_reach(cap as int);
    let here = part_distance_flat(boxes, distance, s, dlon, dlat, cap);
    let turn = retry_turn(lesser(s.0, s.2), greater(s.0, s.2), dlon as i64);
    if turn == 0 {
        here
    } else {
        lesser(
            here,
            part_distance_flat(boxes, distance, turned_segment(s, turn), dlon, dlat, cap),
        )
    }
}

pub open spec fn part_distance_flat<F: Fn(usize, LonLatSegment) -> i64>(
    boxes: Seq<Bbox>,
    distance: F,
    s: LonLatSegment,
    dlon: int,
    dlat: int,
    cap: i64,
) -> i64 {
    nearest(
        boxes,
        around_segment(s, dlon, dlat),
        |i: int| value2(distance, i as usize, s),
        cap,
    )
}

/// The distance of a line to the coast, the short way round.
pub open spec fn segment_distance<F: Fn(usize, LonLatSegment) -> i64, C: Fn(i64) -> i64>(
    boxes: Seq<Bbox>,
    distance: F,
    cos: C,
    s: LonLatSegment,
    cap: i64,
) -> i64 {
    if across_seam(s.0, s.2) {
        let (a, b) = parts_at_seam(s);
        lesser(
            part_distance(boxes, distance, cos, a, cap),
            part_distance(boxes, distance, cos, b, cap),
        )
    } else {
        part_distance(boxes, distance, cos, s, cap)
    }
}

/// `x` lies between `a` and `b`, whichever is greater.
pub open spec fn amid(x: int, a: int, b: int) -> bool {
    a <= x <= b || b <= x <= a
}

/// The point lies in the box that the ends of the line span.
pub open spec fn spanned(s: LonLatSegment, lon: i64, lat: i64) -> bool {
    amid(lon as int, s.0 as int, s.2 as int) && amid(lat as int, s.1 as int, s.3 as int)
}

/// A line that does not go across the antimeridian crosses the coast where it
/// crosses a piece whose box has a point in common with the box that the line
/// spans from one end to the other.
pub proof fn lemma_crossing_is_found<F: Fn(usize, LonLatSegment) -> bool>(
    boxes: Seq<Bbox>,
    crosses: F,
    s: LonLatSegment,
    i: usize,
    lon: i64,
    lat: i64,
)
    requires
        -180_000_000_000 <= s.0 - s.2 <= 180_000_000_000,
        i < boxes.len(),
        value2(crosses, i, s),
        boxes[i as int].has(lon, lat),
        spanned(s, lon, lat),
    ensures
        crosses_coast(boxes, crosses, s),
{
    let area = around_segment(s, 0, 0);
    assert(area.has(lon, lat));
    assert(area.meets(boxes[i as int]));
}

/// For pieces that lie in their boxes and are crossed only at points of the line,
/// the coast is crossed exactly if some piece is.
pub proof fn lemma_crosses_exactly<F: Fn(usize, LonLatSegment) -> bool>(
    boxes: Seq<Bbox>,
    crosses: F,
    s: LonLatSegment,
)
    requires
        boxes.len() <= usize::MAX,
        -180_000_000_000 <= s.0 - s.2 <= 180_000_000_000,
        forall|i: usize|
            i < boxes.len() && #[trigger] value2(crosses, i, s) ==> exists|lon: i64, lat: i64|
                #[trigger] boxes[i as int].has(lon, lat) && spanned(s, lon, lat),
    ensures
        crosses_coast(boxes, crosses, s) <==> exists|i: usize|
            i < boxes.len() && #[trigger] value2(crosses, i, s),
{
    if exists|i: usize| i < boxes.len() && #[trigger] value2(crosses, i, s) {
        let i = choose|i: usize| i < boxes.len() && #[trigger] value2(crosses, i, s);
        let (lon, lat) = choose|lon: i64, lat: i64| #[trigger]
            boxes[i as int].has(lon, lat) && spanned(s, lon, lat);
        lemma_crossing_is_found(boxes, crosses, s, i, lon, lat);
    }
    if crosses_coast(boxes, crosses, s) {
        let test = |i: int| value2(crosses, i as usize, s);
        let area = around_segment(s, 0, 0);
        assert(some_near(boxes, area, test));
        let i = choose|i: int| 0 <= i < boxes.len() && area.meets(#[trigger] boxes[i]) && test(i);
        assert(value2(crosses, i as usize, s));
    }
}

/// A line across the antimeridian crosses the coast exactly if one of its two
/// parts does: from its first end to the near side of the antimeridian, and from
/// the other side to its second end.
pub proof fn lemma_crosses_in_parts<F: Fn(usize, LonLatSegment) -> bool>(
    boxes: Seq<Bbox>,
    crosses: F,
    s: LonLatSegment,
    lat: i64,
)
    requires
        -180_000_000_000 <= s.0 <= 180_000_000_000,
        -180_000_000_000 <= s.2 <= 180_000_000_000,
        s.0 - s.2 > 180_000_000_000 || s.2 - s.0 > 180_000_000_000,
        i64::MIN <= crossing_lat(s) <= i64::MAX,
        lat == crossing_lat(s),
    ensures
        s.0 > 0 ==> crosses_coast(boxes, crosses, s) == (crosses_coast(
            boxes,
            crosses,
            (s.0, s.1, 180_000_000_000, lat),
        ) || crosses_coast(boxes, crosses, ((-180_000_000_000) as i64, lat, s.2, s.3))),
        s.0 < 0 ==> crosses_coast(boxes, crosses, s) == (crosses_coast(
            boxes,
            crosses,
            (s.0, s.1, (-180_000_000_000) as i64, lat),
        ) || crosses_coast(boxes, crosses, (180_000_000_000, lat, s.2, s.3))),
{
}

/// Some shape holds the point exactly if one whose box has the point does.
pub proof fn lemma_point_is_found(
    boxes: Seq<Bbox>,
    holds: spec_fn(int) -> bool,
    lon: i64,
    lat: i64,
)
    ensures
        some_near(boxes, point_box(lon, lat), holds) <==> exists|i: int|
            0 <= i < boxes.len() && (#[trigger] boxes[i]).has(lon, lat) && holds(i),
{
    if some_near(boxes, point_box(lon, lat), holds) {
        let i = choose|i: int|
            0 <= i < boxes.len() && point_box(lon, lat).meets(#[trigger] boxes[i]) && holds(i);
        assert(boxes[i].has(lon, lat));
    }
    if exists|i: int| 0 <= i < boxes.len() && (#[trigger] boxes[i]).has(lon, lat) && holds(i) {
        let i = choose|i: int|
            0 <= i < boxes.len() && (#[trigger] boxes[i]).has(lon, lat) && holds(i);
        assert(point_box(lon, lat).meets(boxes[i]));
    }
}

/// The point lies between vertices in the west and the east, the south and the
/// north.
pub open spec fn amid_vertices(exterior: Seq<LonLat>, lon: int, lat: int) -> bool {
    &&& exists|k: int| 0 <= k < exterior.len() && (#[trigger] exterior[k]).0 <= lon
    &&& exists|k: int| 0 <= k < exterior.len() && (#[trigger] exterior[k]).0 >= lon
    &&& exists|k: int| 0 <= k < exterior.len() && (#[trigger] exterior[k]).1 <= lat
    &&& exists|k: int| 0 <= k < exterior.len() && (#[trigger] exterior[k]).1 >= lat
}

/// The turn leads back onto the map: there is none, or a full one to the west where
/// the polygon has a vertex east of the antimeridian, or to the east where it has
/// one west of it.
pub open spec fn leads_back(exterior: Seq<LonLat>, turn: i64) -> bool {
    ||| turn == 0
    ||| turn == -360_000_000_000 && exists|k: int|
        0 <= k < exterior.len() && (#[trigger] exterior[k]).0 > 180_000_000_000
    ||| turn == 360_000_000_000 && exists|k: int|
        0 <= k < exterior.len() && (#[trigger] exterior[k]).0 < -180_000_000_000
}

/// A shape of which the test holds is found where its box has a point between the
/// vertices of the polygon, as it is or after a turn that leads back onto the map.
pub proof fn lemma_shape_around_is_found<F: Fn(usize, i64) -> bool>(
    boxes: Seq<Bbox>,
    exterior: Seq<LonLat>,
    test: F,
    i: usize,
    turn: i64,
    lon: i64,
    lat: i64,
    b: Bbox,
)
    requires
        turnable(exterior),
        encloses(b, exterior),
        i < boxes.len(),
        boxes[i as int].has(lon, lat),
        amid_vertices(exterior, lon - turn, lat as int),
        value2(test, i, turn),
        leads_back(exterior, turn),
    ensures
        some_around(boxes, exterior, test),
{
    lemma_box_turnable(b, exterior);
    let w = choose|k: int| 0 <= k < exterior.len() && (#[trigger] exterior[k]).0 <= lon - turn;
    let e = choose|k: int| 0 <= k < exterior.len() && (#[trigger] exterior[k]).0 >= lon - turn;
    let s = choose|k: int| 0 <= k < exterior.len() && (#[trigger] exterior[k]).1 <= lat;
    let n = choose|k: int| 0 <= k < exterior.len() && (#[trigger] exterior[k]).1 >= lat;
    assert(b.has(exterior[w].0, exterior[w].1) && b.has(exterior[e].0, exterior[e].1) && b.has(
        exterior[s].0,
        exterior[s].1,
    ) && b.has(exterior[n].0, exterior[n].1));
    let area = turned_box(b, turn);
    let holds = |k: int| value2(test, k as usize, turn);
    assert(area.meets(boxes[i as int]) && holds(i as int));
    assert(some_near(boxes, area, holds));
    assert(near_turned(boxes, exterior, test, turn));
    if turn == -360_000_000_000 {
        let k = choose|k: int|
            0 <= k < exterior.len() && (#[trigger] exterior[k]).0 > 180_000_000_000;
        assert(beyond_east(exterior));
    }
    if turn == 360_000_000_000 {
        let k = choose|k: int|
            0 <= k < exterior.len() && (#[trigger] exterior[k]).0 < -180_000_000_000;
        assert(beyond_west(exterior));
    }
}

/// What is found around the globe is a shape of which the test holds, with a turn
/// only where the polygon goes beyond the antimeridian.
pub proof fn lemma_found_around<F: Fn(usize, i64) -> bool>(
    boxes: Seq<Bbox>,
    exterior: Seq<LonLat>,
    test: F,
)
    requires
        boxes.len() <= usize::MAX,
        some_around(boxes, exterior, test),
    ensures
        exists|i: usize, turn: i64| #[trigger]
            value2(test, i, turn) && i < boxes.len() && leads_back(exterior, turn),
{
    let turn: i64 = if near_turned(boxes, exterior, test, 0) {
        0
    } else if beyond_east(exterior) && near_turned(boxes, exterior, test, (-FULL_TURN) as i64) {
        (-FULL_TURN) as i64
    } else {
        FULL_TURN
    };
    assert(near_turned(boxes, exterior, test, turn));
    let holds = |i: int| value2(test, i as usize, turn);
    let b = choose|b: Bbox| #[trigger]
        encloses(b, exterior) && some_near(boxes, turned_box(b, turn), |i: int|
            value2(test, i as usize, turn));
    let area = turned_box(b, turn);
    assert(some_near(boxes, area, holds));
    let i = choose|i: int| 0 <= i < boxes.len() && area.meets(#[trigger] boxes[i]) && holds(i);
    assert(value2(test, i as usize, turn));
}

/// No piece with a point within reach is closer than the distance of a point to
/// the coast, measured as the point is, or a turn away where its reach goes past
/// the antimeridian. The distance is that of a piece, or the cap.
pub proof fn lemma_point_distance<F: Fn(usize, LonLat) -> i64>(
    boxes: Seq<Bbox>,
    distance: F,
    p: LonLat,
    dlon: i64,
    dlat: i64,
    cap: i64,
    i: usize,
    lon: i64,
    lat: i64,
)
    requires
        in_reach(p.0),
        in_reach(p.1),
        0 <= dlon <= MAX_REACH,
        0 <= dlat <= MAX_REACH,
        boxes.len() <= usize::MAX,
        i < boxes.len(),
        boxes[i as int].has(lon, lat),
        p.1 - dlat <= lat <= p.1 + dlat,
    ensures
        ({
            let r = point_distance(boxes, distance, p, dlon as int, dlat as int, cap);
            let west = ((p.0 - 360_000_000_000) as i64, p.1);
            let east = ((p.0 + 360_000_000_000) as i64, p.1);
            &&& r <= cap
            &&& p.0 - dlon <= lon <= p.0 + dlon ==> r <= value2(distance, i, p)
            &&& p.0 + dlon > 180_000_000_000 && west.0 - dlon <= lon <= west.0 + dlon ==> r
                <= value2(distance, i, west)
            &&& p.0 + dlon <= 180_000_000_000 && p.0 - dlon < -180_000_000_000 && east.0 - dlon
                <= lon <= east.0 + dlon ==> r <= value2(distance, i, east)
            &&& r == cap || exists|k: usize, q: LonLat|
                k < boxes.len() && r == #[trigger] value2(distance, k, q) && (q == p || q == west
                    || q == east)
        }),
{
    let turn = retry_turn(p.0, p.0, dlon);
    let q = turned(p, turn);
    let r = point_distance(boxes, distance, p, dlon as int, dlat as int, cap);
    lemma_flat_point(boxes, distance, p, dlon, dlat, cap, i, lon, lat);
    if turn != 0 {
        lemma_flat_point(boxes, distance, q, dlon, dlat, cap, i, lon, lat);
    }
    if r != cap {
        let at = if r == point_distance_flat(boxes, distance, p, dlon as int, dlat as int, cap) {
            p
        } else {
            q
        };
        let k = choose|k: usize| k < boxes.len() && r == #[trigger] value2(distance, k, at);
        assert(r == value2(distance, k, at));
    }
}

proof fn lemma_flat_point<F: Fn(usize, LonLat) -> i64>(
    boxes: Seq<Bbox>,
    distance: F,
    p: LonLat,
    dlon: i64,
    dlat: i64,
    cap: i64,
    i: usize,
    lon: i64,
    lat: i64,
)
    requires
        -2 * MAX_REACH <= p.0 <= 2 * MAX_REACH,
        -2 * MAX_REACH <= p.1 <= 2 * MAX_REACH,
        0 <= dlon <= MAX_REACH,
        0 <= dlat <= MAX_REACH,
        boxes.len() <= usize::MAX,
        i < boxes.len(),
        boxes[i as int].has(lon, lat),
    ensures
        ({
            let r = point_distance_flat(boxes, distance, p, dlon as int, dlat as int, cap);
            &&& r <= cap
            &&& p.0 - dlon <= lon <= p.0 + dlon && p.1 - dlat <= lat <= p.1 + dlat ==> r <= value2(
                distance,
                i,
                p,
            )
            &&& r == cap || exists|k: usize|
                k < boxes.len() && r == #[trigger] value2(distance, k, p)
        }),
{
    let area = around_segment((p.0, p.1, p.0, p.1), dlon as int, dlat as int);
    let d = |k: int| value2(distance, k as usize, p);
    let r = nearest(boxes, area, d, cap);
    lemma_least_near(boxes, area, d, cap, boxes.len() as int);
    if p.0 - dlon <= lon <= p.0 + dlon && p.1 - dlat <= lat <= p.1 + dlat {
        assert(area.has(lon, lat));
        assert(area.meets(boxes[i as int]));
        assert(r <= d(i as int));
    }
    if r != cap {
        let k = choose|k: int|
            0 <= k < boxes.len() && area.meets(#[trigger] boxes[k]) && r == d(k);
        assert(r == value2(distance, k as usize, p));
    }
}

/// A distance of `d` micro-nm is a minute of latitude for each nautical mile, and
/// that many more of longitude as the cosine there is smaller, down to a hundredth:
/// the reach is the least number of nanodegrees that covers it.
pub proof fn lemma_reach(d: int, cos: int)
    requires
        0 <= d,
        cos <= 1_000_000_000,
    ensures
        50 * d <= 3 * lat_reach(d) < 50 * d + 3,
        cos >= 10_000_000 ==> 50 * d * 1_000_000_000 <= 3 * cos * lon_reach(d, cos) < 50 * d
            * 1_000_000_000 + 3 * cos,
        cos < 10_000_000 ==> lon_reach(d, cos) == lon_reach(d, 10_000_000),
{
    if cos >= 10_000_000 {
        lemma_div_up(50 * d * 1_000_000_000, 3 * cos);
    }
}

proof fn lemma_div_up(a: int, b: int)
    requires
        b > 0,
    ensures
        a <= b * div_up(a, b) < a + b,
{
    let q = (a + b - 1) / b;
    assert(a <= b * q < a + b) by (nonlinear_arith)
        requires
            b > 0,
            q == (a + b - 1) / b,
    ;
}

/// No piece with a point within reach of the box that a line spans is closer than
/// the distance of the line to the coast. The line does not go across the
/// antimeridian. Where its reach goes past it, the line counts a turn away too.
pub proof fn lemma_line_distance<F: Fn(usize, LonLatSegment) -> i64, C: Fn(i64) -> i64>(
    boxes: Seq<Bbox>,
    distance: F,
    cos: C,
    s: LonLatSegment,
    cap: i64,
    i: usize,
    lon: i64,
    lat: i64,
    x: i64,
    y: i64,
)
    requires
        in_reach(s.0) && in_reach(s.1) && in_reach(s.2) && in_reach(s.3),
        -180_000_000_000 <= s.0 - s.2 <= 180_000_000_000,
        0 <= cap <= MAX_SEARCH,
        boxes.len() <= usize::MAX,
        i < boxes.len(),
        boxes[i as int].has(lon, lat),
        spanned(s, x, y),
    ensures
        ({
            let r = segment_distance(boxes, distance, cos, s, cap);
            let dlon = lon_reach(cap as int, value1(cos, half(s.1 + s.3) as i64) as int);
            let dlat = lat_reach(cap as int);
            let west = (
                (s.0 - 360_000_000_000) as i64,
                s.1,
                (s.2 - 360_000_000_000) as i64,
                s.3,
            );
            let east = (
                (s.0 + 360_000_000_000) as i64,
                s.1,
                (s.2 + 360_000_000_000) as i64,
                s.3,
            );
            let past_east = s.0 + dlon > 180_000_000_000 || s.2 + dlon > 180_000_000_000;
            let past_west = s.0 - dlon < -180_000_000_000 || s.2 - dlon < -180_000_000_000;
            &&& r <= cap
            &&& -dlat <= lat - y <= dlat ==> {
                &&& -dlon <= lon - x <= dlon ==> r <= value2(distance, i, s)
                &&& past_east && -dlon <= lon + 360_000_000_000 - x <= dlon ==> r <= value2(
                    distance,
                    i,
                    west,
                )
                &&& !past_east && past_west && -dlon <= lon - 360_000_000_000 - x <= dlon ==> r
                    <= value2(distance, i, east)
            }
            &&& r == cap || exists|k: usize, q: LonLatSegment|
                k < boxes.len() && r == #[trigger] value2(distance, k, q) && (q == s || q == west
                    || q == east)
        }),
{
    let c = value1(cos, half(s.1 + s.3) as i64) as int;
    let dlon = lon_reach(cap as int, c);
    let dlat = lat_reach(cap as int);
    lemma_reach_bound(cap as int, c);
    let turn = retry_turn(lesser(s.0, s.2), greater(s.0, s.2), dlon as i64);
    let moved = turned_segment(s, turn);
    let r = segment_distance(boxes, distance, cos, s, cap);
    lemma_flat_line(boxes, distance, s, dlon, dlat, cap, i, lon, lat, x, y);
    if turn != 0 {
        lemma_flat_line(boxes, distance, moved, dlon, dlat, cap, i, lon, lat, (x + turn) as i64, y);
    }
    if r != cap {
        let at = if r == part_distance_flat(boxes, distance, s, dlon, dlat, cap) {
            s
        } else {
            moved
        };
        let k = choose|k: usize| k < boxes.len() && r == #[trigger] value2(distance, k, at);
        assert(r == value2(distance, k, at));
    }
}

/// The reach of a search stays within bounds.
proof fn lemma_reach_bound(d: int, cos: int)
    requires
        0 <= d <= MAX_SEARCH,
    ensures
        0 <= lon_reach(d, cos) <= MAX_REACH,
        0 <= lat_reach(d) <= MAX_REACH,
{
    let c = if cos < MIN_COS {
        MIN_COS as int
    } else {
        cos
    };
    let n = 3 * c;
    let w = 50 * d * BILLION + n - 1;
    assert(0 <= w / n <= MAX_REACH) by (nonlinear_arith)
        requires
            0 <= w <= 50 * MAX_SEARCH * BILLION + n - 1,
            n >= 3 * MIN_COS,
    ;
}

proof fn lemma_flat_line<F: Fn(usize, LonLatSegment) -> i64>(
    boxes: Seq<Bbox>,
    distance: F,
    s: LonLatSegment,
    dlon: int,
    dlat: int,
    cap: i64,
    i: usize,
    lon: i64,
    lat: i64,
    x: i64,
    y: i64,
)
    requires
        -2 * MAX_REACH <= s.0 <= 2 * MAX_REACH,
        -2 * MAX_REACH <= s.1 <= 2 * MAX_REACH,
        -2 * MAX_REACH <= s.2 <= 2 * MAX_REACH,
        -2 * MAX_REACH <= s.3 <= 2 * MAX_REACH,
        0 <= dlon <= MAX_REACH,
        0 <= dlat <= MAX_REACH,
        boxes.len() <= usize::MAX,
        i < boxes.len(),
        boxes[i as int].has(lon, lat),
        spanned(s, x, y),
    ensures
        ({
            let r = part_distance_flat(boxes, distance, s, dlon, dlat, cap);
            &&& r <= cap
            &&& -dlon <= lon - x <= dlon && -dlat <= lat - y <= dlat ==> r <= value2(distance, i, s)
            &&& r == cap || exists|k: usize|
                k < boxes.len() && r == #[trigger] value2(distance, k, s)
        }),
{
    let area = around_segment(s, dlon, dlat);
    let d = |k: int| value2(distance, k as usize, s);
    let r = nearest(boxes, area, d, cap);
    lemma_least_near(boxes, area, d, cap, boxes.len() as int);
    if -dlon <= lon - x <= dlon && -dlat <= lat - y <= dlat {
        assert(area.has(lon, lat));
        assert(area.meets(boxes[i as int]));
        assert(r <= d(i as int));
    }
    if r != cap {
        let k = choose|k: int|
            0 <= k < boxes.len() && area.meets(#[trigger] boxes[k]) && r == d(k);
        assert(r == value2(distance, k as usize, s));
    }
}

/// The distance of a line across the antimeridian is the lesser of those of its two
/// parts.
pub proof fn lemma_line_distance_in_parts<F: Fn(usize, LonLatSegment) -> i64, C: Fn(i64) -> i64>(
    boxes: Seq<Bbox>,
    distance: F,
    cos: C,
    s: LonLatSegment,
    cap: i64,
    lat: i64,
)
    requires
        -180_000_000_000 <= s.0 <= 180_000_000_000,
        -180_000_000_000 <= s.2 <= 180_000_000_000,
        s.0 - s.2 > 180_000_000_000 || s.2 - s.0 > 180_000_000_000,
        lat == crossing_lat(s),
    ensures
        ({
            let side: i64 = if s.0 > 0 {
                180_000_000_000
            } else {
                (-180_000_000_000) as i64
            };
            let r = segment_distance(boxes, distance, cos, s, cap);
            let a = segment_distance(boxes, distance, cos, (s.0, s.1, side, lat), cap);
            let b = segment_distance(boxes, distance, cos, ((-side) as i64, lat, s.2, s.3), cap);
            r <= a && r <= b && (r == a || r == b)
        }),
{
}

/// An index of pieces of coastline. No piece crosses the antimeridian.
pub struct CoastlineIndex {
    tree: BoxTree,
}

impl CoastlineIndex {
    /// The boxes of the pieces.
    pub closed spec fn boxes(&self) -> Seq<Bbox> {
        boxes_of(self.tree)
    }

    /// Indexes pieces by their boxes.
    pub fn new(envelopes: &Vec<Bbox>) -> (r: CoastlineIndex)
        requires
            all_proper(envelopes@),
        ensures
            r.boxes() == envelopes@,
    {
        CoastlineIndex { tree: bulk_load(envelopes) }
    }

    pub fn segment_count(&self) -> (r: usize)
        ensures
            r == self.boxes().len(),
    {
        size(&self.tree)
    }

    /// Whether a line crosses the coast. One across the antimeridian is tested
    /// in two parts, so it does not run the long way round. `crosses` tests one
    /// piece.
    pub fn crosses_land<F: Fn(usize, LonLatSegment) -> bool>(
        &self,
        crosses: &F,
        lon1: i64,
        lat1: i64,
        lon2: i64,
        lat2: i64,
    ) -> (r: bool)
        requires
            function2(*crosses),
            traceable((lon1, lat1, lon2, lat2)),
        ensures
            r == crosses_coast(self.boxes(), *crosses, (lon1, lat1, lon2, lat2)),
    {
        if lon1 - lon2 > HALF_TURN || lon2 - lon1 > HALF_TURN {
            let (a, b): (LonLatSegment, LonLatSegment) = split_at_antimeridian(
                (lon1, lat1, lon2, lat2),
            );
            self.crosses_planar(crosses, a) || self.crosses_planar(crosses, b)
        } else {
            self.crosses_planar(crosses, (lon1, lat1, lon2, lat2))
        }
    }

    fn crosses_planar<F: Fn(usize, LonLatSegment) -> bool>(
        &self,
        crosses: &F,
        s: LonLatSegment,
    ) -> (r: bool)
        requires
            function2(*crosses),
            in_reach(s.0) && in_reach(s.1) && in_reach(s.2) && in_reach(s.3),
        ensures
            r == crosses_flat(self.boxes(), *crosses, s),
    {
        any_near(&self.tree, segment_box(s, 0, 0), crosses, s)
    }

    /// Least distance of a point to the coast in nanodegrees, of what lies
    /// within `radius`; `i64::MAX` where nothing does. `distance` measures one
    /// piece.
    pub fn min_distance_deg<F: Fn(usize, LonLat) -> i64>(
        &self,
        distance: &F,
        lon: i64,
        lat: i64,
        radius: i64,
    ) -> (r: i64)
        requires
            function2(*distance),
            in_reach(lon),
            in_reach(lat),
            0 <= radius <= MAX_REACH,
        ensures
            r == point_distance(
                self.boxes(),
                *distance,
                (lon, lat),
                radius as int,
                radius as int,
                i64::MAX,
            ),
    {
        self.point_within(distance, lon, lat, radius, radius, i64::MAX)
    }

    /// Least distance of a point to the coast in micro-nm, at most `max`. `cos`
    /// gives the cosine of a latitude in billionths.
    pub fn min_distance_nm<F: Fn(usize, LonLat) -> i64, C: Fn(i64) -> i64>(
        &self,
        distance: &F,
        cos: &C,
        lon: i64,
        lat: i64,
        max: i64,
    ) -> (r: i64)
        requires
            function2(*distance),
            function1(*cos),
            in_reach(lon),
            in_reach(lat),
            0 <= max <= MAX_SEARCH,
        ensures
            r == point_distance(
                self.boxes(),
                *distance,
                (lon, lat),
                lon_reach(max as int, value1(*cos, lat) as int),
                lat_reach(max as int),
                max,
            ),
    {
        let (dlon, dlat): (i64, i64) = reach_of(max, call1(cos, lat));
        self.point_within(distance, lon, lat, dlon, dlat, max)
    }

    fn point_within<F: Fn(usize, LonLat) -> i64>(
        &self,
        distance: &F,
        lon: i64,
        lat: i64,
        dlon: i64,
        dlat: i64,
        cap: i64,
    ) -> (r: i64)
        requires
            function2(*distance),
            in_reach(lon),
            in_reach(lat),
            0 <= dlon <= MAX_REACH,
            0 <= dlat <= MAX_REACH,
        ensures
            r == point_distance(
                self.boxes(),
                *distance,
                (lon, lat),
                dlon as int,
                dlat as int,
                cap,
            ),
    {
        let area = segment_box((lon, lat, lon, lat), dlon, dlat);
        let best: i64 = least_distance(&self.tree, area, distance, (lon, lat), cap);
        let turn: i64 = wrap_retry(lon, lon, dlon);
        if turn == 0 {
            return best;
        }
        let moved: i64 = lon + turn;
        let area = segment_box((moved, lat, moved, lat), dlon, dlat);
        min_of(best, least_distance(&self.tree, area, distance, (moved, lat), cap))
    }

    /// Least distance of a line to the coast in micro-nm, at most `max`. One
    /// across the antimeridian is measured in two parts.
    pub fn segment_min_distance_nm<F: Fn(usize, LonLatSegment) -> i64, C: Fn(i64) -> i64>(
        &self,
        distance: &F,
        cos: &C,
        s: LonLatSegment,
        max: i64,
    ) -> (r: i64)
        requires
            function2(*distance),
            function1(*cos),
            traceable(s),
            0 <= max <= MAX_SEARCH,
        ensures
            r == segment_distance(self.boxes(), *distance, *cos, s, max),
    {
        if s.0 - s.2 > HALF_TURN || s.2 - s.0 > HALF_TURN {
            let (a, b): (LonLatSegment, LonLatSegment) = split_at_antimeridian(s);
            min_of(
                self.segment_within(distance, cos, a, max),
                self.segment_within(distance, cos, b, max),
            )
        } else {
            self.segment_within(distance, cos, s, max)
        }
    }

    fn segment_within<F: Fn(usize, LonLatSegment) -> i64, C: Fn(i64) -> i64>(
        &self,
        distance: &F,
        cos: &C,
        s: LonLatSegment,
        max: i64,
    ) -> (r: i64)
        requires
            function2(*distance),
            function1(*cos),
            in_reach(s.0) && in_reach(s.1) && in_reach(s.2) && in_reach(s.3),
            0 <= max <= MAX_SEARCH,
        ensures
            r == part_distance(self.boxes(), *distance, *cos, s, max),
    {
        let (dlon, dlat): (i64, i64) = reach_of(max, call1(cos, half_of(s.1 + s.3)));
        let area = segment_box(s, dlon, dlat);
        let best: i64 = least_distance(&self.tree, area, distance, s, max);
        let turn: i64 = wrap_retry(min_of(s.0, s.2), max_of(s.0, s.2), dlon);
        if turn == 0 {
            return best;
        }
        let moved: LonLatSegment = (s.0 + turn, s.1, s.2 + turn, s.3);
        assert(moved == turned_segment(s, turn));
        let area = segment_box(moved, dlon, dlat);
        min_of(best, least_distance(&self.tree, area, distance, moved, max))
    }
}

} // verus!
