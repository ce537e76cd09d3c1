//! A whole route: direct line, snapping, search, stitching and smoothing.
//!
//! Points are of a type `Q` that only the caller's measurements look into.

use vstd::prelude::*;
use crate::astar_pool::AstarBuffers;
use crate::graph::{quantize_shore_dist, quantized, RoutingGraph, SHORE_DIST_MAX};
use crate::oracle::{call1, call2, call3, function1, function2, function3, value1, value2, value3};
use crate::routing::{lemma_path_in_range, penalty_of, within_reach, ShorePenalty, MAX_DISTANCE};
use crate::search::{guided_search, search_result};
use crate::smoothing::{
    as_ints, kept_positions, lemma_waypoints, lemma_waypoints_reach_far, lesser, line_clear, sight, smooth_indices, waypoints,
};

verus! {

/// A computed route.
pub struct RouteResult<Q> {
    /// Length in micro-nm.
    pub distance: u128,
    /// Number of nodes on the path that was searched.
    pub raw_hops: usize,
    /// Number of points that are left.
    pub smooth_hops: usize,
    pub coordinates: Vec<Q>,
}

/// What the caller measures: distances in micro-nm, and crossings of the coast.
pub struct Measures<C, D, S, L> {
    /// Whether the line between two points crosses the coast.
    pub crosses: C,
    /// Distance of a point to the coast, searched up to a radius.
    pub coast_distance: D,
    /// Distance of the line between two points to the coast, searched up to a
    /// radius.
    pub segment_distance: S,
    /// Distance between two points.
    pub leg: L,
}

impl<C, D, S, L> Measures<C, D, S, L> {
    /// All are functions, and no two points are further apart than can be.
    pub open spec fn ok<Q: Copy>(&self) -> bool where
        C: Fn(Q, Q) -> bool,
        D: Fn(Q, i64) -> i64,
        S: Fn(Q, Q, i64) -> i64,
        L: Fn(Q, Q) -> u64,
     {
        &&& function2(self.crosses)
        &&& function2(self.coast_distance)
        &&& function3(self.segment_distance)
        &&& function2(self.leg)
        &&& forall|a: Q, b: Q, d: u64| #[trigger]
            call_ensures(self.leg, (a, b), d) ==> d <= MAX_DISTANCE
    }
}

/// Slack of the direct line's distance to the coast, in micro-nm: where the line
/// is closest at one of its ends, two ways of measuring may differ by rounding.
pub const ROUNDING: i64 = 1;

/// The straight line between two points can be the route: it crosses no coast
/// and keeps the wanted clearance, or that of the points themselves where it is
/// less.
pub open spec fn direct_ok<Q: Copy, C, D, S, L>(
    m: Measures<C, D, S, L>,
    from: Q,
    to: Q,
    buffer: i64,
) -> bool where
    C: Fn(Q, Q) -> bool,
    D: Fn(Q, i64) -> i64,
    S: Fn(Q, Q, i64) -> i64,
    L: Fn(Q, Q) -> u64,
 {
    &&& !value2(m.crosses, from, to)
    &&& buffer <= 0 || {
        let own = lesser(
            value2(m.coast_distance, from, buffer) as int,
            value2(m.coast_distance, to, buffer) as int,
        );
        let t = lesser(buffer as int, own);
        t <= 0 || value3(m.segment_distance, from, to, t as i64) >= t - ROUNDING
    }
}

/// The straight line is never the route where it crosses the coast, and always
/// where it does not and no clearance is wanted. With a clearance, it is where it
/// keeps as much of it as both of its ends do: `t`, the least of what is wanted
/// and what the ends have.
pub proof fn lemma_direct_line<Q: Copy, C, D, S, L>(
    m: Measures<C, D, S, L>,
    from: Q,
    to: Q,
    buffer: i64,
    t: i64,
) where
    C: Fn(Q, Q) -> bool,
    D: Fn(Q, i64) -> i64,
    S: Fn(Q, Q, i64) -> i64,
    L: Fn(Q, Q) -> u64,

    ensures
        value2(m.crosses, from, to) ==> !direct_ok(m, from, to, buffer),
        buffer <= 0 && !value2(m.crosses, from, to) ==> direct_ok(m, from, to, buffer),
        ({
            let a = value2(m.coast_distance, from, buffer);
            let b = value2(m.coast_distance, to, buffer);
            &&& t <= buffer && t <= a && t <= b
            &&& t == buffer || t == a || t == b
            &&& buffer > 0
            &&& !value2(m.crosses, from, to)
        }) ==> {
            &&& t <= 0 ==> direct_ok(m, from, to, buffer)
            &&& value3(m.segment_distance, from, to, t) >= t ==> direct_ok(m, from, to, buffer)
            &&& t > 0 && value3(m.segment_distance, from, to, t) < t - 1 ==> !direct_ok(
                m,
                from,
                to,
                buffer,
            )
        },
{
}

/// Computes [`direct_ok`].
pub fn direct_line_ok<Q: Copy, C, D, S, L>(
    m: &Measures<C, D, S, L>,
    from: Q,
    to: Q,
    buffer: i64,
) -> (r: bool) where
    C: Fn(Q, Q) -> bool,
    D: Fn(Q, i64) -> i64,
    S: Fn(Q, Q, i64) -> i64,
    L: Fn(Q, Q) -> u64,

    requires
        m.ok::<Q>(),
    ensures
        r == direct_ok(*m, from, to, buffer),
{
    if call2(&m.crosses, from, to) {
        return false;
    }
    if buffer <= 0 {
        return true;
    }
    let from_d: i64 = call2(&m.coast_distance, from, buffer);
    let to_d: i64 = call2(&m.coast_distance, to, buffer);
    let mut threshold: i64 = buffer;
    if from_d < threshold {
        threshold = from_d;
    }
    if to_d < threshold {
        threshold = to_d;
    }
    threshold <= 0 || call3(&m.segment_distance, from, to, threshold) >= threshold - ROUNDING
}

/// Greedy line-of-sight smoothing of a node path.
pub fn smooth<P, Q: Copy, C: Fn(Q, Q) -> bool, S: Fn(Q, Q, i64) -> i64, N: Fn(u32) -> Q>(
    graph: &RoutingGraph<P>,
    path: &Vec<u32>,
    node_pos: &N,
    crosses: &C,
    segment_distance: &S,
    buffer: i64,
) -> (r: Vec<u32>)
    requires
        graph.shape(),
        function1(*node_pos),
        function2(*crosses),
        function3(*segment_distance),
        forall|i: int| 0 <= i < path@.len() ==> #[trigger] path@[i] < graph.num_nodes,
    ensures
        r@ == pick(
            path@,
            kept_positions(
                sight(
                    positions(*node_pos, path@),
                    shore_dists(graph, path@),
                    *crosses,
                    *segment_distance,
                    buffer,
                ),
                path@.len(),
            ),
        ),
{
    let mut coords: Vec<Q> = Vec::new();
    let mut shore_dist: Vec<u8> = Vec::new();
    append_nodes(graph, path, node_pos, &mut coords, &mut shore_dist);
    assert(coords@ =~= positions(*node_pos, path@));
    assert(shore_dist@ =~= shore_dists(graph, path@));
    let kept = smooth_indices(&coords, &shore_dist, crosses, segment_distance, buffer);
    proof {
        let clear = sight(coords@, shore_dist@, *crosses, *segment_distance, buffer);
        lemma_kept_in_range(clear, coords@.len());
    }
    take_positions(path, &kept)
}

/// The elements of `s` at the given positions.
pub open spec fn pick<T>(s: Seq<T>, at: Seq<int>) -> Seq<T> {
    at.map_values(|i: int| s[i])
}

/// The positions of the nodes of a path.
pub open spec fn positions<Q, N: Fn(u32) -> Q>(node_pos: N, path: Seq<u32>) -> Seq<Q> {
    path.map_values(|v: u32| value1(node_pos, v))
}

/// The shore distances of the nodes of a path.
pub open spec fn shore_dists<P>(graph: &RoutingGraph<P>, path: Seq<u32>) -> Seq<u8> {
    path.map_values(|v: u32| graph.shore_dist@[v as int])
}

proof fn lemma_kept_in_range(clear: spec_fn(int, int) -> bool, n: nat)
    ensures
        forall|i: int|
            0 <= i < kept_positions(clear, n).len() ==> 0 <= #[trigger] kept_positions(
                clear,
                n,
            )[i] < n,
        n > 0 ==> kept_positions(clear, n).len() > 0 && kept_positions(clear, n)[0] == 0
            && kept_positions(clear, n).last() == n - 1,
        kept_positions(clear, n).len() <= n,
{
    if n > 2 {
        lemma_waypoints(clear, 0, n - 1);
        let w = waypoints(clear, 0, n - 1);
        assert forall|i: int| 0 <= i < w.len() implies 0 <= #[trigger] w[i] < n && w[i] >= i by {
            lemma_at_least_index(w, i);
            if i < w.len() - 1 {
                assert(w[i] < w[w.len() - 1]);
            }
        }
        assert(w[w.len() - 1] == n - 1);
    }
}

/// Smoothing a path of nodes keeps its first and its last, and of the others some, in
/// their order. Two nodes that follow on each other in what is left did so before, or
/// the straight line between them is clear. Where the line from the first node to the
/// last is clear, nothing else is left.
pub proof fn lemma_smoothed_path<T>(path: Seq<T>, clear: spec_fn(int, int) -> bool, i: int)
    requires
        path.len() > 1,
        0 <= i < kept_positions(clear, path.len()).len() - 1,
    ensures
        ({
            let at = kept_positions(clear, path.len());
            let left = pick(path, at);
            &&& left.len() == at.len()
            &&& left[0] == path[0]
            &&& left.last() == path.last()
            &&& left[i] == path[at[i]] && left[i + 1] == path[at[i + 1]]
            &&& 0 <= at[i] < at[i + 1] < path.len()
            &&& at[i + 1] == at[i] + 1 || clear(at[i], at[i + 1])
            &&& clear(0, path.len() - 1) ==> at.len() == 2
        }),
{
    let n = path.len();
    let at = kept_positions(clear, n);
    lemma_kept_in_range(clear, n);
    assert(0 <= at[i] < n && 0 <= at[i + 1] < n);
    if n > 2 {
        lemma_waypoints(clear, 0, n - 1);
        lemma_waypoints_reach_far(clear, 0, n - 1, 0);
        assert(at[i] < at[i + 1]);
        if clear(0, n - 1) && at.len() > 2 {
            assert(at[1] < at[at.len() - 1]);
        }
    }
}

proof fn lemma_at_least_index(w: Seq<int>, i: int)
    requires
        0 <= i < w.len(),
        w[0] == 0,
        forall|a: int, b: int| 0 <= a < b < w.len() ==> #[trigger] w[a] < #[trigger] w[b],
    ensures
        w[i] >= i,
    decreases i,
{
    if i > 0 {
        lemma_at_least_index(w, i - 1);
        assert(w[i - 1] < w[i]);
    }
}

/// The elements of `s` at the given positions.
fn take_positions<T: Copy>(s: &Vec<T>, at: &Vec<usize>) -> (r: Vec<T>)
    requires
        forall|i: int| 0 <= i < as_ints(at@).len() ==> 0 <= #[trigger] as_ints(at@)[i] < s@.len(),
    ensures
        r@ == pick(s@, as_ints(at@)),
{
    let mut out: Vec<T> = Vec::new();
    for i in 0..at.len()
        invariant
            forall|k: int|
                0 <= k < as_ints(at@).len() ==> 0 <= #[trigger] as_ints(at@)[k] < s@.len(),
            out@.len() == i,
            forall|k: int| 0 <= k < i ==> #[trigger] out@[k] == s@[at@[k] as int],
    {
        assert(as_ints(at@)[i as int] == at@[i as int]);
        out.push(s[at[i]]);
    }
    assert(out@ =~= pick(s@, as_ints(at@)));
    out
}

/// Appends the positions and shore distances of the nodes of `path`.
fn append_nodes<P, Q: Copy, N: Fn(u32) -> Q>(
    graph: &RoutingGraph<P>,
    path: &Vec<u32>,
    node_pos: &N,
    coords: &mut Vec<Q>,
    shore_dist: &mut Vec<u8>,
)
    requires
        graph.shape(),
        function1(*node_pos),
        forall|i: int| 0 <= i < path@.len() ==> #[trigger] path@[i] < graph.num_nodes,
    ensures
        final(coords)@ == old(coords)@ + positions(*node_pos, path@),
        final(shore_dist)@ == old(shore_dist)@ + shore_dists(graph, path@),
{
    let ghost c0 = coords@;
    let ghost s0 = shore_dist@;
    for i in 0..path.len()
        invariant
            graph.shape(),
            function1(*node_pos),
            forall|k: int| 0 <= k < path@.len() ==> #[trigger] path@[k] < graph.num_nodes,
            coords@ == c0 + positions(*node_pos, path@).take(i as int),
            shore_dist@ == s0 + shore_dists(graph, path@).take(i as int),
    {
        let v: u32 = path[i];
        let ghost ps = positions(*node_pos, path@);
        let ghost ss = shore_dists(graph, path@);
        coords.push(call1(node_pos, v));
        shore_dist.push(graph.shore_dist[v as usize]);
        assert(ps.take(i + 1) =~= ps.take(i as int).push(ps[i as int]));
        assert(ss.take(i + 1) =~= ss.take(i as int).push(ss[i as int]));
        assert(coords@ =~= c0 + ps.take(i + 1));
        assert(shore_dist@ =~= s0 + ss.take(i + 1));
    }
    assert(positions(*node_pos, path@).take(path@.len() as int) =~= positions(*node_pos, path@));
    assert(shore_dists(graph, path@).take(path@.len() as int) =~= shore_dists(graph, path@));
}

/// Sum of the legs of a line of points, in micro-nm.
pub open spec fn line_length<Q, L: Fn(Q, Q) -> u64>(leg: L, line: Seq<Q>) -> nat
    decreases line.len(),
{
    if line.len() < 2 {
        0
    } else {
        line_length(leg, line.drop_last()) + value2(leg, line[line.len() - 2], line.last()) as nat
    }
}

/// Cut at any of its points, a line is as long as its two parts together. A line
/// of two points is as long as the leg between them, and one point has no length.
/// So every leg counts, and counts once.
pub proof fn lemma_length_adds_up<Q, L: Fn(Q, Q) -> u64>(leg: L, line: Seq<Q>, k: int)
    requires
        0 <= k < line.len(),
    ensures
        line_length(leg, line) == line_length(leg, line.take(k + 1)) + line_length(
            leg,
            line.skip(k),
        ),
        line.len() == 1 ==> line_length(leg, line) == 0,
        line.len() == 2 ==> line_length(leg, line) == value2(leg, line[0], line[1]),
    decreases line.len(),
{
    if line.len() == 2 {
        assert(line_length(leg, line.drop_last()) == 0);
    }
    if k == line.len() - 1 {
        assert(line.take(k + 1) =~= line);
        assert(line.skip(k).len() == 1);
    } else {
        let head = line.drop_last();
        lemma_length_adds_up(leg, head, k);
        assert(head.take(k + 1) =~= line.take(k + 1));
        let tail = line.skip(k);
        assert(tail.drop_last() =~= head.skip(k));
        assert(tail.last() == line.last());
        assert(tail[tail.len() - 2] == line[line.len() - 2]);
    }
}

/// No leg of a line is longer than the line.
pub proof fn lemma_no_leg_longer<Q, L: Fn(Q, Q) -> u64>(leg: L, line: Seq<Q>, i: int)
    requires
        0 <= i < line.len() - 1,
    ensures
        value2(leg, line[i], line[i + 1]) <= line_length(leg, line),
    decreases line.len(),
{
    if i < line.len() - 2 {
        let head = line.drop_last();
        lemma_no_leg_longer(leg, head, i);
    }
}

/// Computes [`line_length`].
fn length_of<Q: Copy, L: Fn(Q, Q) -> u64>(leg: &L, line: &Vec<Q>) -> (r: u128)
    requires
        function2(*leg),
        forall|a: Q, b: Q, d: u64| #[trigger]
            call_ensures(*leg, (a, b), d) ==> d <= MAX_DISTANCE,
    ensures
        r == line_length(*leg, line@),
{
    let mut sum: u128 = 0;
    if line.len() < 2 {
        return 0;
    }
    let mut i: usize = 1;
    assert(line@.take(1).len() == 1);
    while i < line.len()
        invariant
            function2(*leg),
            forall|a: Q, b: Q, d: u64| #[trigger]
                call_ensures(*leg, (a, b), d) ==> d <= MAX_DISTANCE,
            1 <= i <= line@.len() <= usize::MAX,
            sum == line_length(*leg, line@.take(i as int)),
            sum <= (i - 1) * MAX_DISTANCE,
        decreases line@.len() - i,
    {
        let d: u64 = call2(leg, line[i - 1], line[i]);
        proof {
            let longer = line@.take(i + 1);
            assert(longer.drop_last() =~= line@.take(i as int));
            assert((i - 1) * MAX_DISTANCE <= usize::MAX * MAX_DISTANCE) by (nonlinear_arith)
                requires
                    1 <= i <= usize::MAX,
            ;
        }
        sum = sum + d as u128;
        i = i + 1;
    }
    assert(line@.take(i as int) =~= line@);
    sum
}

/// Quantized distance of a pin to the coast: measured where a clearance is
/// wanted, otherwise none to speak of.
pub open spec fn pin_shore_dist<Q, D: Fn(Q, i64) -> i64>(coast_distance: D, pin: Q, buffer: i64) -> u8 {
    if buffer > 0 {
        quantized(value2(coast_distance, pin, SHORE_DIST_MAX as i64))
    } else {
        255
    }
}

/// Computes [`pin_shore_dist`].
fn pin_q<Q, D: Fn(Q, i64) -> i64>(coast_distance: &D, pin: Q, buffer: i64) -> (r: u8)
    requires
        function2(*coast_distance),
    ensures
        r == pin_shore_dist(*coast_distance, pin, buffer),
{
    if buffer > 0 {
        quantize_shore_dist(call2(coast_distance, pin, SHORE_DIST_MAX as i64))
    } else {
        255
    }
}

/// The points of a searched path with the pins at its ends.
pub open spec fn stitched<Q, N: Fn(u32) -> Q>(from: Q, to: Q, node_pos: N, path: Seq<u32>) -> Seq<
    Q,
> {
    (seq![from] + positions(node_pos, path)).push(to)
}

/// The shore distances that go with [`stitched`].
pub open spec fn stitched_shore<P, Q, D: Fn(Q, i64) -> i64>(
    graph: &RoutingGraph<P>,
    from: Q,
    to: Q,
    coast_distance: D,
    path: Seq<u32>,
    buffer: i64,
) -> Seq<u8> {
    (seq![pin_shore_dist(coast_distance, from, buffer)] + shore_dists(graph, path)).push(
        pin_shore_dist(coast_distance, to, buffer),
    )
}

/// The line that is smoothed goes from the first pin over every node of the path to
/// the second pin. Each node brings its own distance from the shore. A pin's is
/// measured where a clearance is wanted, and is the furthest that can be told where
/// none is.
pub proof fn lemma_stitched<P, Q, D: Fn(Q, i64) -> i64, N: Fn(u32) -> Q>(
    graph: &RoutingGraph<P>,
    from: Q,
    to: Q,
    node_pos: N,
    coast_distance: D,
    path: Seq<u32>,
    buffer: i64,
)
    ensures
        ({
            let line = stitched(from, to, node_pos, path);
            let shore = stitched_shore(graph, from, to, coast_distance, path, buffer);
            let n = path.len() as int;
            &&& line.len() == n + 2 && shore.len() == n + 2
            &&& line[0] == from && line[n + 1] == to
            &&& forall|i: int|
                0 <= i < n ==> line[i + 1] == value1(node_pos, #[trigger] path[i]) && shore[i + 1]
                    == graph.shore_dist@[path[i] as int]
            &&& buffer <= 0 ==> shore[0] == 255 && shore[n + 1] == 255
            &&& buffer > 0 ==> shore[0] == quantized(value2(coast_distance, from, 5_100_000))
                && shore[n + 1] == quantized(value2(coast_distance, to, 5_100_000))
        }),
{
    let line = stitched(from, to, node_pos, path);
    let shore = stitched_shore(graph, from, to, coast_distance, path, buffer);
    assert forall|i: int| 0 <= i < path.len() implies line[i + 1] == value1(
        node_pos,
        #[trigger] path[i],
    ) && shore[i + 1] == graph.shore_dist@[path[i] as int] by {
        assert(positions(node_pos, path)[i] == value1(node_pos, path[i]));
        assert(shore_dists(graph, path)[i] == graph.shore_dist@[path[i] as int]);
    }
}

/// `r` is what becomes of the searched path: the pins stitched on, smoothed, and
/// measured along what is left.
pub open spec fn finished<P, Q: Copy, C, D, S, L, N>(
    graph: &RoutingGraph<P>,
    from: Q,
    to: Q,
    node_pos: N,
    m: Measures<C, D, S, L>,
    buffer: i64,
    path: Seq<u32>,
    r: RouteResult<Q>,
) -> bool where
    C: Fn(Q, Q) -> bool,
    D: Fn(Q, i64) -> i64,
    S: Fn(Q, Q, i64) -> i64,
    L: Fn(Q, Q) -> u64,
    N: Fn(u32) -> Q,
 {
    let line = stitched(from, to, node_pos, path);
    let shore = stitched_shore(graph, from, to, m.coast_distance, path, buffer);
    let clear = sight(line, shore, m.crosses, m.segment_distance, buffer);
    &&& r.coordinates@ == pick(line, kept_positions(clear, line.len()))
    &&& r.raw_hops == path.len()
    &&& r.smooth_hops == r.coordinates@.len()
    &&& r.distance == line_length(m.leg, r.coordinates@)
}

/// Stitches the pins onto a searched path, smooths it and measures it.
pub fn finish_route<P, Q: Copy, C, D, S, L, N>(
    graph: &RoutingGraph<P>,
    from: Q,
    to: Q,
    node_pos: &N,
    m: &Measures<C, D, S, L>,
    buffer: i64,
    path: &Vec<u32>,
) -> (r: RouteResult<Q>) where
    C: Fn(Q, Q) -> bool,
    D: Fn(Q, i64) -> i64,
    S: Fn(Q, Q, i64) -> i64,
    L: Fn(Q, Q) -> u64,
    N: Fn(u32) -> Q,

    requires
        graph.shape(),
        m.ok::<Q>(),
        function1(*node_pos),
        forall|i: int| 0 <= i < path@.len() ==> #[trigger] path@[i] < graph.num_nodes,
    ensures
        finished(graph, from, to, *node_pos, *m, buffer, path@, r),
        forall|i: int|
            0 <= i < r.coordinates@.len() - 1 ==> value2(
                m.leg,
                #[trigger] r.coordinates@[i],
                r.coordinates@[i + 1],
            ) <= r.distance,
{
    let mut coords: Vec<Q> = Vec::new();
    let mut shore_dist: Vec<u8> = Vec::new();
    coords.push(from);
    shore_dist.push(pin_q(&m.coast_distance, from, buffer));
    append_nodes(graph, path, node_pos, &mut coords, &mut shore_dist);
    coords.push(to);
    shore_dist.push(pin_q(&m.coast_distance, to, buffer));
    proof {
        assert(coords@ =~= stitched(from, to, *node_pos, path@));
        assert(shore_dist@ =~= stitched_shore(
            graph,
            from,
            to,
            m.coast_distance,
            path@,
            buffer,
        ));
        lemma_kept_in_range(
            sight(coords@, shore_dist@, m.crosses, m.segment_distance, buffer),
            coords@.len(),
        );
    }
    let kept = smooth_indices(&coords, &shore_dist, &m.crosses, &m.segment_distance, buffer);
    let coordinates = take_positions(&coords, &kept);
    let distance: u128 = length_of(&m.leg, &coordinates);
    proof {
        assert forall|i: int| 0 <= i < coordinates@.len() - 1 implies value2(
            m.leg,
            #[trigger] coordinates@[i],
            coordinates@[i + 1],
        ) <= distance by {
            lemma_no_leg_longer(m.leg, coordinates@, i);
        }
    }
    RouteResult { distance, raw_hops: path.len(), smooth_hops: coordinates.len(), coordinates }
}

/// Distance from a node to the goal as the search estimates it.
pub open spec fn beeline<Q, L: Fn(Q, Q) -> u64, N: Fn(u32) -> Q>(
    leg: L,
    node_pos: N,
    goal: u32,
) -> spec_fn(int) -> u64 {
    |v: int| within_reach(value2(leg, value1(node_pos, v as u32), value1(node_pos, goal)))
}

/// The search is guided by the distance from a node to the goal, up to the longest
/// that there is.
pub proof fn lemma_beeline<Q, L: Fn(Q, Q) -> u64, N: Fn(u32) -> Q>(
    leg: L,
    node_pos: N,
    goal: u32,
    v: u32,
)
    ensures
        value2(leg, value1(node_pos, v), value1(node_pos, goal)) <= MAX_DISTANCE ==> beeline(
            leg,
            node_pos,
            goal,
        )(v as int) == value2(leg, value1(node_pos, v), value1(node_pos, goal)),
{
}

/// Computes a route between two points. Where the straight line can be used it
/// is the route, without any search; so points that snap to one node far out
/// still are apart. Otherwise both points are snapped to nodes, a path between
/// these is searched, and the points themselves are stitched to its ends before
/// it is smoothed.
///
/// There is no route where a point cannot be snapped or no path exists.
pub fn compute_route<P, Q: Copy, C, D, S, L, N, K>(
    graph: &RoutingGraph<P>,
    from: Q,
    to: Q,
    node_pos: &N,
    node_knn: &K,
    m: &Measures<C, D, S, L>,
    buffers: &mut AstarBuffers,
    buffer: i64,
) -> (r: Option<RouteResult<Q>>) where
    C: Fn(Q, Q) -> bool,
    D: Fn(Q, i64) -> i64,
    S: Fn(Q, Q, i64) -> i64,
    L: Fn(Q, Q) -> u64,
    N: Fn(u32) -> Q,
    K: Fn(Q) -> Option<u32>,

    requires
        graph.wf(),
        m.ok::<Q>(),
        function1(*node_pos),
        function1(*node_knn),
        forall|q: Q, v: u32| #[trigger]
            call_ensures(*node_knn, (q,), Some(v)) ==> v < graph.num_nodes,
        direct_ok(*m, from, to, buffer) || (old(buffers).wf(graph.num_nodes as nat) && old(
            buffers,
        ).fresh()),
    ensures
        old(buffers).wf(graph.num_nodes as nat) ==> final(buffers).wf(graph.num_nodes as nat),
        if direct_ok(*m, from, to, buffer) {
            r matches Some(route) && {
                &&& route.distance == value2(m.leg, from, to)
                &&& route.raw_hops == 2
                &&& route.smooth_hops == 2
                &&& route.coordinates@ == seq![from, to]
                &&& *final(buffers) == *old(buffers)
            }
        } else {
            match (value1(*node_knn, from), value1(*node_knn, to)) {
                (Some(start), Some(goal)) => exists|found: Option<(Vec<u32>, u64)>|
                    {
                        &&& #[trigger] search_result(
                            graph,
                            start,
                            goal,
                            penalty_of(buffer),
                            beeline(m.leg, *node_pos, goal),
                            found,
                        )
                        &&& match found {
                            Some((path, _)) => r matches Some(route) && finished(
                                graph,
                                from,
                                to,
                                *node_pos,
                                *m,
                                buffer,
                                path@,
                                route,
                            ),
                            None => r is None,
                        }
                    },
                _ => r is None,
            }
        },
{
    if direct_line_ok(m, from, to, buffer) {
        let distance: u128 = call2(&m.leg, from, to) as u128;
        let mut coordinates: Vec<Q> = Vec::new();
        coordinates.push(from);
        coordinates.push(to);
        assert(coordinates@ =~= seq![from, to]);
        return Some(RouteResult { distance, raw_hops: 2, smooth_hops: 2, coordinates });
    }
    let start: u32 = match call1(node_knn, from) {
        Some(v) => v,
        None => {
            return None;
        },
    };
    let goal: u32 = match call1(node_knn, to) {
        Some(v) => v,
        None => {
            return None;
        },
    };
    let shore: Option<ShorePenalty> = ShorePenalty::from_nm(buffer);
    assert(shore == penalty_of(buffer));
    let goal_pos = call1(node_pos, goal);
    let h = |v: u32| -> (d: u64)
        ensures
            d == within_reach(value2(m.leg, value1(*node_pos, v), goal_pos)),
        { call2(&m.leg, call1(node_pos, v), goal_pos) };
    let ghost hv = beeline(m.leg, *node_pos, goal);
    let found = guided_search(graph, start, goal, buffers, shore, &h, Ghost(hv));
    match found {
        None => {
            assert(search_result(graph, start, goal, penalty_of(buffer), hv, found));
            None
        },
        Some((path, cost)) => {
            proof {
                assert(search_result(graph, start, goal, penalty_of(buffer), hv, Some((path, cost))));
                lemma_path_in_range(graph, start as int, goal as int, path@);
            }
            let route = finish_route(graph, from, to, node_pos, m, buffer, &path);
            Some(route)
        },
    }
}

/// A finished route starts and ends exactly at the requested points.
pub proof fn lemma_route_ends_at_pins<P, Q: Copy, C, D, S, L, N>(
    graph: &RoutingGraph<P>,
    from: Q,
    to: Q,
    node_pos: N,
    m: Measures<C, D, S, L>,
    buffer: i64,
    path: Seq<u32>,
    r: RouteResult<Q>,
) where
    C: Fn(Q, Q) -> bool,
    D: Fn(Q, i64) -> i64,
    S: Fn(Q, Q, i64) -> i64,
    L: Fn(Q, Q) -> u64,
    N: Fn(u32) -> Q,

    requires
        finished(graph, from, to, node_pos, m, buffer, path, r),
    ensures
        2 <= r.coordinates@.len() <= path.len() + 2,
        r.coordinates@[0] == from,
        r.coordinates@.last() == to,
{
    let line = stitched(from, to, node_pos, path);
    let shore = stitched_shore(graph, from, to, m.coast_distance, path, buffer);
    let clear = sight(line, shore, m.crosses, m.segment_distance, buffer);
    let kept = kept_positions(clear, line.len());
    lemma_kept_in_range(clear, line.len());
    assert(line[0] == from);
    assert(line.last() == to);
    assert(r.coordinates@[0] == line[kept[0]]);
    assert(r.coordinates@.last() == line[kept[kept.len() - 1]]);
}

/// A searched path whose ends can see each other becomes the straight line. The
/// raw hops are the nodes of the path, the others the points that are left.
pub proof fn lemma_route_in_sight<P, Q: Copy, C, D, S, L, N>(
    graph: &RoutingGraph<P>,
    from: Q,
    to: Q,
    node_pos: N,
    m: Measures<C, D, S, L>,
    buffer: i64,
    path: Seq<u32>,
    r: RouteResult<Q>,
) where
    C: Fn(Q, Q) -> bool,
    D: Fn(Q, i64) -> i64,
    S: Fn(Q, Q, i64) -> i64,
    L: Fn(Q, Q) -> u64,
    N: Fn(u32) -> Q,

    requires
        finished(graph, from, to, node_pos, m, buffer, path, r),
    ensures
        r.raw_hops == path.len(),
        r.smooth_hops == r.coordinates@.len(),
        path.len() == 0 || line_clear(
            stitched(from, to, node_pos, path),
            stitched_shore(graph, from, to, m.coast_distance, path, buffer),
            m.crosses,
            m.segment_distance,
            buffer,
            0,
            (path.len() + 1) as int,
        ) ==> r.coordinates@ == seq![from, to] && r.distance == value2(m.leg, from, to),
{
    let line = stitched(from, to, node_pos, path);
    let shore = stitched_shore(graph, from, to, m.coast_distance, path, buffer);
    let clear = sight(line, shore, m.crosses, m.segment_distance, buffer);
    let n = line.len() as int;
    lemma_route_ends_at_pins(graph, from, to, node_pos, m, buffer, path, r);
    if path.len() > 0 && clear(0, n - 1) {
        let w = waypoints(clear, 0, n - 1);
        lemma_waypoints(clear, 0, n - 1);
        lemma_waypoints_reach_far(clear, 0, n - 1, 0);
        assert(w[1] == n - 1);
        if w.len() > 2 {
            assert(w[1] < w[w.len() - 1]);
        }
    }
    if path.len() == 0 || clear(0, n - 1) {
        assert(r.coordinates@.len() == 2);
        assert(r.coordinates@ =~= seq![from, to]);
        lemma_length_adds_up(m.leg, r.coordinates@, 0);
    }
}

/// The leg from `a` to `b` goes from point `i` of the line to point `j`, which is
/// the next or can be reached by a clear straight line.
pub open spec fn leg_between<Q: Copy, C: Fn(Q, Q) -> bool, S: Fn(Q, Q, i64) -> i64>(
    line: Seq<Q>,
    shore: Seq<u8>,
    crosses: C,
    segment_distance: S,
    buffer: i64,
    i: int,
    j: int,
    a: Q,
    b: Q,
) -> bool {
    &&& 0 <= i < j < line.len()
    &&& a == line[i]
    &&& b == line[j]
    &&& j == i + 1 || line_clear(line, shore, crosses, segment_distance, buffer, i, j)
}

/// Every leg of a finished route either was a leg of the stitched path, or is
/// clear: it crosses no coast and, with a clearance wanted, comes no closer to
/// the coast than wanted or than the points that it passes over did themselves.
pub proof fn lemma_route_legs_clear<P, Q: Copy, C, D, S, L, N>(
    graph: &RoutingGraph<P>,
    from: Q,
    to: Q,
    node_pos: N,
    m: Measures<C, D, S, L>,
    buffer: i64,
    path: Seq<u32>,
    r: RouteResult<Q>,
    leg: int,
) where
    C: Fn(Q, Q) -> bool,
    D: Fn(Q, i64) -> i64,
    S: Fn(Q, Q, i64) -> i64,
    L: Fn(Q, Q) -> u64,
    N: Fn(u32) -> Q,

    requires
        finished(graph, from, to, node_pos, m, buffer, path, r),
        0 <= leg < r.coordinates@.len() - 1,
    ensures
        exists|i: int, j: int| #[trigger]
            leg_between(
                stitched(from, to, node_pos, path),
                stitched_shore(graph, from, to, m.coast_distance, path, buffer),
                m.crosses,
                m.segment_distance,
                buffer,
                i,
                j,
                r.coordinates@[leg],
                r.coordinates@[leg + 1],
            ),
{
    let line = stitched(from, to, node_pos, path);
    let shore = stitched_shore(graph, from, to, m.coast_distance, path, buffer);
    let clear = sight(line, shore, m.crosses, m.segment_distance, buffer);
    let kept = kept_positions(clear, line.len());
    lemma_kept_in_range(clear, line.len());
    if line.len() > 2 {
        lemma_waypoints(clear, 0, line.len() - 1);
    }
    let i = kept[leg];
    let j = kept[leg + 1];
    assert(r.coordinates@[leg] == line[i]);
    assert(r.coordinates@[leg + 1] == line[j]);
    assert(i < j);
    assert(j == i + 1 || clear(i, j));
    assert(leg_between(
        line,
        shore,
        m.crosses,
        m.segment_distance,
        buffer,
        i,
        j,
        r.coordinates@[leg],
        r.coordinates@[leg + 1],
    ));
}

} // verus!
