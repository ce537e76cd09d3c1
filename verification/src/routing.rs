//! Shore clearance and the route search.
//!
//! Costs of the search are whole numbers. Without a clearance the unit is one
//! centi-nm; with one of `q` steps it is the `q`-th part of that, in which every
//! penalised edge is a whole number.

use vstd::prelude::*;
use crate::edge_list::Edge;
use crate::graph::{RoutingGraph, CENTI_NM, SHORE_DIST_MAX, SHORE_DIST_UNIT};

verus! {

/// Wish to keep away from the shore. An edge into a node closer to it than
/// `buffer_q` has its weight multiplied by `1 + 15 * (1 - d / buffer_q)`.
#[derive(Debug, Clone, Copy)]
pub struct ShorePenalty {
    /// Wanted clearance in units of `shore_dist`.
    pub buffer_q: u8,
}

/// Strength of the penalty: on the shore an edge counts this much more.
pub const DEFAULT_K: u32 = 15;

impl ShorePenalty {
    /// From a clearance in micro-nm. There is none where it is not positive. It
    /// rounds up, so that the clearance is never understated.
    pub fn from_nm(buffer: i64) -> (r: Option<Self>)
        ensures
            r == penalty_of(buffer),
    {
        if buffer <= 0 {
            return None;
        }
        if buffer > SHORE_DIST_MAX as i64 {
            return Some(ShorePenalty { buffer_q: 255 });
        }
        let q: i64 = (buffer + (SHORE_DIST_UNIT as i64 - 1)) / SHORE_DIST_UNIT as i64;
        Some(ShorePenalty { buffer_q: q as u8 })
    }

    /// Multiplier of an edge into a node `d` units from the shore, as a
    /// numerator over `buffer_q`.
    pub open spec fn numerator(self, d: u8) -> int {
        if d >= self.buffer_q {
            self.buffer_q as int
        } else {
            self.buffer_q + DEFAULT_K * (self.buffer_q - d)
        }
    }

    /// Multiplier of the weight of an edge into a node `d` units from the shore,
    /// as numerator and denominator.
    pub fn factor(&self, d: u8) -> (r: (u32, u32))
        ensures
            r.1 == if self.buffer_q == 0 {
                1
            } else {
                self.buffer_q as int
            },
            r.0 == if self.buffer_q == 0 {
                1
            } else {
                self.numerator(d)
            },
            r.1 <= r.0 <= 16 * r.1,
            d >= self.buffer_q ==> r.0 == r.1,
    {
        if self.buffer_q == 0 {
            (1, 1)
        } else if d >= self.buffer_q {
            (self.buffer_q as u32, self.buffer_q as u32)
        } else {
            let q: u32 = self.buffer_q as u32;
            (q + DEFAULT_K * (q - d as u32), q)
        }
    }
}

/// The penalty for a clearance of `buffer` micro-nm.
pub open spec fn penalty_of(buffer: i64) -> Option<ShorePenalty> {
    if buffer <= 0 {
        None
    } else if buffer > SHORE_DIST_MAX {
        Some(ShorePenalty { buffer_q: 255 })
    } else {
        Some(
            ShorePenalty {
                buffer_q: ((buffer + SHORE_DIST_UNIT - 1) / SHORE_DIST_UNIT as int) as u8,
            },
        )
    }
}

/// The clearance of the penalty is never less than the wanted one, up to the
/// ceiling, and exceeds it by less than one unit.
pub proof fn lemma_penalty_never_understates(buffer: i64)
    requires
        0 < buffer <= SHORE_DIST_MAX,
    ensures
        penalty_of(buffer) matches Some(p) && p.buffer_q >= 1 && buffer <= p.buffer_q
            * SHORE_DIST_UNIT < buffer + SHORE_DIST_UNIT,
{
}

/// The penalty falls as the distance from the shore grows, from sixteenfold on
/// the shore to none at the wanted clearance.
pub proof fn lemma_factor_falls(p: ShorePenalty, near: u8, far: u8)
    requires
        near <= far,
    ensures
        p.numerator(far) <= p.numerator(near),
        p.numerator(0) == 16 * p.buffer_q,
        p.numerator(p.buffer_q) == p.buffer_q,
{
}

/// Without a clearance to keep there is no penalty, and beyond what a shore distance
/// can tell the clearance is the largest that it can.
pub proof fn lemma_penalty_limits(buffer: i64)
    ensures
        buffer <= 0 ==> penalty_of(buffer) is None,
        buffer > 5_100_000 ==> (penalty_of(buffer) matches Some(p) && p.buffer_q == 255),
        buffer > 0 ==> penalty_of(buffer) is Some,
{
}

/// Every unit nearer to the shore than the clearance adds as much: fifteen parts of
/// the clearance. At the clearance and beyond there is nothing to add.
pub proof fn lemma_factor_is_linear(p: ShorePenalty, d: u8)
    ensures
        d < p.buffer_q ==> p.numerator(d) == p.numerator((d + 1) as u8) + 15,
        d >= p.buffer_q ==> p.numerator(d) == p.buffer_q,
{
}

/// Number of cost units in one centi-nm.
pub open spec fn cost_scale(shore: Option<ShorePenalty>) -> int {
    match shore {
        Some(p) if p.buffer_q > 0 => p.buffer_q as int,
        _ => 1,
    }
}

/// Cost of an edge of `weight` centi-nm into a node `d` units from the shore.
pub open spec fn penalized(shore: Option<ShorePenalty>, weight: u16, d: u8) -> int {
    match shore {
        Some(p) if p.buffer_q > 0 => weight * p.numerator(d),
        _ => weight as int,
    }
}

/// Cost of an edge of the graph.
pub open spec fn edge_cost<P>(g: &RoutingGraph<P>, shore: Option<ShorePenalty>, e: Edge) -> int {
    penalized(shore, e.1, g.shore_dist@[e.0 as int])
}

/// An edge costs its weight, and more where it leads to a node that is nearer to the
/// shore than the clearance. Its source does not count.
pub proof fn lemma_edge_cost<P>(g: &RoutingGraph<P>, shore: Option<ShorePenalty>, e: Edge)
    ensures
        shore is None ==> edge_cost(g, shore, e) == e.1,
        shore matches Some(p) ==> {
            let d = g.shore_dist@[e.0 as int];
            &&& p.buffer_q == 0 ==> edge_cost(g, shore, e) == e.1
            &&& 0 < p.buffer_q <= d ==> edge_cost(g, shore, e) == e.1 * p.buffer_q
            &&& d < p.buffer_q ==> edge_cost(g, shore, e) == e.1 * p.buffer_q + 15 * (e.1 * (
            p.buffer_q - d))
        },
{
    if let Some(p) = shore {
        let d = g.shore_dist@[e.0 as int];
        let (w, q) = (e.1 as int, p.buffer_q as int);
        assert(w * (q + 15 * (q - d)) == w * q + 15 * (w * (q - d))) by (nonlinear_arith);
    }
}

/// Upper bound of the cost of one edge.
pub const MAX_COST: u64 = 0x1000_0000;

/// Computes [`penalized`].
pub(crate) fn penalized_cost(shore: Option<ShorePenalty>, weight: u16, d: u8) -> (r: u64)
    ensures
        r == penalized(shore, weight, d),
        r < MAX_COST,
{
    match shore {
        Some(p) => {
            if p.buffer_q == 0 {
                return weight as u64;
            }
            let (num, den): (u32, u32) = p.factor(d);
            proof {
                assert(weight * num <= 65535 * 4080) by (nonlinear_arith)
                    requires
                        weight <= 65535,
                        0 <= num <= 4080,
                ;
                assert(0 <= weight * num) by (nonlinear_arith)
                    requires
                        0 <= num,
                        0 <= weight,
                ;
            }
            weight as u64 * num as u64
        },
        None => weight as u64,
    }
}

/// Computes [`cost_scale`].
pub fn scale_of(shore: Option<ShorePenalty>) -> (r: u64)
    ensures
        r == cost_scale(shore),
        1 <= r <= 255,
{
    match shore {
        Some(p) => if p.buffer_q > 0 {
            p.buffer_q as u64
        } else {
            1
        },
        None => 1,
    }
}

/// The steps are edges of the graph, each by its position in the list of the
/// node that it leaves.
pub open spec fn route_ok<P>(g: &RoutingGraph<P>, start: int, steps: Seq<int>) -> bool
    decreases steps.len(),
{
    steps.len() == 0 || {
        let head = steps.drop_last();
        route_ok(g, start, head) && 0 <= steps.last() < g.adj(route_end(g, start, head)).len()
    }
}

/// Where the steps lead from `start`.
pub open spec fn route_end<P>(g: &RoutingGraph<P>, start: int, steps: Seq<int>) -> int
    decreases steps.len(),
{
    if steps.len() == 0 {
        start
    } else {
        g.adj(route_end(g, start, steps.drop_last()))[steps.last()].0 as int
    }
}

/// Sum of the costs of the steps.
pub open spec fn route_cost<P>(
    g: &RoutingGraph<P>,
    shore: Option<ShorePenalty>,
    start: int,
    steps: Seq<int>,
) -> int
    decreases steps.len(),
{
    if steps.len() == 0 {
        0
    } else {
        let head = steps.drop_last();
        route_cost(g, shore, start, head) + edge_cost(
            g,
            shore,
            g.adj(route_end(g, start, head))[steps.last()],
        )
    }
}

/// The steps lead from `start` to `goal`.
pub open spec fn leads_to<P>(g: &RoutingGraph<P>, start: int, goal: int, steps: Seq<int>) -> bool {
    route_ok(g, start, steps) && route_end(g, start, steps) == goal
}

/// `path` lists the nodes that the steps pass.
pub open spec fn passes<P>(g: &RoutingGraph<P>, start: int, steps: Seq<int>, path: Seq<u32>) -> bool {
    &&& path.len() == steps.len() + 1
    &&& forall|i: int|
        0 <= i < path.len() ==> #[trigger] path[i] == route_end(g, start, steps.take(i))
}

/// Estimate of the cost from `node` to the goal, from one in micro-nm.
pub open spec fn estimate(h: spec_fn(int) -> u64, shore: Option<ShorePenalty>, node: int) -> int {
    (h(node) * cost_scale(shore)) / CENTI_NM as int
}

/// The estimate is the distance in centi-nm, rounded down, counted in the units of
/// the costs.
pub proof fn lemma_estimate(h: spec_fn(int) -> u64, shore: Option<ShorePenalty>, node: int)
    ensures
        10_000 * estimate(h, shore, node) <= h(node) * cost_scale(shore) < 10_000 * (estimate(
            h,
            shore,
            node,
        ) + 1),
        shore is None ==> cost_scale(shore) == 1,
        shore matches Some(p) ==> cost_scale(shore) == if p.buffer_q == 0 {
            1
        } else {
            p.buffer_q as int
        },
{
}

/// Longest distance between two points, in micro-nm. On the globe none exceeds
/// 10 808 nm.
pub const MAX_DISTANCE: u64 = 0x4_0000_0000;

/// A distance that does not exceed the longest.
pub open spec fn within_reach(d: u64) -> u64 {
    if d <= MAX_DISTANCE {
        d
    } else {
        MAX_DISTANCE
    }
}

/// The estimate never falls by more than an edge costs.
pub open spec fn consistent<P>(
    g: &RoutingGraph<P>,
    shore: Option<ShorePenalty>,
    h: spec_fn(int) -> u64,
) -> bool {
    forall|u: int, k: int|
        0 <= u < g.num_nodes && 0 <= k < g.adj(u).len() ==> estimate(h, shore, u) <= edge_cost(
            g,
            shore,
            #[trigger] g.adj(u)[k],
        ) + estimate(h, shore, g.adj(u)[k].0 as int)
}

/// Where no edge is shorter than the difference of the distances of its ends, the
/// estimate is consistent, whatever the clearance. Without distances it always is.
pub proof fn lemma_beeline_is_consistent<P>(
    g: &RoutingGraph<P>,
    shore: Option<ShorePenalty>,
    h: spec_fn(int) -> u64,
)
    requires
        forall|u: int, k: int|
            0 <= u < g.num_nodes && 0 <= k < g.adj(u).len() ==> h(u) <= h(
                (#[trigger] g.adj(u)[k]).0 as int,
            ) + 10_000 * g.adj(u)[k].1,
    ensures
        consistent(g, shore, h),
{
    let q = cost_scale(shore);
    assert forall|u: int, k: int|
        0 <= u < g.num_nodes && 0 <= k < g.adj(u).len() implies estimate(h, shore, u) <= edge_cost(
        g,
        shore,
        #[trigger] g.adj(u)[k],
    ) + estimate(h, shore, g.adj(u)[k].0 as int) by {
        let e = g.adj(u)[k];
        let v = e.0 as int;
        lemma_penalty_bounds(shore, e.1, g.shore_dist@[v]);
        let (a, b, w) = (h(u) as int, h(v) as int, e.1 as int);
        assert(a * q <= b * q + 10_000 * (w * q)) by (nonlinear_arith)
            requires
                a <= b + 10_000 * w,
                q >= 0,
        ;
        assert(a * q / 10_000 <= w * q + b * q / 10_000);
    }
}

/// A route of one step is any edge of the node. A longer one is an edge and a route
/// from where that leads.
pub proof fn lemma_route_by_edges<P>(g: &RoutingGraph<P>, u: int, k: int, steps: Seq<int>)
    ensures
        route_ok(g, u, Seq::<int>::empty()),
        route_end(g, u, Seq::<int>::empty()) == u,
        route_ok(g, u, seq![k] + steps) <==> 0 <= k < g.adj(u).len() && route_ok(
            g,
            g.adj(u)[k].0 as int,
            steps,
        ),
    decreases steps.len(),
{
    let all = seq![k] + steps;
    if steps.len() == 0 {
        assert(all.drop_last() =~= Seq::<int>::empty());
        assert(all.last() == k);
        reveal_with_fuel(route_ok, 2);
    } else {
        let head = steps.drop_last();
        lemma_route_by_edges(g, u, k, head);
        assert(all.drop_last() =~= seq![k] + head);
        assert(all.last() == steps.last());
        if 0 <= k < g.adj(u).len() && route_ok(g, g.adj(u)[k].0 as int, head) {
            lemma_prepend(g, None, u, k, head);
        }
    }
}

/// Going on by one more edge in front.
pub proof fn lemma_prepend<P>(
    g: &RoutingGraph<P>,
    shore: Option<ShorePenalty>,
    u: int,
    k: int,
    steps: Seq<int>,
)
    requires
        0 <= k < g.adj(u).len(),
        route_ok(g, g.adj(u)[k].0 as int, steps),
    ensures
        route_ok(g, u, seq![k] + steps),
        route_end(g, u, seq![k] + steps) == route_end(g, g.adj(u)[k].0 as int, steps),
        route_cost(g, shore, u, seq![k] + steps) == edge_cost(g, shore, g.adj(u)[k]) + route_cost(
            g,
            shore,
            g.adj(u)[k].0 as int,
            steps,
        ),
    decreases steps.len(),
{
    let all = seq![k] + steps;
    if steps.len() == 0 {
        assert(all.drop_last() =~= Seq::<int>::empty());
        assert(all.last() == k);
        reveal_with_fuel(route_ok, 2);
        reveal_with_fuel(route_end, 2);
        reveal_with_fuel(route_cost, 2);
    } else {
        lemma_prepend(g, shore, u, k, steps.drop_last());
        assert(all.drop_last() =~= seq![k] + steps.drop_last());
        assert(all.last() == steps.last());
    }
}

pub proof fn lemma_route_in_range<P>(g: &RoutingGraph<P>, start: int, steps: Seq<int>)
    requires
        g.wf(),
        0 <= start < g.num_nodes,
        route_ok(g, start, steps),
    ensures
        0 <= route_end(g, start, steps) < g.num_nodes,
    decreases steps.len(),
{
    if steps.len() > 0 {
        lemma_route_in_range(g, start, steps.drop_last());
        assert(g.node_valid(route_end(g, start, steps.drop_last())));
    }
}

/// Where every edge respects the estimate, so does every route.
pub proof fn lemma_consistent_route<P>(
    g: &RoutingGraph<P>,
    shore: Option<ShorePenalty>,
    h: spec_fn(int) -> u64,
    start: int,
    steps: Seq<int>,
    i: int,
)
    requires
        g.wf(),
        consistent(g, shore, h),
        0 <= start < g.num_nodes,
        route_ok(g, start, steps),
        0 <= i <= steps.len(),
    ensures
        route_ok(g, start, steps.take(i)),
        route_cost(g, shore, start, steps.take(i)) + estimate(
            h,
            shore,
            route_end(g, start, steps.take(i)),
        ) <= route_cost(g, shore, start, steps) + estimate(h, shore, route_end(g, start, steps)),
    decreases steps.len(),
{
    if i == steps.len() {
        assert(steps.take(i) =~= steps);
    } else {
        let head = steps.drop_last();
        lemma_consistent_route(g, shore, h, start, head, i);
        lemma_route_in_range(g, start, head);
        assert(head.take(i) =~= steps.take(i));
        let u = route_end(g, start, head);
        assert(estimate(h, shore, u) <= edge_cost(g, shore, g.adj(u)[steps.last()]) + estimate(
            h,
            shore,
            g.adj(u)[steps.last()].0 as int,
        ));
    }
}

/// Where every node keeps the clearance, the penalty changes nothing: every
/// route costs what it does without, counted in the finer unit.
pub proof fn lemma_offshore_penalty_is_identity<P>(
    g: &RoutingGraph<P>,
    p: ShorePenalty,
    start: int,
    steps: Seq<int>,
)
    requires
        g.wf(),
        0 <= start < g.num_nodes,
        p.buffer_q > 0,
        forall|v: int| 0 <= v < g.num_nodes ==> #[trigger] g.shore_dist@[v] >= p.buffer_q,
        route_ok(g, start, steps),
    ensures
        route_cost(g, Some(p), start, steps) == p.buffer_q * route_cost(g, None, start, steps),
    decreases steps.len(),
{
    if steps.len() > 0 {
        let head = steps.drop_last();
        lemma_offshore_penalty_is_identity(g, p, start, head);
        lemma_route_in_range(g, start, head);
        let u = route_end(g, start, head);
        assert(g.node_valid(u));
        let e = g.adj(u)[steps.last()];
        assert(g.shore_dist@[e.0 as int] >= p.buffer_q);
        let before = route_cost(g, None, start, head);
        assert(p.buffer_q * (before + e.1) == p.buffer_q * before + e.1 * p.buffer_q)
            by (nonlinear_arith);
    } else {
        assert(p.buffer_q * 0 == 0);
    }
}

/// The penalty never makes an edge cheaper, and makes it at most sixteen times
/// as dear.
pub proof fn lemma_penalty_bounds(shore: Option<ShorePenalty>, weight: u16, d: u8)
    ensures
        weight * cost_scale(shore) <= penalized(shore, weight, d) <= 16 * (weight * cost_scale(
            shore,
        )),
{
    match shore {
        Some(p) if p.buffer_q > 0 => {
            let q = p.buffer_q as int;
            let num = p.numerator(d);
            assert(weight * q <= weight * num <= 16 * (weight * q)) by (nonlinear_arith)
                requires
                    q <= num <= 16 * q,
                    0 <= weight,
            ;
        },
        _ => {
            assert(weight * 1 == weight);
        },
    }
}

/// Each two nodes that follow on each other on a path are joined by an edge, the one that
/// the step takes, and the cost grows by what that edge costs.
pub proof fn lemma_path_by_edges<P>(
    g: &RoutingGraph<P>,
    shore: Option<ShorePenalty>,
    start: int,
    steps: Seq<int>,
    path: Seq<u32>,
    i: int,
)
    requires
        route_ok(g, start, steps),
        passes(g, start, steps, path),
        0 <= i < steps.len(),
    ensures
        path.len() == steps.len() + 1,
        0 <= steps[i] < g.adj(path[i] as int).len(),
        g.adj(path[i] as int)[steps[i]].0 == path[i + 1],
        route_cost(g, shore, start, steps.take(i + 1)) == route_cost(g, shore, start, steps.take(i))
            + edge_cost(g, shore, g.adj(path[i] as int)[steps[i]]),
        route_cost(g, shore, start, steps.take(0)) == 0,
        steps.take(steps.len() as int) == steps,
{
    let more = steps.take(i + 1);
    lemma_route_prefix(g, start, steps, i + 1);
    assert(more.drop_last() =~= steps.take(i));
    assert(more.last() == steps[i]);
    assert(path[i] == route_end(g, start, steps.take(i)));
    assert(path[i + 1] == route_end(g, start, steps.take(i + 1)));
    assert(steps.take(steps.len() as int) =~= steps);
}

/// The nodes of a path are nodes of the graph, from the start to the goal.
pub proof fn lemma_path_in_range<P>(g: &RoutingGraph<P>, start: int, goal: int, path: Seq<u32>)
    requires
        g.wf(),
        0 <= start < g.num_nodes,
        exists|steps: Seq<int>| #[trigger]
            leads_to(g, start, goal, steps) && passes(g, start, steps, path),
    ensures
        path.len() > 0,
        path[0] == start,
        path.last() == goal,
        forall|i: int| 0 <= i < path.len() ==> #[trigger] path[i] < g.num_nodes,
{
    let steps = choose|steps: Seq<int>| #[trigger]
        leads_to(g, start, goal, steps) && passes(g, start, steps, path);
    assert forall|i: int| 0 <= i < path.len() implies #[trigger] path[i] < g.num_nodes by {
        lemma_route_prefix(g, start, steps, i);
        lemma_route_in_range(g, start, steps.take(i));
    }
    assert(steps.take(steps.len() as int) =~= steps);
    assert(path[path.len() - 1] == route_end(g, start, steps.take(steps.len() as int)));
    assert(steps.take(0) =~= Seq::<int>::empty());
    assert(path[0] == route_end(g, start, steps.take(0)));
}

pub proof fn lemma_route_prefix<P>(g: &RoutingGraph<P>, start: int, steps: Seq<int>, i: int)
    requires
        route_ok(g, start, steps),
        0 <= i <= steps.len(),
    ensures
        route_ok(g, start, steps.take(i)),
    decreases steps.len(),
{
    if i == steps.len() {
        assert(steps.take(i) =~= steps);
    } else {
        lemma_route_prefix(g, start, steps.drop_last(), i);
        assert(steps.drop_last().take(i) =~= steps.take(i));
    }
}

} // verus!
