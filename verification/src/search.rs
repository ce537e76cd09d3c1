//! A* over the routing graph.

use vstd::prelude::*;
use vstd::multiset::Multiset;
use crate::astar_pool::{AstarBuffers, UNREACHED};
use crate::board::{
    after_edge, after_edges, after_entry, board_after, board_of, first_board, is_end,
    is_trail, lemma_first_of, lemma_one_outcome, outcome, Board, Task,
};
use crate::edge_list::{targets_below, Edge};
use crate::graph::{RoutingGraph, CENTI_NM};
use crate::heap::MinHeap;
use crate::oracle::{function1, value1};
use crate::routing::{
    consistent, cost_scale, leads_to, lemma_consistent_route, lemma_prepend, lemma_route_in_range,
    lemma_route_prefix, passes, penalized_cost, route_cost, route_end, route_ok, scale_of,
    within_reach, ShorePenalty, MAX_COST, MAX_DISTANCE,
};
use crate::sort::{keyed_le, Keyed};

verus! {

/// A node was reached.
spec fn reached(b: &AstarBuffers, v: int) -> bool {
    b.dist(v) < UNREACHED
}

/// The predecessor of `v` was expanded, and one of its edges leads to `v` at
/// the cost found.
spec fn has_pred<'a, P>(t: Task<'a, P>, b: &AstarBuffers, v: int) -> bool {
    let u = b.came_from@[v] as int;
    &&& 0 <= u < t.n()
    &&& b.is_closed(u)
    &&& exists|k: int|
        0 <= k < t.g.adj(u).len() && (#[trigger] t.g.adj(u)[k]).0 == v && b.dist(v) == b.dist(u)
            + t.cost(t.g.adj(u)[k])
}

/// The edges in `list`, which leave `u`, were followed.
spec fn followed<'a, P>(
    t: Task<'a, P>,
    b: &AstarBuffers,
    u: int,
    list: Seq<Edge>,
) -> bool {
    forall|k: int|
        0 <= k < list.len() ==> {
            let v = (#[trigger] list[k]).0 as int;
            reached(b, v) && (b.is_closed(v) || b.dist(v) <= b.dist(u) + t.cost(list[k]))
        }
}

/// No route from the start to `u` costs less than what was found.
spec fn optimal<'a, P>(t: Task<'a, P>, b: &AstarBuffers, u: int) -> bool {
    forall|steps: Seq<int>| #[trigger]
        leads_to(t.g, t.start, u, steps) ==> b.dist(u) <= route_cost(
            t.g,
            t.shore,
            t.start,
            steps,
        )
}

/// The expanded nodes are those in `order`, each once, and were reached; the
/// goal is none of them.
#[verifier::opaque]
spec fn closed_ok<'a, P>(
    t: Task<'a, P>,
    b: &AstarBuffers,
    order: Seq<int>,
) -> bool {
    &&& order.no_duplicates()
    &&& forall|i: int| 0 <= i < order.len() ==> 0 <= #[trigger] order[i] < t.n()
    &&& forall|v: int| 0 <= v < t.n() ==> (#[trigger] b.is_closed(v) <==> order.contains(v))
    &&& forall|v: int| 0 <= v < t.n() && #[trigger] b.is_closed(v) ==> reached(b, v)
    &&& !b.is_closed(t.goal)
}

/// The start costs nothing and is expanded first.
#[verifier::opaque]
spec fn start_ok<'a, P>(
    t: Task<'a, P>,
    b: &AstarBuffers,
    order: Seq<int>,
) -> bool {
    &&& b.dist(t.start) == 0
    &&& order.len() > 0 ==> order[0] == t.start
    &&& order.len() == 0 ==> forall|v: int|
        0 <= v < t.n() && v != t.start ==> #[trigger] b.dist(v) == UNREACHED
}

/// Every node that was reached has a predecessor; that of an expanded node was
/// expanded before it.
#[verifier::opaque]
spec fn preds_ok<'a, P>(
    t: Task<'a, P>,
    b: &AstarBuffers,
    order: Seq<int>,
) -> bool {
    &&& forall|v: int|
        0 <= v < t.n() && v != t.start && #[trigger] reached(b, v) ==> has_pred(t, b, v)
    &&& forall|i: int|
        0 < i < order.len() ==> #[trigger] order.take(i).contains(b.came_from@[order[i]] as int)
}

/// Costs grow with the number of expanded nodes, and estimates are filled in.
#[verifier::opaque]
spec fn scores_ok<'a, P>(
    t: Task<'a, P>,
    b: &AstarBuffers,
    order: Seq<int>,
) -> bool {
    &&& forall|v: int|
        0 <= v < t.n() && #[trigger] reached(b, v) ==> b.dist(v) <= order.len() * MAX_COST
    &&& forall|v: int|
        0 <= v < t.n() && #[trigger] b.touched(v) ==> b.h_score@[v] == t.est(v)
}

/// The open list holds, for every node reached but not expanded, an entry with
/// its cost and estimate, and no entry with less.
#[verifier::opaque]
spec fn open_ok<'a, P>(
    t: Task<'a, P>,
    b: &AstarBuffers,
    open: Multiset<Keyed>,
) -> bool {
    &&& forall|e: Keyed| #[trigger]
        open.count(e) > 0 ==> e.1 < t.n() && reached(b, e.1 as int) && e.0 >= b.dist(e.1 as int)
            + t.est(e.1 as int)
    &&& forall|v: int|
        0 <= v < t.n() && #[trigger] reached(b, v) && !b.is_closed(v) ==> open.count(
            ((b.dist(v) + t.est(v)) as u64, v as u32),
        ) > 0
}

/// The edges of every expanded node but `current` were followed.
#[verifier::opaque]
spec fn edges_ok<'a, P>(
    t: Task<'a, P>,
    b: &AstarBuffers,
    current: int,
) -> bool {
    forall|u: int|
        0 <= u < t.n() && #[trigger] b.is_closed(u) && u != current ==> followed(
            t,
            b,
            u,
            t.g.adj(u),
        )
}

/// Where the estimate is consistent, the costs of expanded nodes are final.
#[verifier::opaque]
spec fn optimal_ok<'a, P>(t: Task<'a, P>, b: &AstarBuffers) -> bool {
    consistent(t.g, t.shore, t.h) ==> forall|u: int|
        0 <= u < t.n() && #[trigger] b.is_closed(u) ==> optimal(t, b, u)
}

/// The state of the search but for what `current` still has to do. `order` lists
/// the expanded nodes.
spec fn searching<'a, P>(
    t: Task<'a, P>,
    b: &AstarBuffers,
    open: Multiset<Keyed>,
    order: Seq<int>,
    current: int,
) -> bool {
    &&& t.ok()
    &&& b.wf(t.n() as nat)
    &&& closed_ok(t, b, order)
    &&& start_ok(t, b, order)
    &&& preds_ok(t, b, order)
    &&& scores_ok(t, b, order)
    &&& open_ok(t, b, open)
    &&& edges_ok(t, b, current)
    &&& optimal_ok(t, b)
}

proof fn lemma_estimate_bound<'a, P>(t: Task<'a, P>, v: int)
    requires
        t.ok(),
        0 <= v < t.n(),
    ensures
        0 <= t.est(v) <= 0x10_0000_0000,
{
    let x = (t.h)(v);
    let s = cost_scale(t.shore);
    assert(0 <= x * s <= 255 * MAX_DISTANCE) by (nonlinear_arith)
        requires
            0 <= x <= MAX_DISTANCE,
            1 <= s <= 255,
    ;
}

/// The expanded nodes are no more than there are nodes.
proof fn lemma_order_len(order: Seq<int>, n: int)
    requires
        n >= 0,
        order.no_duplicates(),
        forall|i: int| 0 <= i < order.len() ==> 0 <= #[trigger] order[i] < n,
    ensures
        order.len() <= n,
{
    let all = vstd::set_lib::set_int_range(0, n);
    vstd::set_lib::lemma_int_range(0, n);
    order.unique_seq_to_set();
    assert(order.to_set().subset_of(all));
    vstd::set_lib::lemma_len_subset(order.to_set(), all);
}

/// On every route to a node that was not expanded lies one, reached but not
/// expanded, whose cost found is at most that of the route so far.
proof fn lemma_frontier<'a, P>(
    t: Task<'a, P>,
    b: &AstarBuffers,
    open: Multiset<Keyed>,
    order: Seq<int>,
    steps: Seq<int>,
) -> (i: int)
    requires
        searching(t, b, open, order, -1),
        consistent(t.g, t.shore, t.h),
        route_ok(t.g, t.start, steps),
        !b.is_closed(route_end(t.g, t.start, steps)),
    ensures
        0 <= i <= steps.len(),
        ({
            let y = route_end(t.g, t.start, steps.take(i));
            &&& 0 <= y < t.n()
            &&& reached(b, y)
            &&& !b.is_closed(y)
            &&& b.dist(y) <= route_cost(t.g, t.shore, t.start, steps.take(i))
        }),
    decreases steps.len(),
{
    reveal(start_ok);
    reveal(edges_ok);
    reveal(optimal_ok);
    if steps.len() == 0 {
        assert(steps.take(0) =~= steps);
        0
    } else {
        let head = steps.drop_last();
        let u = route_end(t.g, t.start, head);
        lemma_route_in_range(t.g, t.start, head);
        if b.is_closed(u) {
            assert(leads_to(t.g, t.start, u, head));
            assert(optimal(t, b, u));
            assert(followed(t, b, u, t.g.adj(u)));
            let e = t.g.adj(u)[steps.last()];
            assert(reached(b, e.0 as int));
            assert(t.g.node_valid(u));
            assert(steps.take(steps.len() as int) =~= steps);
            steps.len() as int
        } else {
            let i = lemma_frontier(t, b, open, order, head);
            assert(head.take(i) =~= steps.take(i));
            i
        }
    }
}

/// The least entry of the open list belongs to a node whose cost is final.
proof fn lemma_least_is_optimal<'a, P>(
    t: Task<'a, P>,
    b: &AstarBuffers,
    open: Multiset<Keyed>,
    order: Seq<int>,
    least: Keyed,
)
    requires
        searching(t, b, open, order, -1),
        consistent(t.g, t.shore, t.h),
        open.count(least) > 0,
        forall|x: Keyed| #[trigger] open.count(x) > 0 ==> keyed_le(least, x),
        !b.is_closed(least.1 as int),
    ensures
        optimal(t, b, least.1 as int),
{
    reveal(scores_ok);
    reveal(open_ok);
    let v = least.1 as int;
    assert forall|steps: Seq<int>| #[trigger] leads_to(t.g, t.start, v, steps) implies b.dist(v)
        <= route_cost(t.g, t.shore, t.start, steps) by {
        let i = lemma_frontier(t, b, open, order, steps);
        let y = route_end(t.g, t.start, steps.take(i));
        lemma_consistent_route(t.g, t.shore, t.h, t.start, steps, i);
        lemma_estimate_bound(t, y);
        assert(order.len() <= t.n()) by {
            reveal(closed_ok);
            lemma_order_len(order, t.n());
        }
        assert(b.dist(y) <= order.len() * MAX_COST);
        let key = ((b.dist(y) + t.est(y)) as u64, y as u32);
        assert(reached(b, y));
        assert(open.count(key) > 0);
        assert(keyed_le(least, key));
        assert(least.0 >= b.dist(v) + t.est(v));
    }
}

/// `f` can be called on every node and gives the values of `h`.
pub open spec fn gives<H: Fn(u32) -> u64>(f: H, h: spec_fn(int) -> u64) -> bool {
    &&& forall|v: u32| #[trigger] call_requires(f, (v,))
    &&& forall|v: u32, x: u64| #[trigger] call_ensures(f, (v,), x) ==> x == h(v as int)
}

/// Nothing but the entries of `v` differs.
spec fn same_but(a: &AstarBuffers, b: &AstarBuffers, v: int) -> bool {
    &&& a.current_gen == b.current_gen
    &&& a.gen@.len() == b.gen@.len()
    &&& forall|x: int|
        0 <= x < a.gen@.len() && x != v ==> {
            &&& #[trigger] a.touched(x) == b.touched(x)
            &&& a.dist(x) == b.dist(x)
            &&& a.is_closed(x) == b.is_closed(x)
            &&& a.came_from@[x] == b.came_from@[x]
            &&& a.h_score@[x] == b.h_score@[x]
        }
}

/// Makes the entries of `node` count, and fills in its estimate the first time.
fn touch_and_cache_h<P, H: Fn(u32) -> u64>(
    buffers: &mut AstarBuffers,
    node: u32,
    h: &H,
    shore: Option<ShorePenalty>,
    Ghost(t): Ghost<Task<'_, P>>,
)
    requires
        t.ok(),
        gives(*h, t.h),
        shore == t.shore,
        node < t.n(),
        old(buffers).wf(t.n() as nat),
        old(buffers).touched(node as int) ==> old(buffers).h_score@[node as int] == t.est(
            node as int,
        ),
    ensures
        final(buffers).wf(t.n() as nat),
        same_but(final(buffers), old(buffers), node as int),
        final(buffers).touched(node as int),
        final(buffers).dist(node as int) == old(buffers).dist(node as int),
        final(buffers).is_closed(node as int) == old(buffers).is_closed(node as int),
        old(buffers).touched(node as int) ==> final(buffers).came_from@[node as int] == old(
            buffers,
        ).came_from@[node as int],
        final(buffers).came(node as int) == old(buffers).came(node as int),
        final(buffers).h_score@[node as int] == t.est(node as int),
{
    if buffers.touch(node) {
        let ghost mid = *buffers;
        let micro_nm: u64 = h(node);
        let scale: u64 = scale_of(shore);
        proof {
            assert(micro_nm == (t.h)(node as int));
            assert((t.h)(node as int) <= MAX_DISTANCE);
            assert(0 <= micro_nm * scale <= 255 * MAX_DISTANCE) by (nonlinear_arith)
                requires
                    0 <= micro_nm <= MAX_DISTANCE,
                    1 <= scale <= 255,
            ;
        }
        let est: u64 = (micro_nm * scale) / CENTI_NM as u64;
        buffers.h_score.set(node as usize, est);
    }
}

/// Follows the edge `e` of `current`, which is being expanded.
fn relax<P, H: Fn(u32) -> u64>(
    g: &RoutingGraph<P>,
    buffers: &mut AstarBuffers,
    open: &mut MinHeap,
    current: u32,
    current_g: u64,
    e: Edge,
    h: &H,
    shore: Option<ShorePenalty>,
    Ghost(t): Ghost<Task<'_, P>>,
    Ghost(order): Ghost<Seq<int>>,
    Ghost(seen): Ghost<Seq<Edge>>,
)
    requires
        g == t.g,
        gives(*h, t.h),
        shore == t.shore,
        old(open).wf(),
        searching(t, old(buffers), old(open)@, order, current as int),
        current < t.n(),
        old(buffers).is_closed(current as int),
        reached(old(buffers), current as int),
        current_g == old(buffers).dist(current as int),
        current_g <= (order.len() - 1) * MAX_COST,
        followed(t, old(buffers), current as int, seen),
        seen.len() < t.g.adj(current as int).len(),
        t.g.adj(current as int)[seen.len() as int] == e,
        t.g.adj(current as int).take(seen.len() as int) == seen,
    ensures
        final(open).wf(),
        searching(t, final(buffers), final(open)@, order, current as int),
        final(buffers).is_closed(current as int),
        final(buffers).dist(current as int) == old(buffers).dist(current as int),
        followed(t, final(buffers), current as int, seen.push(e)),
        board_of(final(buffers), final(open)@) == after_edge(
            t,
            board_of(old(buffers), old(open)@),
            current as int,
            e,
        ),
{
    let neighbor: u32 = e.0;
    let ghost v = neighbor as int;
    let ghost b0 = *buffers;
    let ghost open0 = open@;
    proof {
        assert(t.g.node_valid(current as int));
        lemma_estimate_bound(t, v);
        assert(order.len() <= t.n() && (b0.is_closed(v) ==> reached(&b0, v))) by {
            reveal(closed_ok);
            lemma_order_len(order, t.n());
        }
        assert(b0.touched(v) ==> b0.h_score@[v] == t.est(v)) by {
            reveal(scores_ok);
        }
        assert forall|k: int| 0 <= k < seen.len() implies (#[trigger] seen[k]).0 < t.n() by {
            assert(seen[k] == t.g.adj(current as int)[k]);
        }
    }
    touch_and_cache_h::<P, H>(buffers, neighbor, h, shore, Ghost(t));
    let ghost b1 = *buffers;
    proof {
        lemma_touch_keeps_board(&b0, &b1, open0, v);
    }
    if buffers.closed[neighbor as usize] {
        proof {
            lemma_touch_keeps(t, &b0, &b1, open0, order, current as int, v, seen);
            lemma_followed_push(t, &b1, current as int, seen, e);
        }
        return;
    }
    let cost: u64 = penalized_cost(shore, e.1, g.shore_dist[neighbor as usize]);
    let tentative_g: u64 = current_g + cost;
    proof {
        lemma_touch_keeps(t, &b0, &b1, open0, order, current as int, v, seen);
    }
    if tentative_g < buffers.g_score[neighbor as usize] {
        buffers.g_score.set(neighbor as usize, tentative_g);
        buffers.came_from.set(neighbor as usize, current);
        let f: u64 = tentative_g + buffers.h_score[neighbor as usize];
        open.push((f, neighbor));
        proof {
            lemma_relax_keeps(
                t,
                &b1,
                buffers,
                open0,
                open@,
                order,
                current as int,
                e,
                seen,
                tentative_g,
            );
            lemma_relax_board(t, &b1, buffers, open0, current as int, e, tentative_g);
        }
    } else {
        proof {
            lemma_followed_push(t, &b1, current as int, seen, e);
        }
    }
}

/// Touching a node changes nothing that is known.
proof fn lemma_touch_keeps_board(
    b0: &AstarBuffers,
    b1: &AstarBuffers,
    open: Multiset<Keyed>,
    v: int,
)
    requires
        same_but(b1, b0, v),
        0 <= v < b0.gen@.len(),
        b1.dist(v) == b0.dist(v),
        b1.is_closed(v) == b0.is_closed(v),
        b1.came(v) == b0.came(v),
    ensures
        board_of(b1, open) == board_of(b0, open),
{
    let x = board_of(b1, open);
    let y = board_of(b0, open);
    assert forall|u: int| 0 <= u < b0.gen@.len() implies x.dist[u] == y.dist[u] && x.came[u]
        == y.came[u] && x.closed[u] == y.closed[u] by {
        if u != v {
            assert(b1.touched(u) == b0.touched(u));
        }
    }
    assert(x.dist =~= y.dist && x.came =~= y.came && x.closed =~= y.closed);
}

/// A shorter way to a node is noted on the board.
proof fn lemma_relax_board<'a, P>(
    t: Task<'a, P>,
    b1: &AstarBuffers,
    b2: &AstarBuffers,
    open: Multiset<Keyed>,
    u: int,
    e: Edge,
    d: u64,
)
    requires
        b1.wf(t.n() as nat),
        same_but(b2, b1, e.0 as int),
        e.0 < t.n(),
        0 <= u < t.n(),
        u <= u32::MAX,
        b1.touched(e.0 as int),
        b2.touched(e.0 as int),
        !b1.is_closed(e.0 as int),
        !b2.is_closed(e.0 as int),
        d == b1.dist(u) + t.cost(e),
        d < b1.dist(e.0 as int),
        b2.dist(e.0 as int) == d,
        b2.came_from@[e.0 as int] == u,
    ensures
        board_of(b2, open.insert(((d + t.est(e.0 as int)) as u64, e.0))) == after_edge(
            t,
            board_of(b1, open),
            u,
            e,
        ),
{
    let v = e.0 as int;
    let x = board_of(b2, open.insert(((d + t.est(v)) as u64, e.0)));
    let y = after_edge(t, board_of(b1, open), u, e);
    assert forall|w: int| 0 <= w < t.n() implies x.dist[w] == y.dist[w] && x.came[w] == y.came[w]
        && x.closed[w] == y.closed[w] by {
        if w != v {
            assert(b2.touched(w) == b1.touched(w));
        }
    }
    assert(x.dist =~= y.dist && x.came =~= y.came && x.closed =~= y.closed);
}

proof fn lemma_followed_push<'a, P>(
    t: Task<'a, P>,
    b: &AstarBuffers,
    u: int,
    seen: Seq<Edge>,
    e: Edge,
)
    requires
        followed(t, b, u, seen),
        reached(b, e.0 as int),
        b.is_closed(e.0 as int) || b.dist(e.0 as int) <= b.dist(u) + t.cost(e),
    ensures
        followed(t, b, u, seen.push(e)),
{
}

/// Touching a node keeps the state of the search.
proof fn lemma_touch_keeps<'a, P>(
    t: Task<'a, P>,
    b0: &AstarBuffers,
    b1: &AstarBuffers,
    open: Multiset<Keyed>,
    order: Seq<int>,
    current: int,
    v: int,
    seen: Seq<Edge>,
)
    requires
        searching(t, b0, open, order, current),
        0 <= v < t.n(),
        0 <= current < t.n(),
        b1.wf(t.n() as nat),
        same_but(b1, b0, v),
        b1.touched(v),
        b1.dist(v) == b0.dist(v),
        b1.is_closed(v) == b0.is_closed(v),
        b0.touched(v) ==> b1.came_from@[v] == b0.came_from@[v],
        b1.h_score@[v] == t.est(v),
        followed(t, b0, current, seen),
        targets_below(seen, t.n()),
    ensures
        searching(t, b1, open, order, current),
        followed(t, b1, current, seen),
{
    assert forall|x: int| 0 <= x < t.n() implies b1.dist(x) == b0.dist(x) && b1.is_closed(x)
        == b0.is_closed(x) && (#[trigger] reached(b1, x)) == reached(b0, x) && (reached(b1, x)
        ==> b1.came_from@[x] == b0.came_from@[x]) by {
        assert(x != v ==> b1.touched(x) == b0.touched(x));
    }
    assert(forall|x: int|
        0 <= x < t.n() ==> (#[trigger] reached(b1, x)) == reached(b0, x) && b1.dist(x) <= b0.dist(
            x,
        ) && b1.is_closed(x) == b0.is_closed(x));
    assert(closed_ok(t, b1, order)) by {
        reveal(closed_ok);
        assert forall|x: int| 0 <= x < t.n() implies (#[trigger] b1.is_closed(x)
            <==> order.contains(x)) by {
            assert(reached(b1, x) == reached(b0, x));
            assert(b0.is_closed(x) <==> order.contains(x));
        }
        assert(reached(b1, t.goal) == reached(b0, t.goal));
    }
    assert(start_ok(t, b1, order)) by {
        reveal(start_ok);
        assert(reached(b1, t.start) == reached(b0, t.start));
        if order.len() == 0 {
            assert forall|x: int| 0 <= x < t.n() && x != t.start implies #[trigger] b1.dist(x)
                == UNREACHED by {
                assert(reached(b1, x) == reached(b0, x));
                assert(b0.dist(x) == UNREACHED);
            }
        }
    }
    assert(preds_ok(t, b1, order)) by {
        reveal(preds_ok);
        assert forall|x: int|
            0 <= x < t.n() && x != t.start && #[trigger] reached(b1, x) implies has_pred(
            t,
            b1,
            x,
        ) by {
            assert(reached(b0, x));
            assert(has_pred(t, b0, x));
            let u = b0.came_from@[x] as int;
            assert(reached(b1, u) == reached(b0, u));
        }
        assert forall|i: int| 0 < i < order.len() implies #[trigger] order.take(i).contains(
            b1.came_from@[order[i]] as int,
        ) by {
            assert(order.take(i).contains(b0.came_from@[order[i]] as int));
            reveal(closed_ok);
            assert(order.contains(order[i]));
            assert(b0.is_closed(order[i]));
            assert(reached(b1, order[i]) == reached(b0, order[i]));
        }
    }
    assert(scores_ok(t, b1, order)) by {
        reveal(scores_ok);
        assert forall|x: int| 0 <= x < t.n() && #[trigger] b1.touched(x) implies b1.h_score@[x]
            == t.est(x) by {
            if x != v {
                assert(b0.touched(x));
            }
        }
        assert forall|x: int| 0 <= x < t.n() && #[trigger] reached(b1, x) implies b1.dist(x)
            <= order.len() * MAX_COST by {
            assert(reached(b0, x));
        }
    }
    assert(open_ok(t, b1, open)) by {
        reveal(open_ok);
        assert forall|e: Keyed| #[trigger] open.count(e) > 0 implies e.1 < t.n() && reached(
            b1,
            e.1 as int,
        ) && e.0 >= b1.dist(e.1 as int) + t.est(e.1 as int) by {
            assert(reached(b1, e.1 as int) == reached(b0, e.1 as int));
        }
        assert forall|x: int|
            0 <= x < t.n() && #[trigger] reached(b1, x) && !b1.is_closed(x) implies open.count(
            ((b1.dist(x) + t.est(x)) as u64, x as u32),
        ) > 0 by {
            assert(reached(b0, x));
        }
    }
    assert(edges_ok(t, b1, current)) by {
        reveal(edges_ok);
        assert forall|u: int|
            0 <= u < t.n() && #[trigger] b1.is_closed(u) && u != current implies followed(
            t,
            b1,
            u,
            t.g.adj(u),
        ) by {
            assert(reached(b1, u) == reached(b0, u));
            assert(b0.is_closed(u));
            assert(followed(t, b0, u, t.g.adj(u)));
            assert(t.g.node_valid(u));
            lemma_followed_kept(t, b0, b1, u, t.g.adj(u));
        }
    }
    assert(optimal_ok(t, b1)) by {
        reveal(optimal_ok);
        if consistent(t.g, t.shore, t.h) {
            assert forall|u: int| 0 <= u < t.n() && #[trigger] b1.is_closed(u) implies optimal(
                t,
                b1,
                u,
            ) by {
                assert(reached(b1, u) == reached(b0, u));
                assert(b0.is_closed(u));
                assert(optimal(t, b0, u));
            }
        }
    }
    assert(reached(b1, current) == reached(b0, current));
    lemma_followed_kept(t, b0, b1, current, seen);
}

/// A cheaper way to a node that was not expanded keeps the state of the search.
proof fn lemma_relax_keeps<'a, P>(
    t: Task<'a, P>,
    b1: &AstarBuffers,
    b2: &AstarBuffers,
    open1: Multiset<Keyed>,
    open2: Multiset<Keyed>,
    order: Seq<int>,
    current: int,
    e: Edge,
    seen: Seq<Edge>,
    tentative: u64,
)
    requires
        searching(t, b1, open1, order, current),
        0 <= current < t.n(),
        b1.is_closed(current),
        followed(t, b1, current, seen),
        targets_below(seen, t.n()),
        e.0 < t.n(),
        seen.len() < t.g.adj(current).len(),
        t.g.adj(current)[seen.len() as int] == e,
        b1.touched(e.0 as int),
        !b1.is_closed(e.0 as int),
        tentative == b1.dist(current) + t.cost(e),
        tentative < b1.dist(e.0 as int),
        tentative <= order.len() * MAX_COST,
        b2.wf(t.n() as nat),
        same_but(b2, b1, e.0 as int),
        b2.touched(e.0 as int),
        !b2.is_closed(e.0 as int),
        b2.dist(e.0 as int) == tentative,
        b2.came_from@[e.0 as int] == current,
        b2.h_score@[e.0 as int] == t.est(e.0 as int),
        tentative + t.est(e.0 as int) <= u64::MAX,
        open2 == open1.insert(((tentative + t.est(e.0 as int)) as u64, e.0)),
    ensures
        searching(t, b2, open2, order, current),
        followed(t, b2, current, seen.push(e)),
        b2.dist(current) == b1.dist(current),
        b2.is_closed(current),
{
    let v = e.0 as int;
    assert(current != v);
    assert forall|x: int| 0 <= x < t.n() && x != v implies b2.dist(x) == b1.dist(x)
        && b2.is_closed(x) == b1.is_closed(x) && b2.came_from@[x] == b1.came_from@[x] && (
    #[trigger] reached(b2, x)) == reached(b1, x) by {
        assert(b2.touched(x) == b1.touched(x));
    }
    assert(reached(b2, current) == reached(b1, current));
    assert(order.len() > 0 && v != t.start) by {
        reveal(closed_ok);
        reveal(start_ok);
        assert(order.contains(current));
        assert(order.contains(order[0]));
        assert(b1.is_closed(t.start));
    }
    assert(closed_ok(t, b2, order)) by {
        reveal(closed_ok);
        assert forall|x: int| 0 <= x < t.n() implies (#[trigger] b2.is_closed(x)
            <==> order.contains(x)) && (b2.is_closed(x) ==> reached(b2, x)) by {
            assert(x != v ==> reached(b2, x) == reached(b1, x));
            assert(b1.is_closed(x) <==> order.contains(x));
        }
        assert(t.goal != v ==> reached(b2, t.goal) == reached(b1, t.goal));
    }
    assert(start_ok(t, b2, order)) by {
        reveal(start_ok);
        assert(reached(b2, t.start) == reached(b1, t.start));
    }
    assert(preds_ok(t, b2, order)) by {
        reveal(preds_ok);
        assert forall|x: int|
            0 <= x < t.n() && x != t.start && #[trigger] reached(b2, x) implies has_pred(
            t,
            b2,
            x,
        ) by {
            if x == v {
                assert(t.g.adj(current)[seen.len() as int].0 == v);
            } else {
                assert(reached(b1, x));
                assert(has_pred(t, b1, x));
                let u = b1.came_from@[x] as int;
                assert(u != v);
                assert(reached(b2, u) == reached(b1, u));
            }
        }
        assert forall|i: int| 0 < i < order.len() implies #[trigger] order.take(i).contains(
            b2.came_from@[order[i]] as int,
        ) by {
            assert(order.take(i).contains(b1.came_from@[order[i]] as int));
            reveal(closed_ok);
            assert(order.contains(order[i]));
            assert(b1.is_closed(order[i]));
            assert(reached(b2, order[i]) == reached(b1, order[i]));
        }
    }
    assert(scores_ok(t, b2, order)) by {
        reveal(scores_ok);
        assert forall|x: int| 0 <= x < t.n() && #[trigger] b2.touched(x) implies b2.h_score@[x]
            == t.est(x) by {
            if x != v {
                assert(b1.touched(x));
            }
        }
        assert forall|x: int| 0 <= x < t.n() && #[trigger] reached(b2, x) implies b2.dist(x)
            <= order.len() * MAX_COST by {
            if x != v {
                assert(reached(b1, x));
            }
        }
    }
    assert(edges_ok(t, b2, current)) by {
        reveal(edges_ok);
        assert forall|u: int|
            0 <= u < t.n() && #[trigger] b2.is_closed(u) && u != current implies followed(
            t,
            b2,
            u,
            t.g.adj(u),
        ) by {
            assert(u != v);
            assert(reached(b2, u) == reached(b1, u));
            assert(b1.is_closed(u));
            assert(followed(t, b1, u, t.g.adj(u)));
            assert(t.g.node_valid(u));
            lemma_followed_lower(t, b1, b2, u, v, t.g.adj(u));
        }
    }
    lemma_followed_lower(t, b1, b2, current, v, seen);
    lemma_followed_push(t, b2, current, seen, e);
    assert(optimal_ok(t, b2)) by {
        reveal(optimal_ok);
        if consistent(t.g, t.shore, t.h) {
            assert forall|u: int| 0 <= u < t.n() && #[trigger] b2.is_closed(u) implies optimal(
                t,
                b2,
                u,
            ) by {
                assert(u != v);
                assert(reached(b2, u) == reached(b1, u));
                assert(b1.is_closed(u));
                assert(optimal(t, b1, u));
            }
        }
    }
    assert(open_ok(t, b2, open2)) by {
        reveal(open_ok);
        let entry = ((tentative + t.est(v)) as u64, e.0);
        assert forall|x: Keyed| #[trigger] open2.count(x) > 0 implies x.1 < t.n() && reached(
            b2,
            x.1 as int,
        ) && x.0 >= b2.dist(x.1 as int) + t.est(x.1 as int) by {
            if x != entry {
                assert(open1.count(x) > 0);
                if x.1 != v {
                    assert(reached(b2, x.1 as int) == reached(b1, x.1 as int));
                }
            }
        }
        assert forall|x: int|
            0 <= x < t.n() && #[trigger] reached(b2, x) && !b2.is_closed(x) implies open2.count(
            ((b2.dist(x) + t.est(x)) as u64, x as u32),
        ) > 0 by {
            if x != v {
                assert(reached(b1, x));
                assert(open1.count(((b1.dist(x) + t.est(x)) as u64, x as u32)) > 0);
            }
        }
    }
}

/// Followed edges stay followed when the cost of `v`, not expanded, falls.
proof fn lemma_followed_lower<'a, P>(
    t: Task<'a, P>,
    b1: &AstarBuffers,
    b2: &AstarBuffers,
    u: int,
    v: int,
    list: Seq<Edge>,
)
    requires
        followed(t, b1, u, list),
        targets_below(list, t.n()),
        forall|x: int|
            0 <= x < t.n() && x != v ==> (#[trigger] reached(b2, x)) == reached(b1, x)
                && b2.dist(x) == b1.dist(x) && b2.is_closed(x) == b1.is_closed(x),
        reached(b2, v),
        b2.dist(v) <= b1.dist(v),
        !b1.is_closed(v),
        b2.dist(u) == b1.dist(u),
    ensures
        followed(t, b2, u, list),
{
    assert forall|k: int| 0 <= k < list.len() implies ({
        let x = (#[trigger] list[k]).0 as int;
        reached(b2, x) && (b2.is_closed(x) || b2.dist(x) <= b2.dist(u) + t.cost(list[k]))
    }) by {
        let x = list[k].0 as int;
        assert(reached(b1, x));
        assert(x != v ==> reached(b2, x) == reached(b1, x));
    }
}

/// Lower costs of nodes that were not expanded keep followed edges followed.
proof fn lemma_followed_kept<'a, P>(
    t: Task<'a, P>,
    b0: &AstarBuffers,
    b1: &AstarBuffers,
    u: int,
    list: Seq<Edge>,
)
    requires
        followed(t, b0, u, list),
        targets_below(list, t.n()),
        forall|x: int|
            0 <= x < t.n() ==> (#[trigger] reached(b1, x)) == reached(b0, x) && b1.dist(x)
                <= b0.dist(x) && b1.is_closed(x) == b0.is_closed(x),
        b1.dist(u) == b0.dist(u),
    ensures
        followed(t, b1, u, list),
{
    assert forall|k: int| 0 <= k < list.len() implies ({
        let v = (#[trigger] list[k]).0 as int;
        reached(b1, v) && (b1.is_closed(v) || b1.dist(v) <= b1.dist(u) + t.cost(list[k]))
    }) by {
        let v = list[k].0 as int;
        assert(reached(b0, v));
        assert(reached(b1, v) == reached(b0, v));
    }
}

/// Expanding the node of the least entry keeps the state of the search.
proof fn lemma_close_keeps<'a, P>(
    t: Task<'a, P>,
    b0: &AstarBuffers,
    b1: &AstarBuffers,
    open: Multiset<Keyed>,
    order: Seq<int>,
    least: Keyed,
)
    requires
        searching(t, b0, open, order, -1),
        open.count(least) > 0,
        forall|x: Keyed| #[trigger] open.count(x) > 0 ==> keyed_le(least, x),
        !b0.is_closed(least.1 as int),
        least.1 != t.goal,
        b1.wf(t.n() as nat),
        same_but(b1, b0, least.1 as int),
        b1.touched(least.1 as int),
        b1.is_closed(least.1 as int),
        b1.dist(least.1 as int) == b0.dist(least.1 as int),
        b1.came_from@[least.1 as int] == b0.came_from@[least.1 as int],
        b1.h_score@[least.1 as int] == t.est(least.1 as int),
    ensures
        searching(t, b1, open.remove(least), order.push(least.1 as int), least.1 as int),
        b1.dist(least.1 as int) <= order.len() * MAX_COST,
{
    let c = least.1 as int;
    let order1 = order.push(c);
    let open1 = open.remove(least);
    assert(reached(b0, c) && c < t.n()) by {
        reveal(open_ok);
    }
    assert forall|x: int| 0 <= x < t.n() implies b1.dist(x) == b0.dist(x) && b1.came_from@[x]
        == b0.came_from@[x] && (x != c ==> b1.is_closed(x) == b0.is_closed(x)) && (
    #[trigger] reached(b1, x)) == reached(b0, x) by {
        assert(x != c ==> b1.touched(x) == b0.touched(x));
    }
    assert(b1.dist(c) <= order.len() * MAX_COST) by {
        reveal(scores_ok);
    }
    assert(closed_ok(t, b1, order1)) by {
        reveal(closed_ok);
        assert(!order.contains(c));
        assert(order1.no_duplicates());
        assert forall|v: int| 0 <= v < t.n() implies (#[trigger] b1.is_closed(v)
            <==> order1.contains(v)) && (b1.is_closed(v) ==> reached(b1, v)) by {
            assert(reached(b1, v) == reached(b0, v));
            if v == c {
                assert(order1[order.len() as int] == c);
            } else {
                assert(b0.is_closed(v) <==> order.contains(v));
                if order.contains(v) {
                    let i = choose|i: int| 0 <= i < order.len() && order[i] == v;
                    assert(order1[i] == v);
                }
                if order1.contains(v) {
                    let i = choose|i: int| 0 <= i < order1.len() && order1[i] == v;
                    assert(order[i] == v);
                }
            }
        }
        assert(reached(b1, t.goal) == reached(b0, t.goal));
    }
    assert(start_ok(t, b1, order1) && (order.len() > 0 ==> c != t.start) && (order.len() == 0
        ==> c == t.start)) by {
        reveal(start_ok);
        assert(reached(b1, t.start) == reached(b0, t.start));
        if order.len() == 0 {
            if c != t.start {
                assert(b0.dist(c) == UNREACHED);
            }
            assert(order1[0] == c);
        } else {
            assert(order1[0] == t.start);
            reveal(closed_ok);
            assert(order.contains(order[0]));
            assert(b0.is_closed(t.start));
        }
    }
    assert(preds_ok(t, b1, order1)) by {
        reveal(preds_ok);
        assert forall|v: int|
            0 <= v < t.n() && v != t.start && #[trigger] reached(b1, v) implies has_pred(
            t,
            b1,
            v,
        ) by {
            assert(reached(b0, v));
            assert(has_pred(t, b0, v));
            let u = b0.came_from@[v] as int;
            assert(reached(b1, u) == reached(b0, u));
        }
        assert forall|i: int| 0 < i < order1.len() implies #[trigger] order1.take(i).contains(
            b1.came_from@[order1[i]] as int,
        ) by {
            reveal(closed_ok);
            if i < order.len() {
                assert(order.take(i).contains(b0.came_from@[order[i]] as int));
                assert(order1.take(i) =~= order.take(i));
                assert(reached(b1, order[i]) == reached(b0, order[i]));
            } else {
                assert(order1.take(i) =~= order);
                assert(has_pred(t, b0, c));
                assert(reached(b1, c));
                assert(b0.is_closed(b0.came_from@[c] as int));
            }
        }
    }
    assert(scores_ok(t, b1, order1)) by {
        reveal(scores_ok);
        assert forall|x: int| 0 <= x < t.n() && #[trigger] b1.touched(x) implies b1.h_score@[x]
            == t.est(x) by {
            if x != c {
                assert(b0.touched(x));
            }
        }
        assert forall|v: int| 0 <= v < t.n() && #[trigger] reached(b1, v) implies b1.dist(v)
            <= order1.len() * MAX_COST by {
            assert(reached(b0, v));
        }
    }
    assert(edges_ok(t, b1, c)) by {
        reveal(edges_ok);
        assert forall|u: int|
            0 <= u < t.n() && #[trigger] b1.is_closed(u) && u != c implies followed(
            t,
            b1,
            u,
            t.g.adj(u),
        ) by {
            assert(reached(b1, u) == reached(b0, u));
            assert(b0.is_closed(u));
            let list = t.g.adj(u);
            assert(followed(t, b0, u, list));
            assert(t.g.node_valid(u));
            assert forall|k: int| 0 <= k < list.len() implies ({
                let v = (#[trigger] list[k]).0 as int;
                reached(b1, v) && (b1.is_closed(v) || b1.dist(v) <= b1.dist(u) + t.cost(list[k]))
            }) by {
                let v = list[k].0 as int;
                assert(reached(b1, v) == reached(b0, v));
            }
        }
    }
    assert(optimal_ok(t, b1)) by {
        reveal(optimal_ok);
        if consistent(t.g, t.shore, t.h) {
            lemma_least_is_optimal(t, b0, open, order, least);
            assert forall|u: int| 0 <= u < t.n() && #[trigger] b1.is_closed(u) implies optimal(
                t,
                b1,
                u,
            ) by {
                assert(reached(b1, u) == reached(b0, u));
                if u != c {
                    assert(b0.is_closed(u));
                }
                assert(optimal(t, b0, u));
            }
        }
    }
    assert(open_ok(t, b1, open1)) by {
        reveal(open_ok);
        assert forall|x: Keyed| #[trigger] open1.count(x) > 0 implies x.1 < t.n() && reached(
            b1,
            x.1 as int,
        ) && x.0 >= b1.dist(x.1 as int) + t.est(x.1 as int) by {
            assert(open.count(x) > 0);
            assert(reached(b1, x.1 as int) == reached(b0, x.1 as int));
        }
        assert forall|x: int|
            0 <= x < t.n() && #[trigger] reached(b1, x) && !b1.is_closed(x) implies open1.count(
            ((b1.dist(x) + t.est(x)) as u64, x as u32),
        ) > 0 by {
            assert(reached(b0, x));
            assert(x != c);
            assert(open.count(((b0.dist(x) + t.est(x)) as u64, x as u32)) > 0);
        }
    }
}

/// When nothing is open, every route ends at an expanded node.
proof fn lemma_all_expanded<'a, P>(
    t: Task<'a, P>,
    b: &AstarBuffers,
    order: Seq<int>,
    steps: Seq<int>,
)
    requires
        searching(t, b, Multiset::<Keyed>::empty(), order, -1),
        route_ok(t.g, t.start, steps),
    ensures
        b.is_closed(route_end(t.g, t.start, steps)),
    decreases steps.len(),
{
    reveal(start_ok);
    reveal(open_ok);
    reveal(edges_ok);
    if steps.len() == 0 {
        assert(reached(b, t.start));
    } else {
        let head = steps.drop_last();
        lemma_all_expanded(t, b, order, head);
        lemma_route_in_range(t.g, t.start, head);
        let u = route_end(t.g, t.start, head);
        assert(followed(t, b, u, t.g.adj(u)));
        assert(t.g.node_valid(u));
        let v = t.g.adj(u)[steps.last()].0 as int;
        assert(reached(b, v));
    }
}

/// `back` starts at the goal and goes to the predecessor of each node, none of
/// which is the start but perhaps the last.
#[verifier::opaque]
spec fn led_back(b: &AstarBuffers, start: int, goal: u32, back: Seq<u32>) -> bool {
    &&& back.len() > 0
    &&& back[0] == goal
    &&& forall|i: int|
        0 <= i < back.len() - 1 ==> 0 <= #[trigger] back[i] < b.gen@.len() && back[i] != start
            && back[i + 1] == b.came(back[i] as int)
}

proof fn lemma_led_back(b: &AstarBuffers, start: int, goal: u32, back: Seq<u32>, pred: u32)
    requires
        led_back(b, start, goal, back),
        back.last() != start,
        back.last() < b.gen@.len(),
        b.touched(back.last() as int),
        pred == b.came_from@[back.last() as int],
    ensures
        led_back(b, start, goal, back.push(pred)),
{
    reveal(led_back);
    let more = back.push(pred);
    assert forall|i: int| 0 <= i < more.len() - 1 implies 0 <= #[trigger] more[i] < b.gen@.len()
        && more[i] != start && more[i + 1] == b.came(more[i] as int) by {
        assert(more[i] == back[i]);
        if i < back.len() - 1 {
            assert(more[i + 1] == back[i + 1]);
        }
    }
}

/// Turned round, the way back is a trail.
proof fn lemma_trail(
    b: &AstarBuffers,
    open: Multiset<Keyed>,
    start: int,
    goal: u32,
    back: Seq<u32>,
    path: Seq<u32>,
)
    requires
        led_back(b, start, goal, back),
        back.last() == start,
        path.len() == back.len(),
        forall|j: int| 0 <= j < path.len() ==> #[trigger] path[j] == back[back.len() - 1 - j],
    ensures
        is_trail(board_of(b, open).came, start, goal as int, path),
{
    reveal(led_back);
    let came = board_of(b, open).came;
    let m = back.len();
    assert forall|i: int| 0 < i < path.len() implies #[trigger] path[i] != start && path[i - 1]
        == came[path[i] as int] by {
        assert(path[i] == back[m - 1 - i] && path[i - 1] == back[m - i]);
        assert(back[m - 1 - i] != start);
    }
}

/// The nodes from the start to `goal`, by the predecessors found.
fn reconstruct<P>(
    buffers: &AstarBuffers,
    start: u32,
    goal: u32,
    Ghost(t): Ghost<Task<'_, P>>,
    Ghost(open): Ghost<Multiset<Keyed>>,
    Ghost(order): Ghost<Seq<int>>,
) -> (path: Vec<u32>)
    requires
        searching(t, buffers, open, order, -1),
        start == t.start,
        goal == t.goal,
        reached(buffers, t.goal),
    ensures
        exists|steps: Seq<int>| #[trigger]
            leads_to(t.g, t.start, t.goal, steps) && passes(t.g, t.start, steps, path@)
                && buffers.dist(t.goal) == route_cost(t.g, t.shore, t.start, steps),
        is_trail(board_of(buffers, open).came, t.start, t.goal, path@),
{
    let mut back: Vec<u32> = Vec::new();
    back.push(goal);
    let mut node: u32 = goal;
    let ghost mut tail: Seq<int> = Seq::empty();
    let ghost mut at: int = order.len() as int;
    proof {
        assert(tail.take(0) =~= tail);
        reveal(led_back);
    }
    while node != start
        invariant
            searching(t, buffers, open, order, -1),
            start == t.start,
            goal == t.goal,
            node < t.n(),
            reached(buffers, node as int),
            0 <= at <= order.len(),
            at < order.len() ==> order[at] == node,
            at == order.len() ==> node == goal,
            route_ok(t.g, node as int, tail),
            route_end(t.g, node as int, tail) == t.goal,
            buffers.dist(t.goal) == buffers.dist(node as int) + route_cost(
                t.g,
                t.shore,
                node as int,
                tail,
            ),
            back@.len() == tail.len() + 1,
            forall|i: int|
                0 <= i < back@.len() ==> back@[tail.len() - i] == route_end(
                    t.g,
                    node as int,
                    #[trigger] tail.take(i),
                ),
            led_back(buffers, t.start, goal, back@),
            back@.last() == node,
        decreases at,
    {
        let pred: u32 = buffers.came_from[node as usize];
        proof {
            reveal(preds_ok);
            reveal(closed_ok);
            assert(has_pred(t, buffers, node as int));
            let u = pred as int;
            let k = choose|k: int|
                0 <= k < t.g.adj(u).len() && (#[trigger] t.g.adj(u)[k]).0 == node && buffers.dist(
                    node as int,
                ) == buffers.dist(u) + t.cost(t.g.adj(u)[k]);
            assert(buffers.is_closed(u));
            assert(order.contains(u));
            if at == order.len() {
                at = choose|i: int| 0 <= i < order.len() && order[i] == u;
            } else {
                assert(at > 0) by {
                    reveal(start_ok);
                }
                assert(order.take(at).contains(u));
                at = choose|i: int| 0 <= i < order.take(at).len() && order.take(at)[i] == u;
            }
            lemma_prepend(t.g, t.shore, u, k, tail);
            let longer = seq![k] + tail;
            assert forall|i: int| 0 <= i < back@.len() + 1 implies back@.push(pred)[longer.len()
                - i] == route_end(t.g, u, #[trigger] longer.take(i)) by {
                if i == 0 {
                    assert(longer.take(0) =~= Seq::<int>::empty());
                } else {
                    assert(longer.take(i) =~= seq![k] + tail.take(i - 1));
                    lemma_route_prefix(t.g, node as int, tail, i - 1);
                    lemma_prepend(t.g, t.shore, u, k, tail.take(i - 1));
                    assert(back@[tail.len() - (i - 1)] == route_end(
                        t.g,
                        node as int,
                        tail.take(i - 1),
                    ));
                }
            }
            tail = longer;
            lemma_led_back(buffers, t.start, goal, back@, pred);
        }
        back.push(pred);
        node = pred;
    }
    assert(buffers.dist(start as int) == 0) by {
        reveal(start_ok);
    }
    let m: usize = back.len();
    let mut path: Vec<u32> = Vec::new();
    let mut i: usize = 0;
    while i < m
        invariant
            m == back@.len(),
            i <= m,
            path@.len() == i,
            forall|j: int| 0 <= j < i ==> #[trigger] path@[j] == back@[m - 1 - j],
        decreases m - i,
    {
        path.push(back[m - 1 - i]);
        i = i + 1;
    }
    proof {
        assert(leads_to(t.g, t.start, t.goal, tail));
        assert forall|j: int| 0 <= j < path@.len() implies #[trigger] path@[j] == route_end(
            t.g,
            t.start,
            tail.take(j),
        ) by {
            assert(back@[tail.len() - j] == route_end(t.g, start as int, tail.take(j)));
        }
        assert(passes(t.g, t.start, tail, path@));
        lemma_trail(buffers, open, t.start, goal, back@, path@);
    }
    path
}

/// The values of `f`, by node. Where `f` gives distances, none exceeds the longest.
pub open spec fn values_of<H: Fn(u32) -> u64>(f: H) -> spec_fn(int) -> u64 {
    |v: int| within_reach(value1(f, v as u32))
}

/// What a search promises: a path with its cost, in the units of `shore`, or
/// `None` where there is no route. Where the estimate is consistent, no route
/// costs less. Which path it is, in any case, the steps of the search tell.
pub open spec fn search_result<P>(
    g: &RoutingGraph<P>,
    start: u32,
    goal: u32,
    shore: Option<ShorePenalty>,
    h: spec_fn(int) -> u64,
    r: Option<(Vec<u32>, u64)>,
) -> bool {
    &&& exists|k: nat| #[trigger]
        outcome(Task { g, shore, start: start as int, goal: goal as int, h }, k, r)
    &&& match r {
        None => forall|steps: Seq<int>| !#[trigger] leads_to(g, start as int, goal as int, steps),
        Some((path, cost)) => {
            &&& exists|steps: Seq<int>| #[trigger]
                leads_to(g, start as int, goal as int, steps) && passes(
                    g,
                    start as int,
                    steps,
                    path@,
                ) && cost == route_cost(g, shore, start as int, steps)
            &&& consistent(g, shore, h) ==> forall|steps: Seq<int>| #[trigger]
                leads_to(g, start as int, goal as int, steps) ==> cost <= route_cost(
                    g,
                    shore,
                    start as int,
                    steps,
                )
        },
    }
}

/// Searches a cheap path from `start` to `goal`, guided by `h`, which estimates
/// the distance from a node to the goal in micro-nm. The buffers have to be
/// fresh, and are left for a reset.
pub fn astar<P, H: Fn(u32) -> u64>(
    graph: &RoutingGraph<P>,
    start: u32,
    goal: u32,
    buffers: &mut AstarBuffers,
    shore: Option<ShorePenalty>,
    h: &H,
) -> (r: Option<(Vec<u32>, u64)>)
    requires
        graph.wf(),
        start < graph.num_nodes,
        goal < graph.num_nodes,
        old(buffers).wf(graph.num_nodes as nat),
        old(buffers).fresh(),
        function1(*h),
        forall|v: u32, x: u64| #[trigger] call_ensures(*h, (v,), x) ==> x <= MAX_DISTANCE,
    ensures
        final(buffers).wf(graph.num_nodes as nat),
        search_result(graph, start, goal, shore, values_of(*h), r),
{
    proof {
        assert forall|v: u32, x: u64| #[trigger] call_ensures(*h, (v,), x) implies x == values_of(
            *h,
        )(v as int) by {
            assert(call_ensures(*h, (v,), value1(*h, v)));
        }
    }
    guided_search(graph, start, goal, buffers, shore, h, Ghost(values_of(*h)))
}

/// [`astar`] with the values of the estimate given.
pub(crate) fn guided_search<P, H: Fn(u32) -> u64>(
    graph: &RoutingGraph<P>,
    start: u32,
    goal: u32,
    buffers: &mut AstarBuffers,
    shore: Option<ShorePenalty>,
    h: &H,
    Ghost(hv): Ghost<spec_fn(int) -> u64>,
) -> (r: Option<(Vec<u32>, u64)>)
    requires
        graph.wf(),
        start < graph.num_nodes,
        goal < graph.num_nodes,
        old(buffers).wf(graph.num_nodes as nat),
        old(buffers).fresh(),
        gives(*h, hv),
        forall|v: int| 0 <= v < graph.num_nodes ==> #[trigger] hv(v) <= MAX_DISTANCE,
    ensures
        final(buffers).wf(graph.num_nodes as nat),
        search_result(graph, start, goal, shore, hv, r),
{
    let ghost t = Task { g: graph, shore, start: start as int, goal: goal as int, h: hv };
    let ghost mut order: Seq<int> = Seq::empty();
    let mut open = MinHeap::new();
    let ghost fresh = *buffers;
    touch_and_cache_h::<P, H>(buffers, start, h, shore, Ghost(t));
    let ghost touched = *buffers;
    buffers.g_score.set(start as usize, 0);
    let h_start: u64 = buffers.h_score[start as usize];
    open.push((h_start, start));
    let ghost mut k: nat = 0;
    proof {
        lemma_start(t, &fresh, &touched, buffers, h_start);
        lemma_first_board(t, &fresh, &touched, buffers, h_start);
    }
    loop
        invariant
            searching(t, buffers, open@, order, -1),
            board_of(buffers, open@) == board_after(t, k),
            forall|j: nat| j < k ==> !is_end(t, #[trigger] board_after(t, j)),
            open.wf(),
            t == (Task { g: graph, shore, start: start as int, goal: goal as int, h: hv }),
            gives(*h, hv),
        decreases graph.num_nodes - order.len(), open.items@.len(),
    {
        let ghost before = open@;
        match open.pop() {
            None => {
                proof {
                    assert(board_after(t, k).open.len() == 0);
                    assert(outcome(t, k, None));
                    assert forall|steps: Seq<int>| !#[trigger] leads_to(
                        graph,
                        start as int,
                        goal as int,
                        steps,
                    ) by {
                        if leads_to(graph, start as int, goal as int, steps) {
                            lemma_all_expanded(t, buffers, order, steps);
                            reveal(closed_ok);
                        }
                    }
                }
                return None;
            },
            Some(least) => {
                let current: u32 = least.1;
                let ghost now = board_after(t, k);
                proof {
                    lemma_first_of(before, least);
                    assert(now.open.len() > 0) by {
                        if before.len() == 0 {
                            assert(before =~= Multiset::<Keyed>::empty());
                        }
                    }
                    assert(reached(buffers, current as int) && current < t.n()) by {
                        reveal(open_ok);
                    }
                    assert(!buffers.is_closed(goal as int) && order.len() <= t.n()) by {
                        reveal(closed_ok);
                        lemma_order_len(order, t.n());
                    }
                }
                if current == goal {
                    proof {
                        if consistent(graph, shore, hv) {
                            lemma_least_is_optimal(t, buffers, before, order, least);
                        }
                    }
                    let path = reconstruct::<P>(
                        buffers,
                        start,
                        goal,
                        Ghost(t),
                        Ghost(before),
                        Ghost(order),
                    );
                    let cost: u64 = buffers.g_score[goal as usize];
                    proof {
                        assert(is_end(t, now));
                        assert(buffers.touched(goal as int));
                        assert(outcome(t, k, Some((path, cost))));
                    }
                    assert(optimal(t, buffers, goal as int) ==> forall|steps: Seq<int>| #[trigger]
                        leads_to(graph, start as int, goal as int, steps) ==> cost <= route_cost(
                            graph,
                            shore,
                            start as int,
                            steps,
                        ));
                    return Some((path, cost));
                }
                if buffers.closed[current as usize] {
                    proof {
                        lemma_skip_keeps(t, buffers, before, order, least);
                        assert(now.closed[current as int]);
                        assert(board_of(buffers, open@) == after_entry(t, now, least));
                    }
                } else {
                    let ghost b0 = *buffers;
                    buffers.closed.set(current as usize, true);
                    proof {
                        assert(b0.h_score@[current as int] == t.est(current as int)) by {
                            reveal(scores_ok);
                        }
                        lemma_close_keeps(t, &b0, buffers, before, order, least);
                        order = order.push(current as int);
                        assert(order.len() <= t.n()) by {
                            reveal(closed_ok);
                            lemma_order_len(order, t.n());
                        }
                    }
                    proof {
                        lemma_close_board(&b0, buffers, open@, current as int);
                        assert(!now.closed[current as int]);
                    }
                    expand::<P, H>(
                        graph,
                        buffers,
                        &mut open,
                        current,
                        h,
                        shore,
                        Ghost(t),
                        Ghost(order),
                    );
                    assert(board_of(buffers, open@) == after_entry(t, now, least));
                }
                proof {
                    assert(!is_end(t, now));
                    k = k + 1;
                }
            },
        }
    }
}

/// Follows the edges of `current`.
fn expand<P, H: Fn(u32) -> u64>(
    g: &RoutingGraph<P>,
    buffers: &mut AstarBuffers,
    open: &mut MinHeap,
    current: u32,
    h: &H,
    shore: Option<ShorePenalty>,
    Ghost(t): Ghost<Task<'_, P>>,
    Ghost(order): Ghost<Seq<int>>,
)
    requires
        g == t.g,
        gives(*h, t.h),
        shore == t.shore,
        old(open).wf(),
        current < t.n(),
        order.len() > 0,
        searching(t, old(buffers), old(open)@, order, current as int),
        old(buffers).is_closed(current as int),
        old(buffers).dist(current as int) <= (order.len() - 1) * MAX_COST,
    ensures
        final(open).wf(),
        searching(t, final(buffers), final(open)@, order, -1),
        board_of(final(buffers), final(open)@) == after_edges(
            t,
            board_of(old(buffers), old(open)@),
            current as int,
            g.adj(current as int),
        ),
{
    let ghost begun = board_of(buffers, open@);
    let current_g: u64 = buffers.g_score[current as usize];
    assert(g.node_valid(current as int));
    let ghost all = g.adj(current as int);
    let ghost mut seen: Seq<Edge> = Seq::empty();
    let mut it = g.neighbors(current);
    proof {
        assert(seen + it.remaining() =~= all);
        assert(all.take(0) =~= seen);
    }
    loop
        invariant_except_break
            it.wf(),
            seen + it.remaining() == all,
        invariant
            g == t.g,
            gives(*h, t.h),
            shore == t.shore,
            open.wf(),
            current < t.n(),
            order.len() > 0,
            all == g.adj(current as int),
            searching(t, buffers, open@, order, current as int),
            buffers.is_closed(current as int),
            buffers.dist(current as int) == current_g,
            current_g <= (order.len() - 1) * MAX_COST,
            followed(t, buffers, current as int, seen),
            board_of(buffers, open@) == after_edges(t, begun, current as int, seen),
        ensures
            seen == all,
        decreases it.remaining().len(),
    {
        let ghost rest = it.remaining();
        match it.next() {
            None => {
                assert(seen + rest =~= seen);
                break;
            },
            Some(e) => {
                proof {
                    assert(all[seen.len() as int] == e);
                    assert(all.take(seen.len() as int) =~= seen);
                    assert(reached(buffers, current as int)) by {
                        reveal(closed_ok);
                    }
                }
                relax::<P, H>(
                    g,
                    buffers,
                    open,
                    current,
                    current_g,
                    e,
                    h,
                    shore,
                    Ghost(t),
                    Ghost(order),
                    Ghost(seen),
                );
                proof {
                    assert(seen + (seq![e] + it.remaining()) =~= seen.push(e) + it.remaining());
                    assert(seen.push(e).drop_last() =~= seen);
                    seen = seen.push(e);
                }
            },
        }
    }
    assert(edges_ok(t, buffers, -1)) by {
        reveal(edges_ok);
    }
}

/// An entry of a node that was expanded already can be dropped.
proof fn lemma_skip_keeps<'a, P>(
    t: Task<'a, P>,
    b: &AstarBuffers,
    open: Multiset<Keyed>,
    order: Seq<int>,
    least: Keyed,
)
    requires
        searching(t, b, open, order, -1),
        open.count(least) > 0,
        b.is_closed(least.1 as int),
    ensures
        searching(t, b, open.remove(least), order, -1),
{
    reveal(open_ok);
    let open1 = open.remove(least);
    assert forall|x: Keyed| #[trigger] open1.count(x) > 0 implies x.1 < t.n() && reached(
        b,
        x.1 as int,
    ) && x.0 >= b.dist(x.1 as int) + t.est(x.1 as int) by {
        assert(open.count(x) > 0);
    }
    assert forall|x: int|
        0 <= x < t.n() && #[trigger] reached(b, x) && !b.is_closed(x) implies open1.count(
        ((b.dist(x) + t.est(x)) as u64, x as u32),
    ) > 0 by {
        assert(open.count(((b.dist(x) + t.est(x)) as u64, x as u32)) > 0);
    }
}

/// The state in which the search starts.
proof fn lemma_start<'a, P>(
    t: Task<'a, P>,
    b0: &AstarBuffers,
    b1: &AstarBuffers,
    b2: &AstarBuffers,
    h_start: u64,
)
    requires
        t.ok(),
        b0.wf(t.n() as nat),
        b0.fresh(),
        same_but(b1, b0, t.start),
        b1.touched(t.start),
        !b1.is_closed(t.start),
        b1.h_score@[t.start] == t.est(t.start),
        b2.wf(t.n() as nat),
        same_but(b2, b1, t.start),
        b2.touched(t.start),
        !b2.is_closed(t.start),
        b2.dist(t.start) == 0,
        b2.h_score@[t.start] == t.est(t.start),
        h_start == t.est(t.start),
    ensures
        searching(
            t,
            b2,
            Multiset::<Keyed>::empty().insert((h_start, t.start as u32)),
            Seq::empty(),
            -1,
        ),
{
    assert forall|x: int| 0 <= x < t.n() && x != t.start implies b2.dist(x) == UNREACHED
        && !#[trigger] b2.touched(x) by {
        assert(!b0.touched(x));
        assert(b1.touched(x) == b0.touched(x));
        assert(b2.touched(x) == b1.touched(x));
    }
    reveal(closed_ok);
    reveal(start_ok);
    reveal(preds_ok);
    reveal(scores_ok);
    reveal(open_ok);
    reveal(edges_ok);
    reveal(optimal_ok);
    assert(forall|x: int| 0 <= x < t.n() && x != t.start ==> !b2.touched(x));
}

/// Closing a node changes that alone on the board.
proof fn lemma_close_board(
    b0: &AstarBuffers,
    b1: &AstarBuffers,
    open: Multiset<Keyed>,
    u: int,
)
    requires
        0 <= u < b0.gen@.len(),
        b0.touched(u),
        b0.gen@.len() == b0.closed@.len(),
        b1.g_score == b0.g_score,
        b1.came_from == b0.came_from,
        b1.gen == b0.gen,
        b1.current_gen == b0.current_gen,
        b1.closed@ == b0.closed@.update(u, true),
    ensures
        board_of(b1, open) == (Board {
            closed: board_of(b0, open).closed.update(u, true),
            ..board_of(b0, open)
        }),
{
    let x = board_of(b1, open);
    let y = board_of(b0, open);
    assert(x.dist =~= y.dist && x.came =~= y.came);
    assert(x.closed =~= y.closed.update(u, true));
}

/// The board on which the search starts.
proof fn lemma_first_board<'a, P>(
    t: Task<'a, P>,
    b0: &AstarBuffers,
    b1: &AstarBuffers,
    b2: &AstarBuffers,
    h_start: u64,
)
    requires
        t.ok(),
        b0.wf(t.n() as nat),
        b0.fresh(),
        same_but(b1, b0, t.start),
        b1.came(t.start) == b0.came(t.start),
        b2.wf(t.n() as nat),
        same_but(b2, b1, t.start),
        b2.came(t.start) == b1.came(t.start),
        !b2.is_closed(t.start),
        b2.dist(t.start) == 0,
        h_start == t.est(t.start),
    ensures
        board_of(b2, Multiset::<Keyed>::empty().insert((h_start, t.start as u32))) == board_after(
            t,
            0,
        ),
{
    let x = board_of(b2, Multiset::<Keyed>::empty().insert((h_start, t.start as u32)));
    let y = first_board(t);
    assert forall|v: int| 0 <= v < t.n() implies x.dist[v] == y.dist[v] && x.came[v] == y.came[v]
        && x.closed[v] == y.closed[v] by {
        assert(!b0.touched(v));
        if v != t.start {
            assert(b1.touched(v) == b0.touched(v));
            assert(b2.touched(v) == b1.touched(v));
        }
    }
    assert(x.dist =~= y.dist && x.came =~= y.came && x.closed =~= y.closed);
}

/// A search has one result: the same graph, ends, clearance and estimate give
/// the same path and cost, whatever the buffers held before.
pub proof fn lemma_search_is_determined<P>(
    g: &RoutingGraph<P>,
    start: u32,
    goal: u32,
    shore: Option<ShorePenalty>,
    h: spec_fn(int) -> u64,
    a: Option<(Vec<u32>, u64)>,
    b: Option<(Vec<u32>, u64)>,
)
    requires
        search_result(g, start, goal, shore, h, a),
        search_result(g, start, goal, shore, h, b),
    ensures
        a is Some <==> b is Some,
        a matches Some(x) ==> (b matches Some(y) && x.0@ == y.0@ && x.1 == y.1),
{
    let t = Task { g, shore, start: start as int, goal: goal as int, h };
    let j = choose|j: nat| #[trigger] outcome(t, j, a);
    let k = choose|k: nat| #[trigger] outcome(t, k, b);
    lemma_one_outcome(t, j, a, k, b);
}

} // verus!
