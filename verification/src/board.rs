//! The route search step by step: which node comes next, and what is known of
//! the others then. It says which of several paths a search finds.

use vstd::prelude::*;
use vstd::multiset::Multiset;
use crate::astar_pool::{AstarBuffers, NO_NODE, UNREACHED};
use crate::edge_list::Edge;
use crate::graph::RoutingGraph;
use crate::routing::{edge_cost, estimate, ShorePenalty, MAX_DISTANCE};
use crate::sort::{keyed_le, Keyed};

verus! {

/// What a search works on.
pub ghost struct Task<'a, P> {
    pub g: &'a RoutingGraph<P>,
    pub shore: Option<ShorePenalty>,
    pub start: int,
    pub goal: int,
    /// Estimate of the distance from a node to the goal, in micro-nm.
    pub h: spec_fn(int) -> u64,
}

impl<'a, P> Task<'a, P> {
    pub open spec fn n(self) -> int {
        self.g.num_nodes as int
    }

    /// Estimate of the cost from `v` to the goal.
    pub open spec fn est(self, v: int) -> int {
        estimate(self.h, self.shore, v)
    }

    /// Cost of an edge.
    pub open spec fn cost(self, e: Edge) -> int {
        edge_cost(self.g, self.shore, e)
    }

    pub open spec fn ok(self) -> bool {
        &&& self.g.wf()
        &&& 0 <= self.start < self.n()
        &&& 0 <= self.goal < self.n()
        &&& forall|v: int| 0 <= v < self.n() ==> #[trigger] (self.h)(v) <= MAX_DISTANCE
    }
}

/// What is known after some steps.
pub ghost struct Board {
    /// Least cost found from the start to each node.
    pub dist: Seq<u64>,
    /// The node before each on the way found.
    pub came: Seq<u32>,
    /// The nodes whose edges were followed.
    pub closed: Seq<bool>,
    /// Nodes to look at, each with the cost expected of a way over it.
    pub open: Multiset<Keyed>,
}

/// The entry that comes first: the least cost, and of those the least node.
pub open spec fn first_entry(open: Multiset<Keyed>, x: Keyed) -> bool {
    &&& open.count(x) > 0
    &&& forall|y: Keyed| #[trigger] open.count(y) > 0 ==> keyed_le(x, y)
}

/// [`first_entry`] as a value.
pub open spec fn first_of(open: Multiset<Keyed>) -> Keyed {
    choose|x: Keyed| first_entry(open, x)
}

/// Only the start is known.
pub open spec fn first_board<'a, P>(t: Task<'a, P>) -> Board {
    let n = t.n() as nat;
    Board {
        dist: Seq::new(
            n,
            |v: int|
                if v == t.start {
                    0
                } else {
                    UNREACHED
                },
        ),
        came: Seq::new(n, |v: int| NO_NODE),
        closed: Seq::new(n, |v: int| false),
        open: Multiset::<Keyed>::empty().insert((t.est(t.start) as u64, t.start as u32)),
    }
}

/// The edge `e` of `u` was followed: where it leads to a node that is not closed
/// and is a shorter way there, the node is noted anew.
pub open spec fn after_edge<'a, P>(t: Task<'a, P>, b: Board, u: int, e: Edge) -> Board {
    let v = e.0 as int;
    let d = b.dist[u] + t.cost(e);
    if b.closed[v] || d >= b.dist[v] {
        b
    } else {
        Board {
            dist: b.dist.update(v, d as u64),
            came: b.came.update(v, u as u32),
            closed: b.closed,
            open: b.open.insert(((d + t.est(v)) as u64, v as u32)),
        }
    }
}

/// The edges in `list` were followed one after the other.
pub open spec fn after_edges<'a, P>(t: Task<'a, P>, b: Board, u: int, list: Seq<Edge>) -> Board
    decreases list.len(),
{
    if list.len() == 0 {
        b
    } else {
        after_edge(t, after_edges(t, b, u, list.drop_last()), u, list.last())
    }
}

/// The entry `x` was looked at: it leaves the list, and unless its node is closed
/// already, that is closed and its edges are followed.
pub open spec fn after_entry<'a, P>(t: Task<'a, P>, b: Board, x: Keyed) -> Board {
    let u = x.1 as int;
    let left = Board { open: b.open.remove(x), ..b };
    if b.closed[u] {
        left
    } else {
        after_edges(t, Board { closed: b.closed.update(u, true), ..left }, u, t.g.adj(u))
    }
}

/// The board after `k` steps.
pub open spec fn board_after<'a, P>(t: Task<'a, P>, k: nat) -> Board
    decreases k,
{
    if k == 0 {
        first_board(t)
    } else {
        let b = board_after(t, (k - 1) as nat);
        after_entry(t, b, first_of(b.open))
    }
}

/// The search ends here: no entry is left, or the goal comes next.
pub open spec fn is_end<'a, P>(t: Task<'a, P>, b: Board) -> bool {
    b.open.len() == 0 || first_of(b.open).1 == t.goal
}

/// The search ends after `k` steps, and not before.
pub open spec fn ends_after<'a, P>(t: Task<'a, P>, k: nat) -> bool {
    &&& is_end(t, board_after(t, k))
    &&& forall|j: nat| j < k ==> !is_end(t, #[trigger] board_after(t, j))
}

/// `path` goes from the start to the goal, each node preceded by the one noted
/// for it.
pub open spec fn is_trail(came: Seq<u32>, start: int, goal: int, path: Seq<u32>) -> bool {
    &&& path.len() > 0
    &&& path.last() == goal
    &&& path[0] == start
    &&& forall|i: int|
        0 < i < path.len() ==> #[trigger] path[i] != start && path[i - 1] == came[path[i] as int]
}

/// What the search finds.
pub open spec fn outcome<'a, P>(t: Task<'a, P>, k: nat, r: Option<(Vec<u32>, u64)>) -> bool {
    let b = board_after(t, k);
    &&& ends_after(t, k)
    &&& match r {
        None => b.open.len() == 0,
        Some((path, cost)) => {
            &&& b.open.len() > 0
            &&& cost == b.dist[t.goal]
            &&& is_trail(b.came, t.start, t.goal, path@)
        },
    }
}

/// There is one first entry.
pub proof fn lemma_first_of(open: Multiset<Keyed>, x: Keyed)
    requires
        first_entry(open, x),
    ensures
        first_of(open) == x,
{
    let y = first_of(open);
    assert(first_entry(open, y));
    assert(keyed_le(x, y) && keyed_le(y, x));
}

/// A search has one outcome.
pub proof fn lemma_one_outcome<'a, P>(
    t: Task<'a, P>,
    j: nat,
    a: Option<(Vec<u32>, u64)>,
    k: nat,
    b: Option<(Vec<u32>, u64)>,
)
    requires
        outcome(t, j, a),
        outcome(t, k, b),
    ensures
        a is Some <==> b is Some,
        a matches Some(x) ==> (b matches Some(y) && x.0@ == y.0@ && x.1 == y.1),
{
    if j < k {
        assert(!is_end(t, board_after(t, j)));
    } else if k < j {
        assert(!is_end(t, board_after(t, k)));
    }
    if a is Some && b is Some {
        let came = board_after(t, j).came;
        let p = a->Some_0.0@;
        let q = b->Some_0.0@;
        if p.len() <= q.len() {
            lemma_one_trail(came, t.start, t.goal, p, q);
        } else {
            lemma_one_trail(came, t.start, t.goal, q, p);
        }
    }
}

/// Two trails agree from their ends on.
proof fn lemma_trails_agree(
    came: Seq<u32>,
    start: int,
    goal: int,
    p: Seq<u32>,
    q: Seq<u32>,
    i: int,
)
    requires
        is_trail(came, start, goal, p),
        is_trail(came, start, goal, q),
        p.len() <= q.len(),
        0 <= i < p.len(),
    ensures
        p[p.len() - 1 - i] == q[q.len() - 1 - i],
    decreases i,
{
    if i > 0 {
        lemma_trails_agree(came, start, goal, p, q, i - 1);
        assert(p[p.len() - i - 1] == came[p[p.len() - i] as int]);
        assert(q[q.len() - i - 1] == came[q[q.len() - i] as int]);
    }
}

proof fn lemma_one_trail(came: Seq<u32>, start: int, goal: int, p: Seq<u32>, q: Seq<u32>)
    requires
        is_trail(came, start, goal, p),
        is_trail(came, start, goal, q),
        p.len() <= q.len(),
    ensures
        p == q,
{
    lemma_trails_agree(came, start, goal, p, q, p.len() - 1);
    let at = q.len() - p.len();
    assert(q[at] == start);
    if at > 0 {
        assert(q[at] != start);
    }
    assert forall|k: int| 0 <= k < p.len() implies p[k] == q[k] by {
        lemma_trails_agree(came, start, goal, p, q, p.len() - 1 - k);
    }
    assert(p =~= q);
}

/// What buffers and open list say, as a board.
pub open spec fn board_of(b: &AstarBuffers, open: Multiset<Keyed>) -> Board {
    let n = b.gen@.len();
    Board {
        dist: Seq::new(n, |v: int| b.dist(v)),
        came: Seq::new(n, |v: int| b.came(v)),
        closed: Seq::new(n, |v: int| b.is_closed(v)),
        open,
    }
}

} // verus!
