//! Connected components of a routing graph, by union-find.

use vstd::prelude::*;
use crate::edge_list::{lemma_entries_len, targets_below, Edge};
use crate::graph::RoutingGraph;
use crate::sort::{keyed_sorted, lemma_same_entries, sort_keyed, Keyed};

verus! {

/// An edge leads from `a` to `b` or from `b` to `a`.
pub open spec fn linked<P>(g: &RoutingGraph<P>, a: int, b: int) -> bool {
    has_edge(g, a, b) || has_edge(g, b, a)
}

/// An edge leads from `a` to `b`.
pub open spec fn has_edge<P>(g: &RoutingGraph<P>, a: int, b: int) -> bool {
    &&& 0 <= a < g.num_nodes
    &&& exists|k: int| 0 <= k < g.adj(a).len() && (#[trigger] g.adj(a)[k]).0 == b
}

/// A sequence of nodes in which each is linked to the next.
pub open spec fn is_walk<P>(g: &RoutingGraph<P>, walk: Seq<int>) -> bool {
    &&& walk.len() > 0
    &&& forall|i: int| 0 <= i < walk.len() ==> 0 <= #[trigger] walk[i] < g.num_nodes
    &&& forall|i: int, j: int|
        0 <= i && j == i + 1 && j < walk.len() ==> linked(g, #[trigger] walk[i], #[trigger] walk[j])
}

/// A walk leads from `a` to `b`.
pub open spec fn connected<P>(g: &RoutingGraph<P>, a: int, b: int) -> bool {
    exists|walk: Seq<int>| #[trigger] is_walk(g, walk) && walk[0] == a && walk.last() == b
}

pub proof fn lemma_connected_refl<P>(g: &RoutingGraph<P>, a: int)
    requires
        0 <= a < g.num_nodes,
    ensures
        connected(g, a, a),
{
    assert(is_walk(g, seq![a]));
}

pub proof fn lemma_connected_linked<P>(g: &RoutingGraph<P>, a: int, b: int)
    requires
        0 <= a < g.num_nodes,
        0 <= b < g.num_nodes,
        linked(g, a, b),
    ensures
        connected(g, a, b),
{
    let walk = seq![a, b];
    assert(is_walk(g, walk));
    assert(walk.last() == b);
}

pub proof fn lemma_connected_sym<P>(g: &RoutingGraph<P>, a: int, b: int)
    requires
        connected(g, a, b),
    ensures
        connected(g, b, a),
{
    let walk = choose|walk: Seq<int>| #[trigger]
        is_walk(g, walk) && walk[0] == a && walk.last() == b;
    let back = walk.reverse();
    assert forall|i: int, j: int| 0 <= i && j == i + 1 && j < back.len() implies linked(
        g,
        #[trigger] back[i],
        #[trigger] back[j],
    ) by {
        assert(linked(g, walk[walk.len() - 1 - j], walk[walk.len() - 1 - i]));
    }
    assert(is_walk(g, back));
}

pub proof fn lemma_connected_trans<P>(g: &RoutingGraph<P>, a: int, b: int, c: int)
    requires
        connected(g, a, b),
        connected(g, b, c),
    ensures
        connected(g, a, c),
{
    let first = choose|walk: Seq<int>| #[trigger]
        is_walk(g, walk) && walk[0] == a && walk.last() == b;
    let second = choose|walk: Seq<int>| #[trigger]
        is_walk(g, walk) && walk[0] == b && walk.last() == c;
    let whole = first + second.drop_first();
    assert forall|i: int, j: int| 0 <= i && j == i + 1 && j < whole.len() implies linked(
        g,
        #[trigger] whole[i],
        #[trigger] whole[j],
    ) by {
        if j < first.len() {
            assert(linked(g, first[i], first[j]));
        } else {
            let k = j - first.len() + 1;
            assert(whole[j] == second[k]);
            assert(whole[i] == second[k - 1]);
            assert(linked(g, second[k - 1], second[k]));
        }
    }
    assert(is_walk(g, whole));
    assert(whole.last() == c);
}

/// The ends of an edge are connected, either way.
pub proof fn lemma_edge_connects<P>(g: &RoutingGraph<P>, a: int, k: int)
    requires
        0 <= a < g.num_nodes,
        0 <= k < g.adj(a).len(),
        g.adj(a)[k].0 < g.num_nodes,
    ensures
        connected(g, a, g.adj(a)[k].0 as int),
        connected(g, g.adj(a)[k].0 as int, a),
{
    let b = g.adj(a)[k].0 as int;
    assert(has_edge(g, a, b));
    lemma_connected_linked(g, a, b);
    lemma_connected_sym(g, a, b);
}

/// Only edges connect: what holds of a node, and of both ends of an edge or of
/// neither, holds of all that is connected to it.
pub proof fn lemma_only_edges_connect<P>(
    g: &RoutingGraph<P>,
    inside: spec_fn(int) -> bool,
    a: int,
    b: int,
)
    requires
        connected(g, a, b),
        inside(a),
        forall|v: int, k: int|
            0 <= v < g.num_nodes && 0 <= k < g.adj(v).len() ==> inside(v) == inside(
                (#[trigger] g.adj(v)[k]).0 as int,
            ),
    ensures
        inside(b),
        0 <= a < g.num_nodes,
        0 <= b < g.num_nodes,
{
    let walk = choose|walk: Seq<int>| #[trigger]
        is_walk(g, walk) && walk[0] == a && walk.last() == b;
    lemma_walk_stays(g, inside, walk, walk.len() - 1);
    assert(0 <= walk[0] < g.num_nodes);
    assert(0 <= walk[walk.len() - 1] < g.num_nodes);
}

proof fn lemma_walk_stays<P>(
    g: &RoutingGraph<P>,
    inside: spec_fn(int) -> bool,
    walk: Seq<int>,
    i: int,
)
    requires
        is_walk(g, walk),
        0 <= i < walk.len(),
        inside(walk[0]),
        forall|v: int, k: int|
            0 <= v < g.num_nodes && 0 <= k < g.adj(v).len() ==> inside(v) == inside(
                (#[trigger] g.adj(v)[k]).0 as int,
            ),
    ensures
        inside(walk[i]),
    decreases i,
{
    if i > 0 {
        lemma_walk_stays(g, inside, walk, i - 1);
        let (x, y) = (walk[i - 1], walk[i]);
        assert(linked(g, walk[i - 1], walk[i]));
        if has_edge(g, x, y) {
            let k = choose|k: int| 0 <= k < g.adj(x).len() && (#[trigger] g.adj(x)[k]).0 == y;
            assert(inside(x) == inside(g.adj(x)[k].0 as int));
        } else {
            let k = choose|k: int| 0 <= k < g.adj(y).len() && (#[trigger] g.adj(y)[k]).0 == x;
            assert(inside(y) == inside(g.adj(y)[k].0 as int));
        }
    }
}

/// State of the union-find: `rep` gives each node's root.
spec fn forest(parent: Seq<u32>, rank: Seq<u32>, rep: Seq<u32>) -> bool {
    &&& rank.len() == parent.len()
    &&& rep.len() == parent.len()
    &&& forall|x: int|
        0 <= x < parent.len() ==> {
            &&& (#[trigger] parent[x]) < parent.len()
            &&& rep[x] < parent.len()
            &&& rep[parent[x] as int] == rep[x]
            &&& (parent[x] == x <==> rep[x] == x)
            &&& rep[rep[x] as int] == rep[x]
            &&& (rep[x] != x ==> rank[x] < rank[rep[x] as int])
            &&& (parent[x] != x ==> rank[x] < rank[parent[x] as int])
        }
}

/// Follows parents to the root, then lets every node on the way point to it.
fn find(parent: &mut Vec<u32>, rank: &Vec<u32>, rep: Ghost<Seq<u32>>, x: u32) -> (root: u32)
    requires
        forest(old(parent)@, rank@, rep@),
        x < old(parent)@.len(),
    ensures
        forest(final(parent)@, rank@, rep@),
        final(parent)@.len() == old(parent)@.len(),
        root == rep@[x as int],
        final(parent)@[x as int] == root,
        forall|y: int|
            0 <= y < old(parent)@.len() && old(parent)@[y] == rep@[y] ==> final(parent)@[y]
                == #[trigger] rep@[y],
{
    let mut root: u32 = x;
    while parent[root as usize] != root
        invariant
            root < parent@.len(),
            forest(parent@, rank@, rep@),
            parent@ == old(parent)@,
            rep@[root as int] == rep@[x as int],
            x < parent@.len(),
        decreases u32::MAX - rank@[root as int],
    {
        assert(parent@[root as int] != root);
        root = parent[root as usize];
        assert(parent@[root as int] < parent@.len());
    }
    assert(parent@[root as int] == root);
    let mut cur: u32 = x;
    while cur != root
        invariant
            cur < parent@.len(),
            root < parent@.len(),
            x < parent@.len(),
            parent@.len() == old(parent)@.len(),
            forest(parent@, rank@, rep@),
            root == rep@[x as int],
            rep@[cur as int] == root,
            cur == x || parent@[x as int] == root,
            forall|y: int|
                0 <= y < old(parent)@.len() && old(parent)@[y] == rep@[y] ==> parent@[y]
                    == #[trigger] rep@[y],
        decreases u32::MAX - rank@[cur as int],
    {
        let next: u32 = parent[cur as usize];
        let ghost before = parent@;
        assert(before[cur as int] != cur);
        assert(before[next as int] < before.len());
        parent.set(cur as usize, root);
        proof {
            assert(before[root as int] < before.len());
            assert forall|y: int| 0 <= y < parent@.len() implies {
                &&& (#[trigger] parent@[y]) < parent@.len()
                &&& rep@[y] < parent@.len()
                &&& rep@[parent@[y] as int] == rep@[y]
                &&& (parent@[y] == y <==> rep@[y] == y)
                &&& rep@[rep@[y] as int] == rep@[y]
                &&& (rep@[y] != y ==> rank@[y] < rank@[rep@[y] as int])
                &&& (parent@[y] != y ==> rank@[y] < rank@[parent@[y] as int])
            } by {
                assert(before[y] < before.len());
            }
        }
        cur = next;
    }
    proof {
        if x == root {
            assert(parent@[x as int] < parent@.len());
            assert(parent@[x as int] == x);
        }
    }
    root
}

/// Every node stands under itself.
spec fn identity(n: nat) -> Seq<u32> {
    Seq::new(n, |i: int| i as u32)
}

/// The roots after the classes of `ra` and `rb` were joined under `rb`.
spec fn joined(rep: Seq<u32>, ra: u32, rb: u32) -> Seq<u32> {
    Seq::new(
        rep.len(),
        |i: int| if rep[i] == ra {
            rb
        } else {
            rep[i]
        },
    )
}

/// Joins the classes of `a` and `b`.
fn union(parent: &mut Vec<u32>, rank: &mut Vec<u32>, rep: Ghost<Seq<u32>>, a: u32, b: u32) -> (r:
    Ghost<Seq<u32>>)
    requires
        forest(old(parent)@, old(rank)@, rep@),
        a < old(parent)@.len(),
        b < old(parent)@.len(),
        forall|i: int| 0 <= i < old(rank)@.len() ==> (#[trigger] old(rank)@[i]) < u32::MAX,
    ensures
        forest(final(parent)@, final(rank)@, r@),
        final(parent)@.len() == old(parent)@.len(),
        forall|i: int|
            0 <= i < final(rank)@.len() ==> (#[trigger] final(rank)@[i]) <= old(rank)@[i] + 1,
        ({
            let ra = rep@[a as int];
            let rb = rep@[b as int];
            r@ == joined(rep@, ra, rb) || r@ == joined(rep@, rb, ra)
        }),
{
    let ra: u32 = find(parent, rank, rep, a);
    let rb: u32 = find(parent, rank, rep, b);
    assert(parent@[a as int] < parent@.len());
    assert(parent@[b as int] < parent@.len());
    assert(parent@[ra as int] < parent@.len());
    assert(parent@[rb as int] < parent@.len());
    if ra == rb {
        assert(joined(rep@, ra, rb) =~= rep@);
        return rep;
    }
    let ghost p0 = parent@;
    let ghost k0 = rank@;
    if rank[ra as usize] < rank[rb as usize] {
        parent.set(ra as usize, rb);
        proof {
            lemma_joined(p0, k0, rep@, ra, rb, k0);
        }
        Ghost(joined(rep@, ra, rb))
    } else if rank[ra as usize] > rank[rb as usize] {
        parent.set(rb as usize, ra);
        proof {
            lemma_joined(p0, k0, rep@, rb, ra, k0);
        }
        Ghost(joined(rep@, rb, ra))
    } else {
        parent.set(rb as usize, ra);
        let bumped: u32 = rank[ra as usize] + 1;
        rank.set(ra as usize, bumped);
        proof {
            lemma_joined(p0, k0, rep@, rb, ra, rank@);
        }
        Ghost(joined(rep@, rb, ra))
    }
}

/// Hanging the root `low` under the root `high` keeps the forest, when `high`
/// ends up with the greater rank.
proof fn lemma_joined(
    parent: Seq<u32>,
    rank: Seq<u32>,
    rep: Seq<u32>,
    low: u32,
    high: u32,
    new_rank: Seq<u32>,
)
    requires
        forest(parent, rank, rep),
        low < parent.len(),
        high < parent.len(),
        low != high,
        parent[low as int] == low,
        parent[high as int] == high,
        new_rank.len() == rank.len(),
        forall|i: int| 0 <= i < rank.len() && i != high ==> new_rank[i] == #[trigger] rank[i],
        new_rank[high as int] >= rank[high as int],
        rank[low as int] < new_rank[high as int],
    ensures
        forest(parent.update(low as int, high), new_rank, joined(rep, low, high)),
{
    let p = parent.update(low as int, high);
    let r = joined(rep, low, high);
    assert forall|x: int| 0 <= x < p.len() implies {
        &&& (#[trigger] p[x]) < p.len()
        &&& r[x] < p.len()
        &&& r[p[x] as int] == r[x]
        &&& (p[x] == x <==> r[x] == x)
        &&& r[r[x] as int] == r[x]
        &&& (r[x] != x ==> new_rank[x] < new_rank[r[x] as int])
        &&& (p[x] != x ==> new_rank[x] < new_rank[p[x] as int])
    } by {
        assert(parent[x] < parent.len());
        assert(parent[low as int] < parent.len());
        assert(parent[high as int] < parent.len());
        assert(rank[x] <= new_rank[x]);
        let px = parent[x] as int;
        assert(parent[px] < parent.len());
        let rx = rep[x] as int;
        assert(parent[rx] < parent.len());
        assert(rank[px] <= new_rank[px]);
        assert(rank[rx] <= new_rank[rx]);
    }
}

/// Each node is connected to its root.
spec fn sound<P>(g: &RoutingGraph<P>, rep: Seq<u32>) -> bool {
    forall|x: int| 0 <= x < rep.len() ==> connected(g, x, #[trigger] rep[x] as int)
}

/// The ends of the edges in `list` that leave `node` share their root.
spec fn same_root(rep: Seq<u32>, node: int, list: Seq<Edge>) -> bool {
    forall|k: int| 0 <= k < list.len() ==> rep[(#[trigger] list[k]).0 as int] == rep[node]
}

proof fn lemma_join_sound<P>(g: &RoutingGraph<P>, rep: Seq<u32>, a: int, b: int)
    requires
        rep.len() == g.num_nodes,
        sound(g, rep),
        0 <= a < rep.len(),
        0 <= b < rep.len(),
        connected(g, a, b),
    ensures
        sound(g, joined(rep, rep[a], rep[b])),
{
    let r = joined(rep, rep[a], rep[b]);
    assert forall|x: int| 0 <= x < r.len() implies connected(g, x, #[trigger] r[x] as int) by {
        assert(connected(g, x, rep[x] as int));
        if rep[x] == rep[a] {
            assert(connected(g, a, rep[a] as int));
            assert(connected(g, b, rep[b] as int));
            lemma_connected_sym(g, a, rep[a] as int);
            lemma_connected_trans(g, x, rep[a] as int, a);
            lemma_connected_trans(g, x, a, b);
            lemma_connected_trans(g, x, b, rep[b] as int);
        }
    }
}

/// When every edge joins nodes of one root, so does every walk.
proof fn lemma_walk_root<P>(g: &RoutingGraph<P>, rep: Seq<u32>, walk: Seq<int>)
    requires
        g.wf(),
        rep.len() == g.num_nodes,
        forall|v: int| 0 <= v < g.num_nodes ==> #[trigger] same_root(rep, v, g.adj(v)),
        is_walk(g, walk),
    ensures
        rep[walk[0]] == rep[walk.last()],
    decreases walk.len(),
{
    if walk.len() > 1 {
        let head = walk.drop_last();
        assert(is_walk(g, head));
        lemma_walk_root(g, rep, head);
        let a = walk[walk.len() - 2];
        let b = walk[walk.len() - 1];
        assert(linked(g, a, b));
        assert(same_root(rep, a, g.adj(a)));
        assert(same_root(rep, b, g.adj(b)));
    }
}

impl<P> RoutingGraph<P> {
    /// The root of each node's component: nodes have the same one exactly when
    /// they are connected.
    pub fn component_labels(&self) -> (labels: Vec<u32>)
        requires
            self.wf(),
        ensures
            labels_ok(self, labels@),
    {
        let n: u32 = self.num_nodes;
        let mut parent: Vec<u32> = Vec::new();
        let mut rank: Vec<u32> = Vec::new();
        let ghost mut rep: Seq<u32> = identity(n as nat);
        for i in 0..n
            invariant
                parent@.len() == i,
                rank@.len() == i,
                forall|x: int| 0 <= x < i ==> #[trigger] parent@[x] == x,
                forall|x: int| 0 <= x < i ==> #[trigger] rank@[x] == 0,
        {
            parent.push(i);
            rank.push(0);
        }
        let ghost mut ops: int = 0;
        proof {
            assert(forest(parent@, rank@, rep));
            assert forall|x: int| 0 <= x < rep.len() implies connected(
                self,
                x,
                #[trigger] rep[x] as int,
            ) by {
                lemma_connected_refl(self, x);
            }
        }
        let mut node: u32 = 0;
        while node < n
            invariant
                self.wf(),
                n == self.num_nodes,
                node <= n,
                parent@.len() == n,
                forest(parent@, rank@, rep),
                sound(self, rep),
                forall|v: int| 0 <= v < node ==> #[trigger] same_root(rep, v, self.adj(v)),
                0 <= ops,
                3 * ops <= self.offsets@[node as int],
                forall|i: int| 0 <= i < n ==> #[trigger] rank@[i] <= ops,
            decreases n - node,
        {
            assert(self.node_valid(node as int));
            let ghost all = self.adj(node as int);
            let ghost mut seen: Seq<Edge> = Seq::empty();
            let mut it = self.neighbors(node);
            proof {
                lemma_entries_len(self.node_bytes(node as int), 0, 0);
                assert(seen + it.remaining() =~= all);
            }
            loop
                invariant_except_break
                    it.wf(),
                    seen + it.remaining() == all,
                    3 * (ops + it.remaining().len()) <= self.offsets@[node + 1],
                invariant
                    self.wf(),
                    n == self.num_nodes,
                    node < n,
                    all == self.adj(node as int),
                    targets_below(all, n as int),
                    parent@.len() == n,
                    forest(parent@, rank@, rep),
                    sound(self, rep),
                    forall|v: int| 0 <= v < node ==> #[trigger] same_root(rep, v, self.adj(v)),
                    same_root(rep, node as int, seen),
                    0 <= ops,
                    forall|i: int| 0 <= i < n ==> #[trigger] rank@[i] <= ops,
                ensures
                    seen == all,
                    3 * ops <= self.offsets@[node + 1],
                decreases it.remaining().len(),
            {
                let ghost before = it.remaining();
                match it.next() {
                    None => {
                        assert(seen + before =~= seen);
                        break;
                    },
                    Some(e) => {
                        assert(all[seen.len() as int] == e);
                        assert(self.offsets@[node + 1] <= self.offsets@[n as int]);
                        assert forall|i: int| 0 <= i < rank@.len() implies #[trigger] rank@[i]
                            < u32::MAX by {
                            assert(rank@[i] <= ops);
                        }
                        let ghost old_rank = rank@;
                        let new_rep = union(&mut parent, &mut rank, Ghost(rep), node, e.0);
                        proof {
                            assert(has_edge(self, node as int, e.0 as int));
                            lemma_connected_linked(self, node as int, e.0 as int);
                            lemma_connected_sym(self, node as int, e.0 as int);
                            lemma_join_sound(self, rep, node as int, e.0 as int);
                            lemma_join_sound(self, rep, e.0 as int, node as int);
                            assert forall|v: int| 0 <= v < node implies #[trigger] same_root(
                                new_rep@,
                                v,
                                self.adj(v),
                            ) by {
                                assert(self.node_valid(v));
                                assert(same_root(rep, v, self.adj(v)));
                            }
                            assert forall|i: int| 0 <= i < n implies #[trigger] rank@[i] <= ops
                                + 1 by {
                                assert(old_rank[i] <= ops);
                            }
                            let more = seen.push(e);
                            assert forall|k: int| 0 <= k < more.len() implies new_rep@[(
                            #[trigger] more[k]).0 as int] == new_rep@[node as int] by {
                                assert(more[k] == all[k]);
                                if k < seen.len() {
                                    assert(rep[seen[k].0 as int] == rep[node as int]);
                                }
                            }
                            assert(seen + (seq![e] + it.remaining()) =~= seen.push(e)
                                + it.remaining());
                            seen = seen.push(e);
                            rep = new_rep@;
                            ops = ops + 1;
                        }
                    },
                }
            }
            node = node + 1;
        }
        let mut i: u32 = 0;
        while i < n
            invariant
                n == self.num_nodes,
                i <= n,
                parent@.len() == n,
                forest(parent@, rank@, rep),
                forall|x: int| 0 <= x < i ==> parent@[x] == #[trigger] rep[x],
            decreases n - i,
        {
            let ghost before = parent@;
            find(&mut parent, &rank, Ghost(rep), i);
            assert forall|x: int| 0 <= x < i + 1 implies parent@[x] == #[trigger] rep[x] by {
                if x < i {
                    assert(before[x] == rep[x]);
                }
            }
            i = i + 1;
        }
        proof {
            assert(parent@ =~= rep);
            assert forall|a: int| 0 <= a < n implies ({
                &&& #[trigger] parent@[a] < n
                &&& parent@[parent@[a] as int] == parent@[a]
                &&& connected(self, a, parent@[a] as int)
            }) by {
                assert(connected(self, a, rep[a] as int));
            }
            assert forall|a: int, b: int| 0 <= a < n && 0 <= b < n implies ((#[trigger] parent@[a]
                == #[trigger] parent@[b]) <==> connected(self, a, b)) by {
                assert(connected(self, a, rep[a] as int));
                assert(connected(self, b, rep[b] as int));
                if parent@[a] == parent@[b] {
                    lemma_connected_sym(self, b, rep[b] as int);
                    lemma_connected_trans(self, a, rep[a] as int, b);
                }
                if connected(self, a, b) {
                    let walk = choose|walk: Seq<int>| #[trigger]
                        is_walk(self, walk) && walk[0] == a && walk.last() == b;
                    lemma_walk_root(self, rep, walk);
                }
            }
        }
        parent
    }
}

/// `labels` names each node's component by one of its nodes.
pub open spec fn labels_ok<P>(g: &RoutingGraph<P>, labels: Seq<u32>) -> bool {
    &&& labels.len() == g.num_nodes
    &&& forall|a: int|
        0 <= a < labels.len() ==> {
            &&& #[trigger] labels[a] < labels.len()
            &&& labels[labels[a] as int] == labels[a]
            &&& connected(g, a, labels[a] as int)
        }
    &&& forall|a: int, b: int|
        0 <= a < labels.len() && 0 <= b < labels.len() ==> ((#[trigger] labels[a]
            == #[trigger] labels[b]) <==> connected(g, a, b))
}

/// Number of `i` below `n` for which `p` holds.
pub open spec fn count_where(n: nat, p: spec_fn(int) -> bool) -> nat
    decreases n,
{
    if n == 0 {
        0
    } else {
        count_where((n - 1) as nat, p) + if p(n - 1) {
            1nat
        } else {
            0
        }
    }
}

/// Number of nodes that are connected to `node`, itself included.
pub open spec fn component_size<P>(g: &RoutingGraph<P>, node: int) -> nat {
    count_where(g.num_nodes as nat, |i: int| connected(g, i, node))
}

/// The size of a component is the number of nodes that are connected to its node.
pub proof fn lemma_component_size<P>(g: &RoutingGraph<P>, node: int)
    ensures
        ({
            let nodes = Set::new(|i: int| 0 <= i < g.num_nodes && connected(g, i, node));
            nodes.finite() && component_size(g, node) == nodes.len()
        }),
{
    lemma_count_is_cardinality(g.num_nodes as nat, |i: int| connected(g, i, node));
    let p = |i: int| connected(g, i, node);
    assert(Set::new(|i: int| 0 <= i < g.num_nodes && connected(g, i, node)) =~= Set::new(
        |i: int| 0 <= i < g.num_nodes && p(i),
    ));
}

proof fn lemma_count_is_cardinality(n: nat, p: spec_fn(int) -> bool)
    ensures
        Set::new(|i: int| 0 <= i < n && p(i)).finite(),
        Set::new(|i: int| 0 <= i < n && p(i)).len() == count_where(n, p),
    decreases n,
{
    let all = Set::new(|i: int| 0 <= i < n && p(i));
    if n == 0 {
        assert(all =~= Set::<int>::empty());
    } else {
        lemma_count_is_cardinality((n - 1) as nat, p);
        let less = Set::new(|i: int| 0 <= i < n - 1 && p(i));
        if p(n - 1) {
            assert(all =~= less.insert(n - 1));
        } else {
            assert(all =~= less);
        }
    }
}

/// `roots` holds one node of every component.
pub open spec fn one_per_component<P>(g: &RoutingGraph<P>, roots: Seq<int>) -> bool {
    &&& forall|k: int| 0 <= k < roots.len() ==> 0 <= #[trigger] roots[k] < g.num_nodes
    &&& forall|j: int, k: int|
        0 <= j < k < roots.len() ==> !connected(g, #[trigger] roots[j], #[trigger] roots[k])
    &&& forall|node: int| #[trigger]
        is_node(g, node) ==> exists|k: int|
            0 <= k < roots.len() && connected(g, node, #[trigger] roots[k])
}

pub open spec fn is_node<P>(g: &RoutingGraph<P>, node: int) -> bool {
    0 <= node < g.num_nodes
}

/// The sizes of the components that `roots` stands for.
pub open spec fn sizes_of<P>(g: &RoutingGraph<P>, roots: Seq<int>) -> Seq<nat> {
    roots.map_values(|r: int| component_size(g, r))
}

proof fn lemma_count_ext(n: nat, p: spec_fn(int) -> bool, q: spec_fn(int) -> bool)
    requires
        forall|i: int| 0 <= i < n ==> #[trigger] p(i) == q(i),
    ensures
        count_where(n, p) == count_where(n, q),
    decreases n,
{
    if n > 0 {
        lemma_count_ext((n - 1) as nat, p, q);
        assert(p(n - 1) == q(n - 1));
    }
}

pub proof fn lemma_count_bound(n: nat, p: spec_fn(int) -> bool)
    ensures
        count_where(n, p) <= n,
        count_where(n, p) == n ==> forall|i: int| 0 <= i < n ==> #[trigger] p(i),
        count_where(n, p) == 0 ==> forall|i: int| 0 <= i < n ==> !(#[trigger] p(i)),
        (forall|i: int| 0 <= i < n ==> #[trigger] p(i)) ==> count_where(n, p) == n,
        (forall|i: int| 0 <= i < n ==> !(#[trigger] p(i))) ==> count_where(n, p) == 0,
    decreases n,
{
    if n > 0 {
        lemma_count_bound((n - 1) as nat, p);
    }
}

pub proof fn lemma_label_count<P>(g: &RoutingGraph<P>, labels: Seq<u32>, node: int)
    requires
        labels_ok(g, labels),
        0 <= node < labels.len(),
    ensures
        component_size(g, node) == count_where(
            labels.len(),
            has_label(labels, labels[node] as int),
        ),
{
    let p = |i: int| connected(g, i, node);
    let q = has_label(labels, labels[node] as int);
    assert forall|i: int| 0 <= i < labels.len() implies #[trigger] p(i) == q(i) by {
        assert((labels[i] == labels[node]) <==> connected(g, i, node));
    }
    lemma_count_ext(labels.len(), p, q);
}

/// Tells the nodes that have label `l`.
pub open spec fn has_label(labels: Seq<u32>, l: int) -> spec_fn(int) -> bool {
    |i: int| labels[i] == l
}

/// How often each label occurs.
pub(crate) fn tally(labels: &Vec<u32>) -> (counts: Vec<u32>)
    requires
        labels@.len() <= u32::MAX,
        forall|i: int| 0 <= i < labels@.len() ==> #[trigger] labels@[i] < labels@.len(),
    ensures
        counts@.len() == labels@.len(),
        forall|l: int|
            0 <= l < labels@.len() ==> #[trigger] counts@[l] == count_where(
                labels@.len(),
                has_label(labels@, l),
            ),
{
    let n: usize = labels.len();
    let mut counts: Vec<u32> = Vec::new();
    for i in 0..n
        invariant
            counts@.len() == i,
            forall|l: int| 0 <= l < i ==> #[trigger] counts@[l] == 0,
    {
        counts.push(0);
    }
    for i in 0..n
        invariant
            n == labels@.len(),
            n <= u32::MAX,
            counts@.len() == n,
            forall|k: int| 0 <= k < labels@.len() ==> #[trigger] labels@[k] < labels@.len(),
            forall|l: int|
                0 <= l < n ==> #[trigger] counts@[l] == count_where(
                    i as nat,
                    has_label(labels@, l),
                ),
    {
        let l: usize = labels[i] as usize;
        proof {
            lemma_count_bound(i as nat, has_label(labels@, l as int));
            assert(counts@[l as int] <= i);
        }
        let more: u32 = counts[l] + 1;
        counts.set(l, more);
    }
    counts
}

impl<P> RoutingGraph<P> {
    /// The sizes of the connected components, largest first.
    pub fn connected_components(&self) -> (sizes: Vec<usize>)
        requires
            self.wf(),
        ensures
            exists|roots: Seq<int>| #[trigger]
                one_per_component(self, roots) && sizes_of(self, roots) == sizes@.map_values(
                    |s: usize| s as nat,
                ),
            forall|i: int, j: int|
                0 <= i <= j < sizes@.len() ==> #[trigger] sizes@[i] >= #[trigger] sizes@[j],
    {
        let labels = self.component_labels();
        let counts = tally(&labels);
        let n: u32 = self.num_nodes;
        let mut found: Vec<Keyed> = Vec::new();
        let mut l: u32 = 0;
        while l < n
            invariant
                l <= n,
                n == self.num_nodes,
                counts@.len() == n,
                labels_ok(self, labels@),
                forall|k: int|
                    0 <= k < n ==> #[trigger] counts@[k] == count_where(
                        n as nat,
                        has_label(labels@, k),
                    ),
                forall|k: int|
                    0 <= k < found@.len() ==> (#[trigger] found@[k]).1 < l && labels@[found@[k].1
                        as int] == found@[k].1 && found@[k].0 == counts@[found@[k].1 as int],
                forall|j: int, k: int|
                    0 <= j < k < found@.len() ==> (#[trigger] found@[j]).1 != (
                    #[trigger] found@[k]).1,
                forall|r: int|
                    0 <= r < l && #[trigger] labels@[r] == r ==> exists|k: int|
                        0 <= k < found@.len() && (#[trigger] found@[k]).1 == r,
            decreases n - l,
        {
            let ghost before = found@;
            if labels[l as usize] == l {
                found.push((counts[l as usize] as u64, l));
                assert(found@[before.len() as int].1 == l);
            }
            assert forall|r: int| 0 <= r < l + 1 && #[trigger] labels@[r] == r implies exists|
                k: int,
            |
                0 <= k < found@.len() && (#[trigger] found@[k]).1 == r by {
                if r < l {
                    let k = choose|k: int| 0 <= k < before.len() && (#[trigger] before[k]).1 == r;
                    assert(found@[k].1 == r);
                }
            }
            l = l + 1;
        }
        let sorted = sort_keyed(&found);
        let m: usize = sorted.len();
        let mut sizes: Vec<usize> = Vec::new();
        let mut i: usize = 0;
        proof {
            lemma_same_entries(sorted@, found@);
            assert forall|k: int| 0 <= k < m implies {
                &&& (#[trigger] sorted@[k]).1 < n
                &&& labels@[sorted@[k].1 as int] == sorted@[k].1
                &&& sorted@[k].0 == counts@[sorted@[k].1 as int]
            } by {
                assert(sorted@.contains(sorted@[k]));
                assert(found@.contains(sorted@[k]));
            }
        }
        while i < m
            invariant
                i <= m,
                m == sorted@.len(),
                sizes@.len() == i,
                keyed_sorted(sorted@),
                counts@.len() == n,
                forall|k: int|
                    0 <= k < m ==> (#[trigger] sorted@[k]).1 < n && sorted@[k].0
                        == counts@[sorted@[k].1 as int],
                forall|k: int| 0 <= k < i ==> (#[trigger] sizes@[k]) == sorted@[m - 1 - k].0,
            decreases m - i,
        {
            assert(sorted@[m - 1 - i].0 == counts@[sorted@[m - 1 - i].1 as int]);
            sizes.push(sorted[m - 1 - i].0 as usize);
            i = i + 1;
        }
        proof {
            let roots = Seq::new(m as nat, |k: int| sorted@[m - 1 - k].1 as int);
            assert forall|k: int| 0 <= k < m implies sizes@[k] as nat == component_size(
                self,
                #[trigger] roots[k],
            ) by {
                let r = sorted@[m - 1 - k].1 as int;
                assert(labels@[r] == r);
                lemma_label_count(self, labels@, r);
                assert(counts@[r] == count_where(n as nat, has_label(labels@, r)));
                assert(sizes@[k] == sorted@[m - 1 - k].0);
            }
            assert(sizes_of(self, roots) =~= sizes@.map_values(|s: usize| s as nat));
            assert(one_per_component(self, roots)) by {
                assert forall|j: int, k: int| 0 <= j < k < roots.len() implies !connected(
                    self,
                    #[trigger] roots[j],
                    #[trigger] roots[k],
                ) by {
                    lemma_distinct_roots(found@, sorted@);
                    assert(sorted@[m - 1 - j].1 != sorted@[m - 1 - k].1);
                    assert(labels@[roots[j]] != labels@[roots[k]]);
                }
                assert forall|node: int| #[trigger] is_node(self, node) implies exists|k: int|
                    0 <= k < roots.len() && connected(self, node, #[trigger] roots[k]) by {
                    let r = labels@[node] as int;
                    assert(labels@[r] == r);
                    let k = choose|k: int| 0 <= k < found@.len() && (#[trigger] found@[k]).1 == r;
                    assert(found@.contains(found@[k]));
                    assert(sorted@.contains(found@[k]));
                    let q = choose|q: int| 0 <= q < sorted@.len() && sorted@[q] == found@[k];
                    assert(roots[m - 1 - q] == r);
                }
            }
        }
        sizes
    }
}

/// Reordering entries whose numbers differ keeps them different.
proof fn lemma_distinct_roots(found: Seq<Keyed>, sorted: Seq<Keyed>)
    requires
        sorted.to_multiset() == found.to_multiset(),
        forall|j: int, k: int|
            0 <= j < k < found.len() ==> (#[trigger] found[j]).1 != (#[trigger] found[k]).1,
    ensures
        forall|j: int, k: int|
            0 <= j < k < sorted.len() ==> (#[trigger] sorted[j]).1 != (#[trigger] sorted[k]).1,
{
    assert(found.no_duplicates());
    lemma_same_entries(sorted, found);
    assert forall|j: int, k: int| 0 <= j < k < sorted.len() implies (#[trigger] sorted[j]).1 != (
    #[trigger] sorted[k]).1 by {
        assert(sorted.contains(sorted[j]));
        assert(sorted.contains(sorted[k]));
        let a = choose|a: int| 0 <= a < found.len() && found[a] == sorted[j];
        let b = choose|b: int| 0 <= b < found.len() && found[b] == sorted[k];
        assert(sorted[j] != sorted[k]);
        assert(a != b);
        if a < b {
            assert(found[a].1 != found[b].1);
        } else {
            assert(found[b].1 != found[a].1);
        }
    }
}

/// The label that occurs most often, the smallest of them where several do.
pub(crate) fn most_frequent(counts: &Vec<u32>) -> (best: u32)
    requires
        0 < counts@.len() <= u32::MAX,
    ensures
        best < counts@.len(),
        forall|l: int| 0 <= l < counts@.len() ==> #[trigger] counts@[l] <= counts@[best as int],
        forall|l: int| 0 <= l < best ==> #[trigger] counts@[l] < counts@[best as int],
{
    let mut best: usize = 0;
    for l in 1..counts.len()
        invariant
            best < l <= counts@.len() <= u32::MAX,
            forall|k: int| 0 <= k < l ==> #[trigger] counts@[k] <= counts@[best as int],
            forall|k: int| 0 <= k < best ==> #[trigger] counts@[k] < counts@[best as int],
    {
        if counts[l] > counts[best] {
            best = l;
        }
    }
    best as u32
}

} // verus!
