//! Reduction of a graph to its largest connected component.

use vstd::prelude::*;
use crate::components::{
    component_size, connected, count_where, has_edge, has_label, is_node, is_walk, labels_ok,
    lemma_component_size, lemma_connected_linked, lemma_connected_refl, lemma_connected_sym,
    lemma_connected_trans,
    lemma_count_bound, lemma_label_count, linked, most_frequent, tally,
};
use crate::edge_list::{
    ascending, edge_bytes, lemma_edge_bytes_mono, lemma_entries_ascend,
    lemma_reencoded_edges_len, targets_below, Edge,
};
use crate::graph::{
    by_target, bytes_upto, edge_weight, lemma_by_target_of_ascending, lemma_weight_of_whole,
    out_edges, GraphBuilder, LongEdge, RoutingGraph, CENTI_NM,
};

verus! {

/// No component is larger than that of `main`.
pub open spec fn in_largest_component<P>(g: &RoutingGraph<P>, main: int) -> bool {
    &&& is_node(g, main)
    &&& forall|v: int| #[trigger]
        is_node(g, v) ==> component_size(g, v) <= component_size(g, main)
}

/// `kept` lists the nodes of the component of `main` in ascending order.
pub open spec fn lists_component<P>(g: &RoutingGraph<P>, main: int, kept: Seq<int>) -> bool {
    &&& forall|k: int|
        0 <= k < kept.len() ==> is_node(g, #[trigger] kept[k]) && connected(g, kept[k], main)
    &&& forall|j: int, k: int|
        0 <= j < k < kept.len() ==> #[trigger] kept[j] < #[trigger] kept[k]
    &&& forall|v: int| #[trigger] is_node(g, v) && connected(g, v, main) ==> kept.contains(v)
}

/// Number of edges that leave the first `k` of the nodes in `kept`.
pub open spec fn kept_edges<P>(g: &RoutingGraph<P>, kept: Seq<int>, k: nat) -> nat
    decreases k,
{
    if k == 0 {
        0
    } else {
        kept_edges(g, kept, (k - 1) as nat) + g.adj(kept[k - 1]).len()
    }
}

/// `near` and `far` hold the same edges, `near` with the position in `kept` for
/// each target.
pub open spec fn renumbered(near: Seq<Edge>, far: Seq<Edge>, kept: Seq<int>) -> bool {
    &&& near.len() == far.len()
    &&& forall|e: int|
        0 <= e < near.len() ==> (#[trigger] near[e]).0 < kept.len() && kept[near[e].0 as int]
            == far[e].0 && near[e].1 == far[e].1
}

/// `r` is `g` with the nodes of `kept` alone.
pub open spec fn restricted<P>(g: &RoutingGraph<P>, kept: Seq<int>, r: &RoutingGraph<P>) -> bool {
    &&& r.num_nodes == kept.len()
    &&& r.num_edges == kept_edges(g, kept, kept.len())
    &&& r.coastline_coords == g.coastline_coords
    &&& forall|k: int| 0 <= k < kept.len() ==> #[trigger] r.node_h3@[k] == g.node_h3@[kept[k]]
    &&& forall|k: int|
        0 <= k < kept.len() ==> #[trigger] r.shore_dist@[k] == g.shore_dist@[kept[k]]
    &&& forall|k: int| 0 <= k < kept.len() ==> renumbered(#[trigger] r.adj(k), g.adj(kept[k]), kept)
}

/// Strictly increasing integers grow at least as fast as their positions.
proof fn lemma_kept_gap(kept: Seq<int>, i: int, j: int)
    requires
        forall|a: int, b: int|
            0 <= a < b < kept.len() ==> #[trigger] kept[a] < #[trigger] kept[b],
        0 <= i <= j < kept.len(),
    ensures
        j - i <= kept[j] - kept[i],
    decreases j - i,
{
    if i < j {
        lemma_kept_gap(kept, i, j - 1);
        assert(kept[j - 1] < kept[j]);
    }
}

/// Renumbering keeps the order and takes no more bytes.
proof fn lemma_renumbered(near: Seq<Edge>, far: Seq<Edge>, kept: Seq<int>)
    requires
        ascending(far),
        renumbered(near, far, kept),
        forall|a: int, b: int|
            0 <= a < b < kept.len() ==> #[trigger] kept[a] < #[trigger] kept[b],
        forall|a: int| 0 <= a < kept.len() ==> 0 <= #[trigger] kept[a],
    ensures
        ascending(near),
        edge_bytes(near, 0).len() <= edge_bytes(far, 0).len(),
{
    assert forall|i: int, j: int| 0 <= i <= j < near.len() implies (#[trigger] near[i]).0 <= (
    #[trigger] near[j]).0 && near[j].0 - near[i].0 <= far[j].0 - far[i].0 by {
        let a = near[i].0 as int;
        let b = near[j].0 as int;
        assert(far[i].0 <= far[j].0);
        if b < a {
            assert(kept[b] < kept[a]);
        } else {
            lemma_kept_gap(kept, a, b);
        }
    }
    if near.len() > 0 {
        lemma_kept_gap(kept, 0, near[0].0 as int);
    }
    lemma_edge_bytes_mono(near, 0, far, 0);
}

/// The bytes of the first `k` kept nodes are no more than those of all nodes up
/// to the last of them.
proof fn lemma_kept_bytes<P>(g: &RoutingGraph<P>, kept: Seq<int>, edges: Seq<LongEdge>, k: nat)
    requires
        g.wf(),
        k <= kept.len(),
        forall|a: int| 0 <= a < kept.len() ==> 0 <= #[trigger] kept[a] < g.num_nodes,
        forall|a: int, b: int|
            0 <= a < b < kept.len() ==> #[trigger] kept[a] < #[trigger] kept[b],
        forall|a: int|
            0 <= a < kept.len() ==> renumbered(
                #[trigger] out_edges(edges, a),
                g.adj(kept[a]),
                kept,
            ),
    ensures
        k == 0 ==> bytes_upto(edges, k).len() == 0,
        k > 0 ==> bytes_upto(edges, k).len() <= g.offsets@[kept[k - 1] + 1],
    decreases k,
{
    if k > 0 {
        lemma_kept_bytes(g, kept, edges, (k - 1) as nat);
        let v = kept[k - 1];
        let near = out_edges(edges, k - 1);
        lemma_entries_ascend(g.node_bytes(v), 0, 0);
        lemma_renumbered(near, g.adj(v), kept);
        lemma_by_target_of_ascending(near);
        assert(g.offsets@[v] <= g.offsets@[v + 1]);
        assert(g.offsets@[v + 1] <= g.offsets@[g.num_nodes as int]);
        lemma_reencoded_edges_len(g.node_bytes(v), 0, 0);
        if k > 1 {
            assert(kept[k - 2] < kept[k - 1]);
            assert(g.offsets@[kept[k - 2] + 1] <= g.offsets@[v]);
        }
    }
}

/// Where each old node goes: `inv` is the inverse of `kept`.
spec fn inverse(inv: Seq<Option<u32>>, kept: Seq<int>) -> bool {
    &&& forall|v: int|
        0 <= v < inv.len() ==> (#[trigger] inv[v] matches Some(k) ==> k < kept.len() && kept[k as int]
            == v)
    &&& forall|k: int|
        0 <= k < kept.len() ==> 0 <= #[trigger] kept[k] < inv.len() && inv[kept[k]] == Some(
            k as u32,
        )
}

/// `r` is the largest component of `g`: all of `g` where that is one component.
pub open spec fn is_pruned<P>(g: &RoutingGraph<P>, r: &RoutingGraph<P>) -> bool {
    &&& g.num_nodes == 0 ==> *r == *g
    &&& g.num_nodes > 0 ==> exists|main: int, kept: Seq<int>|
        {
            &&& in_largest_component(g, main)
            &&& #[trigger] lists_component(g, main, kept)
            &&& kept.len() == component_size(g, main)
            &&& if kept.len() == g.num_nodes {
                *r == *g
            } else {
                restricted(g, kept, r)
            }
        }
}

impl<P> RoutingGraph<P> {
    /// Keeps only the largest connected component, with the nodes numbered anew
    /// in their old order. A graph that is one component is returned unchanged.
    pub fn prune_to_main_component(self) -> (r: RoutingGraph<P>)
        requires
            self.wf(),
        ensures
            r.wf(),
            is_pruned(&self, &r),
    {
        let n: u32 = self.num_nodes;
        if n == 0 {
            return self;
        }
        let labels = self.component_labels();
        let counts = tally(&labels);
        let main: u32 = most_frequent(&counts);
        proof {
            lemma_main_label(&self, labels@, counts@, main);
        }
        if counts[main as usize] == n {
            proof {
                let kept = Seq::new(n as nat, |i: int| i);
                lemma_count_bound(n as nat, has_label(labels@, main as int));
                assert forall|v: int| 0 <= v < n implies connected(&self, v, main as int) by {
                    assert(has_label(labels@, main as int)(v));
                    assert(labels@[v] == labels@[main as int]);
                }
                assert forall|v: int| #[trigger]
                    is_node(&self, v) && connected(
                        &self,
                        v,
                        main as int,
                    ) implies kept.contains(v) by {
                    assert(kept[v] == v);
                }
                assert(lists_component(&self, main as int, kept));
            }
            return self;
        }
        let mut builder: GraphBuilder<P> = GraphBuilder::new();
        let (inv, Ghost(kept)) = keep_nodes(&self, &labels, main, &mut builder);
        keep_edges(&self, &labels, main, &inv, Ghost(kept), &mut builder);
        let ghost g = self;
        builder.coastline_coords = self.coastline_coords;
        proof {
            lemma_kept_bytes(&g, kept, builder.edges@, kept.len());
            if kept.len() > 0 {
                let last = kept[kept.len() - 1];
                assert(g.offsets@[last + 1] <= g.offsets@[n as int]);
            }
        }
        let r = builder.build();
        proof {
            assert forall|k: int| 0 <= k < kept.len() implies renumbered(
                #[trigger] r.adj(k),
                g.adj(kept[k]),
                kept,
            ) by {
                let near = out_edges(builder.edges@, k);
                assert(renumbered(near, g.adj(kept[k]), kept));
                assert(r.holds(k, by_target(near)));
                lemma_entries_ascend(g.node_bytes(kept[k]), 0, 0);
                lemma_renumbered(near, g.adj(kept[k]), kept);
                lemma_by_target_of_ascending(near);
            }
            assert(restricted(&g, kept, &r));
            assert(lists_component(&g, main as int, kept));
        }
        r
    }
}

/// The most frequent label stands for a largest component.
pub proof fn lemma_main_label<P>(g: &RoutingGraph<P>, labels: Seq<u32>, counts: Seq<u32>, main: u32)
    requires
        g.num_nodes > 0,
        labels_ok(g, labels),
        counts.len() == labels.len(),
        forall|l: int|
            0 <= l < labels.len() ==> #[trigger] counts[l] == count_where(
                labels.len(),
                has_label(labels, l),
            ),
        main < labels.len(),
        forall|l: int| 0 <= l < counts.len() ==> #[trigger] counts[l] <= counts[main as int],
    ensures
        labels[main as int] == main,
        in_largest_component(g, main as int),
        component_size(g, main as int) == counts[main as int],
{
    let n = labels.len();
    let first = labels[0] as int;
    lemma_count_bound(n, has_label(labels, first));
    assert(has_label(labels, first)(0));
    assert(counts[first] > 0);
    lemma_count_bound(n, has_label(labels, main as int));
    assert(counts[main as int] > 0);
    let i = choose|i: int| 0 <= i < n && #[trigger] has_label(labels, main as int)(i);
    assert(labels[i] == main);
    lemma_label_count(g, labels, main as int);
    assert forall|v: int| #[trigger] is_node(g, v) implies component_size(g, v) <= component_size(
        g,
        main as int,
    ) by {
        lemma_label_count(g, labels, v);
        assert(counts[labels[v] as int] <= counts[main as int]);
    }
}

/// Adds the nodes with label `main` to `builder`, in their order.
fn keep_nodes<P>(
    g: &RoutingGraph<P>,
    labels: &Vec<u32>,
    main: u32,
    builder: &mut GraphBuilder<P>,
) -> (r: (Vec<Option<u32>>, Ghost<Seq<int>>))
    requires
        g.wf(),
        labels_ok(g, labels@),
        main < labels@.len(),
        labels@[main as int] == main,
        old(builder).nodes@.len() == 0,
        old(builder).edges@.len() == 0,
    ensures
        r.0@.len() == g.num_nodes,
        inverse(r.0@, r.1@),
        lists_component(g, main as int, r.1@),
        r.1@.len() == count_where(labels@.len(), has_label(labels@, main as int)),
        forall|v: int|
            0 <= v < labels@.len() && labels@[v] == main ==> (#[trigger] r.0@[v]) is Some,
        final(builder).edges@.len() == 0,
        final(builder).nodes@.len() == r.1@.len(),
        r.1@.len() <= g.num_nodes,
        forall|k: int|
            0 <= k < r.1@.len() ==> (#[trigger] final(builder).nodes@[k]) == (
                g.node_h3@[r.1@[k]],
                g.shore_dist@[r.1@[k]],
            ),
{
    let n: u32 = g.num_nodes;
    let mut inv: Vec<Option<u32>> = Vec::new();
    let ghost mut kept: Seq<int> = Seq::empty();
    let mut old_id: u32 = 0;
    while old_id < n
        invariant
            g.wf(),
            labels_ok(g, labels@),
            main < labels@.len(),
            labels@[main as int] == main,
            n == g.num_nodes,
            old_id <= n,
            inv@.len() == old_id,
            inverse(inv@, kept),
            kept.len() <= old_id,
            kept.len() == count_where(old_id as nat, has_label(labels@, main as int)),
            forall|k: int|
                0 <= k < kept.len() ==> 0 <= (#[trigger] kept[k]) < old_id && labels@[kept[k]]
                    == main,
            forall|j: int, k: int|
                0 <= j < k < kept.len() ==> #[trigger] kept[j] < #[trigger] kept[k],
            forall|v: int|
                0 <= v < old_id && labels@[v] == main ==> (#[trigger] inv@[v]) is Some,
            builder.edges@.len() == 0,
            builder.nodes@.len() == kept.len(),
            forall|k: int|
                0 <= k < kept.len() ==> (#[trigger] builder.nodes@[k]) == (
                    g.node_h3@[kept[k]],
                    g.shore_dist@[kept[k]],
                ),
        decreases n - old_id,
    {
        if labels[old_id as usize] == main {
            let new_id: u32 = builder.add_node(
                g.node_h3[old_id as usize],
                g.shore_dist[old_id as usize],
            );
            inv.push(Some(new_id));
            proof {
                kept = kept.push(old_id as int);
            }
        } else {
            inv.push(None);
        }
        old_id = old_id + 1;
    }
    proof {
        assert forall|k: int| 0 <= k < kept.len() implies is_node(g, #[trigger] kept[k])
            && connected(g, kept[k], main as int) by {
            assert(labels@[kept[k]] == labels@[main as int]);
        }
        assert forall|v: int| #[trigger]
            is_node(g, v) && connected(g, v, main as int) implies kept.contains(v) by {
            assert(labels@[v] == labels@[main as int]);
            assert(inv@[v] is Some);
            let k = inv@[v].unwrap();
            assert(kept[k as int] == v);
        }
    }
    (inv, Ghost(kept))
}

proof fn lemma_out_edges_push(edges: Seq<LongEdge>, e: LongEdge, v: int)
    ensures
        out_edges(edges.push(e), v) == if e.0 == v {
            out_edges(edges, v).push((e.1, edge_weight(e.2)))
        } else {
            out_edges(edges, v)
        },
{
    assert(edges.push(e).drop_last() =~= edges);
}

/// Adds the edges that leave the nodes with label `main` to `builder`.
fn keep_edges<P>(
    g: &RoutingGraph<P>,
    labels: &Vec<u32>,
    main: u32,
    inv: &Vec<Option<u32>>,
    Ghost(kept): Ghost<Seq<int>>,
    builder: &mut GraphBuilder<P>,
)
    requires
        g.wf(),
        labels_ok(g, labels@),
        main < labels@.len(),
        inv@.len() == g.num_nodes,
        inverse(inv@, kept),
        lists_component(g, main as int, kept),
        kept.len() <= g.num_nodes,
        labels@[main as int] == main,
        old(builder).edges@.len() == 0,
        old(builder).nodes@.len() == kept.len(),
        forall|v: int|
            0 <= v < labels@.len() && labels@[v] == main ==> (#[trigger] inv@[v]) is Some,
    ensures
        final(builder).nodes == old(builder).nodes,
        final(builder).edges@.len() == kept_edges(g, kept, kept.len()),
        forall|i: int|
            0 <= i < final(builder).edges@.len() ==> (#[trigger] final(builder).edges@[i]).0
                < kept.len() && final(builder).edges@[i].1 < kept.len()
                && final(builder).edges@[i].2 <= crate::graph::MAX_EDGE_LENGTH,
        forall|k: int|
            0 <= k < kept.len() ==> renumbered(
                #[trigger] out_edges(final(builder).edges@, k),
                g.adj(kept[k]),
                kept,
            ),
{
    let n: u32 = g.num_nodes;
    let ghost mut done: int = 0;
    let mut old_src: u32 = 0;
    while old_src < n
        invariant
            g.wf(),
            labels_ok(g, labels@),
            main < labels@.len(),
            labels@[main as int] == main,
            n == g.num_nodes,
            inv@.len() == n,
            inverse(inv@, kept),
            lists_component(g, main as int, kept),
            forall|v: int|
                0 <= v < labels@.len() && labels@[v] == main ==> (#[trigger] inv@[v]) is Some,
            builder.nodes == old(builder).nodes,
            old_src <= n,
            0 <= done <= kept.len() <= n,
            forall|k: int| 0 <= k < done ==> #[trigger] kept[k] < old_src,
            forall|k: int| done <= k < kept.len() ==> #[trigger] kept[k] >= old_src,
            builder.edges@.len() == kept_edges(g, kept, done as nat),
            forall|i: int|
                0 <= i < builder.edges@.len() ==> (#[trigger] builder.edges@[i]).0 < kept.len()
                    && builder.edges@[i].1 < kept.len() && builder.edges@[i].2
                    <= crate::graph::MAX_EDGE_LENGTH,
            forall|k: int|
                0 <= k < done ==> renumbered(
                    #[trigger] out_edges(builder.edges@, k),
                    g.adj(kept[k]),
                    kept,
                ),
            forall|k: int|
                done <= k < kept.len() ==> (#[trigger] out_edges(builder.edges@, k)).len() == 0,
        decreases n - old_src,
    {
        assert(g.node_valid(old_src as int));
        if labels[old_src as usize] == main {
            if let Some(new_src) = inv[old_src as usize] {
                assert(kept[new_src as int] == old_src);
                assert(new_src == done) by {
                    if new_src < done {
                        assert(kept[new_src as int] < old_src);
                    } else if new_src > done {
                        assert(kept[done] < kept[new_src as int]);
                    }
                }
                keep_node_edges(
                    g,
                    labels,
                    main,
                    inv,
                    Ghost(kept),
                    old_src,
                    new_src,
                    builder,
                );
                proof {
                    done = done + 1;
                }
            }
        } else {
            assert forall|k: int| done <= k < kept.len() implies #[trigger] kept[k] >= old_src
                + 1 by {
                if kept[k] == old_src {
                    assert(is_node(g, kept[k]));
                    assert(labels@[kept[k]] == labels@[main as int]);
                }
            }
        }
        old_src = old_src + 1;
    }
}

/// Adds the edges of one node.
fn keep_node_edges<P>(
    g: &RoutingGraph<P>,
    labels: &Vec<u32>,
    main: u32,
    inv: &Vec<Option<u32>>,
    Ghost(kept): Ghost<Seq<int>>,
    old_src: u32,
    new_src: u32,
    builder: &mut GraphBuilder<P>,
)
    requires
        g.wf(),
        labels_ok(g, labels@),
        main < labels@.len(),
        inv@.len() == g.num_nodes,
        inverse(inv@, kept),
        old_src < g.num_nodes,
        labels@[old_src as int] == main,
        new_src < kept.len(),
        out_edges(old(builder).edges@, new_src as int).len() == 0,
        forall|v: int|
            0 <= v < labels@.len() && labels@[v] == main ==> (#[trigger] inv@[v]) is Some,
        forall|i: int|
            0 <= i < old(builder).edges@.len() ==> (#[trigger] old(builder).edges@[i]).0
                < kept.len() && old(builder).edges@[i].1 < kept.len()
                && old(builder).edges@[i].2 <= crate::graph::MAX_EDGE_LENGTH,
    ensures
        final(builder).nodes == old(builder).nodes,
        final(builder).edges@.len() == old(builder).edges@.len() + g.adj(old_src as int).len(),
        forall|i: int|
            0 <= i < final(builder).edges@.len() ==> (#[trigger] final(builder).edges@[i]).0
                < kept.len() && final(builder).edges@[i].1 < kept.len()
                && final(builder).edges@[i].2 <= crate::graph::MAX_EDGE_LENGTH,
        forall|k: int|
            k != new_src ==> #[trigger] out_edges(final(builder).edges@, k) == out_edges(
                old(builder).edges@,
                k,
            ),
        renumbered(
            out_edges(final(builder).edges@, new_src as int),
            g.adj(old_src as int),
            kept,
        ),
{
    assert(g.node_valid(old_src as int));
    let ghost all = g.adj(old_src as int);
    let list = g.neighbor_list(old_src);
    let mut i: usize = 0;
    while i < list.len()
        invariant
            g.wf(),
            labels_ok(g, labels@),
            main < labels@.len(),
            inv@.len() == g.num_nodes,
            inverse(inv@, kept),
            old_src < g.num_nodes,
            labels@[old_src as int] == main,
            new_src < kept.len(),
            forall|v: int|
                0 <= v < labels@.len() && labels@[v] == main ==> (#[trigger] inv@[v]) is Some,
            list@ == g.adj(old_src as int),
            targets_below(list@, g.num_nodes as int),
            i <= list@.len(),
            builder.nodes == old(builder).nodes,
            builder.edges@.len() == old(builder).edges@.len() + i,
            forall|j: int|
                0 <= j < builder.edges@.len() ==> (#[trigger] builder.edges@[j]).0 < kept.len()
                    && builder.edges@[j].1 < kept.len() && builder.edges@[j].2
                    <= crate::graph::MAX_EDGE_LENGTH,
            forall|k: int|
                k != new_src ==> #[trigger] out_edges(builder.edges@, k) == out_edges(
                    old(builder).edges@,
                    k,
                ),
            renumbered(
                out_edges(builder.edges@, new_src as int),
                list@.take(i as int),
                kept,
            ),
        decreases list@.len() - i,
    {
        let (old_dst, weight) = list[i];
        proof {
            assert(list@[i as int].0 < g.num_nodes);
            assert(g.adj(old_src as int)[i as int].0 == old_dst);
            assert(has_edge(g, old_src as int, old_dst as int));
            lemma_connected_linked(g, old_src as int, old_dst as int);
            assert(labels@[old_src as int] == labels@[old_dst as int]);
            assert(inv@[old_dst as int] is Some);
            assert(list@.take(i + 1) =~= list@.take(i as int).push(list@[i as int]));
        }
        let ghost before = builder.edges@;
        if let Some(new_dst) = inv[old_dst as usize] {
            let length: u32 = weight as u32 * CENTI_NM;
            builder.add_directed_edge(new_src, new_dst, length);
            proof {
                lemma_weight_of_whole(weight);
                assert forall|k: int| k != new_src implies #[trigger] out_edges(
                    builder.edges@,
                    k,
                ) == out_edges(old(builder).edges@, k) by {
                    lemma_out_edges_push(before, (new_src, new_dst, length), k);
                    assert(out_edges(before, k) == out_edges(old(builder).edges@, k));
                }
                lemma_out_edges_push(before, (new_src, new_dst, length), new_src as int);
            }
        }
        i = i + 1;
    }
    assert(list@.take(i as int) =~= list@);
}

/// A walk between kept nodes is a walk of the restricted graph.
proof fn lemma_walk_restricted<P>(
    g: &RoutingGraph<P>,
    main: int,
    kept: Seq<int>,
    r: &RoutingGraph<P>,
    a: int,
    walk: Seq<int>,
)
    requires
        lists_component(g, main, kept),
        restricted(g, kept, r),
        is_node(r, a),
        is_walk(g, walk),
        walk[0] == kept[a],
    ensures
        exists|b: int| #[trigger]
            is_node(r, b) && kept[b] == walk.last() && connected(r, a, b),
    decreases walk.len(),
{
    if walk.len() == 1 {
        lemma_connected_refl(r, a);
    } else {
        let head = walk.drop_last();
        assert(is_walk(g, head));
        lemma_walk_restricted(g, main, kept, r, a, head);
        let b = choose|b: int| #[trigger]
            is_node(r, b) && kept[b] == head.last() && connected(r, a, b);
        let u = walk[walk.len() - 2];
        let v = walk[walk.len() - 1];
        assert(linked(g, u, v));
        lemma_connected_linked(g, u, v);
        lemma_connected_sym(g, u, v);
        assert(connected(g, kept[b], main));
        lemma_connected_trans(g, v, u, main);
        assert(is_node(g, v));
        assert(kept.contains(v));
        let c = choose|c: int| 0 <= c < kept.len() && kept[c] == v;
        assert(is_node(r, c));
        if has_edge(g, u, v) {
            lemma_edge_restricted(g, kept, r, b, c);
        } else {
            lemma_edge_restricted(g, kept, r, c, b);
        }
        lemma_connected_linked(r, b, c);
        lemma_connected_trans(r, a, b, c);
    }
}

proof fn lemma_edge_restricted<P>(
    g: &RoutingGraph<P>,
    kept: Seq<int>,
    r: &RoutingGraph<P>,
    a: int,
    b: int,
)
    requires
        forall|j: int, k: int|
            0 <= j < k < kept.len() ==> #[trigger] kept[j] < #[trigger] kept[k],
        restricted(g, kept, r),
        is_node(r, a),
        is_node(r, b),
        has_edge(g, kept[a], kept[b]),
    ensures
        has_edge(r, a, b),
{
    let k = choose|k: int| 0 <= k < g.adj(kept[a]).len() && (#[trigger] g.adj(kept[a])[k]).0 == kept[b];
    assert(renumbered(r.adj(a), g.adj(kept[a]), kept));
    let c = r.adj(a)[k].0 as int;
    assert(kept[c] == kept[b]);
    if c < b {
        assert(kept[c] < kept[b]);
    } else if b < c {
        assert(kept[b] < kept[c]);
    }
}

/// The nodes that are connected to `v`.
pub open spec fn component_of<P>(g: &RoutingGraph<P>, v: int) -> Set<int> {
    Set::new(|i: int| 0 <= i < g.num_nodes && connected(g, i, v))
}

/// A largest component has as many nodes as any.
pub proof fn lemma_largest<P>(g: &RoutingGraph<P>, main: int, v: int)
    requires
        in_largest_component(g, main),
        0 <= v < g.num_nodes,
    ensures
        component_of(g, v).len() <= component_of(g, main).len(),
        0 <= main < g.num_nodes,
{
    assert(is_node(g, v));
    lemma_component_size(g, v);
    lemma_component_size(g, main);
    assert(component_of(g, v) =~= Set::new(
        |i: int| 0 <= i < g.num_nodes && connected(g, i, v),
    ));
    assert(component_of(g, main) =~= Set::new(
        |i: int| 0 <= i < g.num_nodes && connected(g, i, main),
    ));
}

/// What pruning leaves has as many nodes as the largest component: no component of the
/// graph has more.
pub proof fn lemma_pruned_is_largest<P>(g: &RoutingGraph<P>, r: &RoutingGraph<P>, v: int)
    requires
        is_pruned(g, r),
        0 <= v < g.num_nodes,
    ensures
        component_of(g, v).len() <= r.num_nodes,
        exists|main: int| #[trigger]
            is_node(g, main) && (r.num_nodes == component_of(g, main).len()),
{
    let (main, kept) = choose|main: int, kept: Seq<int>|
        {
            &&& in_largest_component(g, main)
            &&& #[trigger] lists_component(g, main, kept)
            &&& kept.len() == component_size(g, main)
            &&& if kept.len() == g.num_nodes {
                *r == *g
            } else {
                restricted(g, kept, r)
            }
        };
    lemma_largest(g, main, v);
    lemma_component_size(g, main);
    assert(component_of(g, main) =~= Set::new(
        |i: int| 0 <= i < g.num_nodes && connected(g, i, main),
    ));
    assert(is_node(g, main));
}

/// What remains of a graph has the edges that its nodes had, and no others, with their
/// weights.
pub proof fn lemma_restricted_edges<P>(
    g: &RoutingGraph<P>,
    main: int,
    kept: Seq<int>,
    r: &RoutingGraph<P>,
    a: int,
    b: int,
    weight: u16,
)
    requires
        lists_component(g, main, kept),
        restricted(g, kept, r),
        0 <= a < kept.len(),
        0 <= b < kept.len() <= u32::MAX,
    ensures
        r.adj(a).len() == g.adj(kept[a]).len(),
        r.adj(a).contains((b as u32, weight)) <==> exists|k: int|
            0 <= k < g.adj(kept[a]).len() && (#[trigger] g.adj(kept[a])[k]).0 == kept[b] && g.adj(
                kept[a],
            )[k].1 == weight,
{
    let near = r.adj(a);
    let far = g.adj(kept[a]);
    assert(renumbered(near, far, kept));
    let e = (b as u32, weight);
    if near.contains(e) {
        let k = choose|k: int| 0 <= k < near.len() && near[k] == e;
        assert(near[k].0 < kept.len());
        assert(far[k].0 == kept[b] && far[k].1 == weight);
    }
    if exists|k: int| 0 <= k < far.len() && (#[trigger] far[k]).0 == kept[b] && far[k].1 == weight {
        let k = choose|k: int|
            0 <= k < far.len() && (#[trigger] far[k]).0 == kept[b] && far[k].1 == weight;
        let c = near[k].0 as int;
        assert(near[k].0 < kept.len() && kept[c] == kept[b]);
        if c < b {
            assert(kept[c] < kept[b]);
        } else if b < c {
            assert(kept[b] < kept[c]);
        }
        assert(near[k] == e);
    }
}

/// What remains of a graph is one component: every two of its nodes are
/// connected.
pub proof fn lemma_restricted_is_connected<P>(
    g: &RoutingGraph<P>,
    main: int,
    kept: Seq<int>,
    r: &RoutingGraph<P>,
    a: int,
    b: int,
)
    requires
        lists_component(g, main, kept),
        restricted(g, kept, r),
        is_node(r, a),
        is_node(r, b),
    ensures
        connected(r, a, b),
{
    assert(connected(g, kept[a], main));
    assert(connected(g, kept[b], main));
    lemma_connected_sym(g, kept[b], main);
    lemma_connected_trans(g, kept[a], main, kept[b]);
    let walk = choose|walk: Seq<int>| #[trigger]
        is_walk(g, walk) && walk[0] == kept[a] && walk.last() == kept[b];
    lemma_walk_restricted(g, main, kept, r, a, walk);
    let c = choose|c: int| #[trigger]
        is_node(r, c) && kept[c] == walk.last() && connected(r, a, c);
    if c < b {
        assert(kept[c] < kept[b]);
    } else if b < c {
        assert(kept[b] < kept[c]);
    }
}

} // verus!
