//! Figures of a graph, to hold one release against another.

use vstd::prelude::*;
use crate::bounds::NANODEG;
use crate::edge_list::{lemma_entries_len, Edge};
use crate::graph::RoutingGraph;
use crate::oracle::{call1, function1, value1};

verus! {

/// Classes of weights in centi-nm: 0, 1, up to 10, and more.
pub open spec fn weight_class(w: u16) -> int {
    if w == 0 {
        0
    } else if w == 1 {
        1
    } else if w <= 10 {
        2
    } else {
        3
    }
}

/// How many of the edges have a weight of class `c`.
pub open spec fn count_class(list: Seq<Edge>, c: int) -> nat
    decreases list.len(),
{
    if list.len() == 0 {
        0
    } else {
        count_class(list.drop_last(), c) + if weight_class(list.last().1) == c {
            1nat
        } else {
            0
        }
    }
}

/// The least of `least` and the weights of the edges but 0.
pub open spec fn least_weight(list: Seq<Edge>, least: u16) -> u16
    decreases list.len(),
{
    if list.len() == 0 {
        least
    } else {
        let before = least_weight(list.drop_last(), least);
        let w = list.last().1;
        if 0 < w < before {
            w
        } else {
            before
        }
    }
}

/// [`count_class`] over the edges of the first `n` nodes.
pub open spec fn total_class<P>(graph: &RoutingGraph<P>, c: int, n: nat) -> nat
    decreases n,
{
    if n == 0 {
        0
    } else {
        total_class(graph, c, (n - 1) as nat) + count_class(graph.adj(n - 1), c)
    }
}

/// The least weight but 0 of the edges of the first `n` nodes; `u16::MAX` where
/// there is none.
pub open spec fn least_total<P>(graph: &RoutingGraph<P>, n: nat) -> u16
    decreases n,
{
    if n == 0 {
        u16::MAX
    } else {
        least_weight(graph.adj(n - 1), least_total(graph, (n - 1) as nat))
    }
}

/// Weights of the edges of a graph.
#[derive(Debug, Clone, Copy, PartialEq, Eq)]
pub struct WeightSurvey {
    /// Edges without weight. There should be none.
    pub zero: u64,
    pub one: u64,
    pub few: u64,
    pub many: u64,
    /// Least weight but 0, in centi-nm.
    pub min_nonzero: u16,
}

proof fn lemma_count_le(list: Seq<Edge>, c: int)
    ensures
        count_class(list, c) <= list.len(),
    decreases list.len(),
{
    if list.len() > 0 {
        lemma_count_le(list.drop_last(), c);
    }
}

/// Counts the weights of a graph.
pub fn survey_weights<P>(graph: &RoutingGraph<P>) -> (r: WeightSurvey)
    requires
        graph.wf(),
    ensures
        r.zero == total_class(graph, 0, graph.num_nodes as nat),
        r.one == total_class(graph, 1, graph.num_nodes as nat),
        r.few == total_class(graph, 2, graph.num_nodes as nat),
        r.many == total_class(graph, 3, graph.num_nodes as nat),
        r.min_nonzero == least_total(graph, graph.num_nodes as nat),
{
    let mut s = WeightSurvey { zero: 0, one: 0, few: 0, many: 0, min_nonzero: u16::MAX };
    let mut node: u32 = 0;
    while node < graph.num_nodes
        invariant
            node <= graph.num_nodes,
            graph.wf(),
            s.zero == total_class(graph, 0, node as nat) <= node * 0x8000_0000,
            s.one == total_class(graph, 1, node as nat) <= node * 0x8000_0000,
            s.few == total_class(graph, 2, node as nat) <= node * 0x8000_0000,
            s.many == total_class(graph, 3, node as nat) <= node * 0x8000_0000,
            s.min_nonzero == least_total(graph, node as nat),
        decreases graph.num_nodes - node,
    {
        assert(graph.node_valid(node as int));
        let list: Vec<Edge> = graph.neighbor_list(node);
        proof {
            lemma_entries_len(graph.node_bytes(node as int), 0, 0);
        }
        let ghost start = s;
        let mut i: usize = 0;
        assert(list@.take(0) =~= Seq::<Edge>::empty());
        while i < list.len()
            invariant
                i <= list@.len() < 0x8000_0000,
                node < u32::MAX,
                start.zero <= node * 0x8000_0000,
                start.one <= node * 0x8000_0000,
                start.few <= node * 0x8000_0000,
                start.many <= node * 0x8000_0000,
                s.zero == start.zero + count_class(list@.take(i as int), 0),
                s.one == start.one + count_class(list@.take(i as int), 1),
                s.few == start.few + count_class(list@.take(i as int), 2),
                s.many == start.many + count_class(list@.take(i as int), 3),
                s.min_nonzero == least_weight(list@.take(i as int), start.min_nonzero),
            decreases list@.len() - i,
        {
            let w: u16 = list[i].1;
            proof {
                lemma_count_le(list@.take(i as int), 0);
                lemma_count_le(list@.take(i as int), 1);
                lemma_count_le(list@.take(i as int), 2);
                lemma_count_le(list@.take(i as int), 3);
                assert(list@.take(i + 1).drop_last() =~= list@.take(i as int));
            }
            if w == 0 {
                s.zero = s.zero + 1;
            } else if w == 1 {
                s.one = s.one + 1;
            } else if w <= 10 {
                s.few = s.few + 1;
            } else {
                s.many = s.many + 1;
            }
            if w > 0 && w < s.min_nonzero {
                s.min_nonzero = w;
            }
            i = i + 1;
        }
        proof {
            assert(list@.take(i as int) =~= list@);
            lemma_count_le(list@, 0);
            lemma_count_le(list@, 1);
            lemma_count_le(list@, 2);
            lemma_count_le(list@, 3);
        }
        node = node + 1;
    }
    s
}

/// Every edge is in one class: the counts add up to the number of edges.
pub proof fn lemma_classes_add_up(list: Seq<Edge>)
    ensures
        count_class(list, 0) + count_class(list, 1) + count_class(list, 2) + count_class(list, 3)
            == list.len(),
    decreases list.len(),
{
    if list.len() > 0 {
        lemma_classes_add_up(list.drop_last());
    }
}

/// One more edge adds one to the class of its weight: without weight, of one centi-nm,
/// of two to ten, or of more. No other count changes.
pub proof fn lemma_one_more_edge(list: Seq<Edge>, e: Edge, c: int)
    ensures
        count_class(list.push(e), c) == count_class(list, c) + if (c == 0 && e.1 == 0) || (c == 1
            && e.1 == 1) || (c == 2 && 2 <= e.1 <= 10) || (c == 3 && e.1 > 10) {
            1nat
        } else {
            0
        },
        count_class(Seq::<Edge>::empty(), c) == 0,
{
    assert(list.push(e).drop_last() =~= list);
}

/// The counts of a graph are those of its nodes together.
pub proof fn lemma_one_more_node<P>(graph: &RoutingGraph<P>, c: int, n: nat)
    ensures
        total_class(graph, c, 0) == 0,
        total_class(graph, c, n + 1) == total_class(graph, c, n) + count_class(
            graph.adj(n as int),
            c,
        ),
{
}

proof fn lemma_least_weight(list: Seq<Edge>, least: u16)
    ensures
        ({
            let r = least_weight(list, least);
            &&& r <= least
            &&& forall|k: int| 0 <= k < list.len() && (#[trigger] list[k]).1 > 0 ==> r <= list[k].1
            &&& r == least || exists|k: int|
                0 <= k < list.len() && r == (#[trigger] list[k]).1 && list[k].1 > 0
        }),
    decreases list.len(),
{
    if list.len() > 0 {
        let head = list.drop_last();
        lemma_least_weight(head, least);
        let before = least_weight(head, least);
        let r = least_weight(list, least);
        if r == before && r != least {
            let k = choose|k: int|
                0 <= k < head.len() && before == (#[trigger] head[k]).1 && head[k].1 > 0;
            assert(list[k] == head[k]);
        } else if r != before {
            assert(list[list.len() - 1].1 == r);
        }
        assert forall|k: int| 0 <= k < list.len() && (#[trigger] list[k]).1 > 0 implies r
            <= list[k].1 by {
            if k < head.len() {
                assert(head[k] == list[k]);
            }
        }
    }
}

/// No edge of the nodes below `n` weighs less than the least weight, but for those
/// without weight, and one weighs as much unless it is `u16::MAX`.
pub proof fn lemma_least_total<P>(graph: &RoutingGraph<P>, n: nat)
    ensures
        forall|v: int, k: int|
            0 <= v < n && 0 <= k < graph.adj(v).len() && (#[trigger] graph.adj(v)[k]).1 > 0
                ==> least_total(graph, n) <= graph.adj(v)[k].1,
        least_total(graph, n) == u16::MAX || exists|v: int, k: int|
            0 <= v < n && 0 <= k < graph.adj(v).len() && (#[trigger] graph.adj(v)[k]).1
                == least_total(graph, n),
    decreases n,
{
    if n > 0 {
        let m = (n - 1) as nat;
        lemma_least_total(graph, m);
        lemma_least_weight(graph.adj(n - 1), least_total(graph, m));
        let r = least_total(graph, n);
        if r == least_total(graph, m) && r != u16::MAX {
            let (v, k) = choose|v: int, k: int|
                0 <= v < m && 0 <= k < graph.adj(v).len() && (#[trigger] graph.adj(v)[k]).1 == r;
            assert(graph.adj(v)[k].1 == r);
        } else if r != u16::MAX {
            let k = choose|k: int|
                0 <= k < graph.adj(n - 1).len() && r == (#[trigger] graph.adj(n - 1)[k]).1
                    && graph.adj(n - 1)[k].1 > 0;
            assert(graph.adj(n - 1)[k].1 == r);
        }
    }
}

/// Parts of the globe in which nodes are counted.
#[derive(Debug, Clone, Copy, PartialEq, Eq, Structural)]
pub enum Region {
    /// Within five degrees of the antimeridian.
    Seam,
    /// The part of the Bering Sea around it.
    Bering,
    /// The part of it near Fiji.
    Fiji,
    /// The Mediterranean, far away from it.
    Mediterranean,
}

/// At least `degrees` from the prime meridian, either way.
pub open spec fn far_out(lon: i64, degrees: int) -> bool {
    lon >= degrees * NANODEG || lon <= -degrees * NANODEG
}

impl Region {
    /// The point lies in the region.
    pub open spec fn has(self, lat: i64, lon: i64) -> bool {
        match self {
            Region::Seam => far_out(lon, 175),
            Region::Bering => far_out(lon, 168) && 60 * NANODEG <= lat <= 72 * NANODEG,
            Region::Fiji => far_out(lon, 175) && -25 * NANODEG <= lat <= -10 * NANODEG,
            Region::Mediterranean => 0 <= lon <= 30 * NANODEG && 30 * NANODEG <= lat <= 45
                * NANODEG,
        }
    }

    /// Computes [`Region::has`].
    pub fn contains(self, lat: i64, lon: i64) -> (r: bool)
        ensures
            r == self.has(lat, lon),
    {
        match self {
            Region::Seam => lon >= 175 * NANODEG || lon <= -175 * NANODEG,
            Region::Bering => (lon >= 168 * NANODEG || lon <= -168 * NANODEG) && lat >= 60 * NANODEG
                && lat <= 72 * NANODEG,
            Region::Fiji => (lon >= 175 * NANODEG || lon <= -175 * NANODEG) && lat >= -25 * NANODEG
                && lat <= -10 * NANODEG,
            Region::Mediterranean => lon >= 0 && lon <= 30 * NANODEG && lat >= 30 * NANODEG && lat
                <= 45 * NANODEG,
        }
    }
}

/// How many of the first `n` nodes lie in a region. `position` gives a node's
/// latitude and longitude in nanodegrees.
pub open spec fn nodes_in<F: Fn(u32) -> (i64, i64)>(position: F, region: Region, n: nat) -> nat
    decreases n,
{
    if n == 0 {
        0
    } else {
        let (lat, lon) = value1(position, (n - 1) as u32);
        nodes_in(position, region, (n - 1) as nat) + if region.has(lat, lon) {
            1nat
        } else {
            0
        }
    }
}

/// As many nodes are counted as have their position in the region.
pub proof fn lemma_nodes_in<F: Fn(u32) -> (i64, i64)>(position: F, region: Region, n: nat)
    requires
        n <= u32::MAX,
    ensures
        ({
            let nodes = Set::new(
                |v: int|
                    0 <= v < n && region.has(
                        value1(position, v as u32).0,
                        value1(position, v as u32).1,
                    ),
            );
            nodes.finite() && nodes.len() == nodes_in(position, region, n)
        }),
    decreases n,
{
    let nodes = Set::new(
        |v: int|
            0 <= v < n && region.has(value1(position, v as u32).0, value1(position, v as u32).1),
    );
    if n == 0 {
        assert(nodes =~= Set::<int>::empty());
    } else {
        lemma_nodes_in(position, region, (n - 1) as nat);
        let less = Set::new(
            |v: int|
                0 <= v < n - 1 && region.has(
                    value1(position, v as u32).0,
                    value1(position, v as u32).1,
                ),
        );
        let (lat, lon) = value1(position, (n - 1) as u32);
        if region.has(lat, lon) {
            assert(nodes =~= less.insert(n - 1));
        } else {
            assert(nodes =~= less);
        }
    }
}

/// Counts the nodes of a region.
pub fn survey_region<F: Fn(u32) -> (i64, i64)>(num_nodes: u32, region: Region, position: &F) -> (r:
    u64)
    requires
        function1(*position),
    ensures
        r == nodes_in(*position, region, num_nodes as nat),
{
    let mut count: u64 = 0;
    let mut node: u32 = 0;
    while node < num_nodes
        invariant
            function1(*position),
            node <= num_nodes,
            count <= node,
            count == nodes_in(*position, region, node as nat),
        decreases num_nodes - node,
    {
        let (lat, lon): (i64, i64) = call1(position, node);
        if region.contains(lat, lon) {
            count = count + 1;
        }
        node = node + 1;
    }
    count
}

} // verus!
