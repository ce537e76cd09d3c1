//! From cells and edges to the routing graph.

use vstd::prelude::*;
use std::collections::HashMap;
use crate::cell_list::lists;
use crate::cells::numbered;
use crate::container::strictly_sorted;
use crate::graph::{
    by_target, bytes_upto, edge_weight, lemma_by_target_contains, lemma_out_edges_are_those_added,
    out_edges, quantize_shore_dist, quantized, GraphBuilder, LongEdge, RoutingGraph,
    MAX_EDGE_LENGTH,
};
use crate::oracle::{call1, function1, value1};
use crate::sort::Keyed;

verus! {

/// Quantized distances of cells to the nearest coast, in the order of the
/// cells. `distance` measures them in micro-nm.
pub fn compute_shore_distances<F: Fn(u64) -> i64>(cells: &Vec<Keyed>, distance: &F) -> (r: Vec<u8>)
    requires
        function1(*distance),
    ensures
        r@ == cells@.map_values(|e: Keyed| quantized(value1(*distance, e.0))),
{
    let mut out: Vec<u8> = Vec::new();
    for i in 0..cells.len()
        invariant
            function1(*distance),
            out@.len() == i,
            forall|k: int|
                0 <= k < i ==> #[trigger] out@[k] == quantized(value1(*distance, cells@[k].0)),
    {
        out.push(quantize_shore_dist(call1(distance, cells[i].0)));
    }
    assert(out@ =~= cells@.map_values(|e: Keyed| quantized(value1(*distance, e.0))));
    out
}

/// The edges in both directions, with the ends renumbered.
pub open spec fn both_ways(edges: Seq<LongEdge>, renumber: spec_fn(u32) -> u32) -> Seq<LongEdge>
    decreases edges.len(),
{
    if edges.len() == 0 {
        Seq::empty()
    } else {
        let (s, t, length) = edges.last();
        both_ways(edges.drop_last(), renumber).push((renumber(s), renumber(t), length)).push(
            (renumber(t), renumber(s), length),
        )
    }
}

/// Position of the cell with number `id` in the ascending order of the cells.
pub open spec fn rank_of(list: Seq<Keyed>, id: u32) -> u32 {
    (choose|k: int| 0 <= k < list.len() && (#[trigger] list[k]).1 == id) as u32
}

/// [`rank_of`] as a function of the number.
pub open spec fn ranks(list: Seq<Keyed>) -> spec_fn(u32) -> u32 {
    |id: u32| rank_of(list, id)
}

/// The ends of all edges are numbers of cells, and lengths can be stored.
pub open spec fn can_assemble(m: Map<u64, u32>, edges: Seq<LongEdge>) -> bool {
    &&& m.dom().len() <= u32::MAX
    &&& forall|i: int|
        0 <= i < edges.len() ==> (#[trigger] edges[i]).0 < m.dom().len() && edges[i].1
            < m.dom().len() && edges[i].2 <= MAX_EDGE_LENGTH
}

/// How many bytes the edges take in the graph.
pub open spec fn bytes_needed(list: Seq<Keyed>, edges: Seq<LongEdge>) -> nat {
    bytes_upto(both_ways(edges, ranks(list)), list.len()).len()
}

proof fn lemma_rank(m: Map<u64, u32>, list: Seq<Keyed>, k: int)
    requires
        numbered(m),
        lists(m, list),
        0 <= k < list.len(),
        list.len() <= u32::MAX,
    ensures
        rank_of(list, list[k].1) == k,
{
    let id = list[k].1;
    let q = choose|q: int| 0 <= q < list.len() && (#[trigger] list[q]).1 == id;
    assert(m.contains_key(list[k].0) && m.contains_key(list[q].0));
    assert(list[q].0 == list[k].0);
    if q < k {
        assert(list[q].0 < list[k].0);
    } else if k < q {
        assert(list[k].0 < list[q].0);
    }
}

/// Every number below the count of cells is that of a cell.
proof fn lemma_all_ids(m: Map<u64, u32>, list: Seq<Keyed>, id: u32)
    requires
        numbered(m),
        lists(m, list),
        id < list.len(),
    ensures
        exists|k: int| 0 <= k < list.len() && (#[trigger] list[k]).1 == id,
{
    let n = list.len() as int;
    let ids = Seq::new(list.len(), |k: int| list[k].1 as int);
    assert forall|i: int, j: int| 0 <= i < ids.len() && 0 <= j < ids.len() && i != j implies ids[i]
        != ids[j] by {
        assert(m.contains_key(list[i].0) && m.contains_key(list[j].0));
        if i < j {
            assert(list[i].0 < list[j].0);
        } else {
            assert(list[j].0 < list[i].0);
        }
        assert(m[list[i].0] != m[list[j].0]);
    }
    assert(ids.no_duplicates());
    let all = vstd::set_lib::set_int_range(0, n);
    vstd::set_lib::lemma_int_range(0, n);
    ids.unique_seq_to_set();
    assert forall|x: int| ids.to_set().contains(x) implies all.contains(x) by {
        let k = choose|k: int| 0 <= k < ids.len() && ids[k] == x;
        assert(m.contains_key(list[k].0));
    }
    assert(ids.to_set().subset_of(all));
    vstd::set_lib::lemma_subset_equality(ids.to_set(), all);
    assert(all.contains(id as int));
    assert(ids.to_set().contains(id as int));
    let k = choose|k: int| 0 <= k < ids.len() && ids[k] == id as int;
    assert(list[k].1 == id);
}

/// The graph has the cells of the list as its nodes, with their shore distances,
/// and the edges, renumbered to the places in the list, in both directions.
pub open spec fn assembled<P>(
    list: Seq<Keyed>,
    shore: Seq<u8>,
    edges: Seq<LongEdge>,
    g: &RoutingGraph<P>,
) -> bool {
    &&& g.num_nodes == list.len()
    &&& g.num_edges == 2 * edges.len()
    &&& g.shore_dist@ == shore
    &&& g.node_h3@ == list.map_values(|e: Keyed| e.0)
    &&& forall|v: int|
        0 <= v < list.len() ==> #[trigger] g.holds(
            v,
            by_target(out_edges(both_ways(edges, ranks(list)), v)),
        )
}

/// Builds the graph of numbered cells: nodes in ascending order of the cells,
/// and each edge in both directions. `shore` holds the quantized shore distance
/// of each cell in that order. There is no graph where the edges take more bytes
/// than offsets can tell.
pub fn assemble_graph<P>(
    cells: &HashMap<u64, u32>,
    list: &Vec<Keyed>,
    shore: &Vec<u8>,
    edges: &Vec<LongEdge>,
    coastline_coords: Vec<Vec<P>>,
) -> (r: Option<RoutingGraph<P>>)
    requires
        numbered(cells@),
        lists(cells@, list@),
        shore@.len() == list@.len(),
        can_assemble(cells@, edges@),
    ensures
        match r {
            Some(g) => {
                &&& bytes_needed(list@, edges@) <= u32::MAX
                &&& g.wf()
                &&& g.coastline_coords == coastline_coords
                &&& strictly_sorted(g.node_h3@)
                &&& assembled(list@, shore@, edges@, &g)
            },
            None => bytes_needed(list@, edges@) > u32::MAX,
        },
{
    let ghost m = cells@;
    let n: usize = list.len();
    let mut builder: GraphBuilder<P> = GraphBuilder::new();
    let mut id_remap: Vec<u32> = vec![0; n];
    for i in 0..n
        invariant
            n == list@.len(),
            n <= u32::MAX,
            n == m.dom().len(),
            numbered(m),
            lists(m, list@),
            shore@.len() == n,
            id_remap@.len() == n,
            builder.nodes@.len() == i,
            builder.edges@.len() == 0,
            forall|k: int|
                0 <= k < i ==> #[trigger] builder.nodes@[k] == (list@[k].0, shore@[k]),
            forall|k: int| 0 <= k < i ==> id_remap@[(#[trigger] list@[k]).1 as int] == k,
    {
        let (cell, old_id) = list[i];
        assert(m.contains_key(list@[i as int].0));
        let new_id: u32 = builder.add_node(cell, shore[i]);
        let ghost before = id_remap@;
        id_remap.set(old_id as usize, new_id);
        assert forall|k: int| 0 <= k < i + 1 implies id_remap@[(#[trigger] list@[k]).1 as int]
            == k by {
            if k < i {
                assert(list@[k].0 < list@[i as int].0);
                assert(m.contains_key(list@[k].0));
                assert(m[list@[k].0] != m[list@[i as int].0]);
            }
        }
    }
    let ghost renumber = ranks(list@);
    proof {
        assert forall|id: u32| id < n implies #[trigger] id_remap@[id as int] == renumber(id)
            && renumber(id) < n by {
            lemma_all_ids(m, list@, id);
            let k = choose|k: int| 0 <= k < list@.len() && (#[trigger] list@[k]).1 == id;
            lemma_rank(m, list@, k);
            assert(id_remap@[list@[k].1 as int] == k);
        }
        assert(edges@.take(0) =~= Seq::<LongEdge>::empty());
        assert(builder.edges@ =~= both_ways(edges@.take(0), renumber));
    }
    for i in 0..edges.len()
        invariant
            n == list@.len(),
            id_remap@.len() == n,
            n == m.dom().len(),
            can_assemble(m, edges@),
            forall|id: u32|
                id < n ==> #[trigger] id_remap@[id as int] == renumber(id) && renumber(id) < n,
            builder.nodes@.len() == n,
            forall|k: int|
                0 <= k < n ==> #[trigger] builder.nodes@[k] == (list@[k].0, shore@[k]),
            builder.edges@ == both_ways(edges@.take(i as int), renumber),
            builder.edges@.len() == 2 * i,
            forall|k: int|
                0 <= k < builder.edges@.len() ==> (#[trigger] builder.edges@[k]).0 < n
                    && builder.edges@[k].1 < n && builder.edges@[k].2 <= MAX_EDGE_LENGTH,
    {
        let (src, dst, length) = edges[i];
        assert(edges@.take(i + 1).drop_last() =~= edges@.take(i as int));
        assert(edges@[i as int].0 < n);
        assert(id_remap@[src as int] == renumber(src));
        assert(id_remap@[dst as int] == renumber(dst));
        builder.add_edge(id_remap[src as usize], id_remap[dst as usize], length);
    }
    assert(edges@.take(edges@.len() as int) =~= edges@);
    builder.coastline_coords = coastline_coords;
    let ghost nodes = builder.nodes@;
    let g = match builder.try_build() {
        Some(g) => g,
        None => {
            return None;
        },
    };
    proof {
        assert(g.node_h3@ =~= list@.map_values(|e: Keyed| e.0)) by {
            assert forall|v: int| 0 <= v < n implies g.node_h3@[v] == list@[v].0 by {
                assert(nodes[v] == (list@[v].0, shore@[v]));
            }
        }
        assert(g.shore_dist@ =~= shore@) by {
            assert forall|v: int| 0 <= v < n implies g.shore_dist@[v] == shore@[v] by {
                assert(nodes[v] == (list@[v].0, shore@[v]));
            }
        }
        assert(strictly_sorted(g.node_h3@)) by {
            assert forall|i: int, j: int| 0 <= i < j < g.node_h3@.len() implies #[trigger] g.node_h3@[i]
                < #[trigger] g.node_h3@[j] by {
                assert(list@[i].0 < list@[j].0);
            }
        }
    }
    Some(g)
}

/// Every edge goes into the list twice, there and back, with its ends renumbered, and
/// nothing else does.
pub proof fn lemma_both_ways_holds(edges: Seq<LongEdge>, renumber: spec_fn(u32) -> u32, x: LongEdge)
    ensures
        both_ways(edges, renumber).len() == 2 * edges.len(),
        both_ways(edges, renumber).contains(x) <==> exists|i: int|
            0 <= i < edges.len() && x.2 == (#[trigger] edges[i]).2 && ((x.0 == renumber(edges[i].0)
                && x.1 == renumber(edges[i].1)) || (x.0 == renumber(edges[i].1) && x.1 == renumber(
                edges[i].0,
            ))),
    decreases edges.len(),
{
    let all = both_ways(edges, renumber);
    if edges.len() > 0 {
        let head = edges.drop_last();
        lemma_both_ways_holds(head, renumber, x);
        let before = both_ways(head, renumber);
        let e = edges.last();
        let there = (renumber(e.0), renumber(e.1), e.2);
        let back = (renumber(e.1), renumber(e.0), e.2);
        assert(all =~= before.push(there).push(back));
        assert(edges[edges.len() - 1] == e);
        if all.contains(x) {
            let k = choose|k: int| 0 <= k < all.len() && all[k] == x;
            if k < before.len() {
                assert(before[k] == x);
                let i = choose|i: int|
                    0 <= i < head.len() && x.2 == (#[trigger] head[i]).2 && ((x.0 == renumber(
                        head[i].0,
                    ) && x.1 == renumber(head[i].1)) || (x.0 == renumber(head[i].1) && x.1
                        == renumber(head[i].0)));
                assert(edges[i] == head[i]);
            }
        }
        if exists|i: int|
            0 <= i < edges.len() && x.2 == (#[trigger] edges[i]).2 && ((x.0 == renumber(edges[i].0)
                && x.1 == renumber(edges[i].1)) || (x.0 == renumber(edges[i].1) && x.1 == renumber(
                edges[i].0,
            ))) {
            let i = choose|i: int|
                0 <= i < edges.len() && x.2 == (#[trigger] edges[i]).2 && ((x.0 == renumber(
                    edges[i].0,
                ) && x.1 == renumber(edges[i].1)) || (x.0 == renumber(edges[i].1) && x.1
                    == renumber(edges[i].0)));
            if i < head.len() {
                assert(head[i] == edges[i]);
                assert(before.contains(x));
                let k = choose|k: int| 0 <= k < before.len() && before[k] == x;
                assert(all[k] == x);
            } else {
                assert(all[all.len() - 2] == there);
                assert(all[all.len() - 1] == back);
            }
        }
    }
}

/// The node at place `p` of an assembled graph is the cell there in the list, and it
/// has the node at place `q` as its neighbour exactly if an edge joins the numbers of
/// the two cells, in either order, with the weight of its length.
pub proof fn lemma_assembled_neighbours<P>(
    m: Map<u64, u32>,
    list: Seq<Keyed>,
    shore: Seq<u8>,
    edges: Seq<LongEdge>,
    g: &RoutingGraph<P>,
    p: int,
    q: int,
    weight: u16,
)
    requires
        numbered(m),
        lists(m, list),
        can_assemble(m, edges),
        assembled(list, shore, edges, g),
        0 <= p < list.len(),
        0 <= q < list.len(),
    ensures
        g.node_h3@[p] == list[p].0,
        g.shore_dist@[p] == shore[p],
        g.adj(p).contains((q as u32, weight)) <==> exists|i: int|
            0 <= i < edges.len() && edge_weight((#[trigger] edges[i]).2) == weight && ((edges[i].0
                == list[p].1 && edges[i].1 == list[q].1) || (edges[i].0 == list[q].1 && edges[i].1
                == list[p].1)),
{
    let rank = ranks(list);
    let all = both_ways(edges, rank);
    let e = (q as u32, weight);
    assert(g.holds(p, by_target(out_edges(all, p))));
    lemma_by_target_contains(out_edges(all, p), e);
    lemma_out_edges_are_those_added(all, p, e);
    lemma_rank(m, list, p);
    lemma_rank(m, list, q);
    if g.adj(p).contains(e) {
        let k = choose|k: int|
            0 <= k < all.len() && (#[trigger] all[k]).0 == p && all[k].1 == e.0 && edge_weight(
                all[k].2,
            ) == e.1;
        let x = all[k];
        lemma_both_ways_holds(edges, rank, x);
        assert(all.contains(x));
        let i = choose|i: int|
            0 <= i < edges.len() && x.2 == (#[trigger] edges[i]).2 && ((x.0 == rank(edges[i].0)
                && x.1 == rank(edges[i].1)) || (x.0 == rank(edges[i].1) && x.1 == rank(
                edges[i].0,
            )));
        lemma_rank_back(m, list, edges[i].0);
        lemma_rank_back(m, list, edges[i].1);
    }
    if exists|i: int|
        0 <= i < edges.len() && edge_weight((#[trigger] edges[i]).2) == weight && ((edges[i].0
            == list[p].1 && edges[i].1 == list[q].1) || (edges[i].0 == list[q].1 && edges[i].1
            == list[p].1)) {
        let i = choose|i: int|
            0 <= i < edges.len() && edge_weight((#[trigger] edges[i]).2) == weight && ((edges[i].0
                == list[p].1 && edges[i].1 == list[q].1) || (edges[i].0 == list[q].1 && edges[i].1
                == list[p].1));
        let x = (p as u32, q as u32, edges[i].2);
        lemma_both_ways_holds(edges, rank, x);
        assert(all.contains(x));
        let k = choose|k: int| 0 <= k < all.len() && all[k] == x;
        assert(all[k].0 == p);
    }
}

/// The cell at the place of a number has that number.
proof fn lemma_rank_back(m: Map<u64, u32>, list: Seq<Keyed>, id: u32)
    requires
        numbered(m),
        lists(m, list),
        id < list.len() <= u32::MAX,
    ensures
        rank_of(list, id) < list.len(),
        list[rank_of(list, id) as int].1 == id,
{
    lemma_all_ids(m, list, id);
    let k = choose|k: int| 0 <= k < list.len() && (#[trigger] list[k]).1 == id;
    lemma_rank(m, list, k);
}

/// Each edge of an assembled graph has its way back, of the same weight.
pub proof fn lemma_both_ways_symmetric(
    edges: Seq<LongEdge>,
    renumber: spec_fn(u32) -> u32,
    s: u32,
    t: u32,
    length: u32,
)
    requires
        both_ways(edges, renumber).contains((s, t, length)),
    ensures
        both_ways(edges, renumber).contains((t, s, length)),
    decreases edges.len(),
{
    let all = both_ways(edges, renumber);
    if edges.len() > 0 {
        let before = both_ways(edges.drop_last(), renumber);
        let e = edges.last();
        let there = (renumber(e.0), renumber(e.1), e.2);
        let back = (renumber(e.1), renumber(e.0), e.2);
        assert(all =~= before.push(there).push(back));
        assert(all[all.len() - 1] == back);
        assert(all[all.len() - 2] == there);
        let k = choose|k: int| 0 <= k < all.len() && all[k] == (s, t, length);
        if k < before.len() {
            assert(before[k] == (s, t, length));
            lemma_both_ways_symmetric(edges.drop_last(), renumber, s, t, length);
            let q = choose|q: int| 0 <= q < before.len() && before[q] == (t, s, length);
            assert(all[q] == (t, s, length));
        }
    }
}

} // verus!
