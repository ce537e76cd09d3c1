//! The build of a graph from end to end.

use vstd::prelude::*;
use std::collections::HashMap;
use crate::assembly::{assemble_graph, assembled, bytes_needed, compute_shore_distances};
use crate::bounds::Bbox;
use crate::cell_list::{lemma_one_list, lists, sorted_cells};
use crate::cells::{generate_cells, numbered, too_many, Ground};
use crate::coastline::{clip_coastline, clipped, views};
use crate::components::{component_size, is_node};
use crate::container::{lemma_sound_graph_is_accepted, strictly_sorted};
use crate::edges::{build_edges, edges_of, Spans};
use crate::graph::{quantized, LongEdge, RoutingGraph, MAX_EDGE_LENGTH};
use crate::h3::{cells_of_resolution, is_cell, resolution, resolution_of, valid_cell};
use crate::oracle::{function1, value1};
use crate::passages::Passage;
use crate::prune::{in_largest_component, is_pruned, lists_component, restricted};
use crate::sort::Keyed;
use crate::H3_RES_BASE;

verus! {

broadcast use vstd::std_specs::hash::group_hash_axioms;

/// Why no graph was built.
#[derive(Debug, Clone, Copy, PartialEq, Eq, Structural)]
pub enum BuildError {
    /// The cells to start from are not all cells of the base resolution.
    NotBaseCells,
    /// There are more navigable cells than numbers.
    TooManyCells,
    /// An edge is longer than a weight can say.
    EdgeTooLong,
    /// The edges take more bytes than offsets can tell.
    TooManyEdges,
}

/// No edge is longer than a weight can say.
pub open spec fn weighable(edges: Seq<LongEdge>) -> bool {
    forall|i: int| 0 <= i < edges.len() ==> (#[trigger] edges[i]).2 <= MAX_EDGE_LENGTH
}

/// The bytes of the edges between cells numbered as `m` says can be addressed.
pub open spec fn addressable(m: Map<u64, u32>, edges: Seq<LongEdge>) -> bool {
    forall|list: Seq<Keyed>| #[trigger] lists(m, list) ==> bytes_needed(list, edges) <= u32::MAX
}

/// What a build starts from.
pub struct Site<'a, P, G, S> {
    /// Cells of the base resolution that cover the area.
    pub base: &'a Vec<u64>,
    pub passages: &'a Vec<Passage>,
    /// The box to which the build is limited.
    pub bbox: Option<Bbox>,
    /// For each passage the cells that cover its corridor.
    pub zone_cells: &'a Vec<Vec<u64>>,
    /// The coastline in pieces.
    pub coastline: &'a Vec<Vec<P>>,
    pub ground: G,
    pub spans: S,
}

/// The pieces of coastline that go into the graph: those that touch the box.
pub open spec fn kept_coast<P, F: Fn(P) -> (i64, i64)>(
    coastline: Seq<Vec<P>>,
    bbox: Option<Bbox>,
    position: F,
) -> Seq<Seq<P>> {
    match bbox {
        Some(b) => clipped(position, b, views(coastline)),
        None => views(coastline),
    }
}

/// The navigable cells, numbered as `m` says, with the edges between them.
pub open spec fn mapped<P, A, B, C, D, E, F, H>(
    site: Site<'_, P, Ground<A, B, C, D>, Spans<E, F, H>>,
    m: Map<u64, u32>,
    edges: Seq<LongEdge>,
) -> bool where
    A: Fn(u64) -> bool,
    B: Fn(u64) -> bool,
    C: Fn(u64, i64) -> i64,
    D: Fn(u64) -> (i64, i64),
    E: Fn(u64) -> (i64, i64),
    F: Fn(u64, u64) -> u32,
    H: Fn(i64, i64) -> bool,
 {
    &&& numbered(m)
    &&& forall|c: u64| #[trigger]
        m.contains_key(c) <==> site.ground.terrain(
            site.base@,
            site.passages@,
            site.bbox,
            site.zone_cells@,
        ).navigable(c)
    &&& edges_of(m, site.spans, edges)
}

/// `r` is the largest component of the graph that these cells and edges make,
/// with the shore distance of each cell.
pub open spec fn graph_of<P, S: Fn(u64) -> i64>(
    m: Map<u64, u32>,
    edges: Seq<LongEdge>,
    shore: S,
    whole: &RoutingGraph<P>,
    r: &RoutingGraph<P>,
) -> bool {
    &&& exists|list: Seq<Keyed>| #[trigger]
        lists(m, list) && assembled(
            list,
            list.map_values(|e: Keyed| quantized(value1(shore, e.0))),
            edges,
            whole,
        )
    &&& is_pruned(whole, r)
}

fn are_base_cells(base: &Vec<u64>) -> (r: bool)
    ensures
        r == cells_of_resolution(base@, H3_RES_BASE),
{
    let mut i: usize = 0;
    while i < base.len()
        invariant
            i <= base@.len(),
            forall|k: int|
                0 <= k < i ==> valid_cell(#[trigger] base@[k]) && resolution_of(base@[k])
                    == H3_RES_BASE,
        decreases base@.len() - i,
    {
        if !is_cell(base[i]) {
            return false;
        }
        if resolution(base[i]) != H3_RES_BASE {
            return false;
        }
        i = i + 1;
    }
    true
}

fn are_weighable(edges: &Vec<LongEdge>) -> (r: bool)
    ensures
        r == weighable(edges@),
{
    let mut i: usize = 0;
    while i < edges.len()
        invariant
            i <= edges@.len(),
            forall|k: int| 0 <= k < i ==> (#[trigger] edges@[k]).2 <= MAX_EDGE_LENGTH,
        decreases edges@.len() - i,
    {
        if edges[i].2 > MAX_EDGE_LENGTH {
            return false;
        }
        i = i + 1;
    }
    true
}

/// The ends of the edges are numbers of cells.
proof fn lemma_ends_numbered<A, B, C>(
    m: Map<u64, u32>,
    spans: Spans<A, B, C>,
    edges: Seq<LongEdge>,
) where A: Fn(u64) -> (i64, i64), B: Fn(u64, u64) -> u32, C: Fn(i64, i64) -> bool
    requires
        numbered(m),
        edges_of(m, spans, edges),
    ensures
        forall|i: int|
            0 <= i < edges.len() ==> (#[trigger] edges[i]).0 < m.dom().len() && edges[i].1
                < m.dom().len(),
{
    assert forall|i: int| 0 <= i < edges.len() implies (#[trigger] edges[i]).0 < m.dom().len()
        && edges[i].1 < m.dom().len() by {
        assert(crate::edges::adjacent(m, edges[i].0, edges[i].1));
        let (c, d) = choose|c: u64, d: u64| #[trigger]
            crate::edges::offers(m, c, d, edges[i].0, edges[i].1);
        assert(m.contains_key(c) && m.contains_key(d));
    }
}

/// Pruning keeps the nodes cells of the grid, in ascending order.
proof fn lemma_pruned_is_sound<P>(whole: &RoutingGraph<P>, r: &RoutingGraph<P>)
    requires
        whole.wf(),
        r.wf(),
        is_pruned(whole, r),
        strictly_sorted(whole.node_h3@),
        forall|i: int| 0 <= i < whole.node_h3@.len() ==> valid_cell(#[trigger] whole.node_h3@[i]),
    ensures
        r.defect() is None,
{
    if whole.num_nodes > 0 {
        let (main, kept) = choose|main: int, kept: Seq<int>|
            {
                &&& in_largest_component(whole, main)
                &&& #[trigger] lists_component(whole, main, kept)
                &&& kept.len() == component_size(whole, main)
                &&& if kept.len() == whole.num_nodes {
                    *r == *whole
                } else {
                    restricted(whole, kept, r)
                }
            };
        if kept.len() != whole.num_nodes {
            assert forall|i: int| 0 <= i < r.node_h3@.len() implies valid_cell(
                #[trigger] r.node_h3@[i],
            ) by {
                assert(is_node(whole, kept[i]));
                assert(valid_cell(whole.node_h3@[kept[i]]));
            }
            assert forall|i: int, j: int| 0 <= i < j < r.node_h3@.len() implies #[trigger] r.node_h3@[i]
                < #[trigger] r.node_h3@[j] by {
                assert(is_node(whole, kept[i]) && is_node(whole, kept[j]));
                assert(kept[i] < kept[j]);
                assert(whole.node_h3@[kept[i]] < whole.node_h3@[kept[j]]);
            }
        }
    }
    lemma_sound_graph_is_accepted(r);
}

/// Every node of a built graph is a navigable cell, with the distance of that cell from
/// the shore.
pub proof fn lemma_built_nodes<P, A, B, C, D, E, F, H, S>(
    site: Site<'_, P, Ground<A, B, C, D>, Spans<E, F, H>>,
    m: Map<u64, u32>,
    edges: Seq<LongEdge>,
    shore: S,
    whole: &RoutingGraph<P>,
    r: &RoutingGraph<P>,
    v: int,
) where
    A: Fn(u64) -> bool,
    B: Fn(u64) -> bool,
    C: Fn(u64, i64) -> i64,
    D: Fn(u64) -> (i64, i64),
    E: Fn(u64) -> (i64, i64),
    F: Fn(u64, u64) -> u32,
    H: Fn(i64, i64) -> bool,
    S: Fn(u64) -> i64,

    requires
        mapped(site, m, edges),
        graph_of(m, edges, shore, whole, r),
        0 <= v < r.num_nodes,
    ensures
        site.ground.terrain(
            site.base@,
            site.passages@,
            site.bbox,
            site.zone_cells@,
        ).navigable(r.node_h3@[v]),
        r.shore_dist@[v] == quantized(value1(shore, r.node_h3@[v])),
{
    let list = choose|list: Seq<Keyed>| #[trigger]
        lists(m, list) && assembled(
            list,
            list.map_values(|e: Keyed| quantized(value1(shore, e.0))),
            edges,
            whole,
        );
    if whole.num_nodes == 0 || *r == *whole {
        assert(m.contains_key(list[v].0));
    } else {
        let (main, kept) = choose|main: int, kept: Seq<int>|
            {
                &&& in_largest_component(whole, main)
                &&& #[trigger] lists_component(whole, main, kept)
                &&& kept.len() == component_size(whole, main)
                &&& if kept.len() == whole.num_nodes {
                    *r == *whole
                } else {
                    restricted(whole, kept, r)
                }
            };
        let k = kept[v];
        assert(is_node(whole, kept[v]));
        assert(r.node_h3@[v] == whole.node_h3@[k]);
        assert(r.shore_dist@[v] == whole.shore_dist@[k]);
        assert(m.contains_key(list[k].0));
    }
}

/// Builds a graph: cells, edges, shore distances, and of what they make the
/// largest component. `shore` measures the distance of a cell to the coast in
/// micro-nm, `position` gives the longitude and latitude of a coastline point in
/// nanodegrees. What is built is accepted when it is read again.
pub fn run<P: Copy, A, B, C, D, E, F, H, S, L>(
    site: &Site<'_, P, Ground<A, B, C, D>, Spans<E, F, H>>,
    shore: &S,
    position: &L,
) -> (r: Result<RoutingGraph<P>, BuildError>) where
    A: Fn(u64) -> bool,
    B: Fn(u64) -> bool,
    C: Fn(u64, i64) -> i64,
    D: Fn(u64) -> (i64, i64),
    E: Fn(u64) -> (i64, i64),
    F: Fn(u64, u64) -> u32,
    H: Fn(i64, i64) -> bool,
    S: Fn(u64) -> i64,
    L: Fn(P) -> (i64, i64),

    requires
        site.ground.ok(),
        site.spans.ok(),
        function1(*shore),
        function1(*position),
        forall|i: int| 0 <= i < site.passages@.len() ==> (#[trigger] site.passages@[i]).wf(),
        site.zone_cells@.len() == site.passages@.len(),
    ensures
        match r {
            Ok(g) => {
                &&& g.wf()
                &&& g.defect() is None
                &&& cells_of_resolution(site.base@, H3_RES_BASE)
                &&& exists|m: Map<u64, u32>, edges: Seq<LongEdge>, whole: RoutingGraph<P>|
                    {
                        &&& #[trigger] mapped(*site, m, edges)
                        &&& weighable(edges)
                        &&& addressable(m, edges)
                        &&& views(whole.coastline_coords@) == kept_coast(
                            site.coastline@,
                            site.bbox,
                            *position,
                        )
                        &&& #[trigger] graph_of(m, edges, *shore, &whole, &g)
                    }
            },
            Err(BuildError::NotBaseCells) => !cells_of_resolution(site.base@, H3_RES_BASE),
            Err(BuildError::TooManyCells) => {
                let t = site.ground.terrain(
                    site.base@,
                    site.passages@,
                    site.bbox,
                    site.zone_cells@,
                );
                &&& cells_of_resolution(site.base@, H3_RES_BASE)
                &&& too_many(|c: u64| t.navigable(c))
            },
            Err(BuildError::EdgeTooLong) => {
                &&& cells_of_resolution(site.base@, H3_RES_BASE)
                &&& exists|m: Map<u64, u32>, edges: Seq<LongEdge>| #[trigger]
                    mapped(*site, m, edges) && !weighable(edges)
            },
            Err(BuildError::TooManyEdges) => {
                &&& cells_of_resolution(site.base@, H3_RES_BASE)
                &&& exists|m: Map<u64, u32>, edges: Seq<LongEdge>| #[trigger]
                    mapped(*site, m, edges) && weighable(edges) && !addressable(m, edges)
            },
        },
{
    if !are_base_cells(site.base) {
        return Err(BuildError::NotBaseCells);
    }
    let cells: HashMap<u64, u32> = match generate_cells(
        site.base,
        site.passages,
        site.bbox,
        site.zone_cells,
        &site.ground,
    ) {
        Ok(cells) => cells,
        Err(_) => {
            return Err(BuildError::TooManyCells);
        },
    };
    let edges: Vec<LongEdge> = build_edges(&cells, &site.spans);
    let ghost m = cells@;
    assert(mapped(*site, m, edges@));
    if !are_weighable(&edges) {
        return Err(BuildError::EdgeTooLong);
    }
    let list: Vec<Keyed> = sorted_cells(&cells);
    let shores: Vec<u8> = compute_shore_distances(&list, shore);
    let coast: Vec<Vec<P>> = match site.bbox {
        Some(b) => clip_coastline(site.coastline, b, position),
        None => copy_lines(site.coastline),
    };
    proof {
        lemma_ends_numbered(m, site.spans, edges@);
        assert forall|other: Seq<Keyed>| #[trigger] lists(m, other) implies other == list@ by {
            lemma_one_list(m, other, list@);
        }
    }
    let whole: RoutingGraph<P> = match assemble_graph(&cells, &list, &shores, &edges, coast) {
        Some(g) => g,
        None => {
            assert(!addressable(m, edges@));
            return Err(BuildError::TooManyEdges);
        },
    };
    let ghost full = whole;
    let g = whole.prune_to_main_component();
    proof {
        assert forall|i: int| 0 <= i < full.node_h3@.len() implies valid_cell(
            #[trigger] full.node_h3@[i],
        ) by {
            assert(m.contains_key(list@[i].0));
        }
        lemma_pruned_is_sound(&full, &g);
        assert(views(full.coastline_coords@) == kept_coast(
            site.coastline@,
            site.bbox,
            *position,
        ));
        assert(weighable(edges@) && addressable(m, edges@));
        assert(mapped(*site, m, edges@) && graph_of(m, edges@, *shore, &full, &g));
    }
    Ok(g)
}

fn copy_lines<P: Copy>(lines: &Vec<Vec<P>>) -> (r: Vec<Vec<P>>)
    ensures
        views(r@) == views(lines@),
{
    let mut out: Vec<Vec<P>> = Vec::new();
    let mut i: usize = 0;
    assert(views(out@) =~= views(lines@).take(0));
    while i < lines.len()
        invariant
            i <= lines@.len(),
            views(out@) == views(lines@).take(i as int),
        decreases lines@.len() - i,
    {
        let ghost before = views(out@);
        let line = crate::coastline::copy_range(&lines[i], 0, lines[i].len());
        assert(line@ =~= lines@[i as int]@);
        out.push(line);
        i = i + 1;
        assert(views(out@) =~= before.push(lines@[i - 1]@));
        assert(views(out@) =~= views(lines@).take(i as int));
    }
    assert(views(lines@).take(i as int) =~= views(lines@));
    out
}

} // verus!
