//! Compressed sparse row graph for maritime routing, and its builder.
//!
//! Lengths are counted in micro nautical miles where they come in, and in
//! hundredths of a nautical mile (centi-nm) where they are stored.

use vstd::prelude::*;
use crate::edge_list::{
    append_edges, ascending, edge_bytes, edges_in_range, entries, entries_ok,
    lemma_edge_bytes_len, lemma_entries_of_edge_bytes, targets_below, Edge, NeighborIter,
};

verus! {

/// Quantization unit of `shore_dist`: 0.02 nm (about 37 m) per step, in micro-nm.
pub const SHORE_DIST_UNIT: u32 = 20_000;

/// Saturation ceiling of `shore_dist`: 255 units, or 5.1 nm, in micro-nm.
pub const SHORE_DIST_MAX: u32 = 5_100_000;

/// One centi-nm in micro-nm.
pub const CENTI_NM: u32 = 10_000;

/// Longest edge that a weight can hold: 655.35 nm, in micro-nm.
pub const MAX_EDGE_LENGTH: u32 = 655_350_000;

/// The shore distance `micro_nm` in units of `shore_dist`, rounded down and kept
/// to a byte.
pub open spec fn quantized(micro_nm: i64) -> u8 {
    if micro_nm < 0 {
        0
    } else if micro_nm >= SHORE_DIST_MAX {
        255
    } else {
        (micro_nm as int / SHORE_DIST_UNIT as int) as u8
    }
}

/// Quantizes a shore distance in micro-nm to units of `shore_dist`. It rounds
/// down, so that the stored clearance never overstates the real one.
pub fn quantize_shore_dist(micro_nm: i64) -> (r: u8)
    ensures
        r == quantized(micro_nm),
{
    if micro_nm < 0 {
        0
    } else if micro_nm >= SHORE_DIST_MAX as i64 {
        255
    } else {
        (micro_nm / SHORE_DIST_UNIT as i64) as u8
    }
}

/// The stored clearance is at most the real one, and within one unit of it up
/// to the ceiling.
pub proof fn lemma_quantized_never_overstates(micro_nm: i64)
    requires
        micro_nm >= 0,
    ensures
        quantized(micro_nm) * SHORE_DIST_UNIT <= micro_nm,
        micro_nm < SHORE_DIST_MAX ==> micro_nm < (quantized(micro_nm) + 1) * SHORE_DIST_UNIT,
{
}

/// A clearance that can be told grows by one with each fiftieth of a nautical mile, and
/// what lies further out counts as the furthest that can be told.
pub proof fn lemma_quantized_steps(micro_nm: i64)
    ensures
        micro_nm < 20_000 ==> quantized(micro_nm) == 0,
        0 <= micro_nm < 5_080_000 ==> quantized((micro_nm + 20_000) as i64) == quantized(micro_nm)
            + 1,
        micro_nm >= 5_100_000 ==> quantized(micro_nm) == 255,
{
}

/// Weight of an edge of `length` micro-nm: the nearest centi-nm, halves rounded
/// up, and never 0 for a positive length. Neighbouring cells of the finest
/// resolution lie about 0.0033 nm apart: at weight 0 a canal would be free.
pub open spec fn edge_weight(length: u32) -> u16 {
    if length == 0 {
        0
    } else if length < CENTI_NM / 2 {
        1
    } else {
        ((length + CENTI_NM / 2) / CENTI_NM as int) as u16
    }
}

/// Computes [`edge_weight`].
pub fn quantize_weight(length: u32) -> (r: u16)
    requires
        length <= MAX_EDGE_LENGTH,
    ensures
        r == edge_weight(length),
        length > 0 ==> r >= 1,
{
    if length == 0 {
        0
    } else if length < CENTI_NM / 2 {
        1
    } else {
        ((length + CENTI_NM / 2) / CENTI_NM) as u16
    }
}

/// A weight is the length to the nearest centi-nm. Only shorter ones than half of one
/// are rounded up to one, and only no length at all has no weight. So a longer edge
/// never weighs less.
pub proof fn lemma_weight_is_nearest(length: u32, longer: u32)
    requires
        length <= longer <= MAX_EDGE_LENGTH,
    ensures
        length >= 5_000 ==> -5_000 <= length - 10_000 * edge_weight(length) < 5_000
            || length - 10_000 * edge_weight(length) == -5_000,
        0 < length < 5_000 ==> edge_weight(length) == 1,
        edge_weight(0) == 0,
        edge_weight(length) <= edge_weight(longer),
{
}

/// A length that is a whole number of centi-nm keeps its value.
pub proof fn lemma_weight_of_whole(raw: u16)
    ensures
        edge_weight((raw * CENTI_NM) as u32) == raw,
{
}

/// Routing graph in compressed sparse row form. Nodes are H3 cells in
/// ascending order. `P` is the type of a coastline point, which is carried
/// along and never read here.
pub struct RoutingGraph<P> {
    /// H3 cell index of each node, ascending. The position is the node's id.
    pub node_h3: Vec<u64>,
    /// Byte offsets into `edge_data`, one more than there are nodes.
    pub offsets: Vec<u32>,
    /// Per node its edges: varint of the distance to the previous target, then
    /// the weight in centi-nm.
    pub edge_data: Vec<u8>,
    /// Distance of each node's centre to the nearest coastline in units of
    /// [`SHORE_DIST_UNIT`], rounded down, saturating at 255.
    pub shore_dist: Vec<u8>,
    pub coastline_coords: Vec<Vec<P>>,
    pub num_nodes: u32,
    pub num_edges: u32,
}

impl<P> RoutingGraph<P> {
    /// The lengths of the vectors agree, and the offsets cut `edge_data` into
    /// one piece per node.
    pub open spec fn shape(&self) -> bool {
        &&& self.node_h3@.len() == self.num_nodes
        &&& self.shore_dist@.len() == self.num_nodes
        &&& self.offsets@.len() == self.num_nodes + 1
        &&& self.offsets@[self.num_nodes as int] == self.edge_data@.len()
        &&& forall|i: int, j: int|
            0 <= i <= j <= self.num_nodes ==> #[trigger] self.offsets@[i]
                <= #[trigger] self.offsets@[j]
    }

    /// The bytes of a node's edges.
    pub open spec fn node_bytes(&self, node: int) -> Seq<u8> {
        self.edge_data@.subrange(self.offsets@[node] as int, self.offsets@[node + 1] as int)
    }

    /// The bytes of a node's edges are whole entries.
    pub open spec fn readable(&self, node: int) -> bool {
        entries_ok(self.node_bytes(node), 0, 0)
    }

    /// A node's edges: targets with weights in centi-nm, targets ascending.
    pub open spec fn adj(&self, node: int) -> Seq<Edge> {
        entries(self.node_bytes(node), 0, 0)
    }

    /// A node's edges can be read and are those in `list`.
    pub open spec fn holds(&self, node: int, list: Seq<Edge>) -> bool {
        self.readable(node) && self.adj(node) == list
    }

    /// A node's edges can be read and lead to nodes of the graph.
    pub open spec fn node_valid(&self, node: int) -> bool {
        self.readable(node) && targets_below(self.adj(node), self.num_nodes as int)
    }

    /// Every node's edges can be read and lead to nodes of the graph.
    pub open spec fn edges_valid(&self) -> bool {
        forall|node: int| 0 <= node < self.num_nodes ==> #[trigger] self.node_valid(node)
    }

    /// A graph on which routes can be searched.
    pub open spec fn wf(&self) -> bool {
        self.shape() && self.edges_valid()
    }

    /// Iterates over the neighbours of `node` as pairs of target and weight in
    /// centi-nm.
    pub fn neighbors(&self, node: u32) -> (r: NeighborIter<'_>)
        requires
            self.shape(),
            node < self.num_nodes,
            self.readable(node as int),
        ensures
            r.wf(),
            r.remaining() == self.adj(node as int),
            r.data@ == self.node_bytes(node as int),
    {
        let start: usize = self.offsets[node as usize] as usize;
        let end: usize = self.offsets[node as usize + 1] as usize;
        NeighborIter {
            data: vstd::slice::slice_subrange(self.edge_data.as_slice(), start, end),
            pos: 0,
            prev_target: 0,
        }
    }

    /// All neighbours of `node` at once.
    pub fn neighbor_list(&self, node: u32) -> (r: Vec<Edge>)
        requires
            self.shape(),
            node < self.num_nodes,
            self.readable(node as int),
        ensures
            r@ == self.adj(node as int),
    {
        let mut it = self.neighbors(node);
        let mut out: Vec<Edge> = Vec::new();
        let ghost whole = it.remaining();
        assert(out@ + it.remaining() =~= whole);
        loop
            invariant_except_break
                it.wf(),
                out@ + it.remaining() == whole,
            ensures
                out@ == whole,
            decreases it.remaining().len(),
        {
            let ghost before = it.remaining();
            match it.next() {
                None => {
                    assert(out@ + before =~= out@);
                    break;
                },
                Some(e) => {
                    assert(before.len() == 1 + it.remaining().len());
                    assert(out@ + (seq![e] + it.remaining()) =~= out@.push(e) + it.remaining());
                    out.push(e);
                },
            }
        }
        out
    }

    /// Tests that every node's edges can be read and lead to nodes of the graph.
    pub fn has_valid_edges(&self) -> (r: bool)
        requires
            self.shape(),
        ensures
            r == self.edges_valid(),
    {
        let mut node: u32 = 0;
        while node < self.num_nodes
            invariant
                node <= self.num_nodes,
                self.shape(),
                forall|v: int| 0 <= v < node ==> #[trigger] self.node_valid(v),
            decreases self.num_nodes - node,
        {
            let start: usize = self.offsets[node as usize] as usize;
            let end: usize = self.offsets[node as usize + 1] as usize;
            let bytes = vstd::slice::slice_subrange(self.edge_data.as_slice(), start, end);
            assert(bytes@ == self.node_bytes(node as int));
            if !edges_in_range(bytes, self.num_nodes) {
                assert(!self.node_valid(node as int));
                return false;
            }
            assert(self.node_valid(node as int));
            node = node + 1;
        }
        true
    }

    /// Frees the coastline coordinates, once an index has been built of them.
    pub fn drop_coastline_coords(&mut self)
        ensures
            final(self).coastline_coords@ == Seq::<Vec<P>>::empty(),
            final(self).node_h3 == old(self).node_h3,
            final(self).offsets == old(self).offsets,
            final(self).edge_data == old(self).edge_data,
            final(self).shore_dist == old(self).shore_dist,
            final(self).num_nodes == old(self).num_nodes,
            final(self).num_edges == old(self).num_edges,
    {
        self.coastline_coords = Vec::new();
    }
}

/// Places `e` in an ascending list behind every entry whose target is not
/// greater.
pub open spec fn insert_by_target(list: Seq<Edge>, e: Edge) -> Seq<Edge>
    decreases list.len(),
{
    if list.len() == 0 || list.last().0 <= e.0 {
        list.push(e)
    } else {
        insert_by_target(list.drop_last(), e).push(list.last())
    }
}

/// The list sorted by target, entries with one target in their given order.
pub open spec fn by_target(list: Seq<Edge>) -> Seq<Edge>
    decreases list.len(),
{
    if list.len() == 0 {
        list
    } else {
        insert_by_target(by_target(list.drop_last()), list.last())
    }
}

/// An edge as the builder keeps it: source, target, length in micro-nm.
pub type LongEdge = (u32, u32, u32);

/// The edges that leave `src`, in the order in which they were added.
pub open spec fn out_edges(edges: Seq<LongEdge>, src: int) -> Seq<Edge>
    decreases edges.len(),
{
    if edges.len() == 0 {
        Seq::empty()
    } else {
        let before = out_edges(edges.drop_last(), src);
        let (s, t, length) = edges.last();
        if s == src {
            before.push((t, edge_weight(length)))
        } else {
            before
        }
    }
}

/// Edges added later come behind those added before.
pub proof fn lemma_out_edges_concat(a: Seq<LongEdge>, b: Seq<LongEdge>, src: int)
    ensures
        out_edges(a + b, src) == out_edges(a, src) + out_edges(b, src),
    decreases b.len(),
{
    if b.len() == 0 {
        assert(a + b =~= a);
        assert(out_edges(a, src) + out_edges(b, src) =~= out_edges(a, src));
    } else {
        lemma_out_edges_concat(a, b.drop_last(), src);
        assert((a + b).drop_last() =~= a + b.drop_last());
        assert((a + b).last() == b.last());
        assert(out_edges(a + b, src) =~= out_edges(a, src) + out_edges(b, src));
    }
}

/// An edge leaves its source, leads to its target, and weighs what its length does.
pub proof fn lemma_out_edges_of_one(e: LongEdge, src: int)
    ensures
        e.0 == src ==> out_edges(seq![e], src) == seq![(e.1, edge_weight(e.2))],
        e.0 != src ==> out_edges(seq![e], src) == Seq::<Edge>::empty(),
{
    assert(seq![e].drop_last() =~= Seq::<LongEdge>::empty());
    assert(out_edges(seq![e].drop_last(), src) =~= Seq::<Edge>::empty());
    assert(Seq::<Edge>::empty().push((e.1, edge_weight(e.2))) =~= seq![(e.1, edge_weight(e.2))]);
}

/// What leaves a node are the edges with that source, and no others.
pub proof fn lemma_out_edges_are_those_added(edges: Seq<LongEdge>, src: int, e: Edge)
    ensures
        out_edges(edges, src).contains(e) <==> exists|i: int|
            0 <= i < edges.len() && (#[trigger] edges[i]).0 == src && edges[i].1 == e.0
                && edge_weight(edges[i].2) == e.1,
    decreases edges.len(),
{
    if edges.len() > 0 {
        let head = edges.drop_last();
        lemma_out_edges_are_those_added(head, src, e);
        let (s, t, length) = edges.last();
        let before = out_edges(head, src);
        let all = out_edges(edges, src);
        if all.contains(e) {
            let k = choose|k: int| 0 <= k < all.len() && all[k] == e;
            if k < before.len() {
                assert(before[k] == e);
                let i = choose|i: int|
                    0 <= i < head.len() && (#[trigger] head[i]).0 == src && head[i].1 == e.0
                        && edge_weight(head[i].2) == e.1;
                assert(edges[i] == head[i]);
            } else {
                assert(edges[edges.len() - 1] == (s, t, length));
            }
        }
        if exists|i: int|
            0 <= i < edges.len() && (#[trigger] edges[i]).0 == src && edges[i].1 == e.0
                && edge_weight(edges[i].2) == e.1 {
            let i = choose|i: int|
                0 <= i < edges.len() && (#[trigger] edges[i]).0 == src && edges[i].1 == e.0
                    && edge_weight(edges[i].2) == e.1;
            if i < head.len() {
                assert(head[i] == edges[i]);
                let k = choose|k: int| 0 <= k < before.len() && before[k] == e;
                assert(all[k] == e);
            } else {
                assert(all[all.len() - 1] == e);
            }
        }
    }
}

/// The byte form of the edges of the nodes below `n`.
pub open spec fn bytes_upto(edges: Seq<LongEdge>, n: nat) -> Seq<u8>
    decreases n,
{
    if n == 0 {
        Seq::empty()
    } else {
        bytes_upto(edges, (n - 1) as nat) + edge_bytes(by_target(out_edges(edges, n - 1)), 0)
    }
}

/// Collects nodes and edges, then builds a [`RoutingGraph`].
pub struct GraphBuilder<P> {
    /// H3 index and quantized shore distance of each node.
    pub nodes: Vec<(u64, u8)>,
    pub edges: Vec<LongEdge>,
    pub coastline_coords: Vec<Vec<P>>,
}

impl<P> Default for GraphBuilder<P> {
    fn default() -> (r: Self)
        ensures
            r.nodes@ == Seq::<(u64, u8)>::empty(),
            r.edges@ == Seq::<LongEdge>::empty(),
            r.coastline_coords@ == Seq::<Vec<P>>::empty(),
    {
        GraphBuilder::new()
    }
}

impl<P> GraphBuilder<P> {
    pub fn new() -> (r: Self)
        ensures
            r.nodes@ == Seq::<(u64, u8)>::empty(),
            r.edges@ == Seq::<LongEdge>::empty(),
            r.coastline_coords@ == Seq::<Vec<P>>::empty(),
    {
        GraphBuilder { nodes: Vec::new(), edges: Vec::new(), coastline_coords: Vec::new() }
    }

    /// Adds a node with its quantized shore distance and returns its id.
    pub fn add_node(&mut self, h3_index: u64, shore_dist_q: u8) -> (id: u32)
        requires
            old(self).nodes@.len() <= u32::MAX,
        ensures
            id == old(self).nodes@.len(),
            final(self).nodes@ == old(self).nodes@.push((h3_index, shore_dist_q)),
            final(self).edges == old(self).edges,
            final(self).coastline_coords == old(self).coastline_coords,
    {
        let id: u32 = self.nodes.len() as u32;
        self.nodes.push((h3_index, shore_dist_q));
        id
    }

    /// Adds an edge in both directions.
    pub fn add_edge(&mut self, src: u32, dst: u32, length: u32)
        ensures
            final(self).edges@ == old(self).edges@.push((src, dst, length)).push(
                (dst, src, length),
            ),
            final(self).nodes == old(self).nodes,
            final(self).coastline_coords == old(self).coastline_coords,
    {
        self.edges.push((src, dst, length));
        self.edges.push((dst, src, length));
    }

    /// Adds a one-way edge.
    pub fn add_directed_edge(&mut self, src: u32, dst: u32, length: u32)
        ensures
            final(self).edges@ == old(self).edges@.push((src, dst, length)),
            final(self).nodes == old(self).nodes,
            final(self).coastline_coords == old(self).coastline_coords,
    {
        self.edges.push((src, dst, length));
    }

    /// Sources are nodes, weights can be held, and all edges fit into offsets of
    /// thirty-two bits.
    pub open spec fn buildable(&self) -> bool {
        self.encodable() && self.byte_count() <= u32::MAX
    }

    /// The edges leave nodes that were added, and their lengths can be stored.
    pub open spec fn encodable(&self) -> bool {
        &&& self.nodes@.len() <= u32::MAX
        &&& forall|i: int|
            0 <= i < self.edges@.len() ==> (#[trigger] self.edges@[i]).0 < self.nodes@.len()
                && self.edges@[i].2 <= MAX_EDGE_LENGTH
    }

    /// How many bytes all edges take.
    pub open spec fn byte_count(&self) -> nat {
        bytes_upto(self.edges@, self.nodes@.len()).len()
    }

    /// The graph holds the nodes and edges that were added. Each node's edges are
    /// sorted by target; edges with the same target stay in the order in which
    /// they were added.
    pub open spec fn makes(&self, g: &RoutingGraph<P>) -> bool {
        &&& g.shape()
        &&& g.num_nodes == self.nodes@.len()
        &&& g.num_edges == self.edges@.len()
        &&& g.coastline_coords == self.coastline_coords
        &&& g.edge_data@ == bytes_upto(self.edges@, self.nodes@.len())
        &&& g.offsets@[0] == 0
        &&& forall|v: int|
            0 <= v < self.nodes@.len() ==> (#[trigger] g.node_h3@[v]) == self.nodes@[v].0
        &&& forall|v: int|
            0 <= v < self.nodes@.len() ==> (#[trigger] g.shore_dist@[v]) == self.nodes@[v].1
        &&& forall|v: int|
            0 <= v < self.nodes@.len() ==> #[trigger] g.holds(
                v,
                by_target(out_edges(self.edges@, v)),
            )
        &&& (forall|i: int|
            0 <= i < self.edges@.len() ==> (#[trigger] self.edges@[i]).1 < self.nodes@.len())
            ==> g.wf()
    }

    /// Builds the graph.
    pub fn build(self) -> (g: RoutingGraph<P>)
        requires
            self.buildable(),
        ensures
            self.makes(&g),
    {
        let (offsets, edge_data) = self.encode();
        self.finish(offsets, edge_data)
    }

    /// Builds the graph, unless its edges take more bytes than offsets can tell.
    pub fn try_build(self) -> (r: Option<RoutingGraph<P>>)
        requires
            self.encodable(),
        ensures
            match r {
                Some(g) => self.buildable() && self.makes(&g),
                None => self.byte_count() > u32::MAX,
            },
    {
        let (offsets, edge_data) = self.encode();
        if edge_data.len() as u64 > u32::MAX as u64 {
            None
        } else {
            Some(self.finish(offsets, edge_data))
        }
    }

    /// The bytes of all edges, with where those of each node start.
    fn encode(&self) -> (r: (Vec<usize>, Vec<u8>))
        requires
            self.encodable(),
        ensures
            r.1@ == bytes_upto(self.edges@, self.nodes@.len()),
            r.0@.len() == self.nodes@.len(),
            forall|v: int|
                0 <= v < self.nodes@.len() ==> (#[trigger] r.0@[v]) == bytes_upto(
                    self.edges@,
                    v as nat,
                ).len(),
    {
        let n: usize = self.nodes.len();
        let mut adj: Vec<Vec<Edge>> = Vec::new();
        for i in 0..n
            invariant
                n == self.nodes@.len(),
                adj@.len() == i,
                forall|v: int| 0 <= v < i ==> (#[trigger] adj@[v])@ == Seq::<Edge>::empty(),
        {
            adj.push(Vec::new());
        }
        let m: usize = self.edges.len();
        assert(self.edges@.take(0) =~= Seq::<LongEdge>::empty());
        for i in 0..m
            invariant
                n == self.nodes@.len(),
                m == self.edges@.len(),
                self.encodable(),
                adj@.len() == n,
                forall|v: int|
                    0 <= v < n ==> (#[trigger] adj@[v])@ == by_target(
                        out_edges(self.edges@.take(i as int), v),
                    ),
        {
            let (src, dst, length) = self.edges[i];
            let weight: u16 = quantize_weight(length);
            let ghost before = adj@;
            insert_edge(&mut adj[src as usize], (dst, weight));
            proof {
                assert(self.edges@.take(i + 1).drop_last() =~= self.edges@.take(i as int));
                assert forall|v: int| 0 <= v < n implies (#[trigger] adj@[v])@ == by_target(
                    out_edges(self.edges@.take(i + 1), v),
                ) by {
                    assert(before[v]@ == by_target(out_edges(self.edges@.take(i as int), v)));
                    let prior = out_edges(self.edges@.take(i as int), v);
                    if v == src {
                        assert(prior.push((dst, weight)).drop_last() =~= prior);
                    }
                }
            }
        }
        assert(self.edges@.take(m as int) =~= self.edges@);
        let mut edge_data: Vec<u8> = Vec::new();
        let mut offsets: Vec<usize> = Vec::new();
        for i in 0..n
            invariant
                n == self.nodes@.len(),
                self.encodable(),
                adj@.len() == n,
                forall|v: int|
                    0 <= v < n ==> (#[trigger] adj@[v])@ == by_target(out_edges(self.edges@, v)),
                offsets@.len() == i,
                edge_data@ == bytes_upto(self.edges@, i as nat),
                forall|v: int|
                    0 <= v < i ==> (#[trigger] offsets@[v]) == bytes_upto(
                        self.edges@,
                        v as nat,
                    ).len(),
        {
            proof {
                lemma_by_target_ascends(out_edges(self.edges@, i as int));
            }
            offsets.push(edge_data.len());
            append_edges(&adj[i], &mut edge_data);
        }
        (offsets, edge_data)
    }

    /// Puts the graph together from what [`GraphBuilder::encode`] gave.
    fn finish(self, starts: Vec<usize>, edge_data: Vec<u8>) -> (g: RoutingGraph<P>)
        requires
            self.buildable(),
            edge_data@ == bytes_upto(self.edges@, self.nodes@.len()),
            starts@.len() == self.nodes@.len(),
            forall|v: int|
                0 <= v < self.nodes@.len() ==> (#[trigger] starts@[v]) == bytes_upto(
                    self.edges@,
                    v as nat,
                ).len(),
        ensures
            self.makes(&g),
    {
        let n: usize = self.nodes.len();
        let m: usize = self.edges.len();
        let mut node_h3: Vec<u64> = Vec::new();
        let mut shore_dist: Vec<u8> = Vec::new();
        let mut offsets: Vec<u32> = Vec::new();
        for i in 0..n
            invariant
                n == self.nodes@.len(),
                self.buildable(),
                starts@.len() == n,
                node_h3@.len() == i,
                shore_dist@.len() == i,
                offsets@.len() == i,
                forall|v: int|
                    0 <= v < n ==> (#[trigger] starts@[v]) == bytes_upto(
                        self.edges@,
                        v as nat,
                    ).len(),
                forall|v: int| 0 <= v < i ==> (#[trigger] node_h3@[v]) == self.nodes@[v].0,
                forall|v: int| 0 <= v < i ==> (#[trigger] shore_dist@[v]) == self.nodes@[v].1,
                forall|v: int|
                    0 <= v < i ==> (#[trigger] offsets@[v]) == bytes_upto(
                        self.edges@,
                        v as nat,
                    ).len(),
        {
            proof {
                lemma_bytes_prefix(self.edges@, i as nat, n as nat);
                assert(starts@[i as int] == bytes_upto(self.edges@, i as nat).len());
            }
            node_h3.push(self.nodes[i].0);
            shore_dist.push(self.nodes[i].1);
            offsets.push(starts[i] as u32);
        }
        offsets.push(edge_data.len() as u32);
        let g = RoutingGraph {
            node_h3,
            offsets,
            edge_data,
            shore_dist,
            coastline_coords: self.coastline_coords,
            num_nodes: n as u32,
            num_edges: m as u32,
        };
        proof {
            lemma_bytes_len(self.edges@, n as nat);
            let bytes = g.edge_data@;
            assert forall|v: int| 0 <= v <= n implies (#[trigger] g.offsets@[v]) == bytes_upto(
                self.edges@,
                v as nat,
            ).len() by {
                lemma_bytes_prefix(self.edges@, v as nat, n as nat);
            }
            assert forall|i: int, j: int| 0 <= i <= j <= n implies #[trigger] g.offsets@[i]
                <= #[trigger] g.offsets@[j] by {
                lemma_bytes_prefix(self.edges@, i as nat, j as nat);
            }
            assert forall|v: int| 0 <= v < n implies #[trigger] g.holds(
                v,
                by_target(out_edges(self.edges@, v)),
            ) by {
                let list = by_target(out_edges(self.edges@, v));
                lemma_by_target_ascends(out_edges(self.edges@, v));
                lemma_bytes_prefix(self.edges@, (v + 1) as nat, n as nat);
                lemma_bytes_prefix(self.edges@, v as nat, (v + 1) as nat);
                let start = g.offsets@[v] as int;
                let end = g.offsets@[v + 1] as int;
                assert(bytes.subrange(start, end) =~= bytes.take(end).subrange(start, end));
                assert(bytes.take(end).subrange(start, end) =~= edge_bytes(list, 0));
                assert(g.node_bytes(v) =~= edge_bytes(list, 0));
                lemma_entries_of_edge_bytes(Seq::empty(), list, 0);
                assert(Seq::<u8>::empty() + edge_bytes(list, 0) =~= edge_bytes(list, 0));
            }
            if forall|i: int|
                0 <= i < self.edges@.len() ==> (#[trigger] self.edges@[i]).1 < self.nodes@.len() {
                assert forall|v: int| 0 <= v < n implies #[trigger] g.node_valid(v) by {
                    lemma_out_edges_below(self.edges@, v, n as int);
                    lemma_by_target_below(out_edges(self.edges@, v), n as int);
                    assert(g.holds(v, by_target(out_edges(self.edges@, v))));
                }
            }
        }
        g
    }
}

/// Places `e` in an ascending list behind every entry whose target is not
/// greater.
fn insert_edge(list: &mut Vec<Edge>, e: Edge)
    ensures
        final(list)@ == insert_by_target(old(list)@, e),
{
    let mut at: usize = list.len();
    assert(list@.take(at as int) =~= list@);
    assert(insert_by_target(list@, e) =~= insert_by_target(list@.take(at as int), e)
        + list@.skip(at as int));
    while at > 0 && list[at - 1].0 > e.0
        invariant
            at <= list@.len(),
            list@ == old(list)@,
            insert_by_target(list@, e) == insert_by_target(list@.take(at as int), e) + list@.skip(
                at as int,
            ),
        decreases at,
    {
        proof {
            let head = list@.take(at as int);
            assert(head.drop_last() =~= list@.take(at - 1));
            assert(insert_by_target(head, e) == insert_by_target(head.drop_last(), e).push(
                head.last(),
            ));
            assert(insert_by_target(head, e) + list@.skip(at as int) =~= insert_by_target(
                list@.take(at - 1),
                e,
            ) + list@.skip(at - 1));
        }
        at = at - 1;
    }
    proof {
        let head = list@.take(at as int);
        assert(insert_by_target(head, e) == head.push(e));
        assert(list@.insert(at as int, e) =~= head.push(e) + list@.skip(at as int));
    }
    list.insert(at, e);
}

/// Sorting yields ascending targets.
pub proof fn lemma_by_target_ascends(list: Seq<Edge>)
    ensures
        ascending(by_target(list)),
        by_target(list).len() == list.len(),
    decreases list.len(),
{
    if list.len() > 0 {
        lemma_by_target_ascends(list.drop_last());
        lemma_insert_ascends(by_target(list.drop_last()), list.last());
    }
}

proof fn lemma_insert_ascends(list: Seq<Edge>, e: Edge)
    requires
        ascending(list),
    ensures
        ascending(insert_by_target(list, e)),
        insert_by_target(list, e).len() == list.len() + 1,
        forall|m: u32|
            (forall|i: int| 0 <= i < list.len() ==> (#[trigger] list[i]).0 <= m) && e.0 <= m
                ==> #[trigger] targets_below(insert_by_target(list, e), m + 1),
    decreases list.len(),
{
    if list.len() == 0 || list.last().0 <= e.0 {
    } else {
        let head = list.drop_last();
        lemma_insert_ascends(head, e);
        let m = list.last().0;
        let inner = insert_by_target(head, e);
        assert(forall|i: int| 0 <= i < head.len() ==> (#[trigger] head[i]).0 <= m);
        assert(targets_below(inner, m + 1));
        assert(ascending(inner.push(list.last())));
        assert forall|k: u32|
            (forall|i: int| 0 <= i < list.len() ==> (#[trigger] list[i]).0 <= k) && e.0
                <= k implies #[trigger] targets_below(insert_by_target(list, e), k + 1) by {
            assert(list[list.len() - 1].0 <= k);
        }
    }
}

/// A list that ascends already is kept as it is.
pub proof fn lemma_by_target_of_ascending(list: Seq<Edge>)
    requires
        ascending(list),
    ensures
        by_target(list) == list,
    decreases list.len(),
{
    if list.len() > 0 {
        let head = list.drop_last();
        lemma_by_target_of_ascending(head);
        assert(head.push(list.last()) =~= list);
        if head.len() > 0 {
            assert(head.last() == list[list.len() - 2]);
        }
    }
}

/// The neighbours of a node in a graph that was built are the targets of the edges
/// that were added from it, each with the weight of its length.
pub proof fn lemma_neighbours_are_those_added<P>(
    b: GraphBuilder<P>,
    g: &RoutingGraph<P>,
    v: int,
    e: Edge,
)
    requires
        b.makes(g),
        0 <= v < b.nodes@.len(),
    ensures
        g.adj(v).contains(e) <==> exists|i: int|
            0 <= i < b.edges@.len() && (#[trigger] b.edges@[i]).0 == v && b.edges@[i].1 == e.0
                && edge_weight(b.edges@[i].2) == e.1,
        g.adj(v).len() == out_edges(b.edges@, v).len(),
        forall|i: int, j: int|
            0 <= i < j < g.adj(v).len() ==> (#[trigger] g.adj(v)[i]).0 <= (#[trigger] g.adj(
                v,
            )[j]).0,
{
    let list = out_edges(b.edges@, v);
    assert(g.holds(v, by_target(list)));
    lemma_by_target_ascends(list);
    lemma_by_target_contains(list, e);
    lemma_out_edges_are_those_added(b.edges@, v, e);
}

/// Sorting neither adds nor drops an entry.
pub proof fn lemma_by_target_contains(list: Seq<Edge>, e: Edge)
    ensures
        by_target(list).contains(e) <==> list.contains(e),
{
    broadcast use vstd::seq_lib::group_to_multiset_ensures;

    lemma_by_target_multiset(list);
    assert(by_target(list).to_multiset().count(e) == list.to_multiset().count(e));
    assert(list.contains(e) <==> list.to_multiset().count(e) > 0);
    assert(by_target(list).contains(e) <==> by_target(list).to_multiset().count(e) > 0);
}

/// Sorting only reorders.
pub proof fn lemma_by_target_multiset(list: Seq<Edge>)
    ensures
        by_target(list).to_multiset() == list.to_multiset(),
    decreases list.len(),
{
    broadcast use vstd::seq_lib::group_to_multiset_ensures;

    if list.len() > 0 {
        let head = list.drop_last();
        lemma_by_target_multiset(head);
        lemma_insert_multiset(by_target(head), list.last());
        assert(head.push(list.last()) =~= list);
    }
}

proof fn lemma_insert_multiset(list: Seq<Edge>, e: Edge)
    ensures
        insert_by_target(list, e).to_multiset() == list.to_multiset().insert(e),
    decreases list.len(),
{
    broadcast use vstd::seq_lib::group_to_multiset_ensures;

    if list.len() == 0 || list.last().0 <= e.0 {
    } else {
        let head = list.drop_last();
        lemma_insert_multiset(head, e);
        assert(head.push(list.last()) =~= list);
        assert(head.to_multiset().insert(e).insert(list.last())
            =~= head.to_multiset().insert(list.last()).insert(e));
    }
}

/// Bounds on targets survive sorting.
pub proof fn lemma_by_target_below(list: Seq<Edge>, limit: int)
    requires
        targets_below(list, limit),
    ensures
        targets_below(by_target(list), limit),
{
    broadcast use vstd::seq_lib::group_to_multiset_ensures;

    lemma_by_target_multiset(list);
    let sorted = by_target(list);
    assert forall|i: int| 0 <= i < sorted.len() implies (#[trigger] sorted[i]).0 < limit by {
        assert(sorted.contains(sorted[i]));
        assert(sorted.to_multiset().count(sorted[i]) > 0);
        assert(list.to_multiset().count(sorted[i]) > 0);
        assert(list.contains(sorted[i]));
    }
}

proof fn lemma_out_edges_below(edges: Seq<LongEdge>, src: int, limit: int)
    requires
        forall|i: int| 0 <= i < edges.len() ==> (#[trigger] edges[i]).1 < limit,
    ensures
        targets_below(out_edges(edges, src), limit),
    decreases edges.len(),
{
    if edges.len() > 0 {
        lemma_out_edges_below(edges.drop_last(), src, limit);
        assert(edges[edges.len() - 1].1 < limit);
    }
}

/// The bytes of the first nodes are a prefix of those of more nodes.
proof fn lemma_bytes_prefix(edges: Seq<LongEdge>, i: nat, j: nat)
    requires
        i <= j,
    ensures
        bytes_upto(edges, i).len() <= bytes_upto(edges, j).len(),
        bytes_upto(edges, j).take(bytes_upto(edges, i).len() as int) == bytes_upto(edges, i),
    decreases j,
{
    if i < j {
        lemma_bytes_prefix(edges, i, (j - 1) as nat);
        assert(bytes_upto(edges, j).take(bytes_upto(edges, i).len() as int) =~= bytes_upto(
            edges,
            (j - 1) as nat,
        ).take(bytes_upto(edges, i).len() as int));
    }
}

/// Number of edges that leave nodes below `n`.
spec fn out_count(edges: Seq<LongEdge>, n: nat) -> nat
    decreases n,
{
    if n == 0 {
        0
    } else {
        out_count(edges, (n - 1) as nat) + out_edges(edges, n - 1).len()
    }
}

proof fn lemma_out_count_step(edges: Seq<LongEdge>, n: nat)
    requires
        edges.len() > 0,
    ensures
        out_count(edges, n) == out_count(edges.drop_last(), n) + if edges.last().0 < n {
            1nat
        } else {
            0
        },
    decreases n,
{
    if n > 0 {
        lemma_out_count_step(edges, (n - 1) as nat);
    }
}

proof fn lemma_out_count(edges: Seq<LongEdge>, n: nat)
    requires
        forall|i: int| 0 <= i < edges.len() ==> (#[trigger] edges[i]).0 < n,
    ensures
        out_count(edges, n) == edges.len(),
    decreases edges.len(),
{
    if edges.len() > 0 {
        lemma_out_count_step(edges, n);
        assert(edges[edges.len() - 1].0 < n);
        lemma_out_count(edges.drop_last(), n);
    } else {
        lemma_out_count_empty(edges, n);
    }
}

proof fn lemma_out_count_empty(edges: Seq<LongEdge>, n: nat)
    requires
        edges.len() == 0,
    ensures
        out_count(edges, n) == 0,
    decreases n,
{
    if n > 0 {
        lemma_out_count_empty(edges, (n - 1) as nat);
    }
}

proof fn lemma_bytes_count(edges: Seq<LongEdge>, n: nat)
    ensures
        3 * out_count(edges, n) <= bytes_upto(edges, n).len() <= 7 * out_count(edges, n),
    decreases n,
{
    if n > 0 {
        lemma_bytes_count(edges, (n - 1) as nat);
        lemma_by_target_ascends(out_edges(edges, n - 1));
        lemma_edge_bytes_len(by_target(out_edges(edges, n - 1)), 0);
    }
}

/// All edges together take three to seven bytes each.
pub proof fn lemma_bytes_len(edges: Seq<LongEdge>, n: nat)
    requires
        forall|i: int| 0 <= i < edges.len() ==> (#[trigger] edges[i]).0 < n,
    ensures
        3 * edges.len() <= bytes_upto(edges, n).len() <= 7 * edges.len(),
{
    lemma_out_count(edges, n);
    lemma_bytes_count(edges, n);
}

} // verus!
