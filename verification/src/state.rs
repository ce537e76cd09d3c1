//! State of the server: the loaded graph and how points snap to its nodes.

use vstd::prelude::*;
use crate::components::{labels_ok, most_frequent, tally};
use crate::container::strictly_sorted;
use crate::graph::RoutingGraph;
use crate::h3::{disk_of, grid_disk, is_cell, valid_cell, MAX_DISK};
use crate::oracle::{call1, function1, value1};
use crate::prune::{in_largest_component, lemma_main_label};

verus! {

/// A graph ready for requests.
pub struct AppState<P> {
    pub graph: RoutingGraph<P>,
    /// Root of each node's component.
    pub component_labels: Vec<u32>,
    /// Root of the largest component.
    pub main_component: u32,
}

/// A node with its distance from the point that is snapped, in micro-nm.
pub type Snap = (u32, u64);

/// About the edge length of cells of one resolution, in micro-nm.
pub open spec fn edge_length(res: int) -> int {
    if res == 3 {
        35_000_000
    } else if res == 4 {
        13_000_000
    } else if res == 5 {
        5_000_000
    } else if res == 6 {
        1_900_000
    } else if res == 7 {
        700_000
    } else if res == 8 {
        270_000
    } else if res == 9 {
        100_000
    } else if res == 10 {
        38_000
    } else if res == 11 {
        14_000
    } else if res == 12 {
        5_000
    } else {
        2_000
    }
}

/// Computes [`edge_length`].
pub fn h3_edge(res: u8) -> (r: u64)
    ensures
        r == edge_length(res as int),
{
    match res {
        3 => 35_000_000,
        4 => 13_000_000,
        5 => 5_000_000,
        6 => 1_900_000,
        7 => 700_000,
        8 => 270_000,
        9 => 100_000,
        10 => 38_000,
        11 => 14_000,
        12 => 5_000,
        _ => 2_000,
    }
}

/// Each finer resolution has edges between 2.5 and 2.8 times shorter, from thirty
/// five nautical miles on.
pub proof fn lemma_edges_shrink(res: int)
    requires
        3 <= res < 13,
    ensures
        edge_length(3) == 35_000_000,
        25 * edge_length(res + 1) <= 10 * edge_length(res) <= 28 * edge_length(res + 1),
{
}

/// Most steps that cells of one resolution are searched around the point.
pub open spec fn max_steps(res: int) -> int {
    if 9 <= res <= 13 {
        30
    } else if 6 <= res <= 8 {
        20
    } else if 3 <= res <= 5 {
        15
    } else {
        3
    }
}

/// Computes [`max_steps`].
pub fn k_max(res: u8) -> (r: u32)
    ensures
        r == max_steps(res as int),
{
    if res >= 9 && res <= 13 {
        30
    } else if res >= 6 && res <= 8 {
        20
    } else if res >= 3 && res <= 5 {
        15
    } else {
        3
    }
}

/// Cells of this size cannot improve the snap: it is closer than 0.4 of their
/// edge.
pub open spec fn close_enough(best: Option<Snap>, res: int) -> bool {
    best matches Some(s) && s.1 * 10 < edge_length(res) * 4
}

/// Steps of the second pass: as many as reach the best node so far, and all
/// where there is none.
pub open spec fn wide_steps(best: Option<Snap>, res: int) -> int {
    match best {
        Some(s) => {
            let k = s.1 as int / edge_length(res) + 2;
            if k < max_steps(res) {
                k
            } else {
                max_steps(res)
            }
        },
        None => max_steps(res),
    }
}

/// Distance from which a snap is looked at again, in micro-nm: half a nautical
/// mile.
pub const GOOD_SNAP: u64 = 500_000;

/// Resolutions from 0 on at which a point is snapped.
pub const SNAP_RESOLUTIONS: usize = 14;

/// The list holds a cell for each resolution at which a point is snapped.
pub open spec fn cells_at_resolutions(cells: Seq<u64>) -> bool {
    cells.len() == SNAP_RESOLUTIONS && forall|k: int|
        0 <= k < SNAP_RESOLUTIONS ==> valid_cell(#[trigger] cells[k])
}

/// A list does not hold the cells of a point.
#[derive(Debug, Clone, Copy, PartialEq, Eq)]
pub struct NotACell;

impl<P> AppState<P> {
    pub open spec fn wf(&self) -> bool {
        &&& self.graph.wf()
        &&& strictly_sorted(self.graph.node_h3@)
        &&& labels_ok(&self.graph, self.component_labels@)
    }

    /// The cell is that of a node in the largest component.
    pub open spec fn main_node(&self, cell: u64, node: u32) -> bool {
        &&& node < self.graph.num_nodes
        &&& self.graph.node_h3@[node as int] == cell
        &&& self.component_labels@[node as int] == self.main_component
    }

    /// The cell is that of some node in the largest component.
    pub open spec fn has_main_node(&self, cell: u64) -> bool {
        exists|v: u32| #[trigger] self.main_node(cell, v)
    }

    /// The better of the best so far and the node of `cell`, where that is one
    /// of the largest component.
    pub open spec fn improve(
        &self,
        cell: u64,
        dist: spec_fn(u32) -> u64,
        best: Option<Snap>,
    ) -> Option<Snap> {
        if self.has_main_node(cell) {
            let v = choose|v: u32| #[trigger] self.main_node(cell, v);
            match best {
                Some(s) if s.1 <= dist(v) => best,
                _ => Some((v, dist(v))),
            }
        } else {
            best
        }
    }

    /// One of a point's cells is that of a node in the largest component.
    pub open spec fn in_main_cell(&self, cells: Seq<u64>) -> bool {
        exists|res: int| 3 <= res <= 13 && self.has_main_node(#[trigger] cells[res])
    }

    /// The best after looking at all cells of a list.
    pub open spec fn scan(
        &self,
        cells: Seq<u64>,
        dist: spec_fn(u32) -> u64,
        best: Option<Snap>,
    ) -> Option<Snap>
        decreases cells.len(),
    {
        if cells.len() == 0 {
            best
        } else {
            self.improve(cells.last(), dist, self.scan(cells.drop_last(), dist, best))
        }
    }

    /// The best after looking around `cell`, further and further from `k` steps
    /// to `limit`, until something better is found.
    pub open spec fn widen(
        &self,
        cell: u64,
        k: int,
        limit: int,
        dist: spec_fn(u32) -> u64,
        best: Option<Snap>,
    ) -> Option<Snap>
        decreases limit + 1 - k,
    {
        if k > limit {
            best
        } else {
            let next = self.scan(disk_of(cell, k as u32), dist, best);
            if next != best {
                next
            } else {
                self.widen(cell, k + 1, limit, dist, best)
            }
        }
    }

    /// The quick pass: three steps at each resolution from `res` on to coarser
    /// ones.
    pub open spec fn quick_pass(
        &self,
        cell: spec_fn(int) -> u64,
        res: int,
        dist: spec_fn(u32) -> u64,
        best: Option<Snap>,
    ) -> Option<Snap>
        decreases res,
    {
        if res < 3 {
            best
        } else {
            let next = if close_enough(best, res) {
                best
            } else {
                self.widen(cell(res), 0, 3, dist, best)
            };
            self.quick_pass(cell, res - 1, dist, next)
        }
    }

    /// The wide pass, from resolution `res` on to coarser ones.
    pub open spec fn wide_pass(
        &self,
        cell: spec_fn(int) -> u64,
        res: int,
        dist: spec_fn(u32) -> u64,
        best: Option<Snap>,
    ) -> Option<Snap>
        decreases res,
    {
        if res < 3 {
            best
        } else {
            let k = wide_steps(best, res);
            let next = if close_enough(best, res) || (best is Some && k <= 3) {
                best
            } else {
                self.widen(cell(res), 0, k, dist, best)
            };
            self.wide_pass(cell, res - 1, dist, next)
        }
    }

    /// What a point snaps to: a quick look at all resolutions, then a wide one
    /// at the common ones unless the snap is good, at last the ocean cells up to
    /// fifty steps away.
    pub open spec fn nearest(&self, cell: spec_fn(int) -> u64, dist: spec_fn(u32) -> u64) -> Option<
        Snap,
    > {
        let quick = self.quick_pass(cell, 13, dist, None);
        let wide = match quick {
            Some(s) if s.1 < GOOD_SNAP => quick,
            _ => self.wide_pass(cell, 9, dist, quick),
        };
        match wide {
            Some(_) => wide,
            None => self.widen(cell(3), 0, 50, dist, None),
        }
    }

    /// The node of a cell, by binary search.
    pub fn h3_lookup(&self, h3: u64) -> (r: Option<u32>)
        requires
            self.wf(),
        ensures
            match r {
                Some(v) => v < self.graph.num_nodes && self.graph.node_h3@[v as int] == h3,
                None => !self.graph.node_h3@.contains(h3),
            },
    {
        let cells = &self.graph.node_h3;
        let mut lo: usize = 0;
        let mut hi: usize = cells.len();
        while lo < hi
            invariant
                cells@ == self.graph.node_h3@,
                strictly_sorted(cells@),
                cells@.len() == self.graph.num_nodes,
                lo <= hi <= cells@.len(),
                forall|i: int| 0 <= i < lo ==> #[trigger] cells@[i] < h3,
                forall|i: int| hi <= i < cells@.len() ==> #[trigger] cells@[i] > h3,
            decreases hi - lo,
        {
            let mid: usize = lo + (hi - lo) / 2;
            let here: u64 = cells[mid];
            if here == h3 {
                return Some(mid as u32);
            }
            if here < h3 {
                lo = mid + 1;
            } else {
                hi = mid;
            }
        }
        None
    }

    /// Looks at one cell.
    fn try_cell<D: Fn(u32) -> u64>(&self, cell: u64, dist: &D, best: Option<Snap>) -> (r: Option<
        Snap,
    >)
        requires
            self.wf(),
            function1(*dist),
        ensures
            r == self.improve(cell, |v: u32| value1(*dist, v), best),
    {
        match self.h3_lookup(cell) {
            None => {
                assert forall|v: u32| !#[trigger] self.main_node(cell, v) by {
                    if self.main_node(cell, v) {
                        assert(self.graph.node_h3@[v as int] == cell);
                        assert(self.graph.node_h3@.contains(cell));
                    }
                }
                best
            },
            Some(node) => {
                assert forall|v: u32| #[trigger] self.main_node(cell, v) implies v == node by {
                    lemma_one_node(self.graph.node_h3@, v as int, node as int);
                }
                if self.component_labels[node as usize] != self.main_component {
                    return best;
                }
                assert(self.main_node(cell, node));
                let d: u64 = call1(dist, node);
                match best {
                    Some(s) => if d < s.1 {
                        Some((node, d))
                    } else {
                        best
                    },
                    None => Some((node, d)),
                }
            },
        }
    }

    /// Looks around `cell`, further and further up to `limit` steps, until
    /// something better is found.
    pub fn search_resolution<D: Fn(u32) -> u64>(
        &self,
        cell: u64,
        limit: u32,
        dist: &D,
        best: Option<Snap>,
    ) -> (r: Option<Snap>)
        requires
            self.wf(),
            function1(*dist),
            valid_cell(cell),
            limit <= MAX_DISK,
        ensures
            r == self.widen(cell, 0, limit as int, |v: u32| value1(*dist, v), best),
            best is Some || self.has_main_node(cell) ==> r is Some,
            best matches Some(b) ==> (r matches Some(s) && s.1 <= b.1),
            forall|v: u32| #[trigger]
                self.main_node(cell, v) ==> (r matches Some(s) && s.1 <= value1(*dist, v)),
    {
        let ghost dv = |v: u32| value1(*dist, v);
        let mut k: u32 = 0;
        while k <= limit
            invariant
                self.wf(),
                function1(*dist),
                valid_cell(cell),
                limit <= MAX_DISK,
                k <= limit + 1,
                k > 0 && best is None ==> !self.has_main_node(cell),
                k > 0 ==> forall|v: u32| #[trigger]
                    self.main_node(cell, v) ==> (best matches Some(s) && s.1 <= dv(v)),
                dv == (|v: u32| value1(*dist, v)),
                self.widen(cell, 0, limit as int, dv, best) == self.widen(
                    cell,
                    k as int,
                    limit as int,
                    dv,
                    best,
                ),
            decreases limit + 1 - k,
        {
            let disk = grid_disk(cell, k);
            let mut next: Option<Snap> = best;
            let mut found: bool = false;
            assert(disk@.take(0) =~= Seq::<u64>::empty());
            for i in 0..disk.len()
                invariant
                    self.wf(),
                    function1(*dist),
                    dv == (|v: u32| value1(*dist, v)),
                    next == self.scan(disk@.take(i as int), dv, best),
                    found == (next != best),
                    found ==> (next matches Some(n) && (best matches Some(b) ==> n.1 < b.1)),
            {
                assert(disk@.take(i + 1).drop_last() =~= disk@.take(i as int));
                let here: Option<Snap> = self.try_cell(disk[i], dist, next);
                let better: bool = match (here, next) {
                    (Some(h), Some(n)) => h.1 < n.1,
                    (Some(_), None) => true,
                    _ => false,
                };
                if better {
                    next = here;
                    found = true;
                }
            }
            assert(disk@.take(disk@.len() as int) =~= disk@);
            proof {
                self.lemma_scan_better(disk@, dv, best);
                if k == 0 {
                    assert(disk@ == seq![cell]);
                    assert(disk@[0] == cell);
                    assert forall|v: u32| #[trigger] self.main_node(cell, v) implies (
                    next matches Some(s) && s.1 <= dv(v)) by {
                        assert(self.main_node(disk@[0], v));
                    }
                    assert(disk@.drop_last() =~= Seq::<u64>::empty());
                    assert(self.scan(disk@.drop_last(), dv, best) == best);
                    assert(next == self.improve(cell, dv, best));
                }
            }
            if found {
                return next;
            }
            k = k + 1;
        }
        best
    }

    /// Finds a node of the largest component near a point. `cells` holds the
    /// cell of the point at each resolution, `dist` gives the distance from the
    /// point to a node. A point in the cell of such a node always finds one.
    pub fn nearest_node<D: Fn(u32) -> u64>(&self, cells: &Vec<u64>, dist: &D) -> (r: Option<Snap>)
        requires
            self.wf(),
            function1(*dist),
            cells_at_resolutions(cells@),
        ensures
            r == self.nearest(|res: int| cells@[res], |v: u32| value1(*dist, v)),
            self.in_main_cell(cells@) ==> r is Some,
            r matches Some(s) ==> {
                &&& s.0 < self.graph.num_nodes
                &&& self.component_labels@[s.0 as int] == self.main_component
                &&& s.1 == value1(*dist, s.0)
            },
            forall|res: int, v: u32|
                3 <= res <= 13 && #[trigger] self.main_node(cells@[res], v) ==> (r matches Some(s)
                    && (s.1 <= value1(*dist, v) || s.1 * 10 < 4 * edge_length(res))),
    {
        let ghost dv = |v: u32| value1(*dist, v);
        let ghost cv = |res: int| cells@[res];
        let mut best: Option<Snap> = None;
        let mut res: u8 = 13;
        while res >= 3
            invariant
                self.wf(),
                function1(*dist),
                cells_at_resolutions(cells@),
                2 <= res <= 13,
                dv == (|v: u32| value1(*dist, v)),
                cv == (|res: int| cells@[res]),
                self.quick_pass(cv, 13, dv, None) == self.quick_pass(cv, res as int, dv, best),
                best is None ==> forall|r: int|
                    res < r <= 13 ==> !self.has_main_node(#[trigger] cells@[r]),
                forall|r: int, v: u32|
                    res < r <= 13 && #[trigger] self.main_node(cells@[r], v) ==> (
                    best matches Some(s) && (s.1 <= dv(v) || s.1 * 10 < 4 * edge_length(r))),
            decreases res,
        {
            if !is_close(best, res) {
                let cell: u64 = cells[res as usize];
                best = self.search_resolution(cell, 3, dist, best);
            }
            res = res - 1;
        }
        let needs_wide: bool = match best {
            Some(s) => s.1 >= GOOD_SNAP,
            None => true,
        };
        if needs_wide {
            let ghost quick = best;
            let mut res: u8 = 9;
            while res >= 3
                invariant
                    self.wf(),
                        function1(*dist),
                    cells_at_resolutions(cells@),
                    2 <= res <= 9,
                    dv == (|v: u32| value1(*dist, v)),
                    cv == (|res: int| cells@[res]),
                    self.wide_pass(cv, 9, dv, quick) == self.wide_pass(cv, res as int, dv, best),
                    quick is Some ==> best is Some,
                    forall|r: int, v: u32|
                        3 <= r <= 13 && #[trigger] self.main_node(cells@[r], v) ==> (
                        best matches Some(s) && (s.1 <= dv(v) || s.1 * 10 < 4 * edge_length(r))),
                decreases res,
            {
                let limit: u32 = steps_of(best, res);
                let covered: bool = best.is_some() && limit <= 3;
                if !is_close(best, res) && !covered {
                    let cell: u64 = cells[res as usize];
                    best = self.search_resolution(cell, limit, dist, best);
                }
                res = res - 1;
            }
        }
        proof {
            self.lemma_nearest_in_main_component(cv, dv);
        }
        if best.is_some() {
            return best;
        }
        let cell: u64 = cells[3];
        self.search_resolution(cell, 50, dist, None)
    }

    /// As [`AppState::nearest_node`], of a list that need not hold cells: what is
    /// no cell of its resolution comes back.
    pub fn snap<D: Fn(u32) -> u64>(&self, cells: &Vec<u64>, dist: &D) -> (r: Result<
        Option<Snap>,
        NotACell,
    >)
        requires
            self.wf(),
            function1(*dist),
        ensures
            match r {
                Ok(best) => cells_at_resolutions(cells@) && best == self.nearest(
                    |res: int| cells@[res],
                    |v: u32| value1(*dist, v),
                ) && (self.in_main_cell(cells@) ==> best is Some) && (best matches Some(s) ==> {
                    &&& s.0 < self.graph.num_nodes
                    &&& self.component_labels@[s.0 as int] == self.main_component
                    &&& s.1 == value1(*dist, s.0)
                }) && forall|res: int, v: u32|
                    3 <= res <= 13 && #[trigger] self.main_node(cells@[res], v) ==> (
                    best matches Some(s) && (s.1 <= value1(*dist, v) || s.1 * 10 < 4 * edge_length(
                        res,
                    ))),
                Err(_) => !cells_at_resolutions(cells@),
            },
    {
        if cells.len() != SNAP_RESOLUTIONS {
            return Err(NotACell);
        }
        let mut i: usize = 0;
        while i < SNAP_RESOLUTIONS
            invariant
                i <= SNAP_RESOLUTIONS,
                cells@.len() == SNAP_RESOLUTIONS,
                forall|k: int| 0 <= k < i ==> valid_cell(#[trigger] cells@[k]),
            decreases SNAP_RESOLUTIONS - i,
        {
            if !is_cell(cells[i]) {
                return Err(NotACell);
            }
            i = i + 1;
        }
        Ok(self.nearest_node(cells, dist))
    }

    /// Prepares a graph for requests.
    pub fn new(graph: RoutingGraph<P>) -> (r: Self)
        requires
            graph.wf(),
            strictly_sorted(graph.node_h3@),
        ensures
            r.wf(),
            r.graph.node_h3 == graph.node_h3,
            r.graph.offsets == graph.offsets,
            r.graph.edge_data == graph.edge_data,
            r.graph.shore_dist == graph.shore_dist,
            r.graph.num_nodes == graph.num_nodes,
            r.graph.num_edges == graph.num_edges,
            r.graph.coastline_coords@.len() == 0,
            graph.num_nodes == 0 ==> r.main_component == 0,
            graph.num_nodes > 0 ==> in_largest_component(&r.graph, r.main_component as int)
                && r.component_labels@[r.main_component as int] == r.main_component,
    {
        let mut graph = graph;
        let ghost g0 = graph;
        graph.drop_coastline_coords();
        proof {
            assert forall|v: int| 0 <= v < graph.num_nodes implies #[trigger] graph.node_valid(
                v,
            ) by {
                assert(g0.node_valid(v));
            }
        }
        let component_labels = graph.component_labels();
        let main_component: u32 = if graph.num_nodes == 0 {
            0
        } else {
            let counts = tally(&component_labels);
            let main: u32 = most_frequent(&counts);
            proof {
                lemma_main_label(&graph, component_labels@, counts@, main);
            }
            main
        };
        AppState { graph, component_labels, main_component }
    }
}

/// The snap is at least as close as another, where there is one.
pub open spec fn no_worse(snap: Option<Snap>, other: Option<Snap>) -> bool {
    other matches Some(b) ==> (snap matches Some(s) && s.1 <= b.1)
}

/// In a strictly ascending list a cell has one position.
proof fn lemma_one_node(cells: Seq<u64>, i: int, j: int)
    requires
        strictly_sorted(cells),
        0 <= i < cells.len(),
        0 <= j < cells.len(),
        cells[i] == cells[j],
    ensures
        i == j,
{
    if i < j {
        assert(cells[i] < cells[j]);
    } else if j < i {
        assert(cells[j] < cells[i]);
    }
}

/// Computes [`close_enough`].
fn is_close(best: Option<Snap>, res: u8) -> (r: bool)
    ensures
        r == close_enough(best, res as int),
{
    match best {
        Some(s) => (s.1 as u128) * 10 < (h3_edge(res) as u128) * 4,
        None => false,
    }
}

/// Computes [`wide_steps`].
fn steps_of(best: Option<Snap>, res: u8) -> (r: u32)
    ensures
        r == wide_steps(best, res as int),
        r <= 30,
{
    let most: u32 = k_max(res);
    match best {
        Some(s) => {
            let k: u64 = s.1 / h3_edge(res);
            if k + 2 < most as u64 {
                (k + 2) as u32
            } else {
                most
            }
        },
        None => most,
    }
}

impl<P> AppState<P> {
    /// The snap is to a node of the largest component, with its distance.
    pub open spec fn sound_snap(&self, dist: spec_fn(u32) -> u64, best: Option<Snap>) -> bool {
        best matches Some(s) ==> {
            &&& s.0 < self.graph.num_nodes
            &&& self.component_labels@[s.0 as int] == self.main_component
            &&& s.1 == dist(s.0)
        }
    }

    /// Looking at cells never makes the snap worse, and leaves none of their nodes
    /// closer.
    pub proof fn lemma_scan_better(
        &self,
        cells: Seq<u64>,
        dist: spec_fn(u32) -> u64,
        best: Option<Snap>,
    )
        requires
            self.wf(),
        ensures
            best matches Some(b) ==> (self.scan(cells, dist, best) matches Some(s) && s.1 <= b.1),
            forall|i: int, v: u32|
                0 <= i < cells.len() && #[trigger] self.main_node(cells[i], v) ==> (self.scan(
                    cells,
                    dist,
                    best,
                ) matches Some(s) && s.1 <= dist(v)),
        decreases cells.len(),
    {
        if cells.len() > 0 {
            let head = cells.drop_last();
            self.lemma_scan_better(head, dist, best);
            let c = cells.last();
            assert forall|i: int, v: u32|
                0 <= i < cells.len() && #[trigger] self.main_node(cells[i], v) implies (self.scan(
                cells,
                dist,
                best,
            ) matches Some(s) && s.1 <= dist(v)) by {
                if i < head.len() {
                    assert(self.main_node(head[i], v));
                } else {
                    let w = choose|w: u32| #[trigger] self.main_node(c, w);
                    lemma_one_node(self.graph.node_h3@, v as int, w as int);
                }
            }
        }
    }

    /// Looking at cells keeps to the largest component, never makes the snap
    /// worse, and leaves none of their nodes closer.
    pub proof fn lemma_scan(&self, cells: Seq<u64>, dist: spec_fn(u32) -> u64, best: Option<Snap>)
        requires
            self.wf(),
            self.sound_snap(dist, best),
        ensures
            self.sound_snap(dist, self.scan(cells, dist, best)),
            best matches Some(b) ==> (self.scan(cells, dist, best) matches Some(s) && s.1 <= b.1),
            forall|i: int, v: u32|
                0 <= i < cells.len() && #[trigger] self.main_node(cells[i], v) ==> (self.scan(
                    cells,
                    dist,
                    best,
                ) matches Some(s) && s.1 <= dist(v)),
        decreases cells.len(),
    {
        self.lemma_scan_better(cells, dist, best);
        if cells.len() > 0 {
            self.lemma_scan(cells.drop_last(), dist, best);
        }
    }

    proof fn lemma_widen(
        &self,
        cell: u64,
        k: int,
        limit: int,
        dist: spec_fn(u32) -> u64,
        best: Option<Snap>,
    )
        requires
            self.wf(),
            self.sound_snap(dist, best),
        ensures
            self.sound_snap(dist, self.widen(cell, k, limit, dist, best)),
        decreases limit + 1 - k,
    {
        if k <= limit {
            self.lemma_scan(disk_of(cell, k as u32), dist, best);
            self.lemma_widen(cell, k + 1, limit, dist, best);
        }
    }

    proof fn lemma_quick_pass(
        &self,
        cell: spec_fn(int) -> u64,
        res: int,
        dist: spec_fn(u32) -> u64,
        best: Option<Snap>,
    )
        requires
            self.wf(),
            self.sound_snap(dist, best),
        ensures
            self.sound_snap(dist, self.quick_pass(cell, res, dist, best)),
        decreases res,
    {
        if res >= 3 {
            self.lemma_widen(cell(res), 0, 3, dist, best);
            let next = if close_enough(best, res) {
                best
            } else {
                self.widen(cell(res), 0, 3, dist, best)
            };
            self.lemma_quick_pass(cell, res - 1, dist, next);
        }
    }

    proof fn lemma_wide_pass(
        &self,
        cell: spec_fn(int) -> u64,
        res: int,
        dist: spec_fn(u32) -> u64,
        best: Option<Snap>,
    )
        requires
            self.wf(),
            self.sound_snap(dist, best),
        ensures
            self.sound_snap(dist, self.wide_pass(cell, res, dist, best)),
        decreases res,
    {
        if res >= 3 {
            let k = wide_steps(best, res);
            self.lemma_widen(cell(res), 0, k, dist, best);
            let next = if close_enough(best, res) || (best is Some && k <= 3) {
                best
            } else {
                self.widen(cell(res), 0, k, dist, best)
            };
            self.lemma_wide_pass(cell, res - 1, dist, next);
        }
    }

    /// A point never snaps to a node outside the largest component, and the
    /// distance given is that of the node.
    pub proof fn lemma_nearest_in_main_component(
        &self,
        cell: spec_fn(int) -> u64,
        dist: spec_fn(u32) -> u64,
    )
        requires
            self.wf(),
        ensures
            self.sound_snap(dist, self.nearest(cell, dist)),
    {
        let quick = self.quick_pass(cell, 13, dist, None);
        self.lemma_quick_pass(cell, 13, dist, None);
        self.lemma_wide_pass(cell, 9, dist, quick);
        self.lemma_widen(cell(3), 0, 50, dist, None);
    }

    /// One of the cells is that of a node in the largest component.
    pub open spec fn some_main(&self, cells: Seq<u64>) -> bool {
        exists|i: int| 0 <= i < cells.len() && self.has_main_node(#[trigger] cells[i])
    }

    /// No cell within `limit` steps is that of a node in the largest component.
    pub open spec fn none_within(&self, cell: u64, limit: int) -> bool {
        forall|k: int| 0 <= k <= limit ==> !self.some_main(#[trigger] disk_of(cell, k as u32))
    }

    proof fn lemma_scan_none(&self, cells: Seq<u64>, dist: spec_fn(u32) -> u64)
        ensures
            self.scan(cells, dist, None) is None <==> !self.some_main(cells),
        decreases cells.len(),
    {
        if cells.len() > 0 {
            let head = cells.drop_last();
            self.lemma_scan_none(head, dist);
            if self.some_main(cells) {
                let i = choose|i: int|
                    0 <= i < cells.len() && self.has_main_node(#[trigger] cells[i]);
                if i < head.len() {
                    assert(self.has_main_node(head[i]));
                }
            }
            if self.some_main(head) {
                let i = choose|i: int| 0 <= i < head.len() && self.has_main_node(#[trigger] head[i]);
                assert(self.has_main_node(cells[i]));
            }
            if self.has_main_node(cells.last()) {
                assert(self.has_main_node(cells[cells.len() - 1]));
            }
        }
    }

    proof fn lemma_widen_none(
        &self,
        cell: u64,
        k: int,
        limit: int,
        dist: spec_fn(u32) -> u64,
    )
        requires
            0 <= k,
        ensures
            self.widen(cell, k, limit, dist, None) is None <==> forall|j: int|
                k <= j <= limit ==> !self.some_main(#[trigger] disk_of(cell, j as u32)),
        decreases limit + 1 - k,
    {
        if k <= limit {
            self.lemma_scan_none(disk_of(cell, k as u32), dist);
            self.lemma_widen_none(cell, k + 1, limit, dist);
        }
    }

    proof fn lemma_widen_stays(
        &self,
        cell: u64,
        k: int,
        limit: int,
        dist: spec_fn(u32) -> u64,
        best: Option<Snap>,
    )
        requires
            self.wf(),
            best is Some,
        ensures
            self.widen(cell, k, limit, dist, best) is Some,
        decreases limit + 1 - k,
    {
        if k <= limit {
            self.lemma_scan_better(disk_of(cell, k as u32), dist, best);
            self.lemma_widen_stays(cell, k + 1, limit, dist, best);
        }
    }

    proof fn lemma_quick_none(
        &self,
        cell: spec_fn(int) -> u64,
        res: int,
        dist: spec_fn(u32) -> u64,
        best: Option<Snap>,
    )
        requires
            self.wf(),
        ensures
            self.quick_pass(cell, res, dist, best) is None <==> best is None && forall|r: int|
                3 <= r <= res ==> self.none_within(#[trigger] cell(r), 3),
        decreases res,
    {
        if res >= 3 {
            self.lemma_widen_none(cell(res), 0, 3, dist);
            if best is Some {
                self.lemma_widen_stays(cell(res), 0, 3, dist, best);
            }
            let next = if close_enough(best, res) {
                best
            } else {
                self.widen(cell(res), 0, 3, dist, best)
            };
            self.lemma_quick_none(cell, res - 1, dist, next);
        }
    }

    proof fn lemma_wide_none(
        &self,
        cell: spec_fn(int) -> u64,
        res: int,
        dist: spec_fn(u32) -> u64,
        best: Option<Snap>,
    )
        requires
            self.wf(),
        ensures
            self.wide_pass(cell, res, dist, best) is None <==> best is None && forall|r: int|
                3 <= r <= res ==> self.none_within(#[trigger] cell(r), max_steps(r)),
        decreases res,
    {
        if res >= 3 {
            let k = wide_steps(best, res);
            self.lemma_widen_none(cell(res), 0, k, dist);
            if best is Some {
                self.lemma_widen_stays(cell(res), 0, k, dist, best);
            }
            let next = if close_enough(best, res) || (best is Some && k <= 3) {
                best
            } else {
                self.widen(cell(res), 0, k, dist, best)
            };
            self.lemma_wide_none(cell, res - 1, dist, next);
        }
    }

    /// Some cell is that of a node in the largest component which is closer than
    /// the best so far.
    pub open spec fn some_better(
        &self,
        cells: Seq<u64>,
        dist: spec_fn(u32) -> u64,
        best: Option<Snap>,
    ) -> bool {
        exists|i: int, v: u32|
            0 <= i < cells.len() && #[trigger] self.main_node(cells[i], v) && (best matches Some(
                b,
            ) ==> dist(v) < b.1)
    }

    proof fn lemma_scan_nearest(
        &self,
        cells: Seq<u64>,
        dist: spec_fn(u32) -> u64,
        best: Option<Snap>,
    )
        requires
            self.wf(),
        ensures
            ({
                let r = self.scan(cells, dist, best);
                &&& r != best <==> self.some_better(cells, dist, best)
                &&& r != best ==> exists|i: int, v: u32|
                    0 <= i < cells.len() && #[trigger] self.main_node(cells[i], v) && r == Some(
                        (v, dist(v)),
                    )
            }),
        decreases cells.len(),
    {
        self.lemma_scan_better(cells, dist, best);
        let r = self.scan(cells, dist, best);
        if cells.len() > 0 {
            let head = cells.drop_last();
            self.lemma_scan_nearest(head, dist, best);
            self.lemma_scan_better(head, dist, best);
            let h = self.scan(head, dist, best);
            let c = cells.last();
            if r != h {
                let v = choose|v: u32| #[trigger] self.main_node(c, v);
                assert(self.main_node(cells[cells.len() - 1], v) && r == Some((v, dist(v))));
            } else if r != best {
                let (i, v) = choose|i: int, v: u32|
                    0 <= i < head.len() && #[trigger] self.main_node(head[i], v) && h == Some(
                        (v, dist(v)),
                    );
                assert(self.main_node(cells[i], v) && r == Some((v, dist(v))));
            }
            if r != best {
                let (i, v) = choose|i: int, v: u32|
                    0 <= i < cells.len() && #[trigger] self.main_node(cells[i], v) && r == Some(
                        (v, dist(v)),
                    );
                if h != best {
                    let (j, w) = choose|j: int, w: u32|
                        0 <= j < head.len() && #[trigger] self.main_node(head[j], w) && (
                        best matches Some(b) ==> dist(w) < b.1);
                    assert(self.main_node(cells[j], w));
                } else {
                    assert(self.main_node(cells[i], v));
                }
                assert(self.some_better(cells, dist, best));
            }
        }
    }

    /// From `k` steps on, and before `j`, no node is closer than the best so far.
    pub open spec fn none_better(
        &self,
        cell: u64,
        k: int,
        j: int,
        dist: spec_fn(u32) -> u64,
        best: Option<Snap>,
    ) -> bool {
        forall|m: int|
            k <= m < j ==> !self.some_better(#[trigger] disk_of(cell, m as u32), dist, best)
    }

    /// The snap is to one of the cells' nodes in the largest component, and to
    /// none that is further than another.
    pub open spec fn nearest_of(
        &self,
        cells: Seq<u64>,
        dist: spec_fn(u32) -> u64,
        snap: Option<Snap>,
    ) -> bool {
        &&& exists|i: int, v: u32|
            0 <= i < cells.len() && #[trigger] self.main_node(cells[i], v) && snap == Some(
                (v, dist(v)),
            )
        &&& forall|i: int, v: u32|
            0 <= i < cells.len() && #[trigger] self.main_node(cells[i], v) ==> (snap matches Some(
                s,
            ) && s.1 <= dist(v))
    }

    /// Looking further and further around a cell: nothing changes exactly if no
    /// node in reach is closer. Otherwise the fewest steps that lead to a closer
    /// one decide, and of the nodes within them the nearest comes out.
    pub proof fn lemma_first_better_disk(
        &self,
        cell: u64,
        k: int,
        limit: int,
        dist: spec_fn(u32) -> u64,
        best: Option<Snap>,
    )
        requires
            self.wf(),
            0 <= k,
        ensures
            ({
                let r = self.widen(cell, k, limit, dist, best);
                &&& r == best <==> self.none_better(cell, k, limit + 1, dist, best)
                &&& r != best ==> exists|j: int|
                    #![trigger self.none_better(cell, k, j, dist, best)]
                    k <= j <= limit && self.none_better(cell, k, j, dist, best) && self.nearest_of(
                        disk_of(cell, j as u32),
                        dist,
                        r,
                    )
            }),
        decreases limit + 1 - k,
    {
        if k <= limit {
            let disk = disk_of(cell, k as u32);
            self.lemma_scan_nearest(disk, dist, best);
            self.lemma_scan_better(disk, dist, best);
            self.lemma_first_better_disk(cell, k + 1, limit, dist, best);
            let r = self.widen(cell, k, limit, dist, best);
            let next = self.scan(disk, dist, best);
            if next != best {
                assert(self.none_better(cell, k, k, dist, best));
                assert(self.nearest_of(disk, dist, r));
                assert(self.some_better(disk_of(cell, k as u32), dist, best));
            } else if r != best {
                let j = choose|j: int|
                    #![trigger self.none_better(cell, k + 1, j, dist, best)]
                    k + 1 <= j <= limit && self.none_better(cell, k + 1, j, dist, best)
                        && self.nearest_of(disk_of(cell, j as u32), dist, r);
                assert(self.none_better(cell, k, j, dist, best));
            } else {
                assert(self.none_better(cell, k, limit + 1, dist, best));
            }
        }
    }

    proof fn lemma_widen_better(
        &self,
        cell: u64,
        k: int,
        limit: int,
        dist: spec_fn(u32) -> u64,
        best: Option<Snap>,
    )
        requires
            self.wf(),
        ensures
            no_worse(self.widen(cell, k, limit, dist, best), best),
        decreases limit + 1 - k,
    {
        if k <= limit {
            self.lemma_scan_better(disk_of(cell, k as u32), dist, best);
            self.lemma_widen_better(cell, k + 1, limit, dist, best);
        }
    }

    proof fn lemma_quick_better(
        &self,
        cell: spec_fn(int) -> u64,
        res: int,
        dist: spec_fn(u32) -> u64,
        best: Option<Snap>,
    )
        requires
            self.wf(),
        ensures
            no_worse(self.quick_pass(cell, res, dist, best), best),
        decreases res,
    {
        if res >= 3 {
            self.lemma_widen_better(cell(res), 0, 3, dist, best);
            let next = if close_enough(best, res) {
                best
            } else {
                self.widen(cell(res), 0, 3, dist, best)
            };
            self.lemma_quick_better(cell, res - 1, dist, next);
        }
    }

    proof fn lemma_wide_better(
        &self,
        cell: spec_fn(int) -> u64,
        res: int,
        dist: spec_fn(u32) -> u64,
        best: Option<Snap>,
    )
        requires
            self.wf(),
        ensures
            no_worse(self.wide_pass(cell, res, dist, best), best),
        decreases res,
    {
        if res >= 3 {
            let k = wide_steps(best, res);
            self.lemma_widen_better(cell(res), 0, k, dist, best);
            let next = if close_enough(best, res) || (best is Some && k <= 3) {
                best
            } else {
                self.widen(cell(res), 0, k, dist, best)
            };
            self.lemma_wide_better(cell, res - 1, dist, next);
        }
    }

    /// The snap is no worse than what three steps give at the finest resolution.
    /// One of half a nautical mile or more is looked at again: it is no worse than
    /// what as many steps as reach it, but no more than thirty, give at
    /// resolution 9.
    pub proof fn lemma_snap_no_worse(
        &self,
        cell: spec_fn(int) -> u64,
        dist: spec_fn(u32) -> u64,
        near: Snap,
    )
        requires
            self.wf(),
        ensures
            no_worse(self.nearest(cell, dist), self.widen(cell(13), 0, 3, dist, None)),
            no_worse(self.nearest(cell, dist), self.quick_pass(cell, 13, dist, None)),
            self.quick_pass(cell, 13, dist, None) == Some(near) && near.1 >= 500_000 ==> no_worse(
                self.nearest(cell, dist),
                self.widen(
                    cell(9),
                    0,
                    if near.1 / 100_000 + 2 < 30 {
                        near.1 as int / 100_000 + 2
                    } else {
                        30
                    },
                    dist,
                    Some(near),
                ),
            ),
    {
        let first = self.widen(cell(13), 0, 3, dist, None);
        self.lemma_quick_better(cell, 12, dist, first);
        let quick = self.quick_pass(cell, 13, dist, None);
        self.lemma_wide_better(cell, 9, dist, quick);
        if quick == Some(near) && near.1 >= 500_000 {
            let k = wide_steps(quick, 9);
            let next = self.widen(cell(9), 0, k, dist, quick);
            self.lemma_wide_better(cell, 8, dist, next);
        }
    }

    /// A point snaps to nothing exactly if no node of the largest component is in
    /// reach: none within three steps at any resolution from 3 to 13, none within
    /// thirty at 9, twenty from 6 to 8 and fifteen at 4 and 5, and none within
    /// fifty steps at resolution 3.
    pub proof fn lemma_nothing_in_reach(
        &self,
        cell: spec_fn(int) -> u64,
        dist: spec_fn(u32) -> u64,
    )
        requires
            self.wf(),
        ensures
            self.nearest(cell, dist) is None <==> {
                &&& forall|r: int| 10 <= r <= 13 ==> self.none_within(#[trigger] cell(r), 3)
                &&& self.none_within(cell(9), 30)
                &&& forall|r: int| 6 <= r <= 8 ==> self.none_within(#[trigger] cell(r), 20)
                &&& forall|r: int| 4 <= r <= 5 ==> self.none_within(#[trigger] cell(r), 15)
                &&& self.none_within(cell(3), 50)
            },
    {
        let quick = self.quick_pass(cell, 13, dist, None);
        self.lemma_quick_none(cell, 13, dist, None);
        self.lemma_wide_none(cell, 9, dist, quick);
        self.lemma_widen_none(cell(3), 0, 50, dist);
        assert forall|r: int, a: int, b: int|
            a <= b && #[trigger] self.none_within(cell(r), b) implies #[trigger] self.none_within(
            cell(r),
            a,
        ) by {
        }
        if self.nearest(cell, dist) is None {
            assert forall|r: int| 10 <= r <= 13 implies self.none_within(#[trigger] cell(r), 3) by {
            }
            assert(self.none_within(cell(9), max_steps(9)));
            assert forall|r: int| 6 <= r <= 8 implies self.none_within(#[trigger] cell(r), 20) by {
                assert(self.none_within(cell(r), max_steps(r)));
            }
            assert forall|r: int| 4 <= r <= 5 implies self.none_within(#[trigger] cell(r), 15) by {
                assert(self.none_within(cell(r), max_steps(r)));
            }
        }
    }

    /// Nothing snaps in a graph without nodes.
    pub proof fn lemma_empty_graph_snaps_nothing(
        &self,
        cell: spec_fn(int) -> u64,
        dist: spec_fn(u32) -> u64,
    )
        requires
            self.wf(),
            self.graph.num_nodes == 0,
        ensures
            self.nearest(cell, dist) is None,
    {
        self.lemma_nearest_in_main_component(cell, dist);
    }
}

} // verus!
