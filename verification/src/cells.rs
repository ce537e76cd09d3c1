//! Choice of the navigable cells: a cascade from ocean cells down to shoreline
//! cells, and further down inside passages.

use vstd::prelude::*;
use std::collections::HashMap;
use crate::bounds::{Bbox, NANODEG};
use crate::h3::{
    all_under, base_cells, cells_of_resolution, children, children_of, is_ancestor, is_cell,
    lemma_parent_of_parent, parent, parent_of, resolution, resolution_of, valid_cell,
    MAX_RESOLUTION,
};
use crate::oracle::{call1, call2, call3, function1, function2, function3, value1, value2, value3};
use crate::passages::Passage;
use crate::{H3_RES_BASE, H3_RES_LEAF};

verus! {

broadcast use vstd::std_specs::hash::group_hash_axioms;

/// Distance from the coast below which a cell of this resolution is refined, in
/// nanodegrees. From the leaf resolution on there is none.
///
/// Cells have edges of about 32 nm at resolution 3, 12 at 4, 4.5 at 5, 1.7 at 6
/// and 0.65 at 7; of about 461 m at 8, 174 m at 9 and 66 m at 10.
pub open spec fn cascade_threshold(res: int) -> int {
    if res == 3 {
        300_000_000
    } else if res == 4 {
        150_000_000
    } else if res == 5 {
        50_000_000
    } else if res == 6 {
        25_000_000
    } else if res == 7 {
        12_000_000
    } else if res == 8 {
        5_000_000
    } else {
        2_000_000
    }
}

/// Computes [`cascade_threshold`].
pub fn threshold_of(res: u8) -> (r: i64)
    ensures
        r == cascade_threshold(res as int),
{
    match res {
        3 => 300_000_000,
        4 => 150_000_000,
        5 => 50_000_000,
        6 => 25_000_000,
        7 => 12_000_000,
        8 => 5_000_000,
        _ => 2_000_000,
    }
}

/// The cascade as pairs of resolution and threshold, coarsest first.
pub fn cascade() -> (r: Vec<(u8, i64)>)
    ensures
        r@ == Seq::new(7, |i: int| ((i + 3) as u8, cascade_threshold(i + 3) as i64)),
{
    let mut out: Vec<(u8, i64)> = Vec::new();
    let mut res: u8 = H3_RES_BASE;
    while res < H3_RES_LEAF
        invariant
            3 <= res <= 10,
            out@.len() == res - 3,
            forall|i: int|
                0 <= i < out@.len() ==> #[trigger] out@[i] == (
                    (i + 3) as u8,
                    cascade_threshold(i + 3) as i64,
                ),
        decreases 10 - res,
    {
        out.push((res, threshold_of(res)));
        res = res + 1;
    }
    assert(out@ =~= Seq::new(7, |i: int| ((i + 3) as u8, cascade_threshold(i + 3) as i64)));
    out
}

/// Name of the tier of cells of one resolution.
pub open spec fn tier_text(res: u8) -> Seq<char> {
    match res {
        3 => "ocean"@,
        4 => "deep-mid"@,
        5 => "mid"@,
        6 => "near-mid"@,
        7 => "coastal"@,
        8 => "near-coast"@,
        9 => "near-shore"@,
        10 => "shoreline"@,
        11 => "passage-11"@,
        12 => "passage-12"@,
        13 => "passage-13"@,
        _ => "unknown"@,
    }
}

/// Computes [`tier_text`].
pub fn tier_name(res: u8) -> (r: &'static str)
    ensures
        r@ == tier_text(res),
{
    match res {
        3 => "ocean",
        4 => "deep-mid",
        5 => "mid",
        6 => "near-mid",
        7 => "coastal",
        8 => "near-coast",
        9 => "near-shore",
        10 => "shoreline",
        11 => "passage-11",
        12 => "passage-12",
        13 => "passage-13",
        _ => "unknown",
    }
}

/// About the distance from a cell's centre to its corners, in nanodegrees.
pub open spec fn radius_of(res: u8) -> int {
    if res <= 3 {
        600_000_000
    } else if res == 4 {
        200_000_000
    } else if res == 5 {
        80_000_000
    } else if res == 6 {
        30_000_000
    } else if res == 7 {
        12_000_000
    } else if res == 8 {
        5_000_000
    } else {
        2_000_000
    }
}

/// Computes [`radius_of`] for a cell's resolution.
pub fn cell_radius(cell: u64) -> (r: i64)
    requires
        valid_cell(cell),
    ensures
        r == radius_of(resolution_of(cell)),
{
    let res: u8 = resolution(cell);
    if res <= 3 {
        600_000_000
    } else if res == 4 {
        200_000_000
    } else if res == 5 {
        80_000_000
    } else if res == 6 {
        30_000_000
    } else if res == 7 {
        12_000_000
    } else if res == 8 {
        5_000_000
    } else {
        2_000_000
    }
}

/// Least distance to the coast of the first `n` points.
pub open spec fn least_distance<F: Fn(i64, i64, i64) -> i64>(
    coast: F,
    points: Seq<(i64, i64)>,
    radius: i64,
    n: int,
) -> i64
    decreases n,
{
    let (lon, lat) = points[n - 1];
    let d = value3(coast, lon, lat, radius);
    if n <= 1 {
        d
    } else {
        let rest = least_distance(coast, points, radius, n - 1);
        if d < rest {
            d
        } else {
            rest
        }
    }
}

/// No point is nearer to the coast than the least distance, and one is as near.
pub proof fn lemma_least_distance<F: Fn(i64, i64, i64) -> i64>(
    coast: F,
    points: Seq<(i64, i64)>,
    radius: i64,
    n: int,
)
    requires
        1 <= n <= points.len(),
    ensures
        forall|i: int|
            0 <= i < n ==> least_distance(coast, points, radius, n) <= value3(
                coast,
                (#[trigger] points[i]).0,
                points[i].1,
                radius,
            ),
        exists|i: int|
            0 <= i < n && least_distance(coast, points, radius, n) == value3(
                coast,
                (#[trigger] points[i]).0,
                points[i].1,
                radius,
            ),
    decreases n,
{
    if n > 1 {
        lemma_least_distance(coast, points, radius, n - 1);
        let r = least_distance(coast, points, radius, n);
        if r == least_distance(coast, points, radius, n - 1) {
            let i = choose|i: int|
                0 <= i < n - 1 && r == value3(coast, (#[trigger] points[i]).0, points[i].1, radius);
            assert(r == value3(coast, points[i].0, points[i].1, radius));
        } else {
            assert(r == value3(coast, points[n - 1].0, points[n - 1].1, radius));
        }
    } else {
        assert(points[0] == points[n - 1]);
    }
}

/// Cells are between 2.4 and 3 times smaller with each resolution, from 0.6 degrees at
/// the base on to the near shore. Finer ones count as large as those.
pub proof fn lemma_radii_shrink(res: u8)
    ensures
        radius_of(3) == 600_000_000,
        3 <= res < 9 ==> 24 * radius_of((res + 1) as u8) <= 10 * radius_of(res) <= 30 * radius_of(
            (res + 1) as u8,
        ),
        res > 9 ==> radius_of(res) == radius_of(9),
{
}

/// Least distance from a cell to the coast, taken at its centre and corners,
/// which `points` lists as longitude and latitude. `coast` measures the distance
/// of a point, searched up to a radius: all in nanodegrees.
pub fn cell_min_coast_dist<F: Fn(i64, i64, i64) -> i64>(
    cell: u64,
    points: &Vec<(i64, i64)>,
    coast: &F,
    threshold: i64,
) -> (r: i64)
    requires
        valid_cell(cell),
        points@.len() > 0,
        function3(*coast),
        0 <= threshold <= NANODEG,
    ensures
        r == least_distance(
            *coast,
            points@,
            (threshold + radius_of(resolution_of(cell))) as i64,
            points@.len() as int,
        ),
{
    let radius: i64 = threshold + cell_radius(cell);
    let mut best: i64 = call3(coast, points[0].0, points[0].1, radius);
    let mut i: usize = 1;
    while i < points.len()
        invariant
            1 <= i <= points@.len(),
            function3(*coast),
            best == least_distance(*coast, points@, radius, i as int),
        decreases points@.len() - i,
    {
        let d: i64 = call3(coast, points[i].0, points[i].1, radius);
        if d < best {
            best = d;
        }
        i = i + 1;
    }
    best
}

/// As [`cell_min_coast_dist`], of bits that need not be a cell; nothing where
/// they are not.
pub fn coast_distance_of<F: Fn(i64, i64, i64) -> i64>(
    cell: u64,
    points: &Vec<(i64, i64)>,
    coast: &F,
    threshold: i64,
) -> (r: Option<i64>)
    requires
        points@.len() > 0,
        function3(*coast),
        0 <= threshold <= NANODEG,
    ensures
        r == if valid_cell(cell) {
            Some(
                least_distance(
                    *coast,
                    points@,
                    (threshold + radius_of(resolution_of(cell))) as i64,
                    points@.len() as int,
                ),
            )
        } else {
            None
        },
{
    if is_cell(cell) {
        Some(cell_min_coast_dist(cell, points, coast, threshold))
    } else {
        None
    }
}

/// The coverage of the whole globe at one resolution: the descendants of the
/// base cells.
pub open spec fn in_global_cover(res: u8, cell: u64) -> bool {
    exists|i: int| 0 <= i < 122 && (#[trigger] children_of(crate::h3::base_cell(i), res)).contains(cell)
}

/// All cells of one resolution.
pub fn global_cells(res: u8) -> (r: Vec<u64>)
    requires
        res <= MAX_RESOLUTION,
    ensures
        cells_of_resolution(r@, res),
        r@.no_duplicates(),
        forall|c: u64| #[trigger] r@.contains(c) <==> in_global_cover(res, c),
{
    let bases = base_cells();
    let mut out: Vec<u64> = Vec::new();
    let mut i: usize = 0;
    while i < bases.len()
        invariant
            i <= bases@.len(),
            res <= MAX_RESOLUTION,
            bases@ == Seq::new(122, |k: int| crate::h3::base_cell(k)),
            cells_of_resolution(bases@, 0),
            cells_of_resolution(out@, res),
            out@.no_duplicates(),
            forall|j: int|
                0 <= j < out@.len() ==> 0x0800_1fff_ffff_ffff <= parent_of(#[trigger] out@[j], 0)
                    < crate::h3::base_cell(0) + i * 0x2000_0000_0000,
            forall|c: u64| #[trigger]
                out@.contains(c) <==> exists|k: int|
                    0 <= k < i && (#[trigger] children_of(crate::h3::base_cell(k), res)).contains(
                        c,
                    ),
        decreases bases@.len() - i,
    {
        let kids = children(bases[i], res);
        let ghost before = out@;
        let ghost fresh = kids@;
        let mut kids = kids;
        out.append(&mut kids);
        proof {
            assert(bases@[i as int] == crate::h3::base_cell(i as int));
            lemma_cells_concat(before, fresh, res);
            assert forall|j: int| 0 <= j < fresh.len() implies parent_of(#[trigger] fresh[j], 0)
                == crate::h3::base_cell(i as int) by {
                assert(resolution_of(bases@[i as int]) == 0);
            }
            assert forall|j: int, k: int|
                0 <= j < before.len() && 0 <= k < fresh.len() implies before[j] != fresh[k] by {
                assert(parent_of(before[j], 0) < parent_of(fresh[k], 0));
            }
            assert forall|j: int| 0 <= j < out@.len() implies 0x0800_1fff_ffff_ffff <= parent_of(
                #[trigger] out@[j],
                0,
            ) < crate::h3::base_cell(0) + (i + 1) * 0x2000_0000_0000 by {
                if j < before.len() {
                    assert(out@[j] == before[j]);
                } else {
                    assert(out@[j] == fresh[j - before.len()]);
                }
            }
            assert forall|c: u64| #[trigger] out@.contains(c) <==> exists|k: int|
                0 <= k < i + 1 && (#[trigger] children_of(crate::h3::base_cell(k), res)).contains(
                    c,
                ) by {
                lemma_contains_concat(before, fresh, c);
                if before.contains(c) {
                    let k = choose|k: int|
                        0 <= k < i && (#[trigger] children_of(
                            crate::h3::base_cell(k),
                            res,
                        )).contains(c);
                    assert(children_of(crate::h3::base_cell(k), res).contains(c));
                }
                if fresh.contains(c) {
                    assert(children_of(crate::h3::base_cell(i as int), res).contains(c));
                }
            }
        }
        i = i + 1;
    }
    out
}

pub proof fn lemma_contains_concat<T>(a: Seq<T>, b: Seq<T>, c: T)
    ensures
        (a + b).contains(c) <==> a.contains(c) || b.contains(c),
{
    let s = a + b;
    if a.contains(c) {
        let i = choose|i: int| 0 <= i < a.len() && a[i] == c;
        assert(s[i] == c);
    }
    if b.contains(c) {
        let i = choose|i: int| 0 <= i < b.len() && b[i] == c;
        assert(s[a.len() + i] == c);
    }
    if s.contains(c) {
        let i = choose|i: int| 0 <= i < s.len() && s[i] == c;
        if i < a.len() {
            assert(a[i] == c);
        } else {
            assert(b[i - a.len()] == c);
        }
    }
}

proof fn lemma_cells_concat(a: Seq<u64>, b: Seq<u64>, res: u8)
    requires
        cells_of_resolution(a, res),
        cells_of_resolution(b, res),
    ensures
        cells_of_resolution(a + b, res),
{
    let s = a + b;
    assert forall|i: int| 0 <= i < s.len() implies valid_cell(#[trigger] s[i]) && resolution_of(
        s[i],
    ) == res by {
        if i < a.len() {
            assert(s[i] == a[i]);
        } else {
            assert(s[i] == b[i - a.len()]);
        }
    }
}

proof fn lemma_contains_push<T>(a: Seq<T>, x: T, c: T)
    ensures
        a.push(x).contains(c) <==> a.contains(c) || c == x,
{
    assert(a.push(x) =~= a + seq![x]);
    lemma_contains_concat(a, seq![x], c);
    assert(seq![x][0] == x);
}

/// What the choice of cells goes by.
pub ghost struct Terrain {
    /// Land holds all of the cell.
    pub contained: spec_fn(u64) -> bool,
    /// Land meets the cell.
    pub met: spec_fn(u64) -> bool,
    /// The cell lies further from the coast than its tier asks.
    pub far: spec_fn(u64) -> bool,
    /// The cell's centre lies in the corridor of a passage.
    pub corridor: spec_fn(u64) -> bool,
    /// Resolution to which a cell of the leaf tier is refined, where it belongs
    /// to the zone of a passage.
    pub zone: spec_fn(u64) -> Option<u8>,
    /// The cells that the cascade starts from.
    pub base: Seq<u64>,
}

impl Terrain {
    /// A cell is kept in its tier: far from the coast, and without land.
    pub open spec fn kept(self, c: u64) -> bool {
        (self.far)(c) && !(self.met)(c)
    }

    /// A child outlives the refinement of `p`: it is not all land, or it lies in
    /// a corridor, whose water may only show at finer resolutions. Children can
    /// reach beyond their parent, so each is looked at by itself, unless land
    /// does not meet the parent at all.
    pub open spec fn survives(self, p: u64, c: u64) -> bool {
        !(self.met)(p) || !(self.contained)(c) || (self.corridor)(c)
    }

    /// The cell enters the tier of resolution `res` as a child of a cell of the
    /// tier above that is not kept there.
    pub open spec fn refined(self, above: spec_fn(u64) -> bool, res: int, c: u64) -> bool {
        exists|p: u64| #[trigger]
            above(p) && !self.kept(p) && children_of(p, res as u8).contains(c) && self.survives(p, c)
    }

    /// The cells of the tier of resolution `res`.
    pub open spec fn tier(self, res: int) -> spec_fn(u64) -> bool
        decreases res,
    {
        if res <= H3_RES_BASE {
            |c: u64| self.base.contains(c) && !(self.contained)(c)
        } else {
            |c: u64| self.refined(self.tier(res - 1), res, c)
        }
    }

    /// A cell of the leaf tier without land: land meets not even its parent, or
    /// it does not meet the cell.
    pub open spec fn pure_leaf(self, c: u64) -> bool {
        !(self.met)(parent_of(c, (H3_RES_LEAF - 1) as u8)) || !(self.met)(c)
    }

    /// The cell is a child, at resolution `res`, of one of the given cells.
    pub open spec fn child_of(self, above: spec_fn(u64) -> bool, res: int, c: u64) -> bool {
        exists|p: u64| #[trigger] above(p) && children_of(p, res as u8).contains(c)
    }

    /// Inside a zone that is refined to `leaf`, the cells of resolution `res` that
    /// are refined further. All cells with land are, even those that are all
    /// land: a narrow waterway may only show at the finest resolutions.
    pub open spec fn zone_open(self, leaf: u8, res: int) -> spec_fn(u64) -> bool
        decreases res,
    {
        if res <= H3_RES_LEAF {
            |c: u64|
                self.tier(H3_RES_LEAF as int)(c) && (self.zone)(c) == Some(leaf)
                    && !self.pure_leaf(c)
        } else {
            |c: u64| self.child_of(self.zone_open(leaf, res - 1), res, c) && (self.met)(c)
        }
    }

    /// The cell is kept in a tier above the leaf tier.
    pub open spec fn kept_in(self, res: int, c: u64) -> bool {
        self.tier(res)(c) && self.kept(c)
    }

    /// The cell is a fine one without land inside a zone.
    pub open spec fn fine(self, leaf: u8, res: int, c: u64) -> bool {
        H3_RES_LEAF < res <= leaf && self.child_of(self.zone_open(leaf, res - 1), res, c) && !(
        self.met)(c)
    }

    /// The navigable cells: those kept in a tier, those of the leaf tier without
    /// land, and the fine ones without land inside the zones of passages.
    pub open spec fn navigable(self, c: u64) -> bool {
        ||| exists|res: int| H3_RES_BASE <= res < H3_RES_LEAF && #[trigger] self.kept_in(res, c)
        ||| self.tier(H3_RES_LEAF as int)(c) && self.pure_leaf(c)
        ||| exists|leaf: u8, res: int| #[trigger] self.fine(leaf, res, c)
    }
}

/// The children of `p` at resolution `res` are cells that lie under it, one step
/// finer.
pub open spec fn is_parent(p: u64, res: int) -> bool {
    &&& resolution_of(p) == res - 1
    &&& cells_of_resolution(children_of(p, res as u8), res as u8)
    &&& all_under(children_of(p, res as u8), p)
}

impl Terrain {
    /// The cell is refined to the next tier.
    spec fn opened(self, res: int, c: u64) -> bool {
        self.tier(res)(c) && !self.kept(c)
    }

    /// The cell is refined inside a zone.
    spec fn opened_in(self, leaf: u8, res: int, c: u64) -> bool {
        self.zone_open(leaf, res)(c)
    }

    /// What is refined in the tiers above that of resolution `top` has its
    /// children under it.
    spec fn tiers_hold(self, top: int) -> bool {
        forall|res: int, p: u64|
            H3_RES_BASE <= res < top && #[trigger] self.opened(res, p) ==> is_parent(p, res + 1)
    }

    /// The same inside a zone.
    spec fn zone_holds(self, leaf: u8, top: int) -> bool {
        forall|res: int, p: u64|
            H3_RES_LEAF <= res < top && #[trigger] self.opened_in(leaf, res, p) ==> is_parent(
                p,
                res + 1,
            )
    }

    /// The same everywhere.
    spec fn holds(self) -> bool {
        &&& cells_of_resolution(self.base, H3_RES_BASE)
        &&& self.tiers_hold(H3_RES_LEAF as int)
        &&& forall|leaf: u8| #[trigger] self.zone_holds(leaf, leaf as int)
    }
}

/// A child under its parent.
proof fn lemma_child(p: u64, res: int, c: u64)
    requires
        0 < res <= MAX_RESOLUTION,
        is_parent(p, res),
        children_of(p, res as u8).contains(c),
    ensures
        resolution_of(c) == res,
        parent_of(c, (res - 1) as u8) == p,
        forall|r: u8| r < res ==> #[trigger] parent_of(c, r) == parent_of(p, r),
{
    let kids = children_of(p, res as u8);
    let i = choose|i: int| 0 <= i < kids.len() && kids[i] == c;
    assert(kids[i] == c);
    assert forall|r: u8| r < res implies #[trigger] parent_of(c, r) == parent_of(p, r) by {
        lemma_parent_of_parent(c, (res - 1) as u8, r);
    }
}

/// What lies above a cell of a tier is refined there.
proof fn lemma_above_tier(t: Terrain, res: int, c: u64)
    requires
        t.holds(),
        H3_RES_BASE <= res <= H3_RES_LEAF,
        t.tier(res)(c),
    ensures
        resolution_of(c) == res,
        forall|r: u8| H3_RES_BASE <= r < res ==> t.opened(r as int, #[trigger] parent_of(c, r)),
    decreases res,
{
    if res == H3_RES_BASE {
        let i = choose|i: int| 0 <= i < t.base.len() && t.base[i] == c;
        assert(resolution_of(t.base[i]) == H3_RES_BASE);
    } else {
        let above = t.tier(res - 1);
        assert(t.refined(above, res, c));
        let p = choose|p: u64| #[trigger]
            above(p) && !t.kept(p) && children_of(p, res as u8).contains(c) && t.survives(p, c);
        assert(t.opened(res - 1, p));
        lemma_above_tier(t, res - 1, p);
        lemma_child(p, res, c);
        assert forall|r: u8| H3_RES_BASE <= r < res implies t.opened(
            r as int,
            #[trigger] parent_of(c, r),
        ) by {
            if r < res - 1 {
                assert(parent_of(c, r) == parent_of(p, r));
            }
        }
    }
}

/// What lies above a child inside a zone is refined there.
proof fn lemma_above_fine(t: Terrain, leaf: u8, res: int, c: u64)
    requires
        t.holds(),
        H3_RES_LEAF < res <= leaf <= MAX_RESOLUTION,
        t.child_of(t.zone_open(leaf, res - 1), res, c),
    ensures
        resolution_of(c) == res,
        forall|r: u8|
            H3_RES_BASE <= r < H3_RES_LEAF ==> t.opened(r as int, #[trigger] parent_of(c, r)),
        forall|r: u8|
            H3_RES_LEAF <= r < res ==> t.opened_in(leaf, r as int, #[trigger] parent_of(c, r)),
    decreases res,
{
    let above = t.zone_open(leaf, res - 1);
    let p = choose|p: u64| #[trigger] above(p) && children_of(p, res as u8).contains(c);
    assert(t.opened_in(leaf, res - 1, p));
    assert(t.zone_holds(leaf, leaf as int));
    lemma_child(p, res, c);
    if res - 1 == H3_RES_LEAF {
        lemma_above_tier(t, H3_RES_LEAF as int, p);
    } else {
        lemma_above_fine(t, leaf, res - 1, p);
    }
    assert forall|r: u8| H3_RES_BASE <= r < H3_RES_LEAF implies t.opened(
        r as int,
        #[trigger] parent_of(c, r),
    ) by {
        assert(parent_of(c, r) == parent_of(p, r));
    }
    assert forall|r: u8| H3_RES_LEAF <= r < res implies t.opened_in(
        leaf,
        r as int,
        #[trigger] parent_of(c, r),
    ) by {
        if r < res - 1 {
            assert(parent_of(c, r) == parent_of(p, r));
        }
    }
}

/// A navigable cell is not refined, so that it holds no other one.
proof fn lemma_no_ancestor(t: Terrain, a: u64, c: u64)
    requires
        t.holds(),
        t.navigable(a),
        t.navigable(c),
        forall|leaf: u8, res: int, x: u64| #[trigger] t.fine(leaf, res, x) ==> leaf
            <= MAX_RESOLUTION,
    ensures
        !is_ancestor(a, c),
{
    if is_ancestor(a, c) {
        let ra = resolution_of(a);
        let rc = resolution_of(c);
        if exists|res: int| H3_RES_BASE <= res < H3_RES_LEAF && #[trigger] t.kept_in(res, c) {
            let res = choose|res: int|
                H3_RES_BASE <= res < H3_RES_LEAF && #[trigger] t.kept_in(res, c);
            lemma_above_tier(t, res, c);
        } else if t.tier(H3_RES_LEAF as int)(c) {
            lemma_above_tier(t, H3_RES_LEAF as int, c);
        } else {
            let (leaf, res) = choose|leaf: u8, res: int| #[trigger] t.fine(leaf, res, c);
            lemma_above_fine(t, leaf, res, c);
            assert(ra >= H3_RES_LEAF ==> t.opened_in(leaf, ra as int, a));
        }
        if exists|res: int| H3_RES_BASE <= res < H3_RES_LEAF && #[trigger] t.kept_in(res, a) {
            let res = choose|res: int|
                H3_RES_BASE <= res < H3_RES_LEAF && #[trigger] t.kept_in(res, a);
            lemma_above_tier(t, res, a);
            assert(t.opened(ra as int, parent_of(c, ra)));
        } else if t.tier(H3_RES_LEAF as int)(a) && t.pure_leaf(a) {
            lemma_above_tier(t, H3_RES_LEAF as int, a);
        } else {
            let (leaf, res) = choose|leaf: u8, res: int| #[trigger] t.fine(leaf, res, a);
            lemma_above_fine(t, leaf, res, a);
            assert(!(t.met)(a));
        }
    }
}

impl Terrain {
    /// What a cell is chosen for goes by its resolution: in the tiers above the
    /// leaf tier it is kept, in the leaf tier it is without land, and so is a
    /// finer one, which is no finer than the zone above it asks.
    pub open spec fn suits(self, c: u64) -> bool {
        let res = resolution_of(c);
        &&& H3_RES_BASE <= res
        &&& res < H3_RES_LEAF ==> self.kept(c)
        &&& res == H3_RES_LEAF ==> self.pure_leaf(c)
        &&& res > H3_RES_LEAF ==> {
            &&& !(self.met)(c)
            &&& (self.zone)(parent_of(c, H3_RES_LEAF)) matches Some(leaf) && res <= leaf
        }
    }
}

/// Navigable cells suit their resolution.
proof fn lemma_suits(t: Terrain, c: u64)
    requires
        t.holds(),
        t.navigable(c),
        forall|leaf: u8, res: int, x: u64| #[trigger] t.fine(leaf, res, x) ==> leaf
            <= MAX_RESOLUTION,
    ensures
        t.suits(c),
{
    if exists|res: int| H3_RES_BASE <= res < H3_RES_LEAF && #[trigger] t.kept_in(res, c) {
        let res = choose|res: int| H3_RES_BASE <= res < H3_RES_LEAF && #[trigger] t.kept_in(res, c);
        lemma_above_tier(t, res, c);
    } else if t.tier(H3_RES_LEAF as int)(c) && t.pure_leaf(c) {
        lemma_above_tier(t, H3_RES_LEAF as int, c);
    } else {
        let (leaf, res) = choose|leaf: u8, res: int| #[trigger] t.fine(leaf, res, c);
        lemma_above_fine(t, leaf, res, c);
        assert(t.opened_in(leaf, H3_RES_LEAF as int, parent_of(c, H3_RES_LEAF)));
    }
}

/// A line of descent: a cell of the base, then each time a child of the one before,
/// a resolution finer.
pub open spec fn descends(base: Seq<u64>, d: Seq<u64>) -> bool {
    &&& d.len() > 0
    &&& base.contains(d[0])
    &&& forall|i: int| 1 <= i < d.len() ==> #[trigger] child_at(d, i)
}

/// Cell `i` of the line is a child of the one before.
pub open spec fn child_at(d: Seq<u64>, i: int) -> bool {
    children_of(d[i - 1], (3 + i) as u8).contains(d[i])
}

/// Where no cell of a line of descent is all land, every one is either in its tier
/// or below a navigable one.
proof fn lemma_descent(t: Terrain, d: Seq<u64>, i: int)
    requires
        descends(t.base, d),
        0 <= i < d.len(),
        i <= 7,
        !(t.contained)(d[0]),
        forall|k: int| 1 <= k < d.len() && k <= 7 ==> !#[trigger] all_land_at(t, d, k),
        forall|k: int| 0 <= k < d.len() ==> !t.navigable(#[trigger] d[k]),
    ensures
        t.tier(3 + i)(d[i]),
    decreases i,
{
    if i > 0 {
        lemma_descent(t, d, i - 1);
        let p = d[i - 1];
        let above = t.tier(2 + i);
        if t.kept(p) {
            assert(t.kept_in(2 + i, p));
            assert(t.navigable(p));
        }
        assert(child_at(d, i));
        assert(!all_land_at(t, d, i));
        assert(above(p) && t.survives(p, d[i]));
        assert(t.refined(above, 3 + i, d[i]));
    }
}

proof fn lemma_descent_in_zone(t: Terrain, d: Seq<u64>, leaf: u8, i: int)
    requires
        descends(t.base, d),
        7 <= i < d.len(),
        3 + i <= leaf,
        !(t.contained)(d[0]),
        forall|k: int| 1 <= k < d.len() && k <= 7 ==> !#[trigger] all_land_at(t, d, k),
        forall|k: int| 0 <= k < d.len() ==> !t.navigable(#[trigger] d[k]),
        (t.zone)(d[7]) == Some(leaf),
    ensures
        t.zone_open(leaf, 3 + i)(d[i]),
    decreases i,
{
    if i == 7 {
        lemma_descent(t, d, 7);
        assert(!t.navigable(d[7]));
    } else {
        lemma_descent_in_zone(t, d, leaf, i - 1);
        let above = t.zone_open(leaf, 2 + i);
        assert(child_at(d, i));
        assert(above(d[i - 1]));
        assert(t.child_of(above, 3 + i, d[i]));
        if !(t.met)(d[i]) {
            assert(t.fine(leaf, 3 + i, d[i]));
            assert(t.navigable(d[i]));
        }
    }
}

/// No water is lost. Take a line of descent from the base down to the shoreline, or
/// down to the resolution of the zone that its shoreline cell belongs to. Where land
/// does not meet its last cell, or not the parent of one of the shoreline, and none of
/// its cells down to the shoreline is all land, one of its cells is navigable. What
/// lies in a corridor, or below a cell that land does not meet, may be all land.
pub proof fn lemma_no_water_lost(t: Terrain, d: Seq<u64>)
    requires
        descends(t.base, d),
        d.len() == 8 || (d.len() > 8 && (t.zone)(d[7]) == Some((d.len() + 2) as u8)),
        d.len() <= 13,
        !(t.contained)(d[0]),
        forall|k: int| 1 <= k < d.len() && k <= 7 ==> !#[trigger] all_land_at(t, d, k),
        !(t.met)(d.last()) || (d.len() == 8 && !(t.met)(parent_of(d[7], 9))),
    ensures
        exists|k: int| 0 <= k < d.len() && t.navigable(#[trigger] d[k]),
{
    if forall|k: int| 0 <= k < d.len() ==> !t.navigable(#[trigger] d[k]) {
        if d.len() == 8 {
            lemma_descent(t, d, 7);
            assert(t.pure_leaf(d[7]));
            assert(t.navigable(d[7]));
        } else {
            let leaf = (d.len() + 2) as u8;
            lemma_descent_in_zone(t, d, leaf, d.len() - 1);
        }
        assert(false);
    }
}

/// Cell `i` of the line is all land, outside every corridor, and land meets its
/// parent.
pub open spec fn all_land_at(t: Terrain, d: Seq<u64>, i: int) -> bool {
    (t.contained)(d[i]) && !(t.corridor)(d[i]) && (t.met)(d[i - 1])
}

/// A cell is refined for a reason: it is near the coast, or land meets it. Down to
/// the shoreline, what is all land is dropped, except in a corridor and except
/// where land does not meet its parent. Below the shoreline, all that is refined
/// has land.
pub open spec fn refined_with_reason(t: Terrain, d: Seq<u64>) -> bool {
    &&& !(t.contained)(d[0])
    &&& forall|i: int| 1 <= i < d.len() && i <= 7 ==> !#[trigger] all_land_at(t, d, i)
    &&& forall|i: int|
        0 <= i < d.len() - 1 && i < 7 ==> !(t.far)(#[trigger] d[i]) || (t.met)(d[i])
    &&& forall|i: int| 7 <= i < d.len() - 1 ==> (t.met)(#[trigger] d[i])
}

/// A line of descent that leads to `c`, with reason.
pub open spec fn origin(t: Terrain, d: Seq<u64>, c: u64) -> bool {
    descends(t.base, d) && d.last() == c && refined_with_reason(t, d)
}

proof fn lemma_origin_in_tier(t: Terrain, res: int, c: u64) -> (d: Seq<u64>)
    requires
        3 <= res <= 10,
        t.tier(res)(c),
    ensures
        origin(t, d, c),
        d.len() == res - 2,
    decreases res,
{
    if res == 3 {
        seq![c]
    } else {
        let above = t.tier(res - 1);
        assert(t.refined(above, res, c));
        let p = choose|p: u64| #[trigger]
            above(p) && !t.kept(p) && children_of(p, res as u8).contains(c) && t.survives(p, c);
        let e = lemma_origin_in_tier(t, res - 1, p);
        let d = e.push(c);
        lemma_origin_grows(t, e, p, c);
        d
    }
}

proof fn lemma_origin_grows(t: Terrain, e: Seq<u64>, p: u64, c: u64)
    requires
        origin(t, e, p),
        children_of(p, (3 + e.len()) as u8).contains(c),
        e.len() <= 7 ==> !t.kept(p) && t.survives(p, c),
        e.len() >= 8 ==> (t.met)(p),
    ensures
        origin(t, e.push(c), c),
{
    let d = e.push(c);
    let n = e.len() as int;
    assert(d[n - 1] == p);
    assert(d[0] == e[0]);
    assert forall|i: int| 1 <= i < d.len() implies #[trigger] child_at(d, i) by {
        if i < n {
            assert(child_at(e, i));
        }
    }
    assert forall|i: int| 1 <= i < d.len() && i <= 7 implies !#[trigger] all_land_at(t, d, i) by {
        if i < n {
            assert(!all_land_at(t, e, i));
        }
    }
    assert forall|i: int| 0 <= i < d.len() - 1 && i < 7 implies !(t.far)(#[trigger] d[i]) || (
    t.met)(d[i]) by {
        if i < n - 1 {
            assert(d[i] == e[i]);
        }
    }
    assert forall|i: int| 7 <= i < d.len() - 1 implies (t.met)(#[trigger] d[i]) by {
        if i < n - 1 {
            assert(d[i] == e[i]);
        }
    }
}

proof fn lemma_origin_in_zone(t: Terrain, leaf: u8, res: int, c: u64) -> (d: Seq<u64>)
    requires
        10 < res <= 15,
        t.child_of(t.zone_open(leaf, res - 1), res, c),
    ensures
        origin(t, d, c),
        d.len() == res - 2,
    decreases res,
{
    let above = t.zone_open(leaf, res - 1);
    let p = choose|p: u64| #[trigger] above(p) && children_of(p, res as u8).contains(c);
    let e = if res == 11 {
        lemma_origin_in_tier(t, 10, p)
    } else {
        lemma_origin_in_zone(t, leaf, res - 1, p)
    };
    lemma_origin_grows(t, e, p, c);
    e.push(c)
}

/// Every navigable cell lies in the area, and nothing on the way down to it was to be
/// kept or dropped.
pub proof fn lemma_origin(t: Terrain, c: u64)
    requires
        t.navigable(c),
        forall|leaf: u8, res: int, x: u64| #[trigger] t.fine(leaf, res, x) ==> leaf
            <= MAX_RESOLUTION,
    ensures
        exists|d: Seq<u64>| #[trigger] origin(t, d, c),
{
    if exists|res: int| H3_RES_BASE <= res < H3_RES_LEAF && #[trigger] t.kept_in(res, c) {
        let res = choose|res: int| H3_RES_BASE <= res < H3_RES_LEAF && #[trigger] t.kept_in(res, c);
        let d = lemma_origin_in_tier(t, res, c);
    } else if t.tier(H3_RES_LEAF as int)(c) && t.pure_leaf(c) {
        let d = lemma_origin_in_tier(t, 10, c);
    } else {
        let (leaf, res) = choose|leaf: u8, res: int| #[trigger] t.fine(leaf, res, c);
        let d = lemma_origin_in_zone(t, leaf, res, c);
    }
}

/// No navigable cell has land on it, except that one of the leaf tier is taken
/// for water with its parent: that reaches a little beyond it.
pub proof fn lemma_navigable_is_water(t: Terrain, c: u64)
    requires
        t.navigable(c),
    ensures
        !(t.met)(c) || (t.tier(H3_RES_LEAF as int)(c) && !(t.met)(
            parent_of(c, (H3_RES_LEAF - 1) as u8),
        )),
{
    if exists|res: int| H3_RES_BASE <= res < H3_RES_LEAF && #[trigger] t.kept_in(res, c) {
        let res = choose|res: int| H3_RES_BASE <= res < H3_RES_LEAF && #[trigger] t.kept_in(res, c);
        assert(t.kept(c));
    } else if t.tier(H3_RES_LEAF as int)(c) && t.pure_leaf(c) {
    } else {
        let (leaf, res) = choose|leaf: u8, res: int| #[trigger] t.fine(leaf, res, c);
        assert(!(t.met)(c));
    }
}

/// A cell of the base that is far from the coast and without land is navigable
/// as it is.
pub proof fn lemma_open_sea_is_kept(t: Terrain, c: u64)
    requires
        t.base.contains(c),
        !(t.contained)(c),
        !(t.met)(c),
        (t.far)(c),
    ensures
        t.navigable(c),
{
    assert(t.tier(H3_RES_BASE as int)(c));
    assert(t.kept_in(H3_RES_BASE as int, c));
}

/// More cells than can be numbered.
#[derive(Debug, Clone, Copy, PartialEq, Eq)]
pub struct TooManyCells;

/// The cells are numbered from 0 on, each with a number of its own.
pub open spec fn numbered(m: Map<u64, u32>) -> bool {
    &&& m.dom().finite()
    &&& forall|c: u64| #[trigger] m.contains_key(c) ==> m[c] < m.dom().len()
    &&& forall|c: u64, d: u64|
        m.contains_key(c) && m.contains_key(d) && c != d ==> #[trigger] m[c] != #[trigger] m[d]
}

/// More cells than can be numbered have the property.
pub open spec fn too_many(p: spec_fn(u64) -> bool) -> bool {
    exists|s: Set<u64>|
        #![trigger s.finite()]
        s.finite() && s.len() > u32::MAX && forall|c: u64| s.contains(c) ==> #[trigger] p(c)
}

/// Gives a cell the next number, unless it has one.
pub fn insert_cell(cell_map: &mut HashMap<u64, u32>, cell: u64) -> (r: Result<(), TooManyCells>)
    requires
        numbered(old(cell_map)@),
        old(cell_map)@.dom().len() <= u32::MAX,
    ensures
        numbered(final(cell_map)@),
        match r {
            Ok(_) => {
                &&& final(cell_map)@.dom().len() <= u32::MAX
                &&& final(cell_map)@ == if old(cell_map)@.contains_key(cell) {
                    old(cell_map)@
                } else {
                    old(cell_map)@.insert(cell, old(cell_map)@.dom().len() as u32)
                }
            },
            Err(_) => {
                &&& !old(cell_map)@.contains_key(cell)
                &&& old(cell_map)@.dom().len() == u32::MAX
                &&& final(cell_map)@ == old(cell_map)@
            },
        },
{
    if cell_map.contains_key(&cell) {
        return Ok(());
    }
    let id: usize = cell_map.len();
    if id >= u32::MAX as usize {
        return Err(TooManyCells);
    }
    let ghost before = cell_map@;
    cell_map.insert(cell, id as u32);
    proof {
        let after = cell_map@;
        assert(after.dom() =~= before.dom().insert(cell));
        assert forall|c: u64| #[trigger] after.contains_key(c) implies after[c]
            < after.dom().len() by {
            if c != cell {
                assert(before.contains_key(c));
            }
        }
        assert forall|c: u64, d: u64|
            after.contains_key(c) && after.contains_key(d) && c != d implies #[trigger] after[c]
            != #[trigger] after[d] by {
            if c != cell {
                assert(before.contains_key(c));
            }
            if d != cell {
                assert(before.contains_key(d));
            }
        }
    }
    Ok(())
}

/// What the caller measures of cells. Land tests go by the cell's outline.
pub struct Ground<A, B, C, D> {
    /// Whether land holds all of a cell.
    pub contains: A,
    /// Whether land meets a cell.
    pub intersects: B,
    /// Least distance of a cell to the coast in nanodegrees, exact up to the
    /// given threshold.
    pub coast_distance: C,
    /// Latitude and longitude of a cell's centre in nanodegrees.
    pub center: D,
}

impl<A, B, C, D> Ground<A, B, C, D> where
    A: Fn(u64) -> bool,
    B: Fn(u64) -> bool,
    C: Fn(u64, i64) -> i64,
    D: Fn(u64) -> (i64, i64),
 {
    pub open spec fn ok(&self) -> bool {
        &&& function1(self.contains)
        &&& function1(self.intersects)
        &&& function2(self.coast_distance)
        &&& function1(self.center)
    }

    /// The cell lies further from the coast than the threshold of its tier.
    pub open spec fn is_far(&self, c: u64) -> bool {
        let t = cascade_threshold(resolution_of(c) as int);
        value2(self.coast_distance, c, t as i64) > t
    }

    /// The line of descent leads to water at the shoreline: land does not meet its
    /// last cell, or not its parent, and no cell on the way is all land, but for
    /// those with their centre in the corridor of a passage and those below a cell
    /// that land does not meet.
    pub open spec fn leads_to_water(&self, passages: Seq<Passage>, d: Seq<u64>) -> bool {
        &&& d.len() == 8
        &&& !value1(self.contains, d[0])
        &&& forall|k: int|
            1 <= k <= 7 ==> !value1(self.contains, #[trigger] d[k]) || !value1(
                self.intersects,
                d[k - 1],
            ) || exists|i: int|
                0 <= i < passages.len() && (#[trigger] passages[i]).area().has(
                    value1(self.center, d[k]).1,
                    value1(self.center, d[k]).0,
                )
        &&& !value1(self.intersects, d[7]) || !value1(self.intersects, parent_of(d[7], 9))
    }

    /// Land does not meet the cell, or not even its parent where it is one of the
    /// shoreline. One above the shoreline is further from the coast than its tier
    /// asks.
    pub open spec fn is_clear(&self, c: u64) -> bool {
        let res = resolution_of(c);
        let near = cascade_threshold(res as int);
        &&& !value1(self.intersects, c) || (res == 10 && !value1(self.intersects, parent_of(c, 9)))
        &&& res < 10 ==> value2(self.coast_distance, c, near as i64) > near
    }

    /// The terrain that the measurements describe.
    pub open spec fn terrain(
        &self,
        base: Seq<u64>,
        passages: Seq<Passage>,
        bbox: Option<Bbox>,
        zone_cells: Seq<Vec<u64>>,
    ) -> Terrain {
        Terrain {
            contained: |c: u64| value1(self.contains, c),
            met: |c: u64| value1(self.intersects, c),
            far: |c: u64| self.is_far(c),
            corridor: |c: u64|
                in_corridors(passages, value1(self.center, c).1, value1(self.center, c).0),
            zone: |c: u64| zone_of(passages, bbox, zone_cells, c),
            base,
        }
    }
}

/// The point lies in the corridor of a passage.
pub open spec fn in_corridors(passages: Seq<Passage>, lon: i64, lat: i64) -> bool {
    exists|i: int| 0 <= i < passages.len() && (#[trigger] passages[i]).area().has(lon, lat)
}

/// Tests whether a point lies in the corridor of a passage.
pub fn in_passage_corridor(passages: &Vec<Passage>, lon: i64, lat: i64) -> (r: bool)
    requires
        forall|i: int| 0 <= i < passages@.len() ==> (#[trigger] passages@[i]).wf(),
    ensures
        r == in_corridors(passages@, lon, lat),
{
    for i in 0..passages.len()
        invariant
            forall|k: int| 0 <= k < passages@.len() ==> (#[trigger] passages@[k]).wf(),
            forall|k: int| 0 <= k < i ==> !(#[trigger] passages@[k]).area().has(lon, lat),
    {
        assert(passages@[i as int].wf());
        if passages[i].bounds().contains_point(lon, lat) {
            return true;
        }
    }
    false
}

/// The passage matters for a build limited to `bbox`.
pub open spec fn in_build(p: Passage, bbox: Option<Bbox>) -> bool {
    match bbox {
        Some(b) => b.meets(p.area()),
        None => true,
    }
}

/// Computes [`in_build`].
pub fn passage_in_build(p: &Passage, bbox: Option<Bbox>) -> (r: bool)
    requires
        p.wf(),
    ensures
        r == in_build(*p, bbox),
{
    match bbox {
        Some(b) => b.overlaps(&p.bounds()),
        None => true,
    }
}

/// Resolution to which the first `n` passages refine what lies under a zone
/// cell: the finest of those that it belongs to.
pub open spec fn zone_leaf(
    passages: Seq<Passage>,
    bbox: Option<Bbox>,
    zone_cells: Seq<Vec<u64>>,
    n: int,
    cell: u64,
) -> Option<u8>
    decreases n,
{
    if n <= 0 {
        None
    } else {
        let before = zone_leaf(passages, bbox, zone_cells, n - 1, cell);
        let leaf = passages[n - 1].leaf_resolution;
        if in_build(passages[n - 1], bbox) && zone_cells[n - 1]@.contains(cell) {
            Some(finer(before, leaf))
        } else {
            before
        }
    }
}

/// The finer of a resolution, if there is one, and `leaf`.
pub open spec fn finer(before: Option<u8>, leaf: u8) -> u8 {
    match before {
        Some(b) if b > leaf => b,
        _ => leaf,
    }
}

/// What the table says of a cell.
pub open spec fn entry(m: Map<u64, u8>, c: u64) -> Option<u8> {
    if m.contains_key(c) {
        Some(m[c])
    } else {
        None
    }
}

/// Resolution to which a cell is refined, where it lies under a zone cell.
pub open spec fn zone_of(
    passages: Seq<Passage>,
    bbox: Option<Bbox>,
    zone_cells: Seq<Vec<u64>>,
    cell: u64,
) -> Option<u8> {
    if passages.len() == 0 || passages[0].zone_resolution > resolution_of(cell) {
        None
    } else {
        zone_leaf(
            passages,
            bbox,
            zone_cells,
            passages.len() as int,
            parent_of(cell, passages[0].zone_resolution),
        )
    }
}

/// What lies under a zone cell is refined as far as the finest of the passages that
/// it belongs to asks, those outside the build not counted, and to a resolution that
/// one of them asks for.
pub proof fn lemma_zone_is_finest(
    passages: Seq<Passage>,
    bbox: Option<Bbox>,
    zone_cells: Seq<Vec<u64>>,
    n: int,
    cell: u64,
)
    requires
        0 <= n <= passages.len(),
    ensures
        ({
            let leaf = zone_leaf(passages, bbox, zone_cells, n, cell);
            &&& forall|i: int|
                0 <= i < n && asks_for(passages, bbox, zone_cells, #[trigger] passages[i], i, cell)
                    ==> (leaf matches Some(l) && passages[i].leaf_resolution <= l)
            &&& leaf matches Some(l) ==> exists|i: int|
                0 <= i < n && asks_for(passages, bbox, zone_cells, #[trigger] passages[i], i, cell)
                    && passages[i].leaf_resolution == l
        }),
    decreases n,
{
    if n > 0 {
        lemma_zone_is_finest(passages, bbox, zone_cells, n - 1, cell);
        let before = zone_leaf(passages, bbox, zone_cells, n - 1, cell);
        let leaf = zone_leaf(passages, bbox, zone_cells, n, cell);
        assert(passages[n - 1] == passages[n - 1]);
        if leaf is Some && leaf == before {
            let i = choose|i: int|
                0 <= i < n - 1 && asks_for(
                    passages,
                    bbox,
                    zone_cells,
                    #[trigger] passages[i],
                    i,
                    cell,
                ) && passages[i].leaf_resolution == before->0;
            assert(asks_for(passages, bbox, zone_cells, passages[i], i, cell));
        }
    }
}

/// A cell is refined as far as the zone cell above it, of the resolution in which zones
/// are told, is to be refined. A coarser cell lies in no zone, and without passages none
/// does.
pub proof fn lemma_zone_above(
    passages: Seq<Passage>,
    bbox: Option<Bbox>,
    zone_cells: Seq<Vec<u64>>,
    cell: u64,
    i: int,
)
    requires
        0 <= i < passages.len(),
        passages[0].zone_resolution <= resolution_of(cell),
        asks_for(
            passages,
            bbox,
            zone_cells,
            passages[i],
            i,
            parent_of(cell, passages[0].zone_resolution),
        ),
    ensures
        zone_of(passages, bbox, zone_cells, cell) matches Some(l) && passages[i].leaf_resolution
            <= l,
        zone_of(Seq::empty(), bbox, zone_cells, cell) is None,
{
    lemma_zone_is_finest(
        passages,
        bbox,
        zone_cells,
        passages.len() as int,
        parent_of(cell, passages[0].zone_resolution),
    );
    assert(asks_for(
        passages,
        bbox,
        zone_cells,
        passages[i],
        i,
        parent_of(cell, passages[0].zone_resolution),
    ));
}

/// Passage `i` lies in the build, and the cell is one of those that cover it.
pub open spec fn asks_for(
    passages: Seq<Passage>,
    bbox: Option<Bbox>,
    zone_cells: Seq<Vec<u64>>,
    p: Passage,
    i: int,
    cell: u64,
) -> bool {
    (bbox matches Some(b) ==> b.meets(p.area())) && zone_cells[i]@.contains(cell)
}

/// The table of [`zone_leaf`]. `zone_cells` holds for each passage the cells of
/// its zone resolution that cover its corridor.
pub fn build_zone_lookup(
    passages: &Vec<Passage>,
    bbox: Option<Bbox>,
    zone_cells: &Vec<Vec<u64>>,
) -> (r: HashMap<u64, u8>)
    requires
        forall|i: int| 0 <= i < passages@.len() ==> (#[trigger] passages@[i]).wf(),
        zone_cells@.len() == passages@.len(),
    ensures
        forall|c: u64| #[trigger]
            entry(r@, c) == zone_leaf(passages@, bbox, zone_cells@, passages@.len() as int, c),
{
    let mut lookup: HashMap<u64, u8> = HashMap::new();
    for i in 0..passages.len()
        invariant
            forall|k: int| 0 <= k < passages@.len() ==> (#[trigger] passages@[k]).wf(),
            zone_cells@.len() == passages@.len(),
            forall|c: u64| #[trigger]
                entry(lookup@, c) == zone_leaf(passages@, bbox, zone_cells@, i as int, c),
    {
        assert(passages@[i as int].wf());
        let leaf: u8 = passages[i].leaf_resolution;
        if passage_in_build(&passages[i], bbox) {
            let ghost start = lookup@;
            let cells = &zone_cells[i];
            for j in 0..cells.len()
                invariant
                    forall|c: u64| #[trigger]
                        entry(lookup@, c) == if cells@.take(j as int).contains(c) {
                            Some(finer(entry(start, c), leaf))
                        } else {
                            entry(start, c)
                        },
            {
                let cell: u64 = cells[j];
                let ghost before = lookup@;
                assert(entry(before, cell) == entry(before, cell));
                let is_finer: bool = match lookup.get(&cell) {
                    Some(known) => leaf > *known,
                    None => true,
                };
                if is_finer {
                    lookup.insert(cell, leaf);
                }
                proof {
                    assert(cells@.take(j + 1) =~= cells@.take(j as int).push(cell));
                    assert forall|c: u64| #[trigger]
                        entry(lookup@, c) == if cells@.take(j + 1).contains(c) {
                            Some(finer(entry(start, c), leaf))
                        } else {
                            entry(start, c)
                        } by {
                        lemma_contains_push(cells@.take(j as int), cell, c);
                        assert(entry(before, c) == if cells@.take(j as int).contains(c) {
                            Some(finer(entry(start, c), leaf))
                        } else {
                            entry(start, c)
                        });
                    }
                }
            }
            proof {
                assert(cells@.take(cells@.len() as int) =~= cells@);
                assert forall|c: u64| #[trigger]
                    entry(lookup@, c) == zone_leaf(passages@, bbox, zone_cells@, i + 1, c) by {
                    assert(entry(start, c) == zone_leaf(
                        passages@,
                        bbox,
                        zone_cells@,
                        i as int,
                        c,
                    ));
                }
            }
        }
    }
    lookup
}

/// The cells in the map and those in the list together have the property, and
/// are too many.
proof fn lemma_too_many(m: Map<u64, u32>, cell: u64, p: spec_fn(u64) -> bool)
    requires
        m.dom().finite(),
        m.dom().len() == u32::MAX,
        !m.contains_key(cell),
        forall|c: u64| #[trigger] m.contains_key(c) ==> p(c),
        p(cell),
    ensures
        too_many(p),
{
    let s = m.dom().insert(cell);
    assert(s.finite());
    assert(s.len() == u32::MAX + 1);
    assert forall|c: u64| s.contains(c) implies #[trigger] p(c) by {
        if c != cell {
            assert(m.contains_key(c));
        }
    }
}

/// The map holds exactly the cells with the property, numbered.
spec fn filled(m: Map<u64, u32>, p: spec_fn(u64) -> bool) -> bool {
    &&& numbered(m)
    &&& m.dom().len() <= u32::MAX
    &&& forall|c: u64| #[trigger] m.contains_key(c) <==> p(c)
    &&& grid_cells(m)
}

/// All keys are cells of the resolutions that the cascade makes.
pub open spec fn grid_cells<V>(m: Map<u64, V>) -> bool {
    forall|c: u64| #[trigger]
        m.contains_key(c) ==> valid_cell(c) && H3_RES_BASE <= resolution_of(c) <= MAX_RESOLUTION
}

/// Numbers all cells of a list.
fn insert_all(
    cell_map: &mut HashMap<u64, u32>,
    cells: &Vec<u64>,
    res: u8,
    Ghost(before): Ghost<spec_fn(u64) -> bool>,
    Ghost(after): Ghost<spec_fn(u64) -> bool>,
    Ghost(all): Ghost<spec_fn(u64) -> bool>,
) -> (r: Result<(), TooManyCells>)
    requires
        filled(old(cell_map)@, before),
        cells_of_resolution(cells@, res),
        H3_RES_BASE <= res <= MAX_RESOLUTION,
        forall|c: u64| #[trigger] after(c) <==> before(c) || cells@.contains(c),
        forall|c: u64| #[trigger] after(c) ==> all(c),
    ensures
        match r {
            Ok(_) => filled(final(cell_map)@, after),
            Err(_) => too_many(all),
        },
{
    assert(cells@.take(0) =~= Seq::<u64>::empty());
    for i in 0..cells.len()
        invariant
            numbered(cell_map@),
            cell_map@.dom().len() <= u32::MAX,
            grid_cells(cell_map@),
            cells_of_resolution(cells@, res),
            H3_RES_BASE <= res <= MAX_RESOLUTION,
            forall|c: u64| #[trigger]
                cell_map@.contains_key(c) <==> before(c) || cells@.take(i as int).contains(c),
            forall|c: u64| #[trigger] after(c) <==> before(c) || cells@.contains(c),
            forall|c: u64| #[trigger] after(c) ==> all(c),
    {
        let cell: u64 = cells[i];
        let ghost m = cell_map@;
        proof {
            assert(cells@.contains(cell));
            assert(after(cell));
            assert(cells@.take(i + 1) =~= cells@.take(i as int).push(cell));
        }
        match insert_cell(cell_map, cell) {
            Ok(_) => {
                assert forall|c: u64| #[trigger]
                    cell_map@.contains_key(c) <==> before(c) || cells@.take(i + 1).contains(c) by {
                    lemma_contains_push(cells@.take(i as int), cell, c);
                    assert(m.contains_key(c) <==> before(c) || cells@.take(i as int).contains(c));
                }
            },
            Err(e) => {
                proof {
                    assert forall|c: u64| #[trigger] m.contains_key(c) implies all(c) by {
                        if cells@.take(i as int).contains(c) {
                            let k = choose|k: int|
                                0 <= k < cells@.take(i as int).len() && cells@.take(i as int)[k]
                                    == c;
                            assert(cells@[k] == c);
                        }
                        assert(after(c));
                    }
                    lemma_too_many(m, cell, all);
                }
                return Err(e);
            },
        }
    }
    assert(cells@.take(cells@.len() as int) =~= cells@);
    Ok(())
}

/// The cells of a list with and without a property.
fn partition<F: Fn(u64) -> bool>(cells: &Vec<u64>, f: &F, Ghost(p): Ghost<spec_fn(u64) -> bool>, res: u8) -> (r: (
    Vec<u64>,
    Vec<u64>,
))
    requires
        cells_of_resolution(cells@, res),
        forall|c: u64|
            valid_cell(c) && resolution_of(c) == res ==> #[trigger] call_requires(*f, (c,)),
        forall|c: u64, x: bool| #[trigger]
            call_ensures(*f, (c,), x) && valid_cell(c) && resolution_of(c) == res ==> x == p(c),
    ensures
        cells_of_resolution(r.0@, res),
        cells_of_resolution(r.1@, res),
        forall|c: u64| #[trigger] r.0@.contains(c) <==> cells@.contains(c) && p(c),
        forall|c: u64| #[trigger] r.1@.contains(c) <==> cells@.contains(c) && !p(c),
{
    let mut yes: Vec<u64> = Vec::new();
    let mut no: Vec<u64> = Vec::new();
    assert(cells@.take(0) =~= Seq::<u64>::empty());
    for i in 0..cells.len()
        invariant
            cells_of_resolution(cells@, res),
            forall|c: u64|
                valid_cell(c) && resolution_of(c) == res ==> #[trigger] call_requires(*f, (c,)),
            forall|c: u64, x: bool| #[trigger]
                call_ensures(*f, (c,), x) && valid_cell(c) && resolution_of(c) == res ==> x == p(c),
            cells_of_resolution(yes@, res),
            cells_of_resolution(no@, res),
            forall|c: u64| #[trigger]
                yes@.contains(c) <==> cells@.take(i as int).contains(c) && p(c),
            forall|c: u64| #[trigger]
                no@.contains(c) <==> cells@.take(i as int).contains(c) && !p(c),
    {
        let cell: u64 = cells[i];
        let ghost y0 = yes@;
        let ghost n0 = no@;
        assert(cells@.take(i + 1) =~= cells@.take(i as int).push(cell));
        if f(cell) {
            yes.push(cell);
        } else {
            no.push(cell);
        }
        assert forall|c: u64| #[trigger]
            yes@.contains(c) <==> cells@.take(i + 1).contains(c) && p(c) by {
            lemma_contains_push(cells@.take(i as int), cell, c);
            lemma_contains_push(y0, cell, c);
        }
        assert forall|c: u64| #[trigger]
            no@.contains(c) <==> cells@.take(i + 1).contains(c) && !p(c) by {
            lemma_contains_push(cells@.take(i as int), cell, c);
            lemma_contains_push(n0, cell, c);
        }
    }
    assert(cells@.take(cells@.len() as int) =~= cells@);
    (yes, no)
}

/// The children of `parents` that `f` lets through.
fn expand<F: Fn(u64, u64) -> bool>(
    parents: &Vec<u64>,
    next_res: u8,
    f: &F,
    Ghost(p): Ghost<spec_fn(u64, u64) -> bool>,
) -> (r: Vec<u64>)
    requires
        0 < next_res <= MAX_RESOLUTION,
        cells_of_resolution(parents@, (next_res - 1) as u8),
        forall|a: u64, c: u64| #[trigger] call_requires(*f, (a, c)),
        forall|a: u64, c: u64, x: bool| #[trigger] call_ensures(*f, (a, c), x) ==> x == p(a, c),
    ensures
        cells_of_resolution(r@, next_res),
        forall|c: u64| #[trigger]
            r@.contains(c) <==> exists|a: u64| #[trigger]
                parents@.contains(a) && children_of(a, next_res).contains(c) && p(a, c),
        forall|a: u64| #[trigger] parents@.contains(a) ==> is_parent(a, next_res as int),
{
    let mut out: Vec<u64> = Vec::new();
    for i in 0..parents.len()
        invariant
            0 < next_res <= MAX_RESOLUTION,
            cells_of_resolution(parents@, (next_res - 1) as u8),
            forall|a: u64, c: u64| #[trigger] call_requires(*f, (a, c)),
            forall|a: u64, c: u64, x: bool| #[trigger]
                call_ensures(*f, (a, c), x) ==> x == p(a, c),
            cells_of_resolution(out@, next_res),
            forall|c: u64| #[trigger]
                out@.contains(c) <==> exists|k: int|
                    0 <= k < i && children_of(#[trigger] parents@[k], next_res).contains(c) && p(
                        parents@[k],
                        c,
                    ),
            forall|k: int| 0 <= k < i ==> is_parent(#[trigger] parents@[k], next_res as int),
    {
        let a: u64 = parents[i];
        let kids = children(a, next_res);
        assert(is_parent(parents@[i as int], next_res as int));
        let ghost before = out@;
        assert(kids@.take(0) =~= Seq::<u64>::empty());
        for j in 0..kids.len()
            invariant
                forall|a: u64, c: u64| #[trigger] call_requires(*f, (a, c)),
                forall|a: u64, c: u64, x: bool| #[trigger]
                    call_ensures(*f, (a, c), x) ==> x == p(a, c),
                cells_of_resolution(kids@, next_res),
                cells_of_resolution(out@, next_res),
                forall|c: u64| #[trigger]
                    out@.contains(c) <==> before.contains(c) || (kids@.take(j as int).contains(c)
                        && p(a, c)),
        {
            let child: u64 = kids[j];
            let ghost o0 = out@;
            assert(kids@.take(j + 1) =~= kids@.take(j as int).push(child));
            if f(a, child) {
                out.push(child);
            }
            assert forall|c: u64| #[trigger]
                out@.contains(c) <==> before.contains(c) || (kids@.take(j + 1).contains(c) && p(
                    a,
                    c,
                )) by {
                lemma_contains_push(kids@.take(j as int), child, c);
                lemma_contains_push(o0, child, c);
                assert(o0.contains(c) <==> before.contains(c) || (kids@.take(j as int).contains(c)
                    && p(a, c)));
            }
        }
        proof {
            assert(kids@.take(kids@.len() as int) =~= kids@);
            assert forall|c: u64| #[trigger]
                out@.contains(c) <==> exists|k: int|
                    0 <= k < i + 1 && children_of(#[trigger] parents@[k], next_res).contains(c)
                        && p(parents@[k], c) by {
                if before.contains(c) {
                    let k = choose|k: int|
                        0 <= k < i && children_of(#[trigger] parents@[k], next_res).contains(c)
                            && p(parents@[k], c);
                    assert(children_of(parents@[k], next_res).contains(c));
                }
                if children_of(a, next_res).contains(c) && p(a, c) {
                    assert(children_of(parents@[i as int], next_res).contains(c));
                }
            }
        }
    }
    proof {
        assert forall|a: u64| #[trigger] parents@.contains(a) implies is_parent(
            a,
            next_res as int,
        ) by {
            let k = choose|k: int| 0 <= k < parents@.len() && parents@[k] == a;
            assert(is_parent(parents@[k], next_res as int));
        }
        assert forall|c: u64| #[trigger]
            out@.contains(c) <==> exists|a: u64| #[trigger]
                parents@.contains(a) && children_of(a, next_res).contains(c) && p(a, c) by {
            if out@.contains(c) {
                let k = choose|k: int|
                    0 <= k < parents@.len() && children_of(#[trigger] parents@[k], next_res).contains(
                        c,
                    ) && p(parents@[k], c);
                assert(parents@.contains(parents@[k]));
            }
            if exists|a: u64| #[trigger]
                parents@.contains(a) && children_of(a, next_res).contains(c) && p(a, c) {
                let a = choose|a: u64| #[trigger]
                    parents@.contains(a) && children_of(a, next_res).contains(c) && p(a, c);
                let k = choose|k: int| 0 <= k < parents@.len() && parents@[k] == a;
                assert(children_of(parents@[k], next_res).contains(c));
            }
        }
    }
    out
}

/// The cell is kept in a tier above that of resolution `res`.
spec fn kept_above(t: Terrain, res: int, c: u64) -> bool {
    exists|r: int| H3_RES_BASE <= r < res && #[trigger] t.kept_in(r, c)
}

/// The cascade: keeps what is far from the coast and without land, refines the
/// rest, tier by tier. Returns the leaf tier.
fn run_cascade<A, B, C, D>(
    base: &Vec<u64>,
    passages: &Vec<Passage>,
    ground: &Ground<A, B, C, D>,
    cell_map: &mut HashMap<u64, u32>,
    Ghost(t): Ghost<Terrain>,
) -> (r: Result<Vec<u64>, TooManyCells>) where
    A: Fn(u64) -> bool,
    B: Fn(u64) -> bool,
    C: Fn(u64, i64) -> i64,
    D: Fn(u64) -> (i64, i64),

    requires
        ground.ok(),
        cells_of_resolution(base@, H3_RES_BASE),
        forall|i: int| 0 <= i < passages@.len() ==> (#[trigger] passages@[i]).wf(),
        t.base == base@,
        t.contained == (|c: u64| value1(ground.contains, c)),
        t.met == (|c: u64| value1(ground.intersects, c)),
        t.far == (|c: u64| ground.is_far(c)),
        t.corridor == (|c: u64|
            in_corridors(passages@, value1(ground.center, c).1, value1(ground.center, c).0)),
        old(cell_map)@ == Map::<u64, u32>::empty(),
    ensures
        match r {
            Ok(leaf) => {
                &&& filled(final(cell_map)@, |c: u64| kept_above(t, H3_RES_LEAF as int, c))
                &&& cells_of_resolution(leaf@, H3_RES_LEAF)
                &&& forall|c: u64| #[trigger]
                    leaf@.contains(c) <==> t.tier(H3_RES_LEAF as int)(c)
                &&& t.tiers_hold(H3_RES_LEAF as int)
            },
            Err(_) => too_many(|c: u64| t.navigable(c)),
        },
{
    let is_land = |c: u64| -> (x: bool)
        ensures
            x == value1(ground.contains, c),
        { call1(&ground.contains, c) };
    let (_, water): (Vec<u64>, Vec<u64>) = partition(base, &is_land, Ghost(t.contained), H3_RES_BASE);
    let mut current: Vec<u64> = water;
    let mut res: u8 = H3_RES_BASE;
    proof {
        assert(cell_map@.dom() =~= Set::<u64>::empty());
        assert(filled(cell_map@, |c: u64| kept_above(t, 3, c)));
    }
    while res < H3_RES_LEAF
        invariant
            ground.ok(),
            forall|i: int| 0 <= i < passages@.len() ==> (#[trigger] passages@[i]).wf(),
            t.contained == (|c: u64| value1(ground.contains, c)),
            t.met == (|c: u64| value1(ground.intersects, c)),
            t.far == (|c: u64| ground.is_far(c)),
            t.corridor == (|c: u64|
                in_corridors(passages@, value1(ground.center, c).1, value1(ground.center, c).0)),
            H3_RES_BASE <= res <= H3_RES_LEAF,
            cells_of_resolution(current@, res),
            forall|c: u64| #[trigger] current@.contains(c) <==> t.tier(res as int)(c),
            filled(cell_map@, |c: u64| kept_above(t, res as int, c)),
            t.tiers_hold(res as int),
        decreases H3_RES_LEAF - res,
    {
        let threshold: i64 = threshold_of(res);
        let ghost kept = |c: u64| t.kept(c);
        let is_kept = |c: u64| -> (x: bool)
            requires
                resolution_of(c) == res,
            ensures
                x == (ground.is_far(c) && !value1(ground.intersects, c)),
            {
                call2(&ground.coast_distance, c, threshold) > threshold && !call1(
                    &ground.intersects,
                    c,
                )
            };
        let (keep, refine): (Vec<u64>, Vec<u64>) = partition(&current, &is_kept, Ghost(kept), res);
        proof {
            assert forall|c: u64| #[trigger]
                kept_above(t, res + 1, c) <==> kept_above(t, res as int, c) || keep@.contains(
                    c,
                ) by {
                if kept_above(t, res + 1, c) {
                    let r = choose|r: int| H3_RES_BASE <= r < res + 1 && #[trigger] t.kept_in(r, c);
                    if r < res {
                        assert(kept_above(t, res as int, c));
                    }
                }
                if kept_above(t, res as int, c) {
                    let r = choose|r: int| H3_RES_BASE <= r < res && #[trigger] t.kept_in(r, c);
                    assert(t.kept_in(r, c));
                }
                if keep@.contains(c) {
                    assert(t.kept_in(res as int, c));
                }
            }
            assert forall|c: u64| #[trigger] kept_above(t, res + 1, c) implies t.navigable(c) by {
                let r = choose|r: int| H3_RES_BASE <= r < res + 1 && #[trigger] t.kept_in(r, c);
                assert(t.kept_in(r, c));
            }
        }
        let ghost after = |c: u64| kept_above(t, res + 1, c);
        match insert_all(
            cell_map,
            &keep,
            res,
            Ghost(|c: u64| kept_above(t, res as int, c)),
            Ghost(after),
            Ghost(|c: u64| t.navigable(c)),
        ) {
            Ok(_) => {},
            Err(e) => {
                return Err(e);
            },
        }
        let survives = |a: u64, c: u64| -> (x: bool)
            ensures
                x == (!value1(ground.intersects, a) || !value1(ground.contains, c)
                    || in_corridors(
                    passages@,
                    value1(ground.center, c).1,
                    value1(ground.center, c).0,
                )),
            {
                if !call1(&ground.intersects, a) || !call1(&ground.contains, c) {
                    true
                } else {
                    let (lat, lon) = call1(&ground.center, c);
                    in_passage_corridor(passages, lon, lat)
                }
            };
        let next = expand(&refine, res + 1, &survives, Ghost(|a: u64, c: u64| t.survives(a, c)));
        proof {
            let above = t.tier(res as int);
            let n = res + 1;
            assert forall|r: int, p: u64|
                H3_RES_BASE <= r < n && #[trigger] t.opened(r, p) implies is_parent(p, r + 1) by {
                if r == res {
                    assert(current@.contains(p));
                    assert(refine@.contains(p));
                }
            }
            assert forall|c: u64| #[trigger] next@.contains(c) <==> t.tier(n)(c) by {
                if next@.contains(c) {
                    let a = choose|a: u64| #[trigger]
                        refine@.contains(a) && children_of(a, n as u8).contains(c) && t.survives(
                            a,
                            c,
                        );
                    assert(current@.contains(a));
                    assert(above(a));
                    assert(t.refined(above, n, c));
                }
                if t.tier(n)(c) {
                    assert(t.refined(above, n, c));
                    let a = choose|a: u64| #[trigger]
                        above(a) && !t.kept(a) && children_of(a, n as u8).contains(c) && t.survives(
                            a,
                            c,
                        );
                    assert(current@.contains(a));
                    assert(refine@.contains(a));
                }
            }
        }
        current = next;
        res = res + 1;
    }
    Ok(current)
}

/// What has been numbered after the leaf tier.
spec fn done_leaf(t: Terrain, c: u64) -> bool {
    kept_above(t, H3_RES_LEAF as int, c) || (t.tier(H3_RES_LEAF as int)(c) && t.pure_leaf(c))
}

/// The zone refined to `l` has reached resolution `r` before that to `leaf` has
/// reached `res`.
spec fn earlier(l: u8, r: int, leaf: int, res: int) -> bool {
    l < leaf || (l == leaf && r < res)
}

/// What has been numbered when the zone refined to `leaf` has come to `res`.
spec fn done_zone(t: Terrain, leaf: int, res: int, c: u64) -> bool {
    done_leaf(t, c) || exists|l: u8, r: int| #[trigger] t.fine(l, r, c) && earlier(l, r, leaf, res)
}

proof fn lemma_done_navigable(t: Terrain, leaf: int, res: int, c: u64)
    ensures
        done_leaf(t, c) ==> t.navigable(c),
        done_zone(t, leaf, res, c) ==> t.navigable(c),
{
    if kept_above(t, H3_RES_LEAF as int, c) {
        let r = choose|r: int| H3_RES_BASE <= r < H3_RES_LEAF && #[trigger] t.kept_in(r, c);
        assert(t.kept_in(r, c));
    }
    if exists|l: u8, r: int| #[trigger] t.fine(l, r, c) && earlier(l, r, leaf, res) {
        let (l, r) = choose|l: u8, r: int| #[trigger] t.fine(l, r, c) && earlier(l, r, leaf, res);
        assert(t.fine(l, r, c));
    }
}

/// Numbers the cells of the leaf tier without land. Returns those with land.
fn keep_leaves<A, B, C, D>(
    leaf_tier: &Vec<u64>,
    ground: &Ground<A, B, C, D>,
    cell_map: &mut HashMap<u64, u32>,
    Ghost(t): Ghost<Terrain>,
) -> (r: Result<Vec<u64>, TooManyCells>) where
    A: Fn(u64) -> bool,
    B: Fn(u64) -> bool,
    C: Fn(u64, i64) -> i64,
    D: Fn(u64) -> (i64, i64),

    requires
        ground.ok(),
        t.met == (|c: u64| value1(ground.intersects, c)),
        cells_of_resolution(leaf_tier@, H3_RES_LEAF),
        forall|c: u64| #[trigger] leaf_tier@.contains(c) <==> t.tier(H3_RES_LEAF as int)(c),
        filled(old(cell_map)@, |c: u64| kept_above(t, H3_RES_LEAF as int, c)),
    ensures
        match r {
            Ok(rest) => {
                &&& filled(final(cell_map)@, |c: u64| done_leaf(t, c))
                &&& cells_of_resolution(rest@, H3_RES_LEAF)
                &&& forall|c: u64| #[trigger]
                    rest@.contains(c) <==> t.tier(H3_RES_LEAF as int)(c) && !t.pure_leaf(c)
            },
            Err(_) => too_many(|c: u64| t.navigable(c)),
        },
{
    let is_pure = |c: u64| -> (x: bool)
        requires
            valid_cell(c),
            resolution_of(c) == H3_RES_LEAF,
        ensures
            x == (!value1(ground.intersects, parent_of(c, (H3_RES_LEAF - 1) as u8)) || !value1(
                ground.intersects,
                c,
            )),
        {
            match parent(c, H3_RES_LEAF - 1) {
                Some(p) => !call1(&ground.intersects, p) || !call1(&ground.intersects, c),
                None => false,
            }
        };
    let (pure, rest): (Vec<u64>, Vec<u64>) = partition(
        leaf_tier,
        &is_pure,
        Ghost(|c: u64| t.pure_leaf(c)),
        H3_RES_LEAF,
    );
    proof {
        assert forall|c: u64| #[trigger] done_leaf(t, c) implies t.navigable(c) by {
            lemma_done_navigable(t, 0, 0, c);
        }
    }
    match insert_all(
        cell_map,
        &pure,
        H3_RES_LEAF,
        Ghost(|c: u64| kept_above(t, H3_RES_LEAF as int, c)),
        Ghost(|c: u64| done_leaf(t, c)),
        Ghost(|c: u64| t.navigable(c)),
    ) {
        Ok(_) => Ok(rest),
        Err(e) => Err(e),
    }
}

/// Refines the cells of one zone resolution down to it, numbering at each step
/// those without land.
fn refine_zone<A, B, C, D>(
    rest: &Vec<u64>,
    leaf: u8,
    ground: &Ground<A, B, C, D>,
    cell_map: &mut HashMap<u64, u32>,
    Ghost(t): Ghost<Terrain>,
) -> (r: Result<(), TooManyCells>) where
    A: Fn(u64) -> bool,
    B: Fn(u64) -> bool,
    C: Fn(u64, i64) -> i64,
    D: Fn(u64) -> (i64, i64),

    requires
        ground.ok(),
        t.met == (|c: u64| value1(ground.intersects, c)),
        H3_RES_LEAF < leaf <= MAX_RESOLUTION,
        cells_of_resolution(rest@, H3_RES_LEAF),
        forall|c: u64| #[trigger]
            rest@.contains(c) <==> t.zone_open(leaf, H3_RES_LEAF as int)(c),
        filled(old(cell_map)@, |c: u64| done_zone(t, leaf as int, H3_RES_LEAF + 1, c)),
    ensures
        match r {
            Ok(_) => {
                &&& filled(final(cell_map)@, |c: u64| done_zone(t, leaf as int, leaf + 1, c))
                &&& t.zone_holds(leaf, leaf as int)
            },
            Err(_) => too_many(|c: u64| t.navigable(c)),
        },
{
    let all = |a: u64, c: u64| -> (x: bool)
        ensures
            x,
        { true };
    let is_pure = |c: u64| -> (x: bool)
        ensures
            x == !value1(ground.intersects, c),
        { !call1(&ground.intersects, c) };
    let mut res: u8 = H3_RES_LEAF + 1;
    let mut current = expand(rest, res, &all, Ghost(|a: u64, c: u64| true));
    proof {
        lemma_children(t, rest@, t.zone_open(leaf, H3_RES_LEAF as int), res, current@);
        assert forall|r: int, p: u64|
            H3_RES_LEAF <= r < res && #[trigger] t.opened_in(leaf, r, p) implies is_parent(
            p,
            r + 1,
        ) by {
            assert(rest@.contains(p));
        }
    }
    loop
        invariant
            ground.ok(),
            t.met == (|c: u64| value1(ground.intersects, c)),
            H3_RES_LEAF < leaf <= MAX_RESOLUTION,
            H3_RES_LEAF < res <= leaf,
            cells_of_resolution(current@, res),
            forall|c: u64| #[trigger]
                current@.contains(c) <==> t.child_of(t.zone_open(leaf, res - 1), res as int, c),
            filled(cell_map@, |c: u64| done_zone(t, leaf as int, res as int, c)),
            t.zone_holds(leaf, res as int),
            forall|a: u64, c: u64| #[trigger] call_requires(all, (a, c)),
            forall|a: u64, c: u64, x: bool| #[trigger] call_ensures(all, (a, c), x) ==> x,
            forall|c: u64| #[trigger] call_requires(is_pure, (c,)),
            forall|c: u64, x: bool| #[trigger]
                call_ensures(is_pure, (c,), x) ==> x == !value1(ground.intersects, c),
        decreases leaf - res,
    {
        let (pure, with_land): (Vec<u64>, Vec<u64>) = partition(
            &current,
            &is_pure,
            Ghost(|c: u64| !(t.met)(c)),
            res,
        );
        proof {
            assert forall|c: u64| #[trigger]
                done_zone(t, leaf as int, res + 1, c) <==> done_zone(t, leaf as int, res as int, c)
                    || pure@.contains(c) by {
                lemma_done_step(t, leaf, res as int, c);
                assert(pure@.contains(c) <==> t.fine(leaf, res as int, c));
            }
            assert forall|c: u64| #[trigger] done_zone(t, leaf as int, res + 1, c) implies t.navigable(
                c,
            ) by {
                lemma_done_navigable(t, leaf as int, res + 1, c);
            }
        }
        match insert_all(
            cell_map,
            &pure,
            res,
            Ghost(|c: u64| done_zone(t, leaf as int, res as int, c)),
            Ghost(|c: u64| done_zone(t, leaf as int, res + 1, c)),
            Ghost(|c: u64| t.navigable(c)),
        ) {
            Ok(_) => {},
            Err(e) => {
                return Err(e);
            },
        }
        if res == leaf {
            return Ok(());
        }
        let next = expand(&with_land, res + 1, &all, Ghost(|a: u64, c: u64| true));
        proof {
            let open = t.zone_open(leaf, res as int);
            assert forall|c: u64| #[trigger] with_land@.contains(c) <==> open(c) by {
                assert(with_land@.contains(c) <==> current@.contains(c) && (t.met)(c));
            }
            lemma_children(t, with_land@, open, (res + 1) as u8, next@);
            assert forall|r: int, p: u64|
                H3_RES_LEAF <= r < res + 1 && #[trigger] t.opened_in(leaf, r, p) implies is_parent(
                p,
                r + 1,
            ) by {
                if r == res {
                    assert(with_land@.contains(p));
                }
            }
        }
        current = next;
        res = res + 1;
    }
}

/// Expanding the list that holds exactly the cells with a property.
proof fn lemma_children(
    t: Terrain,
    parents: Seq<u64>,
    open: spec_fn(u64) -> bool,
    res: u8,
    kids: Seq<u64>,
)
    requires
        forall|c: u64| #[trigger] parents.contains(c) <==> open(c),
        forall|c: u64| #[trigger]
            kids.contains(c) <==> exists|a: u64| #[trigger]
                parents.contains(a) && children_of(a, res).contains(c) && true,
    ensures
        forall|c: u64| #[trigger] kids.contains(c) <==> t.child_of(open, res as int, c),
{
    assert forall|c: u64| #[trigger] kids.contains(c) <==> t.child_of(open, res as int, c) by {
        if kids.contains(c) {
            let a = choose|a: u64| #[trigger]
                parents.contains(a) && children_of(a, res).contains(c) && true;
            assert(open(a));
        }
        if t.child_of(open, res as int, c) {
            let a = choose|a: u64| #[trigger] open(a) && children_of(a, res as u8).contains(c);
            assert(parents.contains(a));
        }
    }
}

proof fn lemma_done_step(t: Terrain, leaf: u8, res: int, c: u64)
    ensures
        done_zone(t, leaf as int, res + 1, c) <==> done_zone(t, leaf as int, res, c) || t.fine(
            leaf,
            res,
            c,
        ),
{
    if done_zone(t, leaf as int, res + 1, c) && !done_leaf(t, c) {
        let (l, r) = choose|l: u8, r: int| #[trigger]
            t.fine(l, r, c) && earlier(l, r, leaf as int, res + 1);
        assert(t.fine(l, r, c));
        if !(l == leaf && r == res) {
            assert(earlier(l, r, leaf as int, res));
        }
    }
    if done_zone(t, leaf as int, res, c) && !done_leaf(t, c) {
        let (l, r) = choose|l: u8, r: int| #[trigger]
            t.fine(l, r, c) && earlier(l, r, leaf as int, res);
        assert(t.fine(l, r, c) && earlier(l, r, leaf as int, res + 1));
    }
    if t.fine(leaf, res, c) {
        assert(earlier(leaf, res, leaf as int, res + 1));
    }
}

/// Zones done down to their resolution leave the next ones to do.
proof fn lemma_done_next(t: Terrain, leaf: u8, c: u64)
    ensures
        done_zone(t, leaf as int, leaf + 1, c) <==> done_zone(
            t,
            leaf + 1,
            H3_RES_LEAF + 1,
            c,
        ),
{
    if done_zone(t, leaf as int, leaf + 1, c) && !done_leaf(t, c) {
        let (l, r) = choose|l: u8, r: int| #[trigger]
            t.fine(l, r, c) && earlier(l, r, leaf as int, leaf + 1);
        assert(t.fine(l, r, c) && earlier(l, r, leaf + 1, H3_RES_LEAF + 1));
    }
    if done_zone(t, leaf + 1, H3_RES_LEAF + 1, c) && !done_leaf(t, c) {
        let (l, r) = choose|l: u8, r: int| #[trigger]
            t.fine(l, r, c) && earlier(l, r, leaf + 1, H3_RES_LEAF + 1);
        assert(t.fine(l, r, c) && earlier(l, r, leaf as int, leaf + 1));
    }
}

/// Zones refine to resolutions that there are.
proof fn lemma_zone_leaf_bound(
    passages: Seq<Passage>,
    bbox: Option<Bbox>,
    zone_cells: Seq<Vec<u64>>,
    n: int,
    cell: u64,
)
    requires
        n <= passages.len(),
        forall|i: int| 0 <= i < passages.len() ==> (#[trigger] passages[i]).wf(),
    ensures
        zone_leaf(passages, bbox, zone_cells, n, cell) matches Some(l) ==> l <= MAX_RESOLUTION,
    decreases n,
{
    if n > 0 {
        lemma_zone_leaf_bound(passages, bbox, zone_cells, n - 1, cell);
        assert(passages[n - 1].wf());
    }
}

/// What is refined to a resolution lies under a zone cell that asks for it.
proof fn lemma_zone_open_leaf(t: Terrain, leaf: u8, res: int, p: u64)
    requires
        t.zone_open(leaf, res)(p),
    ensures
        exists|q: u64| #[trigger] (t.zone)(q) == Some(leaf),
    decreases res,
{
    if res > H3_RES_LEAF {
        let above = t.zone_open(leaf, res - 1);
        assert(t.child_of(above, res, p));
        let q = choose|q: u64| #[trigger] above(q) && children_of(q, res as u8).contains(p);
        lemma_zone_open_leaf(t, leaf, res - 1, q);
    } else {
        assert((t.zone)(p) == Some(leaf));
    }
}

/// No cell lies inside another.
pub open spec fn apart(m: Map<u64, u32>) -> bool {
    forall|a: u64, c: u64| #[trigger] m.contains_key(a) && #[trigger] m.contains_key(c)
        ==> !is_ancestor(a, c)
}

/// Chooses the navigable cells and numbers them from 0 on. None of them lies inside
/// another.
///
/// `base` holds the cells of resolution 3 that cover the area, and `zone_cells`
/// for each passage those that cover its corridor. Cells inside a corridor are
/// not dropped for being all land, so that narrow waterways last until they
/// show.
pub fn generate_cells<A, B, C, D>(
    base: &Vec<u64>,
    passages: &Vec<Passage>,
    bbox: Option<Bbox>,
    zone_cells: &Vec<Vec<u64>>,
    ground: &Ground<A, B, C, D>,
) -> (r: Result<HashMap<u64, u32>, TooManyCells>) where
    A: Fn(u64) -> bool,
    B: Fn(u64) -> bool,
    C: Fn(u64, i64) -> i64,
    D: Fn(u64) -> (i64, i64),

    requires
        ground.ok(),
        cells_of_resolution(base@, H3_RES_BASE),
        forall|i: int| 0 <= i < passages@.len() ==> (#[trigger] passages@[i]).wf(),
        zone_cells@.len() == passages@.len(),
    ensures
        ({
            let t = ground.terrain(base@, passages@, bbox, zone_cells@);
            match r {
                Ok(cells) => {
                    &&& numbered(cells@)
                    &&& cells@.dom().len() <= u32::MAX
                    &&& grid_cells(cells@)
                    &&& forall|c: u64| #[trigger] cells@.contains_key(c) <==> t.navigable(c)
                    &&& forall|c: u64| #[trigger] cells@.contains_key(c) ==> t.suits(c)
                    &&& apart(cells@)
                    &&& forall|c: u64| #[trigger]
                        cells@.contains_key(c) ==> ground.is_clear(c) && resolution_of(c) <= 15
                    &&& forall|d: Seq<u64>| #[trigger]
                        descends(base@, d) && ground.leads_to_water(passages@, d) ==> exists|k: int|
                            0 <= k < 8 && cells@.contains_key(#[trigger] d[k])
                },
                Err(_) => too_many(|c: u64| t.navigable(c)),
            }
        }),
{
    let ghost t = ground.terrain(base@, passages@, bbox, zone_cells@);
    let mut cell_map: HashMap<u64, u32> = HashMap::new();
    let leaf_tier = match run_cascade(base, passages, ground, &mut cell_map, Ghost(t)) {
        Ok(v) => v,
        Err(e) => {
            return Err(e);
        },
    };
    let rest = match keep_leaves(&leaf_tier, ground, &mut cell_map, Ghost(t)) {
        Ok(v) => v,
        Err(e) => {
            return Err(e);
        },
    };
    let lookup = build_zone_lookup(passages, bbox, zone_cells);
    let mut leaf: u8 = H3_RES_LEAF + 1;
    proof {
        assert forall|c: u64| #[trigger] done_leaf(t, c) <==> done_zone(
            t,
            H3_RES_LEAF + 1,
            H3_RES_LEAF + 1,
            c,
        ) by {
            if done_zone(t, H3_RES_LEAF + 1, H3_RES_LEAF + 1, c) && !done_leaf(t, c) {
                let (l, r) = choose|l: u8, r: int| #[trigger]
                    t.fine(l, r, c) && earlier(l, r, H3_RES_LEAF + 1, H3_RES_LEAF + 1);
                assert(t.fine(l, r, c));
            }
        }
        assert forall|c: u64| #[trigger] cell_map@.contains_key(c) <==> done_zone(
            t,
            H3_RES_LEAF + 1,
            H3_RES_LEAF + 1,
            c,
        ) by {
            assert(done_leaf(t, c) <==> done_zone(t, H3_RES_LEAF + 1, H3_RES_LEAF + 1, c));
        }
    }
    while leaf <= MAX_RESOLUTION
        invariant
            ground.ok(),
            t == ground.terrain(base@, passages@, bbox, zone_cells@),
            forall|i: int| 0 <= i < passages@.len() ==> (#[trigger] passages@[i]).wf(),
            forall|c: u64| #[trigger]
                entry(lookup@, c) == zone_leaf(
                    passages@,
                    bbox,
                    zone_cells@,
                    passages@.len() as int,
                    c,
                ),
            H3_RES_LEAF < leaf <= MAX_RESOLUTION + 1,
            cells_of_resolution(rest@, H3_RES_LEAF),
            forall|c: u64| #[trigger]
                rest@.contains(c) <==> t.tier(H3_RES_LEAF as int)(c) && !t.pure_leaf(c),
            filled(cell_map@, |c: u64| done_zone(t, leaf as int, H3_RES_LEAF + 1, c)),
            forall|l: u8| l < leaf ==> #[trigger] t.zone_holds(l, l as int),
        decreases MAX_RESOLUTION + 1 - leaf,
    {
        let in_zone = |c: u64| -> (x: bool)
            requires
                valid_cell(c),
            ensures
                x == (zone_of(passages@, bbox, zone_cells@, c) == Some(leaf)),
            {
                if passages.len() == 0 {
                    false
                } else {
                    assert(passages@[0].wf());
                    match parent(c, passages[0].zone_resolution) {
                        Some(p) => {
                            assert(entry(lookup@, p) == entry(lookup@, p));
                            match lookup.get(&p) {
                                Some(v) => *v == leaf,
                                None => false,
                            }
                        },
                        None => false,
                    }
                }
            };
        let (zone, _): (Vec<u64>, Vec<u64>) = partition(
            &rest,
            &in_zone,
            Ghost(|c: u64| zone_of(passages@, bbox, zone_cells@, c) == Some(leaf)),
            H3_RES_LEAF,
        );
        match refine_zone(&zone, leaf, ground, &mut cell_map, Ghost(t)) {
            Ok(_) => {},
            Err(e) => {
                return Err(e);
            },
        }
        proof {
            assert forall|c: u64| #[trigger] cell_map@.contains_key(c) <==> done_zone(
                t,
                leaf + 1,
                H3_RES_LEAF + 1,
                c,
            ) by {
                lemma_done_next(t, leaf, c);
            }
        }
        leaf = leaf + 1;
    }
    proof {
        assert forall|l: u8, r: int, p: u64| #[trigger] t.opened_in(l, r, p) implies l
            <= MAX_RESOLUTION by {
            lemma_zone_open_leaf(t, l, r, p);
            let q = choose|q: u64| #[trigger] (t.zone)(q) == Some(l);
            lemma_zone_leaf_bound(
                passages@,
                bbox,
                zone_cells@,
                passages@.len() as int,
                parent_of(q, passages@[0].zone_resolution),
            );
        }
        assert forall|l: u8, r: int, c: u64| #[trigger] t.fine(l, r, c) implies l
            <= MAX_RESOLUTION by {
            let above = t.zone_open(l, r - 1);
            let p = choose|p: u64| #[trigger] above(p) && children_of(p, r as u8).contains(c);
            assert(t.opened_in(l, r - 1, p));
        }
        assert(t.holds());
        assert forall|c: u64| #[trigger] cell_map@.contains_key(c) <==> t.navigable(c) by {
            let last = leaf as int;
            lemma_done_navigable(t, last, H3_RES_LEAF + 1, c);
            if t.navigable(c) && !done_leaf(t, c) {
                let (l, r) = choose|l: u8, r: int| #[trigger] t.fine(l, r, c);
                assert(t.fine(l, r, c) && earlier(l, r, last, H3_RES_LEAF + 1));
            }
        }
    }
    proof {
        assert forall|a: u64, c: u64| #[trigger]
            cell_map@.contains_key(a) && #[trigger] cell_map@.contains_key(c) implies !is_ancestor(
            a,
            c,
        ) by {
            lemma_no_ancestor(t, a, c);
        }
        assert forall|c: u64| #[trigger] cell_map@.contains_key(c) implies t.suits(c) by {
            lemma_suits(t, c);
        }
        assert forall|c: u64| #[trigger] cell_map@.contains_key(c) implies ground.is_clear(c)
            && resolution_of(c) <= 15 by {
            assert(t.suits(c));
        }
        assert forall|d: Seq<u64>| #[trigger]
            descends(base@, d) && ground.leads_to_water(passages@, d) implies exists|k: int|
            0 <= k < 8 && cell_map@.contains_key(#[trigger] d[k]) by {
            assert forall|k: int| 1 <= k < d.len() && k <= 7 implies !#[trigger] all_land_at(
                t,
                d,
                k,
            ) by {
                assert(d[k] == d[k]);
            }
            lemma_no_water_lost(t, d);
            let k = choose|k: int| 0 <= k < d.len() && t.navigable(#[trigger] d[k]);
            assert(cell_map@.contains_key(d[k]));
        }
    }
    Ok(cell_map)
}

} // verus!
