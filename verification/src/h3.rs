//! H3 cells as plain 64-bit indices, computed by the `h3o` crate.

use vstd::prelude::*;

verus! {

/// Finest resolution of the H3 grid.
pub const MAX_RESOLUTION: u8 = 15;

/// Whether the bits are the index of a cell.
pub uninterp spec fn valid_cell(bits: u64) -> bool;

/// Resolution of a cell: the four bits above the fifty-second.
pub open spec fn resolution_of(cell: u64) -> u8 {
    ((cell / 0x10_0000_0000_0000) % 16) as u8
}

/// Weight of the last digit that a cell of resolution `res` uses. Finer ones, of
/// three bits each, stand behind it.
pub open spec fn unit(res: int) -> int
    decreases 15 - res,
{
    if res >= 15 {
        1
    } else {
        8 * unit(res + 1)
    }
}

/// The cell of resolution `res` that holds `cell`: that resolution stands in the
/// place of the cell's own, and the bits of all finer digits are ones.
#[verifier::opaque]
pub open spec fn parent_of(cell: u64, res: u8) -> u64 {
    let head = (cell / 0x100_0000_0000_0000) * 0x100_0000_0000_0000;
    let digits = cell % 0x10_0000_0000_0000;
    let low = unit(res as int);
    (head + res * 0x10_0000_0000_0000 + digits as int / low * low + (low - 1)) as u64
}

/// All lie under the cell.
pub open spec fn all_under(cells: Seq<u64>, cell: u64) -> bool {
    forall|i: int|
        0 <= i < cells.len() ==> parent_of(#[trigger] cells[i], resolution_of(cell)) == cell
}

/// The cell `a` is a coarser one that holds `c`.
pub open spec fn is_ancestor(a: u64, c: u64) -> bool {
    resolution_of(a) < resolution_of(c) && parent_of(c, resolution_of(a)) == a
}

/// The cells of resolution `res` under `cell`, in ascending order.
pub uninterp spec fn children_of(cell: u64, res: u8) -> Seq<u64>;

/// The cells that lie `k` steps away from `cell`.
pub uninterp spec fn ring_of(cell: u64, k: u32) -> Seq<u64>;

/// The cells that lie at most `k` steps away from `cell`.
pub uninterp spec fn disk_of(cell: u64, k: u32) -> Seq<u64>;

/// All are cells of one resolution.
pub open spec fn cells_of_resolution(cells: Seq<u64>, res: u8) -> bool {
    forall|i: int|
        0 <= i < cells.len() ==> valid_cell(#[trigger] cells[i]) && resolution_of(cells[i]) == res
}

/// `CellIndex::try_from`, which accepts exactly the indices of cells. Which
/// bits these are is named, not stated.
#[verifier::external_body]
pub(crate) fn is_cell(bits: u64) -> (r: bool)
    ensures
        r == valid_cell(bits),
{
    h3o::CellIndex::try_from(bits).is_ok()
}

/// `CellIndex::resolution`: four bits of the index.
#[verifier::external_body]
pub fn resolution(cell: u64) -> (r: u8)
    requires
        valid_cell(cell),
    ensures
        r == resolution_of(cell),
        r <= MAX_RESOLUTION,
{
    h3o::CellIndex::try_from(cell).expect("valid cell").resolution().into()
}

/// `CellIndex::parent`: there is one for every resolution that is not finer
/// than the cell's own, a cell of that resolution with the digits of the finer
/// ones filled in. At its own resolution a cell is its own parent.
#[verifier::external_body]
pub fn parent(cell: u64, res: u8) -> (r: Option<u64>)
    requires
        valid_cell(cell),
        res <= MAX_RESOLUTION,
    ensures
        r is Some <==> res <= resolution_of(cell),
        r matches Some(p) ==> p == parent_of(cell, res) && valid_cell(p) && resolution_of(p) == res,
        res == resolution_of(cell) ==> r == Some(cell),
{
    let res = h3o::Resolution::try_from(res).expect("valid resolution");
    h3o::CellIndex::try_from(cell).expect("valid cell").parent(res).map(u64::from)
}

/// `CellIndex::children`: distinct cells of the wanted resolution, none where
/// that is coarser than the cell's own, the cell itself where it is the same. The
/// cell is the parent of each.
#[verifier::external_body]
pub fn children(cell: u64, res: u8) -> (r: Vec<u64>)
    requires
        valid_cell(cell),
        res <= MAX_RESOLUTION,
    ensures
        r@ == children_of(cell, res),
        cells_of_resolution(r@, res),
        all_under(r@, cell),
        r@.no_duplicates(),
        res < resolution_of(cell) ==> r@.len() == 0,
        res == resolution_of(cell) ==> r@ == seq![cell],
{
    let res = h3o::Resolution::try_from(res).expect("valid resolution");
    h3o::CellIndex::try_from(cell).expect("valid cell").children(res).map(u64::from).collect()
}

/// `CellIndex::grid_ring` at distance 1: the immediate neighbours of a cell,
/// which have its resolution.
#[verifier::external_body]
pub fn neighbors(cell: u64) -> (r: Vec<u64>)
    requires
        valid_cell(cell),
    ensures
        r@ == ring_of(cell, 1),
        cells_of_resolution(r@, resolution_of(cell)),
{
    let ring: Vec<h3o::CellIndex> = h3o::CellIndex::try_from(cell).expect("valid cell").grid_ring(1);
    ring.into_iter().map(u64::from).collect()
}

/// Largest distance at which [`grid_disk`] is asked for cells.
pub const MAX_DISK: u32 = 1000;

/// `CellIndex::grid_disk`: the cells up to `k` steps away, which have the
/// cell's resolution. At distance 0 it is the cell alone.
#[verifier::external_body]
pub(crate) fn grid_disk(cell: u64, k: u32) -> (r: Vec<u64>)
    requires
        valid_cell(cell),
        k <= MAX_DISK,
    ensures
        r@ == disk_of(cell, k),
        cells_of_resolution(r@, resolution_of(cell)),
        k == 0 ==> r@ == seq![cell],
{
    let disk: Vec<h3o::CellIndex> = h3o::CellIndex::try_from(cell).expect("valid cell").grid_disk(k);
    disk.into_iter().map(u64::from).collect()
}

proof fn lemma_unit(res: int)
    requires
        0 <= res <= 15,
    ensures
        unit(res) >= 1,
        exists|k: int| k >= 1 && #[trigger] (k * unit(res)) == 0x10_0000_0000_0000,
    decreases res,
{
    if res == 0 {
        reveal_with_fuel(unit, 16);
        assert(128 * unit(0) == 0x10_0000_0000_0000);
    } else {
        lemma_unit(res - 1);
        let k = choose|k: int| k >= 1 && #[trigger] (k * unit(res - 1)) == 0x10_0000_0000_0000;
        let u = unit(res);
        assert((8 * k) * u == k * (8 * u)) by (nonlinear_arith);
        assert((8 * k) * unit(res) == 0x10_0000_0000_0000);
    }
}

proof fn lemma_units(fine: int, coarse: int)
    requires
        0 <= coarse <= fine <= 15,
    ensures
        exists|m: int| m >= 1 && #[trigger] (unit(fine) * m) == unit(coarse),
    decreases fine - coarse,
{
    if coarse == fine {
        assert(unit(fine) * 1 == unit(coarse));
    } else {
        lemma_units(fine, coarse + 1);
        let m = choose|m: int| m >= 1 && #[trigger] (unit(fine) * m) == unit(coarse + 1);
        let u = unit(fine);
        assert(u * (8 * m) == 8 * (u * m)) by (nonlinear_arith);
        assert(unit(fine) * (8 * m) == unit(coarse));
    }
}

/// The parts of a parent.
proof fn lemma_parts(cell: u64, res: u8)
    requires
        res <= MAX_RESOLUTION,
    ensures
        ({
            let p = parent_of(cell, res);
            let low = unit(res as int);
            let digits = (cell % 0x10_0000_0000_0000) as int;
            &&& low >= 1
            &&& p / 0x100_0000_0000_0000 == cell / 0x100_0000_0000_0000
            &&& resolution_of(p) == res
            &&& p % 0x10_0000_0000_0000 == digits / low * low + (low - 1)
            &&& (p % 0x10_0000_0000_0000) as int / low == digits / low
        }),
{
    reveal(parent_of);
    lemma_unit(res as int);
    let low = unit(res as int);
    let k = choose|k: int| k >= 1 && #[trigger] (k * low) == 0x10_0000_0000_0000;
    let digits = (cell % 0x10_0000_0000_0000) as int;
    let q = digits / low;
    assert(q < k) by (nonlinear_arith)
        requires
            q == digits / low,
            low >= 1,
            digits < k * low,
    ;
    assert(q >= 0) by (nonlinear_arith)
        requires
            q == digits / low,
            low >= 1,
            digits >= 0,
    ;
    let tail = q * low + (low - 1);
    assert(0 <= tail < k * low) by (nonlinear_arith)
        requires
            0 <= q <= k - 1,
            low >= 1,
            tail == q * low + (low - 1),
    ;
    assert(tail / low == q) by (nonlinear_arith)
        requires
            low >= 1,
            tail == q * low + (low - 1),
    ;
}

/// The way up does not depend on the stops: the parent of a parent is the parent.
pub proof fn lemma_parent_of_parent(cell: u64, fine: u8, coarse: u8)
    requires
        coarse <= fine <= MAX_RESOLUTION,
    ensures
        parent_of(parent_of(cell, fine), coarse) == parent_of(cell, coarse),
        resolution_of(parent_of(cell, fine)) == fine,
{
    lemma_parts(cell, fine);
    lemma_units(fine as int, coarse as int);
    let u = unit(fine as int);
    let w = unit(coarse as int);
    let m = choose|m: int| m >= 1 && #[trigger] (u * m) == w;
    let p = parent_of(cell, fine);
    let a = (cell % 0x10_0000_0000_0000) as int;
    let b = (p % 0x10_0000_0000_0000) as int;
    vstd::arithmetic::div_mod::lemma_div_denominator(a, u, m);
    vstd::arithmetic::div_mod::lemma_div_denominator(b, u, m);
    assert(a / w == b / w);
    reveal(parent_of);
}

/// Index of the base cell with number `i`.
pub open spec fn base_cell(i: int) -> u64 {
    (0x0800_1fff_ffff_ffff + i * 0x2000_0000_0000) as u64
}

/// `CellIndex::base_cells`: the 122 cells of resolution 0, in their order.
#[verifier::external_body]
pub(crate) fn base_cells() -> (r: Vec<u64>)
    ensures
        r@ == Seq::new(122, |i: int| base_cell(i)),
        cells_of_resolution(r@, 0),
{
    h3o::CellIndex::base_cells().map(u64::from).collect()
}

} // verus!
