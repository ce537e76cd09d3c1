//! Edges between navigable cells.

use vstd::prelude::*;
use std::collections::HashMap;
use crate::cell_list::{lists, sorted_cells};
use crate::cells::grid_cells;
use crate::graph::LongEdge;
use crate::h3::{neighbors, parent, parent_of, resolution, resolution_of, ring_of, valid_cell};
use crate::oracle::{call1, call2, function1, function2, value1, value2};
use crate::seam::{half, half_of, is_lon, mid_lon, wrap_aware_mid_lon};
use crate::sort::{keyed_le, keyed_sorted, lemma_same_entries, sort_keyed, Keyed};
use crate::H3_RES_BASE;

verus! {

broadcast use vstd::std_specs::hash::group_hash_axioms;

/// Each cell has a number of its own.
pub open spec fn told_apart(m: Map<u64, u32>) -> bool {
    &&& m.dom().finite()
    &&& forall|c: u64, d: u64|
        m.contains_key(c) && m.contains_key(d) && c != d ==> #[trigger] m[c] != #[trigger] m[d]
}

/// The cells are neighbours of one resolution, `c` with the smaller number.
pub open spec fn same_res(m: Map<u64, u32>, c: u64, d: u64) -> bool {
    &&& m.contains_key(c)
    &&& m.contains_key(d)
    &&& resolution_of(d) == resolution_of(c)
    &&& ring_of(c, 1).contains(d)
    &&& m[c] < m[d]
}

/// `d` is the parent of `c`, or a neighbour of it.
pub open spec fn cross_res(m: Map<u64, u32>, c: u64, d: u64) -> bool {
    &&& m.contains_key(c)
    &&& m.contains_key(d)
    &&& resolution_of(c) > H3_RES_BASE
    &&& resolution_of(d) == resolution_of(c) - 1
    &&& {
        let p = parent_of(c, resolution_of(d));
        d == p || ring_of(p, 1).contains(d)
    }
}

/// The cells with these numbers are neighbours, of one resolution or of two that
/// follow each other.
pub open spec fn adjacent(m: Map<u64, u32>, a: u32, b: u32) -> bool {
    a < b && exists|c: u64, d: u64| #[trigger] offers(m, c, d, a, b)
}

/// `c` and `d` are neighbours and have the numbers `a` and `b`.
pub open spec fn offers(m: Map<u64, u32>, c: u64, d: u64, a: u32, b: u32) -> bool {
    ||| same_res(m, c, d) && m[c] == a && m[d] == b
    ||| cross_res(m, c, d) && ((m[c] == a && m[d] == b) || (m[c] == b && m[d] == a))
}

/// What the caller measures of pairs of cells.
pub struct Spans<A, B, C> {
    /// Latitude and longitude of a cell's centre in nanodegrees.
    pub center: A,
    /// Distance between the centres of two cells in micro-nm.
    pub distance: B,
    /// Whether a point, given by longitude and latitude, is on water.
    pub is_water: C,
}

impl<A, B, C> Spans<A, B, C> where
    A: Fn(u64) -> (i64, i64),
    B: Fn(u64, u64) -> u32,
    C: Fn(i64, i64) -> bool,
 {
    pub open spec fn ok(&self) -> bool {
        &&& function1(self.center)
        &&& function2(self.distance)
        &&& function2(self.is_water)
        &&& forall|c: u64, p: (i64, i64)| #[trigger]
            call_ensures(self.center, (c,), p) ==> is_lon(p.0) && is_lon(p.1)
    }

    /// The midpoint between the centres of two cells is on water.
    pub open spec fn passable(&self, c: u64, d: u64) -> bool {
        let (lat1, lon1) = value1(self.center, c);
        let (lat2, lon2) = value1(self.center, d);
        value2(self.is_water, mid_lon(lon1, lon2) as i64, half(lat1 + lat2) as i64)
    }

    /// Computes [`Spans::passable`].
    pub fn is_passable(&self, c: u64, d: u64) -> (r: bool)
        requires
            self.ok(),
        ensures
            r == self.passable(c, d),
    {
        let (lat1, lon1) = call1(&self.center, c);
        let (lat2, lon2) = call1(&self.center, d);
        let mid_lat: i64 = half_of(lat1 + lat2);
        let mid_lon: i64 = wrap_aware_mid_lon(lon1, lon2);
        call2(&self.is_water, mid_lon, mid_lat)
    }
}

/// Twice the number is the sum, or one less in size where that is odd.
pub open spec fn halves(x: int, sum: int) -> bool {
    2 * x == sum || (sum > 0 && 2 * x == sum - 1) || (sum < 0 && 2 * x == sum + 1)
}

/// Two cells can be joined exactly if there is water at the point whose latitude
/// is halfway between those of the centres, and whose longitude is halfway
/// between theirs the short way round. The longitude of the point comes first, its
/// latitude second.
pub proof fn lemma_water_halfway<A, B, C>(spans: Spans<A, B, C>, c: u64, d: u64, lon: i64, lat: i64) where
    A: Fn(u64) -> (i64, i64),
    B: Fn(u64, u64) -> u32,
    C: Fn(i64, i64) -> bool,

    requires
        ({
            let (lat1, lon1) = value1(spans.center, c);
            let (lat2, lon2) = value1(spans.center, d);
            &&& -180_000_000_000 <= lon1 <= 180_000_000_000
            &&& -180_000_000_000 <= lon2 <= 180_000_000_000
            &&& -180_000_000_000 <= lat1 <= 180_000_000_000
            &&& -180_000_000_000 <= lat2 <= 180_000_000_000
            &&& halves(lat as int, lat1 + lat2)
            &&& if -180_000_000_000 <= lon1 - lon2 <= 180_000_000_000 {
                halves(lon as int, lon1 + lon2)
            } else {
                &&& -180_000_000_000 <= lon < 180_000_000_000
                &&& halves(lon as int, lon1 + lon2 + 360_000_000_000) || halves(
                    lon + 360_000_000_000,
                    lon1 + lon2 + 360_000_000_000,
                )
            }
        }),
    ensures
        spans.passable(c, d) == value2(spans.is_water, lon, lat),
{
    let (lat1, lon1) = value1(spans.center, c);
    let (lat2, lon2) = value1(spans.center, d);
    assert(half(lat1 + lat2) == lat);
    assert(mid_lon(lon1, lon2) == lon);
}

/// Two numbers of cells, the smaller first.
pub type Pair = (u32, u32);

/// Pairs in strictly ascending order.
pub open spec fn pairs_ascend(s: Seq<Pair>) -> bool {
    forall|i: int, j: int| 0 <= i < j < s.len() ==> pair_less(#[trigger] s[i], #[trigger] s[j])
}

pub open spec fn pair_less(x: Pair, y: Pair) -> bool {
    x.0 < y.0 || (x.0 == y.0 && x.1 < y.1)
}

/// A pair as one number.
spec fn key(x: Pair) -> Keyed {
    ((x.0 * 0x1_0000_0000 + x.1) as u64, 0)
}

/// The key belongs to one of the pairs.
spec fn is_key(pairs: Seq<Pair>, k: Keyed) -> bool {
    exists|x: Pair| pairs.contains(x) && k == #[trigger] key(x)
}

proof fn lemma_key(x: Pair, y: Pair)
    ensures
        key(x) == key(y) <==> x == y,
        keyed_le(key(x), key(y)) <==> x == y || pair_less(x, y),
        key(x).0 == x.0 * 0x1_0000_0000 + x.1,
        key(x).0 / 0x1_0000_0000 == x.0,
        key(x).0 % 0x1_0000_0000 == x.1,
{
}

/// The pairs in ascending order, each once.
fn sort_unique(pairs: &Vec<Pair>) -> (r: Vec<Pair>)
    ensures
        pairs_ascend(r@),
        forall|x: Pair| #[trigger] r@.contains(x) <==> pairs@.contains(x),
{
    let mut keys: Vec<Keyed> = Vec::new();
    for i in 0..pairs.len()
        invariant
            keys@.len() == i,
            forall|k: int| 0 <= k < i ==> #[trigger] keys@[k] == key(pairs@[k]),
    {
        let (a, b) = pairs[i];
        proof {
            lemma_key(pairs@[i as int], pairs@[i as int]);
        }
        keys.push((a as u64 * 0x1_0000_0000 + b as u64, 0));
    }
    let sorted = sort_keyed(&keys);
    proof {
        lemma_same_entries(sorted@, keys@);
        assert forall|k: int| 0 <= k < sorted@.len() implies #[trigger] is_key(
            pairs@,
            sorted@[k],
        ) by {
            assert(sorted@.contains(sorted@[k]));
            let q = choose|q: int| 0 <= q < keys@.len() && keys@[q] == sorted@[k];
            assert(keys@[q] == key(pairs@[q]));
            assert(pairs@.contains(pairs@[q]));
        }
    }
    let mut out: Vec<Pair> = Vec::new();
    let mut i: usize = 0;
    while i < sorted.len()
        invariant
            i <= sorted@.len(),
            keyed_sorted(sorted@),
            forall|k: int| 0 <= k < sorted@.len() ==> #[trigger] is_key(pairs@, sorted@[k]),
            pairs_ascend(out@),
            forall|x: Pair| #[trigger] out@.contains(x) <==> sorted@.take(i as int).contains(key(x)),
            i == 0 ==> out@.len() == 0,
            i > 0 ==> out@.len() > 0 && key(out@.last()) == sorted@[i - 1],
        decreases sorted@.len() - i,
    {
        let k: u64 = sorted[i].0;
        let x: Pair = ((k / 0x1_0000_0000) as u32, (k % 0x1_0000_0000) as u32);
        proof {
            assert(is_key(pairs@, sorted@[i as int]));
            let y = choose|y: Pair| pairs@.contains(y) && sorted@[i as int] == #[trigger] key(y);
            lemma_key(y, y);
            assert(x == y);
            assert(sorted@.take(i + 1) =~= sorted@.take(i as int).push(sorted@[i as int]));
        }
        let ghost before = out@;
        let repeated: bool = out.len() > 0 && out[out.len() - 1].0 == x.0 && out[out.len() - 1].1
            == x.1;
        if !repeated {
            out.push(x);
        }
        proof {
            if i > 0 {
                assert(keyed_le(sorted@[i - 1], sorted@[i as int]));
                lemma_key(before.last(), x);
            }
            if !repeated {
                assert forall|a: int, b: int| 0 <= a < b < out@.len() implies pair_less(
                    #[trigger] out@[a],
                    #[trigger] out@[b],
                ) by {
                    if b == out@.len() - 1 {
                        if a < before.len() - 1 {
                            assert(pair_less(before[a], before[before.len() - 1]));
                        }
                    }
                }
            }
            assert forall|z: Pair| #[trigger] out@.contains(z) <==> sorted@.take(i + 1).contains(
                key(z),
            ) by {
                lemma_contains_push(sorted@.take(i as int), sorted@[i as int], key(z));
                lemma_contains_push(before, x, z);
                lemma_key(z, x);
                assert(before.contains(z) <==> sorted@.take(i as int).contains(key(z)));
                if repeated {
                    assert(before[before.len() - 1] == x);
                    assert(before.contains(x));
                }
            }
        }
        i = i + 1;
    }
    proof {
        assert(sorted@.take(i as int) =~= sorted@);
        assert forall|x: Pair| #[trigger] out@.contains(x) <==> pairs@.contains(x) by {
            assert(sorted@.contains(key(x)) <==> keys@.contains(key(x)));
            if keys@.contains(key(x)) {
                let q = choose|q: int| 0 <= q < keys@.len() && keys@[q] == key(x);
                lemma_key(pairs@[q], x);
            }
            if pairs@.contains(x) {
                let q = choose|q: int| 0 <= q < pairs@.len() && pairs@[q] == x;
                assert(keys@[q] == key(x));
            }
        }
    }
    out
}

/// The pair that `c` and `d` make, in order.
spec fn ordered(a: u32, b: u32) -> Pair {
    if a < b {
        (a, b)
    } else {
        (b, a)
    }
}

/// The pairs that a cell offers.
spec fn from_cell(m: Map<u64, u32>, c: u64, x: Pair) -> bool {
    x.0 < x.1 && exists|d: u64| #[trigger] offers(m, c, d, x.0, x.1)
}

/// Adds the pairs that the cell `c`, number `id`, makes with its neighbours.
fn same_res_pairs(cells: &HashMap<u64, u32>, c: u64, id: u32, out: &mut Vec<Pair>)
    requires
        cells@.contains_key(c),
        cells@[c] == id,
        valid_cell(c),
    ensures
        forall|x: Pair| #[trigger]
            final(out)@.contains(x) <==> old(out)@.contains(x) || exists|d: u64|
                #[trigger] same_res(cells@, c, d) && x == (id, cells@[d]),
{
    let ghost m = cells@;
    let ring = neighbors(c);
    let ghost before = out@;
    for j in 0..ring.len()
        invariant
            m == cells@,
            m.contains_key(c),
            m[c] == id,
            ring@ == ring_of(c, 1),
            forall|q: int|
                0 <= q < ring@.len() ==> resolution_of(#[trigger] ring@[q]) == resolution_of(c),
            forall|x: Pair| #[trigger]
                out@.contains(x) <==> before.contains(x) || exists|q: int|
                    0 <= q < j && same_res(m, c, #[trigger] ring@[q]) && x == (id, m[ring@[q]]),
    {
        let d: u64 = ring[j];
        let ghost o0 = out@;
        assert(ring_of(c, 1).contains(d));
        if let Some(other) = cells.get(&d) {
            if id < *other {
                out.push((id, *other));
            }
        }
        assert forall|x: Pair| #[trigger]
            out@.contains(x) <==> before.contains(x) || exists|q: int|
                0 <= q < j + 1 && same_res(m, c, #[trigger] ring@[q]) && x == (
                    id,
                    m[ring@[q]],
                ) by {
            lemma_contains_push(o0, (id, m[d]), x);
            assert(o0.contains(x) <==> before.contains(x) || exists|q: int|
                0 <= q < j && same_res(m, c, #[trigger] ring@[q]) && x == (id, m[ring@[q]]));
            assert(ring@[j as int] == d);
        }
    }
    assert forall|x: Pair| #[trigger]
        out@.contains(x) <==> before.contains(x) || exists|d: u64|
            #[trigger] same_res(m, c, d) && x == (id, m[d]) by {
        if exists|d: u64| #[trigger] same_res(m, c, d) && x == (id, m[d]) {
            let d = choose|d: u64| #[trigger] same_res(m, c, d) && x == (id, m[d]);
            let q = choose|q: int| 0 <= q < ring@.len() && ring@[q] == d;
            assert(same_res(m, c, ring@[q]));
        }
    }
}

/// Adds the pairs that the cell `c`, number `id`, makes with its parent and the
/// neighbours of that.
fn cross_res_pairs(cells: &HashMap<u64, u32>, c: u64, id: u32, out: &mut Vec<Pair>)
    requires
        cells@.contains_key(c),
        cells@[c] == id,
        valid_cell(c),
        resolution_of(c) >= H3_RES_BASE,
    ensures
        forall|x: Pair| #[trigger]
            final(out)@.contains(x) <==> old(out)@.contains(x) || exists|d: u64|
                #[trigger] cross_res(cells@, c, d) && x == ordered(id, cells@[d]),
{
    let ghost m = cells@;
    let ghost before = out@;
    let res: u8 = resolution(c);
    if res <= H3_RES_BASE {
        return;
    }
    let p: u64 = match parent(c, res - 1) {
        Some(p) => p,
        None => {
            return;
        },
    };
    let mut targets = neighbors(p);
    let ghost ring = targets@;
    targets.push(p);
    proof {
        assert forall|d: u64| #[trigger] targets@.contains(d) <==> d == p || ring_of(
            p,
            1,
        ).contains(d) by {
            lemma_contains_push(ring, p, d);
        }
        assert forall|q: int| 0 <= q < targets@.len() implies resolution_of(#[trigger] targets@[q])
            == res - 1 by {
            if q < ring.len() {
                assert(targets@[q] == ring[q]);
            }
        }
    }
    for j in 0..targets.len()
        invariant
            m == cells@,
            m.contains_key(c),
            m[c] == id,
            res == resolution_of(c),
            res > H3_RES_BASE,
            p == parent_of(c, (res - 1) as u8),
            forall|d: u64| #[trigger]
                targets@.contains(d) <==> d == p || ring_of(p, 1).contains(d),
            forall|q: int|
                0 <= q < targets@.len() ==> resolution_of(#[trigger] targets@[q]) == res - 1,
            forall|x: Pair| #[trigger]
                out@.contains(x) <==> before.contains(x) || exists|q: int|
                    0 <= q < j && cross_res(m, c, #[trigger] targets@[q]) && x == ordered(
                        id,
                        m[targets@[q]],
                    ),
    {
        let d: u64 = targets[j];
        let ghost o0 = out@;
        assert(targets@.contains(d));
        if let Some(other) = cells.get(&d) {
            if id < *other {
                out.push((id, *other));
            } else {
                out.push((*other, id));
            }
        }
        assert forall|x: Pair| #[trigger]
            out@.contains(x) <==> before.contains(x) || exists|q: int|
                0 <= q < j + 1 && cross_res(m, c, #[trigger] targets@[q]) && x == ordered(
                    id,
                    m[targets@[q]],
                ) by {
            lemma_contains_push(o0, ordered(id, m[d]), x);
            assert(o0.contains(x) <==> before.contains(x) || exists|q: int|
                0 <= q < j && cross_res(m, c, #[trigger] targets@[q]) && x == ordered(
                    id,
                    m[targets@[q]],
                ));
            assert(targets@[j as int] == d);
        }
    }
    assert forall|x: Pair| #[trigger]
        out@.contains(x) <==> before.contains(x) || exists|d: u64|
            #[trigger] cross_res(m, c, d) && x == ordered(id, m[d]) by {
        if exists|d: u64| #[trigger] cross_res(m, c, d) && x == ordered(id, m[d]) {
            let d = choose|d: u64| #[trigger] cross_res(m, c, d) && x == ordered(id, m[d]);
            assert(targets@.contains(d));
            let q = choose|q: int| 0 <= q < targets@.len() && targets@[q] == d;
            assert(cross_res(m, c, targets@[q]));
        }
    }
}

/// All pairs of adjacent cells.
fn adjacent_pairs(cells: &HashMap<u64, u32>, list: &Vec<Keyed>) -> (r: Vec<Pair>)
    requires
        told_apart(cells@),
        grid_cells(cells@),
        lists(cells@, list@),
    ensures
        forall|x: Pair| #[trigger] r@.contains(x) <==> adjacent(cells@, x.0, x.1),
{
    let ghost m = cells@;
    let mut out: Vec<Pair> = Vec::new();
    for i in 0..list.len()
        invariant
            m == cells@,
            told_apart(m),
            grid_cells(m),
            lists(m, list@),
            forall|x: Pair| #[trigger]
                out@.contains(x) <==> exists|k: int|
                    0 <= k < i && from_cell(m, (#[trigger] list@[k]).0, x),
    {
        let (c, id) = list[i];
        let ghost o0 = out@;
        assert(m.contains_key(list@[i as int].0));
        same_res_pairs(cells, c, id, &mut out);
        let ghost o1 = out@;
        cross_res_pairs(cells, c, id, &mut out);
        proof {
            assert forall|x: Pair| #[trigger] out@.contains(x) <==> o0.contains(x) || from_cell(
                m,
                c,
                x,
            ) by {
                lemma_from_cell(m, c, id, x);
                assert(o1.contains(x) <==> o0.contains(x) || exists|d: u64|
                    #[trigger] same_res(m, c, d) && x == (id, m[d]));
            }
            assert forall|x: Pair| #[trigger]
                out@.contains(x) <==> exists|k: int|
                    0 <= k < i + 1 && from_cell(m, (#[trigger] list@[k]).0, x) by {
                if from_cell(m, c, x) {
                    assert(from_cell(m, list@[i as int].0, x));
                }
            }
        }
    }
    proof {
        assert forall|x: Pair| #[trigger] out@.contains(x) <==> adjacent(m, x.0, x.1) by {
            if adjacent(m, x.0, x.1) {
                let (c, d) = choose|c: u64, d: u64| #[trigger] offers(m, c, d, x.0, x.1);
                assert(m.contains_key(c));
                let k = choose|k: int| 0 <= k < list@.len() && list@[k] == (c, m[c]);
                assert(from_cell(m, list@[k].0, x));
            }
        }
    }
    out
}

/// What a cell offers, by the two kinds of neighbours.
proof fn lemma_from_cell(m: Map<u64, u32>, c: u64, id: u32, x: Pair)
    requires
        told_apart(m),
        m.contains_key(c),
        m[c] == id,
    ensures
        from_cell(m, c, x) <==> (exists|d: u64| #[trigger] same_res(m, c, d) && x == (id, m[d]))
            || (exists|d: u64| #[trigger] cross_res(m, c, d) && x == ordered(id, m[d])),
{
    if from_cell(m, c, x) {
        let d = choose|d: u64| #[trigger] offers(m, c, d, x.0, x.1);
        if same_res(m, c, d) && m[c] == x.0 && m[d] == x.1 {
            assert(x == (id, m[d]));
        } else {
            assert(cross_res(m, c, d));
            assert(x == ordered(id, m[d]));
        }
    }
    if exists|d: u64| #[trigger] same_res(m, c, d) && x == (id, m[d]) {
        let d = choose|d: u64| #[trigger] same_res(m, c, d) && x == (id, m[d]);
        assert(offers(m, c, d, x.0, x.1));
    }
    if exists|d: u64| #[trigger] cross_res(m, c, d) && x == ordered(id, m[d]) {
        let d = choose|d: u64| #[trigger] cross_res(m, c, d) && x == ordered(id, m[d]);
        assert(c != d);
        assert(m[c] != m[d]);
        assert(offers(m, c, d, x.0, x.1));
    }
}

/// The cells by their numbers.
pub open spec fn inverse_of(m: Map<u64, u32>, by_id: Map<u32, u64>) -> bool {
    forall|c: u64| #[trigger] m.contains_key(c) ==> by_id.contains_key(m[c]) && by_id[m[c]] == c
}

fn cells_by_id(cells: &HashMap<u64, u32>, list: &Vec<Keyed>) -> (r: HashMap<u32, u64>)
    requires
        told_apart(cells@),
        lists(cells@, list@),
    ensures
        inverse_of(cells@, r@),
{
    let ghost m = cells@;
    let n: usize = list.len();
    let mut by_id: HashMap<u32, u64> = HashMap::new();
    for i in 0..n
        invariant
            m == cells@,
            told_apart(m),
            lists(m, list@),
            n == list@.len(),
            forall|k: int|
                0 <= k < i ==> by_id@.contains_key((#[trigger] list@[k]).1) && by_id@[list@[k].1]
                    == list@[k].0,
    {
        let (c, id) = list[i];
        assert(m.contains_key(list@[i as int].0));
        by_id.insert(id, c);
        assert forall|k: int| 0 <= k < i + 1 implies by_id@.contains_key((#[trigger] list@[k]).1)
            && by_id@[list@[k].1] == list@[k].0 by {
            if k < i {
                assert(list@[k].0 < list@[i as int].0);
                assert(m.contains_key(list@[k].0));
                assert(m[list@[k].0] != m[list@[i as int].0]);
            }
        }
    }
    assert forall|c: u64| #[trigger] m.contains_key(c) implies by_id@.contains_key(m[c])
        && by_id@[m[c]] == c by {
        let k = choose|k: int| 0 <= k < list@.len() && list@[k] == (c, m[c]);
        assert(by_id@[list@[k].1] == list@[k].0);
    }
    by_id
}

/// The cell with the number `id`.
fn cell_of(by_id: &HashMap<u32, u64>, id: u32) -> (r: u64)
    requires
        by_id@.contains_key(id),
    ensures
        r == by_id@[id],
{
    match by_id.get(&id) {
        Some(c) => *c,
        None => 0,
    }
}

/// `edges` holds an edge for each two adjacent cells whose midpoint is on water,
/// with the distance of the cells, in ascending order.
pub open spec fn edges_of<A, B, C>(
    m: Map<u64, u32>,
    spans: Spans<A, B, C>,
    edges: Seq<LongEdge>,
) -> bool where A: Fn(u64) -> (i64, i64), B: Fn(u64, u64) -> u32, C: Fn(i64, i64) -> bool {
    &&& pairs_ascend(edges.map_values(|e: LongEdge| (e.0, e.1)))
    &&& forall|i: int|
        0 <= i < edges.len() ==> adjacent(m, (#[trigger] edges[i]).0, edges[i].1)
    &&& forall|c: u64, d: u64|
        m.contains_key(c) && m.contains_key(d) && #[trigger] adjacent(m, m[c], m[d])
            && spans.passable(c, d) ==> edges.contains((m[c], m[d], value2(spans.distance, c, d)))
    &&& forall|i: int, c: u64, d: u64|
        #![trigger edges[i], m.contains_key(c), m.contains_key(d)]
        0 <= i < edges.len() && m.contains_key(c) && m.contains_key(d) && m[c] == edges[i].0
            && m[d] == edges[i].1 ==> spans.passable(c, d) && edges[i].2 == value2(
            spans.distance,
            c,
            d,
        )
}

/// The list holds an edge between the two numbers.
pub open spec fn joins(edges: Seq<LongEdge>, a: u32, b: u32) -> bool {
    exists|i: int|
        0 <= i < edges.len() && (((#[trigger] edges[i]).0 == a && edges[i].1 == b) || (edges[i].0
            == b && edges[i].1 == a))
}

/// Cells `c` and `d` that can be joined are, where `d` is a neighbour of `c` with a
/// greater number, or is the parent of `c` or a neighbour of that, one resolution
/// coarser. No others are: each edge joins cells of one resolution, one of them in
/// the ring around the other, or a cell with one around its parent. It goes from
/// the smaller number to the greater, as long as the cells are apart, and no two
/// edges join the same cells.
pub proof fn lemma_joined_cells<A, B, C>(
    m: Map<u64, u32>,
    spans: Spans<A, B, C>,
    edges: Seq<LongEdge>,
    c: u64,
    d: u64,
) where A: Fn(u64) -> (i64, i64), B: Fn(u64, u64) -> u32, C: Fn(i64, i64) -> bool
    requires
        edges_of(m, spans, edges),
        told_apart(m),
        m.contains_key(c),
        m.contains_key(d),
    ensures
        spans.passable(c, d) == spans.passable(d, c),
        forall|i: int|
            0 <= i < edges.len() && (#[trigger] edges[i]).0 == m[c] && edges[i].1 == m[d]
                ==> edges[i].2 == value2(spans.distance, c, d),
        ring_of(c, 1).contains(d) && resolution_of(d) == resolution_of(c) && m[c] < m[d] ==> (
        spans.passable(c, d) <==> joins(edges, m[c], m[d])),
        resolution_of(c) > 3 && resolution_of(d) == resolution_of(c) - 1 && (d == parent_of(
            c,
            resolution_of(d),
        ) || ring_of(parent_of(c, resolution_of(d)), 1).contains(d)) ==> (spans.passable(c, d)
            <==> joins(edges, m[c], m[d])),
        joins(edges, m[c], m[d]) ==> {
            ||| resolution_of(d) == resolution_of(c) && ring_of(c, 1).contains(d) && m[c] < m[d]
            ||| resolution_of(d) == resolution_of(c) && ring_of(d, 1).contains(c) && m[d] < m[c]
            ||| resolution_of(d) == resolution_of(c) - 1 && (d == parent_of(c, resolution_of(d))
                || ring_of(parent_of(c, resolution_of(d)), 1).contains(d))
            ||| resolution_of(c) == resolution_of(d) - 1 && (c == parent_of(d, resolution_of(c))
                || ring_of(parent_of(d, resolution_of(c)), 1).contains(c))
        },
        forall|i: int| 0 <= i < edges.len() ==> (#[trigger] edges[i]).0 < edges[i].1,
        forall|i: int, j: int|
            0 <= i < j < edges.len() ==> (#[trigger] edges[i]).0 != (#[trigger] edges[j]).0
                || edges[i].1 != edges[j].1,
{
    let (a, b) = (m[c], m[d]);
    let pairs = edges.map_values(|e: LongEdge| (e.0, e.1));
    assert forall|i: int, j: int|
        0 <= i < j < edges.len() implies (#[trigger] edges[i]).0 != (#[trigger] edges[j]).0
        || edges[i].1 != edges[j].1 by {
        assert(pair_less(pairs[i], pairs[j]));
    }
    assert forall|i: int| 0 <= i < edges.len() implies (#[trigger] edges[i]).0 < edges[i].1 by {
        assert(adjacent(m, edges[i].0, edges[i].1));
    }
    if joins(edges, a, b) {
        let i = choose|i: int|
            0 <= i < edges.len() && (((#[trigger] edges[i]).0 == a && edges[i].1 == b) || (
            edges[i].0 == b && edges[i].1 == a));
        let e = edges[i];
        assert(adjacent(m, e.0, e.1));
        let (x, y) = choose|x: u64, y: u64| #[trigger] offers(m, x, y, e.0, e.1);
        assert(m.contains_key(x) && m.contains_key(y));
        assert((x == c && y == d) || (x == d && y == c)) by {
            if x != c && x != d {
                assert(m[x] != m[c] && m[x] != m[d]);
            }
            if y != c && y != d {
                assert(m[y] != m[c] && m[y] != m[d]);
            }
        }
    }
    if same_res(m, c, d) {
        assert(offers(m, c, d, a, b));
        assert(adjacent(m, m[c], m[d]));
        if spans.passable(c, d) {
            assert(edges.contains((a, b, value2(spans.distance, c, d))));
        }
    }
    if cross_res(m, c, d) {
        assert(m[c] != m[d]);
        if a < b {
            assert(offers(m, c, d, a, b));
            assert(adjacent(m, m[c], m[d]));
            if spans.passable(c, d) {
                assert(edges.contains((a, b, value2(spans.distance, c, d))));
            }
        } else {
            assert(offers(m, c, d, b, a));
            assert(adjacent(m, m[d], m[c]));
            if spans.passable(d, c) {
                assert(edges.contains((b, a, value2(spans.distance, d, c))));
            }
        }
    }
}

/// Builds the edges between neighbouring cells of one resolution, and between
/// cells and the next coarser ones around them. Edges whose midpoint is on land
/// are left out.
pub fn build_edges<A, B, C>(cells: &HashMap<u64, u32>, spans: &Spans<A, B, C>) -> (r: Vec<
    LongEdge,
>) where A: Fn(u64) -> (i64, i64), B: Fn(u64, u64) -> u32, C: Fn(i64, i64) -> bool
    requires
        spans.ok(),
        told_apart(cells@),
        grid_cells(cells@),
    ensures
        edges_of(cells@, *spans, r@),
{
    let ghost m = cells@;
    let list = sorted_cells(cells);
    let by_id = cells_by_id(cells, &list);
    let all = adjacent_pairs(cells, &list);
    let pairs = sort_unique(&all);
    let mut edges: Vec<LongEdge> = Vec::new();
    let ghost mut from: Seq<int> = Seq::empty();
    for i in 0..pairs.len()
        invariant
            spans.ok(),
            told_apart(m),
            inverse_of(m, by_id@),
            pairs_ascend(pairs@),
            forall|x: Pair| #[trigger] pairs@.contains(x) <==> adjacent(m, x.0, x.1),
            from.len() == edges@.len(),
            forall|k: int|
                0 <= k < from.len() ==> 0 <= #[trigger] from[k] < i && edges@[k].0
                    == pairs@[from[k]].0 && edges@[k].1 == pairs@[from[k]].1,
            forall|j: int, k: int|
                0 <= j < k < from.len() ==> #[trigger] from[j] < #[trigger] from[k],
            forall|k: int|
                #![trigger edges@[k]]
                0 <= k < edges@.len() ==> spans.passable(
                    by_id@[edges@[k].0],
                    by_id@[edges@[k].1],
                ) && edges@[k].2 == value2(
                    spans.distance,
                    by_id@[edges@[k].0],
                    by_id@[edges@[k].1],
                ),
            forall|q: int|
                0 <= q < i && spans.passable(
                    by_id@[(#[trigger] pairs@[q]).0],
                    by_id@[pairs@[q].1],
                ) ==> from.contains(q),
    {
        let (a, b) = pairs[i];
        proof {
            assert(pairs@.contains(pairs@[i as int]));
            let (c, d) = choose|c: u64, d: u64| #[trigger] offers(m, c, d, a, b);
            assert(m.contains_key(c) && m.contains_key(d));
        }
        let c: u64 = cell_of(&by_id, a);
        let d: u64 = cell_of(&by_id, b);
        let ghost f0 = from;
        if spans.is_passable(c, d) {
            let length: u32 = call2(&spans.distance, c, d);
            edges.push((a, b, length));
            proof {
                from = from.push(i as int);
            }
        }
        proof {
            assert forall|q: int|
                0 <= q < i + 1 && spans.passable(
                    by_id@[(#[trigger] pairs@[q]).0],
                    by_id@[pairs@[q].1],
                ) implies from.contains(q) by {
                if q < i {
                    assert(f0.contains(q));
                    let k = choose|k: int| 0 <= k < f0.len() && f0[k] == q;
                    assert(from[k] == q);
                } else {
                    assert(from[from.len() - 1] == q);
                }
            }
        }
    }
    proof {
        lemma_edges_of(m, *spans, by_id@, pairs@, edges@, from);
    }
    edges
}

proof fn lemma_edges_of<A, B, C>(
    m: Map<u64, u32>,
    spans: Spans<A, B, C>,
    by_id: Map<u32, u64>,
    pairs: Seq<Pair>,
    edges: Seq<LongEdge>,
    from: Seq<int>,
) where A: Fn(u64) -> (i64, i64), B: Fn(u64, u64) -> u32, C: Fn(i64, i64) -> bool
    requires
        told_apart(m),
        inverse_of(m, by_id),
        pairs_ascend(pairs),
        forall|x: Pair| #[trigger] pairs.contains(x) <==> adjacent(m, x.0, x.1),
        from.len() == edges.len(),
        forall|k: int|
            0 <= k < from.len() ==> 0 <= #[trigger] from[k] < pairs.len() && edges[k].0
                == pairs[from[k]].0 && edges[k].1 == pairs[from[k]].1,
        forall|j: int, k: int|
            0 <= j < k < from.len() ==> #[trigger] from[j] < #[trigger] from[k],
        forall|k: int|
            #![trigger edges[k]]
            0 <= k < edges.len() ==> spans.passable(
                by_id[edges[k].0],
                by_id[edges[k].1],
            ) && edges[k].2 == value2(
                spans.distance,
                by_id[edges[k].0],
                by_id[edges[k].1],
            ),
        forall|q: int|
            0 <= q < pairs.len() && spans.passable(
                by_id[(#[trigger] pairs[q]).0],
                by_id[pairs[q].1],
            ) ==> from.contains(q),
    ensures
        edges_of(m, spans, edges),
{
    let heads = edges.map_values(|e: LongEdge| (e.0, e.1));
    assert forall|i: int, j: int| 0 <= i < j < heads.len() implies pair_less(
        #[trigger] heads[i],
        #[trigger] heads[j],
    ) by {
        assert(from[i] < from[j]);
        assert(heads[i] == pairs[from[i]]);
        assert(heads[j] == pairs[from[j]]);
        assert(pair_less(pairs[from[i]], pairs[from[j]]));
    }
    assert forall|i: int| 0 <= i < edges.len() implies adjacent(
        m,
        (#[trigger] edges[i]).0,
        edges[i].1,
    ) by {
        assert(0 <= from[i] < pairs.len());
        assert(pairs.contains(pairs[from[i]]));
    }
    assert forall|c: u64, d: u64|
        m.contains_key(c) && m.contains_key(d) && #[trigger] adjacent(m, m[c], m[d])
            && spans.passable(c, d) implies edges.contains(
        (m[c], m[d], value2(spans.distance, c, d)),
    ) by {
        let x = (m[c], m[d]);
        assert(pairs.contains(x));
        let q = choose|q: int| 0 <= q < pairs.len() && pairs[q] == x;
        assert(from.contains(q));
        let k = choose|k: int| 0 <= k < from.len() && from[k] == q;
        assert(edges[k] == (m[c], m[d], value2(spans.distance, c, d)));
    }
}

proof fn lemma_contains_push<T>(a: Seq<T>, x: T, c: T)
    ensures
        a.push(x).contains(c) <==> a.contains(c) || c == x,
{
    crate::cells::lemma_contains_concat(a, seq![x], c);
    assert(a.push(x) =~= a + seq![x]);
    assert(seq![x][0] == x);
}

} // verus!
