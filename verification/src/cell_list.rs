//! Numbered cells as a list.

use vstd::prelude::*;
use std::collections::HashMap;
use crate::sort::{keyed_sorted, lemma_same_entries, sort_keyed, Keyed};

verus! {

broadcast use vstd::std_specs::hash::group_hash_axioms;

/// `list` holds the entries of `m`, in ascending order of the cells.
pub open spec fn lists(m: Map<u64, u32>, list: Seq<Keyed>) -> bool {
    &&& list.len() == m.dom().len()
    &&& forall|i: int|
        0 <= i < list.len() ==> m.contains_key((#[trigger] list[i]).0) && m[list[i].0] == list[i].1
    &&& forall|i: int, j: int|
        0 <= i < j < list.len() ==> (#[trigger] list[i]).0 < (#[trigger] list[j]).0
    &&& forall|c: u64| #[trigger] m.contains_key(c) ==> list.contains((c, m[c]))
}

/// The cells with their numbers, in ascending order of the cells.
pub fn sorted_cells(cells: &HashMap<u64, u32>) -> (r: Vec<Keyed>)
    requires
        cells@.dom().finite(),
    ensures
        lists(cells@, r@),
{
    let mut out: Vec<Keyed> = Vec::new();
    let ghost m = cells@;
    let entries = cells.iter();
    let ghost all = vstd::std_specs::iter::IteratorSpec::remaining(&entries);
    for (c, id) in it: entries
        invariant
            it.seq() == all,
            out@.len() == it.index(),
            forall|k: int| 0 <= k < out@.len() ==> (#[trigger] out@[k]) == (*all[k].0, *all[k].1),
    {
        out.push((*c, *id));
    }
    let sorted = sort_keyed(&out);
    proof {
        lemma_lists(m, out@, sorted@, all);
    }
    sorted
}

proof fn lemma_lists(
    m: Map<u64, u32>,
    out: Seq<Keyed>,
    sorted: Seq<Keyed>,
    all: Seq<(&u64, &u32)>,
)
    requires
        all.no_duplicates(),
        all.len() == m.dom().len(),
        out.len() == all.len(),
        forall|k: int| 0 <= k < out.len() ==> (#[trigger] out[k]) == (*all[k].0, *all[k].1),
        forall|k: int|
            0 <= k < all.len() ==> m.contains_key(*(#[trigger] all[k]).0) && m[*all[k].0]
                == *all[k].1,
        forall|k: u64| #[trigger] m.contains_key(k) ==> all.contains((&k, &m[k])),
        keyed_sorted(sorted),
        sorted.to_multiset() == out.to_multiset(),
    ensures
        lists(m, sorted),
{
    assert(out.no_duplicates()) by {
        assert forall|i: int, j: int| 0 <= i < out.len() && 0 <= j < out.len() && i != j implies out[i]
            != out[j] by {
            assert(all[i] != all[j]);
        }
    }
    lemma_same_entries(sorted, out);
    assert forall|i: int| 0 <= i < sorted.len() implies m.contains_key((#[trigger] sorted[i]).0)
        && m[sorted[i].0] == sorted[i].1 by {
        assert(sorted.contains(sorted[i]));
        let k = choose|k: int| 0 <= k < out.len() && out[k] == sorted[i];
        assert(m.contains_key(*all[k].0));
    }
    assert forall|i: int, j: int| 0 <= i < j < sorted.len() implies (#[trigger] sorted[i]).0 < (
    #[trigger] sorted[j]).0 by {
        assert(sorted[i] != sorted[j]);
        assert(m[sorted[i].0] == sorted[i].1);
        assert(m[sorted[j].0] == sorted[j].1);
    }
    assert forall|c: u64| #[trigger] m.contains_key(c) implies sorted.contains((c, m[c])) by {
        assert(all.contains((&c, &m[c])));
        let k = choose|k: int| 0 <= k < all.len() && all[k] == (&c, &m[c]);
        assert(out[k] == (c, m[c]));
        assert(out.contains((c, m[c])));
    }
}

/// There is one list of the cells in ascending order.
pub proof fn lemma_one_list(m: Map<u64, u32>, a: Seq<Keyed>, b: Seq<Keyed>)
    requires
        lists(m, a),
        lists(m, b),
    ensures
        a == b,
{
    assert forall|i: int| 0 <= i < a.len() implies a[i] == b[i] by {
        lemma_same_rank(m, a, b, i);
    }
    assert(a =~= b);
}

proof fn lemma_same_rank(m: Map<u64, u32>, a: Seq<Keyed>, b: Seq<Keyed>, i: int)
    requires
        lists(m, a),
        lists(m, b),
        0 <= i < a.len(),
    ensures
        a[i] == b[i],
    decreases i,
{
    assert forall|k: int| 0 <= k < i implies a[k] == b[k] by {
        lemma_same_rank(m, a, b, k);
    }
    assert(m.contains_key(a[i].0) && m.contains_key(b[i].0));
    assert(b.contains((a[i].0, m[a[i].0])));
    assert(a.contains((b[i].0, m[b[i].0])));
    let p = choose|p: int| 0 <= p < b.len() && b[p] == (a[i].0, m[a[i].0]);
    let q = choose|q: int| 0 <= q < a.len() && a[q] == (b[i].0, m[b[i].0]);
    if p < i {
        assert(a[p] == b[p]);
        assert(a[p].0 < a[i].0);
    }
    if q < i {
        assert(a[q] == b[q]);
        assert(b[q].0 < b[i].0);
    }
    if p > i && q > i {
        assert(b[i].0 < b[p].0);
        assert(a[i].0 < a[q].0);
    }
}

} // verus!
