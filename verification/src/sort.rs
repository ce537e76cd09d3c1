//! Merge sort of keyed entries.

use vstd::prelude::*;

verus! {

/// A key with the number that goes with it.
pub type Keyed = (u64, u32);

/// Keys compare first, numbers second.
pub open spec fn keyed_le(a: Keyed, b: Keyed) -> bool {
    a.0 < b.0 || (a.0 == b.0 && a.1 <= b.1)
}

/// No entry comes behind a greater one.
pub open spec fn keyed_sorted(s: Seq<Keyed>) -> bool {
    forall|i: int, j: int| 0 <= i <= j < s.len() ==> keyed_le(#[trigger] s[i], #[trigger] s[j])
}

pub(crate) fn at_most(a: Keyed, b: Keyed) -> (r: bool)
    ensures
        r == keyed_le(a, b),
{
    a.0 < b.0 || (a.0 == b.0 && a.1 <= b.1)
}

fn merge(a: &Vec<Keyed>, b: &Vec<Keyed>) -> (r: Vec<Keyed>)
    requires
        keyed_sorted(a@),
        keyed_sorted(b@),
    ensures
        keyed_sorted(r@),
        r@.len() == a@.len() + b@.len(),
        r@.to_multiset() == a@.to_multiset().add(b@.to_multiset()),
{
    broadcast use vstd::seq_lib::group_to_multiset_ensures;

    let mut out: Vec<Keyed> = Vec::new();
    let mut i: usize = 0;
    let mut j: usize = 0;
    proof {
        assert(a@.take(0) =~= Seq::<Keyed>::empty());
        assert(b@.take(0) =~= Seq::<Keyed>::empty());
        assert(out@.to_multiset() =~= a@.take(0).to_multiset().add(b@.take(0).to_multiset()));
    }
    while i < a.len() || j < b.len()
        invariant
            i <= a@.len(),
            j <= b@.len(),
            keyed_sorted(a@),
            keyed_sorted(b@),
            keyed_sorted(out@),
            out@.len() == i + j,
            out@.to_multiset() == a@.take(i as int).to_multiset().add(
                b@.take(j as int).to_multiset(),
            ),
            forall|k: int| 0 <= k < out@.len() && i < a@.len() ==> keyed_le(
                #[trigger] out@[k],
                a@[i as int],
            ),
            forall|k: int| 0 <= k < out@.len() && j < b@.len() ==> keyed_le(
                #[trigger] out@[k],
                b@[j as int],
            ),
        decreases a@.len() + b@.len() - i - j,
    {
        broadcast use vstd::seq_lib::group_to_multiset_ensures;

        let ghost before = out@;
        if j >= b.len() || (i < a.len() && at_most(a[i], b[j])) {
            proof {
                assert(a@.take(i + 1) =~= a@.take(i as int).push(a@[i as int]));
                assert(before.push(a@[i as int]).to_multiset() =~= a@.take(
                    i + 1,
                ).to_multiset().add(b@.take(j as int).to_multiset()));
            }
            out.push(a[i]);
            i = i + 1;
        } else {
            proof {
                assert(b@.take(j + 1) =~= b@.take(j as int).push(b@[j as int]));
                assert(before.push(b@[j as int]).to_multiset() =~= a@.take(
                    i as int,
                ).to_multiset().add(b@.take(j + 1).to_multiset()));
            }
            out.push(b[j]);
            j = j + 1;
        }
    }
    proof {
        assert(a@.take(i as int) =~= a@);
        assert(b@.take(j as int) =~= b@);
    }
    out
}

/// Sorts `v[from..to]` into a new vector.
fn sort_range(v: &Vec<Keyed>, from: usize, to: usize) -> (r: Vec<Keyed>)
    requires
        from <= to <= v@.len(),
    ensures
        keyed_sorted(r@),
        r@.len() == to - from,
        r@.to_multiset() == v@.subrange(from as int, to as int).to_multiset(),
    decreases to - from,
{
    if to - from < 2 {
        let mut out: Vec<Keyed> = Vec::new();
        if from < to {
            out.push(v[from]);
        }
        assert(out@ =~= v@.subrange(from as int, to as int));
        return out;
    }
    let mid: usize = from + (to - from) / 2;
    let left = sort_range(v, from, mid);
    let right = sort_range(v, mid, to);
    proof {
        let l = v@.subrange(from as int, mid as int);
        let r = v@.subrange(mid as int, to as int);
        assert(v@.subrange(from as int, to as int) =~= l + r);
        vstd::seq_lib::lemma_multiset_commutative(l, r);
    }
    merge(&left, &right)
}

/// Sorts by key, and entries of one key by their number.
pub fn sort_keyed(v: &Vec<Keyed>) -> (r: Vec<Keyed>)
    ensures
        keyed_sorted(r@),
        r@.len() == v@.len(),
        r@.to_multiset() == v@.to_multiset(),
{
    assert(v@.subrange(0, v@.len() as int) =~= v@);
    sort_range(v, 0, v.len())
}

/// The same entries stand in both: each one of `r` occurs in `s`.
pub proof fn lemma_same_entries(r: Seq<Keyed>, s: Seq<Keyed>)
    requires
        r.to_multiset() == s.to_multiset(),
    ensures
        r.len() == s.len(),
        forall|x: Keyed| #[trigger] r.contains(x) <==> s.contains(x),
        s.no_duplicates() ==> r.no_duplicates(),
{
    broadcast use vstd::seq_lib::group_to_multiset_ensures;

    assert(r.to_multiset().len() == r.len());
    assert forall|x: Keyed| #[trigger] r.contains(x) <==> s.contains(x) by {
        assert(r.contains(x) <==> r.to_multiset().count(x) > 0);
        assert(s.contains(x) <==> s.to_multiset().count(x) > 0);
    }
    if s.no_duplicates() {
        s.lemma_multiset_has_no_duplicates();
        r.lemma_multiset_has_no_duplicates_conv();
    }
}

} // verus!
