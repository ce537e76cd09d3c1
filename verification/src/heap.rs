//! Binary min-heap of keyed entries: the open list of the route search.

use vstd::prelude::*;
use vstd::multiset::Multiset;
use crate::sort::{at_most, keyed_le, Keyed};

verus! {

/// Priority queue that hands out its least entry, by key and then by number.
pub struct MinHeap {
    pub items: Vec<Keyed>,
}

/// No entry is less than the one above it, except perhaps the one at `loose`.
spec fn ordered_except(s: Seq<Keyed>, loose: int) -> bool {
    forall|i: int| 0 < i < s.len() && i != loose ==> keyed_le(s[(i - 1) / 2], #[trigger] s[i])
}

/// The children of `loose` are not less than what stands above `loose`.
spec fn bridged(s: Seq<Keyed>, loose: int) -> bool {
    forall|i: int|
        0 < i < s.len() && (i - 1) / 2 == loose && loose > 0 ==> keyed_le(
            s[(loose - 1) / 2],
            #[trigger] s[i],
        )
}

/// No entry is less than the one above it, except perhaps the children of
/// `loose`.
spec fn ordered_below(s: Seq<Keyed>, loose: int) -> bool {
    forall|i: int|
        0 < i < s.len() && (i - 1) / 2 != loose ==> keyed_le(s[(i - 1) / 2], #[trigger] s[i])
}

proof fn lemma_swap_multiset(s: Seq<Keyed>, i: int, j: int)
    requires
        0 <= i < s.len(),
        0 <= j < s.len(),
        i != j,
    ensures
        s.update(i, s[j]).update(j, s[i]).to_multiset() == s.to_multiset(),
{
    broadcast use vstd::seq_lib::group_to_multiset_ensures;

    let a = s.update(i, s[j]);
    assert(s.to_multiset().count(s[i]) > 0) by {
        assert(s.contains(s[i]));
    }
    assert(a.update(j, s[i]).to_multiset() =~= s.to_multiset());
}

/// In a heap the root is least.
proof fn lemma_root_least(s: Seq<Keyed>, i: int)
    requires
        ordered_except(s, -1),
        0 <= i < s.len(),
    ensures
        keyed_le(s[0], s[i]),
    decreases i,
{
    if i > 0 {
        lemma_root_least(s, (i - 1) / 2);
        assert(keyed_le(s[(i - 1) / 2], s[i]));
    }
}

impl MinHeap {
    pub closed spec fn wf(&self) -> bool {
        ordered_except(self.items@, -1)
    }

    /// The entries in the heap.
    pub open spec fn view(&self) -> Multiset<Keyed> {
        self.items@.to_multiset()
    }

    pub fn new() -> (r: Self)
        ensures
            r.wf(),
            r@ == Multiset::<Keyed>::empty(),
            r.items@.len() == 0,
    {
        broadcast use vstd::seq_lib::group_to_multiset_ensures;

        let r = MinHeap { items: Vec::new() };
        assert(r.items@ =~= Seq::<Keyed>::empty());
        assert(r@ =~= Multiset::<Keyed>::empty());
        r
    }

    fn swap(&mut self, i: usize, j: usize)
        requires
            i < old(self).items@.len(),
            j < old(self).items@.len(),
            i != j,
        ensures
            final(self).items@ == old(self).items@.update(i as int, old(self).items@[j as int]).update(
                j as int,
                old(self).items@[i as int],
            ),
            final(self)@ == old(self)@,
    {
        proof {
            lemma_swap_multiset(self.items@, i as int, j as int);
        }
        let a: Keyed = self.items[i];
        let b: Keyed = self.items[j];
        self.items.set(i, b);
        self.items.set(j, a);
    }

    /// Adds an entry.
    pub fn push(&mut self, e: Keyed)
        requires
            old(self).wf(),
        ensures
            final(self).wf(),
            final(self)@ == old(self)@.insert(e),
            final(self).items@.len() == old(self).items@.len() + 1,
    {
        broadcast use vstd::seq_lib::group_to_multiset_ensures;

        let mut i: usize = self.items.len();
        self.items.push(e);
        while i > 0
            invariant
                i < self.items@.len(),
                self.items@.len() == old(self).items@.len() + 1,
                self@ == old(self)@.insert(e),
                ordered_except(self.items@, i as int),
                bridged(self.items@, i as int),
            decreases i,
        {
            let above: usize = (i - 1) / 2;
            let ghost s = self.items@;
            if at_most(self.items[above], self.items[i]) {
                assert(ordered_except(s, -1));
                return;
            }
            self.swap(i, above);
            proof {
                let t = self.items@;
                assert forall|k: int| 0 < k < t.len() && k != above implies keyed_le(
                    t[(k - 1) / 2],
                    #[trigger] t[k],
                ) by {
                    assert(k != i ==> keyed_le(s[(k - 1) / 2], s[k]));
                }
                assert forall|k: int|
                    0 < k < t.len() && (k - 1) / 2 == above && above > 0 implies keyed_le(
                    t[(above - 1) / 2],
                    #[trigger] t[k],
                ) by {
                    assert(keyed_le(s[(above - 1) / 2], s[above as int]));
                    assert(k != i ==> keyed_le(s[above as int], s[k]));
                }
            }
            i = above;
        }
    }

    /// Takes out the least entry.
    pub fn pop(&mut self) -> (r: Option<Keyed>)
        requires
            old(self).wf(),
        ensures
            final(self).wf(),
            match r {
                None => old(self)@ == Multiset::<Keyed>::empty() && *final(self) == *old(self),
                Some(e) => {
                    &&& old(self)@.count(e) > 0
                    &&& final(self)@ == old(self)@.remove(e)
                    &&& forall|x: Keyed| #[trigger] old(self)@.count(x) > 0 ==> keyed_le(e, x)
                    &&& final(self).items@.len() + 1 == old(self).items@.len()
                },
            },
    {
        broadcast use vstd::seq_lib::group_to_multiset_ensures;

        let n: usize = self.items.len();
        if n == 0 {
            assert(self.items@ =~= Seq::<Keyed>::empty());
            assert(self@ =~= Multiset::<Keyed>::empty());
            return None;
        }
        let ghost s0 = self.items@;
        let top: Keyed = self.items[0];
        proof {
            assert forall|x: Keyed| #[trigger] self@.count(x) > 0 implies keyed_le(top, x) by {
                assert(s0.contains(x));
                let k = choose|k: int| 0 <= k < s0.len() && s0[k] == x;
                lemma_root_least(s0, k);
            }
            assert(s0.contains(s0[0]));
        }
        let last: Keyed = self.items[n - 1];
        self.items.pop();
        let ghost s1 = self.items@;
        proof {
            assert(s1 =~= s0.drop_last());
            assert(s1.push(last) =~= s0);
            assert(s1.to_multiset().insert(last) == s0.to_multiset());
        }
        if n == 1 {
            assert(top == last);
            assert(s1.to_multiset() =~= s0.to_multiset().remove(top));
            return Some(top);
        }
        self.items.set(0, last);
        proof {
            let s2 = self.items@;
            assert(s2.to_multiset() =~= s0.to_multiset().remove(top)) by {
                assert(s1[0] == top);
                assert(s1.contains(top));
                assert(s2.to_multiset() == s1.to_multiset().insert(last).remove(top));
            }
            assert forall|i: int| 0 < i < s2.len() && (i - 1) / 2 != 0 implies keyed_le(
                s2[(i - 1) / 2],
                #[trigger] s2[i],
            ) by {
                assert(keyed_le(s0[(i - 1) / 2], s0[i]));
            }
        }
        self.sift_down();
        Some(top)
    }

    /// Moves the root down to its place.
    fn sift_down(&mut self)
        requires
            old(self).items@.len() > 0,
            ordered_below(old(self).items@, 0),
        ensures
            final(self).wf(),
            final(self)@ == old(self)@,
            final(self).items@.len() == old(self).items@.len(),
    {
        let n: usize = self.items.len();
        let mut i: usize = 0;
        loop
            invariant
                i < n,
                n == self.items@.len(),
                n == old(self).items@.len(),
                self@ == old(self)@,
                ordered_below(self.items@, i as int),
                bridged(self.items@, i as int),
            decreases n - i,
        {
            let ghost s = self.items@;
            if i >= n / 2 {
                assert(ordered_except(s, -1));
                return;
            }
            let left: usize = 2 * i + 1;
            let mut least: usize = left;
            if left + 1 < n && !at_most(self.items[left], self.items[left + 1]) {
                least = left + 1;
            }
            if at_most(self.items[i], self.items[least]) {
                proof {
                    assert forall|k: int| 0 < k < s.len() implies keyed_le(
                        s[(k - 1) / 2],
                        #[trigger] s[k],
                    ) by {
                        if (k - 1) / 2 == i {
                            assert(k == left || k == left + 1);
                        }
                    }
                }
                return;
            }
            self.swap(i, least);
            proof {
                let t = self.items@;
                assert forall|k: int| 0 < k < t.len() && (k - 1) / 2 != least implies keyed_le(
                    t[(k - 1) / 2],
                    #[trigger] t[k],
                ) by {
                    if (k - 1) / 2 == i {
                        assert(k == left || k == left + 1);
                    } else if k == i {
                        assert(keyed_le(s[(i - 1) / 2], s[least as int]));
                    } else {
                        assert(keyed_le(s[(k - 1) / 2], s[k]));
                    }
                }
                assert forall|k: int| 0 < k < t.len() && (k - 1) / 2 == least implies keyed_le(
                    t[(least - 1) / 2],
                    #[trigger] t[k],
                ) by {
                    assert(keyed_le(s[(k - 1) / 2], s[k]));
                }
            }
            i = least;
        }
    }
}

} // verus!
