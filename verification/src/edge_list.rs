//! Byte form of one node's outgoing edges: per edge a varint with the distance
//! to the previous target, then the weight in centi-nm as two bytes, low first.

use vstd::prelude::*;
use crate::varint::{
    decode, encode, lemma_encode_decode, lemma_reencoded_len, lemma_varint_bytes_mono, varint_at,
    varint_bytes, varint_len, varint_value,
};

verus! {

/// One entry: target node and weight in centi-nm.
pub type Edge = (u32, u16);

/// The target's distance to the previous one, as the varint at `pos` gives it.
pub open spec fn delta_at(data: Seq<u8>, pos: int) -> nat {
    varint_value(data, pos, varint_len(data, pos)) % 0x1_0000_0000
}

/// Position behind the entry at `pos`.
pub open spec fn entry_end(data: Seq<u8>, pos: int) -> int {
    pos + varint_len(data, pos) + 2
}

/// The entry at `pos`, when the previous target was `prev`.
pub open spec fn entry_at(data: Seq<u8>, pos: int, prev: u32) -> Edge {
    let weight_at = pos + varint_len(data, pos);
    (
        (prev + delta_at(data, pos)) as u32,
        (data[weight_at] + 256 * data[weight_at + 1]) as u16,
    )
}

/// A whole entry lies at `pos`, and its target is a `u32`.
pub open spec fn entry_ok(data: Seq<u8>, pos: int, prev: u32) -> bool {
    &&& varint_at(data, pos)
    &&& entry_end(data, pos) <= data.len()
    &&& prev + delta_at(data, pos) <= u32::MAX
}

/// From `pos` on, `data` is a sequence of whole entries.
pub open spec fn entries_ok(data: Seq<u8>, pos: int, prev: u32) -> bool
    decreases data.len() - pos,
{
    pos >= data.len() || (entry_ok(data, pos, prev) && entries_ok(
        data,
        entry_end(data, pos),
        entry_at(data, pos, prev).0,
    ))
}

/// The entries from `pos` on.
pub open spec fn entries(data: Seq<u8>, pos: int, prev: u32) -> Seq<Edge>
    decreases data.len() - pos,
{
    if pos >= data.len() || !entry_ok(data, pos, prev) {
        Seq::empty()
    } else {
        let e = entry_at(data, pos, prev);
        seq![e] + entries(data, entry_end(data, pos), e.0)
    }
}

/// The bytes of a list of edges behind a target `prev`.
pub open spec fn edge_bytes(list: Seq<Edge>, prev: u32) -> Seq<u8>
    decreases list.len(),
{
    if list.len() == 0 {
        Seq::empty()
    } else {
        entry_bytes(list[0], prev) + edge_bytes(list.drop_first(), list[0].0)
    }
}

/// The bytes of one edge behind a target `prev`.
pub open spec fn entry_bytes(e: Edge, prev: u32) -> Seq<u8> {
    varint_bytes((e.0 - prev) as nat) + seq![(e.1 % 256) as u8, (e.1 / 256) as u8]
}

/// Targets ascend, starting at or above `prev`.
pub open spec fn ascending_from(list: Seq<Edge>, prev: u32) -> bool {
    &&& forall|i: int| 0 <= i < list.len() ==> prev <= (#[trigger] list[i]).0
    &&& forall|i: int, j: int|
        0 <= i <= j < list.len() ==> (#[trigger] list[i]).0 <= (#[trigger] list[j]).0
}

/// Every target is below `limit`.
pub open spec fn targets_below(list: Seq<Edge>, limit: int) -> bool {
    forall|i: int| 0 <= i < list.len() ==> (#[trigger] list[i]).0 < limit
}

/// Targets ascend.
pub open spec fn ascending(list: Seq<Edge>) -> bool {
    ascending_from(list, 0)
}

/// Appends the byte form of `list` to `data`.
pub fn append_edges(list: &Vec<Edge>, data: &mut Vec<u8>)
    requires
        ascending(list@),
    ensures
        final(data)@ == old(data)@ + edge_bytes(list@, 0),
{
    let mut prev: u32 = 0;
    let mut i: usize = 0;
    proof {
        assert(list@.skip(0) =~= list@);
    }
    while i < list.len()
        invariant
            i <= list.len(),
            ascending(list@),
            i > 0 ==> prev == list@[i - 1].0,
            i == 0 ==> prev == 0,
            data@ + edge_bytes(list@.skip(i as int), prev) == old(data)@ + edge_bytes(list@, 0),
        decreases list.len() - i,
    {
        let (target, weight) = list[i];
        let ghost before = data@;
        encode(target - prev, data);
        data.push((weight % 256) as u8);
        data.push((weight / 256) as u8);
        proof {
            let rest = list@.skip(i as int);
            assert(rest[0] == list@[i as int]);
            assert(rest.drop_first() =~= list@.skip(i + 1));
            assert(data@ =~= before + entry_bytes(rest[0], prev));
            assert(data@ + edge_bytes(list@.skip(i + 1), target) =~= before + edge_bytes(
                rest,
                prev,
            ));
        }
        prev = target;
        i = i + 1;
    }
    proof {
        assert(list@.skip(i as int) =~= Seq::<Edge>::empty());
        assert(data@ + edge_bytes(list@.skip(i as int), prev) =~= data@);
    }
}

/// Reading an ascending list's bytes gives the list back.
pub proof fn lemma_entries_of_edge_bytes(before: Seq<u8>, list: Seq<Edge>, prev: u32)
    requires
        ascending_from(list, prev),
    ensures
        entries_ok(before + edge_bytes(list, prev), before.len() as int, prev),
        entries(before + edge_bytes(list, prev), before.len() as int, prev) == list,
    decreases list.len(),
{
    let data = before + edge_bytes(list, prev);
    let pos = before.len() as int;
    if list.len() == 0 {
        assert(data =~= before);
    } else {
        let e = list[0];
        let rest = list.drop_first();
        let delta = (e.0 - prev) as u32;
        let behind = seq![(e.1 % 256) as u8, (e.1 / 256) as u8] + edge_bytes(rest, e.0);
        assert(data =~= before + varint_bytes(delta as nat) + behind);
        lemma_encode_decode(before, delta, behind);
        let n = varint_bytes(delta as nat).len();
        assert(data[pos + n] == (e.1 % 256) as u8);
        assert(data[pos + n + 1] == (e.1 / 256) as u8);
        assert(entry_at(data, pos, prev) == e);
        let next = before + entry_bytes(e, prev);
        assert(data =~= next + edge_bytes(rest, e.0));
        assert(next.len() == entry_end(data, pos));
        assert forall|i: int| 0 <= i < rest.len() implies e.0 <= (#[trigger] rest[i]).0 by {
            assert(rest[i] == list[i + 1]);
        }
        lemma_entries_of_edge_bytes(next, rest, e.0);
        assert(list =~= seq![e] + rest);
    }
}

/// An edge takes three to seven bytes.
pub proof fn lemma_edge_bytes_len(list: Seq<Edge>, prev: u32)
    requires
        ascending_from(list, prev),
    ensures
        3 * list.len() <= edge_bytes(list, prev).len() <= 7 * list.len(),
    decreases list.len(),
{
    if list.len() > 0 {
        let rest = list.drop_first();
        assert forall|i: int| 0 <= i < rest.len() implies list[0].0 <= (#[trigger] rest[i]).0 by {
            assert(rest[i] == list[i + 1]);
        }
        lemma_edge_bytes_len(rest, list[0].0);
        lemma_encode_decode(Seq::empty(), (list[0].0 - prev) as u32, Seq::empty());
    }
}

/// What is read always ascends.
pub proof fn lemma_entries_ascend(data: Seq<u8>, pos: int, prev: u32)
    ensures
        ascending_from(entries(data, pos, prev), prev),
    decreases data.len() - pos,
{
    if pos >= data.len() || !entry_ok(data, pos, prev) {
    } else {
        let e = entry_at(data, pos, prev);
        let rest = entries(data, entry_end(data, pos), e.0);
        lemma_entries_ascend(data, entry_end(data, pos), e.0);
        assert(entries(data, pos, prev) =~= seq![e] + rest);
    }
}

/// Every entry takes at least three bytes.
pub proof fn lemma_entries_len(data: Seq<u8>, pos: int, prev: u32)
    requires
        pos <= data.len(),
    ensures
        3 * entries(data, pos, prev).len() <= data.len() - pos,
    decreases data.len() - pos,
{
    if pos >= data.len() || !entry_ok(data, pos, prev) {
    } else {
        let e = entry_at(data, pos, prev);
        lemma_entries_len(data, entry_end(data, pos), e.0);
    }
}

/// The byte form of what was read is no longer than what was read.
pub proof fn lemma_reencoded_edges_len(data: Seq<u8>, pos: int, prev: u32)
    requires
        pos <= data.len(),
    ensures
        edge_bytes(entries(data, pos, prev), prev).len() <= data.len() - pos,
    decreases data.len() - pos,
{
    let list = entries(data, pos, prev);
    if pos >= data.len() || !entry_ok(data, pos, prev) {
    } else {
        let e = entry_at(data, pos, prev);
        lemma_reencoded_edges_len(data, entry_end(data, pos), e.0);
        lemma_reencoded_len(data, pos);
        assert(list.drop_first() =~= entries(data, entry_end(data, pos), e.0));
    }
}

/// Lists whose targets lie closer together take no more bytes.
pub proof fn lemma_edge_bytes_mono(near: Seq<Edge>, near_prev: u32, far: Seq<Edge>, far_prev: u32)
    requires
        near.len() == far.len(),
        ascending_from(near, near_prev),
        ascending_from(far, far_prev),
        near.len() > 0 ==> near[0].0 - near_prev <= far[0].0 - far_prev,
        forall|i: int, j: int|
            0 <= i <= j < near.len() ==> (#[trigger] near[j]).0 - (#[trigger] near[i]).0
                <= far[j].0 - far[i].0,
    ensures
        edge_bytes(near, near_prev).len() <= edge_bytes(far, far_prev).len(),
    decreases near.len(),
{
    if near.len() > 0 {
        let n = near.drop_first();
        let f = far.drop_first();
        assert forall|i: int| 0 <= i < n.len() implies near[0].0 <= (#[trigger] n[i]).0 by {
            assert(n[i] == near[i + 1]);
        }
        assert forall|i: int| 0 <= i < f.len() implies far[0].0 <= (#[trigger] f[i]).0 by {
            assert(f[i] == far[i + 1]);
        }
        assert forall|i: int, j: int| 0 <= i <= j < n.len() implies (#[trigger] n[j]).0 - (
        #[trigger] n[i]).0 <= f[j].0 - f[i].0 by {
            assert(near[j + 1].0 - near[i + 1].0 <= far[j + 1].0 - far[i + 1].0);
        }
        if n.len() > 0 {
            assert(near[1].0 - near[0].0 <= far[1].0 - far[0].0);
        }
        lemma_edge_bytes_mono(n, near[0].0, f, far[0].0);
        lemma_varint_bytes_mono((near[0].0 - near_prev) as nat, (far[0].0 - far_prev) as nat);
    }
}

/// Iterator over a node's neighbours, decoding its edge bytes.
pub struct NeighborIter<'a> {
    pub data: &'a [u8],
    pub pos: usize,
    pub prev_target: u32,
}

impl<'a> NeighborIter<'a> {
    /// The bytes still to be read are whole entries.
    pub open spec fn wf(&self) -> bool {
        &&& self.pos <= self.data@.len()
        &&& entries_ok(self.data@, self.pos as int, self.prev_target)
    }

    /// The edges still to come.
    pub open spec fn remaining(&self) -> Seq<Edge> {
        entries(self.data@, self.pos as int, self.prev_target)
    }

    /// The next edge as target and weight in centi-nm, or `None` at the end.
    pub fn next(&mut self) -> (r: Option<Edge>)
        requires
            old(self).wf(),
        ensures
            final(self).wf(),
            final(self).data == old(self).data,
            match r {
                None => old(self).remaining().len() == 0 && *final(self) == *old(self),
                Some(e) => old(self).remaining() == seq![e] + final(self).remaining(),
            },
    {
        if self.pos >= self.data.len() {
            return None;
        }
        let (delta, weight_at): (u32, usize) = decode(self.data, self.pos);
        let target: u32 = self.prev_target + delta;
        let weight: u16 = self.data[weight_at] as u16 + 256 * (self.data[weight_at + 1] as u16);
        self.pos = weight_at + 2;
        self.prev_target = target;
        Some((target, weight))
    }
}

/// Tests that `data` is a sequence of whole entries with targets below `limit`.
pub fn edges_in_range(data: &[u8], limit: u32) -> (r: bool)
    ensures
        r == (entries_ok(data@, 0, 0) && targets_below(entries(data@, 0, 0), limit as int)),
{
    let mut pos: usize = 0;
    let mut prev: u32 = 0;
    let ghost mut seen: Seq<Edge> = Seq::empty();
    assert(seen + entries(data@, 0, 0) =~= entries(data@, 0, 0));
    while pos < data.len()
        invariant
            pos <= data@.len(),
            entries_ok(data@, pos as int, prev) == entries_ok(data@, 0, 0),
            seen + entries(data@, pos as int, prev) == entries(data@, 0, 0),
            targets_below(seen, limit as int),
        decreases data@.len() - pos,
    {
        let ghost here = pos as int;
        // find the end of the varint
        let mut len: usize = 1;
        while len <= data.len() - pos && len <= 5 && data[pos + (len - 1)] >= 128
            invariant
                here == pos,
                pos < data@.len(),
                1 <= len <= 6,
                pos + len <= data@.len() + 1,
                varint_len(data@, here) == len - 1 + varint_len(data@, here + len - 1),
            decreases 7 - len,
        {
            len = len + 1;
        }
        proof {
            assert(varint_len(data@, here + len - 1) >= 1);
        }
        if len > 5 || data.len() - pos < len {
            return false;
        }
        if data.len() - pos - len < 2 {
            return false;
        }
        let (delta, weight_at): (u32, usize) = decode(data, pos);
        if delta > u32::MAX - prev {
            return false;
        }
        let target: u32 = prev + delta;
        let ghost e = entry_at(data@, here, prev);
        proof {
            assert(entries(data@, here, prev)[0] == e);
            assert(entries(data@, 0, 0)[seen.len() as int] == e);
        }
        if target >= limit {
            return false;
        }
        proof {
            let rest = entries(data@, entry_end(data@, here), e.0);
            assert(seen + (seq![e] + rest) =~= seen.push(e) + rest);
            seen = seen.push(e);
        }
        prev = target;
        pos = weight_at + 2;
    }
    assert(seen + Seq::<Edge>::empty() =~= seen);
    true
}

} // verus!
