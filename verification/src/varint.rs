//! LEB128 unsigned varint encoding and decoding for compact graph adjacency.

use vstd::prelude::*;

verus! {

/// The LEB128 bytes of `value`: seven bits per byte, least significant group
/// first, the top bit set on every byte but the last.
pub open spec fn varint_bytes(value: nat) -> Seq<u8>
    decreases value,
{
    if value < 128 {
        seq![value as u8]
    } else {
        seq![(value % 128 + 128) as u8] + varint_bytes(value / 128)
    }
}

/// Number of bytes of the varint that starts at `pos`: up to and with the first
/// byte below 128. When no such byte follows, the count runs past the end.
pub open spec fn varint_len(data: Seq<u8>, pos: int) -> nat
    decreases data.len() - pos,
{
    if pos >= data.len() || pos < 0 {
        1
    } else if data[pos] < 128 {
        1
    } else {
        1 + varint_len(data, pos + 1)
    }
}

/// The number that the `len` bytes from `pos` stand for.
pub open spec fn varint_value(data: Seq<u8>, pos: int, len: nat) -> nat
    decreases len,
{
    if len == 0 {
        0
    } else {
        (data[pos] % 128) as nat + 128 * varint_value(data, pos + 1, (len - 1) as nat)
    }
}

/// A varint of at most five bytes lies at `pos`, all of it inside `data`.
pub open spec fn varint_at(data: Seq<u8>, pos: int) -> bool {
    &&& 0 <= pos
    &&& varint_len(data, pos) <= 5
    &&& pos + varint_len(data, pos) <= data.len()
}

/// Appends `value` to `buf` as a LEB128 varint.
pub fn encode(value: u32, buf: &mut Vec<u8>)
    ensures
        final(buf)@ == old(buf)@ + varint_bytes(value as nat),
{
    let mut value: u32 = value;
    let ghost whole = varint_bytes(value as nat);
    loop
        invariant_except_break
            buf@ + varint_bytes(value as nat) == old(buf)@ + whole,
        ensures
            buf@ == old(buf)@ + whole,
        decreases value,
    {
        let low: u8 = (value % 128) as u8;
        let rest: u32 = value / 128;
        if rest == 0 {
            let ghost before = buf@;
            buf.push(low);
            assert(buf@ =~= before + varint_bytes(value as nat));
            break;
        }
        let ghost before = buf@;
        buf.push(low + 128);
        assert(before + varint_bytes(value as nat) =~= buf@ + varint_bytes(rest as nat));
        value = rest;
    }
}

/// Reads the varint at `data[pos..]` and returns its value with the position
/// behind it. A fifth byte may carry bits beyond the thirty-second: they are
/// dropped.
pub fn decode(data: &[u8], pos: usize) -> (r: (u32, usize))
    requires
        varint_at(data@, pos as int),
    ensures
        r.0 as nat == varint_value(data@, pos as int, varint_len(data@, pos as int)) % 0x1_0000_0000,
        r.1 == pos + varint_len(data@, pos as int),
{
    let ghost len = varint_len(data@, pos as int);
    let ghost total = varint_value(data@, pos as int, len);
    let mut at: usize = pos;
    let mut scale: u64 = 1;
    let mut value: u64 = 0;
    proof {
        lemma_value_bound(data@, pos as int, len);
    }
    while data[at] >= 128
        invariant
            0 <= pos <= at < data@.len(),
            len <= 5,
            pos + len <= data@.len(),
            varint_len(data@, at as int) == len - (at - pos),
            scale as nat == pow128((at - pos) as nat),
            value < scale,
            total == value + scale * varint_value(data@, at as int, (len - (at - pos)) as nat),
            scale <= 0x1000_0000,
        decreases data@.len() - at,
    {
        let low: u64 = (data[at] % 128) as u64;
        let ghost rest = varint_value(data@, at + 1, (len - (at - pos) - 1) as nat);
        proof {
            reveal_with_fuel(varint_len, 2);
            reveal_with_fuel(pow128, 6);
            assert(scale * (low + 128 * rest) == scale * low + (scale * 128) * rest)
                by (nonlinear_arith);
            assert(value + scale * low < scale * 128) by (nonlinear_arith)
                requires
                    value < scale,
                    low < 128,
            ;
            assert(at - pos <= 3);
            assert(pow128((at - pos) as nat) <= 0x20_0000);
        }
        value = value + scale * low;
        scale = scale * 128;
        at = at + 1;
    }
    proof {
        assert(varint_value(data@, at + 1, 0) == 0);
        assert(scale * data@[at as int] < scale * 128) by (nonlinear_arith)
            requires
                scale > 0,
                data@[at as int] < 128,
        ;
    }
    let low: u64 = data[at] as u64;
    assert(low % 128 == low);
    value = value + scale * low;
    ((value % 0x1_0000_0000) as u32, at + 1)
}

/// 128 raised to `n`.
pub open spec fn pow128(n: nat) -> nat
    decreases n,
{
    if n == 0 {
        1
    } else {
        128 * pow128((n - 1) as nat)
    }
}

proof fn lemma_value_bound(data: Seq<u8>, pos: int, len: nat)
    ensures
        varint_value(data, pos, len) < pow128(len),
    decreases len,
{
    if len > 0 {
        lemma_value_bound(data, pos + 1, (len - 1) as nat);
    }
}

/// Encoding uses at least one byte, and at most `n` for values below 128 to the
/// power `n`.
pub proof fn lemma_varint_bytes_len(value: nat, n: nat)
    requires
        n > 0,
        value < pow128(n),
    ensures
        1 <= varint_bytes(value).len() <= n,
    decreases n,
{
    if value >= 128 {
        if n == 1 {
            assert(pow128(1) == 128) by {
                reveal_with_fuel(pow128, 2);
            }
        } else {
            lemma_varint_bytes_len(value / 128, (n - 1) as nat);
        }
    }
}

/// Wherever the bytes of `value` stand inside `data`, reading there gives back
/// their number and `value`.
pub proof fn lemma_varint_roundtrip(data: Seq<u8>, pos: int, value: nat)
    requires
        0 <= pos,
        pos + varint_bytes(value).len() <= data.len(),
        data.subrange(pos, pos + varint_bytes(value).len()) == varint_bytes(value),
    ensures
        varint_len(data, pos) == varint_bytes(value).len(),
        varint_value(data, pos, varint_bytes(value).len()) == value,
    decreases value,
{
    let bytes = varint_bytes(value);
    if value < 128 {
        assert(data.subrange(pos, pos + 1)[0] == data[pos]);
        assert(varint_value(data, pos + 1, 0) == 0);
    } else {
        let rest = varint_bytes(value / 128);
        assert(bytes[0] == data[pos]) by {
            assert(data.subrange(pos, pos + bytes.len())[0] == data[pos]);
        }
        assert(data.subrange(pos + 1, pos + 1 + rest.len()) =~= rest) by {
            assert forall|i: int| 0 <= i < rest.len() implies data[pos + 1 + i] == rest[i] by {
                assert(bytes[i + 1] == data.subrange(pos, pos + bytes.len())[i + 1]);
            }
        }
        lemma_varint_roundtrip(data, pos + 1, value / 128);
        assert(varint_len(data, pos) == 1 + varint_len(data, pos + 1));
    }
}

/// Every `u32` takes one to five bytes, and decoding what was encoded gives it
/// back whatever stands before and behind it.
pub proof fn lemma_encode_decode(before: Seq<u8>, value: u32, behind: Seq<u8>)
    ensures
        1 <= varint_bytes(value as nat).len() <= 5,
        varint_at(before + varint_bytes(value as nat) + behind, before.len() as int),
        varint_len(before + varint_bytes(value as nat) + behind, before.len() as int)
            == varint_bytes(value as nat).len(),
        varint_value(
            before + varint_bytes(value as nat) + behind,
            before.len() as int,
            varint_bytes(value as nat).len(),
        ) == value,
{
    assert(pow128(5) == 0x8_0000_0000) by {
        reveal_with_fuel(pow128, 6);
    }
    lemma_varint_bytes_len(value as nat, 5);
    let bytes = varint_bytes(value as nat);
    let data = before + bytes + behind;
    assert(data.subrange(before.len() as int, (before.len() + bytes.len()) as int) =~= bytes);
    lemma_varint_roundtrip(data, before.len() as int, value as nat);
}

/// A smaller value takes no more bytes.
pub proof fn lemma_varint_bytes_mono(a: nat, b: nat)
    requires
        a <= b,
    ensures
        varint_bytes(a).len() <= varint_bytes(b).len(),
    decreases b,
{
    if b >= 128 {
        if a >= 128 {
            lemma_varint_bytes_mono(a / 128, b / 128);
        }
    }
}

/// The value that was read, cut to thirty-two bits, takes no more bytes than
/// were read.
pub proof fn lemma_reencoded_len(data: Seq<u8>, pos: int)
    ensures
        varint_bytes(
            varint_value(data, pos, varint_len(data, pos)) % 0x1_0000_0000,
        ).len() <= varint_len(data, pos),
{
    let len = varint_len(data, pos);
    lemma_value_bound(data, pos, len);
    lemma_varint_bytes_len(varint_value(data, pos, len) % 0x1_0000_0000, len);
}

} // verus!
