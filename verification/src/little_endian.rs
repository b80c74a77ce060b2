//! Unsigned integers as little-endian bytes.

use vstd::arithmetic::power::{lemma_pow0, lemma_pow_positive, pow};
use vstd::prelude::*;

verus! {

/// The number that `bytes` stand for, the least significant byte first.
pub open spec fn le_value(bytes: Seq<u8>) -> nat
    decreases bytes.len(),
{
    if bytes.len() == 0 {
        0
    } else {
        bytes[0] as nat + 256 * le_value(bytes.drop_first())
    }
}

/// The lowest `width` bytes of `value`, the least significant byte first.
pub open spec fn le_bytes(value: nat, width: nat) -> Seq<u8>
    decreases width,
{
    if width == 0 {
        Seq::empty()
    } else {
        seq![(value % 256) as u8] + le_bytes(value / 256, (width - 1) as nat)
    }
}

/// `le_bytes` gives as many bytes as it was asked for.
pub proof fn lemma_le_bytes_len(value: nat, width: nat)
    ensures
        le_bytes(value, width).len() == width,
    decreases width,
{
    if width > 0 {
        lemma_le_bytes_len(value / 256, (width - 1) as nat);
    }
}

/// The first `width` bytes of a wider encoding are the encoding in `width` bytes.
pub proof fn lemma_le_bytes_take(value: nat, wide: nat, width: nat)
    requires
        width <= wide,
    ensures
        le_bytes(value, wide).take(width as int) == le_bytes(value, width),
    decreases width,
{
    lemma_le_bytes_len(value, wide);
    lemma_le_bytes_len(value, width);
    if width > 0 {
        lemma_le_bytes_take(value / 256, (wide - 1) as nat, (width - 1) as nat);
        lemma_le_bytes_len(value / 256, (wide - 1) as nat);
        let rest = le_bytes(value / 256, (wide - 1) as nat);
        assert(le_bytes(value, wide).take(width as int) =~= seq![(value % 256) as u8] + rest.take(
            width - 1,
        ));
    } else {
        assert(le_bytes(value, wide).take(0) =~= Seq::<u8>::empty());
    }
}

/// Reading back what `le_bytes` wrote gives the value, cut to the width.
pub proof fn law_le_round_trip(value: nat, width: nat)
    ensures
        le_value(le_bytes(value, width)) == value % (pow(256, width) as nat),
        pow(256, width) > 0,
    decreases width,
{
    lemma_pow_positive(256, width);
    if width == 0 {
        lemma_pow0(256);
        assert(le_value(le_bytes(value, width)) == 0);
    } else {
        let low = (width - 1) as nat;
        law_le_round_trip(value / 256, low);
        assert(le_bytes(value, width).drop_first() =~= le_bytes(value / 256, low));
        let p = pow(256, low);
        reveal(pow);
        assert(pow(256, width) == 256 * p);
        vstd::arithmetic::div_mod::lemma_mod_breakdown(value as int, 256, p);
    }
}

/// Every byte sequence is the encoding of the number that it stands for.
pub proof fn law_le_bytes_of_value(bytes: Seq<u8>)
    ensures
        le_bytes(le_value(bytes), bytes.len()) == bytes,
    decreases bytes.len(),
{
    if bytes.len() > 0 {
        let rest = bytes.drop_first();
        law_le_bytes_of_value(rest);
        let value = le_value(bytes);
        assert(value % 256 == bytes[0] && value / 256 == le_value(rest));
        assert(le_bytes(value, bytes.len()) =~= bytes);
    } else {
        assert(le_bytes(le_value(bytes), 0) =~= bytes);
    }
}

/// The first byte counts ones, and each later byte 256 times as much as the one before it.
pub proof fn law_places(bytes: Seq<u8>)
    ensures
        bytes.len() == 0 ==> le_value(bytes) == 0,
        bytes.len() == 1 ==> le_value(bytes) == bytes[0],
        bytes.len() == 2 ==> le_value(bytes) == bytes[0] + 0x100 * bytes[1],
        bytes.len() == 4 ==> le_value(bytes) == bytes[0] + 0x100 * bytes[1] + 0x1_0000 * bytes[2]
            + 0x100_0000 * bytes[3],
        bytes.len() > 0 ==> le_value(bytes) == bytes[0] + 0x100 * le_value(bytes.skip(1)),
{
    reveal_with_fuel(le_value, 5);
    if bytes.len() > 0 {
        assert(bytes.skip(1) =~= bytes.drop_first());
    }
}

/// A two byte number survives being written and read.
pub proof fn lemma_round_trip_u16(value: u16)
    ensures
        le_value(le_bytes(value as nat, 2)) == value,
{
    law_le_round_trip(value as nat, 2);
    assert(pow(256, 2) == 65536) by {
        reveal(pow);
        reveal_with_fuel(pow, 3);
    }
    vstd::arithmetic::div_mod::lemma_small_mod(value as nat, 65536);
}

/// A four byte number survives being written and read; a larger one keeps its low four bytes.
pub proof fn lemma_round_trip_u32(value: nat)
    ensures
        le_value(le_bytes(value, 4)) == value % 0x1_0000_0000,
{
    law_le_round_trip(value, 4);
    assert(pow(256, 4) == 0x1_0000_0000) by {
        reveal(pow);
        reveal_with_fuel(pow, 5);
    }
}

/// Appends the lowest `width` bytes of `value` to `out`.
pub fn put_le(out: &mut Vec<u8>, value: u64, width: usize)
    ensures
        final(out)@ == old(out)@ + le_bytes(value as nat, width as nat),
{
    let mut rest: u64 = value;
    let mut left: usize = width;
    assert(out@ + le_bytes(rest as nat, left as nat) =~= old(out)@ + le_bytes(value as nat, width as nat));
    while left > 0
        invariant
            out@ + le_bytes(rest as nat, left as nat) == old(out)@ + le_bytes(
                value as nat,
                width as nat,
            ),
        decreases left,
    {
        let ghost before = out@;
        let ghost tail = le_bytes((rest / 256) as nat, (left - 1) as nat);
        out.push((rest % 256) as u8);
        assert(before + (seq![(rest % 256) as u8] + tail) =~= out@ + tail);
        rest = rest / 256;
        left = left - 1;
    }
    assert(out@ + le_bytes(rest as nat, 0) =~= out@);
}

/// The two byte number at `at`.
pub fn read_u16(data: &[u8], at: usize) -> (value: u16)
    requires
        at + 2 <= data@.len(),
    ensures
        value == le_value(data@.subrange(at as int, at + 2)),
{
    proof {
        reveal_with_fuel(le_value, 3);
        let bytes = data@.subrange(at as int, at + 2);
        assert(bytes.drop_first().drop_first() =~= Seq::<u8>::empty());
    }
    data[at] as u16 + 256 * data[at + 1] as u16
}

/// The four byte number at `at`.
pub fn read_u32(data: &[u8], at: usize) -> (value: u32)
    requires
        at + 4 <= data@.len(),
    ensures
        value == le_value(data@.subrange(at as int, at + 4)),
{
    proof {
        reveal_with_fuel(le_value, 5);
        let bytes = data@.subrange(at as int, at + 4);
        assert(bytes.drop_first().drop_first().drop_first().drop_first() =~= Seq::<u8>::empty());
    }
    data[at] as u32 + 256 * (data[at + 1] as u32 + 256 * (data[at + 2] as u32 + 256 * data[at
        + 3] as u32))
}

} // verus!
