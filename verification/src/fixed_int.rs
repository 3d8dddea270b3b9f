//! Integers in a fixed number of bytes.

use vstd::prelude::*;

verus! {

/// The `width` lowest bytes of `value`, the least significant one first.
pub open spec fn le_bytes(value: nat, width: nat) -> Seq<u8>
    decreases width,
{
    if width == 0 {
        Seq::empty()
    } else {
        seq![(value % 256) as u8] + le_bytes(value / 256, (width - 1) as nat)
    }
}

/// The number that `bytes` spells, the least significant byte first.
pub open spec fn le_value(bytes: Seq<u8>) -> nat
    decreases bytes.len(),
{
    if bytes.len() == 0 {
        0
    } else {
        bytes[0] as nat + 256 * le_value(bytes.drop_first())
    }
}

/// The `width` lowest bytes of `value`, the most significant one first.
pub open spec fn be_bytes(value: nat, width: nat) -> Seq<u8>
    decreases width,
{
    if width == 0 {
        Seq::empty()
    } else {
        be_bytes(value / 256, (width - 1) as nat) + seq![(value % 256) as u8]
    }
}

pub proof fn lemma_le_bytes_len(value: nat, width: nat)
    ensures
        le_bytes(value, width).len() == width,
    decreases width,
{
    if width > 0 {
        lemma_le_bytes_len(value / 256, (width - 1) as nat);
    }
}

/// Reading four little-endian bytes gives back the number that was written, if it fits.
pub proof fn lemma_le_value_of_le_bytes_4(value: nat)
    requires
        value < 0x1_0000_0000,
    ensures
        le_bytes(value, 4).len() == 4,
        le_value(le_bytes(value, 4)) == value,
{
    assert(pow256(4) == 0x1_0000_0000) by {
        reveal_with_fuel(pow256, 5);
    }
    lemma_le_value_of_le_bytes(value, 4);
    lemma_le_bytes_len(value, 4);
}

/// `256` to the power `n`.
pub open spec fn pow256(n: nat) -> nat
    decreases n,
{
    if n == 0 {
        1
    } else {
        256 * pow256((n - 1) as nat)
    }
}

proof fn lemma_le_value_of_le_bytes(value: nat, width: nat)
    requires
        value < pow256(width),
    ensures
        le_value(le_bytes(value, width)) == value,
    decreases width,
{
    if width > 0 {
        lemma_le_value_of_le_bytes(value / 256, (width - 1) as nat);
        let bytes = le_bytes(value, width);
        assert(bytes.drop_first() =~= le_bytes(value / 256, (width - 1) as nat));
    }
}

/// Appends the `width` lowest bytes of `value`, the least significant one first.
pub(crate) fn push_le(output: &mut Vec<u8>, value: u64, width: usize)
    ensures
        final(output)@ == old(output)@ + le_bytes(value as nat, width as nat),
{
    let mut left: usize = width;
    let mut rest: u64 = value;
    assert(output@ + le_bytes(rest as nat, left as nat) =~= old(output)@ + le_bytes(value as nat, width as nat));
    while left > 0
        invariant
            output@ + le_bytes(rest as nat, left as nat) == old(output)@ + le_bytes(value as nat, width as nat),
        decreases left,
    {
        let ghost before = output@;
        output.push((rest % 256) as u8);
        assert(output@ + le_bytes((rest / 256) as nat, (left - 1) as nat) =~= before + le_bytes(
            rest as nat,
            left as nat,
        ));
        rest = rest / 256;
        left = left - 1;
    }
    assert(output@ =~= output@ + le_bytes(rest as nat, 0));
}

/// Appends the `width` lowest bytes of `value`, the most significant one first.
pub(crate) fn push_be(output: &mut Vec<u8>, value: u64, width: usize)
    ensures
        final(output)@ == old(output)@ + be_bytes(value as nat, width as nat),
    decreases width,
{
    if width > 0 {
        push_be(output, value / 256, width - 1);
        let ghost before = output@;
        output.push((value % 256) as u8);
        assert(output@ =~= before + seq![(value % 256) as u8]);
        assert(output@ =~= old(output)@ + be_bytes(value as nat, width as nat));
    } else {
        assert(output@ =~= old(output)@ + be_bytes(value as nat, width as nat));
    }
}

/// Reads the first four bytes of `data`, the least significant one first.
pub(crate) fn read_le_u32(data: &[u8]) -> (value: u32)
    requires
        data@.len() >= 4,
    ensures
        value == le_value(data@.take(4)),
{
    proof {
        reveal_with_fuel(le_value, 5);
        let s = data@.take(4);
        assert(s.drop_first() =~= data@.subrange(1, 4));
        assert(s.drop_first().drop_first() =~= data@.subrange(2, 4));
        assert(s.drop_first().drop_first().drop_first() =~= data@.subrange(3, 4));
        assert(s.drop_first().drop_first().drop_first().drop_first() =~= Seq::<u8>::empty());
    }
    data[0] as u32 + 256 * (data[1] as u32 + 256 * (data[2] as u32 + 256 * (data[3] as u32)))
}

} // verus!
