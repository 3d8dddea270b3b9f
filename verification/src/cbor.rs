//! The part of the CBOR format that the index of a table is written in.

use crate::fixed_int::push_be;
use vstd::prelude::*;

verus! {

/// The kinds of items.
pub const UNSIGNED: u8 = 0;

pub const TEXT: u8 = 3;

pub const ARRAY: u8 = 4;

pub const MAP: u8 = 5;

/// The head of an item of the given kind: the kind and a number, in as few bytes as hold it.
pub open spec fn head_bytes(kind: u8, number: nat) -> Seq<u8> {
    if number < 24 {
        seq![(32 * kind + number) as u8]
    } else if number < 0x100 {
        seq![(32 * kind + 24) as u8] + crate::fixed_int::be_bytes(number, 1)
    } else if number < 0x1_0000 {
        seq![(32 * kind + 25) as u8] + crate::fixed_int::be_bytes(number, 2)
    } else if number < 0x1_0000_0000 {
        seq![(32 * kind + 26) as u8] + crate::fixed_int::be_bytes(number, 4)
    } else {
        seq![(32 * kind + 27) as u8] + crate::fixed_int::be_bytes(number, 8)
    }
}

/// A text, given by its bytes.
pub open spec fn text_bytes(text: Seq<u8>) -> Seq<u8> {
    head_bytes(TEXT, text.len()) + text
}

/// The numbers one after the other.
pub open spec fn numbers_bytes(numbers: Seq<u8>) -> Seq<u8>
    decreases numbers.len(),
{
    if numbers.len() == 0 {
        Seq::empty()
    } else {
        numbers_bytes(numbers.drop_last()) + head_bytes(UNSIGNED, numbers.last() as nat)
    }
}

/// An array of small numbers.
pub open spec fn byte_array_bytes(numbers: Seq<u8>) -> Seq<u8> {
    head_bytes(ARRAY, numbers.len()) + numbers_bytes(numbers)
}

/// Appends the head of an item.
pub(crate) fn push_head(output: &mut Vec<u8>, kind: u8, number: u64)
    requires
        kind < 8,
    ensures
        final(output)@ == old(output)@ + head_bytes(kind, number as nat),
{
    let ghost before = output@;
    if number < 24 {
        output.push(32 * kind + number as u8);
    } else if number < 0x100 {
        output.push(32 * kind + 24);
        push_be(output, number, 1);
    } else if number < 0x1_0000 {
        output.push(32 * kind + 25);
        push_be(output, number, 2);
    } else if number < 0x1_0000_0000 {
        output.push(32 * kind + 26);
        push_be(output, number, 4);
    } else {
        output.push(32 * kind + 27);
        push_be(output, number, 8);
    }
    assert(output@ =~= before + head_bytes(kind, number as nat));
}

/// Appends a text, given by its bytes.
pub(crate) fn push_text(output: &mut Vec<u8>, text: &[u8])
    ensures
        final(output)@ == old(output)@ + text_bytes(text@),
{
    push_head(output, TEXT, text.len() as u64);
    let ghost before = output@;
    output.extend_from_slice(text);
    assert(output@ =~= before + text@);
    assert(output@ =~= old(output)@ + text_bytes(text@));
}

/// Appends an array of small numbers.
pub(crate) fn push_byte_array(output: &mut Vec<u8>, numbers: &[u8])
    ensures
        final(output)@ == old(output)@ + byte_array_bytes(numbers@),
{
    push_head(output, ARRAY, numbers.len() as u64);
    let ghost before = output@;
    let mut i: usize = 0;
    assert(output@ =~= before + numbers_bytes(numbers@.take(0)));
    while i < numbers.len()
        invariant
            i <= numbers@.len(),
            output@ == before + numbers_bytes(numbers@.take(i as int)),
        decreases numbers@.len() - i,
    {
        push_head(output, UNSIGNED, numbers[i] as u64);
        assert(numbers@.take(i + 1).drop_last() =~= numbers@.take(i as int));
        assert(output@ =~= before + numbers_bytes(numbers@.take(i + 1)));
        i += 1;
    }
    assert(numbers@.take(i as int) =~= numbers@);
    assert(output@ =~= old(output)@ + byte_array_bytes(numbers@));
}

} // verus!
