//! Variable-length integers: seven bits per byte, the least significant ones first. The highest
//! bit of a byte tells that another byte follows.

use crate::SSTableDataCorruption;
use vstd::prelude::*;

verus! {

/// The encoding of `value`.
pub open spec fn vint_bytes(value: nat) -> Seq<u8>
    decreases value,
{
    if value < 128 {
        seq![value as u8]
    } else {
        seq![(value % 128 + 128) as u8] + vint_bytes(value / 128)
    }
}

/// The number at the start of `data`, of any size, and how many bytes it takes; `None` where
/// `data` ends before the number does.
pub open spec fn vint_any_size(data: Seq<u8>) -> Option<(nat, nat)>
    decreases data.len(),
{
    if data.len() == 0 {
        None
    } else if data[0] < 128 {
        Some((data[0] as nat, 1))
    } else {
        match vint_any_size(data.drop_first()) {
            Some((high, len)) => Some(((data[0] - 128) as nat + 128 * high, 1 + len)),
            None => None,
        }
    }
}

/// The number at the start of `data` and how many bytes it takes; `None` where `data` ends before
/// the number does, or the number needs more than 64 bits.
pub open spec fn vint_at(data: Seq<u8>) -> Option<(u64, nat)> {
    match vint_any_size(data) {
        Some((value, len)) => if value <= u64::MAX {
            Some((value as u64, len))
        } else {
            None
        },
        None => None,
    }
}

pub proof fn lemma_vint_at_len(data: Seq<u8>)
    ensures
        vint_any_size(data) matches Some((_, len)) ==> 1 <= len <= data.len(),
        vint_at(data) matches Some((_, len)) ==> 1 <= len <= data.len(),
    decreases data.len(),
{
    if data.len() > 0 {
        lemma_vint_at_len(data.drop_first());
    }
}

/// Decoding gives back the number that was encoded, whatever follows it.
pub proof fn lemma_vint_round_trip(value: u64, rest: Seq<u8>)
    ensures
        vint_at(vint_bytes(value as nat) + rest) == Some((value, vint_bytes(value as nat).len())),
{
    lemma_vint_any_size_round_trip(value as nat, rest);
}

proof fn lemma_vint_any_size_round_trip(value: nat, rest: Seq<u8>)
    ensures
        vint_any_size(vint_bytes(value) + rest) == Some((value, vint_bytes(value).len())),
    decreases value,
{
    let data = vint_bytes(value) + rest;
    if value >= 128 {
        lemma_vint_any_size_round_trip(value / 128, rest);
        assert(data.drop_first() =~= vint_bytes(value / 128) + rest);
    }
}

/// A number of 64 bits takes at most ten bytes.
pub proof fn lemma_vint_bytes_len(value: nat)
    ensures
        1 <= vint_bytes(value).len(),
        value <= u64::MAX ==> vint_bytes(value).len() <= 10,
{
    reveal_with_fuel(vint_bytes, 11);
}

/// Appends the encoding of `value`.
pub(crate) fn serialize_into_vec(value: u64, output: &mut Vec<u8>)
    ensures
        final(output)@ == old(output)@ + vint_bytes(value as nat),
{
    let mut rest: u64 = value;
    while rest >= 128
        invariant
            output@ + vint_bytes(rest as nat) == old(output)@ + vint_bytes(value as nat),
        decreases rest,
    {
        let ghost before = output@;
        output.push((rest % 128 + 128) as u8);
        assert(output@ + vint_bytes((rest / 128) as nat) =~= before + vint_bytes(rest as nat));
        rest = rest / 128;
    }
    let ghost before = output@;
    output.push(rest as u8);
    assert(output@ =~= before + vint_bytes(rest as nat));
}

/// Reads the number at the start of `data`; returns it with the number of bytes it takes.
pub(crate) fn deserialize_read(data: &[u8]) -> (result: Result<(u64, usize), SSTableDataCorruption>)
    ensures
        match result {
            Ok((value, len)) => vint_at(data@) == Some((value, len as nat)),
            Err(_) => vint_at(data@) is None,
        },
        result matches Ok((_, len)) ==> 1 <= len <= data@.len(),
{
    let mut end: usize = 0;
    while end < data.len() && data[end] >= 128
        invariant
            end <= data@.len(),
            forall|i: int| 0 <= i < end ==> data@[i] >= 128,
        decreases data@.len() - end,
    {
        end += 1;
    }
    proof {
        lemma_vint_end(data@, end as int);
        lemma_vint_at_len(data@);
    }
    if end == data.len() {
        return Err(SSTableDataCorruption);
    }
    let mut value: u64 = data[end] as u64;
    let mut pos: usize = end;
    assert(vint_any_size(data@.skip(pos as int)) == Some((value as nat, (end - pos + 1) as nat)));
    while pos > 0
        invariant
            pos <= end < data@.len(),
            forall|i: int| 0 <= i < end ==> data@[i] >= 128,
            vint_any_size(data@.skip(pos as int)) == Some((value as nat, (end - pos + 1) as nat)),
        decreases pos,
    {
        let low: u64 = (data[pos - 1] - 128) as u64;
        assert(data@.skip(pos - 1).drop_first() =~= data@.skip(pos as int));
        assert(vint_any_size(data@.skip(pos - 1)) == Some(
            (low as nat + 128 * value as nat, (end - pos + 2) as nat),
        ));
        if value > (u64::MAX - low) / 128 {
            proof {
                lemma_vint_prefix_too_large(data@, pos - 1);
            }
            return Err(SSTableDataCorruption);
        }
        value = low + 128 * value;
        pos -= 1;
    }
    assert(data@.skip(0) =~= data@);
    Ok((value, end + 1))
}

/// The number ends at the first byte whose highest bit is clear.
proof fn lemma_vint_end(data: Seq<u8>, end: int)
    requires
        0 <= end <= data.len(),
        forall|i: int| 0 <= i < end ==> data[i] >= 128,
        end < data.len() ==> data[end] < 128,
    ensures
        vint_any_size(data) is None <==> end == data.len(),
    decreases data.len(),
{
    if data.len() > 0 && end > 0 {
        assert forall|i: int| 0 <= i < end - 1 implies data.drop_first()[i] >= 128 by {
            assert(data[i + 1] >= 128);
        }
        lemma_vint_end(data.drop_first(), end - 1);
    }
}

/// A number whose high part does not fit does not fit either.
proof fn lemma_vint_prefix_too_large(data: Seq<u8>, pos: int)
    requires
        0 <= pos < data.len(),
        forall|i: int| 0 <= i < pos ==> data[i] >= 128,
        vint_any_size(data.skip(pos)) matches Some((value, _)) && value > u64::MAX,
    ensures
        vint_at(data) is None,
    decreases pos,
{
    if pos > 0 {
        assert(data.skip(pos - 1).drop_first() =~= data.skip(pos));
        lemma_vint_prefix_too_large(data, pos - 1);
    } else {
        assert(data.skip(0) =~= data);
    }
}

} // verus!
