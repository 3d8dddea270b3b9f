//! Values that are numbers which never decrease.

use super::{ValueReader, ValueWriter};
use crate::vint::{deserialize_read, serialize_into_vec};
use crate::SSTableDataCorruption;
use vstd::prelude::*;

verus! {

/// No value is smaller than one that comes before it.
pub open spec fn nondecreasing(vals: Seq<u64>) -> bool {
    forall|i: int, j: int| 0 <= i <= j < vals.len() ==> #[trigger] vals[i] <= #[trigger] vals[j]
}

/// Each value as its distance from the one before, the first one from `prev`.
pub open spec fn deltas_bytes(prev: u64, vals: Seq<u64>) -> Seq<u8>
    decreases vals.len(),
{
    if vals.len() == 0 {
        Seq::empty()
    } else {
        crate::vint::vint_bytes((vals[0] - prev) as nat) + deltas_bytes(vals[0], vals.drop_first())
    }
}

/// The number of values, then the values as distances.
pub open spec fn u64s_bytes(vals: Seq<u64>) -> Seq<u8> {
    crate::vint::vint_bytes(vals.len()) + deltas_bytes(0, vals)
}

/// Reads `count` values from their distances; also tells how many bytes they take.
pub open spec fn deltas_at(data: Seq<u8>, prev: u64, count: nat) -> Option<(Seq<u64>, nat)>
    decreases count,
{
    if count == 0 {
        Some((Seq::empty(), 0))
    } else {
        match crate::vint::vint_at(data) {
            Some((delta, len)) => if prev + delta <= u64::MAX {
                let val = (prev + delta) as u64;
                match deltas_at(data.skip(len as int), val, (count - 1) as nat) {
                    Some((vals, rest_len)) => Some((seq![val] + vals, len + rest_len)),
                    None => None,
                }
            } else {
                None
            },
            None => None,
        }
    }
}

/// Reads a number of values, then the values; also tells how many bytes all of it takes.
pub open spec fn u64s_at(data: Seq<u8>) -> Option<(Seq<u64>, nat)> {
    match crate::vint::vint_at(data) {
        Some((count, len)) => match deltas_at(data.skip(len as int), 0, count as nat) {
            Some((vals, rest_len)) => Some((vals, len + rest_len)),
            None => None,
        },
        None => None,
    }
}

pub(super) proof fn lemma_deltas_at_len(data: Seq<u8>, prev: u64, count: nat)
    ensures
        deltas_at(data, prev, count) matches Some((vals, len)) ==> len <= data.len() && vals.len() == count,
    decreases count,
{
    if count > 0 {
        crate::vint::lemma_vint_at_len(data);
        if let Some((delta, len)) = crate::vint::vint_at(data) {
            if prev + delta <= u64::MAX {
                lemma_deltas_at_len(data.skip(len as int), (prev + delta) as u64, (count - 1) as nat);
            }
        }
    }
}

pub(super) proof fn lemma_u64s_at_len(data: Seq<u8>)
    ensures
        u64s_at(data) matches Some((_, len)) ==> len <= data.len(),
{
    crate::vint::lemma_vint_at_len(data);
    if let Some((count, len)) = crate::vint::vint_at(data) {
        lemma_deltas_at_len(data.skip(len as int), 0, count as nat);
    }
}

proof fn lemma_deltas_round_trip(prev: u64, vals: Seq<u64>, rest: Seq<u8>)
    requires
        nondecreasing(vals),
        vals.len() > 0 ==> prev <= vals[0],
    ensures
        deltas_at(deltas_bytes(prev, vals) + rest, prev, vals.len()) == Some(
            (vals, deltas_bytes(prev, vals).len()),
        ),
    decreases vals.len(),
{
    let data = deltas_bytes(prev, vals) + rest;
    if vals.len() == 0 {
        assert(vals =~= Seq::empty());
    } else {
        let tail = vals.drop_first();
        let first = crate::vint::vint_bytes((vals[0] - prev) as nat);
        let after = deltas_bytes(vals[0], tail) + rest;
        assert(data =~= first + after);
        crate::vint::lemma_vint_round_trip((vals[0] - prev) as u64, after);
        assert(data.skip(first.len() as int) =~= after);
        lemma_deltas_round_trip(vals[0], tail, rest);
        assert(vals =~= seq![vals[0]] + tail);
    }
}

/// Reading gives back the values that were written, whatever follows them.
pub(crate) proof fn lemma_u64s_round_trip(vals: Seq<u64>, rest: Seq<u8>)
    requires
        nondecreasing(vals),
        vals.len() <= u64::MAX,
    ensures
        u64s_at(u64s_bytes(vals) + rest) == Some((vals, u64s_bytes(vals).len())),
{
    let head = crate::vint::vint_bytes(vals.len());
    let after = deltas_bytes(0, vals) + rest;
    let data = u64s_bytes(vals) + rest;
    assert(data =~= head + after);
    crate::vint::lemma_vint_round_trip(vals.len() as u64, after);
    assert(data.skip(head.len() as int) =~= after);
    lemma_deltas_round_trip(0, vals, rest);
}

proof fn lemma_deltas_bytes_len(prev: u64, vals: Seq<u64>)
    requires
        nondecreasing(vals),
        vals.len() > 0 ==> prev <= vals[0],
    ensures
        deltas_bytes(prev, vals).len() <= 10 * vals.len(),
    decreases vals.len(),
{
    if vals.len() > 0 {
        crate::vint::lemma_vint_bytes_len((vals[0] - prev) as nat);
        lemma_deltas_bytes_len(vals[0], vals.drop_first());
    }
}

/// Each value takes at most ten bytes, and so does their number.
pub(crate) proof fn lemma_u64s_bytes_len(vals: Seq<u64>)
    requires
        nondecreasing(vals),
        vals.len() <= u64::MAX,
    ensures
        u64s_bytes(vals).len() <= 10 * (vals.len() + 1),
{
    crate::vint::lemma_vint_bytes_len(vals.len());
    lemma_deltas_bytes_len(0, vals);
}

/// Appends the number of values, then the values as distances.
pub(super) fn serialize_u64s(vals: &Vec<u64>, output: &mut Vec<u8>)
    requires
        nondecreasing(vals@),
    ensures
        final(output)@ == old(output)@ + u64s_bytes(vals@),
{
    serialize_into_vec(vals.len() as u64, output);
    let mut prev: u64 = 0;
    let mut i: usize = 0;
    assert(vals@.skip(0) =~= vals@);
    assert(output@ + deltas_bytes(prev, vals@.skip(0)) =~= old(output)@ + u64s_bytes(vals@));
    while i < vals.len()
        invariant
            i <= vals@.len(),
            nondecreasing(vals@),
            prev == if i == 0 { 0 } else { vals@[i - 1] },
            output@ + deltas_bytes(prev, vals@.skip(i as int)) == old(output)@ + u64s_bytes(vals@),
        decreases vals@.len() - i,
    {
        let val = vals[i];
        let ghost before = output@;
        let ghost left = vals@.skip(i as int);
        serialize_into_vec(val - prev, output);
        assert(left.drop_first() =~= vals@.skip(i + 1));
        assert(output@ + deltas_bytes(val, vals@.skip(i + 1)) =~= before + deltas_bytes(prev, left));
        prev = val;
        i += 1;
    }
    assert(output@ =~= output@ + deltas_bytes(prev, vals@.skip(i as int)));
}

/// Reads a number of values, then the values; also returns how many bytes all of it takes.
pub(super) fn deserialize_u64s(data: &[u8]) -> (result: Result<(Vec<u64>, usize), SSTableDataCorruption>)
    ensures
        match result {
            Ok((vals, len)) => u64s_at(data@) == Some((vals@, len as nat)),
            Err(_) => u64s_at(data@) is None,
        },
{
    let (count, head_len) = match deserialize_read(data) {
        Ok(head) => head,
        Err(err) => return Err(err),
    };
    let mut vals: Vec<u64> = Vec::new();
    let mut pos: usize = head_len;
    let mut prev: u64 = 0;
    let mut left: u64 = count;
    let ghost all = deltas_at(data@.skip(head_len as int), 0, count as nat);
    while left > 0
        invariant
            head_len <= pos <= data@.len(),
            match deltas_at(data@.skip(pos as int), prev, left as nat) {
                Some((rest, len)) => all == Some((vals@ + rest, (pos - head_len + len) as nat)),
                None => all is None,
            },
            crate::vint::vint_at(data@) == Some((count, head_len as nat)),
            all == deltas_at(data@.skip(head_len as int), 0, count as nat),
        decreases left,
    {
        let rest = vstd::slice::slice_subrange(data, pos, data.len());
        assert(rest@ =~= data@.skip(pos as int));
        let (delta, len) = match deserialize_read(rest) {
            Ok(head) => head,
            Err(err) => return Err(err),
        };
        if delta > u64::MAX - prev {
            return Err(SSTableDataCorruption);
        }
        let val = prev + delta;
        assert(rest@.skip(len as int) =~= data@.skip(pos + len));
        let ghost before = vals@;
        vals.push(val);
        proof {
            if let Some((tail, tail_len)) = deltas_at(data@.skip(pos + len), val, (left - 1) as nat) {
                assert(before + (seq![val] + tail) =~= vals@ + tail);
            }
        }
        prev = val;
        pos += len;
        left -= 1;
    }
    assert(vals@ + Seq::<u64>::empty() =~= vals@);
    Ok((vals, pos))
}

/// Reads `u64` values that never decrease.
pub struct U64MonotonicValueReader {
    vals: Vec<u64>,
}

impl ValueReader for U64MonotonicValueReader {
    type Value = u64;

    open spec fn values_len(data: Seq<u8>) -> Option<nat> {
        match u64s_at(data) {
            Some((_, len)) => Some(len),
            None => None,
        }
    }

    open spec fn value_in(data: Seq<u8>, idx: nat) -> Option<u64> {
        match u64s_at(data) {
            Some((vals, _)) => if idx < vals.len() {
                Some(vals[idx as int])
            } else {
                None
            },
            None => None,
        }
    }

    closed spec fn loaded(&self, idx: nat) -> Option<u64> {
        if idx < self.vals@.len() {
            Some(self.vals@[idx as int])
        } else {
            None
        }
    }

    proof fn lemma_values_len_bound(data: Seq<u8>) {
        lemma_u64s_at_len(data);
    }

    fn empty() -> (reader: Self) {
        U64MonotonicValueReader { vals: Vec::new() }
    }

    fn has_value(&self, idx: usize) -> (has: bool) {
        idx < self.vals.len()
    }

    fn value(&self, idx: usize) -> (value: &u64) {
        &self.vals[idx]
    }

    fn load(&mut self, data: &[u8]) -> (consumed: Result<usize, SSTableDataCorruption>) {
        match deserialize_u64s(data) {
            Ok((vals, len)) => {
                self.vals = vals;
                Ok(len)
            },
            Err(err) => Err(err),
        }
    }
}

/// Writes `u64` values that never decrease.
pub struct U64MonotonicValueWriter {
    vals: Vec<u64>,
}

impl ValueWriter for U64MonotonicValueWriter {
    type Value = u64;

    closed spec fn values(&self) -> Seq<u64> {
        self.vals@
    }

    open spec fn writable(values: Seq<u64>) -> bool {
        nondecreasing(values)
    }

    open spec fn encoded(values: Seq<u64>) -> Seq<u8> {
        u64s_bytes(values)
    }

    proof fn lemma_writable_subrange(values: Seq<u64>, start: int, end: int) {
    }

    fn empty() -> (writer: Self) {
        U64MonotonicValueWriter { vals: Vec::new() }
    }

    fn accepts(&self, val: &u64) -> (accepted: bool) {
        let len = self.vals.len();
        let accepted = len == 0 || self.vals[len - 1] <= *val;
        proof {
            let pushed = self.vals@.push(*val);
            if accepted {
                assert(nondecreasing(pushed));
            } else {
                assert(pushed[len - 1] > pushed[len as int]);
            }
        }
        accepted
    }

    fn write(&mut self, val: &u64) {
        self.vals.push(*val);
    }

    fn serialize_block(&self, output: &mut Vec<u8>) {
        serialize_u64s(&self.vals, output);
    }

    fn clear(&mut self) {
        self.vals.clear();
    }
}

} // verus!
