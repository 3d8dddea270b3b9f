//! Values that are ranges, each starting where the one before ends.

use super::u64_monotonic::{deserialize_u64s, serialize_u64s};
use super::{ValueReader, ValueWriter};
use crate::SSTableDataCorruption;
use std::ops::Range;
use vstd::prelude::*;

verus! {

/// The ranges between consecutive offsets.
pub open spec fn ranges_of(offsets: Seq<u64>) -> Seq<Range<u64>> {
    Seq::new(
        if offsets.len() == 0 {
            0
        } else {
            (offsets.len() - 1) as nat
        },
        |i: int| Range { start: offsets[i], end: offsets[i + 1] },
    )
}

/// Where the first range starts, then where each range ends; nothing where there is no range.
pub open spec fn offsets_of(ranges: Seq<Range<u64>>) -> Seq<u64> {
    if ranges.len() == 0 {
        Seq::empty()
    } else {
        seq![ranges[0].start] + Seq::new(ranges.len(), |i: int| ranges[i].end)
    }
}

/// No range ends before it starts, and each starts where the one before ends.
pub open spec fn ranges_partition(ranges: Seq<Range<u64>>) -> bool {
    &&& forall|i: int| 0 <= i < ranges.len() ==> (#[trigger] ranges[i]).start <= ranges[i].end
    &&& forall|i: int, j: int|
        0 <= i && j == i + 1 && j < ranges.len() ==> (#[trigger] ranges[i]).end == (#[trigger] ranges[j]).start
}

pub(crate) proof fn lemma_ranges_of_offsets_of(ranges: Seq<Range<u64>>)
    requires
        ranges_partition(ranges),
    ensures
        ranges_of(offsets_of(ranges)) == ranges,
        super::u64_monotonic::nondecreasing(offsets_of(ranges)),
        offsets_of(ranges).len() == if ranges.len() == 0 { 0 } else { ranges.len() + 1 },
{
    let offsets = offsets_of(ranges);
    assert forall|i: int| 0 <= i < ranges.len() implies ranges_of(offsets)[i] == ranges[i] by {
        if i > 0 {
            assert(ranges[i - 1].end == ranges[i].start);
        }
    }
    assert(ranges_of(offsets) =~= ranges);
    assert forall|i: int, j: int| 0 <= i <= j < offsets.len() implies #[trigger] offsets[i] <= #[trigger] offsets[j] by {
        lemma_offsets_ordered(ranges, i, j);
    }
}

proof fn lemma_offsets_ordered(ranges: Seq<Range<u64>>, i: int, j: int)
    requires
        ranges_partition(ranges),
        0 <= i <= j < offsets_of(ranges).len(),
    ensures
        offsets_of(ranges)[i] <= offsets_of(ranges)[j],
    decreases j - i,
{
    if i < j {
        lemma_offsets_ordered(ranges, i, j - 1);
        assert(offsets_of(ranges)[j] == ranges[j - 1].end);
        if j > 1 {
            assert(ranges[j - 2].end == ranges[j - 1].start);
        }
    }
}

/// Reads ranges that partition the space.
pub struct RangeValueReader {
    vals: Vec<Range<u64>>,
}

impl ValueReader for RangeValueReader {
    type Value = Range<u64>;

    open spec fn values_len(data: Seq<u8>) -> Option<nat> {
        match super::u64_monotonic::u64s_at(data) {
            Some((_, len)) => Some(len),
            None => None,
        }
    }

    open spec fn value_in(data: Seq<u8>, idx: nat) -> Option<Range<u64>> {
        match super::u64_monotonic::u64s_at(data) {
            Some((offsets, _)) => if idx + 1 < offsets.len() {
                Some(ranges_of(offsets)[idx as int])
            } else {
                None
            },
            None => None,
        }
    }

    closed spec fn loaded(&self, idx: nat) -> Option<Range<u64>> {
        if idx < self.vals@.len() {
            Some(self.vals@[idx as int])
        } else {
            None
        }
    }

    proof fn lemma_values_len_bound(data: Seq<u8>) {
        super::u64_monotonic::lemma_u64s_at_len(data);
    }

    fn empty() -> (reader: Self) {
        RangeValueReader { vals: Vec::new() }
    }

    fn has_value(&self, idx: usize) -> (has: bool) {
        idx < self.vals.len()
    }

    fn value(&self, idx: usize) -> (value: &Range<u64>) {
        &self.vals[idx]
    }

    fn load(&mut self, data: &[u8]) -> (consumed: Result<usize, SSTableDataCorruption>) {
        let (offsets, len) = match deserialize_u64s(data) {
            Ok(parsed) => parsed,
            Err(err) => return Err(err),
        };
        let mut vals: Vec<Range<u64>> = Vec::new();
        let mut i: usize = 1;
        while i < offsets.len()
            invariant
                1 <= i,
                vals@.len() == i - 1,
                offsets@.len() > 0 ==> i <= offsets@.len(),
                offsets@.len() == 0 ==> i == 1,
                forall|j: int| 0 <= j < vals@.len() ==> #[trigger] vals@[j] == ranges_of(offsets@)[j],
            decreases offsets@.len() - i,
        {
            vals.push(Range { start: offsets[i - 1], end: offsets[i] });
            i += 1;
        }
        self.vals = vals;
        Ok(len)
    }
}

/// Writes ranges that partition the space.
pub struct RangeValueWriter {
    offsets: Vec<u64>,
}

impl ValueWriter for RangeValueWriter {
    type Value = Range<u64>;

    closed spec fn values(&self) -> Seq<Range<u64>> {
        ranges_of(self.offsets@)
    }

    open spec fn writable(values: Seq<Range<u64>>) -> bool {
        ranges_partition(values)
    }

    open spec fn encoded(values: Seq<Range<u64>>) -> Seq<u8> {
        super::u64_monotonic::u64s_bytes(offsets_of(values))
    }

    proof fn lemma_writable_subrange(values: Seq<Range<u64>>, start: int, end: int) {
    }

    fn empty() -> (writer: Self) {
        let writer = RangeValueWriter { offsets: Vec::new() };
        assert(writer.values() =~= Seq::empty());
        writer
    }

    fn accepts(&self, val: &Range<u64>) -> (accepted: bool) {
        let len = self.offsets.len();
        let accepted = val.start <= val.end && (len <= 1 || self.offsets[len - 1] == val.start);
        proof {
            let pushed = self.values().push(*val);
            let n = self.values().len() as int;
            assert(pushed[n] == *val);
            if n > 0 {
                assert(pushed[n - 1].end == self.offsets@[len - 1]);
            }
            if accepted {
                assert forall|i: int, j: int| 0 <= i && j == i + 1 && j < pushed.len() implies (
                #[trigger] pushed[i]).end == (#[trigger] pushed[j]).start by {
                    if j < n {
                        assert(self.values()[i].end == self.values()[j].start);
                    }
                }
                assert forall|i: int| 0 <= i < pushed.len() implies (#[trigger] pushed[i]).start
                    <= pushed[i].end by {
                    if i < n {
                        assert(self.values()[i].start <= self.values()[i].end);
                    }
                }
            }
        }
        accepted
    }

    fn write(&mut self, val: &Range<u64>) {
        let ghost before = self.values();
        proof {
            let n = before.len() as int;
            assert(before.push(*val)[n] == *val);
            if n > 0 {
                assert(before.push(*val)[n - 1].end == before.push(*val)[n].start);
            }
        }
        if self.offsets.len() <= 1 {
            self.offsets.clear();
            self.offsets.push(val.start);
        }
        self.offsets.push(val.end);
        assert(self.values() =~= before.push(*val));
    }

    fn serialize_block(&self, output: &mut Vec<u8>) {
        proof {
            lemma_ranges_of_offsets_of(self.values());
        }
        if self.offsets.len() <= 1 {
            let none: Vec<u64> = Vec::new();
            assert(offsets_of(self.values()) =~= none@);
            serialize_u64s(&none, output);
        } else {
            assert(offsets_of(self.values()) =~= self.offsets@);
            serialize_u64s(&self.offsets, output);
        }
    }

    fn clear(&mut self) {
        self.offsets.clear();
        assert(self.values() =~= Seq::empty());
    }
}

} // verus!
