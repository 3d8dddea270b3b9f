//! No values at all.

use super::{ValueReader, ValueWriter};
use crate::SSTableDataCorruption;
use vstd::prelude::*;

verus! {

/// Reads values that take no bytes. Every key has one.
pub struct VoidValueReader;

impl ValueReader for VoidValueReader {
    type Value = ();

    open spec fn values_len(data: Seq<u8>) -> Option<nat> {
        Some(0)
    }

    open spec fn value_in(data: Seq<u8>, idx: nat) -> Option<()> {
        Some(())
    }

    open spec fn loaded(&self, idx: nat) -> Option<()> {
        Some(())
    }

    proof fn lemma_values_len_bound(data: Seq<u8>) {
    }

    fn empty() -> (reader: Self) {
        VoidValueReader
    }

    fn has_value(&self, _idx: usize) -> (has: bool) {
        true
    }

    fn value(&self, _idx: usize) -> (value: &()) {
        &()
    }

    fn load(&mut self, _data: &[u8]) -> (consumed: Result<usize, SSTableDataCorruption>) {
        Ok(0)
    }
}

/// Writes values that take no bytes.
pub struct VoidValueWriter {
    recorded: Ghost<Seq<()>>,
}

impl ValueWriter for VoidValueWriter {
    type Value = ();

    closed spec fn values(&self) -> Seq<()> {
        self.recorded@
    }

    open spec fn writable(values: Seq<()>) -> bool {
        true
    }

    open spec fn encoded(values: Seq<()>) -> Seq<u8> {
        Seq::empty()
    }

    proof fn lemma_writable_subrange(values: Seq<()>, start: int, end: int) {
    }

    fn empty() -> (writer: Self) {
        VoidValueWriter { recorded: Ghost(Seq::empty()) }
    }

    fn accepts(&self, _val: &()) -> (accepted: bool) {
        true
    }

    fn write(&mut self, val: &()) {
        self.recorded = Ghost(self.recorded@.push(*val));
    }

    fn serialize_block(&self, output: &mut Vec<u8>) {
        assert(output@ =~= output@ + Self::encoded(self.values()));
    }

    fn clear(&mut self) {
        self.recorded = Ghost(Seq::empty());
    }
}

} // verus!
