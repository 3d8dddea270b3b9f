//! How the values of a block are written and read back.

use crate::SSTableDataCorruption;
use vstd::prelude::*;

pub mod range;
pub mod u64_monotonic;
pub mod void;

pub use range::{RangeValueReader, RangeValueWriter};
pub use u64_monotonic::{U64MonotonicValueReader, U64MonotonicValueWriter};
pub use void::{VoidValueReader, VoidValueWriter};

verus! {

/// Reads the values of one block at a time.
pub trait ValueReader: Sized {
    /// Type of the value being read.
    type Value;

    /// How many bytes the values take at the start of the block `data`; `None` where they are
    /// malformed.
    spec fn values_len(data: Seq<u8>) -> Option<nat>;

    /// The value number `idx` of the block `data`, if the block has one.
    spec fn value_in(data: Seq<u8>, idx: nat) -> Option<Self::Value>;

    /// The value number `idx` of the block that was loaded last.
    spec fn loaded(&self, idx: nat) -> Option<Self::Value>;

    /// The values are part of the block.
    proof fn lemma_values_len_bound(data: Seq<u8>)
        ensures
            Self::values_len(data) matches Some(len) ==> len <= data.len(),
    ;

    /// A reader that holds the values of an empty block.
    fn empty() -> (reader: Self)
        ensures
            forall|idx: nat| #[trigger] reader.loaded(idx) == Self::value_in(Seq::empty(), idx),
    ;

    /// Tells whether the last block that was loaded has a value number `idx`.
    fn has_value(&self, idx: usize) -> (has: bool)
        ensures
            has == (self.loaded(idx as nat) is Some),
    ;

    /// Access the value at index `idx`, in the last block that was loaded
    /// via a call to `ValueReader::load`.
    fn value(&self, idx: usize) -> (value: &Self::Value)
        requires
            self.loaded(idx as nat) is Some,
        ensures
            self.loaded(idx as nat) == Some(*value),
    ;

    /// Loads a block.
    ///
    /// Returns the number of bytes that the values take. Where they are malformed, the values that
    /// were loaded before stay.
    fn load(&mut self, data: &[u8]) -> (consumed: Result<usize, SSTableDataCorruption>)
        ensures
            match consumed {
                Ok(len) => {
                    &&& Self::values_len(data@) == Some(len as nat)
                    &&& forall|idx: nat| #[trigger] final(self).loaded(idx) == Self::value_in(data@, idx)
                },
                Err(_) => Self::values_len(data@) is None && *final(self) == *old(self),
            },
    ;
}

/// Accumulates the values of one block, then serializes them.
pub trait ValueWriter: Sized {
    /// Type of the value being written.
    type Value;

    /// The values that were recorded and not cleared.
    spec fn values(&self) -> Seq<Self::Value>;

    /// These values can be written in one block.
    spec fn writable(values: Seq<Self::Value>) -> bool;

    /// The bytes of a block's values.
    spec fn encoded(values: Seq<Self::Value>) -> Seq<u8>;

    /// No values at all can be written, and so can consecutive values out of a writable run.
    proof fn lemma_writable_subrange(values: Seq<Self::Value>, start: int, end: int)
        ensures
            Self::writable(Seq::empty()),
            Self::writable(values) && 0 <= start <= end <= values.len() ==> Self::writable(
                values.subrange(start, end),
            ),
    ;

    /// A writer that has recorded nothing.
    fn empty() -> (writer: Self)
        ensures
            writer.values() == Seq::<Self::Value>::empty(),
    ;

    /// Tells whether `val` can be recorded after the values recorded so far.
    fn accepts(&self, val: &Self::Value) -> (accepted: bool)
        requires
            Self::writable(self.values()),
        ensures
            accepted == Self::writable(self.values().push(*val)),
    ;

    /// Records a new value.
    /// This method usually just accumulates data in a `Vec`,
    /// only to be serialized on the call to [`ValueWriter::serialize_block`].
    fn write(&mut self, val: &Self::Value)
        requires
            Self::writable(old(self).values().push(*val)),
        ensures
            final(self).values() == old(self).values().push(*val),
    ;

    /// Serializes the accumulated values into the output buffer.
    fn serialize_block(&self, output: &mut Vec<u8>)
        requires
            Self::writable(self.values()),
        ensures
            final(output)@ == old(output)@ + Self::encoded(self.values()),
    ;

    /// Clears the `ValueWriter`. After a call to clear the `ValueWriter`
    /// should behave like a fresh one.
    fn clear(&mut self)
        ensures
            final(self).values() == Seq::<Self::Value>::empty(),
    ;
}

} // verus!
