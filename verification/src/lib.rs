//! Sorted string tables: an immutable, sorted mapping from byte-string keys to typed values,
//! laid out as delta-encoded blocks followed by a block index.

use crate::merge::{is_mergeable, merge_sstable, MergeError, ValueMerger};
use crate::value::{RangeValueReader, RangeValueWriter};
use crate::value::{U64MonotonicValueReader, U64MonotonicValueWriter, ValueReader, ValueWriter};
use std::ops::Range;
use vstd::prelude::*;

pub mod block_reader;
pub mod cbor;
pub mod delta;
pub mod entry_laws;
pub mod fixed_int;
pub mod format_laws;
pub mod index_laws;
pub mod index_reading;
pub mod laws;
pub mod merge;
pub mod merge_laws;
pub mod order;
pub mod reader;
pub mod sstable_index;
pub mod table;
pub mod value;
pub mod vint;
pub mod writer;

pub use block_reader::BlockReader;
pub use delta::{DeltaReader, DeltaWriter};
pub use merge::VoidMerge;
pub use order::common_prefix_len;
pub use reader::Reader;
pub use sstable_index::{BlockAddr, SSTableIndex, SSTableIndexBuilder};
pub use writer::Writer;

verus! {

/// The rank of a key in its table.
pub type TermOrdinal = u64;

/// The bytes of a table do not follow the table format.
#[derive(Debug, Copy, Clone)]
pub struct SSTableDataCorruption;

/// SSTable makes it possible to read and write
/// sstables with typed values.
pub trait SSTable: Sized {
    type Value;

    type ValueReader: ValueReader<Value = Self::Value>;

    type ValueWriter: ValueWriter<Value = Self::Value>;

    /// Reading gives back the values of a block, whatever follows them.
    proof fn lemma_values_round_trip(values: Seq<Self::Value>, rest: Seq<u8>)
        requires
            <Self::ValueWriter as ValueWriter>::writable(values),
            values.len() < u64::MAX,
        ensures
            ({
                let bytes = <Self::ValueWriter as ValueWriter>::encoded(values);
                &&& <Self::ValueReader as ValueReader>::values_len(bytes + rest) == Some(bytes.len())
                &&& forall|idx: nat|
                    idx < values.len() ==> #[trigger] <Self::ValueReader as ValueReader>::value_in(bytes + rest, idx)
                        == Some(values[idx as int])
            }),
    ;

    fn delta_writer(write: Vec<u8>) -> (writer: DeltaWriter<Self::ValueWriter>)
        ensures
            writer.wf(),
            writer@ == crate::delta::DeltaOutput::<Self::Value>::over(write@),
    {
        DeltaWriter::new(write)
    }

    fn writer(wrt: Vec<u8>) -> (writer: Writer<Self::ValueWriter>)
        ensures
            writer.wf(),
            writer@ == crate::writer::TableState::<Self::Value>::over(wrt@),
    {
        Writer::new(wrt)
    }

    fn delta_reader<'a>(reader: &'a [u8]) -> (delta_reader: DeltaReader<'a, Self::ValueReader>)
        ensures
            delta_reader.wf(),
            delta_reader@ == crate::delta::DeltaPosition::before(reader@),
    {
        DeltaReader::new(reader)
    }

    fn reader<'a>(reader: &'a [u8]) -> (table_reader: Reader<'a, Self::ValueReader>)
        ensures
            table_reader.wf(),
            table_reader@ == crate::reader::TablePosition::before(reader@),
    {
        Reader::over(Self::delta_reader(reader))
    }

    /// Returns an empty static reader.
    fn create_empty_reader() -> (table_reader: Reader<'static, Self::ValueReader>)
        ensures
            table_reader.wf(),
            table_reader@ == crate::reader::TablePosition::before(Seq::empty()),
            table_reader@.next::<Self::ValueReader>() is End,
    {
        let none: &'static [u8] = &[];
        assert(none@ =~= Seq::empty());
        Self::reader(none)
    }

    /// Merges the tables `io_readers` into one, which is appended to `w`.
    fn merge<M: ValueMerger<Self::Value>>(io_readers: Vec<&[u8]>, w: Vec<u8>, merger: M) -> (merged: Result<
        Vec<u8>,
        MergeError,
    >)
        ensures
            match merged {
                Ok(table) => {
                    &&& crate::merge::all_mergeable::<Self::ValueReader>(io_readers@)
                    &&& exists|entries: Seq<(Seq<u8>, Self::Value)>|
                        {
                            &&& crate::merge::is_merge::<Self::Value, M::TSingleValueMerger>(
                                crate::merge::lists_in::<Self::ValueReader>(io_readers@),
                                entries,
                            )
                            &&& crate::table::accepted::<Self::ValueWriter>(entries)
                            &&& table@ == w@ + #[trigger] crate::table::table_bytes::<Self::ValueWriter>(entries)
                        }
                },
                Err(MergeError::Corrupted(_)) => !crate::merge::all_mergeable::<Self::ValueReader>(io_readers@),
                Err(MergeError::ValuesOutOfOrder) => {
                    &&& crate::merge::all_mergeable::<Self::ValueReader>(io_readers@)
                    &&& exists|entries: Seq<(Seq<u8>, Self::Value)>|
                        {
                            &&& crate::merge::starts_merge::<Self::Value, M::TSingleValueMerger>(
                                crate::merge::lists_in::<Self::ValueReader>(io_readers@),
                                entries,
                            )
                            &&& !crate::table::accepted::<Self::ValueWriter>(entries)
                            &&& !<Self::ValueWriter as ValueWriter>::writable(
                                #[trigger] crate::table::values_of(entries),
                            )
                        }
                },
            },
    {
        let mut readers: Vec<Reader<Self::ValueReader>> = Vec::new();
        let mut i: usize = 0;
        while i < io_readers.len()
            invariant
                i <= io_readers@.len(),
                readers@.len() == i,
                forall|k: int|
                    0 <= k < i ==> {
                        &&& (#[trigger] readers@[k]).wf()
                        &&& readers@[k]@ == crate::reader::TablePosition::before(io_readers@[k]@)
                    },
                forall|k: int|
                    0 <= k < i ==> crate::merge::mergeable(
                        crate::merge::scan_table::<Self::ValueReader>((#[trigger] io_readers@[k])@),
                    ),
            decreases io_readers@.len() - i,
        {
            if !is_mergeable::<Self::ValueReader>(io_readers[i]) {
                assert(!crate::merge::mergeable(
                    crate::merge::scan_table::<Self::ValueReader>(io_readers@[i as int]@),
                ));
                return Err(MergeError::Corrupted(SSTableDataCorruption));
            }
            readers.push(Self::reader(io_readers[i]));
            i += 1;
        }
        proof {
            assert forall|k: int| 0 <= k < readers@.len() implies crate::merge::mergeable(
                (#[trigger] readers@[k])@.scan::<Self::ValueReader>(),
            ) by {
                assert(crate::merge::mergeable(
                    crate::merge::scan_table::<Self::ValueReader>(io_readers@[k]@),
                ));
            }
            assert(crate::merge::lists_ahead(readers@) =~= crate::merge::lists_in::<Self::ValueReader>(io_readers@));
        }
        let writer = Self::writer(w);
        merge_sstable(readers, writer, merger)
    }
}

/// SSTable of keys without values.
pub struct VoidSSTable;

impl SSTable for VoidSSTable {
    type Value = ();

    type ValueReader = value::VoidValueReader;

    type ValueWriter = value::VoidValueWriter;

    proof fn lemma_values_round_trip(values: Seq<()>, rest: Seq<u8>) {
    }
}

/// SSTable associated keys to u64
/// sorted in order.
///
/// In other words, two keys `k1` and `k2`
/// such that `k1` <= `k2`, are required to observe
/// `range_sstable[k1] <= range_sstable[k2]`.
pub struct MonotonicU64SSTable;

impl SSTable for MonotonicU64SSTable {
    type Value = u64;

    type ValueReader = U64MonotonicValueReader;

    type ValueWriter = U64MonotonicValueWriter;

    proof fn lemma_values_round_trip(values: Seq<u64>, rest: Seq<u8>) {
        value::u64_monotonic::lemma_u64s_round_trip(values, rest);
    }
}

/// SSTable associating keys to ranges.
/// The range are required to partition the
/// space.
///
/// In other words, two consecutive keys `k1` and `k2`
/// are required to observe
/// `range_sstable[k1].end == range_sstable[k2].start`.
///
/// The first range is not required to start at `0`.
pub struct RangeSSTable;

impl SSTable for RangeSSTable {
    type Value = Range<u64>;

    type ValueReader = RangeValueReader;

    type ValueWriter = RangeValueWriter;

    proof fn lemma_values_round_trip(values: Seq<Range<u64>>, rest: Seq<u8>) {
        value::range::lemma_ranges_of_offsets_of(values);
        value::u64_monotonic::lemma_u64s_round_trip(value::range::offsets_of(values), rest);
    }
}

} // verus!
