//! Writes a table: keys go in, in order, and the bytes of the table come out.

use crate::delta::{DeltaOutput, DeltaWriter, BLOCK_LEN};
use crate::order::{common_prefix_len, is_less};
use crate::sstable_index::{IndexedBlock, SSTableIndexBuilder};
use crate::value::ValueWriter;
use std::convert::Infallible;
use vstd::prelude::*;
use vstd::slice::slice_subrange;

verus! {

pub(crate) const DEFAULT_KEY_CAPACITY: usize = 50;

/// A table that is being written.
#[verifier::ext_equal]
pub struct TableState<V> {
    /// The blocks.
    pub delta: DeltaOutput<V>,
    /// The index of the closed blocks.
    pub index: Seq<IndexedBlock>,
    /// The last key of the open block; empty where the block has no key.
    pub last_key: Seq<u8>,
    /// How many values were written.
    pub num_terms: nat,
    /// How many values come before the open block.
    pub first_ordinal: nat,
}

impl<V> TableState<V> {
    /// An empty table, which is appended to `held`.
    pub open spec fn over(held: Seq<u8>) -> Self {
        TableState {
            delta: DeltaOutput::over(held),
            index: Seq::empty(),
            last_key: Seq::empty(),
            num_terms: 0,
            first_ordinal: 0,
        }
    }

    /// The open block has no value yet.
    pub open spec fn at_block_start(self) -> bool {
        self.first_ordinal == self.num_terms
    }

    /// `key` comes after the keys that are there, or is the empty key again where the open block has
    /// that key alone.
    pub open spec fn accepts_key(self, key: Seq<u8>) -> bool {
        &&& self.at_block_start() ==> crate::sstable_index::follows_last_block(self.index, key)
        &&& self.last_key.len() == 0 || crate::order::lex_lt(self.last_key, key)
    }

    /// `value` can be written after the values of the open block, and counted.
    pub open spec fn accepts_value<VW: ValueWriter<Value = V>>(self, value: V) -> bool {
        &&& VW::writable(self.delta.values.push(value))
        &&& self.num_terms < u64::MAX
    }

    /// The table with one more key. The first key of a block shortens the key that the index has
    /// for the block before.
    pub open spec fn with_key(self, key: Seq<u8>) -> Self {
        let keep = crate::order::common_prefix(self.last_key, key);
        TableState {
            delta: self.delta.with_suffix(keep, key.skip(keep as int)),
            index: if self.at_block_start() {
                crate::sstable_index::with_last_shortened(self.index, key)
            } else {
                self.index
            },
            last_key: key,
            ..self
        }
    }

    /// The table with one more value.
    pub open spec fn with_value<VW: ValueWriter<Value = V>>(self, value: V) -> Self {
        TableState {
            delta: self.delta.with_value(value),
            num_terms: self.num_terms + 1,
            ..self
        }.flushed_if_required::<VW>()
    }

    /// The table with one more key and its value.
    pub open spec fn with_entry<VW: ValueWriter<Value = V>>(self, key: Seq<u8>, value: V) -> Self {
        self.with_key(key).with_value::<VW>(value)
    }

    /// The table with the open block closed and listed in the index, if it has a key.
    pub open spec fn flushed<VW: ValueWriter<Value = V>>(self) -> Self {
        if self.delta.block.len() == 0 {
            self
        } else {
            let delta = self.delta.flushed::<VW>();
            TableState {
                delta,
                index: self.index.push(
                    IndexedBlock {
                        last_key_or_greater: self.last_key,
                        start: self.delta.written.len(),
                        end: delta.written.len(),
                        first_ordinal: self.first_ordinal,
                    },
                ),
                last_key: Seq::empty(),
                num_terms: self.num_terms,
                first_ordinal: self.num_terms,
            }
        }
    }

    /// The table with the open block closed, if its keys have outgrown [`BLOCK_LEN`].
    pub open spec fn flushed_if_required<VW: ValueWriter<Value = V>>(self) -> Self {
        if self.delta.block.len() > BLOCK_LEN {
            self.flushed::<VW>()
        } else {
            self
        }
    }

    /// The bytes of the finished table: the blocks, an empty block that ends them, the index, where
    /// the index starts, how many terms there are.
    pub open spec fn finished<VW: ValueWriter<Value = V>>(self) -> Seq<u8> {
        let done = self.flushed::<VW>();
        let data = done.delta.written + crate::fixed_int::le_bytes(0, 4);
        data + crate::sstable_index::index_bytes(done.index) + crate::fixed_int::le_bytes(data.len(), 8)
            + crate::fixed_int::le_bytes(done.num_terms, 8)
    }
}

/// Writes a table.
pub struct Writer<TValueWriter> {
    previous_key: Vec<u8>,
    index_builder: SSTableIndexBuilder,
    delta_writer: DeltaWriter<TValueWriter>,
    num_terms: u64,
    first_ordinal_of_the_block: u64,
}

impl<TValueWriter: ValueWriter> View for Writer<TValueWriter> {
    type V = TableState<TValueWriter::Value>;

    closed spec fn view(&self) -> TableState<TValueWriter::Value> {
        TableState {
            delta: self.delta_writer@,
            index: self.index_builder@,
            last_key: self.previous_key@,
            num_terms: self.num_terms as nat,
            first_ordinal: self.first_ordinal_of_the_block as nat,
        }
    }
}

impl<TValueWriter: ValueWriter> Writer<TValueWriter> {
    pub closed spec fn wf(&self) -> bool {
        self.delta_writer.wf()
    }

    /// The closed blocks fit in memory.
    pub(crate) proof fn lemma_wf(&self)
        requires
            self.wf(),
        ensures
            self@.delta.written.len() <= usize::MAX,
    {
        self.delta_writer.lemma_wf();
    }

    /// Use `Self::new`. This method only exists to match its
    /// equivalent in fst.
    pub fn create(wrt: Vec<u8>) -> (writer: Result<Self, Infallible>)
        ensures
            writer matches Ok(writer) && writer.wf() && writer@ == TableState::<TValueWriter::Value>::over(wrt@),
    {
        Ok(Self::new(wrt))
    }

    /// Creates a writer that appends a table to `wrt`.
    pub fn new(wrt: Vec<u8>) -> (writer: Self)
        ensures
            writer.wf(),
            writer@ == TableState::<TValueWriter::Value>::over(wrt@),
    {
        Writer {
            previous_key: Vec::with_capacity(DEFAULT_KEY_CAPACITY),
            num_terms: 0u64,
            index_builder: SSTableIndexBuilder::default(),
            delta_writer: DeltaWriter::new(wrt),
            first_ordinal_of_the_block: 0u64,
        }
    }

    /// Returns the last inserted key.
    /// If no key has been inserted yet, or the block was just
    /// flushed, this function returns "".
    pub fn last_inserted_key(&self) -> (key: &[u8])
        ensures
            key@ == self@.last_key,
    {
        self.previous_key.as_slice()
    }

    /// Tells whether `key` can be inserted: whether it comes after the keys that are there, or is
    /// the empty key again where the open block has that key alone.
    pub fn accepts_key(&self, key: &[u8]) -> (accepted: bool)
        ensures
            accepted == self@.accepts_key(key@),
    {
        if self.first_ordinal_of_the_block == self.num_terms {
            if !self.index_builder.is_followed_by(key) {
                return false;
            }
        }
        self.previous_key.is_empty() || is_less(self.previous_key.as_slice(), key)
    }

    /// Tells whether `value` can be inserted: whether it can be written after the values of the
    /// open block, and counted.
    pub fn accepts_value(&self, value: &TValueWriter::Value) -> (accepted: bool)
        requires
            self.wf(),
        ensures
            accepted == self@.accepts_value::<TValueWriter>(*value),
    {
        self.delta_writer.accepts_value(value) && self.num_terms < u64::MAX
    }

    /// Inserts a `(key, value)` pair in the table.
    /// Keys have to be inserted in order.
    pub fn insert(&mut self, key: &[u8], value: &TValueWriter::Value) -> (inserted: Result<(), Infallible>)
        requires
            old(self).wf(),
            old(self)@.accepts_key(key@),
            old(self)@.accepts_value::<TValueWriter>(*value),
        ensures
            final(self).wf(),
            final(self)@ == old(self)@.with_entry::<TValueWriter>(key@, *value),
            inserted is Ok,
    {
        match self.insert_key(key) {
            Ok(()) => {},
            Err(err) => return Err(err),
        }
        self.insert_value(value)
    }

    /// Inserts a key without its value. See `.insert(...)`.
    pub fn insert_key(&mut self, key: &[u8]) -> (inserted: Result<(), Infallible>)
        requires
            old(self).wf(),
            old(self)@.accepts_key(key@),
        ensures
            final(self).wf(),
            final(self)@ == old(self)@.with_key(key@),
            inserted is Ok,
    {
        // If this is the first key in the block, we use it to
        // shorten the last term in the last block.
        if self.first_ordinal_of_the_block == self.num_terms {
            self.index_builder.shorten_last_block_key_given_next_key(key);
        }
        let keep_len = common_prefix_len(self.previous_key.as_slice(), key);
        let suffix = slice_subrange(key, keep_len, key.len());
        assert(suffix@ =~= key@.skip(keep_len as int));
        let ghost previous_key = self.previous_key@;
        self.previous_key.truncate(keep_len);
        let ghost kept = self.previous_key@;
        self.previous_key.extend_from_slice(suffix);
        assert(kept =~= key@.take(keep_len as int)) by {
            assert(previous_key.take(keep_len as int) =~= kept);
        }
        assert(self.previous_key@ =~= key@);
        self.delta_writer.write_suffix(keep_len, suffix);
        assert(self@ =~= old(self)@.with_key(key@));
        Ok(())
    }

    /// Inserts the value of the last inserted key. See `.insert(...)`.
    pub fn insert_value(&mut self, value: &TValueWriter::Value) -> (inserted: Result<(), Infallible>)
        requires
            old(self).wf(),
            old(self)@.accepts_value::<TValueWriter>(*value),
        ensures
            final(self).wf(),
            final(self)@ == old(self)@.with_value::<TValueWriter>(*value),
            inserted is Ok,
    {
        self.delta_writer.write_value(value);
        self.num_terms += 1u64;
        self.flush_block_if_required()
    }

    /// Closes the open block if its keys have outgrown [`BLOCK_LEN`].
    pub fn flush_block_if_required(&mut self) -> (flushed: Result<(), Infallible>)
        requires
            old(self).wf(),
        ensures
            final(self).wf(),
            final(self)@ == old(self)@.flushed_if_required::<TValueWriter>(),
            flushed is Ok,
    {
        match self.delta_writer.flush_block_if_required() {
            Ok(Some(byte_range)) => {
                self.index_builder.add_block(
                    self.previous_key.as_slice(),
                    byte_range,
                    self.first_ordinal_of_the_block,
                );
                self.first_ordinal_of_the_block = self.num_terms;
                self.previous_key.clear();
            },
            Ok(None) => {},
            Err(err) => return Err(err),
        }
        assert(self@ =~= old(self)@.flushed_if_required::<TValueWriter>());
        Ok(())
    }

    /// Finishes the table, and returns the sink that it was appended to.
    pub fn finish(self) -> (wrt: Result<Vec<u8>, Infallible>)
        requires
            self.wf(),
        ensures
            wrt matches Ok(wrt) && wrt@ == self@.delta.held + self@.finished::<TValueWriter>(),
    {
        let mut writer = self;
        match writer.delta_writer.flush_block() {
            Ok(Some(byte_range)) => {
                writer.index_builder.add_block(
                    writer.previous_key.as_slice(),
                    byte_range,
                    writer.first_ordinal_of_the_block,
                );
            },
            Ok(None) => {},
            Err(err) => return Err(err),
        }
        let ghost done = self@.flushed::<TValueWriter>();
        assert(writer.index_builder@ =~= done.index);
        let mut wrt = writer.delta_writer.finish();
        wrt.write_le(0, 4);
        let offset = wrt.written_bytes();
        let mut index: Vec<u8> = Vec::new();
        writer.index_builder.serialize(&mut index);
        assert(index@ =~= crate::sstable_index::index_bytes(done.index));
        wrt.write_all(index.as_slice());
        wrt.write_le(offset as u64, 8);
        wrt.write_le(writer.num_terms, 8);
        assert(wrt.written() =~= self@.finished::<TValueWriter>());
        Ok(wrt.finish())
    }

    /// Inserts a `(key, value)` pair in the table, which cannot fail in memory.
    pub fn insert_cannot_fail(&mut self, key: &[u8], value: &TValueWriter::Value)
        requires
            old(self).wf(),
            old(self)@.accepts_key(key@),
            old(self)@.accepts_value::<TValueWriter>(*value),
        ensures
            final(self).wf(),
            final(self)@ == old(self)@.with_entry::<TValueWriter>(key@, *value),
    {
        self.insert(key, value).unwrap();
    }
}

} // verus!
