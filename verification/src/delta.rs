//! Keys as differences: how much of the previous key is kept, then what is added to it.

use crate::block_reader::BlockReader;
use crate::fixed_int::push_le;
use crate::value::{ValueReader, ValueWriter};
use crate::vint::{deserialize_read, serialize_into_vec};
use crate::SSTableDataCorruption;
use std::convert::Infallible;
use std::ops::Range;
use vstd::prelude::*;
use vstd::slice::slice_subrange;

verus! {

/// Lengths below this limit fit in half a byte.
pub const FOUR_BIT_LIMITS: usize = 16;

/// The byte that announces the two lengths as variable-length integers.
pub const VINT_MODE: u8 = 1;

/// A block whose keys take more bytes than this is closed.
pub const BLOCK_LEN: usize = 32_000;

/// The two lengths: in one byte where both are small.
pub open spec fn keep_add_bytes(keep: nat, add: nat) -> Seq<u8> {
    if keep < FOUR_BIT_LIMITS && add < FOUR_BIT_LIMITS {
        seq![(keep + 16 * add) as u8]
    } else {
        seq![VINT_MODE] + crate::vint::vint_bytes(keep) + crate::vint::vint_bytes(add)
    }
}

/// A key that keeps `keep` bytes of the previous key and adds `suffix`.
pub open spec fn delta_bytes(keep: nat, suffix: Seq<u8>) -> Seq<u8> {
    keep_add_bytes(keep, suffix.len()) + suffix
}

/// The two lengths at the start of `data`, and how many bytes they take.
pub open spec fn keep_add_at(data: Seq<u8>) -> Option<(nat, nat, nat)> {
    if data.len() == 0 {
        None
    } else if data[0] == VINT_MODE {
        match crate::vint::vint_at(data.skip(1)) {
            Some((keep, keep_len)) => match crate::vint::vint_at(data.skip(1).skip(keep_len as int)) {
                Some((add, add_len)) => Some((keep as nat, add as nat, 1 + keep_len + add_len)),
                None => None,
            },
            None => None,
        }
    } else {
        Some(((data[0] % 16) as nat, (data[0] / 16) as nat, 1))
    }
}

/// A key read as a difference.
pub struct Delta {
    /// How much of the previous key is kept.
    pub keep: nat,
    /// What is added.
    pub suffix: Seq<u8>,
    /// How many bytes the difference takes.
    pub len: nat,
}

/// The difference at the start of `data`; `None` where it is cut short, or the key would be longer
/// than memory.
pub open spec fn delta_at(data: Seq<u8>) -> Option<Delta> {
    match keep_add_at(data) {
        Some((keep, add, head_len)) => if head_len + add <= data.len() && keep + add <= usize::MAX {
            Some(
                Delta {
                    keep,
                    suffix: data.subrange(head_len as int, (head_len + add) as int),
                    len: head_len + add,
                },
            )
        } else {
            None
        },
        None => None,
    }
}

pub(crate) proof fn lemma_delta_at_len(data: Seq<u8>)
    ensures
        keep_add_at(data) matches Some((_, _, len)) ==> 1 <= len <= data.len(),
        delta_at(data) matches Some(delta) ==> 1 <= delta.len <= data.len(),
{
    if data.len() > 0 && data[0] == VINT_MODE {
        crate::vint::lemma_vint_at_len(data.skip(1));
        if let Some((keep, keep_len)) = crate::vint::vint_at(data.skip(1)) {
            crate::vint::lemma_vint_at_len(data.skip(1).skip(keep_len as int));
        }
    }
}

/// Reading gives back the difference that was written, whatever follows it. The one exception is
/// to keep one byte and add nothing, which looks like the announcement of two variable-length
/// integers.
pub proof fn lemma_delta_round_trip(keep: nat, suffix: Seq<u8>, rest: Seq<u8>)
    requires
        keep != 1 || suffix.len() > 0,
        keep + suffix.len() <= usize::MAX,
    ensures
        delta_at(delta_bytes(keep, suffix) + rest) == Some(
            Delta { keep, suffix, len: delta_bytes(keep, suffix).len() },
        ),
{
    let add = suffix.len();
    let head = keep_add_bytes(keep, add);
    let data = delta_bytes(keep, suffix) + rest;
    assert(keep_add_at(data) == Some((keep, add, head.len()))) by {
        if !(keep < FOUR_BIT_LIMITS && add < FOUR_BIT_LIMITS) {
            let keep_bytes = crate::vint::vint_bytes(keep);
            let add_bytes = crate::vint::vint_bytes(add);
            assert(data.skip(1) =~= keep_bytes + (add_bytes + (suffix + rest)));
            crate::vint::lemma_vint_round_trip(keep as u64, add_bytes + (suffix + rest));
            assert(data.skip(1).skip(keep_bytes.len() as int) =~= add_bytes + (suffix + rest));
            crate::vint::lemma_vint_round_trip(add as u64, suffix + rest);
        }
    }
    assert(data.subrange(head.len() as int, (head.len() + add) as int) =~= suffix);
}

/// A block: the length of its content, the values, the keys.
pub open spec fn block_bytes<VW: ValueWriter>(keys: Seq<u8>, values: Seq<VW::Value>) -> Seq<u8> {
    let content = VW::encoded(values) + keys;
    crate::fixed_int::le_bytes(content.len(), 4) + content
}

/// A sink in memory that counts what goes through it.
pub struct CountingWriter {
    underlying: Vec<u8>,
    before: usize,
}

impl CountingWriter {
    pub closed spec fn wf(&self) -> bool {
        self.before <= self.underlying@.len()
    }

    /// What the sink held at first.
    pub closed spec fn held(&self) -> Seq<u8> {
        self.underlying@.take(self.before as int)
    }

    /// What went through the counting writer.
    pub closed spec fn written(&self) -> Seq<u8> {
        self.underlying@.skip(self.before as int)
    }

    pub fn wrap(underlying: Vec<u8>) -> (writer: Self)
        ensures
            writer.wf(),
            writer.held() == underlying@,
            writer.written() == Seq::<u8>::empty(),
    {
        let writer = CountingWriter { before: underlying.len(), underlying };
        assert(writer.held() =~= underlying@);
        assert(writer.written() =~= Seq::empty());
        writer
    }

    pub fn written_bytes(&self) -> (count: usize)
        requires
            self.wf(),
        ensures
            count == self.written().len(),
    {
        self.underlying.len() - self.before
    }

    pub fn write_all(&mut self, buf: &[u8])
        requires
            old(self).wf(),
        ensures
            final(self).wf(),
            final(self).held() == old(self).held(),
            final(self).written() == old(self).written() + buf@,
    {
        let ghost old_self = *self;
        self.underlying.extend_from_slice(buf);
        assert(self.underlying@ =~= old_self.underlying@ + buf@);
        assert(self.held() =~= old_self.held());
        assert(self.written() =~= old_self.written() + buf@);
    }

    /// Appends the `width` lowest bytes of `value`, the least significant one first.
    pub fn write_le(&mut self, value: u64, width: usize)
        requires
            old(self).wf(),
        ensures
            final(self).wf(),
            final(self).held() == old(self).held(),
            final(self).written() == old(self).written() + crate::fixed_int::le_bytes(
                value as nat,
                width as nat,
            ),
    {
        let ghost old_self = *self;
        push_le(&mut self.underlying, value, width);
        assert(self.held() =~= old_self.held());
        assert(self.written() =~= old_self.written() + crate::fixed_int::le_bytes(value as nat, width as nat));
    }

    /// Returns the sink.
    pub fn finish(self) -> (underlying: Vec<u8>)
        requires
            self.wf(),
        ensures
            underlying@ == self.held() + self.written(),
    {
        assert(self.underlying@ =~= self.held() + self.written());
        self.underlying
    }
}

/// What a [`DeltaWriter`] has done.
#[verifier::ext_equal]
pub struct DeltaOutput<V> {
    /// What the sink held at first.
    pub held: Seq<u8>,
    /// The closed blocks.
    pub written: Seq<u8>,
    /// The keys of the open block.
    pub block: Seq<u8>,
    /// The values of the open block.
    pub values: Seq<V>,
}

impl<V> DeltaOutput<V> {
    /// Nothing written over a sink that holds `held`.
    pub open spec fn over(held: Seq<u8>) -> Self {
        DeltaOutput { held, written: Seq::empty(), block: Seq::empty(), values: Seq::empty() }
    }

    /// One more key in the open block.
    pub open spec fn with_suffix(self, keep: nat, suffix: Seq<u8>) -> Self {
        DeltaOutput { block: self.block + delta_bytes(keep, suffix), ..self }
    }

    /// One more value in the open block.
    pub open spec fn with_value(self, value: V) -> Self {
        DeltaOutput { values: self.values.push(value), ..self }
    }

    /// The open block closed, if it has a key.
    pub open spec fn flushed<VW: ValueWriter<Value = V>>(self) -> Self {
        if self.block.len() == 0 {
            self
        } else {
            DeltaOutput {
                held: self.held,
                written: self.written + block_bytes::<VW>(self.block, self.values),
                block: Seq::empty(),
                values: Seq::empty(),
            }
        }
    }
}

/// Writes blocks of keys, as differences, and of values.
pub struct DeltaWriter<TValueWriter> {
    block: Vec<u8>,
    write: CountingWriter,
    value_writer: TValueWriter,
}

impl<TValueWriter: ValueWriter> View for DeltaWriter<TValueWriter> {
    type V = DeltaOutput<TValueWriter::Value>;

    closed spec fn view(&self) -> DeltaOutput<TValueWriter::Value> {
        DeltaOutput {
            held: self.write.held(),
            written: self.write.written(),
            block: self.block@,
            values: self.value_writer.values(),
        }
    }
}

impl<TValueWriter: ValueWriter> DeltaWriter<TValueWriter> {
    pub closed spec fn wf(&self) -> bool {
        &&& self.write.wf()
        &&& TValueWriter::writable(self.value_writer.values())
    }

    /// The values of the open block can be written, and the closed blocks fit in memory.
    pub(crate) proof fn lemma_wf(&self)
        requires
            self.wf(),
        ensures
            TValueWriter::writable(self@.values),
            self@.written.len() <= usize::MAX,
    {
        assert(self.write.underlying@.len() == self.write.underlying.len());
    }

    /// A writer that appends to `wrt`.
    pub fn new(wrt: Vec<u8>) -> (writer: Self)
        ensures
            writer.wf(),
            writer@ == DeltaOutput::<TValueWriter::Value>::over(wrt@),
    {
        let writer = DeltaWriter {
            block: Vec::with_capacity(BLOCK_LEN * 2),
            write: CountingWriter::wrap(wrt),
            value_writer: TValueWriter::empty(),
        };
        proof {
            TValueWriter::lemma_writable_subrange(Seq::empty(), 0, 0);
        }
        writer
    }

    /// Closes the open block, if it has a key. Returns where the closed block lies in what was
    /// written.
    pub fn flush_block(&mut self) -> (flushed: Result<Option<Range<usize>>, Infallible>)
        requires
            old(self).wf(),
        ensures
            final(self).wf(),
            final(self)@ == old(self)@.flushed::<TValueWriter>(),
            flushed is Ok,
            flushed->Ok_0 is Some <==> old(self)@.block.len() > 0,
            flushed->Ok_0 matches Some(range) ==> {
                &&& range.start == old(self)@.written.len()
                &&& range.end == final(self)@.written.len()
            },
    {
        if self.block.is_empty() {
            return Ok(None);
        }
        let ghost before = self@;
        let start_offset = self.write.written_bytes();
        let mut buffer: Vec<u8> = Vec::new();
        self.value_writer.serialize_block(&mut buffer);
        self.value_writer.clear();
        buffer.append(&mut self.block);
        assert(buffer@ =~= TValueWriter::encoded(before.values) + before.block);
        self.write.write_le(buffer.len() as u64, 4);
        self.write.write_all(buffer.as_slice());
        let end_offset = self.write.written_bytes();
        proof {
            TValueWriter::lemma_writable_subrange(Seq::empty(), 0, 0);
        }
        assert(self@ =~= before.flushed::<TValueWriter>());
        Ok(Some(Range { start: start_offset, end: end_offset }))
    }

    fn encode_keep_add(&mut self, keep_len: usize, add_len: usize)
        requires
            old(self).wf(),
        ensures
            final(self).wf(),
            final(self)@ == (DeltaOutput {
                block: old(self)@.block + keep_add_bytes(keep_len as nat, add_len as nat),
                ..old(self)@
            }),
    {
        let ghost before = self.block@;
        if keep_len < FOUR_BIT_LIMITS && add_len < FOUR_BIT_LIMITS {
            self.block.push((keep_len + 16 * add_len) as u8);
        } else {
            self.block.push(VINT_MODE);
            serialize_into_vec(keep_len as u64, &mut self.block);
            serialize_into_vec(add_len as u64, &mut self.block);
        }
        assert(self.block@ =~= before + keep_add_bytes(keep_len as nat, add_len as nat));
    }

    /// Adds a key to the open block: it keeps `common_prefix_len` bytes of the previous key.
    pub(crate) fn write_suffix(&mut self, common_prefix_len: usize, suffix: &[u8])
        requires
            old(self).wf(),
        ensures
            final(self).wf(),
            final(self)@ == old(self)@.with_suffix(common_prefix_len as nat, suffix@),
    {
        self.encode_keep_add(common_prefix_len, suffix.len());
        let ghost before = self.block@;
        self.block.extend_from_slice(suffix);
        assert(self.block@ =~= before + suffix@);
        assert(self@ =~= old(self)@.with_suffix(common_prefix_len as nat, suffix@));
    }

    /// Tells whether `value` can be added to the open block.
    pub(crate) fn accepts_value(&self, value: &TValueWriter::Value) -> (accepted: bool)
        requires
            self.wf(),
        ensures
            accepted == TValueWriter::writable(self@.values.push(*value)),
    {
        self.value_writer.accepts(value)
    }

    /// Adds a value to the open block.
    pub(crate) fn write_value(&mut self, value: &TValueWriter::Value)
        requires
            old(self).wf(),
            TValueWriter::writable(old(self)@.values.push(*value)),
        ensures
            final(self).wf(),
            final(self)@ == old(self)@.with_value(*value),
    {
        self.value_writer.write(value);
    }

    /// Closes the open block if its keys have outgrown [`BLOCK_LEN`].
    pub fn flush_block_if_required(&mut self) -> (flushed: Result<Option<Range<usize>>, Infallible>)
        requires
            old(self).wf(),
        ensures
            final(self).wf(),
            flushed is Ok,
            flushed->Ok_0 is Some <==> old(self)@.block.len() > BLOCK_LEN,
            match flushed->Ok_0 {
                Some(range) => {
                    &&& final(self)@ == old(self)@.flushed::<TValueWriter>()
                    &&& range.start == old(self)@.written.len()
                    &&& range.end == final(self)@.written.len()
                },
                None => *final(self) == *old(self),
            },
    {
        if self.block.len() > BLOCK_LEN {
            return self.flush_block();
        }
        Ok(None)
    }

    /// Returns the sink with the closed blocks. The open block is lost.
    pub fn finish(self) -> (write: CountingWriter)
        requires
            self.wf(),
        ensures
            write.wf(),
            write.held() == self@.held,
            write.written() == self@.written,
    {
        self.write
    }
}

/// Where a [`DeltaReader`] stands.
#[verifier::ext_equal]
pub struct DeltaPosition {
    /// The content of the current block.
    pub content: Seq<u8>,
    /// How much of the content lies behind.
    pub offset: nat,
    /// What follows the current block.
    pub rest: Seq<u8>,
    /// The number of the current key in its block.
    pub idx: nat,
    /// How much the current key keeps of the previous one.
    pub keep: nat,
    /// What the current key adds.
    pub suffix: Seq<u8>,
}

/// What lies ahead of a [`DeltaReader`].
pub enum DeltaStep {
    /// A key.
    Key(DeltaPosition),
    /// The end of the table.
    End,
    /// Bytes that do not follow the format.
    Corrupted,
}

impl DeltaPosition {
    /// Before the first block of `data`.
    pub open spec fn before(data: Seq<u8>) -> Self {
        DeltaPosition {
            content: Seq::empty(),
            offset: 0,
            rest: data,
            idx: 0,
            keep: 0,
            suffix: Seq::empty(),
        }
    }

    /// The key number `idx` of its block, which starts at `offset`.
    pub open spec fn key_at(content: Seq<u8>, offset: nat, rest: Seq<u8>, idx: nat) -> DeltaStep {
        match delta_at(content.skip(offset as int)) {
            Some(delta) => DeltaStep::Key(
                DeltaPosition {
                    content,
                    offset: offset + delta.len,
                    rest,
                    idx,
                    keep: delta.keep,
                    suffix: delta.suffix,
                },
            ),
            None => DeltaStep::Corrupted,
        }
    }

    /// The next key: in the current block where it has more, else in the next one.
    pub open spec fn next<VR: ValueReader>(self) -> DeltaStep {
        if self.offset < self.content.len() {
            Self::key_at(self.content, self.offset, self.rest, self.idx + 1)
        } else {
            match crate::block_reader::next_block(self.rest) {
                crate::block_reader::NextBlock::Block { content, rest } => match VR::values_len(content) {
                    Some(len) => Self::key_at(content, len, rest, 0),
                    None => DeltaStep::Corrupted,
                },
                crate::block_reader::NextBlock::End => DeltaStep::End,
                crate::block_reader::NextBlock::Truncated => DeltaStep::Corrupted,
            }
        }
    }

    /// How many bytes lie ahead.
    pub open spec fn ahead(self) -> nat {
        self.rest.len() + if self.offset < self.content.len() {
            (self.content.len() - self.offset) as nat
        } else {
            0
        }
    }

    /// Each key takes bytes.
    pub proof fn lemma_next_progress<VR: ValueReader>(self)
        ensures
            self.next::<VR>() matches DeltaStep::Key(next) ==> {
                &&& next.offset <= next.content.len()
                &&& next.ahead() < self.ahead()
                &&& next.keep + next.suffix.len() <= usize::MAX
            },
    {
        if self.offset < self.content.len() {
            lemma_delta_at_len(self.content.skip(self.offset as int));
        } else if let crate::block_reader::NextBlock::Block { content, rest } = crate::block_reader::next_block(
            self.rest,
        ) {
            VR::lemma_values_len_bound(content);
            if let Some(len) = VR::values_len(content) {
                lemma_delta_at_len(content.skip(len as int));
            }
        }
    }
}

/// Reads keys, as differences, and values.
pub struct DeltaReader<'a, TValueReader> {
    common_prefix_len: usize,
    suffix_start: usize,
    suffix_end: usize,
    value_reader: TValueReader,
    block_reader: BlockReader<'a>,
    idx: usize,
}

impl<'a, TValueReader: ValueReader> View for DeltaReader<'a, TValueReader> {
    type V = DeltaPosition;

    closed spec fn view(&self) -> DeltaPosition {
        DeltaPosition {
            content: self.block_reader@.content,
            offset: self.block_reader@.offset,
            rest: self.block_reader@.rest,
            idx: self.idx as nat,
            keep: self.common_prefix_len as nat,
            suffix: self.block_reader@.content.subrange(self.suffix_start as int, self.suffix_end as int),
        }
    }
}

impl<'a, TValueReader: ValueReader> DeltaReader<'a, TValueReader> {
    pub closed spec fn wf(&self) -> bool {
        &&& self.block_reader.wf()
        &&& self.suffix_start <= self.suffix_end <= self.block_reader@.content.len()
        &&& self.idx <= self.block_reader@.offset
        &&& self.block_reader@.content.len() <= usize::MAX
        &&& self.common_prefix_len + (self.suffix_end - self.suffix_start) <= usize::MAX
        &&& forall|idx: nat|
            #[trigger] self.value_reader.loaded(idx) == TValueReader::value_in(self.block_reader@.content, idx)
    }

    /// The value of the current key, if it has one.
    pub open spec fn current_value(&self) -> Option<TValueReader::Value> {
        TValueReader::value_in(self@.content, self@.idx)
    }

    /// A reader that stands before the first key of the table `reader`.
    pub fn new(reader: &'a [u8]) -> (delta_reader: Self)
        ensures
            delta_reader.wf(),
            delta_reader@ == DeltaPosition::before(reader@),
    {
        let delta_reader = DeltaReader {
            idx: 0,
            common_prefix_len: 0,
            suffix_start: 0,
            suffix_end: 0,
            value_reader: TValueReader::empty(),
            block_reader: BlockReader::new(reader),
        };
        assert(delta_reader@ =~= DeltaPosition::before(reader@));
        delta_reader
    }

    /// The two lengths at the start of `data`, and how many bytes they take.
    fn read_keep_add(data: &[u8]) -> (lens: Result<(u64, u64, usize), SSTableDataCorruption>)
        ensures
            match lens {
                Ok((keep, add, len)) => {
                    &&& keep_add_at(data@) == Some((keep as nat, add as nat, len as nat))
                    &&& 1 <= len <= data@.len()
                },
                Err(_) => keep_add_at(data@) is None,
            },
    {
        proof {
            lemma_delta_at_len(data@);
        }
        if data.len() == 0 {
            return Err(SSTableDataCorruption);
        }
        let b = data[0];
        if b == VINT_MODE {
            let after_mode = slice_subrange(data, 1, data.len());
            assert(after_mode@ =~= data@.skip(1));
            let (keep, keep_len) = match deserialize_read(after_mode) {
                Ok(read) => read,
                Err(err) => return Err(err),
            };
            let after_keep = slice_subrange(after_mode, keep_len, after_mode.len());
            assert(after_keep@ =~= data@.skip(1).skip(keep_len as int));
            let (add, add_len) = match deserialize_read(after_keep) {
                Ok(read) => read,
                Err(err) => return Err(err),
            };
            Ok((keep, add, 1 + keep_len + add_len))
        } else {
            Ok(((b % 16) as u64, (b / 16) as u64, 1))
        }
    }

    /// The key at the start of `data`: how much it keeps, where its suffix starts and where it ends.
    fn read_delta_key(data: &[u8]) -> (read: Result<(usize, usize, usize), SSTableDataCorruption>)
        ensures
            match read {
                Ok((keep, start, end)) => {
                    &&& start <= end <= data@.len()
                    &&& 1 <= end
                    &&& keep + (end - start) <= usize::MAX
                    &&& delta_at(data@) == Some(
                        Delta {
                            keep: keep as nat,
                            suffix: data@.subrange(start as int, end as int),
                            len: end as nat,
                        },
                    )
                },
                Err(_) => delta_at(data@) is None,
            },
    {
        let (keep, add, head_len) = match Self::read_keep_add(data) {
            Ok(lens) => lens,
            Err(err) => return Err(err),
        };
        if add > (data.len() - head_len) as u64 {
            return Err(SSTableDataCorruption);
        }
        let add = add as usize;
        if keep > (usize::MAX - add) as u64 {
            return Err(SSTableDataCorruption);
        }
        Ok((keep as usize, head_len, head_len + add))
    }

    /// Moves to the next key. Returns `false`, and stays, at the end of the table; stays also where
    /// the bytes ahead do not follow the format.
    pub fn advance(&mut self) -> (found: Result<bool, SSTableDataCorruption>)
        requires
            old(self).wf(),
        ensures
            final(self).wf(),
            match old(self)@.next::<TValueReader>() {
                DeltaStep::Key(next) => {
                    &&& found == Ok::<bool, SSTableDataCorruption>(true)
                    &&& final(self)@ == next
                },
                DeltaStep::End => {
                    &&& found == Ok::<bool, SSTableDataCorruption>(false)
                    &&& *final(self) == *old(self)
                },
                DeltaStep::Corrupted => found is Err && *final(self) == *old(self),
            },
    {
        let mut block_reader = self.block_reader;
        proof {
            block_reader.lemma_wf();
        }
        if block_reader.offset() < block_reader.content_len() {
            let ahead = block_reader.buffer();
            let (keep, start, end) = match Self::read_delta_key(ahead) {
                Ok(read) => read,
                Err(err) => return Err(err),
            };
            let base = block_reader.offset();
            block_reader.advance(end);
            self.common_prefix_len = keep;
            self.suffix_start = base + start;
            self.suffix_end = base + end;
            self.block_reader = block_reader;
            self.idx += 1;
            assert(ahead@.subrange(start as int, end as int) =~= self@.suffix);
        } else {
            match block_reader.read_block() {
                Ok(true) => {},
                Ok(false) => return Ok(false),
                Err(err) => return Err(err),
            }
            let content = block_reader.buffer();
            assert(content@ =~= block_reader@.content);
            let mut value_reader = TValueReader::empty();
            let base = match value_reader.load(content) {
                Ok(len) => len,
                Err(err) => return Err(err),
            };
            proof {
                TValueReader::lemma_values_len_bound(content@);
            }
            block_reader.advance(base);
            let ahead = block_reader.buffer();
            let (keep, start, end) = match Self::read_delta_key(ahead) {
                Ok(read) => read,
                Err(err) => return Err(err),
            };
            proof {
                block_reader.lemma_wf();
            }
            block_reader.advance(end);
            self.common_prefix_len = keep;
            self.suffix_start = base + start;
            self.suffix_end = base + end;
            self.value_reader = value_reader;
            self.block_reader = block_reader;
            self.idx = 0;
            assert(ahead@.subrange(start as int, end as int) =~= self@.suffix);
        }
        Ok(true)
    }

    /// How much of the previous key the current one keeps.
    pub fn common_prefix_len(&self) -> (len: usize)
        requires
            self.wf(),
        ensures
            len == self@.keep,
    {
        self.common_prefix_len
    }

    /// What the current key adds to what it keeps.
    pub fn suffix(&self) -> (suffix: &'a [u8])
        requires
            self.wf(),
        ensures
            suffix@ == self@.suffix,
    {
        self.block_reader.buffer_from_to(self.suffix_start, self.suffix_end)
    }

    /// Tells whether the current key has a value.
    pub fn has_value(&self) -> (has: bool)
        requires
            self.wf(),
        ensures
            has == (self.current_value() is Some),
    {
        self.value_reader.has_value(self.idx)
    }

    /// The value of the current key.
    pub fn value(&self) -> (value: &TValueReader::Value)
        requires
            self.wf(),
            self.current_value() is Some,
        ensures
            self.current_value() == Some(*value),
    {
        self.value_reader.value(self.idx)
    }
}

} // verus!
