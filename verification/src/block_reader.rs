//! Walks over the blocks of a table: each is a length in four bytes, then that many bytes of
//! content. A length of zero, or the end of the data, ends the walk.

use crate::fixed_int::read_le_u32;
use crate::SSTableDataCorruption;
use vstd::prelude::*;
use vstd::slice::slice_subrange;

verus! {

/// What stands at the start of some data.
pub enum NextBlock {
    /// A block, and what follows it.
    Block { content: Seq<u8>, rest: Seq<u8> },
    /// The end of the blocks.
    End,
    /// A block that is cut short.
    Truncated,
}

/// The block at the start of `data`.
pub open spec fn next_block(data: Seq<u8>) -> NextBlock {
    if data.len() < 4 {
        NextBlock::End
    } else {
        let len = crate::fixed_int::le_value(data.take(4));
        if len == 0 {
            NextBlock::End
        } else if 4 + len > data.len() {
            NextBlock::Truncated
        } else {
            NextBlock::Block { content: data.subrange(4, 4 + len as int), rest: data.skip(4 + len as int) }
        }
    }
}

/// A position in the content of a block.
pub struct BlockPosition {
    /// The content of the block.
    pub content: Seq<u8>,
    /// How much of the content lies behind.
    pub offset: nat,
    /// What follows the block.
    pub rest: Seq<u8>,
}

/// Reads one block at a time.
#[derive(Clone, Copy)]
pub struct BlockReader<'a> {
    data: &'a [u8],
    start: usize,
    pos: usize,
    end: usize,
}

impl<'a> View for BlockReader<'a> {
    type V = BlockPosition;

    closed spec fn view(&self) -> BlockPosition {
        BlockPosition {
            content: self.data@.subrange(self.start as int, self.end as int),
            offset: (self.pos - self.start) as nat,
            rest: self.data@.skip(self.end as int),
        }
    }
}

impl<'a> BlockReader<'a> {
    pub closed spec fn wf(&self) -> bool {
        self.start <= self.pos <= self.end <= self.data@.len()
    }

    /// The position lies in the content.
    pub(crate) proof fn lemma_wf(&self)
        requires
            self.wf(),
        ensures
            self@.offset <= self@.content.len() <= usize::MAX,
    {
    }

    /// A reader that stands before the first block of `data`.
    pub fn new(data: &'a [u8]) -> (reader: Self)
        ensures
            reader.wf(),
            reader@.content == Seq::<u8>::empty(),
            reader@.offset == 0,
            reader@.rest == data@,
    {
        let reader = BlockReader { data, start: 0, pos: 0, end: 0 };
        assert(reader@.content =~= Seq::empty());
        assert(reader@.rest =~= data@);
        reader
    }

    /// Moves to the next block. Returns `false`, and stays, where there is none.
    pub fn read_block(&mut self) -> (found: Result<bool, SSTableDataCorruption>)
        requires
            old(self).wf(),
        ensures
            final(self).wf(),
            match next_block(old(self)@.rest) {
                NextBlock::Block { content, rest } => {
                    &&& found == Ok::<bool, SSTableDataCorruption>(true)
                    &&& final(self)@ == (BlockPosition { content, offset: 0, rest })
                },
                NextBlock::End => {
                    &&& found == Ok::<bool, SSTableDataCorruption>(false)
                    &&& *final(self) == *old(self)
                },
                NextBlock::Truncated => found is Err && *final(self) == *old(self),
            },
    {
        let rest = slice_subrange(self.data, self.end, self.data.len());
        assert(rest@ =~= self@.rest);
        if rest.len() < 4 {
            return Ok(false);
        }
        let len = read_le_u32(rest) as usize;
        if len == 0 {
            return Ok(false);
        }
        if len > rest.len() - 4 {
            return Err(SSTableDataCorruption);
        }
        let ghost before = self@;
        self.start = self.end + 4;
        self.pos = self.start;
        self.end = self.start + len;
        assert(self@.content =~= before.rest.subrange(4, 4 + len as int));
        assert(self@.rest =~= before.rest.skip(4 + len as int));
        Ok(true)
    }

    /// How far the position lies in the content.
    pub fn offset(&self) -> (offset: usize)
        requires
            self.wf(),
        ensures
            offset == self@.offset,
    {
        self.pos - self.start
    }

    /// How long the content is.
    pub fn content_len(&self) -> (len: usize)
        requires
            self.wf(),
        ensures
            len == self@.content.len(),
    {
        self.end - self.start
    }

    /// Moves forward in the content.
    pub fn advance(&mut self, num_bytes: usize)
        requires
            old(self).wf(),
            old(self)@.offset + num_bytes <= old(self)@.content.len(),
        ensures
            final(self).wf(),
            final(self)@ == (BlockPosition { offset: old(self)@.offset + num_bytes as nat, ..old(self)@ }),
    {
        self.pos += num_bytes;
    }

    /// The content that lies ahead.
    pub fn buffer(&self) -> (ahead: &'a [u8])
        requires
            self.wf(),
        ensures
            ahead@ == self@.content.skip(self@.offset as int),
    {
        let ahead = slice_subrange(self.data, self.pos, self.end);
        assert(ahead@ =~= self@.content.skip(self@.offset as int));
        ahead
    }

    /// A part of the content.
    pub fn buffer_from_to(&self, from: usize, to: usize) -> (part: &'a [u8])
        requires
            self.wf(),
            from <= to <= self@.content.len(),
        ensures
            part@ == self@.content.subrange(from as int, to as int),
    {
        let part = slice_subrange(self.data, self.start + from, self.start + to);
        assert(part@ =~= self@.content.subrange(from as int, to as int));
        part
    }
}

} // verus!
