//! The index of a table: for each block, where it lies and a key that separates it from the next.

use crate::cbor::{push_byte_array, push_head, push_text, ARRAY, MAP, UNSIGNED};
use crate::order::{common_prefix_len, is_less};
use std::ops::Range;
use vstd::prelude::*;

verus! {

/// Where a block lies.
#[derive(Debug)]
pub struct BlockAddr {
    /// The bytes of the block.
    pub byte_range: Range<usize>,
    /// How many terms come before the block.
    pub first_ordinal: u64,
}

pub(crate) struct BlockMeta {
    /// Any byte string that is lexicographically greater or equal to
    /// the last key in the block,
    /// and yet strictly smaller than the first key in the next block.
    pub last_key_or_greater: Vec<u8>,
    pub block_addr: BlockAddr,
}

/// What the index tells of a block.
#[verifier::ext_equal]
pub struct IndexedBlock {
    /// Not smaller than the last key of the block, and smaller than the first key of the next one.
    pub last_key_or_greater: Seq<u8>,
    /// Where the block starts.
    pub start: nat,
    /// Where the block ends.
    pub end: nat,
    /// How many terms come before the block.
    pub first_ordinal: nat,
}

impl View for BlockMeta {
    type V = IndexedBlock;

    open(crate) spec fn view(&self) -> IndexedBlock {
        IndexedBlock {
            last_key_or_greater: self.last_key_or_greater@,
            start: self.block_addr.byte_range.start as nat,
            end: self.block_addr.byte_range.end as nat,
            first_ordinal: self.block_addr.first_ordinal as nat,
        }
    }
}

/// The first position from `from` on whose byte is not the greatest one; the length if there is
/// none.
pub open spec fn first_below_max(key: Seq<u8>, from: nat) -> nat
    decreases key.len() - from,
{
    if from >= key.len() || key[from as int] != u8::MAX {
        from
    } else {
        first_below_max(key, from + 1)
    }
}

/// A key that separates `left` from `right` as well as `left` does, and is no longer: what follows
/// the first difference is cut off after a byte that can be raised, and that byte is raised.
pub open spec fn shortened(left: Seq<u8>, right: Seq<u8>) -> Seq<u8> {
    let common = crate::order::common_prefix(left, right);
    let pos = first_below_max(left, common + 1);
    if pos < left.len() {
        left.take(pos as int).push((left[pos as int] + 1) as u8)
    } else {
        left
    }
}

proof fn lemma_first_below_max(key: Seq<u8>, from: nat)
    ensures
        from <= first_below_max(key, from),
        from <= key.len() ==> first_below_max(key, from) <= key.len(),
        first_below_max(key, from) < key.len() ==> key[first_below_max(key, from) as int] != u8::MAX,
        forall|i: int| from <= i < first_below_max(key, from) ==> key[i] == u8::MAX,
    decreases key.len() - from,
{
    if from < key.len() && key[from as int] == u8::MAX {
        lemma_first_below_max(key, from + 1);
    }
}

/// The shortened key lies between the two keys, and is no longer than the first one.
pub proof fn lemma_shortened_between(left: Seq<u8>, right: Seq<u8>)
    requires
        crate::order::lex_lt(left, right),
    ensures
        crate::order::lex_le(left, shortened(left, right)),
        crate::order::lex_lt(shortened(left, right), right),
        shortened(left, right).len() <= left.len(),
{
    let common = crate::order::common_prefix(left, right) as int;
    let pos = first_below_max(left, common as nat + 1) as int;
    crate::order::lemma_common_prefix(left, right);
    crate::order::lemma_lex_lt_at(left, right);
    lemma_first_below_max(left, common as nat + 1);
    if pos < left.len() {
        let short = shortened(left, right);
        crate::order::lemma_common_prefix_unique(left, short, pos);
        crate::order::lemma_lex_lt_at(left, short);
        crate::order::lemma_common_prefix_unique(short, right, common);
        crate::order::lemma_lex_lt_at(short, right);
    }
}

/// Given that left < right,
/// mutates `left` into a shorter byte string `left'` that
/// matches `left <= left' < right`.
fn find_shorter_str_in_between(left: &mut Vec<u8>, right: &[u8])
    requires
        crate::order::lex_lt(old(left)@, right@),
    ensures
        final(left)@ == shortened(old(left)@, right@),
{
    let common_len = common_prefix_len(left.as_slice(), right);
    if common_len == left.len() {
        return;
    }
    let mut pos: usize = common_len + 1;
    while pos < left.len() && left[pos] == u8::MAX
        invariant
            pos <= left@.len(),
            left@ == old(left)@,
            first_below_max(left@, pos as nat) == first_below_max(left@, common_len as nat + 1),
        decreases left@.len() - pos,
    {
        pos += 1;
    }
    if pos < left.len() {
        let raised = left[pos] + 1;
        left.truncate(pos);
        left.push(raised);
        assert(left@ =~= shortened(old(left)@, right@));
    }
}

/// The text `blocks`.
pub open spec fn blocks_name() -> Seq<u8> {
    seq![98, 108, 111, 99, 107, 115]
}

/// The text `last_key_or_greater`.
pub open spec fn last_key_or_greater_name() -> Seq<u8> {
    seq![108, 97, 115, 116, 95, 107, 101, 121, 95, 111, 114, 95, 103, 114, 101, 97, 116, 101, 114]
}

/// The text `block_addr`.
pub open spec fn block_addr_name() -> Seq<u8> {
    seq![98, 108, 111, 99, 107, 95, 97, 100, 100, 114]
}

/// The text `byte_range`.
pub open spec fn byte_range_name() -> Seq<u8> {
    seq![98, 121, 116, 101, 95, 114, 97, 110, 103, 101]
}

/// The text `start`.
pub open spec fn start_name() -> Seq<u8> {
    seq![115, 116, 97, 114, 116]
}

/// The text `end`.
pub open spec fn end_name() -> Seq<u8> {
    seq![101, 110, 100]
}

/// The text `first_ordinal`.
pub open spec fn first_ordinal_name() -> Seq<u8> {
    seq![102, 105, 114, 115, 116, 95, 111, 114, 100, 105, 110, 97, 108]
}

/// Where a block lies: a map of two numbers.
pub open spec fn byte_range_bytes(start: nat, end: nat) -> Seq<u8> {
    crate::cbor::head_bytes(MAP, 2)
        + crate::cbor::text_bytes(start_name()) + crate::cbor::head_bytes(UNSIGNED, start)
        + crate::cbor::text_bytes(end_name()) + crate::cbor::head_bytes(UNSIGNED, end)
}

/// The address of a block: a map of its range and its first ordinal.
pub open spec fn block_addr_bytes(block: IndexedBlock) -> Seq<u8> {
    crate::cbor::head_bytes(MAP, 2)
        + crate::cbor::text_bytes(byte_range_name()) + byte_range_bytes(block.start, block.end)
        + crate::cbor::text_bytes(first_ordinal_name()) + crate::cbor::head_bytes(UNSIGNED, block.first_ordinal)
}

/// What the index tells of a block: a map of the separating key and the address.
pub open spec fn block_meta_bytes(block: IndexedBlock) -> Seq<u8> {
    crate::cbor::head_bytes(MAP, 2)
        + crate::cbor::text_bytes(last_key_or_greater_name())
        + crate::cbor::byte_array_bytes(block.last_key_or_greater)
        + crate::cbor::text_bytes(block_addr_name()) + block_addr_bytes(block)
}

/// The blocks one after the other.
pub open spec fn block_metas_bytes(blocks: Seq<IndexedBlock>) -> Seq<u8>
    decreases blocks.len(),
{
    if blocks.len() == 0 {
        Seq::empty()
    } else {
        block_metas_bytes(blocks.drop_last()) + block_meta_bytes(blocks.last())
    }
}

/// The index: a map of the array of blocks.
pub open spec fn index_bytes(blocks: Seq<IndexedBlock>) -> Seq<u8> {
    crate::cbor::head_bytes(MAP, 1)
        + crate::cbor::text_bytes(blocks_name())
        + crate::cbor::head_bytes(ARRAY, blocks.len()) + block_metas_bytes(blocks)
}

/// The index after `next_key` was announced as the first key that follows the last block.
pub open spec fn with_last_shortened(blocks: Seq<IndexedBlock>, next_key: Seq<u8>) -> Seq<IndexedBlock> {
    if blocks.len() == 0 {
        blocks
    } else {
        blocks.drop_last().push(
            IndexedBlock {
                last_key_or_greater: shortened(blocks.last().last_key_or_greater, next_key),
                ..blocks.last()
            },
        )
    }
}

/// `next_key` comes after the last block.
pub open spec fn follows_last_block(blocks: Seq<IndexedBlock>, next_key: Seq<u8>) -> bool {
    blocks.len() > 0 ==> crate::order::lex_lt(blocks.last().last_key_or_greater, next_key)
}

fn push_byte_range(output: &mut Vec<u8>, start: usize, end: usize)
    ensures
        final(output)@ == old(output)@ + byte_range_bytes(start as nat, end as nat),
{
    let start_text: [u8; 5] = [115, 116, 97, 114, 116];
    let end_text: [u8; 3] = [101, 110, 100];
    assert(start_text@ =~= start_name());
    assert(end_text@ =~= end_name());
    push_head(output, MAP, 2);
    push_text(output, start_text.as_slice());
    push_head(output, UNSIGNED, start as u64);
    push_text(output, end_text.as_slice());
    push_head(output, UNSIGNED, end as u64);
    assert(output@ =~= old(output)@ + byte_range_bytes(start as nat, end as nat));
}

fn push_block_addr(output: &mut Vec<u8>, meta: &BlockMeta)
    ensures
        final(output)@ == old(output)@ + block_addr_bytes(meta@),
{
    let byte_range_text: [u8; 10] = [98, 121, 116, 101, 95, 114, 97, 110, 103, 101];
    let first_ordinal_text: [u8; 13] = [102, 105, 114, 115, 116, 95, 111, 114, 100, 105, 110, 97, 108];
    assert(byte_range_text@ =~= byte_range_name());
    assert(first_ordinal_text@ =~= first_ordinal_name());
    push_head(output, MAP, 2);
    push_text(output, byte_range_text.as_slice());
    push_byte_range(output, meta.block_addr.byte_range.start, meta.block_addr.byte_range.end);
    push_text(output, first_ordinal_text.as_slice());
    push_head(output, UNSIGNED, meta.block_addr.first_ordinal);
    assert(output@ =~= old(output)@ + block_addr_bytes(meta@));
}

fn push_block_meta(output: &mut Vec<u8>, meta: &BlockMeta)
    ensures
        final(output)@ == old(output)@ + block_meta_bytes(meta@),
{
    let last_key_text: [u8; 19] = [108, 97, 115, 116, 95, 107, 101, 121, 95, 111, 114, 95, 103, 114, 101, 97, 116, 101, 114];
    let block_addr_text: [u8; 10] = [98, 108, 111, 99, 107, 95, 97, 100, 100, 114];
    assert(last_key_text@ =~= last_key_or_greater_name());
    assert(block_addr_text@ =~= block_addr_name());
    push_head(output, MAP, 2);
    push_text(output, last_key_text.as_slice());
    push_byte_array(output, meta.last_key_or_greater.as_slice());
    push_text(output, block_addr_text.as_slice());
    push_block_addr(output, meta);
    assert(output@ =~= old(output)@ + block_meta_bytes(meta@));
}

/// The index of a table.
pub struct SSTableIndex {
    blocks: Vec<BlockMeta>,
}

impl View for SSTableIndex {
    type V = Seq<IndexedBlock>;

    closed spec fn view(&self) -> Seq<IndexedBlock> {
        Seq::new(self.blocks@.len(), |i: int| self.blocks@[i]@)
    }
}

/// Builds the index of a table.
pub struct SSTableIndexBuilder {
    index: SSTableIndex,
}

impl View for SSTableIndexBuilder {
    type V = Seq<IndexedBlock>;

    closed spec fn view(&self) -> Seq<IndexedBlock> {
        self.index@
    }
}

impl Default for SSTableIndexBuilder {
    /// A builder without blocks.
    fn default() -> (builder: Self)
        ensures
            builder@ == Seq::<IndexedBlock>::empty(),
    {
        let builder = SSTableIndexBuilder { index: SSTableIndex { blocks: Vec::new() } };
        assert(builder@ =~= Seq::empty());
        builder
    }
}

impl SSTableIndexBuilder {
    /// Tells whether `next_key` comes after the last block.
    pub(crate) fn is_followed_by(&self, next_key: &[u8]) -> (follows: bool)
        ensures
            follows == follows_last_block(self@, next_key@),
    {
        let len = self.index.blocks.len();
        len == 0 || is_less(self.index.blocks[len - 1].last_key_or_greater.as_slice(), next_key)
    }

    /// In order to make the index as light as possible, we
    /// try to find a shorter alternative to the last key of the last block
    /// that is still smaller than the next key.
    pub(crate) fn shorten_last_block_key_given_next_key(&mut self, next_key: &[u8])
        requires
            follows_last_block(old(self)@, next_key@),
        ensures
            final(self)@ == with_last_shortened(old(self)@, next_key@),
    {
        let len = self.index.blocks.len();
        if len > 0 {
            find_shorter_str_in_between(&mut self.index.blocks[len - 1].last_key_or_greater, next_key);
        }
        assert(self@ =~= with_last_shortened(old(self)@, next_key@));
    }

    /// Adds a block after those that are there.
    pub fn add_block(&mut self, last_key: &[u8], byte_range: Range<usize>, first_ordinal: u64)
        ensures
            final(self)@ == old(self)@.push(
                IndexedBlock {
                    last_key_or_greater: last_key@,
                    start: byte_range.start as nat,
                    end: byte_range.end as nat,
                    first_ordinal: first_ordinal as nat,
                },
            ),
    {
        let block_addr = BlockAddr { byte_range, first_ordinal };
        let last_key_or_greater = vstd::slice::slice_to_vec(last_key);
        self.index.blocks.push(BlockMeta { last_key_or_greater, block_addr });
        assert(self@ =~= old(self)@.push(
            IndexedBlock {
                last_key_or_greater: last_key@,
                start: byte_range.start as nat,
                end: byte_range.end as nat,
                first_ordinal: first_ordinal as nat,
            },
        ));
    }

    /// Appends the index to `wrt`.
    pub fn serialize(&self, wrt: &mut Vec<u8>)
        ensures
            final(wrt)@ == old(wrt)@ + index_bytes(self@),
    {
        let blocks_text: [u8; 6] = [98, 108, 111, 99, 107, 115];
        assert(blocks_text@ =~= blocks_name());
        push_head(wrt, MAP, 1);
        push_text(wrt, blocks_text.as_slice());
        push_head(wrt, ARRAY, self.index.blocks.len() as u64);
        let ghost before = wrt@;
        let mut i: usize = 0;
        assert(wrt@ =~= before + block_metas_bytes(self@.take(0)));
        while i < self.index.blocks.len()
            invariant
                i <= self.index.blocks@.len(),
                wrt@ == before + block_metas_bytes(self@.take(i as int)),
            decreases self.index.blocks@.len() - i,
        {
            push_block_meta(wrt, &self.index.blocks[i]);
            assert(self@.take(i + 1).drop_last() =~= self@.take(i as int));
            assert(wrt@ =~= before + block_metas_bytes(self@.take(i + 1)));
            i += 1;
        }
        assert(self@.take(i as int) =~= self@);
        assert(wrt@ =~= old(wrt)@ + index_bytes(self@));
    }
}

} // verus!
