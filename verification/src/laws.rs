//! What holds of every table.

use crate::delta::{DeltaOutput, DeltaPosition, DeltaStep, BLOCK_LEN};
use crate::merge::{FirstVal, SingleValueMerger, VoidSingleMerge};
use crate::reader::{Scan, TablePosition, TableStep};
use crate::sstable_index::IndexedBlock;
use crate::value::{RangeValueWriter, U64MonotonicValueWriter, ValueReader, ValueWriter, VoidValueWriter};
use crate::writer::TableState;
use crate::SSTable;
use std::ops::Range;
use vstd::prelude::*;

verus! {

/// The common prefix of two strings does not depend on which one comes first.
pub proof fn law_common_prefix_symmetric(a: Seq<u8>, b: Seq<u8>)
    ensures
        crate::order::common_prefix(a, b) == crate::order::common_prefix(b, a),
{
    crate::order::lemma_common_prefix(a, b);
    crate::order::lemma_common_prefix_unique(b, a, crate::order::common_prefix(a, b) as int);
}

/// Within each block the keys are ordered and the values can be written.
pub(crate) open(crate) spec fn well_made<VW: ValueWriter>(block: Seq<(Seq<u8>, VW::Value)>) -> bool {
    &&& crate::table::keys_ordered(block)
    &&& VW::writable(crate::table::values_of(block))
}

pub(crate) proof fn lemma_accepted_blocks<VW: ValueWriter>(entries: Seq<(Seq<u8>, VW::Value)>)
    requires
        crate::table::accepted::<VW>(entries),
    ensures
        forall|i: int|
            0 <= i < crate::table::blocks_of(entries).closed.len() ==> well_made::<VW>(
                #[trigger] crate::table::blocks_of(entries).closed[i],
            ),
        well_made::<VW>(crate::table::blocks_of(entries).open),
    decreases entries.len(),
{
    let blocks = crate::table::blocks_of(entries);
    if entries.len() == 0 {
        VW::lemma_writable_subrange(Seq::empty(), 0, 0);
        assert(crate::table::values_of(blocks.open) =~= Seq::empty());
    } else {
        let old_entries = entries.drop_last();
        let old_blocks = crate::table::blocks_of(old_entries);
        let entry = entries.last();
        lemma_accepted_blocks::<VW>(old_entries);
        crate::table::lemma_describes::<VW>(Seq::empty(), old_entries);
        let open = old_blocks.open.push(entry);
        assert(crate::table::values_of(open) =~= crate::table::values_of(old_blocks.open).push(entry.1));
        assert(crate::table::keys_ordered(open)) by {
            assert forall|i: int, j: int| 0 <= i && j == i + 1 && j < open.len() implies (#[trigger] open[i]).0.len()
                == 0 || crate::order::lex_lt(open[i].0, (#[trigger] open[j]).0) by {
                if j < old_blocks.open.len() {
                    assert(old_blocks.open[i].0.len() == 0 || crate::order::lex_lt(
                        old_blocks.open[i].0,
                        old_blocks.open[j].0,
                    ));
                }
            }
        }
        if crate::table::key_deltas(Seq::empty(), open).len() > BLOCK_LEN {
            VW::lemma_writable_subrange(Seq::empty(), 0, 0);
            assert(crate::table::values_of(blocks.open) =~= Seq::empty());
        }
    }
}

/// The finished table is its blocks, an empty block, and a footer.
proof fn lemma_table_bytes<VW: ValueWriter>(entries: Seq<(Seq<u8>, VW::Value)>) -> (footer: Seq<u8>)
    ensures
        crate::table::table_bytes::<VW>(entries) == crate::table::bytes_of_blocks::<VW>(
            crate::table::all_blocks(entries),
        ) + (crate::fixed_int::le_bytes(0, 4) + footer),
        crate::table::entries_of(crate::table::all_blocks(entries)) == entries,
        forall|i: int|
            0 <= i < crate::table::all_blocks(entries).len() ==> (#[trigger] crate::table::all_blocks(
                entries,
            )[i]).len() > 0,
{
    let state = crate::table::written::<VW>(Seq::empty(), entries);
    let blocks = crate::table::blocks_of(entries);
    let done = state.flushed::<VW>();
    crate::table::lemma_describes::<VW>(Seq::empty(), entries);
    crate::table::lemma_key_deltas_len(Seq::empty(), blocks.open);
    let data = done.delta.written + crate::fixed_int::le_bytes(0, 4);
    let footer = crate::sstable_index::index_bytes(done.index) + crate::fixed_int::le_bytes(data.len(), 8)
        + crate::fixed_int::le_bytes(done.num_terms, 8);
    if blocks.open.len() > 0 {
        crate::table::lemma_bytes_of_blocks_push::<VW>(blocks.closed, blocks.open);
        crate::table::lemma_entries_of_push(blocks.closed, blocks.open);
    } else {
        assert(crate::table::entries_of(blocks.closed) + blocks.open =~= crate::table::entries_of(blocks.closed));
    }
    assert(crate::table::table_bytes::<VW>(entries) =~= crate::table::bytes_of_blocks::<VW>(
        crate::table::all_blocks(entries),
    ) + (crate::fixed_int::le_bytes(0, 4) + footer));
    footer
}

/// A block that can be read back.
#[verifier::opaque]
spec fn readable<VW: ValueWriter>(block: Seq<(Seq<u8>, VW::Value)>) -> bool {
    &&& block.len() > 0
    &&& well_made::<VW>(block)
    &&& crate::table::content_of::<VW>(block).len() < 0x1_0000_0000
}

/// The key before number `i` of a block, as the block has it.
spec fn key_before<V>(block: Seq<(Seq<u8>, V)>, i: int) -> Seq<u8> {
    if i == 0 {
        Seq::empty()
    } else {
        block[i - 1].0
    }
}

/// A key is rebuilt from the last key that was read and its difference from the key before it in
/// its block. Without a key before it in its block, the last key that was read does not matter.
proof fn lemma_key_from_difference(prev: Seq<u8>, key: Seq<u8>, last_key: Seq<u8>)
    requires
        prev.len() == 0 || (crate::order::lex_lt(prev, key) && last_key == prev),
    ensures
        ({
            let keep = crate::order::common_prefix(prev, key);
            let suffix = key.skip(keep as int);
            &&& keep != 1 || suffix.len() > 0
            &&& keep + suffix.len() == key.len()
            &&& crate::reader::spliced(last_key, keep, suffix) == key
        }),
{
    let keep = crate::order::common_prefix(prev, key);
    crate::order::lemma_common_prefix(prev, key);
    crate::order::lemma_lex_lt_at(prev, key);
    assert(crate::reader::spliced(last_key, keep, key.skip(keep as int)) =~= key);
}

/// Taking a difference off the front of a block's content.
proof fn lemma_delta_at_offset(content: Seq<u8>, offset: nat, keep: nat, suffix: Seq<u8>, after: Seq<u8>)
    requires
        offset <= content.len(),
        content.skip(offset as int) == crate::delta::delta_bytes(keep, suffix) + after,
        keep != 1 || suffix.len() > 0,
        keep + suffix.len() <= usize::MAX,
    ensures
        crate::delta::delta_at(content.skip(offset as int)) == Some(
            crate::delta::Delta { keep, suffix, len: crate::delta::delta_bytes(keep, suffix).len() },
        ),
        offset + crate::delta::delta_bytes(keep, suffix).len() <= content.len(),
        content.skip((offset + crate::delta::delta_bytes(keep, suffix).len()) as int) == after,
{
    let delta = crate::delta::delta_bytes(keep, suffix);
    crate::delta::lemma_delta_round_trip(keep, suffix, after);
    assert(content.skip(offset as int).len() == delta.len() + after.len());
    assert(content.skip((offset + delta.len()) as int) =~= content.skip(offset as int).skip(delta.len() as int));
    assert((delta + after).skip(delta.len() as int) =~= after);
}

/// Reading key number `i` of a block, where the keys before it were read.
proof fn lemma_key_at<VW: ValueWriter>(
    block: Seq<(Seq<u8>, VW::Value)>,
    i: int,
    offset: nat,
    rest: Seq<u8>,
    last_key: Seq<u8>,
) -> (next: DeltaPosition)
    requires
        readable::<VW>(block),
        0 <= i < block.len(),
        offset <= crate::table::content_of::<VW>(block).len(),
        crate::table::content_of::<VW>(block).skip(offset as int) == crate::table::key_deltas(
            key_before(block, i),
            block.skip(i),
        ),
        i > 0 ==> last_key == block[i - 1].0,
    ensures
        ({
            let content = crate::table::content_of::<VW>(block);
            &&& DeltaPosition::key_at(content, offset, rest, i as nat) == DeltaStep::Key(next)
            &&& next.content == content
            &&& next.rest == rest
            &&& next.idx == i
            &&& next.offset <= content.len()
            &&& content.skip(next.offset as int) == crate::table::key_deltas(block[i].0, block.skip(i + 1))
            &&& crate::reader::spliced(last_key, next.keep, next.suffix) == block[i].0
        }),
{
    reveal(readable);
    let content = crate::table::content_of::<VW>(block);
    let prev = key_before(block, i);
    let key = block[i].0;
    let keep = crate::order::common_prefix(prev, key);
    let suffix = key.skip(keep as int);
    let after = crate::table::key_deltas(key, block.skip(i + 1));
    assert(content.skip(offset as int) == crate::delta::delta_bytes(keep, suffix) + after) by {
        assert(block.skip(i).drop_first() =~= block.skip(i + 1));
    }
    assert(prev.len() == 0 || (crate::order::lex_lt(prev, key) && last_key == prev)) by {
        if i > 0 {
            assert(block[i - 1].0.len() == 0 || crate::order::lex_lt(block[i - 1].0, block[i].0));
        }
    }
    lemma_key_from_difference(prev, key, last_key);
    assert(key.len() <= usize::MAX) by {
        crate::table::lemma_key_deltas_len(Seq::empty(), block);
        assert(key.len() <= crate::table::key_deltas(Seq::empty(), block).len());
    }
    lemma_delta_at_offset(content, offset, keep, suffix, after);
    DeltaPosition {
        content,
        offset: offset + crate::delta::delta_bytes(keep, suffix).len(),
        rest,
        idx: i as nat,
        keep,
        suffix,
    }
}

/// Reading the rest of a block, and the blocks that follow it.
#[verifier::spinoff_prover]
proof fn lemma_scan_in_block<T: SSTable>(
    blocks: Seq<Seq<(Seq<u8>, T::Value)>>,
    tail: Seq<u8>,
    i: int,
    pos: TablePosition,
)
    requires
        blocks.len() > 0,
        forall|b: int| 0 <= b < blocks.len() ==> readable::<T::ValueWriter>(#[trigger] blocks[b]),
        crate::block_reader::next_block(tail) is End,
        1 <= i <= blocks[0].len(),
        pos.key == blocks[0][i - 1].0,
        pos.delta.idx == i - 1,
        pos.delta.content == crate::table::content_of::<T::ValueWriter>(blocks[0]),
        pos.delta.rest == crate::table::bytes_of_blocks::<T::ValueWriter>(blocks.drop_first()) + tail,
        pos.delta.offset <= pos.delta.content.len(),
        pos.delta.content.skip(pos.delta.offset as int) == crate::table::key_deltas(
            blocks[0][i - 1].0,
            blocks[0].skip(i),
        ),
    ensures
        pos.scan::<T::ValueReader>() == (Scan {
            entries: crate::table::with_values(blocks[0].skip(i) + crate::table::entries_of(blocks.drop_first())),
            complete: true,
        }),
    decreases blocks.len(), blocks[0].len() - i,
{
    let block = blocks[0];
    let content = pos.delta.content;
    if i == block.len() {
        assert(block.skip(i) =~= Seq::empty());
        assert(pos.delta.offset == content.len()) by {
            assert(content.skip(pos.delta.offset as int).len() == 0);
        }
        assert forall|b: int| 0 <= b < blocks.drop_first().len() implies readable::<T::ValueWriter>(
            #[trigger] blocks.drop_first()[b],
        ) by {
            assert(readable::<T::ValueWriter>(blocks[b + 1]));
        }
        lemma_scan_blocks::<T>(blocks.drop_first(), tail, pos);
        assert(block.skip(i) + crate::table::entries_of(blocks.drop_first()) =~= crate::table::entries_of(
            blocks.drop_first(),
        ));
    } else {
        crate::table::lemma_key_deltas_len(block[i - 1].0, block.skip(i));
        let delta = lemma_key_at::<T::ValueWriter>(block, i, pos.delta.offset, pos.delta.rest, pos.key);
        let next = TablePosition { key: block[i].0, delta };
        assert(pos.next::<T::ValueReader>() == TableStep::Entry(next));
        lemma_value_in_block::<T>(block, i);
        lemma_scan_in_block::<T>(blocks, tail, i + 1, next);
        let ahead = block.skip(i) + crate::table::entries_of(blocks.drop_first());
        let further = block.skip(i + 1) + crate::table::entries_of(blocks.drop_first());
        assert(ahead =~= seq![block[i]] + further);
        assert(crate::table::with_values(ahead) =~= seq![(block[i].0, Some(block[i].1))] + crate::table::with_values(further));
    }
}

/// A block gives back its values.
proof fn lemma_value_in_block<T: SSTable>(block: Seq<(Seq<u8>, T::Value)>, i: int)
    requires
        readable::<T::ValueWriter>(block),
        0 <= i < block.len(),
    ensures
        <T::ValueReader as ValueReader>::value_in(
            crate::table::content_of::<T::ValueWriter>(block),
            i as nat,
        ) == Some(block[i].1),
        <T::ValueReader as ValueReader>::values_len(crate::table::content_of::<T::ValueWriter>(block)) == Some(
            <T::ValueWriter as ValueWriter>::encoded(crate::table::values_of(block)).len(),
        ),
{
    reveal(readable);
    crate::table::lemma_key_deltas_len(Seq::empty(), block);
    T::lemma_values_round_trip(
        crate::table::values_of(block),
        crate::table::key_deltas(Seq::empty(), block),
    );
}

/// A block stands at the start of its bytes.
proof fn lemma_next_block<VW: ValueWriter>(block: Seq<(Seq<u8>, VW::Value)>, rest: Seq<u8>)
    requires
        readable::<VW>(block),
    ensures
        crate::block_reader::next_block(crate::table::bytes_of_block::<VW>(block) + rest) == (
        crate::block_reader::NextBlock::Block { content: crate::table::content_of::<VW>(block), rest }),
{
    reveal(readable);
    let content = crate::table::content_of::<VW>(block);
    let len_bytes = crate::fixed_int::le_bytes(content.len(), 4);
    let data = crate::table::bytes_of_block::<VW>(block) + rest;
    crate::fixed_int::lemma_le_value_of_le_bytes_4(content.len());
    assert(content.len() > 0) by {
        crate::table::lemma_key_deltas_len(Seq::empty(), block);
    }
    assert(data =~= len_bytes + content + rest);
    assert(data.take(4) =~= len_bytes);
    assert(data.subrange(4, 4 + content.len() as int) =~= content);
    assert(data.skip(4 + content.len() as int) =~= rest);
}

/// Reading the first key of a block, whatever was read before it.
proof fn lemma_first_of_block<T: SSTable>(
    block: Seq<(Seq<u8>, T::Value)>,
    rest: Seq<u8>,
    pos: TablePosition,
) -> (next: TablePosition)
    requires
        readable::<T::ValueWriter>(block),
        pos.delta.offset >= pos.delta.content.len(),
        pos.delta.rest == crate::table::bytes_of_block::<T::ValueWriter>(block) + rest,
    ensures
        block.len() > 0,
        pos.next::<T::ValueReader>() == TableStep::Entry(next),
        next.key == block[0].0,
        next.value::<T::ValueReader>() == Some(block[0].1),
        next.delta.idx == 0,
        next.delta.content == crate::table::content_of::<T::ValueWriter>(block),
        next.delta.rest == rest,
        next.delta.offset <= next.delta.content.len(),
        next.delta.content.skip(next.delta.offset as int) == crate::table::key_deltas(block[0].0, block.skip(1)),
{
    reveal(readable);
    let content = crate::table::content_of::<T::ValueWriter>(block);
    lemma_next_block::<T::ValueWriter>(block, rest);
    lemma_value_in_block::<T>(block, 0);
    let offset = <T::ValueWriter as ValueWriter>::encoded(crate::table::values_of(block)).len();
    assert(content.skip(offset as int) =~= crate::table::key_deltas(Seq::empty(), block));
    assert(block.skip(0) =~= block);
    let delta = lemma_key_at::<T::ValueWriter>(block, 0, offset, rest, pos.key);
    TablePosition { key: block[0].0, delta }
}

/// Reading consecutive blocks, whatever was read before them.
#[verifier::spinoff_prover]
proof fn lemma_scan_blocks<T: SSTable>(
    blocks: Seq<Seq<(Seq<u8>, T::Value)>>,
    tail: Seq<u8>,
    pos: TablePosition,
)
    requires
        forall|b: int| 0 <= b < blocks.len() ==> readable::<T::ValueWriter>(#[trigger] blocks[b]),
        crate::block_reader::next_block(tail) is End,
        pos.delta.offset >= pos.delta.content.len(),
        pos.delta.rest == crate::table::bytes_of_blocks::<T::ValueWriter>(blocks) + tail,
    ensures
        pos.scan::<T::ValueReader>() == (Scan {
            entries: crate::table::with_values(crate::table::entries_of(blocks)),
            complete: true,
        }),
    decreases
            blocks.len(),
            if blocks.len() == 0 {
                0
            } else {
                blocks[0].len() + 1
            },
{
    if blocks.len() == 0 {
        assert(pos.delta.rest =~= tail);
        assert(crate::table::with_values(crate::table::entries_of(blocks)) =~= Seq::empty());
    } else {
        let block = blocks[0];
        let rest = crate::table::bytes_of_blocks::<T::ValueWriter>(blocks.drop_first()) + tail;
        assert(pos.delta.rest =~= crate::table::bytes_of_block::<T::ValueWriter>(block) + rest);
        let next = lemma_first_of_block::<T>(block, rest, pos);
        lemma_scan_in_block::<T>(blocks, tail, 1, next);
        let further = block.skip(1) + crate::table::entries_of(blocks.drop_first());
        assert(crate::table::entries_of(blocks) =~= seq![block[0]] + further);
        assert(crate::table::with_values(crate::table::entries_of(blocks)) =~= seq![(block[0].0, Some(block[0].1))] + crate::table::with_values(
            further,
        ));
    }
}

/// The blocks of a table can be read back.
proof fn lemma_all_readable<VW: ValueWriter>(entries: Seq<(Seq<u8>, VW::Value)>)
    requires
        crate::table::accepted::<VW>(entries),
        crate::table::blocks_fit::<VW>(entries),
    ensures
        forall|b: int|
            0 <= b < crate::table::all_blocks(entries).len() ==> readable::<VW>(
                #[trigger] crate::table::all_blocks(entries)[b],
            ),
{
    reveal(readable);
    let all = crate::table::all_blocks(entries);
    let closed = crate::table::blocks_of(entries).closed;
    let _ = lemma_table_bytes::<VW>(entries);
    lemma_accepted_blocks::<VW>(entries);
    assert forall|b: int| 0 <= b < all.len() implies readable::<VW>(#[trigger] all[b]) by {
        if b < closed.len() {
            assert(all[b] == closed[b]);
        }
    }
}

/// An empty block ends the blocks, whatever follows it.
proof fn lemma_empty_block_ends(tail: Seq<u8>)
    ensures
        crate::block_reader::next_block(crate::fixed_int::le_bytes(0, 4) + tail) is End,
{
    let ending = crate::fixed_int::le_bytes(0, 4);
    crate::fixed_int::lemma_le_value_of_le_bytes_4(0);
    assert((ending + tail).take(4) =~= ending);
}

/// The blocks of the table with the given entries, an empty block that ends them, and `tail`.
pub open spec fn ended_blocks<VW: ValueWriter>(entries: Seq<(Seq<u8>, VW::Value)>, tail: Seq<u8>) -> Seq<u8> {
    crate::table::bytes_of_blocks::<VW>(crate::table::all_blocks(entries)) + crate::fixed_int::le_bytes(0, 4) + tail
}

/// What follows the empty block is never read: whatever it is, reading gives the entries, in order,
/// each with its value, and nothing else.
pub proof fn law_tail_is_not_read<T: SSTable>(entries: Seq<(Seq<u8>, T::Value)>, tail: Seq<u8>)
    requires
        crate::table::accepted::<T::ValueWriter>(entries),
        crate::table::blocks_fit::<T::ValueWriter>(entries),
    ensures
        TablePosition::before(ended_blocks::<T::ValueWriter>(entries, tail)).scan::<T::ValueReader>() == (Scan {
            entries: crate::table::with_values(entries),
            complete: true,
        }),
{
    let all = crate::table::all_blocks(entries);
    let data = ended_blocks::<T::ValueWriter>(entries, tail);
    let ending = crate::fixed_int::le_bytes(0, 4) + tail;
    let _ = lemma_table_bytes::<T::ValueWriter>(entries);
    lemma_all_readable::<T::ValueWriter>(entries);
    lemma_empty_block_ends(tail);
    assert(data =~= crate::table::bytes_of_blocks::<T::ValueWriter>(all) + ending);
    lemma_scan_blocks::<T>(all, ending, TablePosition::before(data));
}

/// A table gives back the entries that were inserted, in order, each with its value, and nothing
/// else. The length of every block has to fit in the four bytes that it is written in.
pub proof fn law_read_back<T: SSTable>(entries: Seq<(Seq<u8>, T::Value)>)
    requires
        crate::table::accepted::<T::ValueWriter>(entries),
        crate::table::blocks_fit::<T::ValueWriter>(entries),
    ensures
        TablePosition::before(crate::table::table_bytes::<T::ValueWriter>(entries)).scan::<T::ValueReader>() == (Scan {
            entries: crate::table::with_values(entries),
            complete: true,
        }),
{
    let footer = lemma_table_bytes::<T::ValueWriter>(entries);
    assert(crate::table::table_bytes::<T::ValueWriter>(entries) =~= ended_blocks::<T::ValueWriter>(entries, footer));
    law_tail_is_not_read::<T>(entries, footer);
}

/// What lies ahead of a reader comes out call by call: each call gives the next key with its value,
/// and the call after the last one tells whether the end of the table was reached.
pub proof fn law_calls_give_scan<VR: ValueReader>(pos: TablePosition, calls: nat)
    requires
        calls <= pos.scan::<VR>().entries.len(),
    ensures
        ({
            let ahead = pos.scan::<VR>();
            let now = pos.advanced::<VR>(calls);
            &&& now.scan::<VR>() == (Scan { entries: ahead.entries.skip(calls as int), complete: ahead.complete })
            &&& calls > 0 ==> (now.key, now.value::<VR>()) == ahead.entries[calls - 1]
            &&& match now.next::<VR>() {
                TableStep::Entry(_) => calls < ahead.entries.len(),
                TableStep::End => calls == ahead.entries.len() && ahead.complete,
                TableStep::Corrupted => calls == ahead.entries.len() && !ahead.complete,
            }
        }),
    decreases calls,
{
    let ahead = pos.scan::<VR>();
    let now = pos.advanced::<VR>(calls);
    if calls == 0 {
        assert(ahead.entries.skip(0) =~= ahead.entries);
    } else {
        let before = pos.advanced::<VR>((calls - 1) as nat);
        law_calls_give_scan::<VR>(pos, (calls - 1) as nat);
        assert(before.next::<VR>() == TableStep::Entry(now));
        assert(before.scan::<VR>().entries[0] == (now.key, now.value::<VR>()));
        assert(before.scan::<VR>().entries =~= seq![(now.key, now.value::<VR>())] + now.scan::<VR>().entries);
        assert(now.scan::<VR>().entries =~= before.scan::<VR>().entries.skip(1));
        assert(ahead.entries.skip(calls - 1).skip(1) =~= ahead.entries.skip(calls as int));
    }
    assert(now.next::<VR>() is Entry ==> now.scan::<VR>().entries.len() > 0);
}

/// A reader stays at the end of the table.
proof fn lemma_stays_at_end<VR: ValueReader>(pos: TablePosition, end: nat, calls: nat)
    requires
        pos.advanced::<VR>(end).next::<VR>() is End,
        end <= calls,
    ensures
        pos.advanced::<VR>(calls) == pos.advanced::<VR>(end),
    decreases calls,
{
    if end < calls {
        lemma_stays_at_end::<VR>(pos, end, (calls - 1) as nat);
    }
}

/// Two readers of the same blocks, with whatever follows the empty block that ends them, agree call
/// by call: after any number of calls they have the same key and the same value, and the next call
/// gives both a key or tells both that the end of the table was reached.
pub proof fn law_readers_agree<T: SSTable>(
    entries: Seq<(Seq<u8>, T::Value)>,
    tail: Seq<u8>,
    other_tail: Seq<u8>,
    calls: nat,
)
    requires
        crate::table::accepted::<T::ValueWriter>(entries),
        crate::table::blocks_fit::<T::ValueWriter>(entries),
    ensures
        ({
            let first = TablePosition::before(ended_blocks::<T::ValueWriter>(entries, tail));
            let other = TablePosition::before(ended_blocks::<T::ValueWriter>(entries, other_tail));
            let a = first.advanced::<T::ValueReader>(calls);
            let b = other.advanced::<T::ValueReader>(calls);
            &&& a.key == b.key
            &&& a.value::<T::ValueReader>() == b.value::<T::ValueReader>()
            &&& if calls < entries.len() {
                a.next::<T::ValueReader>() is Entry && b.next::<T::ValueReader>() is Entry
            } else {
                a.next::<T::ValueReader>() is End && b.next::<T::ValueReader>() is End
            }
        }),
{
    let first = TablePosition::before(ended_blocks::<T::ValueWriter>(entries, tail));
    let other = TablePosition::before(ended_blocks::<T::ValueWriter>(entries, other_tail));
    let end = entries.len();
    let moved = if calls < end {
        calls
    } else {
        end
    };
    law_tail_is_not_read::<T>(entries, tail);
    law_tail_is_not_read::<T>(entries, other_tail);
    law_calls_give_scan::<T::ValueReader>(first, moved);
    law_calls_give_scan::<T::ValueReader>(other, moved);
    if end <= calls {
        lemma_stays_at_end::<T::ValueReader>(first, end, calls);
        lemma_stays_at_end::<T::ValueReader>(other, end, calls);
    }
}

/// The values of a block take less than a quarter of what the length of a block can be.
pub open spec fn compact_values<VW: ValueWriter>() -> bool {
    forall|values: Seq<VW::Value>| #[trigger]
        VW::writable(values) && values.len() <= BLOCK_LEN + 1 ==> VW::encoded(values).len() < 0x4000_0000
}

/// The values of every kind of table are compact.
pub proof fn law_values_are_compact()
    ensures
        compact_values::<VoidValueWriter>(),
        compact_values::<U64MonotonicValueWriter>(),
        compact_values::<RangeValueWriter>(),
{
    assert forall|values: Seq<u64>| #[trigger]
        U64MonotonicValueWriter::writable(values) && values.len() <= BLOCK_LEN
            + 1 implies U64MonotonicValueWriter::encoded(values).len() < 0x4000_0000 by {
        crate::value::u64_monotonic::lemma_u64s_bytes_len(values);
    }
    assert forall|values: Seq<Range<u64>>| #[trigger]
        RangeValueWriter::writable(values) && values.len() <= BLOCK_LEN + 1 implies RangeValueWriter::encoded(
        values,
    ).len() < 0x4000_0000 by {
        crate::value::range::lemma_ranges_of_offsets_of(values);
        crate::value::u64_monotonic::lemma_u64s_bytes_len(crate::value::range::offsets_of(values));
    }
}

/// A block of entries with short keys.
spec fn small<V>(block: Seq<(Seq<u8>, V)>) -> bool {
    &&& block.len() <= BLOCK_LEN + 1
    &&& crate::table::key_deltas(Seq::empty(), block).len() <= BLOCK_LEN + 21 + 0x4000_0000
}

proof fn lemma_short_keys<V>(entries: Seq<(Seq<u8>, V)>)
    requires
        forall|i: int| 0 <= i < entries.len() ==> (#[trigger] entries[i]).0.len() < 0x4000_0000,
    ensures
        forall|i: int|
            0 <= i < crate::table::blocks_of(entries).closed.len() ==> small(
                #[trigger] crate::table::blocks_of(entries).closed[i],
            ),
        crate::table::key_deltas(Seq::empty(), crate::table::blocks_of(entries).open).len() <= BLOCK_LEN,
    decreases entries.len(),
{
    if entries.len() > 0 {
        let old_entries = entries.drop_last();
        let old_blocks = crate::table::blocks_of(old_entries);
        let entry = entries.last();
        let open = old_blocks.open.push(entry);
        lemma_short_keys(old_entries);
        crate::table::lemma_key_deltas_len(Seq::empty(), old_blocks.open);
        crate::table::lemma_key_deltas_push(Seq::empty(), old_blocks.open, entry);
        let last = if old_blocks.open.len() == 0 {
            Seq::empty()
        } else {
            old_blocks.open.last().0
        };
        let keep = crate::order::common_prefix(last, entry.0);
        crate::order::lemma_common_prefix(last, entry.0);
        crate::vint::lemma_vint_bytes_len(keep);
        crate::vint::lemma_vint_bytes_len((entry.0.len() - keep) as nat);
        assert(small(open));
    }
}

/// A table whose keys are shorter than a gigabyte has blocks whose lengths fit, if its values are
/// compact.
pub proof fn law_short_keys_fit<VW: ValueWriter>(entries: Seq<(Seq<u8>, VW::Value)>)
    requires
        crate::table::accepted::<VW>(entries),
        compact_values::<VW>(),
        forall|i: int| 0 <= i < entries.len() ==> (#[trigger] entries[i]).0.len() < 0x4000_0000,
    ensures
        crate::table::blocks_fit::<VW>(entries),
{
    let blocks = crate::table::blocks_of(entries);
    let all = crate::table::all_blocks(entries);
    lemma_short_keys(entries);
    lemma_accepted_blocks::<VW>(entries);
    crate::table::lemma_key_deltas_len(Seq::empty(), blocks.open);
    assert forall|i: int| 0 <= i < all.len() implies crate::table::content_of::<VW>(#[trigger] all[i]).len()
        < 0x1_0000_0000 by {
        if i < blocks.closed.len() {
            assert(all[i] == blocks.closed[i]);
        }
        assert(small(all[i]));
        assert(VW::writable(crate::table::values_of(all[i])));
    }
}

/// Any key that comes later in a block is not smaller.
proof fn lemma_ordered_keys<V>(entries: Seq<(Seq<u8>, V)>, i: int, j: int)
    requires
        crate::table::keys_ordered(entries),
        0 <= i < j < entries.len(),
    ensures
        crate::order::lex_lt(entries[i].0, entries[j].0) || (entries[i].0.len() == 0 && entries[j].0.len() == 0),
    decreases j - i,
{
    assert(entries[j - 1].0.len() == 0 || crate::order::lex_lt(entries[j - 1].0, entries[j].0));
    if i < j - 1 {
        lemma_ordered_keys(entries, i, j - 1);
        if entries[j - 1].0.len() > 0 {
            crate::order::lemma_lex_lt_transitive(entries[i].0, entries[j - 1].0, entries[j].0);
        }
    }
}

/// The index lists where each of the consecutive blocks starts and ends, and how many terms come
/// before it.
pub open spec fn locates<VW: ValueWriter>(
    index: Seq<IndexedBlock>,
    blocks: Seq<Seq<(Seq<u8>, VW::Value)>>,
) -> bool {
    &&& index.len() == blocks.len()
    &&& forall|i: int|
        0 <= i < index.len() ==> {
            &&& (#[trigger] index[i]).start == crate::table::bytes_of_blocks::<VW>(blocks.take(i)).len()
            &&& index[i].end == crate::table::bytes_of_blocks::<VW>(blocks.take(i + 1)).len()
            &&& index[i].first_ordinal == crate::table::entries_of(blocks.take(i)).len()
        }
}

/// The key that the index has for a block is not smaller than the last key of the block, no longer,
/// and smaller than the first key of the next one.
spec fn bounds<V>(index: Seq<IndexedBlock>, blocks: Seq<Seq<(Seq<u8>, V)>>) -> bool {
    &&& forall|i: int|
        0 <= i < index.len() ==> crate::order::lex_le(
            blocks[i].last().0,
            (#[trigger] index[i]).last_key_or_greater,
        ) && index[i].last_key_or_greater.len() <= blocks[i].last().0.len()
    &&& forall|i: int, j: int|
        0 <= i && j == i + 1 && j < index.len() ==> separates(
            #[trigger] index[i],
            blocks[i],
            (#[trigger] blocks[j])[0].0,
        )
}

/// The index has the last key of the block, shortened given the next key.
spec fn separates<V>(indexed: IndexedBlock, block: Seq<(Seq<u8>, V)>, next_key: Seq<u8>) -> bool {
    &&& crate::order::lex_lt(indexed.last_key_or_greater, next_key)
    &&& indexed.last_key_or_greater == crate::sstable_index::shortened(block.last().0, next_key)
}

/// One more block in the index.
proof fn lemma_index_push<VW: ValueWriter>(
    index: Seq<IndexedBlock>,
    blocks: Seq<Seq<(Seq<u8>, VW::Value)>>,
    block: Seq<(Seq<u8>, VW::Value)>,
    indexed: IndexedBlock,
)
    requires
        locates::<VW>(index, blocks),
        bounds(index, blocks),
        block.len() > 0,
        index.len() > 0 ==> separates(index.last(), blocks.last(), block[0].0),
        indexed.last_key_or_greater == block.last().0,
        indexed.start == crate::table::bytes_of_blocks::<VW>(blocks).len(),
        indexed.end == indexed.start + crate::table::bytes_of_block::<VW>(block).len(),
        indexed.first_ordinal == crate::table::entries_of(blocks).len(),
    ensures
        locates::<VW>(index.push(indexed), blocks.push(block)),
        bounds(index.push(indexed), blocks.push(block)),
{
    let new_index = index.push(indexed);
    let new_blocks = blocks.push(block);
    crate::table::lemma_bytes_of_blocks_push::<VW>(blocks, block);
    assert forall|i: int| 0 <= i < new_index.len() implies {
        &&& (#[trigger] new_index[i]).start == crate::table::bytes_of_blocks::<VW>(new_blocks.take(i)).len()
        &&& new_index[i].end == crate::table::bytes_of_blocks::<VW>(new_blocks.take(i + 1)).len()
        &&& new_index[i].first_ordinal == crate::table::entries_of(new_blocks.take(i)).len()
    } by {
        if i < index.len() {
            assert(new_index[i] == index[i]);
            assert(new_blocks.take(i) =~= blocks.take(i));
            assert(new_blocks.take(i + 1) =~= blocks.take(i + 1));
        } else {
            assert(new_blocks.take(i) =~= blocks);
            assert(new_blocks.take(i + 1) =~= new_blocks);
        }
    }
    assert forall|i: int| 0 <= i < new_index.len() implies crate::order::lex_le(
        new_blocks[i].last().0,
        (#[trigger] new_index[i]).last_key_or_greater,
    ) by {
        if i < index.len() {
            assert(new_index[i] == index[i]);
        }
    }
    assert forall|i: int, j: int| 0 <= i && j == i + 1 && j < new_index.len() implies separates(
        #[trigger] new_index[i],
        new_blocks[i],
        (#[trigger] new_blocks[j])[0].0,
    ) by {
        assert(new_index[i] == index[i]);
        assert(new_blocks[i] == blocks[i]);
        if j < index.len() {
            assert(new_blocks[j] == blocks[j]);
        }
    }
}

/// What the index holds of the closed blocks.
proof fn lemma_index<VW: ValueWriter>(entries: Seq<(Seq<u8>, VW::Value)>)
    requires
        crate::table::accepted::<VW>(entries),
    ensures
        ({
            let blocks = crate::table::blocks_of(entries);
            let index = crate::table::written::<VW>(Seq::empty(), entries).index;
            &&& locates::<VW>(index, blocks.closed)
            &&& bounds(index, blocks.closed)
            &&& index.len() > 0 ==> if blocks.open.len() > 0 {
                separates(index.last(), blocks.closed.last(), blocks.open[0].0)
            } else {
                index.last().last_key_or_greater == blocks.closed.last().last().0
            }
        }),
    decreases entries.len(),
{
    if entries.len() > 0 {
        let old_entries = entries.drop_last();
        let old_state = crate::table::written::<VW>(Seq::empty(), old_entries);
        let old_blocks = crate::table::blocks_of(old_entries);
        let entry = entries.last();
        lemma_index::<VW>(old_entries);
        crate::table::lemma_describes::<VW>(Seq::empty(), old_entries);
        crate::table::lemma_describes::<VW>(Seq::empty(), entries);
        let open = old_blocks.open.push(entry);
        let keyed = old_state.with_key(entry.0);
        let n = old_state.index.len();
        if n > 0 && old_blocks.open.len() == 0 {
            let left = old_state.index.last().last_key_or_greater;
            crate::sstable_index::lemma_shortened_between(left, entry.0);
            assert forall|i: int| 0 <= i < keyed.index.len() implies crate::order::lex_le(
                old_blocks.closed[i].last().0,
                (#[trigger] keyed.index[i]).last_key_or_greater,
            ) by {
                if i < n - 1 {
                    assert(keyed.index[i] == old_state.index[i]);
                }
            }
            assert forall|i: int| 0 <= i < keyed.index.len() implies {
                let blocks = old_blocks.closed;
                &&& (#[trigger] keyed.index[i]).start == crate::table::bytes_of_blocks::<VW>(blocks.take(i)).len()
                &&& keyed.index[i].end == crate::table::bytes_of_blocks::<VW>(blocks.take(i + 1)).len()
                &&& keyed.index[i].first_ordinal == crate::table::entries_of(blocks.take(i)).len()
            } by {
                assert(old_state.index[i].start == keyed.index[i].start);
            }
            assert forall|i: int, j: int| 0 <= i && j == i + 1 && j < keyed.index.len() implies separates(
                #[trigger] keyed.index[i],
                old_blocks.closed[i],
                (#[trigger] old_blocks.closed[j])[0].0,
            ) by {
                assert(keyed.index[i] == old_state.index[i]);
            }
        }
        assert(locates::<VW>(keyed.index, old_blocks.closed));
        assert(bounds(keyed.index, old_blocks.closed));
        assert(n > 0 ==> separates(keyed.index.last(), old_blocks.closed.last(), open[0].0));
        if crate::table::key_deltas(Seq::empty(), open).len() > BLOCK_LEN {
            let index = crate::table::written::<VW>(Seq::empty(), entries).index;
            assert(entry == open.last());
            assert(crate::table::entries_of(old_blocks.closed).len() == old_state.first_ordinal);
            assert(index =~= keyed.index.push(index.last()));
            crate::table::lemma_bytes_of_blocks_push::<VW>(old_blocks.closed, open);
            lemma_index_push::<VW>(keyed.index, old_blocks.closed, open, index.last());
        }
    }
}

/// The last entry is the last one of the open block, or of the last closed one.
pub(crate) proof fn lemma_last_entry<VW: ValueWriter>(entries: Seq<(Seq<u8>, VW::Value)>)
    requires
        entries.len() > 0,
    ensures
        ({
            let blocks = crate::table::blocks_of(entries);
            if blocks.open.len() > 0 {
                blocks.open.last() == entries.last()
            } else {
                &&& blocks.closed.len() > 0
                &&& blocks.closed.last().len() > 0
                &&& blocks.closed.last().last() == entries.last()
            }
        }),
{
    let blocks = crate::table::blocks_of(entries);
    crate::table::lemma_describes::<VW>(Seq::empty(), entries);
    if blocks.open.len() == 0 {
        assert(crate::table::entries_of(blocks.closed) + blocks.open =~= crate::table::entries_of(blocks.closed));
        let last = blocks.closed.last();
        crate::table::lemma_entries_of_push(blocks.closed.drop_last(), last);
        assert(blocks.closed.drop_last().push(last) =~= blocks.closed);
    }
}

/// The keys of a table are in order: a key comes before every key that was inserted after it. The
/// empty key alone can stand more than once, at the start of the table.
pub proof fn law_keys_in_order<VW: ValueWriter>(entries: Seq<(Seq<u8>, VW::Value)>)
    requires
        crate::table::accepted::<VW>(entries),
    ensures
        forall|i: int, j: int|
            0 <= i < j < entries.len() ==> crate::order::lex_lt(
                (#[trigger] entries[i]).0,
                (#[trigger] entries[j]).0,
            ) || (entries[i].0.len() == 0 && entries[j].0.len() == 0),
{
    lemma_accepted_keys_ordered::<VW>(entries);
    assert forall|i: int, j: int| 0 <= i < j < entries.len() implies crate::order::lex_lt(
        (#[trigger] entries[i]).0,
        (#[trigger] entries[j]).0,
    ) || (entries[i].0.len() == 0 && entries[j].0.len() == 0) by {
        lemma_ordered_keys(entries, i, j);
    }
}

proof fn lemma_accepted_keys_ordered<VW: ValueWriter>(entries: Seq<(Seq<u8>, VW::Value)>)
    requires
        crate::table::accepted::<VW>(entries),
    ensures
        crate::table::keys_ordered(entries),
    decreases entries.len(),
{
    if entries.len() > 1 {
        let old_entries = entries.drop_last();
        lemma_accepted_keys_ordered::<VW>(old_entries);
        lemma_last_entry::<VW>(old_entries);
        lemma_index::<VW>(old_entries);
        crate::table::lemma_describes::<VW>(Seq::empty(), old_entries);
        assert forall|i: int, j: int| 0 <= i && j == i + 1 && j < entries.len() implies (#[trigger] entries[i]).0.len()
            == 0 || crate::order::lex_lt(entries[i].0, (#[trigger] entries[j]).0) by {
            if j < old_entries.len() {
                assert(old_entries[i].0.len() == 0 || crate::order::lex_lt(old_entries[i].0, old_entries[j].0));
            } else {
                assert(entries[i] == old_entries.last());
            }
        }
    }
}

/// Keys that strictly increase, with values that could be written in one block, can always be
/// inserted.
pub proof fn law_increasing_keys_accepted<VW: ValueWriter>(entries: Seq<(Seq<u8>, VW::Value)>)
    requires
        crate::order::strictly_increasing(crate::table::keys_of(entries)),
        VW::writable(crate::table::values_of(entries)),
        entries.len() <= u64::MAX,
    ensures
        crate::table::accepted::<VW>(entries),
    decreases entries.len(),
{
    if entries.len() > 0 {
        let old_entries = entries.drop_last();
        let blocks = crate::table::blocks_of(old_entries);
        let entry = entries.last();
        let n = old_entries.len() as int;
        let keys = crate::table::keys_of(entries);
        let values = crate::table::values_of(entries);
        assert forall|i: int, j: int| 0 <= i < j < n implies crate::order::lex_lt(
            #[trigger] crate::table::keys_of(old_entries)[i],
            #[trigger] crate::table::keys_of(old_entries)[j],
        ) by {
            assert(crate::order::lex_lt(keys[i], keys[j]));
        }
        VW::lemma_writable_subrange(values, 0, n);
        assert(crate::table::values_of(old_entries) =~= values.subrange(0, n));
        law_increasing_keys_accepted::<VW>(old_entries);
        crate::table::lemma_describes::<VW>(Seq::empty(), old_entries);
        let open_from = n - blocks.open.len();
        VW::lemma_writable_subrange(values, open_from, n + 1);
        assert(crate::table::values_of(blocks.open).push(entry.1) =~= values.subrange(open_from, n + 1)) by {
            assert forall|i: int| 0 <= i < blocks.open.len() implies blocks.open[i] == old_entries[open_from + i] by {
                assert(old_entries == crate::table::entries_of(blocks.closed) + blocks.open);
            }
        }
        if n > 0 {
            assert(crate::order::lex_lt(keys[n - 1], keys[n]));
            lemma_last_entry::<VW>(old_entries);
            lemma_index::<VW>(old_entries);
        }
    }
}

/// The index of a finished table.
pub open spec fn index_of<VW: ValueWriter>(entries: Seq<(Seq<u8>, VW::Value)>) -> Seq<IndexedBlock> {
    crate::table::written::<VW>(Seq::empty(), entries).flushed::<VW>().index
}

proof fn lemma_index_of<VW: ValueWriter>(entries: Seq<(Seq<u8>, VW::Value)>)
    requires
        crate::table::accepted::<VW>(entries),
    ensures
        locates::<VW>(index_of::<VW>(entries), crate::table::all_blocks(entries)),
        bounds(index_of::<VW>(entries), crate::table::all_blocks(entries)),
{
    let state = crate::table::written::<VW>(Seq::empty(), entries);
    let blocks = crate::table::blocks_of(entries);
    lemma_index::<VW>(entries);
    crate::table::lemma_describes::<VW>(Seq::empty(), entries);
    crate::table::lemma_key_deltas_len(Seq::empty(), blocks.open);
    if blocks.open.len() > 0 {
        let index = index_of::<VW>(entries);
        assert(index =~= state.index.push(index.last()));
        crate::table::lemma_bytes_of_blocks_push::<VW>(blocks.closed, blocks.open);
        lemma_index_push::<VW>(state.index, blocks.closed, blocks.open, index.last());
    }
}

/// What the index has for a block that another one follows.
pub(crate) proof fn lemma_separator<VW: ValueWriter>(entries: Seq<(Seq<u8>, VW::Value)>, i: int)
    requires
        crate::table::accepted::<VW>(entries),
        0 <= i < crate::table::all_blocks(entries).len() - 1,
    ensures
        index_of::<VW>(entries)[i].last_key_or_greater == crate::sstable_index::shortened(
            crate::table::all_blocks(entries)[i].last().0,
            crate::table::all_blocks(entries)[i + 1][0].0,
        ),
{
    let blocks = crate::table::all_blocks(entries);
    lemma_index_of::<VW>(entries);
    assert(separates(index_of::<VW>(entries)[i], blocks[i], blocks[i + 1][0].0));
}

/// What the index has for the last block, before and after the table is finished.
pub(crate) proof fn lemma_last_index_key<VW: ValueWriter>(entries: Seq<(Seq<u8>, VW::Value)>)
    requires
        crate::table::accepted::<VW>(entries),
        entries.len() > 0,
    ensures
        ({
            let state = crate::table::written::<VW>(Seq::empty(), entries);
            let index = index_of::<VW>(entries);
            &&& index.len() > 0
            &&& index.last().last_key_or_greater == entries.last().0
            &&& state.at_block_start() ==> state.index == index
        }),
{
    lemma_index::<VW>(entries);
    lemma_last_entry::<VW>(entries);
    crate::table::lemma_describes::<VW>(Seq::empty(), entries);
    crate::table::lemma_key_deltas_len(Seq::empty(), crate::table::blocks_of(entries).open);
}

proof fn lemma_block_bytes_in<VW: ValueWriter>(blocks: Seq<Seq<(Seq<u8>, VW::Value)>>, i: int)
    requires
        0 <= i < blocks.len(),
    ensures
        ({
            let start = crate::table::bytes_of_blocks::<VW>(blocks.take(i)).len() as int;
            let end = crate::table::bytes_of_blocks::<VW>(blocks.take(i + 1)).len() as int;
            let all = crate::table::bytes_of_blocks::<VW>(blocks);
            &&& 0 <= start <= end <= all.len()
            &&& all.subrange(start, end) == crate::table::bytes_of_block::<VW>(blocks[i])
        }),
    decreases i,
{
    let all = crate::table::bytes_of_blocks::<VW>(blocks);
    let first = crate::table::bytes_of_block::<VW>(blocks[0]);
    assert(blocks.take(i + 1).drop_first() =~= blocks.drop_first().take(i));
    if i == 0 {
        assert(crate::table::bytes_of_blocks::<VW>(blocks.drop_first().take(0)) =~= Seq::empty());
        assert(all.subrange(0, first.len() as int) =~= first);
    } else {
        lemma_block_bytes_in::<VW>(blocks.drop_first(), i - 1);
        assert(blocks.take(i).drop_first() =~= blocks.drop_first().take(i - 1));
        let start = crate::table::bytes_of_blocks::<VW>(blocks.take(i)).len() as int;
        let end = crate::table::bytes_of_blocks::<VW>(blocks.take(i + 1)).len() as int;
        let tail = crate::table::bytes_of_blocks::<VW>(blocks.drop_first());
        assert(all.subrange(start, end) =~= tail.subrange(start - first.len(), end - first.len()));
    }
}

/// The layout of a table: the blocks, in which the entries stand in order, an empty block that ends
/// them, the index, where the index starts, and how many terms there are. The index tells where
/// each block lies and how many terms come before it.
pub proof fn law_layout<VW: ValueWriter>(entries: Seq<(Seq<u8>, VW::Value)>)
    requires
        crate::table::accepted::<VW>(entries),
    ensures
        ({
            let blocks = crate::table::all_blocks(entries);
            let data = crate::table::bytes_of_blocks::<VW>(blocks) + crate::fixed_int::le_bytes(0, 4);
            let index = index_of::<VW>(entries);
            let bytes = crate::table::table_bytes::<VW>(entries);
            &&& crate::table::entries_of(blocks) == entries
            &&& bytes == data + crate::sstable_index::index_bytes(index) + crate::fixed_int::le_bytes(data.len(), 8)
                + crate::fixed_int::le_bytes(entries.len(), 8)
            &&& locates::<VW>(index, blocks)
            &&& forall|i: int|
                0 <= i < index.len() ==> bytes.subrange((#[trigger] index[i]).start as int, index[i].end as int)
                    == crate::table::bytes_of_block::<VW>(blocks[i])
        }),
{
    let blocks = crate::table::all_blocks(entries);
    let all = crate::table::bytes_of_blocks::<VW>(blocks);
    let data = all + crate::fixed_int::le_bytes(0, 4);
    let index = index_of::<VW>(entries);
    let bytes = crate::table::table_bytes::<VW>(entries);
    let footer = lemma_table_bytes::<VW>(entries);
    lemma_index_of::<VW>(entries);
    lemma_written_of_all::<VW>(entries);
    assert forall|i: int| 0 <= i < index.len() implies bytes.subrange(
        (#[trigger] index[i]).start as int,
        index[i].end as int,
    ) == crate::table::bytes_of_block::<VW>(blocks[i]) by {
        lemma_block_bytes_in::<VW>(blocks, i);
        assert(bytes.subrange(index[i].start as int, index[i].end as int) =~= all.subrange(
            index[i].start as int,
            index[i].end as int,
        ));
    }
}

/// Consecutive blocks are the first of them, then the others.
pub(crate) proof fn lemma_split_blocks<VW: ValueWriter>(blocks: Seq<Seq<(Seq<u8>, VW::Value)>>, i: int)
    requires
        0 <= i <= blocks.len(),
    ensures
        crate::table::bytes_of_blocks::<VW>(blocks) == crate::table::bytes_of_blocks::<VW>(blocks.take(i))
            + crate::table::bytes_of_blocks::<VW>(blocks.skip(i)),
        crate::table::entries_of(blocks) == crate::table::entries_of(blocks.take(i)) + crate::table::entries_of(
            blocks.skip(i),
        ),
    decreases i,
{
    if i == 0 {
        assert(blocks.skip(0) =~= blocks);
        assert(crate::table::bytes_of_blocks::<VW>(blocks.take(0)) =~= Seq::empty());
        assert(crate::table::entries_of(blocks.take(0)) =~= Seq::empty());
    } else {
        lemma_split_blocks::<VW>(blocks.drop_first(), i - 1);
        assert(blocks.take(i).drop_first() =~= blocks.drop_first().take(i - 1));
        assert(blocks.drop_first().skip(i - 1) =~= blocks.skip(i));
    }
}

/// Reading the bytes of a block alone.
proof fn lemma_scan_one_block<T: SSTable>(block: Seq<(Seq<u8>, T::Value)>)
    requires
        readable::<T::ValueWriter>(block),
    ensures
        TablePosition::before(crate::table::bytes_of_block::<T::ValueWriter>(block)).scan::<T::ValueReader>() == (
        Scan { entries: crate::table::with_values(block), complete: true }),
{
    let one = seq![block];
    let none = Seq::<u8>::empty();
    let bytes = crate::table::bytes_of_block::<T::ValueWriter>(block);
    assert(one.drop_first() =~= Seq::empty());
    assert(crate::table::bytes_of_blocks::<T::ValueWriter>(one.drop_first()) =~= none);
    assert(crate::table::entries_of(one.drop_first()) =~= Seq::empty());
    assert(crate::table::entries_of(one) =~= block);
    assert(bytes =~= crate::table::bytes_of_blocks::<T::ValueWriter>(one) + none);
    lemma_scan_blocks::<T>(one, none, TablePosition::before(bytes));
}

/// A block can be read without the blocks before it. From where the index says that the block
/// starts, reading gives the entries from the block's first ordinal on, so the first call gives the
/// entry with that ordinal. The bytes of the block alone give the entries of the block.
#[verifier::spinoff_prover]
pub proof fn law_block_read_alone<T: SSTable>(entries: Seq<(Seq<u8>, T::Value)>, i: int)
    requires
        crate::table::accepted::<T::ValueWriter>(entries),
        crate::table::blocks_fit::<T::ValueWriter>(entries),
        0 <= i < index_of::<T::ValueWriter>(entries).len(),
    ensures
        ({
            let listed = index_of::<T::ValueWriter>(entries)[i];
            let bytes = crate::table::table_bytes::<T::ValueWriter>(entries);
            let from = TablePosition::before(bytes.skip(listed.start as int));
            let alone = TablePosition::before(bytes.subrange(listed.start as int, listed.end as int));
            &&& listed.first_ordinal < entries.len()
            &&& from.next::<T::ValueReader>() matches TableStep::Entry(next) && {
                &&& next.key == entries[listed.first_ordinal as int].0
                &&& next.value::<T::ValueReader>() == Some(entries[listed.first_ordinal as int].1)
            }
            &&& from.scan::<T::ValueReader>() == (Scan {
                entries: crate::table::with_values(entries.skip(listed.first_ordinal as int)),
                complete: true,
            })
            &&& alone.scan::<T::ValueReader>() == (Scan {
                entries: crate::table::with_values(crate::table::all_blocks(entries)[i]),
                complete: true,
            })
        }),
{
    let blocks = crate::table::all_blocks(entries);
    let listed = index_of::<T::ValueWriter>(entries)[i];
    let start = listed.start as int;
    let bytes = crate::table::table_bytes::<T::ValueWriter>(entries);
    let later = blocks.skip(i);
    let footer = lemma_table_bytes::<T::ValueWriter>(entries);
    let ending = crate::fixed_int::le_bytes(0, 4) + footer;
    law_layout::<T::ValueWriter>(entries);
    lemma_all_readable::<T::ValueWriter>(entries);
    lemma_empty_block_ends(footer);
    lemma_split_blocks::<T::ValueWriter>(blocks, i);
    assert forall|b: int| 0 <= b < later.len() implies readable::<T::ValueWriter>(#[trigger] later[b]) by {
        assert(readable::<T::ValueWriter>(blocks[b + i]));
    }
    let from = TablePosition::before(bytes.skip(start));
    assert(bytes.skip(start) =~= crate::table::bytes_of_blocks::<T::ValueWriter>(later) + ending);
    lemma_scan_blocks::<T>(later, ending, from);
    assert(crate::table::entries_of(later) =~= entries.skip(listed.first_ordinal as int));

    let block = blocks[i];
    let rest = crate::table::bytes_of_blocks::<T::ValueWriter>(later.drop_first()) + ending;
    assert(later[0] == block);
    assert(bytes.skip(start) =~= crate::table::bytes_of_block::<T::ValueWriter>(block) + rest);
    let next = lemma_first_of_block::<T>(block, rest, from);
    assert(entries.skip(listed.first_ordinal as int)[0] == block[0]);
    lemma_scan_one_block::<T>(block);
}

/// What the finished table has written of its blocks, and how many terms it has counted.
proof fn lemma_written_of_all<VW: ValueWriter>(entries: Seq<(Seq<u8>, VW::Value)>)
    ensures
        ({
            let done = crate::table::written::<VW>(Seq::empty(), entries).flushed::<VW>();
            &&& done.delta.written == crate::table::bytes_of_blocks::<VW>(crate::table::all_blocks(entries))
            &&& done.num_terms == entries.len()
        }),
{
    let blocks = crate::table::blocks_of(entries);
    crate::table::lemma_describes::<VW>(Seq::empty(), entries);
    crate::table::lemma_key_deltas_len(Seq::empty(), blocks.open);
    if blocks.open.len() > 0 {
        crate::table::lemma_bytes_of_blocks_push::<VW>(blocks.closed, blocks.open);
    }
}

/// The index separates the blocks: the key that it has for a block is not smaller than any key of
/// the block, and smaller than every key of the next one. It is no longer than the last key of the
/// block.
pub proof fn law_index_separates_blocks<VW: ValueWriter>(entries: Seq<(Seq<u8>, VW::Value)>, i: int, p: int)
    requires
        crate::table::accepted::<VW>(entries),
        0 <= i < crate::table::all_blocks(entries).len(),
        0 <= p < crate::table::all_blocks(entries)[i].len(),
    ensures
        index_of::<VW>(entries).len() == crate::table::all_blocks(entries).len(),
        crate::order::lex_le(
            crate::table::all_blocks(entries)[i][p].0,
            index_of::<VW>(entries)[i].last_key_or_greater,
        ),
        index_of::<VW>(entries)[i].last_key_or_greater.len() <= crate::table::all_blocks(entries)[i].last().0.len(),
        i > 0 ==> crate::order::lex_lt(
            index_of::<VW>(entries)[i - 1].last_key_or_greater,
            crate::table::all_blocks(entries)[i][p].0,
        ),
{
    let blocks = crate::table::all_blocks(entries);
    let index = index_of::<VW>(entries);
    let block = blocks[i];
    let closed = crate::table::blocks_of(entries).closed;
    lemma_index_of::<VW>(entries);
    lemma_accepted_blocks::<VW>(entries);
    assert(well_made::<VW>(block)) by {
        if i < closed.len() {
            assert(block == closed[i]);
        }
    }
    assert(crate::order::lex_le(block.last().0, index[i].last_key_or_greater));
    let last = block.len() - 1;
    if p < last {
        lemma_ordered_keys(block, p, last);
        if block[p].0.len() == 0 && block[last].0.len() == 0 {
            assert(block[p].0 =~= block[last].0);
        } else if block[last].0 != index[i].last_key_or_greater {
            crate::order::lemma_lex_lt_transitive(
                block[p].0,
                block[last].0,
                index[i].last_key_or_greater,
            );
        }
    }
    if i > 0 {
        let before = index[i - 1].last_key_or_greater;
        assert(separates(index[i - 1], blocks[i - 1], blocks[i][0].0));
        if p > 0 {
            lemma_ordered_keys(block, 0, p);
            crate::order::lemma_lex_lt_transitive(before, block[0].0, block[p].0);
        }
    }
}

/// The last inserted key is the one of the last entry, or empty where that entry closed its block.
pub proof fn law_last_inserted_key<VW: ValueWriter>(
    state: TableState<VW::Value>,
    key: Seq<u8>,
    value: VW::Value,
)
    ensures
        ({
            let next = state.with_entry::<VW>(key, value);
            if next.index.len() > state.index.len() {
                &&& next.last_key == Seq::<u8>::empty()
                &&& next.delta.block == Seq::<u8>::empty()
            } else {
                next.last_key == key
            }
        }),
{
}

/// What a sink held at first has no part in the table.
pub(crate) proof fn lemma_held<VW: ValueWriter>(held: Seq<u8>, entries: Seq<(Seq<u8>, VW::Value)>)
    ensures
        ({
            let plain = crate::table::written::<VW>(Seq::empty(), entries);
            crate::table::written::<VW>(held, entries) == (TableState {
                delta: DeltaOutput { held, ..plain.delta },
                ..plain
            })
        }),
    decreases entries.len(),
{
    if entries.len() > 0 {
        lemma_held::<VW>(held, entries.drop_last());
    }
}

/// A key that comes after the last one can be inserted.
pub(crate) proof fn lemma_greater_key_accepted<VW: ValueWriter>(
    entries: Seq<(Seq<u8>, VW::Value)>,
    key: Seq<u8>,
)
    requires
        crate::table::accepted::<VW>(entries),
        entries.len() > 0 ==> crate::order::lex_lt(entries.last().0, key),
    ensures
        crate::table::written::<VW>(Seq::empty(), entries).accepts_key(key),
{
    crate::table::lemma_describes::<VW>(Seq::empty(), entries);
    if entries.len() > 0 {
        lemma_last_entry::<VW>(entries);
        lemma_index::<VW>(entries);
    }
}

/// The values of the open block are the last ones of the table.
pub(crate) proof fn lemma_open_values<VW: ValueWriter>(entries: Seq<(Seq<u8>, VW::Value)>)
    ensures
        ({
            let open = crate::table::written::<VW>(Seq::empty(), entries).delta.values;
            &&& open.len() <= entries.len()
            &&& open == crate::table::values_of(entries).subrange(
                entries.len() - open.len(),
                entries.len() as int,
            )
        }),
{
    let blocks = crate::table::blocks_of(entries);
    crate::table::lemma_describes::<VW>(Seq::empty(), entries);
    assert(entries == crate::table::entries_of(blocks.closed) + blocks.open);
    let from = entries.len() - blocks.open.len();
    assert(crate::table::values_of(blocks.open) =~= crate::table::values_of(entries).subrange(
        from,
        entries.len() as int,
    ));
}

/// Closed blocks hold fewer terms than bytes.
proof fn lemma_closed_blocks_size<VW: ValueWriter>(entries: Seq<(Seq<u8>, VW::Value)>)
    ensures
        ({
            let blocks = crate::table::blocks_of(entries);
            let count = blocks.closed.len();
            &&& crate::table::entries_of(blocks.closed).len() <= (BLOCK_LEN + 1) * count
            &&& crate::table::bytes_of_blocks::<VW>(blocks.closed).len() >= (BLOCK_LEN + 5) * count
        }),
    decreases entries.len(),
{
    if entries.len() > 0 {
        let old_entries = entries.drop_last();
        let old_blocks = crate::table::blocks_of(old_entries);
        let open = old_blocks.open.push(entries.last());
        lemma_closed_blocks_size::<VW>(old_entries);
        crate::table::lemma_describes::<VW>(Seq::empty(), old_entries);
        if crate::table::key_deltas(Seq::empty(), open).len() > BLOCK_LEN {
            crate::table::lemma_key_deltas_len(Seq::empty(), old_blocks.open);
            crate::table::lemma_bytes_of_blocks_push::<VW>(old_blocks.closed, open);
            crate::table::lemma_entries_of_push(old_blocks.closed, open);
            crate::fixed_int::lemma_le_bytes_len(crate::table::content_of::<VW>(open).len(), 4);
        }
    }
}

/// A table whose blocks fit in memory has fewer terms than can be counted.
pub(crate) proof fn lemma_terms_bounded<VW: ValueWriter>(entries: Seq<(Seq<u8>, VW::Value)>)
    requires
        crate::table::written::<VW>(Seq::empty(), entries).delta.written.len() <= usize::MAX,
    ensures
        entries.len() < u64::MAX,
{
    let blocks = crate::table::blocks_of(entries);
    lemma_closed_blocks_size::<VW>(entries);
    crate::table::lemma_describes::<VW>(Seq::empty(), entries);
    crate::table::lemma_key_deltas_len(Seq::empty(), blocks.open);
    let count = blocks.closed.len();
    assert(entries.len() == crate::table::entries_of(blocks.closed).len() + blocks.open.len());
    assert(entries.len() <= 32_001 * count + 32_000);
    assert(32_005 * count <= usize::MAX <= u64::MAX);
}

/// Strictly increasing keys are determined by which keys they are.
proof fn lemma_increasing_unique(a: Seq<Seq<u8>>, b: Seq<Seq<u8>>)
    requires
        crate::order::strictly_increasing(a),
        crate::order::strictly_increasing(b),
        forall|i: int| 0 <= i < a.len() ==> b.contains(#[trigger] a[i]),
        forall|i: int| 0 <= i < b.len() ==> a.contains(#[trigger] b[i]),
    ensures
        a == b,
    decreases a.len(),
{
    if a.len() == 0 {
        if b.len() > 0 {
            assert(a.contains(b[0]));
        }
        assert(a =~= b);
    } else {
        assert(b.contains(a[0]));
        let m = a.len() - 1;
        let n = b.len() - 1;
        let i = choose|i: int| 0 <= i < a.len() && a[i] == b[n];
        let j = choose|j: int| 0 <= j < b.len() && b[j] == a[m];
        assert(a.contains(b[n]));
        assert(b.contains(a[m]));
        if a[m] != b[n] {
            assert(crate::order::lex_lt(a[i], a[m]));
            assert(crate::order::lex_lt(b[j], b[n]));
            crate::order::lemma_lex_lt_transitive(a[m], b[n], a[m]);
            crate::order::lemma_lex_lt_irreflexive(a[m]);
        }
        let shorter_a = a.drop_last();
        let shorter_b = b.drop_last();
        assert forall|k: int| 0 <= k < shorter_a.len() implies shorter_b.contains(#[trigger] shorter_a[k]) by {
            assert(b.contains(a[k]));
            let l = choose|l: int| 0 <= l < b.len() && b[l] == a[k];
            assert(crate::order::lex_lt(a[k], a[m]));
            crate::order::lemma_lex_lt_irreflexive(a[m]);
            assert(shorter_b[l] == shorter_a[k]);
        }
        assert forall|k: int| 0 <= k < shorter_b.len() implies shorter_a.contains(#[trigger] shorter_b[k]) by {
            assert(a.contains(b[k]));
            let l = choose|l: int| 0 <= l < a.len() && a[l] == b[k];
            assert(crate::order::lex_lt(b[k], b[n]));
            crate::order::lemma_lex_lt_irreflexive(b[n]);
            assert(shorter_a[l] == shorter_b[k]);
        }
        assert forall|k: int, l: int| 0 <= k < l < shorter_a.len() implies crate::order::lex_lt(
            #[trigger] shorter_a[k],
            #[trigger] shorter_a[l],
        ) by {
            assert(crate::order::lex_lt(a[k], a[l]));
        }
        assert forall|k: int, l: int| 0 <= k < l < shorter_b.len() implies crate::order::lex_lt(
            #[trigger] shorter_b[k],
            #[trigger] shorter_b[l],
        ) by {
            assert(crate::order::lex_lt(b[k], b[l]));
        }
        lemma_increasing_unique(shorter_a, shorter_b);
        assert(a =~= shorter_a.push(a[m]));
        assert(b =~= shorter_b.push(b[n]));
    }
}

/// A table whose keys strictly increase can be merged, and the merge sees its entries.
pub proof fn law_table_is_mergeable<T: SSTable>(entries: Seq<(Seq<u8>, T::Value)>)
    requires
        crate::table::accepted::<T::ValueWriter>(entries),
        crate::table::blocks_fit::<T::ValueWriter>(entries),
        crate::order::strictly_increasing(crate::table::keys_of(entries)),
    ensures
        ({
            let scan = crate::merge::scan_table::<T::ValueReader>(
                crate::table::table_bytes::<T::ValueWriter>(entries),
            );
            crate::merge::mergeable(scan) && crate::merge::list_of(scan) == entries
        }),
{
    law_read_back::<T>(entries);
    let scan = crate::merge::scan_table::<T::ValueReader>(
        crate::table::table_bytes::<T::ValueWriter>(entries),
    );
    assert(crate::table::keys_of(scan.entries) =~= crate::table::keys_of(entries));
    assert(crate::merge::list_of(scan) =~= entries);
}

/// The lists determine which keys their merge has, and in which order.
pub proof fn law_merged_keys_unique<V, S: SingleValueMerger<V>>(
    lists: Seq<Seq<(Seq<u8>, V)>>,
    a: Seq<(Seq<u8>, V)>,
    b: Seq<(Seq<u8>, V)>,
)
    requires
        crate::merge::is_merge::<V, S>(lists, a),
        crate::merge::is_merge::<V, S>(lists, b),
    ensures
        crate::table::keys_of(a) == crate::table::keys_of(b),
{
    lemma_merged_keys_within::<V, S>(lists, a, b);
    lemma_merged_keys_within::<V, S>(lists, b, a);
    lemma_increasing_unique(crate::table::keys_of(a), crate::table::keys_of(b));
}

/// The keys of one merge are keys of the other.
proof fn lemma_merged_keys_within<V, S: SingleValueMerger<V>>(
    lists: Seq<Seq<(Seq<u8>, V)>>,
    a: Seq<(Seq<u8>, V)>,
    b: Seq<(Seq<u8>, V)>,
)
    requires
        crate::merge::is_merge::<V, S>(lists, a),
        crate::merge::is_merge::<V, S>(lists, b),
    ensures
        forall|j: int|
            0 <= j < a.len() ==> crate::table::keys_of(b).contains(#[trigger] crate::table::keys_of(a)[j]),
{
    assert forall|j: int| 0 <= j < a.len() implies crate::table::keys_of(b).contains(
        #[trigger] crate::table::keys_of(a)[j],
    ) by {
        let key = a[j].0;
        let i = choose|i: int| 0 <= i < lists.len() && crate::merge::contains_key(#[trigger] lists[i], key);
        let p = choose|p: int| 0 <= p < lists[i].len() && (#[trigger] lists[i][p]).0 == key;
        assert(crate::merge::contains_key(b, lists[i][p].0));
        let k = choose|k: int| 0 <= k < b.len() && (#[trigger] b[k]).0 == key;
        assert(crate::table::keys_of(b)[k] == key);
    }
}

/// Values that are all the same merge to that value.
pub open spec fn keeps_same_values<V, S: SingleValueMerger<V>>() -> bool {
    forall|values: Seq<V>, merged: V|
        #[trigger] S::merges_to(values, merged) && values.len() > 0 && (forall|i: int|
            0 <= i < values.len() ==> #[trigger] values[i] == values[0]) ==> merged == values[0]
}

/// The values that copies of a list have for one of its keys.
proof fn lemma_values_of_copies<V>(lists: Seq<Seq<(Seq<u8>, V)>>, entries: Seq<(Seq<u8>, V)>, j: int)
    requires
        crate::order::strictly_increasing(crate::table::keys_of(entries)),
        0 <= j < entries.len(),
        forall|i: int| 0 <= i < lists.len() ==> #[trigger] lists[i] == entries,
    ensures
        crate::merge::values_at(lists, entries[j].0).len() == lists.len(),
        forall|i: int|
            0 <= i < lists.len() ==> #[trigger] crate::merge::values_at(lists, entries[j].0)[i] == entries[j].1,
    decreases lists.len(),
{
    if lists.len() > 0 {
        let key = entries[j].0;
        let keys = crate::table::keys_of(entries);
        let shorter = lists.drop_last();
        assert forall|i: int| 0 <= i < shorter.len() implies #[trigger] shorter[i] == entries by {
            assert(lists[i] == entries);
        }
        lemma_values_of_copies(shorter, entries, j);
        assert(lists.last() == lists[lists.len() - 1]);
        assert forall|q: int| 0 <= q < entries.len() && (#[trigger] entries[q]).0 == key implies q == j by {
            crate::order::lemma_lex_lt_irreflexive(key);
            if q < j {
                assert(crate::order::lex_lt(keys[q], keys[j]));
            } else if j < q {
                assert(crate::order::lex_lt(keys[j], keys[q]));
            }
        }
        assert(crate::merge::contains_key(entries, key));
        assert(crate::merge::lookup(entries, key) == Some(entries[j].1));
    }
}

/// Values that are all the same merge to that value where the first one is kept, and where there is
/// but one value.
pub proof fn law_mergers_keep_same_values<V: Copy>()
    ensures
        keeps_same_values::<(), VoidSingleMerge>(),
        keeps_same_values::<V, FirstVal<V>>(),
{
}

/// The first entries of a table make a table.
proof fn lemma_accepted_take<VW: ValueWriter>(entries: Seq<(Seq<u8>, VW::Value)>, n: int)
    requires
        crate::table::accepted::<VW>(entries),
        0 <= n <= entries.len(),
    ensures
        crate::table::accepted::<VW>(entries.take(n)),
    decreases entries.len(),
{
    if n < entries.len() {
        lemma_accepted_take::<VW>(entries.drop_last(), n);
        assert(entries.drop_last().take(n) =~= entries.take(n));
    } else {
        assert(entries.take(n) =~= entries);
    }
}

/// The first keys of a merge of copies are the first keys of the list.
proof fn lemma_keys_of_copies<V, S: SingleValueMerger<V>>(
    lists: Seq<Seq<(Seq<u8>, V)>>,
    entries: Seq<(Seq<u8>, V)>,
    merged: Seq<(Seq<u8>, V)>,
)
    requires
        crate::order::strictly_increasing(crate::table::keys_of(entries)),
        lists.len() > 0,
        forall|i: int| 0 <= i < lists.len() ==> #[trigger] lists[i] == entries,
        crate::merge::starts_merge::<V, S>(lists, merged),
    ensures
        merged.len() <= entries.len(),
        crate::table::keys_of(merged) == crate::table::keys_of(entries).take(merged.len() as int),
{
    let keys = crate::table::keys_of(entries);
    let merged_keys = crate::table::keys_of(merged);
    if merged.len() > 0 {
        let last = merged.len() - 1;
        assert forall|j: int| 0 <= j < merged.len() implies keys.contains(#[trigger] merged_keys[j]) by {
            let key = merged[j].0;
            let i = choose|i: int| 0 <= i < lists.len() && crate::merge::contains_key(#[trigger] lists[i], key);
            let p = choose|p: int| 0 <= p < entries.len() && (#[trigger] entries[p]).0 == key;
            assert(keys[p] == key);
        }
        assert(keys.contains(merged_keys[last]));
        let q = choose|q: int| 0 <= q < keys.len() && keys[q] == merged_keys[last];
        let reached = keys.take(q + 1);
        assert(crate::order::strictly_increasing(reached)) by {
            assert forall|i: int, j: int| 0 <= i < j < reached.len() implies crate::order::lex_lt(
                #[trigger] reached[i],
                #[trigger] reached[j],
            ) by {
                assert(crate::order::lex_lt(keys[i], keys[j]));
            }
        }
        assert forall|j: int| 0 <= j < merged_keys.len() implies reached.contains(#[trigger] merged_keys[j]) by {
            let p = choose|p: int| 0 <= p < keys.len() && keys[p] == merged_keys[j];
            if q < p {
                assert(crate::order::lex_lt(keys[q], keys[p]));
                if j < last {
                    assert(crate::order::lex_lt(merged_keys[j], merged_keys[last]));
                    crate::order::lemma_lex_lt_transitive(keys[q], keys[p], keys[q]);
                }
                crate::order::lemma_lex_lt_irreflexive(keys[q]);
            }
            assert(reached[p] == merged_keys[j]);
        }
        assert forall|p: int| 0 <= p < reached.len() implies merged_keys.contains(#[trigger] reached[p]) by {
            assert(lists[0] == entries);
            if crate::order::lex_lt(merged[last].0, lists[0][p].0) {
                if p < q {
                    assert(crate::order::lex_lt(keys[p], keys[q]));
                    crate::order::lemma_lex_lt_transitive(keys[q], keys[p], keys[q]);
                }
                crate::order::lemma_lex_lt_irreflexive(keys[q]);
            }
            assert(crate::merge::contains_key(merged, lists[0][p].0));
            let k = choose|k: int| 0 <= k < merged.len() && (#[trigger] merged[k]).0 == entries[p].0;
            assert(merged_keys[k] == reached[p]);
        }
        lemma_increasing_unique(reached, merged_keys);
        assert(merged_keys =~= keys.take(merged.len() as int));
    } else {
        assert(merged_keys =~= keys.take(0));
    }
}

/// Merging copies of a table gives the table back, if values that are all the same merge to that
/// value. No value is refused on the way: as far as the merge has come, it has the first entries of
/// the table.
pub proof fn law_merge_of_copies<T: SSTable, S: SingleValueMerger<T::Value>>(
    entries: Seq<(Seq<u8>, T::Value)>,
    tables: Seq<&[u8]>,
    merged: Seq<(Seq<u8>, T::Value)>,
)
    requires
        crate::table::accepted::<T::ValueWriter>(entries),
        crate::table::blocks_fit::<T::ValueWriter>(entries),
        crate::order::strictly_increasing(crate::table::keys_of(entries)),
        tables.len() > 0,
        forall|i: int|
            0 <= i < tables.len() ==> (#[trigger] tables[i])@ == crate::table::table_bytes::<T::ValueWriter>(entries),
        keeps_same_values::<T::Value, S>(),
        crate::merge::starts_merge::<T::Value, S>(crate::merge::lists_in::<T::ValueReader>(tables), merged),
    ensures
        crate::merge::all_mergeable::<T::ValueReader>(tables),
        merged.len() <= entries.len(),
        merged == entries.take(merged.len() as int),
        crate::table::accepted::<T::ValueWriter>(merged),
        crate::merge::is_merge::<T::Value, S>(crate::merge::lists_in::<T::ValueReader>(tables), merged) ==> merged
            == entries,
{
    let lists = crate::merge::lists_in::<T::ValueReader>(tables);
    let n = merged.len() as int;
    law_table_is_mergeable::<T>(entries);
    assert forall|i: int| 0 <= i < lists.len() implies #[trigger] lists[i] == entries by {
        assert(tables[i]@ == crate::table::table_bytes::<T::ValueWriter>(entries));
    }
    let keys = crate::table::keys_of(entries);
    let merged_keys = crate::table::keys_of(merged);
    lemma_keys_of_copies::<T::Value, S>(lists, entries, merged);
    assert forall|j: int| 0 <= j < n implies merged[j] == entries[j] by {
        assert(merged_keys[j] == keys.take(n)[j]);
        lemma_values_of_copies(lists, entries, j);
        assert(S::merges_to(crate::merge::values_at(lists, merged[j].0), merged[j].1));
    }
    assert(merged =~= entries.take(n));
    lemma_accepted_take::<T::ValueWriter>(entries, n);
    if crate::merge::is_merge::<T::Value, S>(lists, merged) && n < entries.len() {
        assert(lists[0] == entries);
        assert(crate::merge::contains_key(merged, lists[0][n].0));
        let k = choose|k: int| 0 <= k < merged.len() && (#[trigger] merged[k]).0 == entries[n].0;
        assert(crate::order::lex_lt(keys[k], keys[n]));
        crate::order::lemma_lex_lt_irreflexive(keys[n]);
    }
}

} // verus!
