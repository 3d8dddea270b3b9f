//! What the bytes of a finished table tell of its blocks.

use crate::reader::TablePosition;
use crate::sstable_index::IndexedBlock;
use crate::value::ValueWriter;
use crate::SSTable;
use vstd::prelude::*;

verus! {

/// The ordinal after the last one of block number `i`, in a table of `count` terms.
pub open spec fn end_ordinal(index: Seq<IndexedBlock>, count: nat, i: int) -> nat {
    if i + 1 < index.len() {
        index[i + 1].first_ordinal
    } else {
        count
    }
}

/// The index that is stored in a table is the one that was built with it.
proof fn lemma_stored_index<VW: ValueWriter>(entries: Seq<(Seq<u8>, VW::Value)>)
    requires
        crate::table::accepted::<VW>(entries),
        crate::table::table_bytes::<VW>(entries).len() <= u64::MAX,
    ensures
        ({
            let table = crate::table::table_bytes::<VW>(entries);
            let blocks = crate::table::bytes_of_blocks::<VW>(crate::table::all_blocks(entries));
            &&& table.len() >= 20
            &&& crate::index_reading::stored_num_terms(table) == entries.len()
            &&& crate::index_reading::stored_offset(table) == blocks.len() + 4
            &&& crate::index_reading::stored_index(table) == Some(crate::laws::index_of::<VW>(entries))
            &&& table.take(blocks.len() as int) == blocks
            &&& table.subrange(blocks.len() as int, blocks.len() as int + 4) == seq![0u8, 0u8, 0u8, 0u8]
        }),
{
    let table = crate::table::table_bytes::<VW>(entries);
    let blocks = crate::table::bytes_of_blocks::<VW>(crate::table::all_blocks(entries));
    let index = crate::laws::index_of::<VW>(entries);
    let index_part = crate::sstable_index::index_bytes(index);
    crate::laws::law_layout::<VW>(entries);
    assert(entries.len() <= u64::MAX) by {
        if entries.len() > 0 {
            crate::table::lemma_describes::<VW>(Seq::empty(), entries.drop_last());
        }
    }
    lemma_footer_parts(blocks, index_part, entries.len(), table);
    crate::index_reading::lemma_index_bytes_len(index);
    assert forall|i: int| 0 <= i < index.len() implies crate::index_reading::block_fits(#[trigger] index[i]) by {
        lemma_block_places::<VW>(entries, i);
    }
    crate::index_reading::law_index_read_back(index, Seq::empty());
    assert(index_part + Seq::<u8>::empty() =~= index_part);
}

/// The parts of a table around its index.
proof fn lemma_footer_parts(blocks: Seq<u8>, index_part: Seq<u8>, count: nat, table: Seq<u8>)
    requires
        count <= u64::MAX,
        table.len() <= u64::MAX,
        table == blocks + crate::fixed_int::le_bytes(0, 4) + index_part + crate::fixed_int::le_bytes(
            blocks.len() + crate::fixed_int::le_bytes(0, 4).len(),
            8,
        ) + crate::fixed_int::le_bytes(count, 8),
    ensures
        table.len() == blocks.len() + index_part.len() + 20,
        crate::index_reading::stored_num_terms(table) == count,
        crate::index_reading::stored_offset(table) == blocks.len() + 4,
        table.subrange(blocks.len() as int + 4, table.len() - 16) == index_part,
        table.take(blocks.len() as int) == blocks,
        table.subrange(blocks.len() as int, blocks.len() as int + 4) == seq![0u8, 0u8, 0u8, 0u8],
{
    let zero = crate::fixed_int::le_bytes(0, 4);
    crate::fixed_int::lemma_le_bytes_len(0, 4);
    assert(zero =~= seq![0u8, 0u8, 0u8, 0u8]) by {
        reveal_with_fuel(crate::fixed_int::le_bytes, 5);
    }
    let offset = blocks.len() + 4;
    let offset_part = crate::fixed_int::le_bytes(offset, 8);
    let count_part = crate::fixed_int::le_bytes(count, 8);
    crate::fixed_int::lemma_le_bytes_len(offset, 8);
    crate::fixed_int::lemma_le_bytes_len(count, 8);
    let front = blocks + zero + index_part;
    assert(table == front + offset_part + count_part);
    crate::index_reading::law_footer_number_read_back(front, offset, count_part);
    assert(table =~= (front + offset_part) + count_part + Seq::<u8>::empty());
    crate::index_reading::law_footer_number_read_back(front + offset_part, count, Seq::empty());
    assert(table.subrange(offset as int, table.len() - 16) =~= index_part);
    assert(table.take(blocks.len() as int) =~= blocks);
    assert(table.subrange(blocks.len() as int, blocks.len() as int + 4) =~= zero);
}

/// Where block number `i` lies, and which entries it has.
proof fn lemma_block_places<VW: ValueWriter>(entries: Seq<(Seq<u8>, VW::Value)>, i: int)
    requires
        crate::table::accepted::<VW>(entries),
        0 <= i < crate::laws::index_of::<VW>(entries).len(),
    ensures
        ({
            let index = crate::laws::index_of::<VW>(entries);
            let blocks = crate::table::all_blocks(entries);
            let all = crate::table::bytes_of_blocks::<VW>(blocks);
            let block = blocks[i];
            &&& index.len() == blocks.len()
            &&& block.len() > 0
            &&& index[i].start < index[i].end <= all.len()
            &&& index[i].first_ordinal + block.len() <= entries.len()
            &&& end_ordinal(index, entries.len(), i) == index[i].first_ordinal + block.len()
            &&& block == entries.subrange(
                index[i].first_ordinal as int,
                (index[i].first_ordinal + block.len()) as int,
            )
            &&& i == 0 ==> index[i].start == 0 && index[i].first_ordinal == 0
            &&& i + 1 < index.len() ==> index[i + 1].start == index[i].end
            &&& i + 1 == index.len() ==> index[i].end == all.len()
        }),
{
    let index = crate::laws::index_of::<VW>(entries);
    let blocks = crate::table::all_blocks(entries);
    let block = blocks[i];
    crate::laws::law_layout::<VW>(entries);
    crate::table::lemma_describes::<VW>(Seq::empty(), entries);
    assert(block.len() > 0) by {
        let closed = crate::table::blocks_of(entries).closed;
        if i < closed.len() {
            assert(block == closed[i]);
        }
    }
    let before = blocks.take(i);
    crate::laws::lemma_split_blocks::<VW>(blocks, i);
    crate::laws::lemma_split_blocks::<VW>(blocks, i + 1);
    assert(blocks.take(i + 1) =~= before.push(block));
    crate::table::lemma_entries_of_push(before, block);
    crate::table::lemma_bytes_of_blocks_push::<VW>(before, block);
    let at = index[i].first_ordinal as int;
    assert(block =~= entries.subrange(at, at + block.len()));
    if i + 1 < index.len() {
        assert(index[i + 1].first_ordinal == crate::table::entries_of(blocks.take(i + 1)).len());
        assert(index[i + 1].start == crate::table::bytes_of_blocks::<VW>(blocks.take(i + 1)).len());
    } else {
        assert(blocks.take(i + 1) =~= blocks);
    }
    if i == 0 {
        assert(before =~= Seq::empty());
    }
    crate::fixed_int::lemma_le_bytes_len(crate::table::content_of::<VW>(block).len(), 4);
}

/// The footer and the index of a table, read from its bytes: how many terms there are, and blocks
/// that follow one another, each with at least a term, from the start of the table to the empty
/// block before the index.
pub proof fn law_stored_index<VW: ValueWriter>(entries: Seq<(Seq<u8>, VW::Value)>)
    requires
        crate::table::accepted::<VW>(entries),
        crate::table::table_bytes::<VW>(entries).len() <= u64::MAX,
    ensures
        ({
            let table = crate::table::table_bytes::<VW>(entries);
            let offset = crate::index_reading::stored_offset(table) as int;
            let stored = crate::index_reading::stored_index(table);
            let index = stored->Some_0;
            &&& crate::index_reading::stored_num_terms(table) == entries.len()
            &&& 4 <= offset <= table.len() - 16
            &&& table.subrange(offset - 4, offset) == seq![0u8, 0u8, 0u8, 0u8]
            &&& stored is Some
            &&& index.len() == 0 <==> entries.len() == 0
            &&& index.len() == 0 ==> offset == 4
            &&& index.len() > 0 ==> {
                &&& index[0].start == 0
                &&& index[0].first_ordinal == 0
                &&& index.last().end + 4 == offset
                &&& index.last().last_key_or_greater == entries.last().0
            }
            &&& forall|i: int|
                0 <= i < index.len() ==> {
                    &&& (#[trigger] index[i]).start < index[i].end
                    &&& index[i].first_ordinal < entries.len()
                }
            &&& forall|i: int, j: int|
                0 <= i && j == i + 1 && j < index.len() ==> {
                    &&& (#[trigger] index[i]).end == (#[trigger] index[j]).start
                    &&& index[i].first_ordinal < index[j].first_ordinal
                }
        }),
{
    let table = crate::table::table_bytes::<VW>(entries);
    let index = crate::laws::index_of::<VW>(entries);
    let all = crate::table::all_blocks(entries);
    lemma_stored_index::<VW>(entries);
    crate::laws::law_layout::<VW>(entries);
    if entries.len() > 0 {
        crate::laws::lemma_last_index_key::<VW>(entries);
        lemma_block_places::<VW>(entries, 0);
        lemma_block_places::<VW>(entries, index.len() - 1);
    } else {
        assert(all =~= Seq::empty());
    }
    assert forall|i: int| 0 <= i < index.len() implies {
        &&& (#[trigger] index[i]).start < index[i].end
        &&& index[i].first_ordinal < entries.len()
    } by {
        lemma_block_places::<VW>(entries, i);
    }
    assert forall|i: int, j: int| 0 <= i && j == i + 1 && j < index.len() implies {
        &&& (#[trigger] index[i]).end == (#[trigger] index[j]).start
        &&& index[i].first_ordinal < index[j].first_ordinal
    } by {
        lemma_block_places::<VW>(entries, i);
    }
}

/// The stored index tells in which block a key lies: the key that it has for a block is not smaller
/// than the keys of the block and those before it, smaller than all that come later, and no longer
/// than the last key of the block.
pub proof fn law_stored_index_separates<VW: ValueWriter>(entries: Seq<(Seq<u8>, VW::Value)>, i: int, p: int)
    requires
        crate::table::accepted::<VW>(entries),
        crate::table::table_bytes::<VW>(entries).len() <= u64::MAX,
        0 <= i < crate::index_reading::stored_index(crate::table::table_bytes::<VW>(entries))->Some_0.len(),
        0 <= p < entries.len(),
    ensures
        ({
            let index = crate::index_reading::stored_index(crate::table::table_bytes::<VW>(entries))->Some_0;
            let end = end_ordinal(index, entries.len(), i);
            if p < end {
                crate::order::lex_le(entries[p].0, index[i].last_key_or_greater)
            } else {
                crate::order::lex_lt(index[i].last_key_or_greater, entries[p].0)
            }
        }),
        ({
            let index = crate::index_reading::stored_index(crate::table::table_bytes::<VW>(entries))->Some_0;
            let end = end_ordinal(index, entries.len(), i);
            0 < end <= entries.len() && index[i].last_key_or_greater.len() <= entries[end - 1].0.len()
        }),
{
    lemma_stored_index::<VW>(entries);
    let index = crate::laws::index_of::<VW>(entries);
    let blocks = crate::table::all_blocks(entries);
    let separator = index[i].last_key_or_greater;
    let end = end_ordinal(index, entries.len(), i) as int;
    lemma_block_places::<VW>(entries, i);
    let last = blocks[i].len() - 1;
    crate::laws::law_index_separates_blocks::<VW>(entries, i, last);
    assert(blocks[i][last] == entries[end - 1]);
    crate::laws::law_keys_in_order::<VW>(entries);
    if p < end {
        if p < end - 1 {
            lemma_not_after(entries[p].0, entries[end - 1].0, separator);
        }
    } else {
        lemma_block_places::<VW>(entries, i + 1);
        crate::laws::law_index_separates_blocks::<VW>(entries, i + 1, 0);
        assert(blocks[i + 1][0] == entries[end]);
        if p > end {
            assert(crate::order::lex_lt(entries[end].0, entries[p].0) || (entries[end].0.len() == 0
                && entries[p].0.len() == 0));
            assert(entries[end].0.len() > 0);
            crate::order::lemma_lex_lt_transitive(separator, entries[end].0, entries[p].0);
        }
    }
}

proof fn lemma_not_after(key: Seq<u8>, later: Seq<u8>, separator: Seq<u8>)
    requires
        crate::order::lex_lt(key, later) || (key.len() == 0 && later.len() == 0),
        crate::order::lex_le(later, separator),
    ensures
        crate::order::lex_le(key, separator),
{
    if key.len() == 0 && later.len() == 0 {
        assert(key =~= later);
    } else if later != separator {
        crate::order::lemma_lex_lt_transitive(key, later, separator);
    }
}

/// Where `left` and `right` first differ at `n`, the shortened key ends at the first byte of `left`
/// after `n` that can be raised, and has it raised by one. Without such a byte, or where `right`
/// starts with `left`, it is `left`.
pub proof fn law_shortened(left: Seq<u8>, right: Seq<u8>, n: int, pos: int)
    requires
        0 <= n <= left.len(),
        n <= right.len(),
        left.take(n) == right.take(n),
        n == left.len() || n == right.len() || left[n] != right[n],
        n < pos <= left.len() || n == pos == left.len(),
        forall|i: int| n < i < pos ==> left[i] == 255,
        pos < left.len() ==> left[pos] != 255,
    ensures
        crate::sstable_index::shortened(left, right) == if pos < left.len() {
            left.take(pos).push((left[pos] + 1) as u8)
        } else {
            left
        },
{
    assert forall|i: int| 0 <= i < n implies left[i] == right[i] by {
        assert(left[i] == left.take(n)[i]);
        assert(right[i] == right.take(n)[i]);
    }
    crate::order::lemma_common_prefix_unique(left, right, n);
    if n < left.len() {
        lemma_first_raisable(left, n + 1, pos);
    }
}

proof fn lemma_first_raisable(key: Seq<u8>, from: int, pos: int)
    requires
        0 <= from <= pos <= key.len(),
        forall|i: int| from <= i < pos ==> key[i] == 255,
        pos < key.len() ==> key[pos] != 255,
    ensures
        crate::sstable_index::first_below_max(key, from as nat) == pos,
    decreases pos - from,
{
    if from < pos {
        lemma_first_raisable(key, from + 1, pos);
    }
}

/// The stored index has, for each block that another one follows, the last key of the block,
/// shortened given the first key of the next one.
pub proof fn law_stored_separator<VW: ValueWriter>(entries: Seq<(Seq<u8>, VW::Value)>, i: int)
    requires
        crate::table::accepted::<VW>(entries),
        crate::table::table_bytes::<VW>(entries).len() <= u64::MAX,
        0 <= i < crate::index_reading::stored_index(crate::table::table_bytes::<VW>(entries))->Some_0.len() - 1,
    ensures
        ({
            let index = crate::index_reading::stored_index(crate::table::table_bytes::<VW>(entries))->Some_0;
            let next = index[i + 1].first_ordinal as int;
            &&& 0 < next < entries.len()
            &&& index[i].last_key_or_greater == crate::sstable_index::shortened(
                entries[next - 1].0,
                entries[next].0,
            )
        }),
{
    lemma_stored_index::<VW>(entries);
    lemma_block_places::<VW>(entries, i);
    lemma_block_places::<VW>(entries, i + 1);
    crate::laws::lemma_separator::<VW>(entries, i);
    let blocks = crate::table::all_blocks(entries);
    let next = crate::laws::index_of::<VW>(entries)[i + 1].first_ordinal as int;
    assert(blocks[i].last() == entries[next - 1]);
    assert(blocks[i + 1][0] == entries[next]);
}

/// The bytes of a table between the start and the end that the stored index has for a block give
/// the entries of the block when they are read, from its first ordinal to the next block's.
pub proof fn law_stored_block_read<T: SSTable>(entries: Seq<(Seq<u8>, T::Value)>, i: int, calls: nat)
    requires
        crate::table::accepted::<T::ValueWriter>(entries),
        crate::table::blocks_fit::<T::ValueWriter>(entries),
        crate::table::table_bytes::<T::ValueWriter>(entries).len() <= u64::MAX,
        0 <= i < crate::index_reading::stored_index(
            crate::table::table_bytes::<T::ValueWriter>(entries),
        )->Some_0.len(),
    ensures
        ({
            let table = crate::table::table_bytes::<T::ValueWriter>(entries);
            let index = crate::index_reading::stored_index(table)->Some_0;
            let first = index[i].first_ordinal;
            let end = end_ordinal(index, entries.len(), i);
            let block = TablePosition::before(table.subrange(index[i].start as int, index[i].end as int));
            let now = block.advanced::<T::ValueReader>(calls);
            first + calls <= end ==> {
                &&& calls > 0 ==> now.key == entries[first + calls - 1].0
                &&& calls > 0 ==> now.value::<T::ValueReader>() == Some(entries[first + calls - 1].1)
                &&& first + calls < end ==> now.next::<T::ValueReader>() is Entry
                &&& first + calls == end ==> now.next::<T::ValueReader>() is End
            }
        }),
{
    let index = crate::laws::index_of::<T::ValueWriter>(entries);
    lemma_stored_index::<T::ValueWriter>(entries);
    lemma_block_places::<T::ValueWriter>(entries, i);
    if index[i].first_ordinal + calls <= end_ordinal(index, entries.len(), i) {
        lemma_block_calls::<T>(entries, i, calls);
    }
}

#[verifier::spinoff_prover]
proof fn lemma_block_calls<T: SSTable>(entries: Seq<(Seq<u8>, T::Value)>, i: int, calls: nat)
    requires
        crate::table::accepted::<T::ValueWriter>(entries),
        crate::table::blocks_fit::<T::ValueWriter>(entries),
        0 <= i < crate::laws::index_of::<T::ValueWriter>(entries).len(),
        crate::laws::index_of::<T::ValueWriter>(entries)[i].first_ordinal + calls <= end_ordinal(
            crate::laws::index_of::<T::ValueWriter>(entries),
            entries.len(),
            i,
        ),
    ensures
        ({
            let table = crate::table::table_bytes::<T::ValueWriter>(entries);
            let index = crate::laws::index_of::<T::ValueWriter>(entries);
            let first = index[i].first_ordinal;
            let end = end_ordinal(index, entries.len(), i);
            let block = TablePosition::before(table.subrange(index[i].start as int, index[i].end as int));
            let now = block.advanced::<T::ValueReader>(calls);
            &&& calls > 0 ==> now.key == entries[first + calls - 1].0
            &&& calls > 0 ==> now.value::<T::ValueReader>() == Some(entries[first + calls - 1].1)
            &&& first + calls < end ==> now.next::<T::ValueReader>() is Entry
            &&& first + calls == end ==> now.next::<T::ValueReader>() is End
        }),
{
    let table = crate::table::table_bytes::<T::ValueWriter>(entries);
    let index = crate::laws::index_of::<T::ValueWriter>(entries);
    let block = crate::table::all_blocks(entries)[i];
    let pos = TablePosition::before(table.subrange(index[i].start as int, index[i].end as int));
    lemma_block_places::<T::ValueWriter>(entries, i);
    crate::laws::law_block_read_alone::<T>(entries, i);
    crate::entry_laws::lemma_calls_give_entries::<T::ValueReader>(pos, block, calls);
    if calls > 0 {
        assert(block[calls - 1] == entries[index[i].first_ordinal + calls - 1]);
    }
}

} // verus!
