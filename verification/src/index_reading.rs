//! How the index of a table is found and read: from nothing but the bytes of the table.

use crate::cbor::{ARRAY, MAP, TEXT, UNSIGNED};
use crate::sstable_index::IndexedBlock;
use vstd::prelude::*;

verus! {

/// The number that `bytes` spells, the most significant byte first.
pub open spec fn be_value(bytes: Seq<u8>) -> nat
    decreases bytes.len(),
{
    if bytes.len() == 0 {
        0
    } else {
        256 * be_value(bytes.drop_last()) + bytes.last() as nat
    }
}

/// The first byte of an item tells the kind in its three highest bits. The five others are the
/// number, or tell in how many bytes the number follows.
pub open spec fn number_width(first: u8) -> Option<nat> {
    if first % 32 < 24 {
        Some(0)
    } else if first % 32 == 24 {
        Some(1)
    } else if first % 32 == 25 {
        Some(2)
    } else if first % 32 == 26 {
        Some(4)
    } else if first % 32 == 27 {
        Some(8)
    } else {
        None
    }
}

/// The least number that is written in `width` bytes.
pub open spec fn least_of_width(width: nat) -> nat {
    if width == 0 {
        0
    } else if width == 1 {
        24
    } else if width == 2 {
        0x100
    } else if width == 4 {
        0x1_0000
    } else {
        0x1_0000_0000
    }
}

/// The head of an item at the start of `data`: the kind, the number, and what follows. `None` where
/// the head is cut short, or the number is not in as few bytes as hold it.
#[verifier::opaque]
pub open spec fn head_at(data: Seq<u8>) -> Option<(nat, nat, Seq<u8>)> {
    if data.len() == 0 {
        None
    } else {
        match number_width(data[0]) {
            Some(width) => {
                let number = if width == 0 {
                    (data[0] % 32) as nat
                } else {
                    be_value(data.subrange(1, 1 + width as int))
                };
                if 1 + width <= data.len() && least_of_width(width) <= number {
                    Some(((data[0] / 32) as nat, number, data.skip(1 + width as int)))
                } else {
                    None
                }
            },
            None => None,
        }
    }
}

/// The number of an item of the given kind at the start of `data`, and what follows.
pub open spec fn item_at(data: Seq<u8>, kind: nat) -> Option<(nat, Seq<u8>)> {
    match head_at(data) {
        Some((found, number, rest)) => if found == kind {
            Some((number, rest))
        } else {
            None
        },
        None => None,
    }
}

/// What follows the text `name` at the start of `data`.
pub open spec fn after_name(data: Seq<u8>, name: Seq<u8>) -> Option<Seq<u8>> {
    match item_at(data, 3) {
        Some((len, rest)) => if len == name.len() && len <= rest.len() && rest.take(len as int) == name {
            Some(rest.skip(len as int))
        } else {
            None
        },
        None => None,
    }
}

/// What follows the head of a map of `len` entries at the start of `data`.
pub open spec fn after_map(data: Seq<u8>, len: nat) -> Option<Seq<u8>> {
    match item_at(data, 5) {
        Some((found, rest)) => if found == len {
            Some(rest)
        } else {
            None
        },
        None => None,
    }
}

/// `count` bytes, each an item of its own, and what follows.
pub open spec fn byte_items_at(data: Seq<u8>, count: nat) -> Option<(Seq<u8>, Seq<u8>)>
    decreases count,
{
    if count == 0 {
        Some((Seq::empty(), data))
    } else {
        match item_at(data, 0) {
            Some((byte, rest)) => if byte < 256 {
                match byte_items_at(rest, (count - 1) as nat) {
                    Some((bytes, after)) => Some((seq![byte as u8] + bytes, after)),
                    None => None,
                }
            } else {
                None
            },
            None => None,
        }
    }
}

/// A byte string as an array at the start of `data`, and what follows.
pub open spec fn byte_string_at(data: Seq<u8>) -> Option<(Seq<u8>, Seq<u8>)> {
    match item_at(data, 4) {
        Some((count, rest)) => byte_items_at(rest, count),
        None => None,
    }
}

/// The number under `name` at the start of `data`, and what follows.
pub open spec fn named_number_at(data: Seq<u8>, name: Seq<u8>) -> Option<(nat, Seq<u8>)> {
    match after_name(data, name) {
        Some(rest) => item_at(rest, 0),
        None => None,
    }
}

/// Where a block starts and ends, and what follows.
#[verifier::opaque]
pub open spec fn byte_range_at(data: Seq<u8>) -> Option<(nat, nat, Seq<u8>)> {
    match after_map(data, 2) {
        Some(in_map) => match named_number_at(in_map, seq![115u8, 116, 97, 114, 116]) {
            Some((start, rest)) => match named_number_at(rest, seq![101u8, 110, 100]) {
                Some((end, after)) => Some((start, end, after)),
                None => None,
            },
            None => None,
        },
        None => None,
    }
}

/// Where a block starts and ends, how many terms come before it, and what follows.
#[verifier::opaque]
pub open spec fn block_addr_at(data: Seq<u8>) -> Option<(nat, nat, nat, Seq<u8>)> {
    match after_map(data, 2) {
        Some(in_map) => match after_name(in_map, seq![98u8, 121, 116, 101, 95, 114, 97, 110, 103, 101]) {
            Some(range) => match byte_range_at(range) {
                Some((start, end, rest)) => match named_number_at(
                    rest,
                    seq![102u8, 105, 114, 115, 116, 95, 111, 114, 100, 105, 110, 97, 108],
                ) {
                    Some((first_ordinal, after)) => Some((start, end, first_ordinal, after)),
                    None => None,
                },
                None => None,
            },
            None => None,
        },
        None => None,
    }
}

/// What the index tells of a block, and what follows.
#[verifier::opaque]
pub open spec fn block_at(data: Seq<u8>) -> Option<(IndexedBlock, Seq<u8>)> {
    match after_map(data, 2) {
        Some(in_map) => match after_name(
            in_map,
            seq![108u8, 97, 115, 116, 95, 107, 101, 121, 95, 111, 114, 95, 103, 114, 101, 97, 116, 101, 114],
        ) {
            Some(key_data) => match byte_string_at(key_data) {
                Some((last_key_or_greater, rest)) => match after_name(
                    rest,
                    seq![98u8, 108, 111, 99, 107, 95, 97, 100, 100, 114],
                ) {
                    Some(addr) => match block_addr_at(addr) {
                        Some((start, end, first_ordinal, after)) => Some(
                            (IndexedBlock { last_key_or_greater, start, end, first_ordinal }, after),
                        ),
                        None => None,
                    },
                    None => None,
                },
                None => None,
            },
            None => None,
        },
        None => None,
    }
}

/// `count` blocks, and what follows.
pub open spec fn blocks_at(data: Seq<u8>, count: nat) -> Option<(Seq<IndexedBlock>, Seq<u8>)>
    decreases count,
{
    if count == 0 {
        Some((Seq::empty(), data))
    } else {
        match block_at(data) {
            Some((block, rest)) => match blocks_at(rest, (count - 1) as nat) {
                Some((blocks, after)) => Some((seq![block] + blocks, after)),
                None => None,
            },
            None => None,
        }
    }
}

/// The index at the start of `data`, and what follows.
pub open spec fn index_at(data: Seq<u8>) -> Option<(Seq<IndexedBlock>, Seq<u8>)> {
    match after_map(data, 1) {
        Some(in_map) => match after_name(in_map, seq![98u8, 108, 111, 99, 107, 115]) {
            Some(array) => match item_at(array, 4) {
                Some((count, rest)) => blocks_at(rest, count),
                None => None,
            },
            None => None,
        },
        None => None,
    }
}

/// The number in the eight bytes from `at` on, the least significant one first.
pub open spec fn footer_number(bytes: Seq<u8>, at: int) -> nat {
    bytes[at] as nat + 0x100 * bytes[at + 1] as nat + 0x1_0000 * bytes[at + 2] as nat + 0x100_0000 * bytes[at
        + 3] as nat + 0x1_0000_0000 * bytes[at + 4] as nat + 0x100_0000_0000 * bytes[at + 5] as nat
        + 0x1_0000_0000_0000 * bytes[at + 6] as nat + 0x100_0000_0000_0000 * bytes[at + 7] as nat
}

/// Where the footer of a table says that the index starts.
pub open spec fn stored_offset(table: Seq<u8>) -> nat {
    footer_number(table, table.len() - 16)
}

/// How many terms the footer of a table says that it has.
pub open spec fn stored_num_terms(table: Seq<u8>) -> nat {
    footer_number(table, table.len() - 8)
}

/// The index of a table, found through its footer. It fills the bytes up to the footer.
pub open spec fn stored_index(table: Seq<u8>) -> Option<Seq<IndexedBlock>> {
    if table.len() < 16 || stored_offset(table) > table.len() - 16 {
        None
    } else {
        match index_at(table.subrange(stored_offset(table) as int, table.len() - 16)) {
            Some((index, rest)) => if rest.len() == 0 {
                Some(index)
            } else {
                None
            },
            None => None,
        }
    }
}

proof fn lemma_be_bytes_len(value: nat, width: nat)
    ensures
        crate::fixed_int::be_bytes(value, width).len() == width,
    decreases width,
{
    if width > 0 {
        lemma_be_bytes_len(value / 256, (width - 1) as nat);
    }
}

/// Big-endian bytes spell the number that was written, if it fits.
pub proof fn law_be_bytes_read_back(value: nat, width: nat)
    requires
        value < crate::fixed_int::pow256(width),
    ensures
        crate::fixed_int::be_bytes(value, width).len() == width,
        be_value(crate::fixed_int::be_bytes(value, width)) == value,
    decreases width,
{
    lemma_be_bytes_len(value, width);
    if width > 0 {
        law_be_bytes_read_back(value / 256, (width - 1) as nat);
        let bytes = crate::fixed_int::be_bytes(value, width);
        assert(bytes.drop_last() =~= crate::fixed_int::be_bytes(value / 256, (width - 1) as nat));
    }
}

/// The head of an item is read back, whatever follows it.
pub proof fn law_head_read_back(kind: u8, number: nat, rest: Seq<u8>)
    requires
        kind < 8,
        number <= u64::MAX,
    ensures
        head_at(crate::cbor::head_bytes(kind, number) + rest) == Some((kind as nat, number, rest)),
{
    reveal(head_at);
    let head = crate::cbor::head_bytes(kind, number);
    let data = head + rest;
    reveal_with_fuel(crate::fixed_int::pow256, 9);
    let width: nat = if number < 24 {
        0
    } else if number < 0x100 {
        1
    } else if number < 0x1_0000 {
        2
    } else if number < 0x1_0000_0000 {
        4
    } else {
        8
    };
    law_be_bytes_read_back(number, if width == 0 { 8 } else { width });
    assert(head.len() == 1 + width);
    assert(data[0] == head[0]);
    if width > 0 {
        assert(data.subrange(1, 1 + width as int) =~= crate::fixed_int::be_bytes(number, width));
    }
    assert(data.skip(1 + width as int) =~= rest);
}

/// A text is read back, whatever follows it.
pub proof fn law_text_read_back(text: Seq<u8>, rest: Seq<u8>)
    requires
        text.len() <= u64::MAX,
    ensures
        after_name(crate::cbor::text_bytes(text) + rest, text) == Some(rest),
{
    let data = crate::cbor::text_bytes(text) + rest;
    assert(data =~= crate::cbor::head_bytes(TEXT, text.len()) + (text + rest));
    law_head_read_back(TEXT, text.len(), text + rest);
    assert((text + rest).take(text.len() as int) =~= text);
    assert((text + rest).skip(text.len() as int) =~= rest);
}

/// The items of a byte string, taken from the front.
proof fn lemma_numbers_from_front(numbers: Seq<u8>)
    requires
        numbers.len() > 0,
    ensures
        crate::cbor::numbers_bytes(numbers) == crate::cbor::head_bytes(UNSIGNED, numbers[0] as nat)
            + crate::cbor::numbers_bytes(numbers.drop_first()),
    decreases numbers.len(),
{
    let first = crate::cbor::head_bytes(UNSIGNED, numbers[0] as nat);
    if numbers.len() == 1 {
        assert(crate::cbor::numbers_bytes(numbers.drop_last()) =~= Seq::empty());
        assert(crate::cbor::numbers_bytes(numbers.drop_first()) =~= Seq::empty());
        assert(crate::cbor::numbers_bytes(numbers) =~= first + crate::cbor::numbers_bytes(numbers.drop_first()));
    } else {
        lemma_numbers_from_front(numbers.drop_last());
        assert(numbers.drop_last().drop_first() =~= numbers.drop_first().drop_last());
        assert(numbers.drop_first().last() == numbers.last());
        assert(crate::cbor::numbers_bytes(numbers) =~= first + crate::cbor::numbers_bytes(numbers.drop_first()));
    }
}

proof fn lemma_byte_items_read_back(numbers: Seq<u8>, rest: Seq<u8>)
    ensures
        byte_items_at(crate::cbor::numbers_bytes(numbers) + rest, numbers.len()) == Some((numbers, rest)),
    decreases numbers.len(),
{
    let data = crate::cbor::numbers_bytes(numbers) + rest;
    if numbers.len() == 0 {
        assert(data =~= rest);
        assert(numbers =~= Seq::empty());
    } else {
        let tail = crate::cbor::numbers_bytes(numbers.drop_first()) + rest;
        lemma_numbers_from_front(numbers);
        assert(data =~= crate::cbor::head_bytes(UNSIGNED, numbers[0] as nat) + tail);
        law_head_read_back(UNSIGNED, numbers[0] as nat, tail);
        lemma_byte_items_read_back(numbers.drop_first(), rest);
        assert(seq![numbers[0]] + numbers.drop_first() =~= numbers);
    }
}

/// A byte string is read back in order and in full, whatever follows it.
pub proof fn law_byte_string_read_back(bytes: Seq<u8>, rest: Seq<u8>)
    requires
        bytes.len() <= u64::MAX,
    ensures
        byte_string_at(crate::cbor::byte_array_bytes(bytes) + rest) == Some((bytes, rest)),
{
    let data = crate::cbor::byte_array_bytes(bytes) + rest;
    let items = crate::cbor::numbers_bytes(bytes) + rest;
    assert(data =~= crate::cbor::head_bytes(ARRAY, bytes.len()) + items);
    law_head_read_back(ARRAY, bytes.len(), items);
    lemma_byte_items_read_back(bytes, rest);
}

/// What the index tells of a block fits in 64 bits.
pub open spec fn block_fits(block: IndexedBlock) -> bool {
    &&& block.last_key_or_greater.len() <= u64::MAX
    &&& block.start <= u64::MAX
    &&& block.end <= u64::MAX
    &&& block.first_ordinal <= u64::MAX
}

proof fn lemma_named_number_read_back(name: Seq<u8>, number: nat, rest: Seq<u8>)
    requires
        name.len() <= u64::MAX,
        number <= u64::MAX,
    ensures
        named_number_at(
            crate::cbor::text_bytes(name) + (crate::cbor::head_bytes(UNSIGNED, number) + rest),
            name,
        ) == Some((number, rest)),
{
    law_text_read_back(name, crate::cbor::head_bytes(UNSIGNED, number) + rest);
    law_head_read_back(UNSIGNED, number, rest);
}

#[verifier::spinoff_prover]
proof fn lemma_byte_range_read_back(start: nat, end: nat, rest: Seq<u8>)
    requires
        start <= u64::MAX,
        end <= u64::MAX,
    ensures
        byte_range_at(crate::sstable_index::byte_range_bytes(start, end) + rest) == Some((start, end, rest)),
{
    reveal(byte_range_at);
    let start_name = seq![115u8, 116, 97, 114, 116];
    let end_name = seq![101u8, 110, 100];
    let from_end = crate::cbor::text_bytes(end_name) + (crate::cbor::head_bytes(UNSIGNED, end) + rest);
    let from_start = crate::cbor::text_bytes(start_name) + (crate::cbor::head_bytes(UNSIGNED, start) + from_end);
    assert(crate::sstable_index::start_name() =~= start_name);
    assert(crate::sstable_index::end_name() =~= end_name);
    assert(crate::sstable_index::byte_range_bytes(start, end) + rest =~= crate::cbor::head_bytes(MAP, 2) + from_start);
    law_head_read_back(MAP, 2, from_start);
    lemma_named_number_read_back(start_name, start, from_end);
    lemma_named_number_read_back(end_name, end, rest);
}

#[verifier::spinoff_prover]
proof fn lemma_block_addr_read_back(block: IndexedBlock, rest: Seq<u8>)
    requires
        block_fits(block),
    ensures
        block_addr_at(crate::sstable_index::block_addr_bytes(block) + rest) == Some(
            (block.start, block.end, block.first_ordinal, rest),
        ),
{
    reveal(block_addr_at);
    let range_name = seq![98u8, 121, 116, 101, 95, 114, 97, 110, 103, 101];
    let ordinal_name = seq![102u8, 105, 114, 115, 116, 95, 111, 114, 100, 105, 110, 97, 108];
    let from_ordinal = crate::cbor::text_bytes(ordinal_name) + (crate::cbor::head_bytes(
        UNSIGNED,
        block.first_ordinal,
    ) + rest);
    let from_range = crate::sstable_index::byte_range_bytes(block.start, block.end) + from_ordinal;
    let from_name = crate::cbor::text_bytes(range_name) + from_range;
    assert(crate::sstable_index::byte_range_name() =~= range_name);
    assert(crate::sstable_index::first_ordinal_name() =~= ordinal_name);
    assert(crate::sstable_index::block_addr_bytes(block) + rest =~= crate::cbor::head_bytes(MAP, 2) + from_name);
    law_head_read_back(MAP, 2, from_name);
    law_text_read_back(range_name, from_range);
    lemma_byte_range_read_back(block.start, block.end, from_ordinal);
    lemma_named_number_read_back(ordinal_name, block.first_ordinal, rest);
}

#[verifier::spinoff_prover]
proof fn lemma_block_read_back(block: IndexedBlock, rest: Seq<u8>)
    requires
        block_fits(block),
    ensures
        block_at(crate::sstable_index::block_meta_bytes(block) + rest) == Some((block, rest)),
{
    reveal(block_at);
    let key_name = seq![108u8, 97, 115, 116, 95, 107, 101, 121, 95, 111, 114, 95, 103, 114, 101, 97, 116, 101, 114];
    let addr_name = seq![98u8, 108, 111, 99, 107, 95, 97, 100, 100, 114];
    let from_addr = crate::sstable_index::block_addr_bytes(block) + rest;
    let from_addr_name = crate::cbor::text_bytes(addr_name) + from_addr;
    let from_key = crate::cbor::byte_array_bytes(block.last_key_or_greater) + from_addr_name;
    let from_key_name = crate::cbor::text_bytes(key_name) + from_key;
    assert(crate::sstable_index::last_key_or_greater_name() =~= key_name);
    assert(crate::sstable_index::block_addr_name() =~= addr_name);
    assert(crate::sstable_index::block_meta_bytes(block) + rest =~= crate::cbor::head_bytes(MAP, 2) + from_key_name);
    law_head_read_back(MAP, 2, from_key_name);
    law_text_read_back(key_name, from_key);
    law_byte_string_read_back(block.last_key_or_greater, from_addr_name);
    law_text_read_back(addr_name, from_addr);
    lemma_block_addr_read_back(block, rest);
}

/// The blocks of the index, taken from the front.
proof fn lemma_blocks_from_front(blocks: Seq<IndexedBlock>)
    requires
        blocks.len() > 0,
    ensures
        crate::sstable_index::block_metas_bytes(blocks) == crate::sstable_index::block_meta_bytes(blocks[0])
            + crate::sstable_index::block_metas_bytes(blocks.drop_first()),
    decreases blocks.len(),
{
    let first = crate::sstable_index::block_meta_bytes(blocks[0]);
    let later = crate::sstable_index::block_metas_bytes(blocks.drop_first());
    if blocks.len() == 1 {
        assert(crate::sstable_index::block_metas_bytes(blocks.drop_last()) =~= Seq::empty());
        assert(later =~= Seq::empty());
        assert(crate::sstable_index::block_metas_bytes(blocks) =~= first + later);
    } else {
        lemma_blocks_from_front(blocks.drop_last());
        assert(blocks.drop_last().drop_first() =~= blocks.drop_first().drop_last());
        assert(blocks.drop_first().last() == blocks.last());
        assert(crate::sstable_index::block_metas_bytes(blocks) =~= first + later);
    }
}

proof fn lemma_blocks_read_back(blocks: Seq<IndexedBlock>, rest: Seq<u8>)
    requires
        forall|i: int| 0 <= i < blocks.len() ==> block_fits(#[trigger] blocks[i]),
    ensures
        blocks_at(crate::sstable_index::block_metas_bytes(blocks) + rest, blocks.len()) == Some((blocks, rest)),
    decreases blocks.len(),
{
    let data = crate::sstable_index::block_metas_bytes(blocks) + rest;
    if blocks.len() == 0 {
        assert(data =~= rest);
        assert(blocks =~= Seq::empty());
    } else {
        let tail = crate::sstable_index::block_metas_bytes(blocks.drop_first()) + rest;
        lemma_blocks_from_front(blocks);
        assert(data =~= crate::sstable_index::block_meta_bytes(blocks[0]) + tail);
        assert(block_fits(blocks[0]));
        lemma_block_read_back(blocks[0], tail);
        assert forall|i: int| 0 <= i < blocks.drop_first().len() implies block_fits(
            #[trigger] blocks.drop_first()[i],
        ) by {
            assert(block_fits(blocks[i + 1]));
        }
        lemma_blocks_read_back(blocks.drop_first(), rest);
        assert(seq![blocks[0]] + blocks.drop_first() =~= blocks);
    }
}

/// The index is read back as it was written, whatever follows it: each block with its separating
/// key, its range and its first ordinal.
pub proof fn law_index_read_back(blocks: Seq<IndexedBlock>, rest: Seq<u8>)
    requires
        blocks.len() <= u64::MAX,
        forall|i: int| 0 <= i < blocks.len() ==> block_fits(#[trigger] blocks[i]),
    ensures
        index_at(crate::sstable_index::index_bytes(blocks) + rest) == Some((blocks, rest)),
{
    let name = seq![98u8, 108, 111, 99, 107, 115];
    let from_blocks = crate::sstable_index::block_metas_bytes(blocks) + rest;
    let from_array = crate::cbor::head_bytes(ARRAY, blocks.len()) + from_blocks;
    let from_name = crate::cbor::text_bytes(name) + from_array;
    assert(crate::sstable_index::blocks_name() =~= name);
    assert(crate::sstable_index::index_bytes(blocks) + rest =~= crate::cbor::head_bytes(MAP, 1) + from_name);
    law_head_read_back(MAP, 1, from_name);
    law_text_read_back(name, from_array);
    law_head_read_back(ARRAY, blocks.len(), from_blocks);
    lemma_blocks_read_back(blocks, rest);
}

proof fn lemma_numbers_bytes_len(numbers: Seq<u8>)
    ensures
        crate::cbor::numbers_bytes(numbers).len() >= numbers.len(),
    decreases numbers.len(),
{
    if numbers.len() > 0 {
        lemma_numbers_bytes_len(numbers.drop_last());
    }
}

/// The index takes more bytes than it has blocks, and than each of its keys.
pub(crate) proof fn lemma_index_bytes_len(blocks: Seq<IndexedBlock>)
    ensures
        crate::sstable_index::block_metas_bytes(blocks).len() >= blocks.len(),
        forall|i: int|
            0 <= i < blocks.len() ==> (#[trigger] blocks[i]).last_key_or_greater.len()
                <= crate::sstable_index::block_metas_bytes(blocks).len(),
        crate::sstable_index::index_bytes(blocks).len() >= crate::sstable_index::block_metas_bytes(blocks).len(),
    decreases blocks.len(),
{
    if blocks.len() > 0 {
        lemma_index_bytes_len(blocks.drop_last());
        lemma_numbers_bytes_len(blocks.last().last_key_or_greater);
        assert forall|i: int| 0 <= i < blocks.len() implies (#[trigger] blocks[i]).last_key_or_greater.len()
            <= crate::sstable_index::block_metas_bytes(blocks).len() by {
            if i < blocks.len() - 1 {
                assert(blocks.drop_last()[i] == blocks[i]);
            }
        }
    }
}

/// Eight little-endian bytes spell the number that was written.
pub proof fn law_footer_number_read_back(before: Seq<u8>, number: nat, rest: Seq<u8>)
    requires
        number <= u64::MAX,
    ensures
        crate::fixed_int::le_bytes(number, 8).len() == 8,
        footer_number(before + crate::fixed_int::le_bytes(number, 8) + rest, before.len() as int) == number,
{
    let bytes = crate::fixed_int::le_bytes(number, 8);
    let data = before + bytes + rest;
    crate::fixed_int::lemma_le_bytes_len(number, 8);
    reveal_with_fuel(crate::fixed_int::le_bytes, 9);
    let n = before.len() as int;
    assert(forall|k: int| 0 <= k < 8 ==> data[n + k] == #[trigger] bytes[k]);
    let d1 = number / 256;
    let d2 = d1 / 256;
    let d3 = d2 / 256;
    let d4 = d3 / 256;
    let d5 = d4 / 256;
    let d6 = d5 / 256;
    let d7 = d6 / 256;
    assert(bytes[0] == number % 256);
    assert(bytes[1] == d1 % 256);
    assert(bytes[2] == d2 % 256);
    assert(bytes[3] == d3 % 256);
    assert(bytes[4] == d4 % 256);
    assert(bytes[5] == d5 % 256);
    assert(bytes[6] == d6 % 256);
    assert(bytes[7] == d7 % 256);
}

} // verus!
