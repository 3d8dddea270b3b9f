//! A whole table, as a function of the entries that were inserted.

use crate::delta::BLOCK_LEN;
use crate::value::ValueWriter;
use crate::writer::TableState;
use vstd::prelude::*;

verus! {

/// The table that the entries make, inserted one after the other and appended to `held`.
pub open spec fn written<VW: ValueWriter>(held: Seq<u8>, entries: Seq<(Seq<u8>, VW::Value)>) -> TableState<
    VW::Value,
>
    decreases entries.len(),
{
    if entries.len() == 0 {
        TableState::over(held)
    } else {
        written::<VW>(held, entries.drop_last()).with_entry::<VW>(entries.last().0, entries.last().1)
    }
}

/// Each entry can be inserted after those before it.
pub open spec fn accepted<VW: ValueWriter>(entries: Seq<(Seq<u8>, VW::Value)>) -> bool
    decreases entries.len(),
{
    entries.len() > 0 ==> {
        let before = written::<VW>(Seq::empty(), entries.drop_last());
        &&& accepted::<VW>(entries.drop_last())
        &&& before.accepts_key(entries.last().0)
        &&& before.accepts_value::<VW>(entries.last().1)
    }
}

/// The bytes of the table with the given entries.
pub open spec fn table_bytes<VW: ValueWriter>(entries: Seq<(Seq<u8>, VW::Value)>) -> Seq<u8> {
    written::<VW>(Seq::empty(), entries).finished::<VW>()
}

/// The keys of the entries.
pub open spec fn keys_of<V>(entries: Seq<(Seq<u8>, V)>) -> Seq<Seq<u8>> {
    Seq::new(entries.len(), |i: int| entries[i].0)
}

/// The values of the entries.
pub open spec fn values_of<V>(entries: Seq<(Seq<u8>, V)>) -> Seq<V> {
    Seq::new(entries.len(), |i: int| entries[i].1)
}

/// The entries, each with its value.
pub open spec fn with_values<V>(entries: Seq<(Seq<u8>, V)>) -> Seq<(Seq<u8>, Option<V>)> {
    Seq::new(entries.len(), |i: int| (entries[i].0, Some(entries[i].1)))
}

/// The keys of a block as differences, the first one from `prev`.
pub open spec fn key_deltas<V>(prev: Seq<u8>, entries: Seq<(Seq<u8>, V)>) -> Seq<u8>
    decreases entries.len(),
{
    if entries.len() == 0 {
        Seq::empty()
    } else {
        let key = entries[0].0;
        let keep = crate::order::common_prefix(prev, key);
        crate::delta::delta_bytes(keep, key.skip(keep as int)) + key_deltas(key, entries.drop_first())
    }
}

/// The entries of the closed blocks, and those of the open block.
pub struct Blocks<V> {
    pub closed: Seq<Seq<(Seq<u8>, V)>>,
    pub open: Seq<(Seq<u8>, V)>,
}

/// How the entries fall into blocks: a block is closed as soon as its keys take more than
/// [`BLOCK_LEN`] bytes.
pub open spec fn blocks_of<V>(entries: Seq<(Seq<u8>, V)>) -> Blocks<V>
    decreases entries.len(),
{
    if entries.len() == 0 {
        Blocks { closed: Seq::empty(), open: Seq::empty() }
    } else {
        let before = blocks_of(entries.drop_last());
        let open = before.open.push(entries.last());
        if key_deltas(Seq::empty(), open).len() > BLOCK_LEN {
            Blocks { closed: before.closed.push(open), open: Seq::empty() }
        } else {
            Blocks { closed: before.closed, open }
        }
    }
}

/// The blocks of the finished table.
pub open spec fn all_blocks<V>(entries: Seq<(Seq<u8>, V)>) -> Seq<Seq<(Seq<u8>, V)>> {
    let blocks = blocks_of(entries);
    if blocks.open.len() == 0 {
        blocks.closed
    } else {
        blocks.closed.push(blocks.open)
    }
}

/// The content of a block: its values, then its keys.
pub open spec fn content_of<VW: ValueWriter>(block: Seq<(Seq<u8>, VW::Value)>) -> Seq<u8> {
    VW::encoded(values_of(block)) + key_deltas(Seq::empty(), block)
}

/// The bytes of a block.
pub open spec fn bytes_of_block<VW: ValueWriter>(block: Seq<(Seq<u8>, VW::Value)>) -> Seq<u8> {
    crate::delta::block_bytes::<VW>(key_deltas(Seq::empty(), block), values_of(block))
}

/// The bytes of consecutive blocks.
pub open spec fn bytes_of_blocks<VW: ValueWriter>(blocks: Seq<Seq<(Seq<u8>, VW::Value)>>) -> Seq<u8>
    decreases blocks.len(),
{
    if blocks.len() == 0 {
        Seq::empty()
    } else {
        bytes_of_block::<VW>(blocks[0]) + bytes_of_blocks::<VW>(blocks.drop_first())
    }
}

/// The entries of consecutive blocks.
pub open spec fn entries_of<V>(blocks: Seq<Seq<(Seq<u8>, V)>>) -> Seq<(Seq<u8>, V)>
    decreases blocks.len(),
{
    if blocks.len() == 0 {
        Seq::empty()
    } else {
        blocks[0] + entries_of(blocks.drop_first())
    }
}

/// The length of every block fits in the four bytes that it is written in.
pub open spec fn blocks_fit<VW: ValueWriter>(entries: Seq<(Seq<u8>, VW::Value)>) -> bool {
    forall|i: int|
        0 <= i < all_blocks(entries).len() ==> content_of::<VW>(#[trigger] all_blocks(entries)[i]).len()
            < 0x1_0000_0000
}

/// Each key is empty or comes before the next one.
pub open spec fn keys_ordered<V>(entries: Seq<(Seq<u8>, V)>) -> bool {
    forall|i: int, j: int|
        0 <= i && j == i + 1 && j < entries.len() ==> (#[trigger] entries[i]).0.len() == 0
            || crate::order::lex_lt(entries[i].0, (#[trigger] entries[j]).0)
}

pub(crate) proof fn lemma_bytes_of_blocks_push<VW: ValueWriter>(
    blocks: Seq<Seq<(Seq<u8>, VW::Value)>>,
    block: Seq<(Seq<u8>, VW::Value)>,
)
    ensures
        bytes_of_blocks::<VW>(blocks.push(block)) == bytes_of_blocks::<VW>(blocks) + bytes_of_block::<VW>(block),
    decreases blocks.len(),
{
    let pushed = blocks.push(block);
    if blocks.len() == 0 {
        assert(pushed.drop_first() =~= blocks);
        assert(bytes_of_blocks::<VW>(pushed) =~= bytes_of_blocks::<VW>(blocks) + bytes_of_block::<VW>(block));
    } else {
        lemma_bytes_of_blocks_push::<VW>(blocks.drop_first(), block);
        assert(pushed.drop_first() =~= blocks.drop_first().push(block));
        assert(bytes_of_blocks::<VW>(pushed) =~= bytes_of_blocks::<VW>(blocks) + bytes_of_block::<VW>(block));
    }
}

pub(crate) proof fn lemma_entries_of_push<V>(blocks: Seq<Seq<(Seq<u8>, V)>>, block: Seq<(Seq<u8>, V)>)
    ensures
        entries_of(blocks.push(block)) == entries_of(blocks) + block,
    decreases blocks.len(),
{
    let pushed = blocks.push(block);
    if blocks.len() == 0 {
        assert(pushed.drop_first() =~= blocks);
        assert(entries_of(pushed) =~= entries_of(blocks) + block);
    } else {
        lemma_entries_of_push(blocks.drop_first(), block);
        assert(pushed.drop_first() =~= blocks.drop_first().push(block));
        assert(entries_of(pushed) =~= entries_of(blocks) + block);
    }
}

/// One more key adds its difference from the last one.
pub(crate) proof fn lemma_key_deltas_push<V>(prev: Seq<u8>, entries: Seq<(Seq<u8>, V)>, entry: (Seq<u8>, V))
    ensures
        ({
            let last = if entries.len() == 0 {
                prev
            } else {
                entries.last().0
            };
            let keep = crate::order::common_prefix(last, entry.0);
            key_deltas(prev, entries.push(entry)) == key_deltas(prev, entries) + crate::delta::delta_bytes(
                keep,
                entry.0.skip(keep as int),
            )
        }),
    decreases entries.len(),
{
    let pushed = entries.push(entry);
    let last = if entries.len() == 0 {
        prev
    } else {
        entries.last().0
    };
    let keep = crate::order::common_prefix(last, entry.0);
    let delta = crate::delta::delta_bytes(keep, entry.0.skip(keep as int));
    if entries.len() == 0 {
        assert(pushed.drop_first() =~= entries);
        assert(key_deltas(entry.0, entries) == Seq::<u8>::empty());
        assert(key_deltas(prev, pushed) =~= key_deltas(prev, entries) + delta);
    } else {
        let tail = entries.drop_first();
        let first = entries[0].0;
        let first_keep = crate::order::common_prefix(prev, first);
        let first_delta = crate::delta::delta_bytes(first_keep, first.skip(first_keep as int));
        lemma_key_deltas_push(first, tail, entry);
        assert(tail.len() > 0 ==> tail.last() == entries.last());
        assert(pushed.drop_first() =~= tail.push(entry));
        assert(key_deltas(prev, pushed) == first_delta + key_deltas(first, tail.push(entry)));
        assert(key_deltas(prev, pushed) =~= key_deltas(prev, entries) + delta);
    }
}

/// Each key takes at least a byte, and no key is longer than what was written for it and before it.
pub(crate) proof fn lemma_key_deltas_len<V>(prev: Seq<u8>, entries: Seq<(Seq<u8>, V)>)
    ensures
        key_deltas(prev, entries).len() >= entries.len(),
        forall|i: int|
            0 <= i < entries.len() ==> (#[trigger] entries[i]).0.len() <= prev.len() + key_deltas(prev, entries).len(),
    decreases entries.len(),
{
    if entries.len() > 0 {
        let key = entries[0].0;
        let keep = crate::order::common_prefix(prev, key);
        let delta = crate::delta::delta_bytes(keep, key.skip(keep as int));
        crate::order::lemma_common_prefix(prev, key);
        lemma_key_deltas_len(key, entries.drop_first());
        assert(delta.len() >= 1 + (key.len() - keep)) by {
            crate::vint::lemma_vint_bytes_len(keep);
        }
        assert forall|i: int| 0 <= i < entries.len() implies (#[trigger] entries[i]).0.len() <= prev.len()
            + key_deltas(prev, entries).len() by {
            if i > 0 {
                assert(entries.drop_first()[i - 1].0.len() <= key.len() + key_deltas(
                    key,
                    entries.drop_first(),
                ).len());
            }
        }
    }
}

/// How the state of a table follows from its blocks.
pub open spec fn describes<VW: ValueWriter>(
    held: Seq<u8>,
    entries: Seq<(Seq<u8>, VW::Value)>,
    state: TableState<VW::Value>,
) -> bool {
    let blocks = blocks_of(entries);
    &&& state.delta.held == held
    &&& state.delta.written == bytes_of_blocks::<VW>(blocks.closed)
    &&& state.delta.block == key_deltas(Seq::empty(), blocks.open)
    &&& state.delta.values == values_of(blocks.open)
    &&& state.last_key == if blocks.open.len() == 0 {
        Seq::empty()
    } else {
        blocks.open.last().0
    }
    &&& state.num_terms == entries.len()
    &&& state.first_ordinal + blocks.open.len() == entries.len()
    &&& state.index.len() == blocks.closed.len()
    &&& entries_of(blocks.closed) + blocks.open == entries
    &&& forall|i: int| 0 <= i < blocks.closed.len() ==> (#[trigger] blocks.closed[i]).len() > 0
    &&& key_deltas(Seq::empty(), blocks.open).len() <= BLOCK_LEN
}

pub proof fn lemma_describes<VW: ValueWriter>(held: Seq<u8>, entries: Seq<(Seq<u8>, VW::Value)>)
    ensures
        describes::<VW>(held, entries, written::<VW>(held, entries)),
    decreases entries.len(),
{
    let state = written::<VW>(held, entries);
    let blocks = blocks_of(entries);
    if entries.len() == 0 {
        assert(entries_of(blocks.closed) + blocks.open =~= entries);
        assert(values_of(blocks.open) =~= Seq::empty());
    } else {
        let old_entries = entries.drop_last();
        let old_state = written::<VW>(held, old_entries);
        let old_blocks = blocks_of(old_entries);
        let entry = entries.last();
        lemma_describes::<VW>(held, old_entries);
        let open = old_blocks.open.push(entry);
        lemma_key_deltas_push(Seq::empty(), old_blocks.open, entry);
        lemma_key_deltas_len(Seq::empty(), open);
        assert(values_of(open) =~= values_of(old_blocks.open).push(entry.1));
        assert(entries =~= old_entries.push(entry));
        assert(entries_of(old_blocks.closed) + open =~= old_entries.push(entry));
        if key_deltas(Seq::empty(), open).len() > BLOCK_LEN {
            lemma_bytes_of_blocks_push::<VW>(old_blocks.closed, open);
            lemma_entries_of_push(old_blocks.closed, open);
            assert(entries_of(blocks.closed) + blocks.open =~= entries);
            assert(values_of(blocks.open) =~= Seq::empty());
        }
    }
}

} // verus!
