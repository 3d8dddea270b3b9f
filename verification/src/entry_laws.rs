//! Which entries a table takes, said of the keys and the values themselves.

use crate::reader::{Scan, TablePosition, TableStep};
use crate::value::{
    RangeValueReader, RangeValueWriter, U64MonotonicValueReader, U64MonotonicValueWriter, ValueReader, ValueWriter,
    VoidValueReader, VoidValueWriter,
};
use crate::writer::TableState;
use crate::{MonotonicU64SSTable, RangeSSTable, SSTable, VoidSSTable};
use std::ops::Range;
use vstd::prelude::*;

verus! {

/// The order of keys: after a shared start, `a` ends where `b` goes on, or has the smaller byte.
pub proof fn law_order_of_keys(a: Seq<u8>, b: Seq<u8>)
    ensures
        crate::order::lex_lt(a, b) <==> exists|n: int|
            0 <= n <= a.len() && n < b.len() && #[trigger] a.take(n) == b.take(n) && (n == a.len() || a[n] < b[n]),
        crate::order::lex_le(a, b) <==> a == b || crate::order::lex_lt(a, b),
{
    let common = crate::order::common_prefix(a, b) as int;
    crate::order::lemma_common_prefix(a, b);
    crate::order::lemma_lex_lt_at(a, b);
    assert(a.take(common) =~= b.take(common));
    if exists|n: int|
        0 <= n <= a.len() && n < b.len() && #[trigger] a.take(n) == b.take(n) && (n == a.len() || a[n] < b[n]) {
        let n = choose|n: int|
            0 <= n <= a.len() && n < b.len() && #[trigger] a.take(n) == b.take(n) && (n == a.len() || a[n] < b[n]);
        assert forall|i: int| 0 <= i < n implies a[i] == b[i] by {
            assert(a.take(n)[i] == b.take(n)[i]);
        }
        crate::order::lemma_common_prefix_unique(a, b, n);
    }
}

/// The common prefix of two strings is the longest one that both start with.
pub proof fn law_common_prefix_longest(a: Seq<u8>, b: Seq<u8>, n: int)
    requires
        0 <= n <= a.len(),
        n <= b.len(),
    ensures
        crate::order::common_prefix(a, b) <= a.len(),
        crate::order::common_prefix(a, b) <= b.len(),
        n <= crate::order::common_prefix(a, b) <==> a.take(n) == b.take(n),
{
    let common = crate::order::common_prefix(a, b) as int;
    crate::order::lemma_common_prefix(a, b);
    if n <= common {
        assert(a.take(n) =~= b.take(n));
    } else {
        assert(a.take(n)[common] == a[common]);
        assert(b.take(n)[common] == b[common]);
    }
}

/// Keys strictly increase where each comes before all that follow it.
pub proof fn law_strictly_increasing(keys: Seq<Seq<u8>>)
    ensures
        crate::order::strictly_increasing(keys) <==> forall|i: int, j: int|
            0 <= i < j < keys.len() ==> crate::order::lex_lt(#[trigger] keys[i], #[trigger] keys[j]),
{
}

/// Numbers can be written in one block exactly when none is smaller than one before it.
pub proof fn law_u64_writable(values: Seq<u64>)
    ensures
        U64MonotonicValueWriter::writable(values) <==> forall|i: int, j: int|
            0 <= i <= j < values.len() ==> #[trigger] values[i] <= #[trigger] values[j],
{
}

/// Ranges can be written in one block exactly when none ends before it starts, and each starts where
/// the one before ends.
pub proof fn law_range_writable(values: Seq<Range<u64>>)
    ensures
        RangeValueWriter::writable(values) <==> {
            &&& forall|i: int| 0 <= i < values.len() ==> (#[trigger] values[i]).start <= values[i].end
            &&& forall|i: int, j: int|
                0 <= i && j == i + 1 && j < values.len() ==> (#[trigger] values[i]).end == (
                #[trigger] values[j]).start
        },
{
}

/// Values that are nothing can always be written.
pub proof fn law_void_writable(values: Seq<()>)
    ensures
        VoidValueWriter::writable(values),
{
}

/// A key can be inserted exactly when it comes after the last one. The empty key can also follow
/// itself, as long as its block has not been closed.
pub proof fn law_key_accepted<VW: ValueWriter>(entries: Seq<(Seq<u8>, VW::Value)>, key: Seq<u8>)
    requires
        crate::table::accepted::<VW>(entries),
    ensures
        ({
            let state = crate::table::written::<VW>(Seq::empty(), entries);
            state.accepts_key(key) <==> {
                ||| entries.len() == 0
                ||| crate::order::lex_lt(entries.last().0, key)
                ||| entries.last().0.len() == 0 && state.first_ordinal < entries.len()
            }
        }),
{
    crate::table::lemma_describes::<VW>(Seq::empty(), entries);
    if entries.len() > 0 {
        crate::laws::lemma_last_entry::<VW>(entries);
        crate::laws::lemma_last_index_key::<VW>(entries);
        if crate::order::lex_lt(entries.last().0, key) {
            crate::laws::lemma_greater_key_accepted::<VW>(entries, key);
        }
    }
}

/// The values of the open block.
proof fn lemma_open_block<VW: ValueWriter>(entries: Seq<(Seq<u8>, VW::Value)>)
    requires
        crate::table::accepted::<VW>(entries),
    ensures
        ({
            let state = crate::table::written::<VW>(Seq::empty(), entries);
            &&& VW::writable(state.delta.values)
            &&& state.num_terms == entries.len()
            &&& state.first_ordinal + state.delta.values.len() == entries.len()
            &&& state.delta.values.len() > 0 ==> state.delta.values.last() == entries.last().1
        }),
{
    crate::table::lemma_describes::<VW>(Seq::empty(), entries);
    crate::laws::lemma_accepted_blocks::<VW>(entries);
    if entries.len() > 0 {
        crate::laws::lemma_last_entry::<VW>(entries);
    }
}

/// A number can be inserted exactly when it starts a block or is not smaller than the last one, and
/// can be counted.
pub proof fn law_u64_value_accepted(entries: Seq<(Seq<u8>, u64)>, value: u64)
    requires
        crate::table::accepted::<U64MonotonicValueWriter>(entries),
    ensures
        ({
            let state = crate::table::written::<U64MonotonicValueWriter>(Seq::empty(), entries);
            state.accepts_value::<U64MonotonicValueWriter>(value) <==> {
                &&& entries.len() < u64::MAX
                &&& state.first_ordinal == entries.len() || entries.last().1 <= value
            }
        }),
{
    let state = crate::table::written::<U64MonotonicValueWriter>(Seq::empty(), entries);
    let open = state.delta.values;
    let pushed = open.push(value);
    lemma_open_block::<U64MonotonicValueWriter>(entries);
    law_u64_writable(open);
    law_u64_writable(pushed);
    if open.len() > 0 {
        assert(pushed[open.len() - 1] == entries.last().1);
        assert(pushed[open.len() as int] == value);
        assert forall|i: int| 0 <= i < open.len() implies #[trigger] open[i] <= entries.last().1 by {
            assert(open[i] <= open[open.len() - 1]);
        }
    }
}

/// A range can be inserted exactly when it does not end before it starts, starts a block or starts
/// where the last one ends, and can be counted.
pub proof fn law_range_value_accepted(entries: Seq<(Seq<u8>, Range<u64>)>, value: Range<u64>)
    requires
        crate::table::accepted::<RangeValueWriter>(entries),
    ensures
        ({
            let state = crate::table::written::<RangeValueWriter>(Seq::empty(), entries);
            state.accepts_value::<RangeValueWriter>(value) <==> {
                &&& entries.len() < u64::MAX
                &&& value.start <= value.end
                &&& state.first_ordinal == entries.len() || entries.last().1.end == value.start
            }
        }),
{
    let state = crate::table::written::<RangeValueWriter>(Seq::empty(), entries);
    let open = state.delta.values;
    let pushed = open.push(value);
    lemma_open_block::<RangeValueWriter>(entries);
    law_range_writable(open);
    law_range_writable(pushed);
    assert(pushed[open.len() as int] == value);
    if open.len() > 0 {
        assert(pushed[open.len() - 1] == entries.last().1);
    }
    if value.start <= value.end && (open.len() == 0 || entries.last().1.end == value.start) {
        assert forall|i: int| 0 <= i < pushed.len() implies (#[trigger] pushed[i]).start <= pushed[i].end by {
            if i < open.len() {
                assert(open[i].start <= open[i].end);
            }
        }
        assert forall|i: int, j: int| 0 <= i && j == i + 1 && j < pushed.len() implies (#[trigger] pushed[i]).end
            == (#[trigger] pushed[j]).start by {
            if j < open.len() {
                assert(open[i].end == open[j].start);
            }
        }
    }
}

/// A value that is nothing can be inserted exactly when it can be counted.
pub proof fn law_void_value_accepted(entries: Seq<(Seq<u8>, ())>)
    requires
        crate::table::accepted::<VoidValueWriter>(entries),
    ensures
        crate::table::written::<VoidValueWriter>(Seq::empty(), entries).accepts_value::<VoidValueWriter>(()) <==> entries.len()
            < u64::MAX,
{
    lemma_open_block::<VoidValueWriter>(entries);
}

proof fn lemma_increasing_entries<V>(entries: Seq<(Seq<u8>, V)>)
    requires
        forall|i: int, j: int|
            0 <= i < j < entries.len() ==> crate::order::lex_lt((#[trigger] entries[i]).0, (#[trigger] entries[j]).0),
    ensures
        crate::order::strictly_increasing(crate::table::keys_of(entries)),
{
    let keys = crate::table::keys_of(entries);
    assert forall|i: int, j: int| 0 <= i < j < keys.len() implies crate::order::lex_lt(
        #[trigger] keys[i],
        #[trigger] keys[j],
    ) by {
        assert(crate::order::lex_lt(entries[i].0, entries[j].0));
    }
}

/// Increasing keys without values are accepted.
pub proof fn law_void_entries_accepted(entries: Seq<(Seq<u8>, ())>)
    requires
        entries.len() <= u64::MAX,
        forall|i: int, j: int|
            0 <= i < j < entries.len() ==> crate::order::lex_lt((#[trigger] entries[i]).0, (#[trigger] entries[j]).0),
    ensures
        crate::table::accepted::<VoidValueWriter>(entries),
{
    lemma_increasing_entries(entries);
    law_void_writable(crate::table::values_of(entries));
    crate::laws::law_increasing_keys_accepted::<VoidValueWriter>(entries);
}

/// Increasing keys with numbers that never decrease are accepted.
pub proof fn law_u64_entries_accepted(entries: Seq<(Seq<u8>, u64)>)
    requires
        entries.len() <= u64::MAX,
        forall|i: int, j: int|
            0 <= i < j < entries.len() ==> crate::order::lex_lt((#[trigger] entries[i]).0, (#[trigger] entries[j]).0),
        forall|i: int, j: int|
            0 <= i < j < entries.len() ==> (#[trigger] entries[i]).1 <= (#[trigger] entries[j]).1,
    ensures
        crate::table::accepted::<U64MonotonicValueWriter>(entries),
{
    let values = crate::table::values_of(entries);
    lemma_increasing_entries(entries);
    assert forall|i: int, j: int| 0 <= i <= j < values.len() implies #[trigger] values[i] <= #[trigger] values[j] by {
        if i < j {
            assert(entries[i].1 <= entries[j].1);
        }
    }
    law_u64_writable(values);
    crate::laws::law_increasing_keys_accepted::<U64MonotonicValueWriter>(entries);
}

/// Increasing keys with ranges, each of which starts where the one before ends, are accepted.
pub proof fn law_range_entries_accepted(entries: Seq<(Seq<u8>, Range<u64>)>)
    requires
        entries.len() <= u64::MAX,
        forall|i: int, j: int|
            0 <= i < j < entries.len() ==> crate::order::lex_lt((#[trigger] entries[i]).0, (#[trigger] entries[j]).0),
        forall|i: int| 0 <= i < entries.len() ==> (#[trigger] entries[i]).1.start <= entries[i].1.end,
        forall|i: int, j: int|
            0 <= i && j == i + 1 && j < entries.len() ==> (#[trigger] entries[i]).1.end == (
            #[trigger] entries[j]).1.start,
    ensures
        crate::table::accepted::<RangeValueWriter>(entries),
{
    let values = crate::table::values_of(entries);
    lemma_increasing_entries(entries);
    assert forall|i: int| 0 <= i < values.len() implies (#[trigger] values[i]).start <= values[i].end by {
        assert(entries[i].1.start <= entries[i].1.end);
    }
    assert forall|i: int, j: int| 0 <= i && j == i + 1 && j < values.len() implies (#[trigger] values[i]).end == (
    #[trigger] values[j]).start by {
        assert(entries[i].1.end == entries[j].1.start);
    }
    law_range_writable(values);
    crate::laws::law_increasing_keys_accepted::<RangeValueWriter>(entries);
}

proof fn lemma_never_smaller(entries: Seq<(Seq<u8>, u64)>, i: int, j: int)
    requires
        0 <= i < j < entries.len(),
        forall|a: int, b: int|
            0 <= a && b == a + 1 && b < entries.len() ==> (#[trigger] entries[a]).1 <= (#[trigger] entries[b]).1,
    ensures
        entries[i].1 <= entries[j].1,
    decreases j - i,
{
    assert(entries[j - 1].1 <= entries[j].1);
    if i < j - 1 {
        lemma_never_smaller(entries, i, j - 1);
    }
}

/// Numbers are refused only where one is smaller than the one before it. A merge of tables of
/// numbers stops for their order on no other account.
pub proof fn law_u64_refused(entries: Seq<(Seq<u8>, u64)>)
    requires
        !U64MonotonicValueWriter::writable(crate::table::values_of(entries)),
    ensures
        exists|i: int, j: int|
            0 <= i && j == i + 1 && j < entries.len() && (#[trigger] entries[j]).1 < (#[trigger] entries[i]).1,
{
    if !(exists|i: int, j: int|
        0 <= i && j == i + 1 && j < entries.len() && (#[trigger] entries[j]).1 < (#[trigger] entries[i]).1) {
        let values = crate::table::values_of(entries);
        assert forall|i: int, j: int| 0 <= i <= j < values.len() implies #[trigger] values[i]
            <= #[trigger] values[j] by {
            if i < j {
                lemma_never_smaller(entries, i, j);
            }
        }
        law_u64_writable(values);
    }
}

/// Ranges are refused only where one ends before it starts, or does not start where the one before
/// ends. A merge of tables of ranges stops for their order on no other account.
pub proof fn law_range_refused(entries: Seq<(Seq<u8>, Range<u64>)>)
    requires
        !RangeValueWriter::writable(crate::table::values_of(entries)),
    ensures
        (exists|i: int| 0 <= i < entries.len() && (#[trigger] entries[i]).1.end < entries[i].1.start) || (exists|
            i: int,
            j: int,
        |
            0 <= i && j == i + 1 && j < entries.len() && (#[trigger] entries[i]).1.end != (
            #[trigger] entries[j]).1.start),
{
    let values = crate::table::values_of(entries);
    law_range_writable(values);
    if exists|i: int| 0 <= i < values.len() && (#[trigger] values[i]).start > values[i].end {
        let i = choose|i: int| 0 <= i < values.len() && (#[trigger] values[i]).start > values[i].end;
        assert(entries[i].1.end < entries[i].1.start);
    } else {
        let (i, j) = choose|i: int, j: int|
            0 <= i && j == i + 1 && j < values.len() && (#[trigger] values[i]).end != (#[trigger] values[j]).start;
        assert(entries[i].1.end != entries[j].1.start);
    }
}

/// A merge of tables without values never stops for the order of values.
pub proof fn law_void_never_refused(entries: Seq<(Seq<u8>, ())>)
    ensures
        VoidValueWriter::writable(crate::table::values_of(entries)),
{
}

/// The state of a table after its entries: each is a key, then a value, and what the sink held at
/// first stays in front and has no part in the table.
pub proof fn law_entries_one_by_one<VW: ValueWriter>(
    held: Seq<u8>,
    entries: Seq<(Seq<u8>, VW::Value)>,
    key: Seq<u8>,
    value: VW::Value,
)
    ensures
        crate::table::written::<VW>(held, Seq::empty()) == TableState::<VW::Value>::over(held),
        crate::table::written::<VW>(held, entries.push((key, value))) == crate::table::written::<VW>(
            held,
            entries,
        ).with_key(key).with_value::<VW>(value),
        crate::table::written::<VW>(held, entries).with_entry::<VW>(key, value) == crate::table::written::<VW>(
            held,
            entries,
        ).with_key(key).with_value::<VW>(value),
        crate::table::written::<VW>(held, entries).delta.held == held,
        crate::table::written::<VW>(held, entries).finished::<VW>() == crate::table::table_bytes::<VW>(entries),
        crate::table::written::<VW>(held, entries).num_terms == entries.len(),
{
    assert(entries.push((key, value)).drop_last() =~= entries);
    crate::laws::lemma_held::<VW>(held, entries);
    crate::table::lemma_describes::<VW>(held, entries);
}

/// Entries are accepted exactly when the last one can be inserted after the others, and those are
/// accepted.
pub proof fn law_accepted_one_by_one<VW: ValueWriter>(
    entries: Seq<(Seq<u8>, VW::Value)>,
    key: Seq<u8>,
    value: VW::Value,
)
    ensures
        crate::table::accepted::<VW>(Seq::empty()),
        ({
            let state = crate::table::written::<VW>(Seq::empty(), entries);
            crate::table::accepted::<VW>(entries.push((key, value))) <==> {
                &&& crate::table::accepted::<VW>(entries)
                &&& state.accepts_key(key)
                &&& state.accepts_value::<VW>(value)
            }
        }),
{
    assert(entries.push((key, value)).drop_last() =~= entries);
}

/// What a table in any state takes. A key comes after the last key of the open block, and, where the
/// open block has no value yet, after what the index has for the last closed one. A value can be
/// written after those of the open block.
pub proof fn law_state_accepts<VW: ValueWriter>(state: TableState<VW::Value>, key: Seq<u8>, value: VW::Value)
    ensures
        state.accepts_key(key) <==> {
            &&& state.last_key.len() > 0 ==> crate::order::lex_lt(state.last_key, key)
            &&& state.first_ordinal == state.num_terms && state.index.len() > 0 ==> crate::order::lex_lt(
                state.index.last().last_key_or_greater,
                key,
            )
        },
        state.accepts_value::<VW>(value) <==> VW::writable(state.delta.values.push(value)) && state.num_terms
            < u64::MAX,
{
}

/// The open block is closed where its keys take more than 32000 bytes, and not otherwise.
pub proof fn law_flush_if_required<VW: ValueWriter>(state: TableState<VW::Value>)
    ensures
        state.delta.block.len() <= 32_000 ==> state.flushed_if_required::<VW>() == state,
        state.delta.block.len() > 32_000 ==> state.flushed_if_required::<VW>() == state.flushed::<VW>(),
{
}

/// Closing a block appends its length, its values and its keys, and lists it in the index with its
/// last key. A block without a key is not closed.
pub proof fn law_flush<VW: ValueWriter>(state: TableState<VW::Value>)
    ensures
        state.delta.block.len() == 0 ==> state.flushed::<VW>() == state,
        state.delta.block.len() > 0 ==> {
            let next = state.flushed::<VW>();
            let content = VW::encoded(state.delta.values) + state.delta.block;
            let start = state.delta.written.len();
            &&& next.delta.held == state.delta.held
            &&& next.delta.written.len() == start + 4 + content.len()
            &&& next.delta.written.take(start as int) == state.delta.written
            &&& next.delta.written.skip(start as int + 4) == content
            &&& content.len() < 0x1_0000_0000 ==> crate::format_laws::length_number(
                next.delta.written.skip(start as int),
            ) == content.len()
            &&& next.delta.block.len() == 0
            &&& next.delta.values.len() == 0
            &&& next.last_key.len() == 0
            &&& next.num_terms == state.num_terms
            &&& next.first_ordinal == state.num_terms
            &&& next.index.len() == state.index.len() + 1
            &&& next.index.drop_last() == state.index
            &&& next.index.last().last_key_or_greater == state.last_key
            &&& next.index.last().start == start
            &&& next.index.last().end == next.delta.written.len()
            &&& next.index.last().first_ordinal == state.first_ordinal
        },
{
    if state.delta.block.len() > 0 {
        let next = state.flushed::<VW>();
        let content = VW::encoded(state.delta.values) + state.delta.block;
        let length = crate::fixed_int::le_bytes(content.len(), 4);
        let written = state.delta.written;
        crate::fixed_int::lemma_le_bytes_len(content.len(), 4);
        assert(next.delta.written =~= written + length + content);
        assert(next.delta.written.take(written.len() as int) =~= written);
        assert(next.delta.written.skip(written.len() as int) =~= length + content);
        assert(next.delta.written.skip(written.len() as int + 4) =~= content);
        assert(next.index.drop_last() =~= state.index);
        crate::format_laws::law_length_bytes(content.len(), content);
    }
}

/// A key without its value is the last key, and counts for nothing yet.
pub proof fn law_key_without_value<V>(state: TableState<V>, key: Seq<u8>)
    ensures
        ({
            let next = state.with_key(key);
            &&& next.last_key == key
            &&& next.num_terms == state.num_terms
            &&& next.first_ordinal == state.first_ordinal
            &&& next.delta.held == state.delta.held
            &&& next.delta.written == state.delta.written
            &&& next.delta.values == state.delta.values
            &&& next.delta.block.len() > state.delta.block.len()
            &&& state.delta.block == next.delta.block.take(state.delta.block.len() as int)
            &&& next.index.len() == state.index.len()
            &&& state.first_ordinal < state.num_terms ==> next.index == state.index
        }),
{
    let next = state.with_key(key);
    assert(state.delta.block =~= next.delta.block.take(state.delta.block.len() as int));
}

/// A value counts as one term. It closes its block where the keys of the block take more than 32000
/// bytes: the next block starts with the next term, and there is nothing left to close.
pub proof fn law_value_counts<VW: ValueWriter>(state: TableState<VW::Value>, value: VW::Value)
    ensures
        ({
            let next = state.with_value::<VW>(value);
            &&& next.num_terms == state.num_terms + 1
            &&& next.delta.held == state.delta.held
            &&& next.flushed_if_required::<VW>() == next
            &&& next.index.len() > state.index.len() <==> state.delta.block.len() > 32_000
            &&& if next.index.len() == state.index.len() {
                &&& next.index == state.index
                &&& next.first_ordinal == state.first_ordinal
                &&& next.last_key == state.last_key
                &&& next.delta.block == state.delta.block
                &&& next.delta.values == state.delta.values.push(value)
                &&& next.delta.written == state.delta.written
            } else {
                &&& next.index.len() == state.index.len() + 1
                &&& next.index.drop_last() == state.index
                &&& next.index.last().last_key_or_greater == state.last_key
                &&& next.index.last().first_ordinal == state.first_ordinal
                &&& next.index.last().start == state.delta.written.len()
                &&& next.index.last().end == next.delta.written.len()
                &&& next.first_ordinal == state.num_terms + 1
                &&& next.last_key.len() == 0
                &&& next.delta.block.len() == 0
                &&& next.delta.values.len() == 0
                &&& state.delta.written == next.delta.written.take(state.delta.written.len() as int)
            }
        }),
{
    let next = state.with_value::<VW>(value);
    if next.index.len() != state.index.len() {
        assert(next.index.drop_last() =~= state.index);
        assert(state.delta.written =~= next.delta.written.take(state.delta.written.len() as int));
    }
}

/// The entries that lie ahead come out call by call.
pub(crate) proof fn lemma_calls_give_entries<VR: ValueReader>(
    pos: TablePosition,
    entries: Seq<(Seq<u8>, VR::Value)>,
    calls: nat,
)
    requires
        pos.scan::<VR>() == (Scan { entries: crate::table::with_values(entries), complete: true }),
        calls <= entries.len(),
    ensures
        ({
            let now = pos.advanced::<VR>(calls);
            &&& calls > 0 ==> now.key == entries[calls - 1].0
            &&& calls > 0 ==> now.value::<VR>() == Some(entries[calls - 1].1)
            &&& calls < entries.len() ==> now.next::<VR>() is Entry
            &&& calls == entries.len() ==> now.next::<VR>() is End
        }),
{
    crate::laws::law_calls_give_scan::<VR>(pos, calls);
}

/// Reading a table gives its entries, call by call: after so many calls the reader has that entry,
/// and it comes to the end after the last one.
pub proof fn law_entries_read_back<T: SSTable>(entries: Seq<(Seq<u8>, T::Value)>, calls: nat)
    requires
        crate::table::accepted::<T::ValueWriter>(entries),
        crate::table::blocks_fit::<T::ValueWriter>(entries),
        calls <= entries.len(),
    ensures
        ({
            let now = TablePosition::before(crate::table::table_bytes::<T::ValueWriter>(entries)).advanced::<
                T::ValueReader,
            >(calls);
            &&& calls > 0 ==> now.key == entries[calls - 1].0
            &&& calls > 0 ==> now.value::<T::ValueReader>() == Some(entries[calls - 1].1)
            &&& calls < entries.len() ==> now.next::<T::ValueReader>() is Entry
            &&& calls == entries.len() ==> now.next::<T::ValueReader>() is End
        }),
{
    let pos = TablePosition::before(crate::table::table_bytes::<T::ValueWriter>(entries));
    crate::laws::law_read_back::<T>(entries);
    lemma_calls_give_entries::<T::ValueReader>(pos, entries, calls);
}

/// A table of increasing keys gives them back.
pub proof fn law_void_table_reads_back(entries: Seq<(Seq<u8>, ())>, calls: nat)
    requires
        entries.len() <= u64::MAX,
        calls <= entries.len(),
        forall|i: int| 0 <= i < entries.len() ==> (#[trigger] entries[i]).0.len() < 0x4000_0000,
        forall|i: int, j: int|
            0 <= i < j < entries.len() ==> crate::order::lex_lt((#[trigger] entries[i]).0, (#[trigger] entries[j]).0),
    ensures
        ({
            let now = TablePosition::before(crate::table::table_bytes::<VoidValueWriter>(entries)).advanced::<
                VoidValueReader,
            >(calls);
            &&& calls > 0 ==> now.key == entries[calls - 1].0
            &&& calls < entries.len() ==> now.next::<VoidValueReader>() is Entry
            &&& calls == entries.len() ==> now.next::<VoidValueReader>() is End
        }),
{
    law_void_entries_accepted(entries);
    crate::laws::law_values_are_compact();
    crate::laws::law_short_keys_fit::<VoidValueWriter>(entries);
    law_entries_read_back::<VoidSSTable>(entries, calls);
}

/// A table of increasing keys with numbers that never decrease gives them back.
pub proof fn law_u64_table_reads_back(entries: Seq<(Seq<u8>, u64)>, calls: nat)
    requires
        entries.len() <= u64::MAX,
        calls <= entries.len(),
        forall|i: int| 0 <= i < entries.len() ==> (#[trigger] entries[i]).0.len() < 0x4000_0000,
        forall|i: int, j: int|
            0 <= i < j < entries.len() ==> crate::order::lex_lt((#[trigger] entries[i]).0, (#[trigger] entries[j]).0),
        forall|i: int, j: int|
            0 <= i < j < entries.len() ==> (#[trigger] entries[i]).1 <= (#[trigger] entries[j]).1,
    ensures
        ({
            let now = TablePosition::before(crate::table::table_bytes::<U64MonotonicValueWriter>(entries)).advanced::<
                U64MonotonicValueReader,
            >(calls);
            &&& calls > 0 ==> now.key == entries[calls - 1].0
            &&& calls > 0 ==> now.value::<U64MonotonicValueReader>() == Some(entries[calls - 1].1)
            &&& calls < entries.len() ==> now.next::<U64MonotonicValueReader>() is Entry
            &&& calls == entries.len() ==> now.next::<U64MonotonicValueReader>() is End
        }),
{
    law_u64_entries_accepted(entries);
    crate::laws::law_values_are_compact();
    crate::laws::law_short_keys_fit::<U64MonotonicValueWriter>(entries);
    law_entries_read_back::<MonotonicU64SSTable>(entries, calls);
}

/// A table of increasing keys with ranges, each of which starts where the one before ends, gives
/// them back.
pub proof fn law_range_table_reads_back(entries: Seq<(Seq<u8>, Range<u64>)>, calls: nat)
    requires
        entries.len() <= u64::MAX,
        calls <= entries.len(),
        forall|i: int| 0 <= i < entries.len() ==> (#[trigger] entries[i]).0.len() < 0x4000_0000,
        forall|i: int, j: int|
            0 <= i < j < entries.len() ==> crate::order::lex_lt((#[trigger] entries[i]).0, (#[trigger] entries[j]).0),
        forall|i: int| 0 <= i < entries.len() ==> (#[trigger] entries[i]).1.start <= entries[i].1.end,
        forall|i: int, j: int|
            0 <= i && j == i + 1 && j < entries.len() ==> (#[trigger] entries[i]).1.end == (
            #[trigger] entries[j]).1.start,
    ensures
        ({
            let now = TablePosition::before(crate::table::table_bytes::<RangeValueWriter>(entries)).advanced::<
                RangeValueReader,
            >(calls);
            &&& calls > 0 ==> now.key == entries[calls - 1].0
            &&& calls > 0 ==> now.value::<RangeValueReader>() == Some(entries[calls - 1].1)
            &&& calls < entries.len() ==> now.next::<RangeValueReader>() is Entry
            &&& calls == entries.len() ==> now.next::<RangeValueReader>() is End
        }),
{
    law_range_entries_accepted(entries);
    crate::laws::law_values_are_compact();
    crate::laws::law_short_keys_fit::<RangeValueWriter>(entries);
    law_entries_read_back::<RangeSSTable>(entries, calls);
}

/// A key is rebuilt from the key before it: the kept bytes, padded with zeros where that key is too
/// short, then the added ones. There is a next key exactly when there is a next difference.
pub proof fn law_key_rebuilt<T: SSTable>(pos: TablePosition)
    ensures
        pos.next::<T::ValueReader>() matches TableStep::Entry(next) ==> {
            &&& next.key.len() == next.delta.keep + next.delta.suffix.len()
            &&& forall|i: int|
                0 <= i < next.key.len() ==> #[trigger] next.key[i] == if i >= next.delta.keep {
                    next.delta.suffix[i - next.delta.keep]
                } else if i < pos.key.len() {
                    pos.key[i]
                } else {
                    0u8
                }
            &&& pos.delta.next::<T::ValueReader>() == crate::delta::DeltaStep::Key(next.delta)
        },
        pos.next::<T::ValueReader>() is End <==> pos.delta.next::<T::ValueReader>() is End,
        pos.next::<T::ValueReader>() is Corrupted <==> pos.delta.next::<T::ValueReader>() is Corrupted,
{
}

} // verus!
