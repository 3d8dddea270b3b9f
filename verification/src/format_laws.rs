//! How keys and blocks stand in bytes, said byte by byte.

use crate::block_reader::NextBlock;
use crate::value::{RangeValueWriter, U64MonotonicValueWriter, ValueWriter, VoidValueWriter};
use std::ops::Range;
use vstd::prelude::*;

verus! {

/// The number in the first four bytes, the least significant one first.
pub open spec fn length_number(bytes: Seq<u8>) -> nat {
    bytes[0] as nat + 0x100 * bytes[1] as nat + 0x1_0000 * bytes[2] as nat + 0x100_0000 * bytes[3] as nat
}

/// A length is read back from its four bytes, whatever follows them.
pub proof fn law_length_bytes(len: nat, rest: Seq<u8>)
    ensures
        crate::fixed_int::le_bytes(len, 4).len() == 4,
        len < 0x1_0000_0000 ==> length_number(crate::fixed_int::le_bytes(len, 4) + rest) == len,
{
    let length = crate::fixed_int::le_bytes(len, 4);
    let bytes = length + rest;
    crate::fixed_int::lemma_le_bytes_len(len, 4);
    reveal_with_fuel(crate::fixed_int::le_bytes, 5);
    assert(forall|k: int| 0 <= k < 4 ==> bytes[k] == #[trigger] length[k]);
    let d1 = len / 256;
    let d2 = d1 / 256;
    let d3 = d2 / 256;
    assert(length[0] == len % 256);
    assert(length[1] == d1 % 256);
    assert(length[2] == d2 % 256);
    assert(length[3] == d3 % 256);
}

/// A block starts with its length in four bytes. Then come the values and the keys.
pub proof fn law_block_bytes<VW: ValueWriter>(block: Seq<(Seq<u8>, VW::Value)>)
    ensures
        ({
            let bytes = crate::table::bytes_of_block::<VW>(block);
            let values = Seq::new(block.len(), |i: int| block[i].1);
            let content = VW::encoded(values) + crate::table::key_deltas(Seq::empty(), block);
            &&& bytes.len() == 4 + content.len()
            &&& bytes.skip(4) == content
            &&& content.len() < 0x1_0000_0000 ==> length_number(bytes) == content.len()
        }),
{
    let bytes = crate::table::bytes_of_block::<VW>(block);
    let values = Seq::new(block.len(), |i: int| block[i].1);
    let content = VW::encoded(values) + crate::table::key_deltas(Seq::empty(), block);
    assert(crate::table::values_of(block) =~= values);
    law_length_bytes(content.len(), content);
    assert(bytes.skip(4) =~= content);
}

/// The lengths of the blocks fit exactly when the bytes after each length can be counted in four
/// bytes.
pub proof fn law_blocks_fit<VW: ValueWriter>(entries: Seq<(Seq<u8>, VW::Value)>)
    ensures
        crate::table::blocks_fit::<VW>(entries) <==> forall|i: int|
            0 <= i < crate::table::all_blocks(entries).len() ==> crate::table::bytes_of_block::<VW>(
                #[trigger] crate::table::all_blocks(entries)[i],
            ).len() < 0x1_0000_0004,
{
    let all = crate::table::all_blocks(entries);
    assert forall|i: int| 0 <= i < all.len() implies crate::table::bytes_of_block::<VW>(#[trigger] all[i]).len()
        == crate::table::content_of::<VW>(all[i]).len() + 4 by {
        crate::fixed_int::lemma_le_bytes_len(crate::table::content_of::<VW>(all[i]).len(), 4);
    }
}

/// A difference whose lengths stand in one byte is read from its bytes; it is refused where they are
/// cut short.
pub proof fn law_short_delta_read(data: Seq<u8>)
    requires
        data.len() > 0,
        data[0] != 1,
    ensures
        match crate::delta::delta_at(data) {
            Some(delta) => {
                &&& 1 + data[0] / 16 <= data.len()
                &&& delta.keep == data[0] % 16
                &&& delta.suffix == data.subrange(1, 1 + data[0] / 16)
                &&& delta.len == 1 + data[0] / 16
            },
            None => data.len() < 1 + data[0] / 16,
        },
{
}

/// Where a length stands, it tells how many bytes of content follow. A length of zero, or the end of
/// the data, ends the blocks.
pub proof fn law_next_block(data: Seq<u8>)
    ensures
        match crate::block_reader::next_block(data) {
            NextBlock::Block { content, rest } => {
                &&& data.len() >= 4
                &&& content.len() == length_number(data) > 0
                &&& data == data.take(4) + content + rest
            },
            NextBlock::End => data.len() < 4 || length_number(data) == 0,
            NextBlock::Truncated => data.len() >= 4 && 0 < length_number(data) && data.len() < 4 + length_number(
                data,
            ),
        },
{
    if data.len() >= 4 {
        let s = data.take(4);
        reveal_with_fuel(crate::fixed_int::le_value, 5);
        assert(s.drop_first() =~= data.subrange(1, 4));
        assert(s.drop_first().drop_first() =~= data.subrange(2, 4));
        assert(s.drop_first().drop_first().drop_first() =~= data.subrange(3, 4));
        assert(s.drop_first().drop_first().drop_first().drop_first() =~= Seq::<u8>::empty());
        assert(crate::fixed_int::le_value(s) == length_number(data));
        if let NextBlock::Block { content, rest } = crate::block_reader::next_block(data) {
            assert(data =~= data.take(4) + content + rest);
        }
    }
}

/// A key after `prev` keeps what the two start with alike, and adds the rest.
pub proof fn law_key_bytes<V>(prev: Seq<u8>, entries: Seq<(Seq<u8>, V)>, keep: nat)
    requires
        entries.len() > 0,
        keep <= prev.len(),
        keep <= entries[0].0.len(),
        prev.take(keep as int) == entries[0].0.take(keep as int),
        keep == prev.len() || keep == entries[0].0.len() || prev[keep as int] != entries[0].0[keep as int],
    ensures
        ({
            let suffix = entries[0].0.skip(keep as int);
            crate::table::key_deltas(prev, entries) == crate::delta::delta_bytes(keep, suffix) + crate::table::key_deltas(
                entries[0].0,
                entries.drop_first(),
            )
        }),
{
    let key = entries[0].0;
    assert forall|i: int| 0 <= i < keep implies prev[i] == key[i] by {
        assert(prev.take(keep as int)[i] == key.take(keep as int)[i]);
    }
    crate::order::lemma_common_prefix_unique(prev, key, keep as int);
}

/// Lengths below sixteen stand in one byte: what is kept in its low half, what is added in its high
/// half. Other lengths are announced by a byte of one, and are variable-length integers.
pub proof fn law_delta_bytes(keep: nat, suffix: Seq<u8>)
    ensures
        keep < 16 && suffix.len() < 16 ==> {
            &&& crate::delta::delta_bytes(keep, suffix).len() == 1 + suffix.len()
            &&& crate::delta::delta_bytes(keep, suffix)[0] == keep + 16 * suffix.len()
            &&& crate::delta::delta_bytes(keep, suffix).skip(1) == suffix
        },
        keep >= 16 || suffix.len() >= 16 ==> crate::delta::delta_bytes(keep, suffix) == seq![1u8]
            + crate::vint::vint_bytes(keep) + crate::vint::vint_bytes(suffix.len()) + suffix,
{
    if keep < 16 && suffix.len() < 16 {
        assert(crate::delta::delta_bytes(keep, suffix).skip(1) =~= suffix);
    }
}

/// A variable-length integer has seven bits in each byte, the lowest ones first, and takes no more
/// bytes than it needs. The highest bit of a byte tells that another one follows.
pub proof fn law_vint_bytes(value: nat)
    ensures
        ({
            let bytes = crate::vint::vint_bytes(value);
            &&& bytes.len() > 0
            &&& bytes[0] % 128 == value % 128
            &&& bytes[0] >= 128 <==> value >= 128
            &&& value < 128 <==> bytes.len() == 1
            &&& value >= 128 ==> bytes.drop_first() == crate::vint::vint_bytes(value / 128)
        }),
{
    let bytes = crate::vint::vint_bytes(value);
    if value >= 128 {
        assert(bytes.drop_first() =~= crate::vint::vint_bytes(value / 128));
        crate::vint::lemma_vint_bytes_len(value / 128);
    }
}

/// Values that are nothing take no bytes.
pub proof fn law_void_bytes(values: Seq<()>)
    ensures
        VoidValueWriter::encoded(values).len() == 0,
{
}

/// Numbers stand as how many they are, then each as its distance from the one before, the first one
/// from zero.
pub proof fn law_u64_bytes(values: Seq<u64>, prev: u64)
    ensures
        U64MonotonicValueWriter::encoded(values) == crate::vint::vint_bytes(values.len())
            + crate::value::u64_monotonic::deltas_bytes(0, values),
        values.len() == 0 ==> crate::value::u64_monotonic::deltas_bytes(prev, values).len() == 0,
        values.len() > 0 && prev <= values[0] ==> crate::value::u64_monotonic::deltas_bytes(prev, values)
            == crate::vint::vint_bytes((values[0] - prev) as nat) + crate::value::u64_monotonic::deltas_bytes(
            values[0],
            values.drop_first(),
        ),
{
}

/// Ranges stand as the number where the first one starts and those where each of them ends.
pub proof fn law_range_bytes(ranges: Seq<Range<u64>>, offsets: Seq<u64>)
    requires
        ranges.len() == 0 ==> offsets.len() == 0,
        ranges.len() > 0 ==> offsets.len() == ranges.len() + 1 && offsets[0] == ranges[0].start,
        forall|i: int| 0 <= i < ranges.len() ==> offsets[i + 1] == (#[trigger] ranges[i]).end,
    ensures
        RangeValueWriter::encoded(ranges) == U64MonotonicValueWriter::encoded(offsets),
{
    let listed = crate::value::range::offsets_of(ranges);
    assert forall|i: int| 0 <= i < listed.len() implies listed[i] == offsets[i] by {
        if i > 0 {
            assert(offsets[i - 1 + 1] == ranges[i - 1].end);
        }
    }
    assert(listed =~= offsets);
}

} // verus!
