use sstable::merge::{KeepFirst, MergeError, SingleValueMerger, ValueMerger};
use sstable::value::{RangeValueReader, U64MonotonicValueReader, ValueReader, ValueWriter, VoidValueReader};
use sstable::{common_prefix_len, MonotonicU64SSTable, RangeSSTable, Reader, SSTable, VoidMerge, VoidSSTable};
use std::ops::Range;

fn aux_test_common_prefix_len(left: &str, right: &str, expect_len: usize) {
    assert_eq!(common_prefix_len(left.as_bytes(), right.as_bytes()), expect_len);
    assert_eq!(common_prefix_len(right.as_bytes(), left.as_bytes()), expect_len);
}

#[test]
fn test_common_prefix_len() {
    aux_test_common_prefix_len("a", "ab", 1);
    aux_test_common_prefix_len("", "ab", 0);
    aux_test_common_prefix_len("ab", "abc", 2);
    aux_test_common_prefix_len("abde", "abce", 2);
}

#[test]
fn test_long_key_diff() {
    let long_key = (0..1_024).map(|x| (x % 255) as u8).collect::<Vec<_>>();
    let long_key2 = (1..300).map(|x| (x % 255) as u8).collect::<Vec<_>>();
    let buffer = {
        let mut sstable_writer = VoidSSTable::writer(Vec::new());
        assert!(sstable_writer.insert(&long_key[..], &()).is_ok());
        assert!(sstable_writer.insert(&[0, 3, 4], &()).is_ok());
        assert!(sstable_writer.insert(&long_key2[..], &()).is_ok());
        let finished = sstable_writer.finish();
        assert!(finished.is_ok());
        finished.unwrap()
    };
    let mut sstable_reader = VoidSSTable::reader(&buffer[..]);
    assert!(sstable_reader.advance().unwrap());
    assert_eq!(sstable_reader.key(), &long_key[..]);
    assert!(sstable_reader.advance().unwrap());
    assert_eq!(sstable_reader.key(), &[0, 3, 4]);
    assert!(sstable_reader.advance().unwrap());
    assert_eq!(sstable_reader.key(), &long_key2[..]);
    assert!(!sstable_reader.advance().unwrap());
}

#[test]
fn test_simple_sstable() {
    let buffer = {
        let mut sstable_writer = VoidSSTable::writer(Vec::new());
        assert!(sstable_writer.insert(&[17u8], &()).is_ok());
        assert!(sstable_writer.insert(&[17u8, 18u8, 19u8], &()).is_ok());
        assert!(sstable_writer.insert(&[17u8, 20u8], &()).is_ok());
        let finished = sstable_writer.finish();
        assert!(finished.is_ok());
        finished.unwrap()
    };
    assert_eq!(
        &buffer,
        &[
            // block len
            7u8, 0u8, 0u8, 0u8, // keep 0 push 1 |  ""
            16u8, 17u8, // keep 1 push 2 | 18 19
            33u8, 18u8, 19u8, // keep 1 push 1 | 20
            17u8, 20u8, 0u8, 0u8, 0u8, 0u8, // no more blocks
            // index
            161, 102, 98, 108, 111, 99, 107, 115, 129, 162, 115, 108, 97, 115, 116, 95, 107, 101, 121, 95, 111, 114,
            95, 103, 114, 101, 97, 116, 101, 114, 130, 17, 20, 106, 98, 108, 111, 99, 107, 95, 97, 100, 100, 114, 162,
            106, 98, 121, 116, 101, 95, 114, 97, 110, 103, 101, 162, 101, 115, 116, 97, 114, 116, 0, 99, 101, 110, 100,
            11, 109, 102, 105, 114, 115, 116, 95, 111, 114, 100, 105, 110, 97, 108, 0, 15, 0, 0, 0, 0, 0, 0,
            0, // offset for the index
            3u8, 0u8, 0u8, 0u8, 0u8, 0u8, 0u8, 0u8 // num terms
        ]
    );
    let mut sstable_reader = VoidSSTable::reader(&buffer[..]);
    assert!(sstable_reader.advance().unwrap());
    assert_eq!(sstable_reader.key(), &[17u8]);
    assert!(sstable_reader.advance().unwrap());
    assert_eq!(sstable_reader.key(), &[17u8, 18u8, 19u8]);
    assert!(sstable_reader.advance().unwrap());
    assert_eq!(sstable_reader.key(), &[17u8, 20u8]);
    assert!(!sstable_reader.advance().unwrap());
}

#[test]
#[should_panic]
fn test_simple_sstable_non_increasing_key() {
    let mut sstable_writer = VoidSSTable::writer(Vec::new());
    assert!(sstable_writer.accepts_key(&[17u8]));
    assert!(sstable_writer.insert(&[17u8], &()).is_ok());
    assert!(sstable_writer.accepts_key(&[16u8]));
    assert!(sstable_writer.insert(&[16u8], &()).is_ok());
}

#[test]
fn test_merge_abcd_abe() {
    let buffer = {
        let mut writer = VoidSSTable::writer(Vec::new());
        writer.insert(b"abcd", &()).unwrap();
        writer.insert(b"abe", &()).unwrap();
        writer.finish().unwrap()
    };
    let merged = VoidSSTable::merge(vec![&buffer[..], &buffer[..]], Vec::new(), VoidMerge);
    assert!(merged.is_ok());
    let output = merged.unwrap();
    assert_eq!(&output[..], &buffer[..]);
}

#[test]
fn test_sstable() {
    let buffer = {
        let mut writer = VoidSSTable::writer(Vec::new());
        assert_eq!(writer.last_inserted_key(), b"");
        writer.insert(b"abcd", &()).unwrap();
        assert_eq!(writer.last_inserted_key(), b"abcd");
        writer.insert(b"abe", &()).unwrap();
        assert_eq!(writer.last_inserted_key(), b"abe");
        writer.finish().unwrap()
    };
    let merged = VoidSSTable::merge(vec![&buffer[..], &buffer[..]], Vec::new(), VoidMerge);
    assert!(merged.is_ok());
    let output = merged.unwrap();
    assert_eq!(&output[..], &buffer[..]);
}

#[test]
fn test_sstable_u64() {
    let mut writer = MonotonicU64SSTable::writer(Vec::new());
    writer.insert(b"abcd", &1u64).unwrap();
    writer.insert(b"abe", &4u64).unwrap();
    writer.insert(b"gogo", &4324234234234234u64).unwrap();
    let buffer = writer.finish().unwrap();
    let mut reader = MonotonicU64SSTable::reader(&buffer[..]);
    assert!(reader.advance().unwrap());
    assert_eq!(reader.key(), b"abcd");
    assert_eq!(reader.value(), &1u64);
    assert!(reader.advance().unwrap());
    assert_eq!(reader.key(), b"abe");
    assert_eq!(reader.value(), &4u64);
    assert!(reader.advance().unwrap());
    assert_eq!(reader.key(), b"gogo");
    assert_eq!(reader.value(), &4324234234234234u64);
    assert!(!reader.advance().unwrap());
}

#[test]
fn test_sstable_empty() {
    let mut sstable_range_empty = RangeSSTable::create_empty_reader();
    assert!(!sstable_range_empty.advance().unwrap());
    assert!(!sstable_range_empty.advance().unwrap());
    assert_eq!(sstable_range_empty.key(), b"");
    assert!(!sstable_range_empty.has_value());
}

/// Reads a whole table; panics where it is corrupted.
fn read_all<VR: ValueReader>(mut reader: Reader<VR>) -> Vec<(Vec<u8>, VR::Value)>
where
    VR::Value: Clone,
{
    let mut entries = Vec::new();
    while reader.advance().unwrap() {
        assert_eq!(reader.as_ref(), reader.key());
        entries.push((reader.key().to_vec(), reader.value().clone()));
    }
    assert!(!reader.advance().unwrap());
    entries
}

/// Keys that fill several blocks.
fn many_keys() -> Vec<Vec<u8>> {
    (0..6_000u32).map(|i| format!("key number {:06}, which has an odd tail {}", i, i % 7).into_bytes()).collect()
}

#[test]
fn void_table_over_several_blocks_reads_back() {
    let mut writer = VoidSSTable::writer(Vec::new());
    let mut flushes = 0;
    for key in many_keys() {
        assert!(writer.accepts_key(&key) && writer.accepts_value(&()));
        writer.insert(&key, &()).unwrap();
        if writer.last_inserted_key().is_empty() {
            flushes += 1;
        } else {
            assert_eq!(writer.last_inserted_key(), &key[..]);
        }
        assert!(!writer.accepts_key(&key));
    }
    assert!(flushes > 1);
    let buffer = writer.finish().unwrap();
    let keys: Vec<Vec<u8>> = read_all(VoidSSTable::reader(&buffer)).into_iter().map(|(key, ())| key).collect();
    assert_eq!(keys, many_keys());
}

#[test]
fn u64_table_over_several_blocks_reads_back() {
    let entries: Vec<(Vec<u8>, u64)> =
        many_keys().into_iter().enumerate().map(|(i, key)| (key, (i as u64 / 3) * 1_000_003)).collect();
    let mut writer = MonotonicU64SSTable::writer(Vec::new());
    for (key, value) in &entries {
        assert!(writer.accepts_key(key) && writer.accepts_value(value));
        writer.insert_cannot_fail(key, value);
    }
    let buffer = writer.finish().unwrap();
    assert_eq!(read_all(MonotonicU64SSTable::reader(&buffer)), entries);
}

#[test]
fn range_table_over_several_blocks_reads_back() {
    let mut start = 17u64;
    let mut entries: Vec<(Vec<u8>, Range<u64>)> = Vec::new();
    for (i, key) in many_keys().into_iter().enumerate() {
        let end = start + (i as u64 % 11) * 300;
        entries.push((key, start..end));
        start = end;
    }
    let mut writer = RangeSSTable::writer(Vec::new());
    for (key, value) in &entries {
        assert!(writer.accepts_key(key) && writer.accepts_value(value));
        writer.insert(key, value).unwrap();
    }
    let buffer = writer.finish().unwrap();
    assert_eq!(read_all(RangeSSTable::reader(&buffer)), entries);
}

#[test]
fn keys_larger_than_a_block_read_back() {
    let entries: Vec<(Vec<u8>, u64)> =
        vec![(vec![0u8; 100_000], 5), (vec![1u8; 70_000], 5), (vec![1u8; 70_001], u64::MAX)];
    let mut writer = MonotonicU64SSTable::writer(Vec::new());
    for (key, value) in &entries {
        assert!(writer.accepts_key(key) && writer.accepts_value(value));
        writer.insert(key, value).unwrap();
        assert_eq!(writer.last_inserted_key(), b"");
    }
    let buffer = writer.finish().unwrap();
    // Two bytes of values, then five of lengths before the first key.
    assert_eq!(buffer[..4], 100_007u32.to_le_bytes());
    assert_eq!(read_all(MonotonicU64SSTable::reader(&buffer)), entries);
}

#[test]
fn what_follows_the_empty_block_is_not_read() {
    let entries: Vec<(Vec<u8>, u64)> = vec![(vec![0u8; 40_000], 1), (b"\x01a".to_vec(), 2), (b"\x01b".to_vec(), 2)];
    let mut writer = MonotonicU64SSTable::writer(Vec::new());
    for (key, value) in &entries {
        writer.insert(key, value).unwrap();
    }
    let buffer = writer.finish().unwrap();
    let offset = u64::from_le_bytes(buffer[buffer.len() - 16..buffer.len() - 8].try_into().unwrap()) as usize;
    assert_eq!(buffer[offset - 4..offset], [0u8; 4]);
    let tails: Vec<Vec<u8>> = vec![vec![], vec![255; 3], vec![255; 100], vec![3, 0, 0, 0, 1, 9, 16], buffer.clone()];
    for tail in tails {
        let mut data = buffer[..offset].to_vec();
        data.extend_from_slice(&tail);
        assert_eq!(read_all(MonotonicU64SSTable::reader(&data)), entries);
    }
}

#[test]
fn a_block_can_be_read_without_those_before_it() {
    let entries: Vec<(Vec<u8>, u64)> = vec![
        (vec![1u8; 40_000], 1),
        (vec![1u8; 40_001], 2),
        (b"\x02".to_vec(), 3),
        (b"\x02b".to_vec(), 4),
    ];
    let mut writer = MonotonicU64SSTable::writer(Vec::new());
    for (key, value) in &entries {
        writer.insert(key, value).unwrap();
    }
    let buffer = writer.finish().unwrap();
    // the two long keys have a block each
    let mut starts = vec![0usize];
    for _ in 0..2 {
        let start = *starts.last().unwrap();
        let len = u32::from_le_bytes(buffer[start..start + 4].try_into().unwrap()) as usize;
        starts.push(start + 4 + len);
    }
    for (i, first_ordinal) in [0usize, 1, 2].into_iter().enumerate() {
        assert_eq!(read_all(MonotonicU64SSTable::reader(&buffer[starts[i]..])), entries[first_ordinal..]);
    }
    for i in 0..2 {
        assert_eq!(read_all(MonotonicU64SSTable::reader(&buffer[starts[i]..starts[i + 1]])), entries[i..i + 1]);
    }
}

#[test]
fn repeated_empty_key_is_refused_by_merge_and_after_a_full_block() {
    let mut writer = VoidSSTable::writer(Vec::new());
    writer.insert(b"", &()).unwrap();
    writer.insert(b"", &()).unwrap();
    let buffer = writer.finish().unwrap();
    assert!(matches!(
        VoidSSTable::merge(vec![&buffer[..]], Vec::new(), VoidMerge),
        Err(MergeError::Corrupted(_))
    ));
    let mut writer = VoidSSTable::writer(Vec::new());
    for _ in 0..32_001 {
        assert!(writer.accepts_key(b""));
        writer.insert(b"", &()).unwrap();
    }
    assert!(!writer.accepts_key(b"") && writer.accepts_key(b"a"));
}

/// The index entry of a block, in its written form.
fn block_meta(last_key: &[u8], start: &[u8], end: &[u8], first_ordinal: &[u8]) -> Vec<u8> {
    let mut bytes = vec![0xa2, 0x73];
    bytes.extend_from_slice(b"last_key_or_greater");
    bytes.push(0x80 + last_key.len() as u8);
    bytes.extend_from_slice(last_key);
    bytes.push(0x6a);
    bytes.extend_from_slice(b"block_addr");
    bytes.extend_from_slice(&[0xa2, 0x6a]);
    bytes.extend_from_slice(b"byte_range");
    bytes.extend_from_slice(&[0xa2, 0x65]);
    bytes.extend_from_slice(b"start");
    bytes.extend_from_slice(start);
    bytes.push(0x63);
    bytes.extend_from_slice(b"end");
    bytes.extend_from_slice(end);
    bytes.push(0x6d);
    bytes.extend_from_slice(b"first_ordinal");
    bytes.extend_from_slice(first_ordinal);
    bytes
}

#[test]
fn layout_of_two_blocks() {
    let long_key = vec![1u8; 32_001];
    let mut writer = VoidSSTable::writer(Vec::new());
    writer.insert(&long_key, &()).unwrap();
    assert_eq!(writer.last_inserted_key(), b"");
    assert!(!writer.accepts_key(&long_key));
    assert!(!writer.accepts_key(&[1, 1]));
    writer.insert(&[2, 9], &()).unwrap();
    writer.insert(&[2, 9, 9], &()).unwrap();
    let buffer = writer.finish().unwrap();

    let mut expected = vec![];
    // 32_006 bytes: five for the two lengths, 32_001 for the key
    expected.extend_from_slice(&[0x06, 0x7d, 0, 0]);
    expected.extend_from_slice(&[1, 0, 0x81, 0xfa, 0x01]);
    expected.extend_from_slice(&long_key);
    assert_eq!(expected.len(), 32_010);
    expected.extend_from_slice(&[5, 0, 0, 0, 0x20, 2, 9, 0x12, 9]);
    expected.extend_from_slice(&[0, 0, 0, 0]);
    let offset = expected.len() as u64;
    expected.extend_from_slice(&[0xa1, 0x66]);
    expected.extend_from_slice(b"blocks");
    expected.push(0x82);
    // the key of the first block is shortened to what still separates it from [2, 9]
    expected.extend_from_slice(&block_meta(&[1, 2], &[0], &[0x19, 0x7d, 0x0a], &[0]));
    expected.extend_from_slice(&block_meta(&[2, 9, 9], &[0x19, 0x7d, 0x0a], &[0x19, 0x7d, 0x13], &[1]));
    expected.extend_from_slice(&offset.to_le_bytes());
    expected.extend_from_slice(&3u64.to_le_bytes());
    assert_eq!(buffer, expected);
}

#[test]
fn separating_key_is_kept_where_it_cannot_be_shortened() {
    // every byte after the first difference is the greatest one
    let mut long_key = vec![255u8; 32_001];
    long_key[0] = 1;
    let mut writer = VoidSSTable::writer(Vec::new());
    writer.insert(&long_key, &()).unwrap();
    writer.insert(&[2], &()).unwrap();
    let kept = writer.finish().unwrap();
    // the index spells each of the 32_000 greatest bytes with two bytes
    assert!(kept.len() > 32_001 + 64_000);
    // the key is a prefix of the next one
    let zeros = vec![0u8; 32_001];
    let mut next = zeros.clone();
    next.push(0);
    let mut writer = VoidSSTable::writer(Vec::new());
    writer.insert(&zeros, &()).unwrap();
    assert!(writer.accepts_key(&next));
    writer.insert(&next, &()).unwrap();
    let buffer = writer.finish().unwrap();
    let keys: Vec<Vec<u8>> = read_all(VoidSSTable::reader(&buffer)).into_iter().map(|(key, ())| key).collect();
    assert_eq!(keys, vec![zeros, next]);
}

#[test]
fn table_is_appended_to_what_the_sink_held() {
    let plain = MonotonicU64SSTable::writer(Vec::new()).finish().unwrap();
    let appended = MonotonicU64SSTable::writer(vec![9, 8]).finish().unwrap();
    assert_eq!(&appended[..2], &[9, 8]);
    assert_eq!(&appended[2..], &plain[..]);
    // no block, an empty index, the index at offset 4, no term
    let mut expected = vec![0, 0, 0, 0, 0xa1, 0x66];
    expected.extend_from_slice(b"blocks");
    expected.push(0x80);
    expected.extend_from_slice(&4u64.to_le_bytes());
    expected.extend_from_slice(&0u64.to_le_bytes());
    assert_eq!(plain, expected);
}

#[test]
fn empty_key_can_stand_more_than_once() {
    let mut writer = VoidSSTable::writer(Vec::new());
    writer.insert(b"", &()).unwrap();
    assert!(writer.accepts_key(b""));
    writer.insert(b"", &()).unwrap();
    writer.insert(b"a", &()).unwrap();
    assert!(!writer.accepts_key(b""));
    let buffer = writer.finish().unwrap();
    assert_eq!(&buffer[..8], &[4, 0, 0, 0, 0, 0, 16, b'a']);
    let keys: Vec<Vec<u8>> = read_all(VoidSSTable::reader(&buffer)).into_iter().map(|(key, ())| key).collect();
    assert_eq!(keys, vec![b"".to_vec(), b"".to_vec(), b"a".to_vec()]);
    assert!(matches!(
        VoidSSTable::merge(vec![&buffer[..]], Vec::new(), VoidMerge),
        Err(MergeError::Corrupted(_))
    ));
}

#[test]
fn keys_and_values_inserted_apart() {
    let mut together = MonotonicU64SSTable::writer(Vec::new());
    together.insert(b"k1", &7).unwrap();
    together.insert(b"k2", &7).unwrap();
    let mut apart = sstable::Writer::<sstable::value::U64MonotonicValueWriter>::create(Vec::new()).unwrap();
    apart.insert_key(b"k1").unwrap();
    apart.insert_value(&7).unwrap();
    apart.flush_block_if_required().unwrap();
    apart.insert_key(b"k2").unwrap();
    assert!(!apart.accepts_value(&6));
    assert!(apart.accepts_value(&7));
    apart.insert_value(&7).unwrap();
    assert_eq!(apart.finish().unwrap(), together.finish().unwrap());
}

#[test]
fn u64_values_as_written() {
    let mut writer = MonotonicU64SSTable::writer(Vec::new());
    writer.insert(b"a", &1).unwrap();
    writer.insert(b"b", &300).unwrap();
    let buffer = writer.finish().unwrap();
    // two values: 1, then 299 more; keys "a" and "b"
    assert_eq!(&buffer[..12], &[8, 0, 0, 0, 2, 1, 0xab, 0x02, 16, b'a', 16, b'b']);
}

#[test]
fn range_values_as_written() {
    let mut writer = RangeSSTable::writer(Vec::new());
    assert!(!writer.accepts_value(&Range { start: 11, end: 10 }));
    writer.insert(b"a", &(10..20)).unwrap();
    assert!(!writer.accepts_value(&(21..22)));
    writer.insert(b"b", &(20..20)).unwrap();
    let buffer = writer.finish().unwrap();
    // three offsets: 10, 10 more, none more
    assert_eq!(&buffer[..12], &[8, 0, 0, 0, 3, 10, 10, 0, 16, b'a', 16, b'b']);
    assert_eq!(
        read_all(RangeSSTable::reader(&buffer)),
        vec![(b"a".to_vec(), 10..20), (b"b".to_vec(), 20..20)]
    );
}

#[test]
fn value_readers_and_writers_block_by_block() {
    let mut writer = <RangeSSTable as SSTable>::ValueWriter::empty();
    let mut output = vec![5u8];
    writer.serialize_block(&mut output);
    assert_eq!(output, vec![5, 0]);
    writer.write(&(3..4));
    writer.clear();
    assert!(writer.accepts(&(100..101)));
    writer.write(&(100..101));
    let mut output = Vec::new();
    writer.serialize_block(&mut output);
    assert_eq!(output, vec![2, 100, 1]);
    output.push(77);

    let mut reader = RangeValueReader::empty();
    assert!(!reader.has_value(0));
    assert_eq!(reader.load(&output).unwrap(), 3);
    assert_eq!(reader.value(0), &(100..101));
    assert!(!reader.has_value(1));
    // a failed load leaves the values as they were
    assert!(reader.load(&[2, 1]).is_err());
    assert!(reader.load(&[]).is_err());
    assert_eq!(reader.value(0), &(100..101));

    let mut reader = U64MonotonicValueReader::empty();
    assert_eq!(reader.load(&[3, 1, 0, 0x80, 0x01, 9]).unwrap(), 5);
    assert_eq!((*reader.value(0), *reader.value(1), *reader.value(2)), (1, 1, 129));
    assert!(!reader.has_value(3));
    // the sum of the distances does not fit
    assert!(reader.load(&[2, 1, 255, 255, 255, 255, 255, 255, 255, 255, 255, 1]).is_err());
    // the number does not fit
    assert!(reader.load(&[1, 255, 255, 255, 255, 255, 255, 255, 255, 255, 2]).is_err());
    assert_eq!(reader.load(&[1, 255, 255, 255, 255, 255, 255, 255, 255, 255, 1]).unwrap(), 11);
    assert_eq!(*reader.value(0), u64::MAX);

    let mut reader = VoidValueReader::empty();
    assert_eq!(reader.load(&[1, 2, 3]).unwrap(), 0);
    assert!(reader.has_value(1_000));
    assert_eq!(reader.value(1_000), &());
}

#[test]
fn kept_bytes_beyond_the_key_are_zeros() {
    // keep 2 push 1, then keep 1 push 1 in vint mode
    let table = [7u8, 0, 0, 0, 0x12, b'a', 1, 1, 1, b'b', 0x10, 0, 0, 0, 0];
    // the last key of the block lacks its suffix
    let mut reader = VoidSSTable::reader(&table);
    assert!(reader.advance().unwrap());
    assert_eq!(reader.key(), &[0, 0, b'a']);
    assert!(reader.advance().unwrap());
    assert_eq!(reader.key(), &[0, b'b']);
    assert!(reader.advance().is_err());
    // the reader stays where it was
    assert_eq!(reader.key(), &[0, b'b']);
    assert!(reader.advance().is_err());
}

#[test]
fn corrupted_tables_are_reported() {
    // a block that is cut short
    assert!(VoidSSTable::reader(&[5, 0, 0, 0, 16, 1]).advance().is_err());
    // a block without keys
    assert!(MonotonicU64SSTable::reader(&[1, 0, 0, 0, 0, 0, 0, 0, 0]).advance().is_err());
    // values that are cut short
    assert!(MonotonicU64SSTable::reader(&[2, 0, 0, 0, 2, 1, 0, 0, 0, 0]).advance().is_err());
    // lengths that are cut short
    assert!(VoidSSTable::reader(&[2, 0, 0, 0, 1, 0x80, 0, 0, 0, 0]).advance().is_err());
    assert!(VoidSSTable::reader(&[2, 0, 0, 0, 1, 0, 0, 0, 0, 0]).advance().is_err());
    // a key longer than memory
    let mut table = vec![13u8, 0, 0, 0, 1];
    table.extend_from_slice(&[255, 255, 255, 255, 255, 255, 255, 255, 255, 1, 1, 7]);
    table.extend_from_slice(&[0, 0, 0, 0]);
    assert!(VoidSSTable::reader(&table).advance().is_err());
    // too few bytes for another block end the table
    assert!(!VoidSSTable::reader(&[5, 0, 0]).advance().unwrap());
    // a key without a value
    let table = [5u8, 0, 0, 0, 1, 9, 16, b'a', 0x00, 0, 0, 0, 0];
    let mut reader = MonotonicU64SSTable::reader(&table);
    assert!(reader.advance().unwrap());
    assert_eq!(reader.value(), &9);
    assert!(reader.advance().unwrap());
    assert!(!reader.has_value());
}

#[test]
fn delta_readers_and_writers() {
    let mut writer = VoidSSTable::delta_writer(vec![3]);
    assert!(writer.flush_block().unwrap().is_none());
    assert!(writer.flush_block_if_required().unwrap().is_none());
    let write = writer.finish();
    assert_eq!(write.written_bytes(), 0);
    assert_eq!(write.finish(), vec![3]);

    let table = [7u8, 0, 0, 0, 16, 17, 33, 18, 19, 17, 20, 0, 0, 0, 0];
    let mut reader = VoidSSTable::delta_reader(&table);
    assert!(reader.advance().unwrap());
    assert_eq!((reader.common_prefix_len(), reader.suffix()), (0, &[17u8][..]));
    assert!(reader.advance().unwrap());
    assert_eq!((reader.common_prefix_len(), reader.suffix()), (1, &[18u8, 19][..]));
    assert!(reader.has_value());
    assert_eq!(reader.value(), &());
    assert!(reader.advance().unwrap());
    assert!(!reader.advance().unwrap());
    assert_eq!((reader.common_prefix_len(), reader.suffix()), (1, &[20u8][..]));
}

#[test]
fn block_reader_walks_over_blocks() {
    let data = [2u8, 0, 0, 0, 7, 8, 1, 0, 0, 0, 9, 0, 0, 0, 0, 55];
    let mut reader = sstable::BlockReader::new(&data);
    assert_eq!(reader.buffer(), b"");
    assert!(reader.read_block().unwrap());
    assert_eq!((reader.content_len(), reader.buffer()), (2, &[7u8, 8][..]));
    reader.advance(1);
    assert_eq!((reader.offset(), reader.buffer()), (1, &[8u8][..]));
    assert_eq!(reader.buffer_from_to(0, 1), &[7]);
    assert!(reader.read_block().unwrap());
    assert_eq!((reader.offset(), reader.buffer()), (0, &[9u8][..]));
    assert!(!reader.read_block().unwrap());
    assert_eq!(reader.buffer(), &[9]);
    assert!(sstable::BlockReader::new(&[4, 0, 0, 0, 1]).read_block().is_err());
}

#[test]
fn index_as_written() {
    let mut builder = sstable::SSTableIndexBuilder::default();
    builder.add_block(&[23, 24], 0..256, 0);
    builder.add_block(&[255], 256..65_536, 4_294_967_296);
    let mut output = vec![1u8];
    builder.serialize(&mut output);
    let mut expected = vec![1u8, 0xa1, 0x66];
    expected.extend_from_slice(b"blocks");
    expected.push(0x82);
    let mut first = block_meta(&[23, 24], &[0], &[0x19, 1, 0], &[0]);
    // numbers from 24 on take a byte more
    let at = first.windows(2).position(|pair| pair == [23, 24]).unwrap();
    first.insert(at + 1, 0x18);
    expected.extend_from_slice(&first);
    let mut second = block_meta(&[255], &[0x19, 1, 0], &[0x1a, 0, 1, 0, 0], &[0x1b, 0, 0, 0, 1, 0, 0, 0, 0]);
    let at = second.iter().position(|byte| *byte == 255).unwrap();
    second.insert(at, 0x18);
    expected.extend_from_slice(&second);
    assert_eq!(output, expected);
}

fn u64_table(entries: &[(&str, u64)]) -> Vec<u8> {
    let mut writer = MonotonicU64SSTable::writer(Vec::new());
    for (key, value) in entries {
        assert!(writer.accepts_key(key.as_bytes()) && writer.accepts_value(value));
        writer.insert(key.as_bytes(), value).unwrap();
    }
    writer.finish().unwrap()
}

#[test]
fn merge_takes_values_in_the_order_of_the_tables() {
    let first = u64_table(&[("a", 1), ("b", 2), ("d", 30)]);
    let second = u64_table(&[("b", 4), ("c", 20), ("d", 21), ("e", 31)]);
    let third = u64_table(&[("b", 1), ("c", 3)]);
    let none = u64_table(&[]);
    let merged =
        MonotonicU64SSTable::merge(vec![&first[..], &none[..], &second[..], &third[..]], vec![42], KeepFirst).unwrap();
    assert_eq!(merged[0], 42);
    assert_eq!(merged[1..].to_vec(), u64_table(&[("a", 1), ("b", 2), ("c", 20), ("d", 30), ("e", 31)]));
    let merged =
        MonotonicU64SSTable::merge(vec![&third[..], &second[..], &first[..]], Vec::new(), KeepFirst).unwrap();
    assert_eq!(merged, u64_table(&[("a", 1), ("b", 1), ("c", 3), ("d", 21), ("e", 31)]));
}

#[test]
fn value_mergers_keep_or_drop() {
    let mut single = KeepFirst.new_value(&7u64);
    single.add(&8);
    single.add(&9);
    assert_eq!(single.finish(), 7);
    let mut single = VoidMerge.new_value(&());
    single.add(&());
    assert_eq!(single.finish(), ());
}

#[test]
fn merge_of_no_tables_is_an_empty_table() {
    let empty = VoidSSTable::writer(Vec::new()).finish().unwrap();
    assert_eq!(VoidSSTable::merge(vec![], Vec::new(), VoidMerge).unwrap(), empty);
    assert_eq!(VoidSSTable::merge(vec![&empty[..], &b""[..]], Vec::new(), VoidMerge).unwrap(), empty);
}

#[test]
fn merge_reports_values_out_of_order() {
    let first = u64_table(&[("b", 6)]);
    let second = u64_table(&[("a", 7), ("b", 8)]);
    assert!(MonotonicU64SSTable::merge(vec![&second[..], &first[..]], Vec::new(), KeepFirst).is_ok());
    assert!(matches!(
        MonotonicU64SSTable::merge(vec![&first[..], &second[..]], Vec::new(), KeepFirst),
        Err(MergeError::ValuesOutOfOrder)
    ));
}

#[test]
fn merge_reports_corrupted_tables() {
    let table = u64_table(&[("a", 5), ("b", 6)]);
    assert!(matches!(
        MonotonicU64SSTable::merge(vec![&table[..], &table[..8]], Vec::new(), KeepFirst),
        Err(MergeError::Corrupted(_))
    ));
    // keys that go down, and a key without a value
    let down = [6u8, 0, 0, 0, 2, 1, 1, 16, b'b', 16, b'a', 0, 0, 0, 0];
    let mut down = down.to_vec();
    down[0] = 7;
    assert!(matches!(
        MonotonicU64SSTable::merge(vec![&down[..]], Vec::new(), KeepFirst),
        Err(MergeError::Corrupted(_))
    ));
    let lacking = [4u8, 0, 0, 0, 1, 9, 16, b'a', 0, 0, 0, 0];
    assert!(MonotonicU64SSTable::merge(vec![&lacking[..]], Vec::new(), KeepFirst).is_ok());
    let lacking = [3u8, 0, 0, 0, 0, 16, b'a', 0, 0, 0, 0];
    assert!(matches!(
        MonotonicU64SSTable::merge(vec![&lacking[..]], Vec::new(), KeepFirst),
        Err(MergeError::Corrupted(_))
    ));
}

#[test]
fn merge_of_copies_over_several_blocks_is_the_table() {
    let mut writer = VoidSSTable::writer(Vec::new());
    for key in many_keys() {
        writer.insert(&key, &()).unwrap();
    }
    let table = writer.finish().unwrap();
    let copies = vec![&table[..], &table[..], &table[..]];
    assert_eq!(VoidSSTable::merge(copies, Vec::new(), VoidMerge).unwrap(), table);
}

#[test]
fn merge_takes_smaller_values_in_a_new_block() {
    let entries: Vec<(Vec<u8>, u64)> = vec![(vec![0u8; 40_000], 9), (vec![1u8; 40_000], 5)];
    let mut writer = MonotonicU64SSTable::writer(Vec::new());
    for (key, value) in &entries {
        assert!(writer.accepts_key(key) && writer.accepts_value(value));
        writer.insert(key, value).unwrap();
    }
    let buffer = writer.finish().unwrap();
    let merged = MonotonicU64SSTable::merge(vec![&buffer[..], &buffer[..]], Vec::new(), KeepFirst).unwrap();
    assert_eq!(merged, buffer);
    assert_eq!(read_all(MonotonicU64SSTable::reader(&merged)), entries);
}

#[test]
fn order_of_byte_strings() {
    assert!(sstable::order::is_less(b"", b"a"));
    assert!(sstable::order::is_less(b"a", b"ab"));
    assert!(sstable::order::is_less(b"ab", b"b"));
    assert!(!sstable::order::is_less(b"ab", b"ab"));
    assert!(!sstable::order::is_less(b"b", b"ab"));
    assert!(sstable::order::is_same(b"ab", b"ab"));
    assert!(!sstable::order::is_same(b"ab", b"a"));
}
