//! The byte formats: record codec, numbers, index files, manifest, merge.

use sstables::compaction::{merge_entries, Entry};
use sstables::config::Config;
use sstables::keys::{bytes_eq, check_valid_key, key_compare, KeyOrder};
use sstables::manifest::{format_manifest, parse_manifest};
use sstables::memtable::log_reader::replay;
use sstables::memtable::{LogOperation, MemTableLog, MemTableLogReader};
use sstables::numbers::{parse_decimal, push_le64, read_le64, to_decimal};
use sstables::record::Record;
use sstables::serialization::{BinarySerializationEngine, SerializationEngine, SerializationError};
use sstables::sstable::table::read_entries;
use sstables::sstable::{SSTable, SSTableError, TableImage};

fn cfg() -> Config {
    Config {
        db_path: String::new(),
        index_key_string_size: 24,
        index_offset_size: 8,
        initial_index_file_threshold: 1024,
        compaction_threshold: 2,
        compaction_tier_size: 1024,
        compaction_size_multiplier: 4,
    }
}

fn rec(key: &str, value: &str) -> Record {
    Record { key: key.as_bytes().to_vec(), value: value.as_bytes().to_vec() }
}

#[test]
fn key_compare_orders_bytes() {
    assert!(matches!(key_compare(b"a", b"b"), KeyOrder::Less));
    assert!(matches!(key_compare(b"b", b"a"), KeyOrder::Greater));
    assert!(matches!(key_compare(b"ab", b"ab"), KeyOrder::Equal));
    // a proper prefix sorts first
    assert!(matches!(key_compare(b"ab", b"abc"), KeyOrder::Less));
    assert!(bytes_eq(b"xyz", b"xyz"));
    assert!(!bytes_eq(b"xyz", b"xy"));
}

#[test]
fn key_validity_rejects_separators() {
    assert!(check_valid_key(b"plain-key_1"));
    assert!(!check_valid_key(b""));
    assert!(!check_valid_key(b"with space"));
    assert!(!check_valid_key(b"line\nfeed"));
    assert!(!check_valid_key(b"nul\0byte"));
}

#[test]
fn decimal_round_trip() {
    for n in [0u64, 1, 9, 10, 1024, 18446744073709551615] {
        let s = to_decimal(n);
        assert_eq!(parse_decimal(s.as_slice()), Some(n));
    }
    assert_eq!(to_decimal(1024), b"1024".to_vec());
    assert_eq!(parse_decimal(b"007"), None);
    assert_eq!(parse_decimal(b""), None);
    assert_eq!(parse_decimal(b"12x"), None);
    // one past the largest 64-bit value
    assert_eq!(parse_decimal(b"18446744073709551616"), None);
}

#[test]
fn le64_round_trip() {
    let mut buf: Vec<u8> = Vec::new();
    push_le64(&mut buf, 0x0102030405060708);
    assert_eq!(buf, vec![8, 7, 6, 5, 4, 3, 2, 1]);
    assert_eq!(read_le64(buf.as_slice(), 0), 0x0102030405060708);
}

#[test]
fn operation_codec_round_trip() {
    let ser = BinarySerializationEngine;
    let op = LogOperation::Insert { record: rec("alpha", "beta") };
    let bytes = ser.serialize_op(&op);
    let (back, n) = ser.deserialize_op(bytes.as_slice(), 0).expect("decode failed");
    assert_eq!(n, bytes.len());
    match back {
        LogOperation::Insert { record } => {
            assert_eq!(record.key, b"alpha".to_vec());
            assert_eq!(record.value, b"beta".to_vec());
        },
        _ => panic!("wrong operation"),
    }
}

#[test]
fn operation_codec_consumes_exactly_one_value() {
    // two encodings concatenated decode back one at a time
    let ser = BinarySerializationEngine;
    let first = ser.serialize_op(&LogOperation::Insert { record: rec("k1", "v1") });
    let second = ser.serialize_op(&LogOperation::Delete { key: b"k2".to_vec() });
    let mut stream = first.clone();
    stream.extend_from_slice(second.as_slice());
    let (a, n1) = ser.deserialize_op(stream.as_slice(), 0).expect("first decode");
    assert_eq!(n1, first.len());
    assert!(matches!(a, LogOperation::Insert { .. }));
    let (b, n2) = ser.deserialize_op(stream.as_slice(), n1).expect("second decode");
    assert_eq!(n1 + n2, stream.len());
    match b {
        LogOperation::Delete { key } => assert_eq!(key, b"k2".to_vec()),
        _ => panic!("wrong operation"),
    }
}

#[test]
fn value_codec_tombstone_and_eof() {
    let ser = BinarySerializationEngine;
    let live = ser.serialize_val(&Some(rec("k", "v")));
    let tomb = ser.serialize_val(&None);
    let (v1, _) = ser.deserialize_val(live.as_slice(), 0).expect("live decode");
    assert!(v1.is_some());
    let (v2, _) = ser.deserialize_val(tomb.as_slice(), 0).expect("tombstone decode");
    assert!(v2.is_none());
    // a clean end of stream is told apart from a malformed value
    assert!(matches!(
        ser.deserialize_val(b"", 0),
        Err(SerializationError::UnexpectedEOF)
    ));
    let mut cut = live.clone();
    cut.pop();
    assert!(matches!(
        ser.deserialize_val(cut.as_slice(), 0),
        Err(SerializationError::Corrupt)
    ));
}

#[test]
fn log_append_and_replay() {
    let ser = BinarySerializationEngine;
    let mut log = MemTableLog::new();
    log.append(&LogOperation::Insert { record: rec("a", "1") }, &ser);
    log.append(&LogOperation::Delete { key: b"b".to_vec() }, &ser);
    let ops = replay(log.image_bytes(), &ser).expect("replay failed");
    assert_eq!(ops.len(), 2);
    assert!(matches!(ops[0], LogOperation::Insert { .. }));
    assert!(matches!(ops[1], LogOperation::Delete { .. }));
    let mut reader = MemTableLogReader::open(log.image_bytes().clone());
    assert!(reader.next_op(&ser).unwrap().is_some());
    assert!(reader.next_op(&ser).unwrap().is_some());
    assert!(reader.next_op(&ser).unwrap().is_none());
}

#[test]
fn sstable_build_and_point_get() {
    let ser = BinarySerializationEngine;
    let entries: Vec<(Vec<u8>, Option<Record>)> = vec![
        (b"apple".to_vec(), Some(rec("apple", "1"))),
        (b"mango".to_vec(), None),
        (b"peach".to_vec(), Some(rec("peach", "3"))),
    ];
    let (desc, files) =
        SSTable::create(b"s".to_vec(), b"i".to_vec(), &entries, &ser, &cfg()).expect("build");
    assert_eq!(desc.count, 3);
    assert_eq!(desc.min, b"apple".to_vec());
    assert_eq!(desc.max, b"peach".to_vec());
    // the index stride invariant
    assert_eq!(files.index.len(), desc.count * (24 + 8));
    assert_eq!(files.storage.len(), desc.size);
    let live = desc.get(&files, &b"apple".to_vec(), &cfg(), &ser).unwrap();
    assert_eq!(live.unwrap().unwrap().value, b"1".to_vec());
    // a tombstone answers, and stops an older walk
    let tomb = desc.get(&files, &b"mango".to_vec(), &cfg(), &ser).unwrap();
    assert!(tomb.unwrap().is_none());
    // absent keys inside and outside the range
    assert!(desc.get(&files, &b"banana".to_vec(), &cfg(), &ser).unwrap().is_none());
    assert!(desc.get(&files, &b"aaa".to_vec(), &cfg(), &ser).unwrap().is_none());
    assert!(desc.get(&files, &b"zzz".to_vec(), &cfg(), &ser).unwrap().is_none());
    // the image reads back entirely
    let back = read_entries(&desc, &files, &cfg(), &ser).expect("read back");
    assert_eq!(back.len(), 3);
    assert_eq!(back[0].0, b"apple".to_vec());
    assert_eq!(back[2].0, b"peach".to_vec());
}

#[test]
fn sstable_build_rejects_bad_snapshots() {
    let ser = BinarySerializationEngine;
    let empty: Vec<(Vec<u8>, Option<Record>)> = Vec::new();
    assert!(matches!(
        SSTable::create(b"s".to_vec(), b"i".to_vec(), &empty, &ser, &cfg()),
        Err(SSTableError::EmptyMemtableError)
    ));
    // keys longer than a slot that collide once truncated
    let p = "q".repeat(24);
    let colliding: Vec<(Vec<u8>, Option<Record>)> = vec![
        (format!("{}A", p).into_bytes(), None),
        (format!("{}B", p).into_bytes(), None),
    ];
    assert!(matches!(
        SSTable::create(b"s".to_vec(), b"i".to_vec(), &colliding, &ser, &cfg()),
        Err(SSTableError::EncodingError)
    ));
}

#[test]
fn sstable_read_rejects_damaged_image() {
    let ser = BinarySerializationEngine;
    let entries: Vec<(Vec<u8>, Option<Record>)> = vec![(b"k".to_vec(), Some(rec("k", "v")))];
    let (desc, mut files) =
        SSTable::create(b"s".to_vec(), b"i".to_vec(), &entries, &ser, &cfg()).expect("build");
    files.storage.pop();
    assert!(matches!(
        read_entries(&desc, &files, &cfg(), &ser),
        Err(SSTableError::DBFileCorrupted { .. })
    ));
}

#[test]
fn sstable_long_key_keeps_raw_extremes() {
    let ser = BinarySerializationEngine;
    let long = "k".repeat(25);
    let entries: Vec<(Vec<u8>, Option<Record>)> =
        vec![(long.clone().into_bytes(), Some(rec(&long, "v")))];
    let (desc, files) =
        SSTable::create(b"s".to_vec(), b"i".to_vec(), &entries, &ser, &cfg()).expect("build");
    // the descriptor carries the raw 25-byte extremes, not the 24-byte slot
    assert_eq!(desc.min, long.clone().into_bytes());
    assert_eq!(desc.max, long.clone().into_bytes());
    // the image still reads back and checks out against the descriptor
    let back = read_entries(&desc, &files, &cfg(), &ser).expect("read back");
    assert_eq!(back.len(), 1);
    assert_eq!(back[0].0, long.as_bytes()[..24].to_vec());
    // the index resolves keys only to the slot width: neither the raw key
    // nor its slot-width prefix finds the record
    assert!(desc.get(&files, &long.clone().into_bytes(), &cfg(), &ser).unwrap().is_none());
    assert!(desc.get(&files, &long.as_bytes()[..24].to_vec(), &cfg(), &ser).unwrap().is_none());
}

#[test]
fn checked_lookup_reports_bad_stride() {
    let ser = BinarySerializationEngine;
    let entries: Vec<(Vec<u8>, Option<Record>)> = vec![
        (b"alpha".to_vec(), Some(rec("alpha", "1"))),
        (b"beta".to_vec(), None),
    ];
    let (desc, mut files) =
        SSTable::create(b"s".to_vec(), b"i".to_vec(), &entries, &ser, &cfg()).expect("build");
    // on an intact image the checked lookup answers as the plain one
    let v = desc.get_checked(&files, &b"alpha".to_vec(), &cfg(), &ser).unwrap();
    assert_eq!(v.unwrap().unwrap().value, b"1".to_vec());
    // an index no longer a whole number of strides is reported as a
    // corrupted file at the lookup itself
    files.index.pop();
    match desc.get_checked(&files, &b"alpha".to_vec(), &cfg(), &ser) {
        Err(SSTableError::DBFileCorrupted { file }) => assert_eq!(file, b"i".to_vec()),
        _ => panic!("corruption not reported"),
    }
}

#[test]
fn sstable_read_rejects_misfiled_record() {
    // a hand-written image whose slot says "c" but whose stored record
    // carries the key "b": reading back must refuse it
    let ser = BinarySerializationEngine;
    let mut index: Vec<u8> = Vec::new();
    index.extend_from_slice(b"c");
    index.resize(24, 0);
    push_le64(&mut index, 0);
    let bad_storage = ser.serialize_val(&Some(rec("b", "v")));
    let bad = TableImage { storage: bad_storage, index: index.clone() };
    let desc = SSTable {
        storage_path: b"s".to_vec(),
        index_path: b"i".to_vec(),
        min: b"c".to_vec(),
        max: b"c".to_vec(),
        count: 1,
        size: bad.storage.len(),
    };
    assert!(matches!(
        read_entries(&desc, &bad, &cfg(), &ser),
        Err(SSTableError::DBFileCorrupted { .. })
    ));
    // the same image with the record filed under its own key reads back
    let good_storage = ser.serialize_val(&Some(rec("c", "v")));
    let good = TableImage { storage: good_storage, index };
    let desc2 = SSTable {
        storage_path: b"s".to_vec(),
        index_path: b"i".to_vec(),
        min: b"c".to_vec(),
        max: b"c".to_vec(),
        count: 1,
        size: good.storage.len(),
    };
    let back = read_entries(&desc2, &good, &cfg(), &ser).expect("read back");
    assert_eq!(back.len(), 1);
    // a descriptor whose extremes do not resolve to the slots is refused
    let desc3 = SSTable {
        storage_path: b"s".to_vec(),
        index_path: b"i".to_vec(),
        min: b"d".to_vec(),
        max: b"d".to_vec(),
        count: 1,
        size: good.storage.len(),
    };
    assert!(matches!(
        read_entries(&desc3, &good, &cfg(), &ser),
        Err(SSTableError::DBFileCorrupted { .. })
    ));
}

#[test]
fn manifest_round_trip() {
    let descs = vec![
        SSTable {
            storage_path: b"storage/Photo-0.log".to_vec(),
            index_path: b"indices/Photo-0.log".to_vec(),
            min: b"a".to_vec(),
            max: b"m".to_vec(),
            count: 7,
            size: 321,
        },
        SSTable {
            storage_path: b"storage/Photo-1.log".to_vec(),
            index_path: b"indices/Photo-1.log".to_vec(),
            min: b"b".to_vec(),
            max: b"z".to_vec(),
            count: 11,
            size: 1024,
        },
    ];
    let text = format_manifest(&descs);
    let line = "storage/Photo-0.log indices/Photo-0.log a m 7 321\n";
    assert!(text.starts_with(line.as_bytes()));
    let back = parse_manifest(&text).expect("parse failed");
    assert_eq!(back.len(), 2);
    assert_eq!(back[0].storage_path, b"storage/Photo-0.log".to_vec());
    assert_eq!(back[1].count, 11);
    assert_eq!(back[1].size, 1024);
    assert_eq!(parse_manifest(&Vec::new()).expect("empty").len(), 0);
    // wrong field count and unparseable numbers are rejected
    assert!(parse_manifest(&b"a b c\n".to_vec()).is_none());
    assert!(parse_manifest(&b"a b c d seven 321\n".to_vec()).is_none());
    assert!(parse_manifest(&b"a b c d 7 321".to_vec()).is_none());
}

#[test]
fn merge_newest_wins_and_tombstone_rule() {
    // oldest first: the middle input deletes k2, the newest rewrites k1
    let inputs: Vec<Vec<(Vec<u8>, Option<Record>)>> = vec![
        vec![
            (b"k1".to_vec(), Some(rec("k1", "old"))),
            (b"k2".to_vec(), Some(rec("k2", "two"))),
        ],
        vec![(b"k2".to_vec(), None)],
        vec![(b"k1".to_vec(), Some(rec("k1", "new")))],
    ];
    // without the oldest table of the store, the tombstone must survive
    let kept = merge_entries(&inputs, false);
    assert_eq!(kept.len(), 2);
    assert_eq!(kept[0].0, b"k1".to_vec());
    assert_eq!(kept[0].1.as_ref().unwrap().value, b"new".to_vec());
    assert_eq!(kept[1].0, b"k2".to_vec());
    assert!(kept[1].1.is_none());
    // with it, the tombstone is dropped
    let dropped = merge_entries(&inputs, true);
    assert_eq!(dropped.len(), 1);
    assert_eq!(dropped[0].0, b"k1".to_vec());
    assert_eq!(dropped[0].1.as_ref().unwrap().value, b"new".to_vec());
}

#[test]
fn merge_entry_holds_its_fields() {
    let e = Entry::new(b"k".to_vec(), 3, Some(rec("k", "v")));
    assert_eq!(e.key, b"k".to_vec());
    assert_eq!(e.reader, 3);
    assert!(e.value.is_some());
}
