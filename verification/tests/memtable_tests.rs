//! The in-memory table over its write-ahead log.

use sstables::memtable::MemTable;
use sstables::record::Record;
use sstables::serialization::BinarySerializationEngine;

fn fresh_table() -> MemTable {
    MemTable::open_or_build(Vec::new(), BinarySerializationEngine).expect("open failed")
}

fn rec(key: &str, value: &str) -> Record {
    Record { key: key.as_bytes().to_vec(), value: value.as_bytes().to_vec() }
}

#[test]
fn no_repetitive_items() {
    let mut table = fresh_table();
    table.insert(rec("hello", "10"));
    table.insert(rec("hello", "20"));
    assert_eq!(table.len(), 1);
    assert_eq!(
        table.get(&b"hello".to_vec()).unwrap().as_ref().unwrap().value,
        b"20".to_vec()
    );
}

#[test]
fn roundtrip_get() {
    let mut table = fresh_table();
    table.insert(rec("hello", "10"));
    let value = table.get(&b"hello".to_vec());
    assert!(value.is_some());
    assert_eq!(value.unwrap().as_ref().unwrap().value, b"10".to_vec());
}

#[test]
fn deletion_marks_none() {
    let mut table = fresh_table();
    table.insert(rec("hello", "1"));
    assert_eq!(table.len(), 1);
    table.delete(b"hello".to_vec());
    // still present in the table, but as a tombstone
    assert_eq!(table.len(), 1);
    assert!(table.get(&b"hello".to_vec()).is_some());
    assert!(table.get(&b"hello".to_vec()).unwrap().is_none());
}

#[test]
fn iterates_in_order() {
    let mut table = fresh_table();
    table.insert(rec("b", "10"));
    table.insert(rec("a", "20"));
    table.insert(rec("c", "30"));
    let keys: Vec<Vec<u8>> = table.iter().into_iter().map(|(k, _)| k).collect();
    assert_eq!(keys, vec![b"a".to_vec(), b"b".to_vec(), b"c".to_vec()]);
}

#[test]
fn rebuild_from_log_preserves_state() {
    let image: Vec<u8>;
    {
        let mut table = fresh_table();
        table.insert(rec("k1", "1"));
        table.insert(rec("k2", "2"));
        table.delete(b"k1".to_vec());
        // expect a tombstone for k1
        assert_eq!(table.len(), 2);
        image = table.wal_image().clone();
    }
    let table = MemTable::open_or_build(image, BinarySerializationEngine).expect("replay failed");
    assert_eq!(table.len(), 2);
    assert!(table.get(&b"k2".to_vec()).unwrap().is_some());
    assert!(table.get(&b"k1".to_vec()).unwrap().is_none());
}

#[test]
fn replay_rejects_truncated_tail() {
    let mut table = fresh_table();
    table.insert(rec("hello", "world"));
    let mut image = table.wal_image().clone();
    // a mid-record tail is fatal, never a silent stop
    image.pop();
    assert!(MemTable::open_or_build(image, BinarySerializationEngine).is_err());
}
