//! The engine end to end, on in-memory file images.

use sstables::config::Config;
use sstables::engine::{Engine, EngineError};
use sstables::record::Record;
use sstables::sstable::TableImage;

fn config(threshold: usize) -> Config {
    Config {
        db_path: String::new(),
        index_key_string_size: 24,
        index_offset_size: 8,
        initial_index_file_threshold: threshold,
        compaction_threshold: 2,
        compaction_tier_size: 1024,
        compaction_size_multiplier: 4,
    }
}

fn open_empty(threshold: usize) -> Engine {
    Engine::new(
        config(threshold),
        b"Photo".to_vec(),
        Vec::new(),
        Vec::new(),
        Vec::new(),
    )
    .expect("Engine creation failed")
}

fn rec(key: String, value: String) -> Record {
    Record { key: key.into_bytes(), value: value.into_bytes() }
}

#[test]
fn test_engine_compaction_with_tempdir() {
    let mut engine = open_empty(1024);
    let all_range: Vec<i32> = (1..1000).collect();
    for i in all_range.iter() {
        engine
            .insert(rec(format!("id_{}", i), format!("url_{} thumb_{}", i, i)))
            .expect("Insert failed");
    }
    let mapper = |i: &i32| format!("id_{}", i);
    let deleted: Vec<String> = [1, 2, 3, 4].iter().map(mapper).collect();
    let present: Vec<String> = all_range
        .iter()
        .map(mapper)
        .filter(|key| !deleted.contains(key))
        .collect();
    for key in deleted.iter() {
        engine.delete(key.clone().into_bytes()).expect("Deletion failed");
    }
    for _ in 0..10 {
        engine.compact().expect("Compact failed");
    }
    for key in present {
        let photo = engine.get(&key.clone().into_bytes()).expect("Get failed");
        assert!(photo.is_some(), "Expected key {} to exist", key);
    }
    for key in deleted {
        let photo = engine.get(&key.clone().into_bytes()).expect("Get failed");
        assert!(photo.is_none(), "Expected key {} to be deleted", key);
    }
}

#[test]
fn empty_open_get_absent() {
    let engine = open_empty(1024);
    assert!(engine.get(&b"x".to_vec()).unwrap().is_none());
}

#[test]
fn overwrite_keeps_newest() {
    let mut engine = open_empty(1024);
    engine.insert(rec("a".to_string(), "A1".to_string())).unwrap();
    engine.insert(rec("a".to_string(), "A2".to_string())).unwrap();
    let got = engine.get(&b"a".to_vec()).unwrap().unwrap();
    assert_eq!(got.value, b"A2".to_vec());
}

#[test]
fn compact_to_one_table_keeps_everything() {
    // flush every 100 records; 50 tables of the same tier merge at once
    let mut engine = open_empty(3200);
    for i in 1..=5000u32 {
        engine
            .insert(rec(format!("id_{:04}", i), format!("v_{}", i)))
            .expect("Insert failed");
    }
    for key in ["id_0050", "id_1000", "id_5000"] {
        engine.delete(key.as_bytes().to_vec()).expect("Deletion failed");
    }
    let mut rounds = 0;
    while engine.descriptors().len() > 1 && rounds < 100 {
        engine.compact().expect("Compact failed");
        rounds += 1;
    }
    assert_eq!(engine.descriptors().len(), 1);
    for i in 1..=5000u32 {
        let key = format!("id_{:04}", i);
        let got = engine.get(&key.clone().into_bytes()).expect("Get failed");
        if i == 50 || i == 1000 || i == 5000 {
            assert!(got.is_none(), "Expected {} to be deleted", key);
        } else {
            let r = got.expect("missing record");
            assert_eq!(r.value, format!("v_{}", i).into_bytes());
        }
    }
}

#[test]
fn crash_and_reopen_recovers_everything() {
    // flush every 10 records; the last 5 stay only on the log
    let cfg = config((24 + 8) * 10);
    let mut engine = Engine::new(
        cfg,
        b"Photo".to_vec(),
        Vec::new(),
        Vec::new(),
        Vec::new(),
    )
    .expect("Engine creation failed");
    for i in 1..=25u32 {
        engine
            .insert(rec(format!("r{:02}", i), format!("v_{}", i)))
            .expect("Insert failed");
    }
    // drop the engine without any orderly close; the images survive
    let wal = engine.wal_image().clone();
    let manifest = engine.metadata();
    let images: Vec<TableImage> = engine
        .table_images()
        .iter()
        .map(|im| TableImage { index: im.index.clone(), storage: im.storage.clone() })
        .collect();
    drop(engine);
    let reopened = Engine::new(
        config((24 + 8) * 10),
        b"Photo".to_vec(),
        wal,
        manifest,
        images,
    )
    .expect("Reopen failed");
    for i in 1..=25u32 {
        let key = format!("r{:02}", i);
        let got = reopened.get(&key.clone().into_bytes()).expect("Get failed");
        let r = got.expect("missing record after reopen");
        assert_eq!(r.value, format!("v_{}", i).into_bytes());
    }
}

#[test]
fn three_tables_in_one_tier_merge_to_one() {
    // flush every 32 records: three similar tables land in the same tier
    let mut engine = open_empty(1024);
    for i in 1..=96u32 {
        engine
            .insert(rec(format!("k{:03}", i), format!("v_{}", i)))
            .expect("Insert failed");
    }
    assert_eq!(engine.descriptors().len(), 3);
    engine.compact().expect("Compact failed");
    assert_eq!(engine.descriptors().len(), 1);
    for i in 1..=96u32 {
        let key = format!("k{:03}", i);
        let got = engine.get(&key.clone().into_bytes()).expect("Get failed");
        assert!(got.is_some(), "Expected {} after compaction", key);
    }
}

#[test]
fn delete_of_absent_key_writes_tombstone() {
    let mut engine = open_empty(1024);
    engine.delete(b"ghost".to_vec()).expect("Deletion failed");
    assert!(engine.get(&b"ghost".to_vec()).unwrap().is_none());
    assert_eq!(engine.buffered(), 1);
}

#[test]
fn flush_exactly_at_threshold() {
    // (K + O) * 10 = threshold: the tenth insert crosses it exactly
    let mut engine = open_empty((24 + 8) * 10);
    for i in 1..=9u32 {
        engine.insert(rec(format!("t{:02}", i), "v".to_string())).unwrap();
    }
    assert_eq!(engine.descriptors().len(), 0);
    assert_eq!(engine.buffered(), 9);
    engine.insert(rec("t10".to_string(), "v".to_string())).unwrap();
    assert_eq!(engine.descriptors().len(), 1);
    assert_eq!(engine.buffered(), 0);
    for i in 1..=10u32 {
        assert!(engine.get(&format!("t{:02}", i).into_bytes()).unwrap().is_some());
    }
}

#[test]
fn long_keys_buffer_and_read_back() {
    // a key longer than the slot width is served from the buffer
    let mut engine = open_empty(1024);
    let long = "k".repeat(30);
    engine.insert(rec(long.clone(), "v".to_string())).unwrap();
    assert!(engine.get(&long.clone().into_bytes()).unwrap().is_some());
}

#[test]
fn flushed_long_key_keeps_raw_extremes_across_reopen() {
    // a 30-byte key flushes into a table whose descriptor and manifest
    // carry the raw key, and the store reopens over those images
    let mut engine = open_empty((24 + 8) * 1);
    let long = "q".repeat(30);
    engine.insert(rec(long.clone(), "v".to_string())).unwrap();
    assert_eq!(engine.descriptors().len(), 1);
    assert_eq!(engine.descriptors()[0].min, long.clone().into_bytes());
    assert_eq!(engine.descriptors()[0].max, long.clone().into_bytes());
    let manifest = engine.metadata();
    let text = String::from_utf8(manifest.clone()).unwrap();
    assert!(text.contains(&long), "manifest must carry the raw key");
    let images: Vec<TableImage> = engine
        .table_images()
        .iter()
        .map(|im| TableImage { index: im.index.clone(), storage: im.storage.clone() })
        .collect();
    drop(engine);
    let reopened = Engine::new(
        config((24 + 8) * 1),
        b"Photo".to_vec(),
        Vec::new(),
        manifest,
        images,
    )
    .expect("Reopen failed");
    assert_eq!(reopened.descriptors()[0].min, long.into_bytes());
}

#[test]
fn colliding_long_keys_are_rejected() {
    // two distinct keys sharing their first 24 bytes cannot be told
    // apart by the index file
    let mut engine = open_empty(1024);
    let a = format!("{}A", "p".repeat(24));
    let b = format!("{}B", "p".repeat(24));
    engine.insert(rec(a, "1".to_string())).unwrap();
    let r = engine.insert(rec(b, "2".to_string()));
    assert!(matches!(r, Err(EngineError::KeyCollision)));
}

#[test]
fn reopen_rejects_corrupt_manifest() {
    let engine = open_empty(1024);
    drop(engine);
    let r = Engine::new(
        config(1024),
        b"Photo".to_vec(),
        Vec::new(),
        b"only three fields\n".to_vec(),
        Vec::new(),
    );
    assert!(matches!(r, Err(EngineError::ManifestCorrupt { .. })));
}

#[test]
fn reopen_rejects_corrupt_wal() {
    let r = Engine::new(
        config(1024),
        b"Photo".to_vec(),
        vec![0xff, 0xff, 0xff],
        Vec::new(),
        Vec::new(),
    );
    assert!(matches!(r, Err(EngineError::WalReplayCorrupt { .. })));
}

#[test]
fn reopen_rejects_corrupt_table() {
    let mut engine = open_empty((24 + 8) * 2);
    engine.insert(rec("a1".to_string(), "v".to_string())).unwrap();
    engine.insert(rec("a2".to_string(), "v".to_string())).unwrap();
    assert_eq!(engine.descriptors().len(), 1);
    let manifest = engine.metadata();
    let mut images: Vec<TableImage> = engine
        .table_images()
        .iter()
        .map(|im| TableImage { index: im.index.clone(), storage: im.storage.clone() })
        .collect();
    // damage the index file
    images[0].index.pop();
    let r = Engine::new(
        config((24 + 8) * 2),
        b"Photo".to_vec(),
        Vec::new(),
        manifest,
        images,
    );
    assert!(matches!(r, Err(EngineError::SSTableCorrupt { .. })));
}

#[test]
fn compact_with_zero_or_one_table_changes_nothing() {
    let mut engine = open_empty(1024);
    engine.compact().expect("Compact failed");
    assert_eq!(engine.descriptors().len(), 0);
    for i in 1..=32u32 {
        engine.insert(rec(format!("z{:03}", i), "v".to_string())).unwrap();
    }
    assert_eq!(engine.descriptors().len(), 1);
    engine.compact().expect("Compact failed");
    assert_eq!(engine.descriptors().len(), 1);
    assert!(engine.get(&b"z001".to_vec()).unwrap().is_some());
}

#[test]
fn crash_between_manifest_append_and_wal_clear() {
    // the fault window: the new table is durable, the log not yet
    // truncated, so reopening replays entries the table already holds
    let mut unflushed = open_empty((24 + 8) * 100);
    let mut flushed = open_empty((24 + 8) * 10);
    for i in 1..=10u32 {
        let r = rec(format!("w{:02}", i), format!("v_{}", i));
        unflushed.insert(r).expect("Insert failed");
        let r = rec(format!("w{:02}", i), format!("v_{}", i));
        flushed.insert(r).expect("Insert failed");
    }
    assert_eq!(flushed.descriptors().len(), 1);
    let wal = unflushed.wal_image().clone();
    let manifest = flushed.metadata();
    let images: Vec<TableImage> = flushed
        .table_images()
        .iter()
        .map(|im| TableImage { index: im.index.clone(), storage: im.storage.clone() })
        .collect();
    let reopened = Engine::new(
        config((24 + 8) * 10),
        b"Photo".to_vec(),
        wal,
        manifest,
        images,
    )
    .expect("Reopen failed");
    for i in 1..=10u32 {
        let key = format!("w{:02}", i);
        let got = reopened.get(&key.clone().into_bytes()).expect("Get failed");
        assert_eq!(got.expect("missing").value, format!("v_{}", i).into_bytes());
    }
}
