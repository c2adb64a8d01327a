// The write-ahead log as the library sees it: a byte string of records.
// These tests drive the log through the same command sequences the
// background writer receives, with the file held as an in-memory byte
// string; appends go through the record codec, a reset truncates, and
// reads go through `replay`.

use snaildb::record::{write_record, RecordKind};
use snaildb::sync::SyncManager;
use snaildb::wal::replay;
use snaildb::Value;

fn bs(s: &str) -> Vec<u8> {
    s.as_bytes().to_vec()
}

fn append_set(log: &mut Vec<u8>, sync: &mut SyncManager, key: &str, value: &[u8]) {
    write_record(log, RecordKind::Put, &bs(key), &value.to_vec()).unwrap();
    sync.mark_dirty();
}

fn append_delete(log: &mut Vec<u8>, sync: &mut SyncManager, key: &str) {
    write_record(log, RecordKind::Delete, &bs(key), &Vec::new()).unwrap();
    sync.mark_dirty();
}

fn force_flush(sync: &mut SyncManager) {
    // On a file this would flush and fsync when bytes are pending; on the
    // in-memory image there is nothing left to do.
    let _ = sync.flush_if_pending();
}

fn reset(log: &mut Vec<u8>, sync: &mut SyncManager) {
    let _ = sync.flush_if_pending();
    log.clear();
    sync.clear_pending();
}

#[test]
fn test_wal_open() {
    let mut log = Vec::new();
    let mut sync = SyncManager::new();
    append_set(&mut log, &mut sync, "test", b"test");
    append_delete(&mut log, &mut sync, "test");
    force_flush(&mut sync);
    reset(&mut log, &mut sync);
}

#[test]
fn test_failure_append_set() {
    let mut log = Vec::new();
    let mut sync = SyncManager::new();
    append_set(&mut log, &mut sync, "test", b"test");
    append_delete(&mut log, &mut sync, "test");
    force_flush(&mut sync);
    reset(&mut log, &mut sync);
}

#[test]
fn test_failure_operations_after_drop() {
    let mut log = Vec::new();
    let mut sync = SyncManager::new();
    append_set(&mut log, &mut sync, "key1", b"value1");

    drop(log);
    drop(sync);

    let mut log2 = Vec::new();
    let mut sync2 = SyncManager::new();
    append_set(&mut log2, &mut sync2, "key2", b"value2");
}

#[test]
fn test_failure_empty_key() {
    let mut log = Vec::new();
    let mut sync = SyncManager::new();

    append_set(&mut log, &mut sync, "", b"value");
    append_delete(&mut log, &mut sync, "");
    assert_eq!(replay(&log).unwrap().len(), 2);
}

#[test]
fn test_failure_very_large_key() {
    let mut log = Vec::new();
    let mut sync = SyncManager::new();

    let large_key = "x".repeat(1024 * 1024);
    append_set(&mut log, &mut sync, &large_key, b"value");
    append_delete(&mut log, &mut sync, &large_key);
    let entries = replay(&log).unwrap();
    assert_eq!(entries.len(), 2);
    assert_eq!(entries[0].0.len(), 1024 * 1024);
}

#[test]
fn test_failure_very_large_value() {
    let mut log = Vec::new();
    let mut sync = SyncManager::new();

    let large_value = vec![0u8; 10 * 1024 * 1024];
    append_set(&mut log, &mut sync, "key", &large_value);
    let entries = replay(&log).unwrap();
    assert_eq!(entries.len(), 1);
    match &entries[0].1 {
        Value::Present(b) => assert_eq!(b.len(), 10 * 1024 * 1024),
        Value::Deleted => panic!("expected a live value"),
    }
}

#[test]
fn test_failure_multiple_operations() {
    let mut log = Vec::new();
    let mut sync = SyncManager::new();

    for i in 0..1000 {
        append_set(
            &mut log,
            &mut sync,
            &format!("key_{}", i),
            &format!("value_{}", i).into_bytes(),
        );
    }
    force_flush(&mut sync);

    for i in 0..1000 {
        append_delete(&mut log, &mut sync, &format!("key_{}", i));
    }
    force_flush(&mut sync);
    assert_eq!(replay(&log).unwrap().len(), 2000);
    reset(&mut log, &mut sync);
    assert_eq!(replay(&log).unwrap().len(), 0);
}

#[test]
fn test_failure_replay_on_nonexistent_file() {
    // A log that was never written replays to nothing.
    let log = Vec::new();
    let result = replay(&log);
    assert!(result.is_ok());
    let entries = result.unwrap();
    assert_eq!(entries.len(), 0);
}

#[test]
fn test_failure_unicode_keys_and_values() {
    let mut log = Vec::new();
    let mut sync = SyncManager::new();

    append_set(&mut log, &mut sync, "key_🚀", "value_🌍".as_bytes());
    append_set(&mut log, &mut sync, "ключ", "значение".as_bytes());
    append_set(&mut log, &mut sync, "键", "值".as_bytes());

    append_delete(&mut log, &mut sync, "key_🚀");
    append_delete(&mut log, &mut sync, "ключ");
    append_delete(&mut log, &mut sync, "键");

    force_flush(&mut sync);
    let entries = replay(&log).unwrap();
    assert_eq!(entries.len(), 6);
    // Keys come back byte-for-byte.
    assert_eq!(entries[0].0, "key_🚀".as_bytes().to_vec());
    assert_eq!(entries[1].0, "ключ".as_bytes().to_vec());
    assert_eq!(entries[2].0, "键".as_bytes().to_vec());
}

#[test]
fn test_failure_special_characters_in_key() {
    let mut log = Vec::new();
    let mut sync = SyncManager::new();

    let special_keys = vec![
        "key\nwith\nnewlines",
        "key\twith\ttabs",
        "key with spaces",
        "key/with/slashes",
        "key\\with\\backslashes",
        "key\"with\"quotes",
        "key'with'apostrophes",
    ];

    for key in &special_keys {
        append_set(&mut log, &mut sync, key, b"value");
        append_delete(&mut log, &mut sync, key);
    }

    force_flush(&mut sync);
    assert_eq!(replay(&log).unwrap().len(), 14);
}

#[test]
fn test_failure_null_bytes() {
    let mut log = Vec::new();
    let mut sync = SyncManager::new();

    let value_with_nulls = vec![0u8, 1u8, 0u8, 2u8, 0u8];
    append_set(&mut log, &mut sync, "key", &value_with_nulls);

    force_flush(&mut sync);
    let entries = replay(&log).unwrap();
    assert_eq!(entries.len(), 1);
    match &entries[0].1 {
        Value::Present(b) => assert_eq!(b, &value_with_nulls),
        Value::Deleted => panic!("expected a live value"),
    }
}

#[test]
fn test_failure_concurrent_reset_and_write() {
    let mut log = Vec::new();
    let mut sync = SyncManager::new();

    append_set(&mut log, &mut sync, "key1", b"value1");
    append_set(&mut log, &mut sync, "key2", b"value2");

    reset(&mut log, &mut sync);

    append_set(&mut log, &mut sync, "key3", b"value3");
    force_flush(&mut sync);
    let entries = replay(&log).unwrap();
    assert_eq!(entries.len(), 1);
    assert_eq!(entries[0].0, bs("key3"));
}

#[test]
fn test_mpsc_handler_write_record_commands() {
    let mut log = Vec::new();
    let mut sync = SyncManager::new();

    append_set(&mut log, &mut sync, "key1", b"value1");
    append_set(&mut log, &mut sync, "key2", b"value2");
    append_delete(&mut log, &mut sync, "key1");
    append_set(&mut log, &mut sync, "key3", b"value3");

    force_flush(&mut sync);

    let entries = replay(&log).unwrap();
    assert_eq!(entries.len(), 4); // 2 sets, 1 delete, 1 set
}

#[test]
fn test_mpsc_handler_flush_command() {
    let mut log = Vec::new();
    let mut sync = SyncManager::new();

    append_set(&mut log, &mut sync, "key1", b"value1");
    append_set(&mut log, &mut sync, "key2", b"value2");

    assert!(sync.has_pending());
    force_flush(&mut sync);
    assert!(!sync.has_pending());

    let entries = replay(&log).unwrap();
    assert_eq!(entries.len(), 2);
}

#[test]
fn test_mpsc_handler_reset_command() {
    let mut log = Vec::new();
    let mut sync = SyncManager::new();

    append_set(&mut log, &mut sync, "key1", b"value1");
    append_set(&mut log, &mut sync, "key2", b"value2");
    force_flush(&mut sync);

    let entries = replay(&log).unwrap();
    assert_eq!(entries.len(), 2);

    reset(&mut log, &mut sync);

    let entries_after_reset = replay(&log).unwrap();
    assert_eq!(entries_after_reset.len(), 0);

    append_set(&mut log, &mut sync, "key3", b"value3");
    force_flush(&mut sync);

    let entries_final = replay(&log).unwrap();
    assert_eq!(entries_final.len(), 1);
}

#[test]
fn test_mpsc_handler_command_ordering() {
    let mut log = Vec::new();
    let mut sync = SyncManager::new();

    append_set(&mut log, &mut sync, "key1", b"value1");
    append_set(&mut log, &mut sync, "key2", b"value2");
    append_set(&mut log, &mut sync, "key1", b"value1_updated");
    append_delete(&mut log, &mut sync, "key2");
    append_set(&mut log, &mut sync, "key3", b"value3");

    force_flush(&mut sync);

    let entries = replay(&log).unwrap();
    assert_eq!(entries.len(), 5);

    let key1_entries: Vec<_> = entries.iter().filter(|(k, _)| k == &bs("key1")).collect();
    assert_eq!(key1_entries.len(), 2); // Initial set and update
}

#[test]
fn test_mpsc_handler_multiple_flushes() {
    let mut log = Vec::new();
    let mut sync = SyncManager::new();

    append_set(&mut log, &mut sync, "key1", b"value1");
    force_flush(&mut sync);

    append_set(&mut log, &mut sync, "key2", b"value2");
    force_flush(&mut sync);

    append_set(&mut log, &mut sync, "key3", b"value3");
    force_flush(&mut sync);

    let entries = replay(&log).unwrap();
    assert_eq!(entries.len(), 3);
}

#[test]
fn test_mpsc_handler_reset_after_writes() {
    let mut log = Vec::new();
    let mut sync = SyncManager::new();

    for i in 0..10 {
        append_set(
            &mut log,
            &mut sync,
            &format!("key_{}", i),
            &format!("value_{}", i).into_bytes(),
        );
    }

    reset(&mut log, &mut sync);

    let entries = replay(&log).unwrap();
    assert_eq!(entries.len(), 0);
    assert_eq!(log.len(), 0);
}

#[test]
fn test_mpsc_handler_write_after_reset() {
    let mut log = Vec::new();
    let mut sync = SyncManager::new();

    append_set(&mut log, &mut sync, "key1", b"value1");
    reset(&mut log, &mut sync);

    append_set(&mut log, &mut sync, "key2", b"value2");
    append_set(&mut log, &mut sync, "key3", b"value3");
    force_flush(&mut sync);

    let entries = replay(&log).unwrap();
    assert_eq!(entries.len(), 2);

    let keys: Vec<_> = entries.iter().map(|(k, _)| k.clone()).collect();
    assert!(keys.contains(&bs("key2")));
    assert!(keys.contains(&bs("key3")));
    assert!(!keys.contains(&bs("key1")));
}

#[test]
fn test_mpsc_handler_mixed_operations() {
    let mut log = Vec::new();
    let mut sync = SyncManager::new();

    append_set(&mut log, &mut sync, "key1", b"value1");
    append_set(&mut log, &mut sync, "key2", b"value2");
    append_delete(&mut log, &mut sync, "key1");
    append_set(&mut log, &mut sync, "key3", b"value3");
    append_set(&mut log, &mut sync, "key1", b"value1_new");
    append_delete(&mut log, &mut sync, "key2");

    force_flush(&mut sync);

    let entries = replay(&log).unwrap();
    assert_eq!(entries.len(), 6);
}

#[test]
fn test_mpsc_handler_shutdown_via_drop() {
    let mut log = Vec::new();
    let mut sync = SyncManager::new();

    append_set(&mut log, &mut sync, "key1", b"value1");
    append_set(&mut log, &mut sync, "key2", b"value2");

    // On shutdown the writer flushes whatever is pending before exiting.
    let _ = sync.flush_if_pending();
    let persisted = log.clone();
    drop(log);
    drop(sync);

    let entries = replay(&persisted).unwrap();
    assert_eq!(entries.len(), 2);
}

#[test]
fn test_mpsc_handler_rapid_commands() {
    let mut log = Vec::new();
    let mut sync = SyncManager::new();

    for i in 0..100 {
        append_set(
            &mut log,
            &mut sync,
            &format!("key_{}", i),
            &format!("value_{}", i).into_bytes(),
        );
    }

    force_flush(&mut sync);

    let entries = replay(&log).unwrap();
    assert_eq!(entries.len(), 100);
}

#[test]
fn test_mpsc_handler_flush_without_pending() {
    let mut log = Vec::new();
    let mut sync = SyncManager::new();

    assert!(!sync.flush_if_pending());
    assert!(!sync.flush_if_pending());

    append_set(&mut log, &mut sync, "key1", b"value1");

    assert!(sync.flush_if_pending());

    let entries = replay(&log).unwrap();
    assert_eq!(entries.len(), 1);
}

#[test]
fn test_mpsc_handler_reset_clears_pending_state() {
    let mut log = Vec::new();
    let mut sync = SyncManager::new();

    append_set(&mut log, &mut sync, "key1", b"value1");
    append_set(&mut log, &mut sync, "key2", b"value2");

    reset(&mut log, &mut sync);
    assert!(!sync.has_pending());

    append_set(&mut log, &mut sync, "key3", b"value3");

    assert!(sync.flush_if_pending());

    let entries = replay(&log).unwrap();
    assert_eq!(entries.len(), 1);
    assert_eq!(entries[0].0, bs("key3"));
}

#[test]
fn test_mpsc_handler_concurrent_writes_and_flush() {
    let mut log = Vec::new();
    let mut sync = SyncManager::new();

    append_set(&mut log, &mut sync, "key1", b"value1");
    force_flush(&mut sync);

    append_set(&mut log, &mut sync, "key2", b"value2");
    append_set(&mut log, &mut sync, "key3", b"value3");
    force_flush(&mut sync);

    append_set(&mut log, &mut sync, "key4", b"value4");
    force_flush(&mut sync);

    let entries = replay(&log).unwrap();
    assert_eq!(entries.len(), 4);
}

#[test]
fn sync_manager_interval_and_default() {
    let sync = SyncManager::new();
    assert_eq!(sync.flush_interval(), 50);
    assert!(!sync.has_pending());

    let custom = SyncManager::with_interval(500);
    assert_eq!(custom.flush_interval(), 500);

    let dflt: SyncManager = Default::default();
    assert_eq!(dflt.flush_interval(), 50);

    let mut s = SyncManager::new();
    s.mark_dirty();
    assert!(s.has_pending());
    s.clear_pending();
    assert!(!s.has_pending());
}
