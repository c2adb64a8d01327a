// The memtable, Bloom filter, table files and the engine on concrete
// values, including the scenarios the store is specified by.

use snaildb::bloom::BloomFilter;
use snaildb::db::SnailDb;
use snaildb::memtable::MemTable;
use snaildb::record::{write_record, RecordKind};
use snaildb::sstable::SsTable;
use snaildb::wal::replay;
use snaildb::Value;

fn bs(s: &str) -> Vec<u8> {
    s.as_bytes().to_vec()
}

// ---------------------------------------------------------------------------
// Memtable

#[test]
fn memtable_size_accounting_exact() {
    let mut mt = MemTable::new();
    assert!(mt.is_empty());
    assert_eq!(mt.size_bytes(), 0);

    // key (1) + value (2) + 40 overhead
    mt.insert(bs("k"), Value::Present(b"vv".to_vec()));
    assert_eq!(mt.size_bytes(), 43);
    assert_eq!(mt.len(), 1);

    // Overwrite: the delta is new minus old, here value shrinks by one.
    mt.insert(bs("k"), Value::Present(b"v".to_vec()));
    assert_eq!(mt.size_bytes(), 42);
    assert_eq!(mt.len(), 1);

    // A tombstone carries no value bytes.
    mt.insert(bs("k"), Value::Deleted);
    assert_eq!(mt.size_bytes(), 41);

    // Size is zero exactly when the table is empty.
    let drained = mt.drain_sorted();
    assert_eq!(drained.len(), 1);
    assert_eq!(mt.size_bytes(), 0);
    assert!(mt.is_empty());
}

#[test]
fn memtable_last_writer_wins_and_sorted_drain() {
    let mut mt = MemTable::new();
    mt.insert(bs("b"), Value::Present(b"2".to_vec()));
    mt.insert(bs("a"), Value::Present(b"1".to_vec()));
    mt.insert(bs("c"), Value::Present(b"3".to_vec()));
    mt.insert(bs("b"), Value::Present(b"2bis".to_vec()));

    match mt.get(&bs("b")) {
        Some(Value::Present(v)) => assert_eq!(v, b"2bis".to_vec()),
        _ => panic!("expected the later write"),
    }
    assert!(mt.get(&bs("zzz")).is_none());

    let drained = mt.drain_sorted();
    let keys: Vec<Vec<u8>> = drained.iter().map(|e| e.0.clone()).collect();
    assert_eq!(keys, vec![bs("a"), bs("b"), bs("c")]);
}

// ---------------------------------------------------------------------------
// Bloom filter

#[test]
fn bloom_no_false_negatives() {
    let mut filter = BloomFilter::new(3);
    // ceil(3 * 10 / 8) bytes
    assert_eq!(filter.bits.len(), 4);
    filter.insert(&bs("alpha"));
    filter.insert(&bs("beta"));
    filter.insert(&bs("gamma"));
    assert!(filter.may_contain(&bs("alpha")));
    assert!(filter.may_contain(&bs("beta")));
    assert!(filter.may_contain(&bs("gamma")));
}

#[test]
fn bloom_empty_filter_rejects_everything() {
    let filter = BloomFilter::with_bits_per_key(0);
    assert_eq!(filter.bits.len(), 0);
    assert!(!filter.may_contain(&bs("anything")));
    assert!(!filter.may_contain(&Vec::new()));
}

#[test]
fn bloom_probes_follow_the_digest() {
    // Build a filter by hand from the documented probe schema: one xxh3-64
    // digest of the key, then (h + i) * 0x9e3779b97f4a7c15 modulo the bit
    // count, for i in 0..7. The library's filter must agree with it.
    let key = bs("probe-key");
    let mut filter = BloomFilter::new(4);
    filter.insert(&key);

    let nbits = (filter.bits.len() * 8) as u64;
    let h = xxhash_rust::xxh3::xxh3_64(&key);
    let mut manual = vec![0u8; filter.bits.len()];
    for i in 0..7u64 {
        let bit = h.wrapping_add(i).wrapping_mul(0x9e3779b97f4a7c15) % nbits;
        manual[(bit / 8) as usize] |= 1u8 << (bit % 8) as u8;
    }
    assert_eq!(filter.bits, manual);

    // Clearing one probe bit must turn the membership answer negative.
    let first_bit = h.wrapping_mul(0x9e3779b97f4a7c15) % nbits;
    let mut damaged = BloomFilter {
        bits: filter.bits.clone(),
    };
    damaged.bits[(first_bit / 8) as usize] &= !(1u8 << (first_bit % 8) as u8);
    assert!(!damaged.may_contain(&key));
}

// ---------------------------------------------------------------------------
// Table files

fn sample_entries() -> Vec<(Vec<u8>, Value)> {
    vec![
        (bs("apple"), Value::Present(b"red".to_vec())),
        (bs("banana"), Value::Present(b"yellow".to_vec())),
        (bs("cherry"), Value::Deleted),
        (bs("damson"), Value::Present(b"blue".to_vec())),
    ]
}

#[test]
fn sstable_create_load_round_trip() {
    let (table, image) = SsTable::create(bs("sst-1.sst"), sample_entries()).unwrap();
    assert_eq!(table.path(), &bs("sst-1.sst"));

    let loaded = SsTable::load(bs("sst-1.sst"), &image).unwrap();
    match loaded.get(&bs("apple")) {
        Some(Value::Present(v)) => assert_eq!(v, b"red".to_vec()),
        _ => panic!("apple should be present"),
    }
    match loaded.get(&bs("cherry")) {
        Some(Value::Deleted) => {}
        _ => panic!("cherry should be a tombstone"),
    }
    assert!(loaded.get(&bs("elder")).is_none());
    assert!(loaded.might_contain_key(&bs("banana")));
    // Outside the key range the cheap filter answers no.
    assert!(!loaded.might_contain_key(&bs("zebra")));
}

#[test]
fn sstable_metadata_only_load() {
    let (_, image) = SsTable::create(bs("sst-2.sst"), sample_entries()).unwrap();
    let meta = SsTable::load_metadata(bs("sst-2.sst"), &image).unwrap();
    assert_eq!(meta.metadata.min_key, bs("apple"));
    assert_eq!(meta.metadata.max_key, bs("damson"));
    assert!(meta.entries.is_none());
    assert!(meta.might_contain_key(&bs("banana")));
    assert!(!meta.might_contain_key(&bs("zebra")));
}

#[test]
fn sstable_key_range_and_bloom_hold_for_every_key() {
    let (table, _) = SsTable::create(bs("sst-3.sst"), sample_entries()).unwrap();
    for (key, _) in sample_entries() {
        assert!(table.metadata.min_key <= key);
        assert!(key <= table.metadata.max_key);
        assert!(table.metadata.bloom_filter.may_contain(&key));
        assert!(table.might_contain_key(&key));
    }
}

#[test]
fn sstable_corrupt_byte_rejected() {
    let (_, mut image) = SsTable::create(bs("sst-4.sst"), sample_entries()).unwrap();
    // Flip a byte inside the first record's payload.
    image[20] ^= 0x40;
    assert!(SsTable::load(bs("sst-4.sst"), &image).is_err());
}

// ---------------------------------------------------------------------------
// Engine scenarios

fn put(db: &mut SnailDb, log: &mut Vec<u8>, key: &str, value: &[u8]) {
    let k = bs(key);
    let v = value.to_vec();
    write_record(log, RecordKind::Put, &k, &v).unwrap();
    if db.put(k, v).unwrap().is_some() {
        log.clear();
    }
}

fn delete(db: &mut SnailDb, log: &mut Vec<u8>, key: &str) {
    let k = bs(key);
    write_record(log, RecordKind::Delete, &k, &Vec::new()).unwrap();
    if db.delete(k).unwrap().is_some() {
        log.clear();
    }
}

#[test]
fn engine_empty_key_and_empty_value() {
    let mut db = SnailDb::open(Vec::new(), Vec::new());
    let mut log = Vec::new();
    put(&mut db, &mut log, "", b"empty-key-value");
    assert_eq!(db.get(&Vec::new()), Some(b"empty-key-value".to_vec()));

    // A zero-byte value is distinguishable from a tombstone.
    put(&mut db, &mut log, "blank", b"");
    assert_eq!(db.get(&bs("blank")), Some(Vec::new()));
    delete(&mut db, &mut log, "blank");
    assert_eq!(db.get(&bs("blank")), None);
}

#[test]
fn engine_large_key_and_value() {
    let mut db = SnailDb::open(Vec::new(), Vec::new());
    let mut log = Vec::new();
    let large_key = "k".repeat(1024 * 1024);
    let large_value = vec![0xABu8; 10 * 1024 * 1024];
    put(&mut db, &mut log, &large_key, &large_value);
    assert_eq!(db.get(&bs(&large_key)), Some(large_value));
}

#[test]
fn engine_reopen_replays_the_log() {
    // Scenario: put, drop the handle, reopen from the durable log.
    let mut db = SnailDb::open(Vec::new(), Vec::new());
    let mut log = Vec::new();
    put(&mut db, &mut log, "name", "snaildb".as_bytes());
    drop(db);

    let replayed = replay(&log).unwrap();
    let db2 = SnailDb::open(replayed, Vec::new());
    assert_eq!(db2.get(&bs("name")), Some(b"snaildb".to_vec()));
}

#[test]
fn engine_flush_threshold_triggers_flush() {
    // Cumulative size beyond the threshold flushes: a table file appears
    // and the log is reset to length zero, yet every key stays readable.
    let mut db = SnailDb::open(Vec::new(), Vec::new()).with_flush_threshold(256);
    let mut log: Vec<u8> = Vec::new();
    let mut files: Vec<(Vec<u8>, Vec<u8>)> = Vec::new();

    for i in 0..8 {
        let k = bs(&format!("bulk:{}", i));
        let v = vec![0x55u8; 32];
        write_record(&mut log, RecordKind::Put, &k, &v).unwrap();
        if let Some(flush) = db.put(k, v).unwrap() {
            assert!(flush.file_name.starts_with(b"sst-"));
            assert!(flush.file_name.ends_with(b".sst"));
            files.push((flush.file_name, flush.bytes));
            log.clear();
        }
    }

    assert!(!files.is_empty(), "the threshold should have forced a flush");
    assert_eq!(log.len(), 0, "the log is reset right after a flush");

    for i in 0..8 {
        assert_eq!(
            db.get(&bs(&format!("bulk:{}", i))),
            Some(vec![0x55u8; 32]),
            "key bulk:{} must stay readable",
            i
        );
    }

    // The persisted image is a loadable table.
    let (name, bytes) = &files[0];
    let table = SsTable::load(name.clone(), bytes).unwrap();
    assert!(table.entries.is_some());
}

#[test]
fn engine_forced_flush_resets_log_and_keeps_reads() {
    let mut db = SnailDb::open(Vec::new(), Vec::new());
    let mut log = Vec::new();
    put(&mut db, &mut log, "k1", b"v1");
    put(&mut db, &mut log, "k2", b"v2");

    let flush = db.flush_memtable().unwrap().expect("memtable was not empty");
    log.clear(); // the caller resets the log once the image is durable
    assert_eq!(log.len(), 0);

    // An empty memtable flush is a no-op.
    assert!(db.flush_memtable().unwrap().is_none());

    assert_eq!(db.get(&bs("k1")), Some(b"v1".to_vec()));
    assert_eq!(db.get(&bs("k2")), Some(b"v2".to_vec()));

    // The flushed image round-trips through load with the same contents.
    let table = SsTable::load(flush.file_name.clone(), &flush.bytes).unwrap();
    match table.get(&bs("k1")) {
        Some(Value::Present(v)) => assert_eq!(v, b"v1".to_vec()),
        _ => panic!("k1 should be in the flushed table"),
    }
}

#[test]
fn engine_memtable_shadows_older_table() {
    // Scenario: after a flush, an overwrite lands in the memtable and
    // shadows the older table's value.
    let mut db = SnailDb::open(Vec::new(), Vec::new());
    let mut log = Vec::new();
    put(&mut db, &mut log, "color", b"red");
    db.flush_memtable().unwrap().expect("non-empty");
    log.clear();

    put(&mut db, &mut log, "color", b"green");
    assert_eq!(db.get(&bs("color")), Some(b"green".to_vec()));
}

#[test]
fn engine_tombstone_shadows_older_table() {
    // Scenario: after a flush, a delete leaves a memtable tombstone that
    // wins over the table holding the key.
    let mut db = SnailDb::open(Vec::new(), Vec::new());
    let mut log = Vec::new();
    put(&mut db, &mut log, "doomed", b"still-here");
    db.flush_memtable().unwrap().expect("non-empty");
    log.clear();

    delete(&mut db, &mut log, "doomed");
    assert_eq!(db.get(&bs("doomed")), None);
}

#[test]
fn engine_newer_table_wins_over_older() {
    let mut db = SnailDb::open(Vec::new(), Vec::new());
    let mut log = Vec::new();
    put(&mut db, &mut log, "k", b"old");
    db.flush_memtable().unwrap().expect("non-empty");
    log.clear();
    put(&mut db, &mut log, "k", b"new");
    db.flush_memtable().unwrap().expect("non-empty");
    log.clear();

    assert_eq!(db.get(&bs("k")), Some(b"new".to_vec()));
}

#[test]
fn engine_open_with_loaded_tables() {
    // A full close and reopen: flushed images are loaded back and handed
    // to open, newest first.
    let mut db = SnailDb::open(Vec::new(), Vec::new());
    let mut log = Vec::new();
    put(&mut db, &mut log, "a", b"1");
    put(&mut db, &mut log, "b", b"2");
    let flush = db.flush_memtable().unwrap().expect("non-empty");
    log.clear();
    put(&mut db, &mut log, "b", b"rewritten");
    drop(db);

    let table = SsTable::load(flush.file_name.clone(), &flush.bytes).unwrap();
    let replayed = replay(&log).unwrap();
    let db2 = SnailDb::open(replayed, vec![table]);
    assert_eq!(db2.get(&bs("a")), Some(b"1".to_vec()));
    assert_eq!(db2.get(&bs("b")), Some(b"rewritten".to_vec()));
}

#[test]
fn engine_corrupt_log_fails_replay() {
    let mut log = Vec::new();
    write_record(&mut log, RecordKind::Put, &bs("k"), &b"v".to_vec()).unwrap();
    let last = log.len() - 1;
    log[last] ^= 0x01;
    assert!(replay(&log).is_err());
}

#[test]
fn value_as_option_separates_tombstones() {
    assert_eq!(
        Value::from_bytes(b"x".to_vec()).as_option(),
        Some(b"x".to_vec())
    );
    assert_eq!(Value::from_bytes(Vec::new()).as_option(), Some(Vec::new()));
    assert_eq!(Value::tombstone().as_option(), None);
}

#[test]
fn engine_last_put_wins() {
    let mut db = SnailDb::open(Vec::new(), Vec::new());
    let mut log = Vec::new();
    put(&mut db, &mut log, "k", b"v1");
    put(&mut db, &mut log, "k", b"v2");
    assert_eq!(db.get(&bs("k")), Some(b"v2".to_vec()));
}

#[test]
fn engine_put_delete_get_absent() {
    let mut db = SnailDb::open(Vec::new(), Vec::new());
    let mut log = Vec::new();
    put(&mut db, &mut log, "k", b"v");
    delete(&mut db, &mut log, "k");
    assert_eq!(db.get(&bs("k")), None);
}
