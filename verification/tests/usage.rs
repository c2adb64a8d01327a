use snaildb::db::SnailDb;
use snaildb::record::{write_record, RecordKind};

fn bs(s: &str) -> Vec<u8> {
    s.as_bytes().to_vec()
}

fn fresh_db() -> SnailDb {
    SnailDb::open(Vec::new(), Vec::new())
}

// Appends the SET record to the log first, then applies the write; a
// returned flush means the caller persists the image and resets the log.
fn put(db: &mut SnailDb, log: &mut Vec<u8>, key: &str, value: &[u8]) {
    let k = bs(key);
    let v = value.to_vec();
    write_record(log, RecordKind::Put, &k, &v).unwrap();
    if db.put(k, v).unwrap().is_some() {
        log.clear();
    }
}

fn delete(db: &mut SnailDb, log: &mut Vec<u8>, key: &str) {
    let k = bs(key);
    write_record(log, RecordKind::Delete, &k, &Vec::new()).unwrap();
    if db.delete(k).unwrap().is_some() {
        log.clear();
    }
}

fn get(db: &SnailDb, key: &str) -> Option<Vec<u8>> {
    db.get(&bs(key))
}

#[test]
fn test_basic_operations() {
    let mut db = fresh_db();
    let mut log = Vec::new();

    put(&mut db, &mut log, "user:1", b"Alice");
    put(&mut db, &mut log, "user:2", b"Bob");

    match get(&db, "user:1") {
        Some(value) => {
            let value_str = String::from_utf8_lossy(&value).into_owned();
            assert_eq!(value_str, "Alice");
        }
        None => panic!("Key user:1 should exist"),
    }

    delete(&mut db, &mut log, "user:2");

    assert_eq!(get(&db, "user:2"), None);
}

#[test]
fn test_custom_flush_threshold() {
    let mut db = fresh_db().with_flush_threshold(256 * 1024 * 1024);
    let mut log = Vec::new();

    put(&mut db, &mut log, "test", b"value");
    assert_eq!(get(&db, "test"), Some(b"value".to_vec()));
}

#[test]
fn test_working_with_strings() {
    let mut db = fresh_db();
    let mut log = Vec::new();

    put(&mut db, &mut log, "name", "snaildb".as_bytes());
    put(&mut db, &mut log, "version", "0.1.0".as_bytes());

    if let Some(bytes) = get(&db, "name") {
        let value = String::from_utf8_lossy(&bytes).into_owned();
        assert_eq!(value, "snaildb");
    } else {
        panic!("Key 'name' should exist");
    }

    if let Some(bytes) = get(&db, "version") {
        let value = String::from_utf8_lossy(&bytes).into_owned();
        assert_eq!(value, "0.1.0");
    } else {
        panic!("Key 'version' should exist");
    }
}

#[test]
fn test_error_handling() {
    let mut db = fresh_db();
    let mut log = Vec::new();

    put(&mut db, &mut log, "key", "value".as_bytes());

    assert_eq!(get(&db, "key"), Some(b"value".to_vec()));
}

#[test]
fn test_multiple_operations() {
    let mut db = fresh_db();
    let mut log = Vec::new();

    for i in 0..10 {
        put(
            &mut db,
            &mut log,
            &format!("key:{}", i),
            format!("value:{}", i).as_bytes(),
        );
    }

    for i in 0..10 {
        let key = format!("key:{}", i);
        let expected_value = format!("value:{}", i);
        match get(&db, &key) {
            Some(value) => {
                let value_str = String::from_utf8_lossy(&value).into_owned();
                assert_eq!(value_str, expected_value);
            }
            None => panic!("Key {} should exist", key),
        }
    }

    delete(&mut db, &mut log, "key:5");
    delete(&mut db, &mut log, "key:7");

    assert_eq!(get(&db, "key:5"), None);
    assert_eq!(get(&db, "key:7"), None);

    assert_eq!(get(&db, "key:0"), Some(b"value:0".to_vec()));
    assert_eq!(get(&db, "key:9"), Some(b"value:9".to_vec()));
}
