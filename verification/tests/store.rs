use mu_db::errors::DbError;
use mu_db::store::DataBase;

#[test]
fn round_trip_insert_get() {
    let mut db = DataBase::new();
    db.insert("key", "before_value").unwrap();
    db.insert("key", "after_value").unwrap();
    assert_eq!(db.get("key"), Some("after_value".to_string()));
    db.remove("key");
    assert_eq!(db.get("key"), None);
}

#[test]
fn round_trip_multibyte_value() {
    let mut db = DataBase::new();
    db.insert("k", "h\u{e9}llo").unwrap();
    assert_eq!(db.buf_len(), 6);
    assert_eq!(db.get("k"), Some("h\u{e9}llo".to_string()));
}

#[test]
fn round_trip_multibyte_key() {
    let mut db = DataBase::new();
    db.insert("k\u{e9}y", "v").unwrap();
    assert_eq!(db.get("k\u{e9}y"), Some("v".to_string()));
    assert_eq!(db.get("key"), None);
}

#[test]
fn overwrite_shrink_reuses_offset() {
    let mut db = DataBase::new();
    db.insert("k1", "hello").unwrap();
    db.insert("k2", "world").unwrap();
    // k1 occupies [0, 5); a smaller value must reuse start offset 0.
    db.insert("k1", "hi").unwrap();
    assert_eq!(db.read_at(0, 2).unwrap(), "hi".to_string());
    assert_eq!(db.get("k1"), Some("hi".to_string()));
    assert_eq!(db.get("k2"), Some("world".to_string()));
    // The trailing bytes of the old value stay in the file as garbage.
    assert_eq!(db.buf_len(), 10);
}

#[test]
fn overwrite_grow_relocates() {
    let mut db = DataBase::new();
    db.insert("k1", "aaaaa").unwrap();
    db.insert("k2", "bbbbb").unwrap();
    // Growing k1 vacates [0, 5) and appends at the end.
    db.insert("k1", "cccccccccc").unwrap();
    assert_eq!(db.buf_len(), 20);
    assert_eq!(db.get("k1"), Some("cccccccccc".to_string()));
    assert_eq!(db.read_at(10, 10).unwrap(), "cccccccccc".to_string());
    // The vacated range is available to a future allocation.
    db.insert("k3", "xyz").unwrap();
    assert_eq!(db.read_at(0, 3).unwrap(), "xyz".to_string());
    assert_eq!(db.buf_len(), 20);
}

#[test]
fn gap_reuse_first_fit() {
    let mut db = DataBase::new();
    db.insert("k1", "aaaaa").unwrap();
    db.insert("k2", "bbbbb").unwrap();
    db.insert("k3", "cccccccccc").unwrap();
    // Remove k1 (gap of 5 at offset 0) and k3 (gap of 10 at offset 10).
    db.remove("k1");
    db.remove("k3");
    // The earliest sufficient gap wins over the later, larger one.
    db.insert("k4", "xyz").unwrap();
    assert_eq!(db.read_at(0, 3).unwrap(), "xyz".to_string());
    assert_eq!(db.get("k4"), Some("xyz".to_string()));
    assert_eq!(db.buf_len(), 20);
}

#[test]
fn compaction_preserves_values() {
    let mut db = DataBase::new();
    db.insert("k1", "1111111111").unwrap();
    db.insert("k2", "2222222222").unwrap();
    db.insert("k3", "333").unwrap();
    db.remove("k1");
    db.insert("k4", "44444").unwrap();
    db.remove("k3");
    assert_eq!(db.buf_len(), 23);
    db.shrink();
    assert_eq!(db.buf_len(), 15);
    assert_eq!(db.get("k2"), Some("2222222222".to_string()));
    assert_eq!(db.get("k4"), Some("44444".to_string()));
    assert_eq!(db.get("k1"), None);
    assert_eq!(db.get("k3"), None);
}

#[test]
fn shrink_twice_is_noop() {
    let mut db = DataBase::new();
    db.insert("k1", "aaaaa").unwrap();
    db.insert("k2", "bbbbb").unwrap();
    db.remove("k1");
    db.shrink();
    let len_after_first = db.buf_len();
    let value_after_first = db.get("k2");
    db.shrink();
    assert_eq!(db.buf_len(), len_after_first);
    assert_eq!(db.get("k2"), value_after_first);
    assert_eq!(db.read_at(0, 5).unwrap(), "bbbbb".to_string());
}

#[test]
fn emptiness_duality() {
    let mut db = DataBase::new();
    db.insert("k1", "aaaaa").unwrap();
    db.insert("k2", "bbb").unwrap();
    db.clear_all();
    assert!(db.is_empty());
    assert!(db.is_buf_empty());
    db.insert("k1", "aaaaa").unwrap();
    db.remove("k1");
    assert!(db.is_empty());
    assert!(!db.is_buf_empty());
    db.shrink();
    assert!(db.is_empty());
    assert!(db.is_buf_empty());
}

#[test]
fn concrete_scenario() {
    let mut db = DataBase::new();
    db.insert("k1", "hello").unwrap();
    db.insert("k2", "world").unwrap();
    assert_eq!(db.buf_len(), 10);
    db.remove("k1");
    assert_eq!(db.buf_len(), 10);
    assert_eq!(db.get("k1"), None);
    assert_eq!(db.get("k2"), Some("world".to_string()));
    db.shrink();
    assert_eq!(db.buf_len(), 5);
    assert_eq!(db.get("k2"), Some("world".to_string()));
    // After compaction the value physically starts at offset 0.
    assert_eq!(db.read_at(0, 5).unwrap(), "world".to_string());
}

#[test]
fn insert_rejects_reserved_separators() {
    let mut db = DataBase::new();
    assert_eq!(db.insert("a=b", "v"), Err(DbError::InvalidKey));
    assert_eq!(db.insert("a_b", "v"), Err(DbError::InvalidKey));
    assert_eq!(db.insert("a\nb", "v"), Err(DbError::InvalidKey));
    assert!(db.is_empty());
    assert!(db.is_buf_empty());
}

#[test]
fn read_at_past_end_fails() {
    let mut db = DataBase::new();
    db.insert("k", "hello").unwrap();
    assert_eq!(db.read_at(0, 5).unwrap(), "hello".to_string());
    assert_eq!(db.read_at(1, 5), Err(DbError::ReadOutOfBounds));
    assert_eq!(db.read_at(6, 1), Err(DbError::ReadOutOfBounds));
}

#[test]
fn write_at_zero_fills_gap() {
    let mut db = DataBase::new();
    db.write_at(5, "world");
    assert_eq!(db.buf_len(), 10);
    assert_eq!(db.read_at(5, 5).unwrap(), "world".to_string());
    assert_eq!(db.read_at(0, 5).unwrap(), "\0\0\0\0\0".to_string());
}

#[test]
fn set_buf_len_truncates_and_extends() {
    let mut db = DataBase::new();
    db.write_at(0, "abcdef");
    db.set_buf_len(3);
    assert_eq!(db.buf_len(), 3);
    assert_eq!(db.read_at(0, 3).unwrap(), "abc".to_string());
    db.set_buf_len(5);
    assert_eq!(db.buf_len(), 5);
    assert_eq!(db.read_at(0, 5).unwrap(), "abc\0\0".to_string());
    db.set_buf_len(0);
    assert!(db.is_buf_empty());
}

#[test]
fn read_bytes_at_returns_raw_bytes() {
    let mut db = DataBase::new();
    db.insert("k", "hello").unwrap();
    assert_eq!(db.read_bytes_at(0, 5).unwrap(), b"hello".to_vec());
    assert_eq!(db.read_bytes_at(4, 2), Err(DbError::ReadOutOfBounds));
}

#[test]
fn from_parts_checks_layout() {
    let entries = vec![
        mu_db::index::IndexEntry::new("a".to_string(), 0, 3),
        mu_db::index::IndexEntry::new("b".to_string(), 3, 5),
    ];
    let db = DataBase::from_parts(entries, b"xyz$$".to_vec()).unwrap();
    assert_eq!(db.get("a"), Some("xyz".to_string()));
    assert_eq!(db.get("b"), Some("$$".to_string()));

    // Data shorter than the claimed ranges.
    let entries = vec![mu_db::index::IndexEntry::new("a".to_string(), 0, 3)];
    assert_eq!(
        DataBase::from_parts(entries, b"xy".to_vec()).unwrap_err(),
        DbError::InvalidLayout
    );

    // Out-of-order ranges.
    let entries = vec![
        mu_db::index::IndexEntry::new("a".to_string(), 3, 5),
        mu_db::index::IndexEntry::new("b".to_string(), 0, 3),
    ];
    assert_eq!(
        DataBase::from_parts(entries, b"xyz$$".to_vec()).unwrap_err(),
        DbError::InvalidLayout
    );

    // Duplicate keys.
    let entries = vec![
        mu_db::index::IndexEntry::new("a".to_string(), 0, 2),
        mu_db::index::IndexEntry::new("a".to_string(), 2, 4),
    ];
    assert_eq!(
        DataBase::from_parts(entries, b"xyz$$".to_vec()).unwrap_err(),
        DbError::InvalidLayout
    );

    // Overlapping ranges.
    let entries = vec![
        mu_db::index::IndexEntry::new("a".to_string(), 0, 3),
        mu_db::index::IndexEntry::new("b".to_string(), 2, 5),
    ];
    assert_eq!(
        DataBase::from_parts(entries, b"xyz$$".to_vec()).unwrap_err(),
        DbError::InvalidLayout
    );
}
