use mu_db::errors::DbError;
use mu_db::index::{Index, IndexEntry};
use mu_db::store::DataBase;

#[test]
fn serializes_one_line_per_entry() {
    let mut idx = Index::new();
    idx.insert_entry(5, "k1").unwrap();
    idx.insert_entry(5, "k2").unwrap();
    assert_eq!(Index::index_to_string(&idx), "k1=0_5\nk2=5_10\n".to_string());
    assert_eq!(idx.to_bytes(), b"k1=0_5\nk2=5_10\n".to_vec());
}

#[test]
fn serializes_empty_index_to_empty_text() {
    let idx = Index::new();
    assert_eq!(Index::index_to_string(&idx), "".to_string());
    assert_eq!(idx.to_bytes(), Vec::<u8>::new());
}

#[test]
fn serializes_multibyte_keys() {
    let mut idx = Index::new();
    idx.insert_entry(2, "k\u{e9}y").unwrap();
    assert_eq!(Index::index_to_string(&idx), "k\u{e9}y=0_2\n".to_string());
}

#[test]
fn parses_exact_text() {
    let entries = Index::parse_index(&b"k1=0_5\nk2=5_10\n".to_vec()).unwrap();
    assert_eq!(entries.len(), 2);
    assert_eq!(entries[0].key().as_str(), "k1");
    assert_eq!((entries[0].start(), entries[0].end()), (0, 5));
    assert_eq!(entries[1].key().as_str(), "k2");
    assert_eq!((entries[1].start(), entries[1].end()), (5, 10));
}

#[test]
fn parses_empty_text_to_empty_directory() {
    let entries = Index::parse_index(&Vec::new()).unwrap();
    assert!(entries.is_empty());
}

#[test]
fn serialize_then_parse_round_trip() {
    let mut idx = Index::new();
    idx.insert_entry(5, "k1").unwrap();
    idx.insert_entry(7, "k2").unwrap();
    idx.insert_entry(1, "k3").unwrap();
    idx.remove_entry("k2");
    let bytes = idx.to_bytes();
    let reparsed = Index::parse_index(&bytes).unwrap();
    let original = idx.get_all_entries();
    assert_eq!(reparsed.len(), original.len());
    for (a, b) in reparsed.iter().zip(original.iter()) {
        assert_eq!(a.key().as_str(), b.key().as_str());
        assert_eq!(a.start(), b.start());
        assert_eq!(a.end(), b.end());
    }
}

#[test]
fn parses_multibyte_key() {
    let entries = Index::parse_index(&"k\u{e9}y=0_2\n".as_bytes().to_vec()).unwrap();
    assert_eq!(entries.len(), 1);
    assert_eq!(entries[0].key().as_str(), "k\u{e9}y");
    assert_eq!((entries[0].start(), entries[0].end()), (0, 2));
}

#[test]
fn parse_rejects_missing_equals() {
    assert_eq!(
        Index::parse_index(&b"k10_5\n".to_vec()).unwrap_err(),
        DbError::MalformedIndex
    );
}

#[test]
fn parse_rejects_missing_underscore() {
    assert_eq!(
        Index::parse_index(&b"k1=05\n".to_vec()).unwrap_err(),
        DbError::MalformedIndex
    );
}

#[test]
fn parse_rejects_non_numeric_offsets() {
    assert_eq!(
        Index::parse_index(&b"k1=a_5\n".to_vec()).unwrap_err(),
        DbError::MalformedIndex
    );
    assert_eq!(
        Index::parse_index(&b"k1=0_b\n".to_vec()).unwrap_err(),
        DbError::MalformedIndex
    );
    assert_eq!(
        Index::parse_index(&b"k1=_5\n".to_vec()).unwrap_err(),
        DbError::MalformedIndex
    );
    assert_eq!(
        Index::parse_index(&b"k1=0_\n".to_vec()).unwrap_err(),
        DbError::MalformedIndex
    );
}

#[test]
fn parse_rejects_oversized_offsets() {
    assert_eq!(
        Index::parse_index(&b"k1=0_99999999999999999999\n".to_vec()).unwrap_err(),
        DbError::MalformedIndex
    );
}

#[test]
fn parse_rejects_unterminated_line() {
    assert_eq!(
        Index::parse_index(&b"k1=0_5".to_vec()).unwrap_err(),
        DbError::MalformedIndex
    );
}

#[test]
fn parse_rejects_separator_in_key() {
    assert_eq!(
        Index::parse_index(&b"a_b=0_5\n".to_vec()).unwrap_err(),
        DbError::MalformedIndex
    );
}

#[test]
fn parse_rejects_invalid_utf8_key() {
    let mut data = vec![0xffu8, 0xfe];
    data.extend_from_slice(b"=0_5\n");
    assert_eq!(Index::parse_index(&data).unwrap_err(), DbError::MalformedIndex);
}

#[test]
fn parse_accepts_inverted_range_but_layout_check_rejects_it() {
    let entries = Index::parse_index(&b"k=5_2\n".to_vec()).unwrap();
    assert_eq!((entries[0].start(), entries[0].end()), (5, 2));
    assert_eq!(Index::from_entries(entries).unwrap_err(), DbError::InvalidLayout);
}

#[test]
fn parse_of_persisted_store_restores_it() {
    let mut db = DataBase::new();
    db.insert("k1", "hello").unwrap();
    db.insert("k2", "world").unwrap();
    db.remove("k1");
    let data = db.read_bytes_at(0, db.buf_len()).unwrap();
    let text = db.index_ref().to_bytes();
    let entries = Index::parse_index(&text).unwrap();
    let mut restored = DataBase::from_parts(entries, data).unwrap();
    assert_eq!(restored.get("k2"), Some("world".to_string()));
    assert_eq!(restored.get("k1"), None);
    restored.shrink();
    assert_eq!(restored.buf_len(), 5);
}
