use mu_db::errors::DbError;
use mu_db::index::{check_entries, check_key, Index, IndexEntry};

#[test]
fn entry_accessors() {
    let e = IndexEntry::new("k".to_string(), 3, 8);
    assert_eq!(e.key().as_str(), "k");
    assert_eq!(e.start(), 3);
    assert_eq!(e.end(), 8);
    assert_eq!(e.size(), 5);
    let d = e.duplicate();
    assert_eq!(d.key().as_str(), "k");
    assert_eq!(d.start(), 3);
    assert_eq!(d.end(), 8);
}

#[test]
fn insert_entry_allocates_in_order() {
    let mut idx = Index::new();
    assert!(idx.is_empty());
    let e1 = idx.insert_entry(5, "k1").unwrap();
    assert_eq!((e1.start(), e1.end()), (0, 5));
    let e2 = idx.insert_entry(3, "k2").unwrap();
    assert_eq!((e2.start(), e2.end()), (5, 8));
    assert!(!idx.is_empty());
    assert_eq!(idx.len(), 2);
}

#[test]
fn insert_entry_narrows_in_place() {
    let mut idx = Index::new();
    idx.insert_entry(5, "k1").unwrap();
    idx.insert_entry(5, "k2").unwrap();
    let e = idx.insert_entry(2, "k1").unwrap();
    assert_eq!((e.start(), e.end()), (0, 2));
    let found = idx.get_entry("k1").unwrap();
    assert_eq!((found.start(), found.end()), (0, 2));
}

#[test]
fn insert_entry_grows_by_reallocating() {
    let mut idx = Index::new();
    idx.insert_entry(5, "k1").unwrap();
    idx.insert_entry(5, "k2").unwrap();
    let e = idx.insert_entry(8, "k1").unwrap();
    // The old range [0, 5) cannot hold 8 bytes, nor can the vacated gap, so
    // the entry moves past the last range.
    assert_eq!((e.start(), e.end()), (10, 18));
}

#[test]
fn alloc_entry_prefers_earliest_gap() {
    let mut idx = Index::new();
    idx.insert_entry(4, "k1").unwrap();
    idx.insert_entry(4, "k2").unwrap();
    idx.insert_entry(9, "k3").unwrap();
    idx.remove_entry("k1");
    idx.remove_entry("k3");
    // Gaps: [0, 4) and [8, 17). First-fit picks the earliest that fits.
    let e = idx.alloc_entry(3, "k4");
    assert_eq!((e.start(), e.end()), (0, 3));
    // A size that only fits the later gap skips the earlier one.
    let e = idx.alloc_entry(5, "k5");
    assert_eq!((e.start(), e.end()), (8, 13));
}

#[test]
fn alloc_entry_fills_gap_before_first_entry() {
    let mut idx = Index::new();
    idx.insert_entry(4, "k1").unwrap();
    idx.insert_entry(4, "k2").unwrap();
    idx.remove_entry("k1");
    let e = idx.alloc_entry(4, "k3");
    assert_eq!((e.start(), e.end()), (0, 4));
}

#[test]
fn remove_entry_returns_removed() {
    let mut idx = Index::new();
    idx.insert_entry(5, "k1").unwrap();
    let removed = idx.remove_entry("k1").unwrap();
    assert_eq!((removed.start(), removed.end()), (0, 5));
    assert!(idx.remove_entry("k1").is_none());
    assert!(idx.is_empty());
}

#[test]
fn get_entry_finds_by_key() {
    let mut idx = Index::new();
    idx.insert_entry(5, "k1").unwrap();
    idx.insert_entry(2, "k2").unwrap();
    let e = idx.get_entry("k2").unwrap();
    assert_eq!((e.start(), e.end()), (5, 7));
    assert!(idx.get_entry("missing").is_none());
}

#[test]
fn insert_entry_rejects_bad_keys() {
    let mut idx = Index::new();
    assert_eq!(idx.insert_entry(1, "a=b").unwrap_err(), DbError::InvalidKey);
    assert_eq!(idx.insert_entry(1, "a_b").unwrap_err(), DbError::InvalidKey);
    assert_eq!(idx.insert_entry(1, "a\nb").unwrap_err(), DbError::InvalidKey);
    assert!(idx.is_empty());
}

#[test]
fn check_key_accepts_plain_keys() {
    assert!(check_key("plain-key.0"));
    assert!(check_key(""));
    assert!(check_key("k\u{e9}y"));
    assert!(!check_key("a=b"));
    assert!(!check_key("a_b"));
    assert!(!check_key("a\nb"));
}

#[test]
fn shrink_entries_returns_pre_image() {
    let mut idx = Index::new();
    idx.insert_entry(5, "k1").unwrap();
    idx.insert_entry(5, "k2").unwrap();
    idx.insert_entry(3, "k3").unwrap();
    idx.remove_entry("k2");
    let pre = idx.shrink_entries();
    assert_eq!(pre.len(), 2);
    assert_eq!((pre[0].start(), pre[0].end()), (0, 5));
    assert_eq!((pre[1].start(), pre[1].end()), (10, 13));
    let now = idx.get_all_entries();
    assert_eq!((now[0].start(), now[0].end()), (0, 5));
    assert_eq!((now[1].start(), now[1].end()), (5, 8));
    assert_eq!(now[1].key().as_str(), "k3");
}

#[test]
fn get_and_set_all_entries() {
    let mut idx = Index::new();
    idx.insert_entry(5, "k1").unwrap();
    let all = idx.get_all_entries();
    let mut other = Index::new();
    other.set_all_entries(all);
    let e = other.get_entry("k1").unwrap();
    assert_eq!((e.start(), e.end()), (0, 5));
}

#[test]
fn clear_all_empties_index() {
    let mut idx = Index::new();
    idx.insert_entry(5, "k1").unwrap();
    idx.clear_all();
    assert!(idx.is_empty());
    assert!(idx.get_entry("k1").is_none());
}

#[test]
fn from_entries_validates() {
    let good = vec![
        IndexEntry::new("a".to_string(), 0, 3),
        IndexEntry::new("b".to_string(), 5, 9),
    ];
    let idx = Index::from_entries(good).unwrap();
    assert_eq!(idx.len(), 2);

    let unsorted = vec![
        IndexEntry::new("a".to_string(), 5, 9),
        IndexEntry::new("b".to_string(), 0, 3),
    ];
    assert_eq!(Index::from_entries(unsorted).unwrap_err(), DbError::InvalidLayout);

    let inverted = vec![IndexEntry::new("a".to_string(), 5, 2)];
    assert_eq!(Index::from_entries(inverted).unwrap_err(), DbError::InvalidLayout);

    let bad_key = vec![IndexEntry::new("a=b".to_string(), 0, 2)];
    assert_eq!(Index::from_entries(bad_key).unwrap_err(), DbError::InvalidLayout);
}

#[test]
fn check_entries_matches_from_entries() {
    let good = vec![IndexEntry::new("a".to_string(), 0, 3)];
    assert!(check_entries(&good));
    let overlap = vec![
        IndexEntry::new("a".to_string(), 0, 3),
        IndexEntry::new("b".to_string(), 2, 5),
    ];
    assert!(!check_entries(&overlap));
}
