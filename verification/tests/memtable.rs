use storagekv::memtable::{Entry, MemTable};
use storagekv::record::{Kind, Record};

fn put(seq: u64, key: &str, val: &str) -> Record {
    Record { seq, kind: Kind::Put, key: key.into(), value: val.into() }
}

fn del(seq: u64, key: &str) -> Record {
    Record { seq, kind: Kind::Tombstone, key: key.into(), value: Vec::new() }
}

#[test]
fn put_then_get() {
    let mut m = MemTable::new();
    m.apply(put(1, "a", "alice"));
    assert_eq!(m.get(b"a"), Some(&b"alice"[..]));
    assert_eq!(m.get(b"missing"), None);
}

#[test]
fn newer_write_wins() {
    let mut m = MemTable::new();
    m.apply(put(1, "a", "alice"));
    m.apply(put(2, "a", "alicia"));
    assert_eq!(m.get(b"a"), Some(&b"alicia"[..]));
}

#[test]
fn tombstone_hides_key() {
    let mut m = MemTable::new();
    m.apply(put(1, "a", "alice"));
    m.apply(del(2, "a"));
    assert_eq!(m.get(b"a"), None);
}

#[test]
fn rewrite_after_delete() {
    let mut m = MemTable::new();
    m.apply(put(1, "a", "alice"));
    m.apply(del(2, "a"));
    m.apply(put(3, "a", "al"));
    assert_eq!(m.get(b"a"), Some(&b"al"[..]));
}

#[test]
fn stale_write_is_ignored() {
    let mut m = MemTable::new();
    m.apply(put(5, "a", "new"));
    m.apply(put(2, "a", "old"));
    assert_eq!(m.get(b"a"), Some(&b"new"[..]));
}

#[test]
fn iter_is_sorted() {
    let mut m = MemTable::new();
    m.apply(put(1, "banana", "1"));
    m.apply(put(2, "apple", "2"));
    m.apply(put(3, "cherry", "3"));
    let keys: Vec<Vec<u8>> = m.iter().map(|(k, _)| k.clone()).collect();
    assert_eq!(keys, vec![b"apple".to_vec(), b"banana".to_vec(), b"cherry".to_vec()]);
}

#[test]
fn equal_sequence_number_is_ignored() {
    let mut m = MemTable::new();
    m.apply(put(3, "a", "first"));
    m.apply(put(3, "a", "second"));
    assert_eq!(m.get(b"a"), Some(&b"first"[..]));
}

#[test]
fn lookup_shows_tombstones() {
    let mut m = MemTable::default();
    assert!(m.is_empty());
    m.apply(del(1, "a"));
    assert!(!m.is_empty());
    assert_eq!(m.lookup(b"a"), Some((Kind::Tombstone, Vec::new())));
    assert_eq!(m.lookup(b"b"), None);
}

#[test]
fn size_counts_keys_values_and_entries() {
    let entry = std::mem::size_of::<Entry>();
    let mut m = MemTable::new();
    assert_eq!(m.approx_size_bytes(), 0);
    m.apply(put(1, "abc", "12345"));
    assert_eq!(m.approx_size_bytes(), 8 + entry);
    m.apply(put(2, "abc", "1"));
    assert_eq!(m.approx_size_bytes(), 4 + entry);
    m.apply(put(1, "abc", "stale and long"));
    assert_eq!(m.approx_size_bytes(), 4 + entry);
    m.apply(del(3, "d"));
    assert_eq!(m.approx_size_bytes(), 5 + 2 * entry);
    assert!(m.can_apply(&put(4, "e", "")));
}

#[test]
fn order_of_arrival_does_not_matter() {
    let records = vec![put(1, "a", "1"), put(4, "a", "4"), del(2, "a"), put(3, "b", "3"), del(5, "b")];
    let mut forward = MemTable::new();
    let mut backward = MemTable::new();
    for r in &records {
        forward.apply(r.clone());
    }
    for r in records.iter().rev() {
        backward.apply(r.clone());
    }
    for k in [&b"a"[..], b"b", b"c"] {
        assert_eq!(forward.lookup(k), backward.lookup(k));
    }
    assert_eq!(forward.get(b"a"), Some(&b"4"[..]));
    assert_eq!(forward.get(b"b"), None);
    assert!(forward.iter().eq(backward.iter()));
    assert_eq!(forward.approx_size_bytes(), backward.approx_size_bytes());

    for r in &records {
        forward.apply(r.clone());
    }
    assert!(forward.iter().eq(backward.iter()));
    assert_eq!(forward.approx_size_bytes(), backward.approx_size_bytes());
}
