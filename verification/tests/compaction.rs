use storagekv::compaction::merge;
use storagekv::record::{Kind, Record};

fn put(seq: u64, key: &str, val: &str) -> Record {
    Record { seq, kind: Kind::Put, key: key.into(), value: val.into() }
}

fn del(seq: u64, key: &str) -> Record {
    Record { seq, kind: Kind::Tombstone, key: key.into(), value: Vec::new() }
}

#[test]
fn newest_version_wins() {
    let old = vec![put(1, "a", "old"), put(2, "b", "b1")];
    let new = vec![put(5, "a", "new")];
    let merged = merge(vec![old, new], true);
    assert_eq!(merged, vec![put(5, "a", "new"), put(2, "b", "b1")]);
}

#[test]
fn output_is_sorted() {
    let t1 = vec![put(1, "banana", "1"), put(2, "date", "2")];
    let t2 = vec![put(3, "apple", "3"), put(4, "cherry", "4")];
    let merged = merge(vec![t1, t2], true);
    let keys: Vec<&[u8]> = merged.iter().map(|r| r.key.as_slice()).collect();
    assert_eq!(keys, vec![&b"apple"[..], b"banana", b"cherry", b"date"]);
}

#[test]
fn tombstone_dropped_when_allowed() {
    let old = vec![put(1, "a", "v"), put(2, "keep", "k")];
    let new = vec![del(3, "a")];
    let merged = merge(vec![old, new], true);
    assert_eq!(merged, vec![put(2, "keep", "k")]);
}

#[test]
fn tombstone_kept_when_not_allowed() {
    let old = vec![put(1, "a", "v")];
    let new = vec![del(3, "a")];
    let merged = merge(vec![old, new], false);
    assert_eq!(merged, vec![del(3, "a")]);
}

#[test]
fn put_after_delete_survives() {
    let inputs = vec![vec![put(1, "a", "first")], vec![del(2, "a")], vec![put(4, "a", "third")]];
    let merged = merge(inputs, true);
    assert_eq!(merged, vec![put(4, "a", "third")]);
}

#[test]
fn empty_inputs() {
    assert_eq!(merge(vec![], true), vec![]);
    assert_eq!(merge(vec![vec![]], true), vec![]);
}

#[test]
fn newer_input_wins_equal_sequence_numbers() {
    let merged = merge(vec![vec![put(1, "a", "x")], vec![put(1, "a", "y")]], true);
    assert_eq!(merged, vec![put(1, "a", "y")]);
    let merged = merge(vec![vec![put(7, "a", "x"), put(1, "b", "1")], vec![del(7, "a")]], true);
    assert_eq!(merged, vec![put(1, "b", "1")]);
    let merged = merge(vec![vec![put(8, "a", "x")], vec![put(7, "a", "y")]], true);
    assert_eq!(merged, vec![put(8, "a", "x")]);
}

#[test]
fn merging_newer_tables_keeps_hiding_older_ones() {
    let upper = merge(vec![vec![put(2, "a", "v2")], vec![del(3, "a")]], false);
    assert_eq!(upper, vec![del(3, "a")]);
    assert_eq!(merge(vec![vec![put(1, "a", "v1")], upper], true), vec![]);
}
