use storagekv::files::{
    contains_number, is_orphan, manifest_path, parse_sst_number, sst_path, tmp_path_for, wal_path,
};
use storagekv::manifest::SstEntry;

#[test]
fn names() {
    assert_eq!(wal_path(), "wal.log");
    assert_eq!(manifest_path(), "MANIFEST");
    assert_eq!(sst_path(1), "000001.sst");
    assert_eq!(sst_path(999999), "999999.sst");
    assert_eq!(sst_path(12345678), "12345678.sst");
    assert_eq!(sst_path(u64::MAX), "18446744073709551615.sst");
    assert_eq!(tmp_path_for("foo.sst"), "foo.sst.tmp");
}

#[test]
fn numbers_read_off_names() {
    for n in [0u64, 7, 999_999, 1_000_000, u64::MAX] {
        assert_eq!(parse_sst_number(&sst_path(n)), Some(n));
    }
    assert_eq!(parse_sst_number("7.sst"), Some(7));
    assert_eq!(parse_sst_number(".sst"), None);
    assert_eq!(parse_sst_number("a.sst"), None);
    assert_eq!(parse_sst_number("000007.sst.tmp"), None);
    assert_eq!(parse_sst_number("wal.log"), None);
}

#[test]
fn litter_is_told_from_what_is_in_use() {
    let live = vec![SstEntry { number: 3, max_seq: 9 }, SstEntry { number: 8, max_seq: 20 }];
    assert!(contains_number(&live, 8));
    assert!(!contains_number(&live, 4));
    assert!(!is_orphan(&sst_path(3), &live));
    assert!(is_orphan(&sst_path(4), &live));
    assert!(is_orphan("000003.sst.tmp", &live));
    assert!(is_orphan("MANIFEST.tmp", &live));
    assert!(!is_orphan("MANIFEST", &live));
    assert!(!is_orphan("wal.log", &live));
    assert!(!is_orphan("notes", &live));
}
