use std::collections::BTreeMap;
use storagekv::error::Error;
use storagekv::files::tmp_path_for;
use storagekv::manifest::{Manifest, SstEntry};

#[test]
fn new_is_empty() {
    let m = Manifest::new();
    assert_eq!(m.next_seq, 1);
    assert_eq!(m.next_sst, 1);
    assert!(m.ssts.is_empty());
}

#[test]
fn encode_decode_round_trip() {
    let m = Manifest {
        next_seq: 42,
        next_sst: 7,
        ssts: vec![
            SstEntry { number: 1, max_seq: 15 },
            SstEntry { number: 2, max_seq: 31 },
            SstEntry { number: 5, max_seq: 40 },
        ],
    };
    let decoded = Manifest::decode(&m.encode()).unwrap();
    assert_eq!(decoded, m);
}

#[test]
fn save_then_load() {
    let m = Manifest {
        next_seq: 100,
        next_sst: 9,
        ssts: vec![SstEntry { number: 3, max_seq: 99 }],
    };
    let text = m.encode();
    assert_eq!(Manifest::load(Some(&text)).unwrap(), m);
}

#[test]
fn load_missing_is_fresh() {
    assert_eq!(Manifest::load(None).unwrap(), Manifest::new());
}

#[test]
fn save_overwrites_atomically() {
    let mut files: BTreeMap<String, String> = BTreeMap::new();
    files.insert("MANIFEST".to_string(), Manifest { next_seq: 1, next_sst: 1, ssts: vec![] }.encode());

    let updated = Manifest {
        next_seq: 50,
        next_sst: 4,
        ssts: vec![SstEntry { number: 1, max_seq: 49 }],
    };
    let tmp = tmp_path_for("MANIFEST");
    files.insert(tmp.clone(), updated.encode());
    let text = files.remove(&tmp).unwrap();
    files.insert("MANIFEST".to_string(), text);

    assert_eq!(Manifest::load(files.get("MANIFEST").map(|t| t.as_str())).unwrap(), updated);
    assert!(!files.contains_key("MANIFEST.tmp"));
}

#[test]
fn malformed_line_is_corruption() {
    assert!(Manifest::decode("next_seq 1\nnext_sst 1\ngarbage line here\n").is_err());
    assert!(Manifest::decode("next_sst 1\n").is_err());
}

#[test]
fn exact_text() {
    let m = Manifest { next_seq: 42, next_sst: 7, ssts: vec![SstEntry { number: 10, max_seq: u64::MAX }] };
    assert_eq!(m.encode(), "next_seq 42\nnext_sst 7\nsst 10 18446744073709551615\n");
}

#[test]
fn error_texts() {
    let bad = |text: &str, why: &str| {
        assert_eq!(Manifest::decode(text), Err(Error::Corruption(why.to_string())));
    };
    bad("next_sst 1\n", "manifest missing next_seq");
    bad("next_seq 1\n", "manifest missing next_sst");
    bad("", "manifest missing next_seq");
    bad("next_seq 1\n \t garbage  line \r\nnext_sst 1", "bad manifest line: garbage  line");
    bad("next_seq x1\n", "bad number in manifest: x1");
    bad("sst 1 18446744073709551616\n", "bad number in manifest: 18446744073709551616");
    bad("sst -1 y\n", "bad number in manifest: -1");
    bad("next_seq\n", "bad manifest line: next_seq");
}

#[test]
fn spacing_order_and_repeats() {
    let m = Manifest::decode("\n  sst\t4 +9  \r\nnext_sst 5\n\u{a0}next_seq 007\nnext_seq 8").unwrap();
    assert_eq!(m, Manifest { next_seq: 8, next_sst: 5, ssts: vec![SstEntry { number: 4, max_seq: 9 }] });
}
