use storagekv::error::Error;
use storagekv::record::{Cursor, Kind, Record};

#[test]
fn put_round_trip() {
    let rec = Record { seq: 42, kind: Kind::Put, key: b"hello".to_vec(), value: b"world".to_vec() };
    let mut cur = Cursor::new(rec.encode());
    assert_eq!(Record::decode(&mut cur).unwrap().unwrap(), rec);
}

#[test]
fn tombstone_round_trip() {
    let rec = Record { seq: 7, kind: Kind::Tombstone, key: b"gone".to_vec(), value: Vec::new() };
    let mut cur = Cursor::new(rec.encode());
    assert_eq!(Record::decode(&mut cur).unwrap().unwrap(), rec);
}

#[test]
fn multiple_records_stream() {
    let recs = vec![
        Record { seq: 1, kind: Kind::Put, key: b"a".to_vec(), value: b"1".to_vec() },
        Record { seq: 2, kind: Kind::Put, key: b"b".to_vec(), value: b"22".to_vec() },
        Record { seq: 3, kind: Kind::Tombstone, key: b"a".to_vec(), value: Vec::new() },
    ];
    let mut buf = Vec::new();
    for r in &recs {
        buf.extend_from_slice(&r.encode());
    }
    let mut cur = Cursor::new(buf);
    let mut out = Vec::new();
    while let Some(r) = Record::decode(&mut cur).unwrap() {
        out.push(r);
    }
    assert_eq!(out, recs);
}

#[test]
fn torn_trailing_record_is_ignored() {
    let rec = Record { seq: 1, kind: Kind::Put, key: b"k".to_vec(), value: b"v".to_vec() };
    let mut buf = rec.encode();
    let n = buf.len();
    buf.truncate(n - 3);
    let mut cur = Cursor::new(buf);
    assert_eq!(Record::decode(&mut cur).unwrap(), None);
}

#[test]
fn corrupt_payload_is_detected() {
    let rec = Record { seq: 1, kind: Kind::Put, key: b"k".to_vec(), value: b"v".to_vec() };
    let mut buf = rec.encode();
    buf[8] ^= 0xFF;
    let mut cur = Cursor::new(buf);
    assert!(matches!(Record::decode(&mut cur), Err(Error::Corruption(_))));
}

#[test]
fn exact_bytes_of_a_record() {
    let rec = Record { seq: 1, kind: Kind::Tombstone, key: b"k".to_vec(), value: Vec::new() };
    let payload = vec![1, 0, 0, 0, 0, 0, 0, 0, 1, 1, 0, 0, 0, b'k', 0, 0, 0, 0];
    let mut expected = storagekv::encode::crc32(&payload).to_le_bytes().to_vec();
    expected.extend_from_slice(&18u32.to_le_bytes());
    expected.extend_from_slice(&payload);
    assert_eq!(rec.encode(), expected);
}

#[test]
fn record_cut_off_anywhere_is_torn() {
    let rec = Record { seq: 9, kind: Kind::Put, key: b"key".to_vec(), value: b"value".to_vec() };
    let buf = rec.encode();
    for n in 0..buf.len() {
        let mut cur = Cursor::new(buf[..n].to_vec());
        assert_eq!(Record::decode(&mut cur).unwrap(), None);
        assert_eq!(cur.remaining(), 0);
    }
}

#[test]
fn crc_mismatch_text() {
    let payload = b"x".to_vec();
    let mut buf = vec![0xEF, 0xBE, 0, 0];
    buf.extend_from_slice(&1u32.to_le_bytes());
    buf.extend_from_slice(&payload);
    let expected =
        format!("crc mismatch: expected {:#010x}, got {:#010x}", 0xBEEF, storagekv::encode::crc32(&payload));
    assert_eq!(Record::decode(&mut Cursor::new(buf)), Err(Error::Corruption(expected)));
}

fn framed(payload: &[u8]) -> Vec<u8> {
    let mut buf = storagekv::encode::crc32(payload).to_le_bytes().to_vec();
    buf.extend_from_slice(&(payload.len() as u32).to_le_bytes());
    buf.extend_from_slice(payload);
    buf
}

#[test]
fn unknown_kind_is_corruption() {
    let buf = framed(&[0, 0, 0, 0, 0, 0, 0, 0, 7, 0, 0, 0, 0, 0, 0, 0, 0]);
    let res = Record::decode(&mut Cursor::new(buf));
    assert_eq!(res, Err(Error::Corruption("invalid record kind: 7".to_string())));
    assert_eq!(Kind::from_byte(1), Ok(Kind::Tombstone));
    assert_eq!(Kind::from_byte(200), Err(Error::Corruption("invalid record kind: 200".to_string())));
    assert_eq!(Kind::Put.to_byte(), 0);
}

#[test]
fn short_payload_is_corruption() {
    let refused = |n: usize| Err(Error::Corruption(format!("record payload too short: {n}")));
    assert_eq!(framed(b""), vec![0u8; 8]);
    assert_eq!(Record::decode(&mut Cursor::new(vec![0u8; 8])), refused(0));
    assert_eq!(Record::decode(&mut Cursor::new(framed(&[0; 12]))), refused(12));
    let long_key = framed(&[0, 0, 0, 0, 0, 0, 0, 0, 0, 9, 0, 0, 0, b'k', 0, 0, 0, 0]);
    assert_eq!(Record::decode(&mut Cursor::new(long_key)), refused(18));
    let long_value = framed(&[0, 0, 0, 0, 0, 0, 0, 0, 0, 1, 0, 0, 0, b'k', 1, 0, 0, 0]);
    assert_eq!(Record::decode(&mut Cursor::new(long_value)), refused(18));
}

#[test]
fn records_up_to_the_limit_are_short_enough() {
    let mut rec = Record { seq: 1, kind: Kind::Put, key: b"k".to_vec(), value: vec![0; 64 * 1024 * 1024 - 18] };
    assert!(rec.is_short_enough());
    rec.value.push(0);
    assert!(!rec.is_short_enough());
}

#[test]
fn oversized_length_is_taken_for_garbage() {
    let mut buf = vec![0, 0, 0, 0];
    buf.extend_from_slice(&(64 * 1024 * 1024 + 1u32).to_le_bytes());
    buf.extend_from_slice(&[0; 32]);
    let mut cur = Cursor::new(buf);
    assert_eq!(Record::decode(&mut cur), Ok(None));
    assert_eq!(cur.remaining(), 32);
}
