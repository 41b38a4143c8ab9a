use storagekv::error::Error;
use storagekv::record::{Kind, Record};
use storagekv::wal::Wal;

fn rec(seq: u64, key: &str, val: &str) -> Record {
    Record { seq, kind: Kind::Put, key: key.into(), value: val.into() }
}

/// Appends a record to the bytes of a log.
fn append(log: &mut Vec<u8>, wal: &mut Wal, record: &Record) {
    let bytes = wal.append(record).unwrap();
    log.truncate(wal.end() as usize);
    log.extend_from_slice(&bytes);
    wal.appended(record);
}

#[test]
fn append_then_replay() {
    let recs = vec![rec(1, "a", "1"), rec(2, "b", "2"), rec(3, "c", "3")];
    let mut log = Vec::new();
    let mut wal = Wal::new();
    for r in &recs {
        append(&mut log, &mut wal, r);
    }
    let (read, end) = Wal::replay(log.clone()).unwrap();
    assert_eq!(read, recs);
    assert_eq!(end.end(), log.len() as u64);
    assert_eq!(end, wal);
}

#[test]
fn reopen_and_append_is_cumulative() {
    let mut log = Vec::new();
    append(&mut log, &mut Wal::new(), &rec(1, "a", "1"));
    let (_, mut wal) = Wal::replay(log.clone()).unwrap();
    append(&mut log, &mut wal, &rec(2, "b", "2"));
    assert_eq!(Wal::replay(log).unwrap().0, vec![rec(1, "a", "1"), rec(2, "b", "2")]);
}

#[test]
fn replay_stops_at_torn_tail() {
    let mut log = Vec::new();
    let mut wal = Wal::new();
    append(&mut log, &mut wal, &rec(1, "a", "1"));
    append(&mut log, &mut wal, &rec(2, "b", "2"));
    let n = log.len();
    log.truncate(n - 3);
    assert_eq!(Wal::replay(log).unwrap().0, vec![rec(1, "a", "1")]);
}

#[test]
fn append_after_a_torn_tail_is_read_back() {
    let mut log = Vec::new();
    let mut wal = Wal::new();
    append(&mut log, &mut wal, &rec(1, "a", "1"));
    append(&mut log, &mut wal, &rec(2, "b", "2"));
    let n = log.len();
    log.truncate(n - 3);
    let (_, mut wal) = Wal::replay(log.clone()).unwrap();
    append(&mut log, &mut wal, &rec(2, "c", "3"));
    assert_eq!(Wal::replay(log).unwrap().0, vec![rec(1, "a", "1"), rec(2, "c", "3")]);
}

#[test]
fn corrupt_record_refuses_the_log() {
    let mut log = Vec::new();
    let mut wal = Wal::new();
    append(&mut log, &mut wal, &rec(1, "a", "1"));
    append(&mut log, &mut wal, &rec(2, "b", "2"));
    log[10] ^= 1;
    assert!(matches!(Wal::replay(log), Err(Error::Corruption(_))));
}

#[test]
fn a_record_that_could_not_be_read_back_is_not_appended() {
    let mut record = rec(1, "k", "");
    record.value = vec![0; 64 * 1024 * 1024];
    assert_eq!(Wal::new().append(&record), None);
}

#[test]
fn the_longest_record_is_read_back() {
    let mut record = rec(1, "k", "");
    record.value = vec![7; 64 * 1024 * 1024 - 18];
    let mut log = Vec::new();
    append(&mut log, &mut Wal::new(), &record);
    assert!(Wal::replay(log).unwrap().0 == vec![record]);
}
