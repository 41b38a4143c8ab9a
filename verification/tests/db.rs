use std::collections::BTreeMap;
use storagekv::db::{Action, Db, Probe};
use storagekv::error::Error;
use storagekv::files::{is_orphan, manifest_path, parse_sst_number, sst_path, wal_path};
use storagekv::manifest::Manifest;
use storagekv::memtable::Entry;
use storagekv::record::Record;
use storagekv::sstable::SSTable;

/// The files of a database, held in memory.
#[derive(Clone, Default)]
struct Dir {
    files: BTreeMap<String, Vec<u8>>,
}

impl Dir {
    fn new() -> Dir {
        Dir { files: BTreeMap::new() }
    }

    fn log(&self) -> Vec<u8> {
        self.files.get(wal_path()).cloned().unwrap_or_default()
    }

    fn manifest(&self) -> Manifest {
        let text = self.files.get(manifest_path()).map(|b| String::from_utf8(b.clone()).unwrap());
        Manifest::load(text.as_deref()).unwrap()
    }

    /// Opens the database and clears litter away.
    fn open(&mut self) -> Result<Db, Error> {
        let manifest = self.manifest();
        let live = manifest.ssts.clone();
        let mut sstables = Vec::new();
        for e in &manifest.ssts {
            sstables.push(SSTable::open(e.number, &self.files[&sst_path(e.number)])?);
        }
        let db = Db::open(manifest, sstables, self.log())?;
        self.files.retain(|name, _| !is_orphan(name, &live));
        Ok(db)
    }

    /// Does one action, whole, and gives what was read.
    fn perform(&mut self, action: Action) -> Vec<u8> {
        match action {
            Action::AppendLog { at, bytes } => {
                let mut log = self.log();
                log.truncate(at as usize);
                log.extend_from_slice(&bytes);
                self.files.insert(wal_path().to_string(), log);
                Vec::new()
            }
            Action::ResetLog => {
                self.files.insert(wal_path().to_string(), Vec::new());
                Vec::new()
            }
            Action::ReadLog => self.log(),
            Action::WriteTable { number, bytes } => {
                self.files.insert(sst_path(number), bytes.clone());
                bytes
            }
            Action::WriteManifest { text } => {
                self.files.insert(manifest_path().to_string(), text.into_bytes());
                Vec::new()
            }
            Action::ReadTable { number, len } => self.files[&sst_path(number)][..len as usize].to_vec(),
            Action::RemoveTable { number } => {
                self.files.remove(&sst_path(number));
                Vec::new()
            }
            Action::Done => Vec::new(),
        }
    }

    fn run(&mut self, db: &mut Db, first: Result<Action, Error>) {
        let mut action = first.unwrap();
        while action != Action::Done {
            let data = self.perform(action);
            action = db.resume(data).unwrap();
        }
    }

    fn put(&mut self, db: &mut Db, key: &[u8], value: &[u8]) {
        let first = db.put(key, value);
        self.run(db, first);
    }

    fn delete(&mut self, db: &mut Db, key: &[u8]) {
        let first = db.delete(key);
        self.run(db, first);
    }

    fn compact(&mut self, db: &mut Db) {
        let first = db.compact();
        self.run(db, first);
    }

    fn get(&self, db: &Db, key: &[u8]) -> Option<Vec<u8>> {
        let mut probe = db.get(key).unwrap();
        loop {
            match probe {
                Probe::Answer(value) => return value,
                Probe::Read { table, number, start, end } => {
                    let block = self.files[&sst_path(number)][start as usize..end as usize].to_vec();
                    probe = db.resume_get(key, table, block).unwrap();
                }
            }
        }
    }
}

#[test]
fn put_get_delete() {
    let mut dir = Dir::new();
    let mut db = dir.open().unwrap();
    dir.put(&mut db, b"name", b"alice");
    assert_eq!(dir.get(&db, b"name"), Some(b"alice".to_vec()));
    dir.put(&mut db, b"name", b"alicia");
    assert_eq!(dir.get(&db, b"name"), Some(b"alicia".to_vec()));
    dir.delete(&mut db, b"name");
    assert_eq!(dir.get(&db, b"name"), None);
    assert_eq!(dir.get(&db, b"never"), None);
}

#[test]
fn survives_reopen_memtable_only() {
    let mut dir = Dir::new();
    {
        let mut db = dir.open().unwrap();
        dir.put(&mut db, b"a", b"1");
        dir.put(&mut db, b"a", b"11");
        dir.delete(&mut db, b"b");
    }
    let db = dir.open().unwrap();
    assert_eq!(dir.get(&db, b"a"), Some(b"11".to_vec()));
    assert_eq!(dir.get(&db, b"b"), None);
}

#[test]
fn flush_happens_and_data_is_readable_from_sstable() {
    let mut dir = Dir::new();
    let mut db = dir.open().unwrap();
    db.set_flush_threshold_for_test(256);
    for i in 0..100u64 {
        let k = format!("key{:04}", i);
        dir.put(&mut db, k.as_bytes(), format!("val{}", i).as_bytes());
    }
    let sst_count = dir.files.keys().filter_map(|name| parse_sst_number(name)).count();
    assert!(sst_count >= 1, "expected at least one flushed SSTable");
    for i in 0..100u64 {
        let k = format!("key{:04}", i);
        assert_eq!(dir.get(&db, k.as_bytes()), Some(format!("val{}", i).into_bytes()));
    }
}

#[test]
fn survives_reopen_after_flush() {
    let mut dir = Dir::new();
    {
        let mut db = dir.open().unwrap();
        db.set_flush_threshold_for_test(256);
        for i in 0..100u64 {
            let k = format!("key{:04}", i);
            dir.put(&mut db, k.as_bytes(), format!("v{}", i).as_bytes());
        }
        dir.delete(&mut db, b"key0005");
    }
    let db = dir.open().unwrap();
    assert_eq!(dir.get(&db, b"key0000"), Some(b"v0".to_vec()));
    assert_eq!(dir.get(&db, b"key0099"), Some(b"v99".to_vec()));
    assert_eq!(dir.get(&db, b"key0005"), None);
}

#[test]
fn newer_sstable_shadows_older() {
    let mut dir = Dir::new();
    let mut db = dir.open().unwrap();
    db.set_flush_threshold_for_test(1);
    dir.put(&mut db, b"k", b"old");
    dir.put(&mut db, b"k", b"new");
    assert_eq!(dir.get(&db, b"k"), Some(b"new".to_vec()));
    dir.delete(&mut db, b"k");
    assert_eq!(dir.get(&db, b"k"), None);
    assert_eq!(db.table_count(), 3);
}

#[test]
fn stray_sstable_not_in_manifest_is_ignored() {
    let mut dir = Dir::new();
    {
        let mut db = dir.open().unwrap();
        db.set_flush_threshold_for_test(256);
        for i in 0..50u64 {
            dir.put(&mut db, format!("key{:04}", i).as_bytes(), b"v");
        }
    }
    dir.files.insert(sst_path(999999), b"not a real sstable".to_vec());
    let db = dir.open().unwrap();
    assert!(!db.sstables_contains_number(999999), "stray SSTable must not be loaded");
}

#[test]
fn recovery_deletes_orphan_files() {
    let mut dir = Dir::new();
    {
        let mut db = dir.open().unwrap();
        db.set_flush_threshold_for_test(256);
        for i in 0..50u64 {
            dir.put(&mut db, format!("key{:04}", i).as_bytes(), b"v");
        }
    }
    dir.files.insert(sst_path(999999), b"garbage".to_vec());
    dir.files.insert("000123.sst.tmp".to_string(), b"garbage".to_vec());
    let db = dir.open().unwrap();
    assert!(!dir.files.contains_key(&sst_path(999999)), "orphan .sst should be deleted");
    assert!(!dir.files.contains_key("000123.sst.tmp"), "orphan .tmp should be deleted");
    let live = db.live_tables().first().map(|e| e.number);
    if let Some(num) = live {
        assert!(dir.files.contains_key(&sst_path(num)), "live SSTable must not be deleted");
    }
}

#[test]
fn compaction_reduces_sstable_count_and_preserves_data() {
    let mut dir = Dir::new();
    let mut db = dir.open().unwrap();
    db.set_flush_threshold_for_test(128);
    for i in 0..300u64 {
        dir.put(&mut db, format!("key{:04}", i).as_bytes(), b"v1");
    }
    for i in 0..50u64 {
        dir.put(&mut db, format!("key{:04}", i).as_bytes(), b"v2");
    }
    for i in 50..80u64 {
        dir.delete(&mut db, format!("key{:04}", i).as_bytes());
    }
    dir.compact(&mut db);
    assert_eq!(db.table_count(), 1, "all tables should merge into one");
    assert_eq!(dir.get(&db, b"key0000"), Some(b"v2".to_vec()));
    assert_eq!(dir.get(&db, b"key0100"), Some(b"v1".to_vec()));
    assert_eq!(dir.get(&db, b"key0060"), None);
    assert_eq!(dir.get(&db, b"key0299"), Some(b"v1".to_vec()));
}

#[test]
fn crash_after_new_table_before_manifest_swap_recovers() {
    let mut dir = Dir::new();
    {
        let mut db = dir.open().unwrap();
        db.set_flush_threshold_for_test(128);
        for i in 0..200u64 {
            dir.put(&mut db, format!("key{:04}", i).as_bytes(), b"v1");
        }
    }
    dir.files.insert(sst_path(999999), b"partial merged table (not in manifest)".to_vec());
    let db = dir.open().unwrap();
    for i in 0..200u64 {
        assert_eq!(dir.get(&db, format!("key{:04}", i).as_bytes()), Some(b"v1".to_vec()));
    }
    assert!(!dir.files.contains_key(&sst_path(999999)), "orphan merged table should be cleaned up");
}

#[test]
fn crash_after_manifest_swap_before_old_delete_recovers() {
    let mut dir = Dir::new();
    let mut db = dir.open().unwrap();
    db.set_flush_threshold_for_test(128);
    for i in 0..200u64 {
        dir.put(&mut db, format!("key{:04}", i).as_bytes(), b"v1");
    }
    dir.compact(&mut db);
    dir.files.insert(sst_path(999998), b"old table that should have been deleted".to_vec());
    drop(db);
    let db = dir.open().unwrap();
    for i in 0..200u64 {
        assert_eq!(dir.get(&db, format!("key{:04}", i).as_bytes()), Some(b"v1".to_vec()));
    }
    assert!(!dir.files.contains_key(&sst_path(999998)), "leftover old table should be cleaned up");
    assert_eq!(db.table_count(), 1, "exactly the merged table remains");
}

/// A small generator of pseudo-random numbers.
struct Random(u64);

impl Random {
    fn next(&mut self, bound: u64) -> u64 {
        self.0 = self.0.wrapping_mul(6364136223846793005).wrapping_add(1442695040888963407);
        (self.0 >> 33) % bound
    }

    fn key(&mut self) -> Vec<u8> {
        let n = 1 + self.next(3);
        (0..n).map(|_| b'a' + self.next(5) as u8).collect()
    }

    fn value(&mut self) -> Vec<u8> {
        let n = self.next(12);
        (0..n).map(|_| self.next(256) as u8).collect()
    }
}

#[test]
fn engine_matches_model() {
    for seed in 0..300u64 {
        let mut random = Random(seed);
        let mut dir = Dir::new();
        let mut db = dir.open().unwrap();
        db.set_flush_threshold_for_test(64);
        let mut model: BTreeMap<Vec<u8>, Vec<u8>> = BTreeMap::new();
        for _ in 0..(1 + random.next(199)) {
            match random.next(4) {
                0 => {
                    let (k, v) = (random.key(), random.value());
                    dir.put(&mut db, &k, &v);
                    model.insert(k, v);
                }
                1 => {
                    let k = random.key();
                    dir.delete(&mut db, &k);
                    model.remove(&k);
                }
                2 => {
                    let k = random.key();
                    assert_eq!(dir.get(&db, &k), model.get(&k).cloned());
                }
                _ => {
                    db = dir.open().unwrap();
                    db.set_flush_threshold_for_test(64);
                }
            }
            assert!(db.table_count() <= 4);
        }
        for (k, v) in &model {
            assert_eq!(dir.get(&db, k).as_ref(), Some(v));
        }
        assert_eq!(dir.get(&db, b"never"), None);
    }
}

fn same(dir: &Dir, db: &Db, model: &BTreeMap<Vec<u8>, Vec<u8>>, keys: &[Vec<u8>]) -> bool {
    keys.iter().all(|k| dir.get(db, k) == model.get(k).cloned())
}

#[test]
fn crash_at_any_action_recovers_before_or_after() {
    let keys: Vec<Vec<u8>> = (0..6u8).map(|i| vec![b'a' + i]).collect();
    let mut random = Random(7);
    let mut dir = Dir::new();
    let mut db = dir.open().unwrap();
    db.set_flush_threshold_for_test(100);
    let mut model: BTreeMap<Vec<u8>, Vec<u8>> = BTreeMap::new();
    for _ in 0..80 {
        let before = model.clone();
        let k = keys[random.next(6) as usize].clone();
        let mut action = if random.next(3) == 0 {
            model.remove(&k);
            db.delete(&k).unwrap()
        } else {
            let v = random.value();
            model.insert(k.clone(), v.clone());
            db.put(&k, &v).unwrap()
        };
        while action != Action::Done {
            let mut crashed = dir.clone();
            if let Action::AppendLog { at, ref bytes } = action {
                let mut log = crashed.log();
                log.truncate(at as usize);
                log.extend_from_slice(&bytes[..random.next(bytes.len() as u64) as usize]);
                crashed.files.insert(wal_path().to_string(), log);
            }
            let reopened = crashed.open().unwrap();
            assert!(same(&crashed, &reopened, &before, &keys) || same(&crashed, &reopened, &model, &keys));
            let data = dir.perform(action);
            let mut crashed = dir.clone();
            let reopened = crashed.open().unwrap();
            assert!(same(&crashed, &reopened, &model, &keys));
            action = db.resume(data).unwrap();
        }
    }
}

#[test]
fn writes_after_a_torn_log_survive() {
    let mut dir = Dir::new();
    let mut db = dir.open().unwrap();
    dir.put(&mut db, b"a", b"1");
    dir.put(&mut db, b"b", b"2");
    let mut log = dir.log();
    let n = log.len();
    log.truncate(n - 3);
    dir.files.insert(wal_path().to_string(), log);

    let mut db = dir.open().unwrap();
    assert_eq!(dir.get(&db, b"b"), None);
    dir.put(&mut db, b"c", b"3");
    let db = dir.open().unwrap();
    assert_eq!(dir.get(&db, b"a"), Some(b"1".to_vec()));
    assert_eq!(dir.get(&db, b"b"), None);
    assert_eq!(dir.get(&db, b"c"), Some(b"3".to_vec()));
}

#[test]
fn failed_actions_lose_nothing() {
    let mut dir = Dir::new();
    let mut db = dir.open().unwrap();
    dir.put(&mut db, b"a", b"1");

    let Action::AppendLog { at, bytes } = db.put(b"b", b"lost").unwrap() else { panic!() };
    let mut log = dir.log();
    log.truncate(at as usize);
    log.extend_from_slice(&bytes[..5]);
    dir.files.insert(wal_path().to_string(), log);
    assert_eq!(dir.get(&db, b"b"), None);

    dir.put(&mut db, b"c", b"3");
    let action = db.flush().unwrap();
    let data = dir.perform(action);
    let action = db.resume(data).unwrap();
    assert!(matches!(action, Action::WriteManifest { .. }));

    dir.put(&mut db, b"d", b"4");
    let reopened = dir.open().unwrap();
    for (k, v) in [(b"a", b"1"), (b"c", b"3"), (b"d", b"4")] {
        assert_eq!(dir.get(&db, k), Some(v.to_vec()));
        assert_eq!(dir.get(&reopened, k), Some(v.to_vec()));
    }
}

#[test]
fn actions_of_a_write_that_flushes() {
    let mut dir = Dir::new();
    let mut db = dir.open().unwrap();
    db.set_flush_threshold_for_test(1);
    let action = db.put(b"k", b"v").unwrap();
    assert!(matches!(action, Action::AppendLog { at: 0, .. }));
    let data = dir.perform(action);
    let action = db.resume(data).unwrap();
    assert!(matches!(action, Action::WriteTable { number: 1, .. }));
    let data = dir.perform(action);
    let action = db.resume(data).unwrap();
    assert_eq!(action, Action::WriteManifest { text: "next_seq 2\nnext_sst 2\nsst 1 1\n".to_string() });
    let data = dir.perform(action);
    let action = db.resume(data).unwrap();
    assert_eq!(action, Action::ResetLog);
    let data = dir.perform(action);
    assert_eq!(db.resume(data), Ok(Action::Done));
    assert_eq!(db.resume(Vec::new()), Ok(Action::Done));
    assert_eq!(db.flush(), Ok(Action::Done));
    assert_eq!(db.compact(), Ok(Action::Done));
}

#[test]
fn a_table_that_cannot_be_opened_is_refused() {
    let mut dir = Dir::new();
    let mut db = dir.open().unwrap();
    dir.put(&mut db, b"k", b"v");
    db.flush().unwrap();
    assert!(matches!(db.resume(b"short".to_vec()), Err(Error::Corruption(_))));
    assert_eq!(dir.get(&db, b"k"), Some(b"v".to_vec()));
}

#[test]
fn exhausted_counters_are_refused() {
    let full = Manifest { next_seq: u64::MAX, next_sst: 1, ssts: vec![] };
    let mut db = Db::open(full, vec![], vec![]).unwrap();
    assert_eq!(db.put(b"k", b"v"), Err(Error::Overflow));

    let last = Record { seq: u64::MAX, kind: storagekv::record::Kind::Put, key: vec![], value: vec![] };
    assert!(matches!(Db::open(Manifest::new(), vec![], last.encode()), Err(Error::Overflow)));

    let no_tables = Manifest { next_seq: 1, next_sst: u64::MAX, ssts: vec![] };
    let mut dir = Dir::new();
    let mut db = Db::open(no_tables, vec![], vec![]).unwrap();
    dir.put(&mut db, b"k", b"v");
    assert_eq!(db.flush(), Err(Error::Overflow));
    assert_eq!(dir.get(&db, b"k"), Some(b"v".to_vec()));
}

#[test]
fn sequence_numbers_go_on_after_reopening() {
    let mut dir = Dir::new();
    let mut db = dir.open().unwrap();
    dir.put(&mut db, b"a", b"1");
    dir.put(&mut db, b"b", b"2");
    let mut db = dir.open().unwrap();
    let Action::AppendLog { at, bytes } = db.put(b"c", b"3").unwrap() else { panic!() };
    assert_eq!(at, 54);
    assert_eq!(bytes[8..16], 3u64.to_le_bytes());
}

#[test]
fn a_write_that_could_not_be_read_back_is_refused() {
    let mut dir = Dir::new();
    let mut db = dir.open().unwrap();
    dir.put(&mut db, b"a", b"1");
    let long = vec![0u8; 64 * 1024 * 1024];
    assert_eq!(db.put(b"k", &long), Err(Error::RecordTooLong));
    assert_eq!(db.delete(&long), Err(Error::RecordTooLong));
    assert_eq!(db.resume(Vec::new()), Ok(Action::Done));
    assert_eq!(dir.get(&db, b"k"), None);
    dir.put(&mut db, b"b", b"2");
    let db = dir.open().unwrap();
    assert_eq!(dir.get(&db, b"a"), Some(b"1".to_vec()));
    assert_eq!(dir.get(&db, b"k"), None);
    assert_eq!(dir.get(&db, b"b"), Some(b"2".to_vec()));
}

#[test]
fn a_memory_table_at_the_threshold_is_not_flushed() {
    let size = 2 + std::mem::size_of::<Entry>();
    let mut dir = Dir::new();
    let mut db = dir.open().unwrap();
    db.set_flush_threshold_for_test(size);
    dir.put(&mut db, b"k", b"v");
    assert_eq!(db.table_count(), 0);
    assert_eq!(db.get(b"k"), Ok(Probe::Answer(Some(b"v".to_vec()))));

    let mut dir = Dir::new();
    let mut db = dir.open().unwrap();
    db.set_flush_threshold_for_test(size - 1);
    dir.put(&mut db, b"k", b"v");
    assert_eq!(db.table_count(), 1);
    assert!(dir.log().is_empty());
    assert_eq!(dir.get(&db, b"k"), Some(b"v".to_vec()));
}

#[test]
fn a_zero_filled_log_is_refused_as_corrupt() {
    let mut dir = Dir::new();
    let mut db = dir.open().unwrap();
    dir.put(&mut db, b"a", b"1");
    let mut log = dir.log();
    log.extend_from_slice(&[0; 8]);
    dir.files.insert(wal_path().to_string(), log);
    assert!(matches!(dir.open(), Err(Error::Corruption(_))));
}

#[test]
fn a_reset_that_fails_loses_nothing_whether_it_was_done_or_not() {
    for done in [false, true] {
        let mut dir = Dir::new();
        let mut db = dir.open().unwrap();
        dir.put(&mut db, b"a", b"1");
        dir.put(&mut db, b"b", b"2");
        let mut action = db.flush().unwrap();
        while action != Action::ResetLog {
            let data = dir.perform(action);
            action = db.resume(data).unwrap();
        }
        let old = dir.log();
        if done {
            dir.perform(action);
        }
        assert_eq!(db.get(b"a"), Ok(Probe::Answer(Some(b"1".to_vec()))));
        let reopened = dir.clone().open().unwrap();
        assert_eq!(dir.get(&reopened, b"b"), Some(b"2".to_vec()));

        assert_eq!(db.put(b"c", b"3"), Ok(Action::ReadLog));
        let Action::AppendLog { at, bytes } = db.resume(dir.log()).unwrap() else { panic!() };
        assert_eq!(at, if done { 0 } else { old.len() as u64 });
        let mut log = dir.log();
        log.extend_from_slice(&bytes[..7]);
        dir.files.insert(wal_path().to_string(), log);
        let reopened = dir.clone().open().unwrap();
        assert_eq!(dir.get(&reopened, b"a"), Some(b"1".to_vec()));
        assert_eq!(dir.get(&reopened, b"c"), None);

        let first = db.put(b"c", b"3");
        assert!(matches!(first, Ok(Action::AppendLog { .. })));
        dir.run(&mut db, first);
        let kept = if done { 0 } else { old.len() };
        assert_eq!(dir.log().len(), kept + bytes.len());
        assert_eq!(dir.log()[..kept], old[..kept]);
        let db = dir.open().unwrap();
        for (k, v) in [(b"a", b"1"), (b"b", b"2"), (b"c", b"3")] {
            assert_eq!(dir.get(&db, k), Some(v.to_vec()));
        }
    }
}

#[test]
fn a_crash_after_a_failed_append_recovers_with_it_or_without() {
    let mut dir = Dir::new();
    let mut db = dir.open().unwrap();
    dir.put(&mut db, b"a", b"1");
    let action = db.put(b"a", b"failed").unwrap();
    dir.perform(action);
    assert_eq!(dir.get(&db, b"a"), Some(b"1".to_vec()));

    let mut action = db.flush().unwrap();
    while action != Action::Done {
        let mut crashed = dir.clone();
        let reopened = crashed.open().unwrap();
        assert_eq!(crashed.get(&reopened, b"a"), Some(b"failed".to_vec()));
        let data = dir.perform(action);
        action = db.resume(data).unwrap();
    }
    let mut crashed = dir.clone();
    let reopened = crashed.open().unwrap();
    assert_eq!(crashed.get(&reopened, b"a"), Some(b"1".to_vec()));
    assert_eq!(dir.get(&db, b"a"), Some(b"1".to_vec()));
}

#[test]
fn failures_and_crashes_at_random_keep_what_was_acknowledged() {
    let keys: Vec<Vec<u8>> = (0..5u8).map(|i| vec![b'a' + i]).collect();
    for seed in 0..40u64 {
        let mut random = Random(seed);
        let mut dir = Dir::new();
        let mut db = dir.open().unwrap();
        db.set_flush_threshold_for_test(90);
        let mut model: BTreeMap<Vec<u8>, Vec<u8>> = BTreeMap::new();
        let mut pending: Option<BTreeMap<Vec<u8>, Vec<u8>>> = None;
        for _ in 0..60 {
            let k = keys[random.next(5) as usize].clone();
            let v = random.value();
            let mut after = model.clone();
            let mut action = match random.next(5) {
                0 => {
                    after.remove(&k);
                    db.delete(&k).unwrap()
                }
                1 => db.compact().unwrap(),
                _ => {
                    after.insert(k.clone(), v.clone());
                    db.put(&k, &v).unwrap()
                }
            };
            while action != Action::Done {
                let appends = matches!(action, Action::AppendLog { .. });
                let resets = action == Action::ResetLog;
                if random.next(6) == 0 {
                    if random.next(2) == 0 {
                        dir.perform(action);
                        if appends {
                            pending = Some(after.clone());
                        } else if resets {
                            pending = None;
                        }
                    }
                    break;
                }
                let data = dir.perform(action);
                action = db.resume(data).unwrap();
                if appends {
                    model = after.clone();
                }
                if appends || resets {
                    pending = None;
                }
            }
            assert!(same(&dir, &db, &model, &keys));
            let mut crashed = dir.clone();
            let reopened = crashed.open().unwrap();
            assert!(same(&crashed, &reopened, pending.as_ref().unwrap_or(&model), &keys));
        }
    }
}

#[test]
fn flush_and_compaction_done_to_their_end() {
    let mut dir = Dir::new();
    let mut db = dir.open().unwrap();
    for i in 0..4u8 {
        dir.put(&mut db, b"k", &[i]);
        dir.put(&mut db, &[b'a' + i], b"v");
        let first = db.flush();
        dir.run(&mut db, first);
        assert_eq!(db.table_count(), 1 + i as usize);
        assert!(dir.log().is_empty());
    }
    dir.delete(&mut db, b"a");
    let first = db.flush();
    dir.run(&mut db, first);
    assert_eq!(db.table_count(), 1);
    assert_eq!(db.live_tables().len(), 1);
    assert_eq!(db.live_tables()[0].number, 6);
    assert_eq!(db.live_tables()[0].max_seq, 8);
    let tables: Vec<u64> = dir.files.keys().filter_map(|name| parse_sst_number(name)).collect();
    assert_eq!(tables, vec![6]);
    let Action::AppendLog { at, bytes } = db.put(b"z", b"z").unwrap() else { panic!() };
    assert_eq!(at, 0);
    assert_eq!(bytes[8..16], 10u64.to_le_bytes());
    assert_eq!(dir.get(&db, b"k"), Some(vec![3]));
    assert_eq!(dir.get(&db, b"a"), None);
}
