//! The database: routes all writes to the log first, flushes the memory table to a new table
//! when it is full, merges the tables when there are too many, and rebuilds its state from the
//! manifest, the tables and the log.
//!
//! The database decides; whoever holds it does the reading and writing. An operation hands
//! out one [`Action`] at a time and goes on, through [`Db::resume`], once that action is done
//! and durable. An operation whose action fails is dropped: the next one starts afresh.

use vstd::prelude::*;
use vstd::string::*;

use crate::bytes::copy_bytes;
use crate::compaction::{input_recs, joined, merge, merged, recs_of};
use crate::error::{Error, Fault};
use crate::files::{contains_number, listed};
use crate::keymap::in_order;
use crate::manifest::{manifest_text, Listing, Manifest, SstEntry};
use crate::memtable::{applied, applied_all, footprint, Cell, MemTable};
use crate::record::{fits, frame, recs, Kind, Rec, Record};
use crate::sstable::{block_of, highest_seq, max_seq, memtable_records, opened, scan_block, scanned,
    table_bytes, write_records, SSTable, Table};
use crate::wal::{replayed, whole_len, Wal};

verus! {

/// The memory table is flushed when it exceeds this many bytes.
pub const DEFAULT_FLUSH_THRESHOLD: usize = 1024;

/// The tables are merged when there are more than this many.
pub const COMPACTION_TRIGGER: usize = 4;

/// What is to be done next to the files of a database.
#[derive(Debug, PartialEq, Eq)]
pub enum Action {
    /// Cut the log to its first `at` bytes, append `bytes`, and make that durable.
    AppendLog { at: u64, bytes: Vec<u8> },
    /// Cut the log to nothing, durably.
    ResetLog,
    /// Read the whole log.
    ReadLog,
    /// Put a table with these bytes in place, atomically and durably, and read it back.
    WriteTable { number: u64, bytes: Vec<u8> },
    /// Put a manifest with this text in place, atomically and durably.
    WriteManifest { text: String },
    /// Read the first `len` bytes of a table.
    ReadTable { number: u64, len: u64 },
    /// Remove a table; it does not matter if that fails.
    RemoveTable { number: u64 },
    /// Nothing: the operation is complete.
    Done,
}

/// The value of an [`Action`].
pub enum Act {
    AppendLog { at: u64, bytes: Seq<u8> },
    ResetLog,
    ReadLog,
    WriteTable { number: u64, bytes: Seq<u8> },
    WriteManifest { text: Seq<char> },
    ReadTable { number: u64, len: u64 },
    RemoveTable { number: u64 },
    Done,
}

impl View for Action {
    type V = Act;

    open spec fn view(&self) -> Act {
        match self {
            Action::AppendLog { at, bytes } => Act::AppendLog { at: *at, bytes: bytes@ },
            Action::ResetLog => Act::ResetLog,
            Action::ReadLog => Act::ReadLog,
            Action::WriteTable { number, bytes } => Act::WriteTable {
                number: *number,
                bytes: bytes@,
            },
            Action::WriteManifest { text } => Act::WriteManifest { text: text@ },
            Action::ReadTable { number, len } => Act::ReadTable { number: *number, len: *len },
            Action::RemoveTable { number } => Act::RemoveTable { number: *number },
            Action::Done => Act::Done,
        }
    }
}

/// What an operation is waiting for.
enum Phase {
    Idle,
    /// The log is being read, to see whether it was emptied; the record goes there next.
    Checking(Record),
    /// The record is being appended to the log.
    Logging(Record),
    /// The table made of the memory table is being put in place.
    FlushTable,
    /// The manifest that lists it is being put in place.
    FlushManifest,
    /// The log is being emptied.
    FlushReset,
    /// The next table is being read; these are the records of the ones before it.
    CompactRead(Vec<Vec<Record>>),
    /// The merged table is being put in place; this is its highest sequence number.
    CompactTable(u64),
    /// The manifest that lists only the merged table is being put in place; these are the
    /// merged table and the numbers that were listed before.
    CompactManifest(SSTable, Vec<u64>),
    /// A table that was merged is being removed; these are still to be removed.
    Removing(Vec<u64>),
}

/// The value of a phase.
pub enum Step {
    Idle,
    Checking(Rec),
    Logging(Rec),
    FlushTable,
    FlushManifest,
    FlushReset,
    CompactRead(Seq<Seq<Rec>>),
    CompactTable(u64),
    CompactManifest(Table, Seq<u64>),
    Removing(Seq<u64>),
}

impl View for Phase {
    type V = Step;

    closed spec fn view(&self) -> Step {
        match self {
            Phase::Idle => Step::Idle,
            Phase::Checking(r) => Step::Checking(r@),
            Phase::Logging(r) => Step::Logging(r@),
            Phase::FlushTable => Step::FlushTable,
            Phase::FlushManifest => Step::FlushManifest,
            Phase::FlushReset => Step::FlushReset,
            Phase::CompactRead(inputs) => Step::CompactRead(input_recs(inputs@)),
            Phase::CompactTable(n) => Step::CompactTable(*n),
            Phase::CompactManifest(t, old) => Step::CompactManifest(t@, old@),
            Phase::Removing(rest) => Step::Removing(rest@),
        }
    }
}

/// The value of a [`Db`].
pub struct DbState {
    /// The newest state of each key that is not flushed yet.
    pub mem: Map<Seq<u8>, Cell>,
    /// The open tables, oldest first.
    pub tables: Seq<Table>,
    pub manifest: Listing,
    pub next_seq: u64,
    pub next_sst: u64,
    pub threshold: usize,
    /// How many bytes of the log are records.
    pub log_len: u64,
    /// The log may be empty all the same: a reset was asked for and not reported as done.
    pub unsure: bool,
    pub phase: Step,
}

/// `s` with no operation under way.
pub open spec fn idle(s: DbState) -> DbState {
    DbState { phase: Step::Idle, ..s }
}

/// `s` waiting in `phase` for `act`.
pub open spec fn wait(s: DbState, phase: Step, act: Act) -> (DbState, Result<Act, Fault>) {
    (DbState { phase, ..s }, Ok(act))
}

/// The operation under way in `s` is complete.
pub open spec fn done(s: DbState) -> (DbState, Result<Act, Fault>) {
    (idle(s), Ok(Act::Done))
}

/// The operation under way in `s` ends with a refusal.
pub open spec fn refused(s: DbState, f: Fault) -> (DbState, Result<Act, Fault>) {
    (idle(s), Err(f))
}

/// A write of the record `r` in `s` leaves a counter or a size without room.
pub open spec fn overflows(s: DbState, r: Rec) -> bool {
    ||| s.next_seq == u64::MAX
    ||| footprint(in_order(applied(s.mem, r))) > usize::MAX
    ||| s.log_len + frame(r).len() > u64::MAX
}

/// The record `r` goes behind the records of the log.
pub open spec fn append_on(s: DbState, r: Rec) -> (DbState, Result<Act, Fault>) {
    wait(s, Step::Logging(r), Act::AppendLog { at: s.log_len, bytes: frame(r) })
}

/// A write begins: the record gets the next sequence number and goes to the log, unless it is
/// too long to be read back. Where the log may have been emptied, it is looked at first.
pub open spec fn begin_write(s: DbState, kind: Kind, key: Seq<u8>, value: Seq<u8>) -> (
    DbState,
    Result<Act, Fault>,
) {
    let r = Rec { seq: s.next_seq, kind, key, value };
    if !fits(r) {
        refused(s, Fault::RecordTooLong)
    } else if overflows(s, r) {
        refused(s, Fault::Overflow)
    } else if s.unsure {
        wait(s, Step::Checking(r), Act::ReadLog)
    } else {
        append_on(s, r)
    }
}

/// The log was read, and has the bytes `log`: if there are fewer than those of its records, it
/// was emptied.
pub open spec fn log_checked(s: DbState, r: Rec, log: Seq<u8>) -> (DbState, Result<Act, Fault>) {
    let log_len = if log.len() < s.log_len {
        0
    } else {
        s.log_len
    };
    append_on(DbState { log_len, unsure: false, ..s }, r)
}

/// A flush begins: what the memory table holds goes to a new table.
pub open spec fn begin_flush(s: DbState) -> (DbState, Result<Act, Fault>) {
    if s.mem == Map::<Seq<u8>, Cell>::empty() {
        done(s)
    } else if s.next_sst == u64::MAX {
        refused(s, Fault::Overflow)
    } else {
        wait(
            s,
            Step::FlushTable,
            Act::WriteTable {
                number: s.next_sst,
                bytes: table_bytes(recs_of(in_order(s.mem))),
            },
        )
    }
}

/// The next table is read, or, when all are, the merged table is written.
pub open spec fn read_on(s: DbState, inputs: Seq<Seq<Rec>>) -> (DbState, Result<Act, Fault>) {
    if inputs.len() < s.tables.len() {
        let t = s.tables[inputs.len() as int];
        wait(
            s,
            Step::CompactRead(inputs),
            Act::ReadTable { number: t.number, len: t.index_offset },
        )
    } else if s.next_sst == u64::MAX {
        refused(s, Fault::Overflow)
    } else {
        let rs = merged(joined(inputs), true);
        wait(
            s,
            Step::CompactTable(highest_seq(rs)),
            Act::WriteTable { number: s.next_sst, bytes: table_bytes(rs) },
        )
    }
}

/// A merge of all tables begins, if there are at least two.
pub open spec fn begin_compact(s: DbState) -> (DbState, Result<Act, Fault>) {
    if s.tables.len() < 2 {
        done(s)
    } else {
        read_on(s, Seq::empty())
    }
}

/// The next of the tables `rest` is removed.
pub open spec fn remove_on(s: DbState, rest: Seq<u64>) -> (DbState, Result<Act, Fault>) {
    if rest.len() == 0 {
        done(s)
    } else {
        wait(s, Step::Removing(rest.drop_first()), Act::RemoveTable { number: rest[0] })
    }
}

/// The database `s` once the record `r` is logged and applied.
pub open spec fn after_write(s: DbState, r: Rec) -> DbState {
    DbState {
        mem: applied(s.mem, r),
        next_seq: (s.next_seq + 1) as u64,
        log_len: (s.log_len + frame(r).len()) as u64,
        phase: Step::Idle,
        ..s
    }
}

/// The record `r` is in the log: it is applied, and the memory table is flushed if it is full.
pub open spec fn logged(s: DbState, r: Rec) -> (DbState, Result<Act, Fault>) {
    let s2 = after_write(s, r);
    if footprint(in_order(s2.mem)) > s2.threshold {
        begin_flush(s2)
    } else {
        done(s2)
    }
}

/// The flushed table is in place, with the contents `file`: it is opened and listed.
pub open spec fn flushed_table(s: DbState, file: Seq<u8>) -> (DbState, Result<Act, Fault>) {
    match opened(s.next_sst, file) {
        Err(f) => refused(s, f),
        Ok(t) => {
            let next_sst = (s.next_sst + 1) as u64;
            let manifest = Listing {
                next_seq: s.next_seq,
                next_sst,
                ssts: s.manifest.ssts.push(
                    SstEntry {
                        number: s.next_sst,
                        max_seq: highest_seq(recs_of(in_order(s.mem))),
                    },
                ),
            };
            wait(
                DbState { tables: s.tables.push(t), next_sst, manifest, ..s },
                Step::FlushManifest,
                Act::WriteManifest { text: manifest_text(manifest) },
            )
        },
    }
}

/// The log is empty: so is the memory table, and the tables are merged if there are too many.
pub open spec fn log_reset(s: DbState) -> (DbState, Result<Act, Fault>) {
    let s2 = DbState { mem: Map::empty(), log_len: 0, unsure: false, ..s };
    if s2.tables.len() > COMPACTION_TRIGGER {
        begin_compact(s2)
    } else {
        done(s2)
    }
}

/// The table numbers that a manifest lists.
pub open spec fn numbers(ssts: Seq<SstEntry>) -> Seq<u64> {
    ssts.map_values(|e: SstEntry| e.number)
}

/// The merged table is in place, with the contents `file`: it is opened and alone listed.
pub open spec fn merged_table(s: DbState, max: u64, file: Seq<u8>) -> (DbState, Result<Act, Fault>) {
    match opened(s.next_sst, file) {
        Err(f) => refused(s, f),
        Ok(t) => {
            let next_sst = (s.next_sst + 1) as u64;
            let manifest = Listing {
                next_seq: s.next_seq,
                next_sst,
                ssts: seq![SstEntry { number: s.next_sst, max_seq: max }],
            };
            wait(
                DbState { next_sst, manifest, ..s },
                Step::CompactManifest(t, numbers(s.manifest.ssts)),
                Act::WriteManifest { text: manifest_text(manifest) },
            )
        },
    }
}

/// The operation under way in `s` goes on: its action is done, and `data` is what was read.
pub open spec fn resumed(s: DbState, data: Seq<u8>) -> (DbState, Result<Act, Fault>) {
    match s.phase {
        Step::Idle => done(s),
        Step::Checking(r) => log_checked(s, r, data),
        Step::Logging(r) => logged(s, r),
        Step::FlushTable => flushed_table(s, data),
        Step::FlushManifest => wait(
            DbState { unsure: true, ..s },
            Step::FlushReset,
            Act::ResetLog,
        ),
        Step::FlushReset => log_reset(s),
        Step::CompactRead(inputs) => match replayed(data) {
            Err(f) => refused(s, f),
            Ok(rs) => read_on(s, inputs.push(rs)),
        },
        Step::CompactTable(max) => merged_table(s, max, data),
        Step::CompactManifest(t, old) => remove_on(DbState { tables: seq![t], ..s }, old),
        Step::Removing(rest) => remove_on(s, rest),
    }
}

/// The next sequence number after the records `rs`, where it was `n` before them.
pub open spec fn seq_after(n: u64, rs: Seq<Rec>) -> int
    decreases rs.len(),
{
    if rs.len() == 0 {
        n as int
    } else {
        let m = seq_after(n, rs.drop_last());
        if m <= rs.last().seq {
            rs.last().seq + 1
        } else {
            m
        }
    }
}

/// Replaying the records `rs` leaves no size without room.
pub open spec fn replay_fits(rs: Seq<Rec>) -> bool {
    forall|n: int|
        0 <= n <= rs.len() ==> footprint(in_order(applied_all(Map::empty(), #[trigger] rs.take(n))))
            <= usize::MAX
}

/// The database with this manifest and these tables, which are the ones it lists, once the log
/// is replayed on top.
pub open spec fn reopened(manifest: Listing, tables: Seq<Table>, log: Seq<u8>) -> Result<
    DbState,
    Fault,
> {
    match replayed(log) {
        Err(f) => Err(f),
        Ok(rs) => if seq_after(manifest.next_seq, rs) > u64::MAX || !replay_fits(rs) {
            Err(Fault::Overflow)
        } else {
            Ok(
                DbState {
                    mem: applied_all(Map::empty(), rs),
                    tables,
                    manifest,
                    next_seq: seq_after(manifest.next_seq, rs) as u64,
                    next_sst: manifest.next_sst,
                    threshold: DEFAULT_FLUSH_THRESHOLD,
                    log_len: whole_len(log) as u64,
                    unsure: false,
                    phase: Step::Idle,
                },
            )
        },
    }
}

/// The outcome of an operation: what is to be done next, or a refusal.
pub open spec fn comes_to(res: Result<Action, Error>, out: Result<Act, Fault>) -> bool {
    match (res, out) {
        (Ok(a), Ok(v)) => a@ == v,
        (Err(e), Err(f)) => e@ == f,
        _ => false,
    }
}

/// What is known of a key on the way to its value.
#[derive(Debug, PartialEq, Eq)]
pub enum Probe {
    /// The value; none where the key has none.
    Answer(Option<Vec<u8>>),
    /// These bytes of a table are to be read: from `start` up to `end`.
    Read { table: usize, number: u64, start: u64, end: u64 },
}

/// The value of a [`Probe`].
pub enum Lead {
    Answer(Option<Seq<u8>>),
    Read { table: nat, number: u64, start: u64, end: u64 },
}

impl View for Probe {
    type V = Lead;

    open spec fn view(&self) -> Lead {
        match self {
            Probe::Answer(Some(v)) => Lead::Answer(Some(v@)),
            Probe::Answer(None) => Lead::Answer(None),
            Probe::Read { table, number, start, end } => Lead::Read {
                table: *table as nat,
                number: *number,
                start: *start,
                end: *end,
            },
        }
    }
}

/// The value that a record of this kind shows.
pub open spec fn shown(kind: Kind, value: Seq<u8>) -> Option<Seq<u8>> {
    match kind {
        Kind::Put => Some(value),
        Kind::Tombstone => None,
    }
}

/// Where to look for `key` among the `n` oldest of `tables`, the newest first.
pub open spec fn probe(tables: Seq<Table>, key: Seq<u8>, n: nat) -> Result<Lead, Fault>
    decreases n,
{
    if n == 0 {
        Ok(Lead::Answer(None))
    } else {
        let t = tables[n - 1];
        match block_of(t, key) {
            Err(f) => Err(f),
            Ok(None) => probe(tables, key, (n - 1) as nat),
            Ok(Some((start, end))) => Ok(
                Lead::Read { table: (n - 1) as nat, number: t.number, start, end },
            ),
        }
    }
}

/// How a read of `key` begins: with what the memory table says, else with the tables.
pub open spec fn begin_get(s: DbState, key: Seq<u8>) -> Result<Lead, Fault> {
    if s.mem.contains_key(key) {
        Ok(Lead::Answer(shown(s.mem[key].kind, s.mem[key].value)))
    } else {
        probe(s.tables, key, s.tables.len())
    }
}

/// How a read of `key` goes on once the block `block` of the table at `at` is read.
pub open spec fn get_on(s: DbState, key: Seq<u8>, at: nat, block: Seq<u8>) -> Result<Lead, Fault> {
    match scanned(block, key) {
        Err(f) => Err(f),
        Ok(Some(r)) => Ok(Lead::Answer(shown(r.kind, r.value))),
        Ok(None) => probe(s.tables, key, at),
    }
}

/// The outcome of a read so far.
pub open spec fn leads_to(res: Result<Probe, Error>, out: Result<Lead, Fault>) -> bool {
    match (res, out) {
        (Ok(p), Ok(v)) => p@ == v,
        (Err(e), Err(f)) => e@ == f,
        _ => false,
    }
}

/// A log-structured key-value database.
pub struct Db {
    memtable: MemTable,
    sstables: Vec<SSTable>,
    manifest: Manifest,
    next_seq: u64,
    next_sst_number: u64,
    flush_threshold: usize,
    wal: Wal,
    /// The log may be empty all the same: a reset was asked for and not reported as done.
    unsure: bool,
    phase: Phase,
}

impl View for Db {
    type V = DbState;

    closed spec fn view(&self) -> DbState {
        DbState {
            mem: self.memtable@,
            tables: self.sstables@.map_values(|t: SSTable| t@),
            manifest: self.manifest@,
            next_seq: self.next_seq,
            next_sst: self.next_sst_number,
            threshold: self.flush_threshold,
            log_len: self.wal@,
            unsure: self.unsure,
            phase: self.phase@,
        }
    }
}

/// The operation under way in `s` has room to go on.
pub open spec fn has_room(s: DbState) -> bool {
    match s.phase {
        Step::Checking(r) => fits(r) && !overflows(s, r),
        Step::Logging(r) => fits(r) && !overflows(s, r),
        Step::FlushTable => s.next_sst < u64::MAX,
        Step::CompactRead(inputs) => inputs.len() < s.tables.len(),
        Step::CompactTable(_) => s.next_sst < u64::MAX,
        _ => true,
    }
}

impl Db {
    /// The memory table is in order, and the operation under way has room to go on.
    pub closed spec fn wf(&self) -> bool {
        &&& self.memtable.wf()
        &&& has_room(self@)
    }

    /// Opens a database: replays the log on top of the tables that the manifest lists, oldest
    /// first. Files that it does not list play no part.
    pub fn open(manifest: Manifest, sstables: Vec<SSTable>, log: Vec<u8>) -> (res: Result<
        Db,
        Error,
    >)
        requires
            sstables@.map_values(|t: SSTable| t@.number) == numbers(manifest@.ssts),
        ensures
            match (res, reopened(manifest@, sstables@.map_values(|t: SSTable| t@), log@)) {
                (Ok(db), Ok(s)) => db@ == s && db.wf(),
                (Err(e), Err(f)) => e@ == f,
                _ => false,
            },
    {
        let ghost bytes = log@;
        let (records, wal) = match Wal::replay(log) {
            Ok(found) => found,
            Err(e) => return Err(e),
        };
        let ghost rs = recs(records@);
        let ghost first = manifest@.next_seq;
        let mut next_seq: u64 = manifest.next_seq;
        let mut memtable = MemTable::new();
        proof {
            assert(rs.take(0) =~= Seq::empty());
            lemma_empty_footprint();
        }
        for record in it: records
            invariant
                rs == recs(it.seq()),
                rs == recs(records@),
                replayed(bytes) == Ok::<Seq<Rec>, Fault>(rs),
                bytes == log@,
                first == manifest@.next_seq,
                memtable.wf(),
                memtable@ == applied_all(Map::empty(), rs.take(it.index())),
                next_seq == seq_after(first, rs.take(it.index())),
                forall|n: int|
                    0 <= n <= it.index() ==> footprint(
                        in_order(applied_all(Map::empty(), #[trigger] rs.take(n))),
                    ) <= usize::MAX,
        {
            let ghost now = rs.take(it.index() + 1);
            proof {
                assert(now.drop_last() =~= rs.take(it.index()));
                assert(now.last() == record@);
                lemma_seq_after_grows(first, rs, it.index() + 1);
            }
            if record.seq == u64::MAX {
                return Err(Error::Overflow);
            }
            if !memtable.can_apply(&record) {
                assert(footprint(in_order(applied_all(Map::empty(), now))) > usize::MAX);
                return Err(Error::Overflow);
            }
            if next_seq <= record.seq {
                next_seq = record.seq + 1;
            }
            memtable.apply(record);
        }
        assert(rs.take(rs.len() as int) =~= rs);
        let db = Db {
            memtable,
            sstables,
            next_sst_number: manifest.next_sst,
            manifest,
            next_seq,
            flush_threshold: DEFAULT_FLUSH_THRESHOLD,
            wal,
            unsure: false,
            phase: Phase::Idle,
        };
        Ok(db)
    }

    /// Begins to give `key` the value `value`.
    pub fn put(&mut self, key: &[u8], value: &[u8]) -> (res: Result<Action, Error>)
        requires
            old(self).wf(),
        ensures
            final(self).wf(),
            final(self)@ == begin_write(old(self)@, Kind::Put, key@, value@).0,
            comes_to(res, begin_write(old(self)@, Kind::Put, key@, value@).1),
    {
        self.write(Kind::Put, key, copy_bytes(value))
    }

    /// Begins to delete `key`.
    pub fn delete(&mut self, key: &[u8]) -> (res: Result<Action, Error>)
        requires
            old(self).wf(),
        ensures
            final(self).wf(),
            final(self)@ == begin_write(old(self)@, Kind::Tombstone, key@, Seq::empty()).0,
            comes_to(res, begin_write(old(self)@, Kind::Tombstone, key@, Seq::empty()).1),
    {
        let none: Vec<u8> = Vec::new();
        self.write(Kind::Tombstone, key, none)
    }

    /// Begins a write: the record gets the next sequence number and goes to the log.
    fn write(&mut self, kind: Kind, key: &[u8], value: Vec<u8>) -> (res: Result<Action, Error>)
        requires
            old(self).wf(),
        ensures
            final(self).wf(),
            final(self)@ == begin_write(old(self)@, kind, key@, value@).0,
            comes_to(res, begin_write(old(self)@, kind, key@, value@).1),
    {
        let record = Record { seq: self.next_seq, kind, key: copy_bytes(key), value };
        assert(record@ =~= Rec { seq: self.next_seq, kind, key: key@, value: value@ });
        self.phase = Phase::Idle;
        if !record.is_short_enough() {
            return Err(Error::RecordTooLong);
        }
        if self.next_seq == u64::MAX || !self.memtable.can_apply(&record) {
            return Err(Error::Overflow);
        }
        if self.unsure {
            if !self.wal.has_room(&record) {
                return Err(Error::Overflow);
            }
            self.phase = Phase::Checking(record);
            return Ok(Action::ReadLog);
        }
        self.append_next(record)
    }

    /// Has `record` appended to the log, if that has room for it.
    fn append_next(&mut self, record: Record) -> (res: Result<Action, Error>)
        requires
            old(self).wf(),
            old(self)@.phase == Step::Idle,
            fits(record@),
            old(self)@.next_seq < u64::MAX,
            footprint(in_order(applied(old(self)@.mem, record@))) <= usize::MAX,
        ensures
            final(self).wf(),
            ({
                let out = if overflows(old(self)@, record@) {
                    refused(old(self)@, Fault::Overflow)
                } else {
                    append_on(old(self)@, record@)
                };
                final(self)@ == out.0 && comes_to(res, out.1)
            }),
    {
        match self.wal.append(&record) {
            None => Err(Error::Overflow),
            Some(bytes) => {
                self.phase = Phase::Logging(record);
                Ok(Action::AppendLog { at: self.wal.end(), bytes })
            },
        }
    }

    /// Begins to flush the memory table to a new table.
    pub fn flush(&mut self) -> (res: Result<Action, Error>)
        requires
            old(self).wf(),
        ensures
            final(self).wf(),
            final(self)@ == begin_flush(old(self)@).0,
            comes_to(res, begin_flush(old(self)@).1),
    {
        self.phase = Phase::Idle;
        if self.memtable.is_empty() {
            return Ok(Action::Done);
        }
        if self.next_sst_number == u64::MAX {
            return Err(Error::Overflow);
        }
        let bytes = crate::sstable::write_from_memtable(&self.memtable);
        self.phase = Phase::FlushTable;
        Ok(Action::WriteTable { number: self.next_sst_number, bytes })
    }

    /// Begins to merge all tables into one.
    pub fn compact(&mut self) -> (res: Result<Action, Error>)
        requires
            old(self).wf(),
        ensures
            final(self).wf(),
            final(self)@ == begin_compact(old(self)@).0,
            comes_to(res, begin_compact(old(self)@).1),
    {
        self.phase = Phase::Idle;
        if self.sstables.len() < 2 {
            return Ok(Action::Done);
        }
        let inputs: Vec<Vec<Record>> = Vec::new();
        assert(input_recs(inputs@) =~= Seq::empty());
        self.read_next(inputs)
    }

    /// Has the next table read, or, when all are, the merged table written.
    fn read_next(&mut self, inputs: Vec<Vec<Record>>) -> (res: Result<Action, Error>)
        requires
            old(self).wf(),
            old(self)@.phase == Step::Idle,
        ensures
            final(self).wf(),
            final(self)@ == read_on(old(self)@, input_recs(inputs@)).0,
            comes_to(res, read_on(old(self)@, input_recs(inputs@)).1),
    {
        let n: usize = inputs.len();
        if n < self.sstables.len() {
            let number: u64 = self.sstables[n].number();
            let len: u64 = self.sstables[n].index_offset();
            self.phase = Phase::CompactRead(inputs);
            return Ok(Action::ReadTable { number, len });
        }
        if self.next_sst_number == u64::MAX {
            return Err(Error::Overflow);
        }
        let records = merge(inputs, true);
        let bytes = write_records(records.as_slice());
        self.phase = Phase::CompactTable(max_seq(records.as_slice()));
        Ok(Action::WriteTable { number: self.next_sst_number, bytes })
    }

    /// Has the next of the tables `rest` removed.
    fn remove_next(&mut self, rest: Vec<u64>) -> (action: Action)
        requires
            old(self).wf(),
            old(self)@.phase == Step::Idle,
        ensures
            final(self).wf(),
            final(self)@ == remove_on(old(self)@, rest@).0,
            Ok::<Act, Fault>(action@) == remove_on(old(self)@, rest@).1,
    {
        if rest.len() == 0 {
            return Action::Done;
        }
        let ghost all = rest@;
        let mut rest = rest;
        let number: u64 = rest.remove(0);
        assert(rest@ =~= all.drop_first());
        self.phase = Phase::Removing(rest);
        Action::RemoveTable { number }
    }

    /// Lists one more table, or only that one.
    fn list(&mut self, entry: SstEntry, alone: bool) -> (text: String)
        requires
            old(self).wf(),
            old(self)@.phase == Step::Idle,
            old(self)@.next_sst < u64::MAX,
        ensures
            final(self).wf(),
            ({
                let next_sst = (old(self)@.next_sst + 1) as u64;
                let manifest = Listing {
                    next_seq: old(self)@.next_seq,
                    next_sst,
                    ssts: if alone {
                        seq![entry]
                    } else {
                        old(self)@.manifest.ssts.push(entry)
                    },
                };
                &&& final(self)@ == DbState { next_sst, manifest, ..old(self)@ }
                &&& text@ == manifest_text(manifest)
            }),
    {
        self.next_sst_number = self.next_sst_number + 1;
        if alone {
            self.manifest.ssts = Vec::new();
        }
        self.manifest.ssts.push(entry);
        self.manifest.next_sst = self.next_sst_number;
        self.manifest.next_seq = self.next_seq;
        assert(alone ==> self.manifest.ssts@ =~= seq![entry]);
        self.manifest.encode()
    }

    /// Goes on with the operation under way: its action is done, and `data` is what was read.
    pub fn resume(&mut self, data: Vec<u8>) -> (res: Result<Action, Error>)
        requires
            old(self).wf(),
        ensures
            final(self).wf(),
            final(self)@ == resumed(old(self)@, data@).0,
            comes_to(res, resumed(old(self)@, data@).1),
    {
        let mut phase = Phase::Idle;
        std::mem::swap(&mut self.phase, &mut phase);
        match phase {
            Phase::Idle => Ok(Action::Done),
            Phase::Checking(record) => {
                if (data.len() as u64) < self.wal.end() {
                    self.wal = Wal::new();
                }
                self.unsure = false;
                self.append_next(record)
            },
            Phase::Logging(record) => {
                self.wal.appended(&record);
                self.memtable.apply(record);
                self.next_seq = self.next_seq + 1;
                if self.memtable.approx_size_bytes() > self.flush_threshold {
                    self.flush()
                } else {
                    Ok(Action::Done)
                }
            },
            Phase::FlushTable => {
                let number: u64 = self.next_sst_number;
                let sst = match SSTable::open(number, data.as_slice()) {
                    Ok(sst) => sst,
                    Err(e) => return Err(e),
                };
                let max_seq: u64 = max_seq(memtable_records(&self.memtable).as_slice());
                let ghost before = self@.tables;
                self.sstables.push(sst);
                assert(self@.tables =~= before.push(sst@));
                let text = self.list(SstEntry { number, max_seq }, false);
                self.phase = Phase::FlushManifest;
                Ok(Action::WriteManifest { text })
            },
            Phase::FlushManifest => {
                self.unsure = true;
                self.phase = Phase::FlushReset;
                Ok(Action::ResetLog)
            },
            Phase::FlushReset => {
                self.memtable = MemTable::new();
                self.wal = Wal::new();
                self.unsure = false;
                if self.sstables.len() > COMPACTION_TRIGGER {
                    self.compact()
                } else {
                    Ok(Action::Done)
                }
            },
            Phase::CompactRead(mut inputs) => {
                let ghost before = input_recs(inputs@);
                match Wal::replay(data) {
                    Err(e) => Err(e),
                    Ok((records, _)) => {
                        inputs.push(records);
                        assert(input_recs(inputs@) =~= before.push(recs(records@)));
                        self.read_next(inputs)
                    },
                }
            },
            Phase::CompactTable(max_seq) => {
                let number: u64 = self.next_sst_number;
                let sst = match SSTable::open(number, data.as_slice()) {
                    Ok(sst) => sst,
                    Err(e) => return Err(e),
                };
                let mut old: Vec<u64> = Vec::new();
                let mut i: usize = 0;
                let ghost listed = self.manifest.ssts@;
                while i < self.manifest.ssts.len()
                    invariant
                        i <= listed.len(),
                        listed == self.manifest.ssts@,
                        old@ == numbers(listed).take(i as int),
                    decreases listed.len() - i,
                {
                    old.push(self.manifest.ssts[i].number);
                    i = i + 1;
                    assert(old@ =~= numbers(listed).take(i as int));
                }
                assert(old@ =~= numbers(listed));
                let text = self.list(SstEntry { number, max_seq }, true);
                self.phase = Phase::CompactManifest(sst, old);
                Ok(Action::WriteManifest { text })
            },
            Phase::CompactManifest(sst, old) => {
                let mut sstables: Vec<SSTable> = Vec::new();
                sstables.push(sst);
                self.sstables = sstables;
                assert(self@.tables =~= seq![sst@]);
                Ok(self.remove_next(old))
            },
            Phase::Removing(rest) => Ok(self.remove_next(rest)),
        }
    }

    /// Begins to read `key`.
    pub fn get(&self, key: &[u8]) -> (res: Result<Probe, Error>)
        requires
            self.wf(),
        ensures
            leads_to(res, begin_get(self@, key@)),
    {
        match self.memtable.lookup(key) {
            Some((kind, value)) => match kind {
                Kind::Put => Ok(Probe::Answer(Some(value))),
                Kind::Tombstone => Ok(Probe::Answer(None)),
            },
            None => self.probe_tables(key, self.sstables.len()),
        }
    }

    /// Goes on with a read of `key`: `block` is what was read of the table at `table`.
    pub fn resume_get(&self, key: &[u8], table: usize, block: Vec<u8>) -> (res: Result<
        Probe,
        Error,
    >)
        requires
            self.wf(),
            table <= self@.tables.len(),
        ensures
            leads_to(res, get_on(self@, key@, table as nat, block@)),
    {
        match scan_block(block, key) {
            Err(e) => Err(e),
            Ok(Some(record)) => match record.kind {
                Kind::Put => Ok(Probe::Answer(Some(record.value))),
                Kind::Tombstone => Ok(Probe::Answer(None)),
            },
            Ok(None) => self.probe_tables(key, table),
        }
    }

    /// Looks for `key` among the `n` oldest tables, the newest first.
    fn probe_tables(&self, key: &[u8], n: usize) -> (res: Result<Probe, Error>)
        requires
            n <= self@.tables.len(),
        ensures
            leads_to(res, probe(self@.tables, key@, n as nat)),
    {
        let mut i: usize = n;
        while i > 0
            invariant
                i <= n <= self@.tables.len(),
                probe(self@.tables, key@, i as nat) == probe(self@.tables, key@, n as nat),
            decreases i,
        {
            let sst = &self.sstables[i - 1];
            assert(sst@ == self@.tables[i - 1]);
            match sst.block_range(key) {
                Err(e) => return Err(e),
                Ok(Some((start, end))) => {
                    return Ok(Probe::Read { table: i - 1, number: sst.number(), start, end });
                },
                Ok(None) => {},
            }
            i = i - 1;
        }
        Ok(Probe::Answer(None))
    }

    /// How many tables are open.
    pub fn table_count(&self) -> (n: usize)
        ensures
            n == self@.tables.len(),
    {
        self.sstables.len()
    }

    /// The tables that the manifest lists.
    pub fn live_tables(&self) -> (ssts: &[SstEntry])
        ensures
            ssts@ == self@.manifest.ssts,
    {
        self.manifest.ssts.as_slice()
    }

    /// Whether the manifest lists the table `num`.
    pub fn sstables_contains_number(&self, num: u64) -> (b: bool)
        ensures
            b == listed(self@.manifest.ssts, num),
    {
        contains_number(self.manifest.ssts.as_slice(), num)
    }

    /// Sets how many bytes the memory table may hold before it is flushed.
    pub fn set_flush_threshold_for_test(&mut self, bytes: usize)
        requires
            old(self).wf(),
        ensures
            final(self).wf(),
            final(self)@ == (DbState { threshold: bytes, ..old(self)@ }),
    {
        self.flush_threshold = bytes;
    }
}

/// Nothing takes no room.
pub proof fn lemma_empty_footprint()
    ensures
        footprint(in_order(Map::<Seq<u8>, Cell>::empty())) == 0,
{
    let none = Seq::<(Seq<u8>, Cell)>::empty();
    crate::keymap::lemma_in_order(none);
    assert(crate::keymap::as_map(none) =~= Map::<Seq<u8>, Cell>::empty());
}

/// The next sequence number after some records is no more than after them and more.
pub proof fn lemma_seq_after_grows(n: u64, rs: Seq<Rec>, i: int)
    requires
        0 <= i <= rs.len(),
    ensures
        seq_after(n, rs.take(i)) <= seq_after(n, rs),
    decreases rs.len(),
{
    if i == rs.len() {
        assert(rs.take(i) =~= rs);
    } else {
        lemma_seq_after_grows(n, rs.drop_last(), i);
        assert(rs.drop_last().take(i) =~= rs.take(i));
    }
}

/// What an action stands for: the same action, with all its fields.
pub proof fn what_actions_stand_for(a: Action)
    ensures
        match a {
            Action::AppendLog { at, bytes } => a@ == (Act::AppendLog { at, bytes: bytes@ }),
            Action::ResetLog => a@ == Act::ResetLog,
            Action::ReadLog => a@ == Act::ReadLog,
            Action::WriteTable { number, bytes } => a@ == (Act::WriteTable { number, bytes: bytes@ }),
            Action::WriteManifest { text } => a@ == (Act::WriteManifest { text: text@ }),
            Action::ReadTable { number, len } => a@ == (Act::ReadTable { number, len }),
            Action::RemoveTable { number } => a@ == (Act::RemoveTable { number }),
            Action::Done => a@ == Act::Done,
        },
{
}

/// What a lead of a read stands for: the same answer, or the same bytes to read.
pub proof fn what_leads_stand_for(p: Probe)
    ensures
        match p {
            Probe::Answer(Some(v)) => p@ == Lead::Answer(Some(v@)),
            Probe::Answer(None) => p@ == Lead::Answer(None),
            Probe::Read { table, number, start, end } => p@ == (Lead::Read {
                table: table as nat,
                number,
                start,
                end,
            }),
        },
{
}

/// What an operation and a read come to: the action or the lead that is due, or the same
/// refusal.
pub proof fn what_operations_come_to(
    res: Result<Action, Error>,
    out: Result<Act, Fault>,
    found: Result<Probe, Error>,
    due: Result<Lead, Fault>,
)
    ensures
        comes_to(res, out) <==> match res {
            Ok(a) => out == Ok::<Act, Fault>(a@),
            Err(e) => out == Err::<Act, Fault>(e@),
        },
        leads_to(found, due) <==> match found {
            Ok(p) => due == Ok::<Lead, Fault>(p@),
            Err(e) => due == Err::<Lead, Fault>(e@),
        },
{
}

} // verus!
