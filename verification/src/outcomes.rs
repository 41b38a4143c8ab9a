//! What the operations of a database come to, spelled out field by field.

use vstd::prelude::*;

use crate::compaction::{joined, merged, recs_of};
use crate::db::{after_write, begin_compact, begin_flush, begin_get, begin_write, get_on, numbers,
    probe, reopened, resumed, seq_after, Act, DbState, Lead, Step};
use crate::error::Fault;
use crate::keymap::{in_order, lemma_place};
use crate::layers::lemma_insert_ordered;
use crate::manifest::{manifest_text, stored_manifest, Listing};
use crate::memtable::{applied, applied_all, footprint, size_is_the_sum_of_all_lengths, Cell};
use crate::record::{frame, lemma_frame, Kind, Rec};
use crate::recovery::{agrees, answered, compaction_leaves_one_table, consistent, finish,
    flush_moves_memory_to_a_table, flushed, followed, lemma_step_append, log_at, open_numbers,
    opened_all, operated, operation_matches_model, performed, recovers, restart, restart_recovers,
    stack, sure, tables_stay_few, write_begins, write_then_flush, written, Disk, Op};
use crate::sstable::{block_of, highest_seq, lemma_highest_seq, opened, scanned, table_bytes, Table};
use crate::wal::{replayed, whole_len};

verus! {

/// The next sequence number after records is the one before them or one past one of them.
proof fn lemma_seq_source(n: u64, rs: Seq<Rec>)
    ensures
        n <= seq_after(n, rs),
        forall|i: int| 0 <= i < rs.len() ==> #[trigger] rs[i].seq < seq_after(n, rs),
        seq_after(n, rs) == n || exists|i: int|
            0 <= i < rs.len() && #[trigger] rs[i].seq + 1 == seq_after(n, rs),
    decreases rs.len(),
{
    if rs.len() > 0 {
        let front = rs.drop_last();
        let last = rs.len() - 1;
        lemma_seq_source(n, front);
        assert forall|i: int| 0 <= i < rs.len() implies #[trigger] rs[i].seq < seq_after(n, rs) by {
            if i < last {
                assert(front[i].seq < seq_after(n, front));
            }
        }
        if seq_after(n, front) <= rs[last].seq {
            assert(rs[last].seq + 1 == seq_after(n, rs));
        } else if seq_after(n, front) != n {
            let i = choose|i: int| 0 <= i < front.len() && #[trigger] front[i].seq + 1 == seq_after(
                n,
                front,
            );
            assert(rs[i].seq + 1 == seq_after(n, rs));
        }
    }
}

/// A database is opened with what its manifest and its log say: it flushes past 1024 bytes,
/// counts on from the manifest or from the newest record of the log, and holds the newest record
/// of each key of the log. A log that is refused refuses it; else it is refused only where a
/// counter or a size has no room.
pub proof fn how_a_database_opens(manifest: Listing, tables: Seq<Table>, log: Seq<u8>)
    ensures
        match (replayed(log), reopened(manifest, tables, log)) {
            (Err(f), out) => out == Err::<DbState, Fault>(f),
            (Ok(rs), Ok(s)) => {
                &&& s.threshold == 1024
                &&& s.tables == tables
                &&& s.manifest == manifest
                &&& s.next_sst == manifest.next_sst
                &&& s.mem == applied_all(Map::empty(), rs)
                &&& manifest.next_seq <= s.next_seq
                &&& forall|i: int| 0 <= i < rs.len() ==> #[trigger] rs[i].seq < s.next_seq
                &&& s.next_seq == manifest.next_seq || exists|i: int|
                    0 <= i < rs.len() && #[trigger] rs[i].seq + 1 == s.next_seq
                &&& s.log_len == whole_len(log) as u64
                &&& !s.unsure
                &&& s.phase == Step::Idle
            },
            (Ok(rs), Err(f)) => f == Fault::Overflow && {
                ||| exists|i: int| 0 <= i < rs.len() && #[trigger] rs[i].seq == u64::MAX
                ||| exists|n: int|
                    0 <= n <= rs.len() && footprint(
                        in_order(applied_all(Map::empty(), #[trigger] rs.take(n))),
                    ) > usize::MAX
            },
        },
{
    if let Ok(rs) = replayed(log) {
        lemma_seq_source(manifest.next_seq, rs);
        if seq_after(manifest.next_seq, rs) > u64::MAX {
            let i = choose|i: int|
                0 <= i < rs.len() && #[trigger] rs[i].seq + 1 == seq_after(manifest.next_seq, rs);
            assert(rs[i].seq == u64::MAX);
        }
    }
}

/// Tables are opened one by one.
proof fn lemma_opened(files: Map<u64, Seq<u8>>, nums: Seq<u64>, ts: Seq<Table>)
    requires
        opened_all(files, nums) == Ok::<Seq<Table>, Fault>(ts),
    ensures
        ts.len() == nums.len(),
        forall|i: int|
            0 <= i < nums.len() ==> files.contains_key(#[trigger] nums[i]) && opened(
                nums[i],
                files[nums[i]],
            ) == Ok::<Table, Fault>(ts[i]),
    decreases nums.len(),
{
    if nums.len() > 0 {
        let front = nums.drop_last();
        let us = opened_all(files, front)->Ok_0;
        lemma_opened(files, front, us);
        let t = opened(nums.last(), files[nums.last()])->Ok_0;
        assert(ts == us.push(t));
        assert forall|i: int| 0 <= i < nums.len() implies files.contains_key(#[trigger] nums[i])
            && opened(nums[i], files[nums[i]]) == Ok::<Table, Fault>(ts[i]) by {
            if i < front.len() {
                assert(front[i] == nums[i]);
            }
        }
    }
}

/// Opening files goes by the manifest: the tables that it lists, all of them and no others, are
/// opened from their files in its order. A manifest that is refused refuses the database.
pub proof fn opening_goes_by_the_manifest(d: Disk)
    ensures
        match stored_manifest(d.manifest) {
            Err(f) => restart(d) == Err::<DbState, Fault>(f),
            Ok(listing) => restart(d) matches Ok(s) ==> {
                &&& s.threshold == 1024
                &&& s.manifest == listing
                &&& s.tables.len() == listing.ssts.len()
                &&& forall|i: int|
                    0 <= i < listing.ssts.len() ==> d.tables.contains_key(
                        (#[trigger] listing.ssts[i]).number,
                    ) && opened(listing.ssts[i].number, d.tables[listing.ssts[i].number]) == Ok::<
                        Table,
                        Fault,
                    >(s.tables[i])
                &&& reopened(listing, s.tables, d.log) == Ok::<DbState, Fault>(s)
            },
        },
{
    if let Ok(listing) = stored_manifest(d.manifest) {
        let nums = numbers(listing.ssts);
        if let Ok(s) = restart(d) {
            let ts = opened_all(d.tables, nums)->Ok_0;
            lemma_opened(d.tables, nums, ts);
            how_a_database_opens(listing, ts, d.log);
            assert(s.tables == ts);
            assert forall|i: int| 0 <= i < listing.ssts.len() implies d.tables.contains_key(
                (#[trigger] listing.ssts[i]).number,
            ) && opened(listing.ssts[i].number, d.tables[listing.ssts[i].number]) == Ok::<
                Table,
                Fault,
            >(s.tables[i]) by {
                assert(nums[i] == listing.ssts[i].number);
            }
        }
    }
}

/// How a write begins: too long a record is refused; else it is refused exactly where the
/// sequence numbers, the size of the memory table or the length of the log run out; else the
/// record, with the next sequence number, is to be appended behind the records of the log, or
/// the log to be looked at where it may have been emptied. Nothing else changes.
pub proof fn how_a_write_begins(s: DbState, kind: Kind, key: Seq<u8>, value: Seq<u8>)
    ensures
        ({
            let r = Rec { seq: s.next_seq, kind, key, value };
            let (s2, out) = begin_write(s, kind, key, value);
            let full = s.next_seq == u64::MAX || footprint(in_order(applied(s.mem, r))) > usize::MAX
                || s.log_len + 25 + key.len() + value.len() > u64::MAX;
            &&& s2 == (DbState { phase: s2.phase, ..s })
            &&& if 17 + key.len() + value.len() > 67_108_864 {
                out == Err::<Act, Fault>(Fault::RecordTooLong) && s2.phase == Step::Idle
            } else if full {
                out == Err::<Act, Fault>(Fault::Overflow) && s2.phase == Step::Idle
            } else if s.unsure {
                out == Ok::<Act, Fault>(Act::ReadLog) && s2.phase == Step::Checking(r)
            } else {
                out == Ok::<Act, Fault>(Act::AppendLog { at: s.log_len, bytes: frame(r) })
                    && s2.phase == Step::Logging(r)
            }
        }),
{
    lemma_frame(Rec { seq: s.next_seq, kind, key, value });
}

/// After a log was looked at, the record goes behind its records, or to its start where it has
/// fewer bytes than they would.
pub proof fn how_a_write_goes_on(s: DbState, r: Rec, log: Seq<u8>)
    requires
        s.phase == Step::Checking(r),
    ensures
        ({
            let (s2, out) = resumed(s, log);
            let at = if log.len() < s.log_len {
                0
            } else {
                s.log_len
            };
            &&& out == Ok::<Act, Fault>(Act::AppendLog { at, bytes: frame(r) })
            &&& s2 == (DbState { log_len: at, unsure: false, phase: Step::Logging(r), ..s })
        }),
{
}

/// The records that a flush writes are the entries of the memory table in key order.
proof fn lemma_recs_fields(mem: Map<Seq<u8>, Cell>)
    ensures
        ({
            let e = in_order(mem);
            let rs = recs_of(e);
            rs.len() == e.len() && forall|i: int|
                0 <= i < e.len() ==> (#[trigger] rs[i]).key == e[i].0 && rs[i].seq == e[i].1.seq
                    && rs[i].kind == e[i].1.kind && rs[i].value == e[i].1.value
        }),
{
}

/// A flush, done to its end, field by field. Memory table and log are empty, and the sequence
/// numbers go on. Where there were fewer than four tables, there is one more, with the next
/// number: it holds the entries of the memory table in key order, and the manifest lists it last
/// with its highest sequence number. Where there were four or more, there is one.
pub proof fn what_a_flush_leaves(s: DbState, d: Disk, g: Map<Seq<u8>, Seq<u8>>, rs: Seq<Rec>)
    requires
        agrees(s, d, g),
        s.mem != Map::<Seq<u8>, Cell>::empty(),
        rs.len() == in_order(s.mem).len(),
        forall|i: int|
            0 <= i < rs.len() ==> (#[trigger] rs[i]).key == in_order(s.mem)[i].0 && rs[i].seq
                == in_order(s.mem)[i].1.seq && rs[i].kind == in_order(s.mem)[i].1.kind && rs[i].value
                == in_order(s.mem)[i].1.value,
        operated(s, d, Op::Flush).1 is Ok,
    ensures
        ({
            let (s2, out, d2) = operated(s, d, Op::Flush);
            let n = s.manifest.ssts.len() as int;
            &&& s2.mem == Map::<Seq<u8>, Cell>::empty()
            &&& s2.log_len == 0
            &&& !s2.unsure
            &&& d2.log.len() == 0
            &&& s2.next_seq == s.next_seq
            &&& s2.threshold == s.threshold
            &&& s2.phase == Step::Idle
            &&& s2.manifest.next_seq == s.next_seq
            &&& s2.manifest.next_sst == s2.next_sst
            &&& d2.manifest == Some(manifest_text(s2.manifest))
            &&& if s.tables.len() < 4 {
                &&& s2.next_sst == s.next_sst + 1
                &&& s2.tables.len() == s.tables.len() + 1
                &&& s2.tables.drop_last() == s.tables
                &&& opened(s.next_sst, table_bytes(rs)) == Ok::<Table, Fault>(s2.tables.last())
                &&& d2.tables == d.tables.insert(s.next_sst, table_bytes(rs))
                &&& s2.manifest.ssts.len() == n + 1
                &&& s2.manifest.ssts.drop_last() == s.manifest.ssts
                &&& s2.manifest.ssts[n].number == s.next_sst
                &&& forall|i: int|
                    0 <= i < rs.len() ==> #[trigger] rs[i].seq <= s2.manifest.ssts[n].max_seq
                &&& exists|i: int|
                    0 <= i < rs.len() && #[trigger] rs[i].seq == s2.manifest.ssts[n].max_seq
            } else {
                &&& s2.next_sst == s.next_sst + 2
                &&& s2.tables.len() == 1
                &&& s2.tables[0].number == s.next_sst + 1
                &&& s2.manifest.ssts.len() == 1
                &&& s2.manifest.ssts[0].number == s.next_sst + 1
                &&& d2.tables.contains_key((s.next_sst + 1) as u64)
                &&& d2.tables[(s.next_sst + 1) as u64] == table_bytes(
                    merged(joined(stack(d.tables, open_numbers(s)).push(rs)), true),
                )
            }
        }),
{
    let (s2, out, d2) = operated(s, d, Op::Flush);
    let ts = recs_of(in_order(s.mem));
    lemma_recs_fields(s.mem);
    assert forall|i: int| 0 <= i < rs.len() implies rs[i] == ts[i] by {
        assert(rs[i] =~= ts[i]);
    }
    assert(rs =~= ts);
    flush_moves_memory_to_a_table(s, d, g);
    crate::recovery::flush_has_room(s, d, g);
    lemma_highest_seq(rs);
    if rs.len() == 0 {
        crate::recovery::lemma_mem_entries(s, d, g);
    }
    if s.tables.len() < 4 {
        assert(s2.tables.drop_last() =~= s.tables);
        assert(s2.manifest.ssts.drop_last() =~= s.manifest.ssts);
    }
}

/// Merging all tables, done to its end, field by field. Fewer than two are left as they are.
/// Else there is one table, with the next number, which holds the merged records, and the
/// manifest lists it alone with their highest sequence number; the tables that it listed before
/// are gone; memory table, log and sequence numbers are untouched.
pub proof fn what_a_merge_leaves(s: DbState, d: Disk, g: Map<Seq<u8>, Seq<u8>>, rs: Seq<Rec>)
    requires
        agrees(s, d, g),
        rs == merged(joined(stack(d.tables, open_numbers(s))), true),
        operated(s, d, Op::Compact).1 is Ok,
    ensures
        ({
            let (s2, out, d2) = operated(s, d, Op::Compact);
            &&& s2.mem == s.mem
            &&& s2.next_seq == s.next_seq
            &&& s2.log_len == s.log_len
            &&& s2.threshold == s.threshold
            &&& s2.phase == Step::Idle
            &&& d2.log == d.log
            &&& if s.tables.len() < 2 {
                s2.tables == s.tables && s2.manifest == s.manifest && s2.next_sst == s.next_sst && d2
                    == d
            } else {
                &&& s2.next_sst == s.next_sst + 1
                &&& s2.tables.len() == 1
                &&& s2.tables[0].number == s.next_sst
                &&& s2.manifest.next_seq == s.next_seq
                &&& s2.manifest.next_sst == s.next_sst + 1
                &&& s2.manifest.ssts.len() == 1
                &&& s2.manifest.ssts[0].number == s.next_sst
                &&& d2.manifest == Some(manifest_text(s2.manifest))
                &&& d2.tables.contains_key(s.next_sst)
                &&& opened(s.next_sst, d2.tables[s.next_sst]) == Ok::<Table, Fault>(s2.tables[0])
                &&& d2.tables[s.next_sst] == table_bytes(rs)
                &&& forall|i: int|
                    0 <= i < rs.len() ==> #[trigger] rs[i].seq <= s2.manifest.ssts[0].max_seq
                &&& rs.len() > 0 ==> exists|i: int|
                    0 <= i < rs.len() && #[trigger] rs[i].seq == s2.manifest.ssts[0].max_seq
                &&& forall|i: int|
                    0 <= i < s.manifest.ssts.len() ==> !d2.tables.contains_key(
                        (#[trigger] s.manifest.ssts[i]).number,
                    )
            }
        }),
{
    compaction_leaves_one_table(s, d, g);
    crate::recovery::compaction_has_room(s, d, g);
    lemma_highest_seq(rs);
}

/// A merge leaves every file of a table that was not listed as it was.
pub proof fn a_merge_spares_other_files(s: DbState, d: Disk, g: Map<Seq<u8>, Seq<u8>>, n: u64)
    requires
        agrees(s, d, g),
        operated(s, d, Op::Compact).1 is Ok,
        n != s.next_sst,
        forall|i: int|
            0 <= i < s.manifest.ssts.len() ==> #[trigger] s.manifest.ssts[i].number != n,
    ensures
        ({
            let d2 = operated(s, d, Op::Compact).2;
            &&& d2.tables.contains_key(n) == d.tables.contains_key(n)
            &&& d.tables.contains_key(n) ==> d2.tables[n] == d.tables[n]
        }),
{
    compaction_leaves_one_table(s, d, g);
    let old = numbers(s.manifest.ssts);
    if old.contains(n) {
        let i = choose|i: int| 0 <= i < old.len() && old[i] == n;
        assert(s.manifest.ssts[i].number == n);
    }
    let d2 = operated(s, d, Op::Compact).2;
    assert(d2.tables.contains_key(n) == d.tables.contains_key(n));
}

/// What a write leaves, done to its end. Its sequence number is used up. Where the memory table
/// with its record has no more bytes than the threshold, the record is there and at the end of
/// the log, and no table changes. Where it has more, it was flushed: memory table and log are
/// empty.
pub proof fn what_a_write_leaves(
    s: DbState,
    d: Disk,
    g: Map<Seq<u8>, Seq<u8>>,
    kind: Kind,
    key: Seq<u8>,
    value: Seq<u8>,
)
    requires
        agrees(s, d, g),
        finish(begin_write(s, kind, key, value), d).1 is Ok,
    ensures
        ({
            let r = Rec { seq: s.next_seq, kind, key, value };
            let (s2, out, d2) = finish(begin_write(s, kind, key, value), d);
            let m = applied(s.mem, r);
            &&& s2.next_seq == s.next_seq + 1
            &&& s2.threshold == s.threshold
            &&& s2.phase == Step::Idle
            &&& m == s.mem.insert(key, Cell { seq: s.next_seq, kind, value })
            &&& if footprint(in_order(m)) > s.threshold {
                &&& s2.mem == Map::<Seq<u8>, Cell>::empty()
                &&& d2.log.len() == 0
                &&& s2.tables.len() == if s.tables.len() < 4 {
                    s.tables.len() + 1
                } else {
                    1
                }
            } else {
                &&& s2.mem == m
                &&& s2.tables == s.tables
                &&& s2.manifest == s.manifest
                &&& s2.next_sst == s.next_sst
                &&& d2.tables == d.tables
                &&& d2.manifest == d.manifest
                &&& d2.log == d.log.take(log_at(s, d) as int) + frame(r)
                &&& s2.log_len == d2.log.len()
            }
        }),
{
    let r = Rec { seq: s.next_seq, kind, key, value };
    let w = DbState { phase: Step::Logging(r), ..sure(s, d) };
    let act = Act::AppendLog { at: w.log_len, bytes: frame(r) };
    let m = applied(s.mem, r);
    write_begins(s, d, g, kind, key, value);
    write_then_flush(s, d, kind, key, value);
    how_a_write_begins(s, kind, key, value);
    assert(open_numbers(w) =~= open_numbers(s));
    lemma_frame(r);
    lemma_step_append(w, act, d, g, r);
    let s1 = after_write(sure(s, d), r);
    assert(after_write(w, r) == s1);
    let d1 = performed(d, act);
    crate::layers::write_changes_one_value(
        stack(d.tables, open_numbers(s)),
        s.mem,
        s.next_seq as int,
        r,
    );
    assert(m.contains_key(key));
    if footprint(in_order(m)) > s.threshold {
        lemma_recs_fields(m);
        what_a_flush_leaves(s1, d1, written(g, r), recs_of(in_order(m)));
    }
}

/// A database that was just opened, from whatever files, flushes after a write exactly when its
/// memory table exceeds 1024 bytes; so it does where key and value alone have more.
pub proof fn an_opened_database_flushes_past_1024_bytes(
    d: Disk,
    g: Map<Seq<u8>, Seq<u8>>,
    kind: Kind,
    key: Seq<u8>,
    value: Seq<u8>,
)
    requires
        recovers(d, g),
        finish(begin_write(restart(d)->Ok_0, kind, key, value), d).1 is Ok,
    ensures
        ({
            let s = restart(d)->Ok_0;
            let (s2, out, d2) = finish(begin_write(s, kind, key, value), d);
            let m = s.mem.insert(key, Cell { seq: s.next_seq, kind, value });
            &&& restart(d) is Ok
            &&& if footprint(in_order(m)) > 1024 {
                s2.mem == Map::<Seq<u8>, Cell>::empty() && d2.log.len() == 0 && s2.tables.len() > 0
            } else {
                s2.mem == m && s2.tables == s.tables && d2.tables == d.tables && d2.log.len() > 0
            }
            &&& key.len() + value.len() > 1024 ==> s2.mem == Map::<Seq<u8>, Cell>::empty()
        }),
{
    restart_recovers(d, g);
    let s = restart(d)->Ok_0;
    let r = Rec { seq: s.next_seq, kind, key, value };
    what_a_write_leaves(s, d, g, kind, key, value);
    lemma_frame(r);
    let m = s.mem.insert(key, Cell { seq: s.next_seq, kind, value });
    lemma_insert_ordered(s.mem, r);
    let e = in_order(m);
    let x = lemma_place(e, key);
    size_is_the_sum_of_all_lengths(e);
    assert(footprint(e) >= e[x].0.len() + e[x].1.value.len());
}

/// An operation is refused only for its record's length, or where a counter, a size or the
/// length of a file would leave its type.
pub proof fn refusals_are_for_want_of_room(s: DbState, d: Disk, g: Map<Seq<u8>, Seq<u8>>, op: Op)
    requires
        consistent(s, Act::Done, d, g),
        crate::recovery::clean(s, d),
    ensures
        operated(s, d, op) matches (s2, Err(f), d2) ==> {
            let (key, value, kind) = match op {
                Op::Put(k, v) => (k, v, Kind::Put),
                Op::Delete(k) => (k, Seq::empty(), Kind::Tombstone),
                _ => (Seq::empty(), Seq::empty(), Kind::Put),
            };
            let r = Rec { seq: s2.next_seq, kind, key, value };
            let writes = op is Put || op is Delete;
            ||| f == Fault::RecordTooLong && writes && 17 + key.len() + value.len() > 67_108_864
            ||| f == Fault::Overflow && !(op is Reopen) && {
                ||| s2.next_sst == u64::MAX
                ||| table_bytes(recs_of(in_order(s2.mem))).len() > u64::MAX
                ||| table_bytes(merged(joined(stack(d2.tables, open_numbers(s2))), true)).len()
                    > u64::MAX
                ||| writes && s2.next_seq == u64::MAX
                ||| writes && footprint(in_order(applied(s2.mem, r))) > usize::MAX
                ||| writes && s2.log_len + 25 + key.len() + value.len() > u64::MAX
            }
        },
{
    operation_matches_model(s, d, g, op);
    if let (s2, Err(f), d2) = operated(s, d, op) {
        match op {
            Op::Put(k, v) => {
                lemma_frame(Rec { seq: s2.next_seq, kind: Kind::Put, key: k, value: v });
            },
            Op::Delete(k) => {
                lemma_frame(
                    Rec { seq: s2.next_seq, kind: Kind::Tombstone, key: k, value: Seq::empty() },
                );
            },
            Op::Reopen => {
                crate::recovery::agreement_recovers(s, d, g);
                restart_recovers(d, g);
            },
            _ => {},
        }
    }
}

/// Between operations there are never more than four tables.
pub proof fn four_tables_at_most(s: DbState, d: Disk, op: Op)
    requires
        s.tables.len() <= 4,
        !(op is Reopen),
    ensures
        operated(s, d, op).1 is Ok ==> operated(s, d, op).0.tables.len() <= 4,
{
    tables_stay_few(s, d, op);
}

/// A read looks in the memory table first: a value there is the answer, and a tombstone there is
/// the answer that there is none. Only else it turns to the tables.
pub proof fn reads_look_in_memory_first(s: DbState, key: Seq<u8>)
    ensures
        if s.mem.contains_key(key) {
            begin_get(s, key) == Ok::<Lead, Fault>(
                Lead::Answer(
                    if s.mem[key].kind == Kind::Put {
                        Some(s.mem[key].value)
                    } else {
                        None
                    },
                ),
            )
        } else {
            begin_get(s, key) == probe(s.tables, key, s.tables.len())
        },
{
}

/// Tables are looked at newest first: those above the table `t` have no block for the key, and
/// `t` has one, which is to be read, or an index that is refused, which refuses the read. Where
/// there is no such table, there is no value.
pub proof fn reads_go_from_new_to_old(tables: Seq<Table>, key: Seq<u8>, n: nat) -> (t: int)
    requires
        n <= tables.len(),
    ensures
        -1 <= t < n,
        forall|i: int|
            t < i < n ==> block_of(#[trigger] tables[i], key) == Ok::<Option<(u64, u64)>, Fault>(None),
        t == -1 ==> probe(tables, key, n) == Ok::<Lead, Fault>(Lead::Answer(None)),
        t >= 0 ==> match block_of(tables[t], key) {
            Err(f) => probe(tables, key, n) == Err::<Lead, Fault>(f),
            Ok(Some((start, end))) => probe(tables, key, n) == Ok::<Lead, Fault>(
                Lead::Read { table: t as nat, number: tables[t].number, start, end },
            ),
            Ok(None) => false,
        },
    decreases n,
{
    if n == 0 {
        -1
    } else if block_of(tables[n - 1], key) == Ok::<Option<(u64, u64)>, Fault>(None) {
        reads_go_from_new_to_old(tables, key, (n - 1) as nat)
    } else {
        n - 1
    }
}

/// What a block makes of a read: a record with the key answers it, a block that has none sends
/// it on to the older tables, and a block that is refused refuses it, whatever those hold.
pub proof fn what_a_block_makes_of_a_read(s: DbState, key: Seq<u8>, at: nat, block: Seq<u8>)
    ensures
        match scanned(block, key) {
            Err(f) => get_on(s, key, at, block) == Err::<Lead, Fault>(f),
            Ok(Some(r)) => get_on(s, key, at, block) == Ok::<Lead, Fault>(
                Lead::Answer(
                    if r.kind == Kind::Put {
                        Some(r.value)
                    } else {
                        None
                    },
                ),
            ),
            Ok(None) => get_on(s, key, at, block) == probe(s.tables, key, at),
        },
{
}

/// A read whose first block is refused ends in that refusal: older tables are not asked.
pub proof fn a_damaged_block_refuses_a_read(
    s: DbState,
    files: Map<u64, Seq<u8>>,
    key: Seq<u8>,
    t: int,
    start: u64,
    end: u64,
    f: Fault,
)
    requires
        !s.mem.contains_key(key),
        0 <= t < s.tables.len(),
        forall|i: int|
            t < i < s.tables.len() ==> block_of(#[trigger] s.tables[i], key) == Ok::<
                Option<(u64, u64)>,
                Fault,
            >(None),
        block_of(s.tables[t], key) == Ok::<Option<(u64, u64)>, Fault>(Some((start, end))),
        start < end <= files[s.tables[t].number].len(),
        scanned(files[s.tables[t].number].subrange(start as int, end as int), key) == Err::<
            Option<Rec>,
            Fault,
        >(f),
    ensures
        answered(s, files, key) == Err::<Option<Seq<u8>>, Fault>(f),
{
    reveal_with_fuel(followed, 2);
    lemma_probe_down(s.tables, key, t, s.tables.len());
}

proof fn lemma_probe_down(tables: Seq<Table>, key: Seq<u8>, t: int, n: nat)
    requires
        0 <= t < n <= tables.len(),
        forall|i: int|
            t < i < n ==> block_of(#[trigger] tables[i], key) == Ok::<Option<(u64, u64)>, Fault>(None),
    ensures
        probe(tables, key, n) == probe(tables, key, (t + 1) as nat),
    decreases n,
{
    if t + 1 < n {
        assert(block_of(tables[n - 1], key) == Ok::<Option<(u64, u64)>, Fault>(None));
        lemma_probe_down(tables, key, t, (n - 1) as nat);
    }
}

/// A table that is refused when it is read for a merge stops the merge: nothing is written and
/// nothing removed, and the database is as it was.
pub proof fn a_damaged_table_stops_a_merge(
    s: DbState,
    inputs: Seq<Seq<Rec>>,
    data: Seq<u8>,
    f: Fault,
)
    requires
        s.phase == Step::CompactRead(inputs),
        replayed(data) == Err::<Seq<Rec>, Fault>(f),
    ensures
        resumed(s, data).1 == Err::<Act, Fault>(f),
        resumed(s, data).0 == (DbState { phase: Step::Idle, ..s }),
{
}

/// A table that cannot be opened after it was written is not put to use: the operation ends in
/// the refusal, and the database is as it was.
pub proof fn a_table_that_cannot_be_opened_is_not_used(s: DbState, data: Seq<u8>, f: Fault)
    requires
        s.phase is FlushTable || s.phase is CompactTable,
        opened(s.next_sst, data) == Err::<Table, Fault>(f),
    ensures
        resumed(s, data).1 == Err::<Act, Fault>(f),
        resumed(s, data).0 == (DbState { phase: Step::Idle, ..s }),
{
}

/// How a flush and a merge begin, whatever the database holds: with nothing to do there is
/// nothing to be done; else a table with the next number is to be written, or the oldest table
/// to be read.
pub proof fn how_maintenance_begins(s: DbState)
    ensures
        ({
            let (s2, out) = begin_flush(s);
            &&& s2 == (DbState { phase: s2.phase, ..s })
            &&& if s.mem.dom().is_empty() {
                out == Ok::<Act, Fault>(Act::Done) && s2.phase == Step::Idle
            } else if s.next_sst == u64::MAX {
                out == Err::<Act, Fault>(Fault::Overflow) && s2.phase == Step::Idle
            } else {
                out == Ok::<Act, Fault>(
                    Act::WriteTable {
                        number: s.next_sst,
                        bytes: table_bytes(recs_of(in_order(s.mem))),
                    },
                ) && s2.phase == Step::FlushTable
            }
        }),
        ({
            let (s2, out) = begin_compact(s);
            &&& s2 == (DbState { phase: s2.phase, ..s })
            &&& if s.tables.len() < 2 {
                out == Ok::<Act, Fault>(Act::Done) && s2.phase == Step::Idle
            } else {
                out == Ok::<Act, Fault>(
                    Act::ReadTable { number: s.tables[0].number, len: s.tables[0].index_offset },
                ) && s2.phase == Step::CompactRead(Seq::empty())
            }
        }),
{
    let none = Map::<Seq<u8>, Cell>::empty();
    if s.mem.dom().is_empty() {
        assert(s.mem =~= none);
    } else {
        assert(!none.dom().contains(s.mem.dom().choose()));
    }
}

/// How a flush goes on: its table is opened and listed last; then the log is to be emptied; then
/// the memory table is, and where there are more than four tables they are merged.
pub proof fn how_a_flush_goes_on(s: DbState, data: Seq<u8>)
    ensures
        s.phase == Step::FlushTable ==> (opened(s.next_sst, data) matches Ok(t) ==> {
            let (s2, out) = resumed(s, data);
            let e = s2.manifest.ssts.last();
            &&& s2.tables == s.tables.push(t)
            &&& s2.next_sst == (s.next_sst + 1) as u64
            &&& s2.manifest.next_seq == s.next_seq
            &&& s2.manifest.next_sst == s2.next_sst
            &&& s2.manifest.ssts == s.manifest.ssts.push(e)
            &&& e.number == s.next_sst
            &&& e.max_seq == highest_seq(recs_of(in_order(s.mem)))
            &&& out == Ok::<Act, Fault>(Act::WriteManifest { text: manifest_text(s2.manifest) })
            &&& s2.phase == Step::FlushManifest
            &&& s2 == (DbState {
                tables: s2.tables,
                next_sst: s2.next_sst,
                manifest: s2.manifest,
                phase: s2.phase,
                ..s
            })
        }),
        s.phase == Step::FlushManifest ==> {
            let (s2, out) = resumed(s, data);
            &&& out == Ok::<Act, Fault>(Act::ResetLog)
            &&& s2 == (DbState { unsure: true, phase: Step::FlushReset, ..s })
        },
        s.phase == Step::FlushReset ==> {
            let (s2, out) = resumed(s, data);
            let m = Map::<Seq<u8>, Cell>::empty();
            if s.tables.len() > 4 {
                &&& out == Ok::<Act, Fault>(
                    Act::ReadTable { number: s.tables[0].number, len: s.tables[0].index_offset },
                )
                &&& s2 == (DbState {
                    mem: m,
                    log_len: 0,
                    unsure: false,
                    phase: Step::CompactRead(Seq::empty()),
                    ..s
                })
            } else {
                &&& out == Ok::<Act, Fault>(Act::Done)
                &&& s2 == (DbState { mem: m, log_len: 0, unsure: false, phase: Step::Idle, ..s })
            }
        },
{
    if s.phase == Step::FlushTable {
        if let Ok(t) = opened(s.next_sst, data) {
            let s2 = resumed(s, data).0;
            assert(s2.manifest.ssts =~= s.manifest.ssts.push(s2.manifest.ssts.last()));
        }
    }
}

/// How a merge goes on: the tables are read one after the other, oldest first; then the merged
/// records are written to a table with the next number; it is listed alone; then the tables that
/// were listed before are removed one after the other.
pub proof fn how_a_merge_goes_on(s: DbState, data: Seq<u8>)
    ensures
        s.phase matches Step::CompactRead(inputs) ==> (replayed(data) matches Ok(rs) ==> {
            let (s2, out) = resumed(s, data);
            let n = inputs.len() as int + 1;
            let all = merged(joined(inputs.push(rs)), true);
            &&& s2 == (DbState { phase: s2.phase, ..s })
            &&& if n < s.tables.len() {
                &&& out == Ok::<Act, Fault>(
                    Act::ReadTable { number: s.tables[n].number, len: s.tables[n].index_offset },
                )
                &&& s2.phase == Step::CompactRead(inputs.push(rs))
            } else if s.next_sst == u64::MAX {
                out == Err::<Act, Fault>(Fault::Overflow) && s2.phase == Step::Idle
            } else {
                &&& out == Ok::<Act, Fault>(
                    Act::WriteTable { number: s.next_sst, bytes: table_bytes(all) },
                )
                &&& s2.phase == Step::CompactTable(highest_seq(all))
            }
        }),
        s.phase matches Step::CompactTable(max) ==> (opened(s.next_sst, data) matches Ok(t) ==> {
            let (s2, out) = resumed(s, data);
            &&& s2.next_sst == (s.next_sst + 1) as u64
            &&& s2.manifest.next_seq == s.next_seq
            &&& s2.manifest.next_sst == s2.next_sst
            &&& s2.manifest.ssts.len() == 1
            &&& s2.manifest.ssts[0].number == s.next_sst
            &&& s2.manifest.ssts[0].max_seq == max
            &&& out == Ok::<Act, Fault>(Act::WriteManifest { text: manifest_text(s2.manifest) })
            &&& s2.phase matches Step::CompactManifest(u, old) && u == t && old.len()
                == s.manifest.ssts.len() && forall|i: int|
                0 <= i < old.len() ==> #[trigger] old[i] == s.manifest.ssts[i].number
            &&& s2 == (DbState {
                next_sst: s2.next_sst,
                manifest: s2.manifest,
                phase: s2.phase,
                ..s
            })
        }),
        s.phase matches Step::CompactManifest(t, old) ==> {
            let (s2, out) = resumed(s, data);
            &&& s2 == (DbState { tables: seq![t], phase: s2.phase, ..s })
            &&& if old.len() == 0 {
                out == Ok::<Act, Fault>(Act::Done) && s2.phase == Step::Idle
            } else {
                out == Ok::<Act, Fault>(Act::RemoveTable { number: old[0] }) && s2.phase
                    == Step::Removing(old.skip(1))
            }
        },
        s.phase matches Step::Removing(rest) ==> {
            let (s2, out) = resumed(s, data);
            &&& s2 == (DbState { phase: s2.phase, ..s })
            &&& if rest.len() == 0 {
                out == Ok::<Act, Fault>(Act::Done) && s2.phase == Step::Idle
            } else {
                out == Ok::<Act, Fault>(Act::RemoveTable { number: rest[0] }) && s2.phase
                    == Step::Removing(rest.skip(1))
            }
        },
        s.phase == Step::Idle ==> resumed(s, data) == (s, Ok::<Act, Fault>(Act::Done)),
{
    if let Step::CompactManifest(t, old) = s.phase {
        assert(old.drop_first() =~= old.skip(1));
    }
    if let Step::Removing(rest) = s.phase {
        assert(rest.drop_first() =~= rest.skip(1));
    }
}

/// What happens once a record is logged, whatever the database holds: it is taken in, its
/// sequence number is used up, and where the memory table then has more bytes than the
/// threshold, it is to be flushed.
pub proof fn how_a_logged_record_is_taken_in(s: DbState, r: Rec, data: Seq<u8>)
    requires
        s.phase == Step::Logging(r),
    ensures
        ({
            let (s2, out) = resumed(s, data);
            let m = applied(s.mem, r);
            &&& s2.mem == m
            &&& s2.next_seq == (s.next_seq + 1) as u64
            &&& s2.log_len == (s.log_len + 25 + r.key.len() + r.value.len()) as u64
            &&& s2 == (DbState {
                mem: m,
                next_seq: s2.next_seq,
                log_len: s2.log_len,
                phase: s2.phase,
                ..s
            })
            &&& if footprint(in_order(m)) <= s.threshold {
                out == Ok::<Act, Fault>(Act::Done) && s2.phase == Step::Idle
            } else if s.next_sst == u64::MAX {
                out == Err::<Act, Fault>(Fault::Overflow) && s2.phase == Step::Idle
            } else {
                out == Ok::<Act, Fault>(
                    Act::WriteTable { number: s.next_sst, bytes: table_bytes(recs_of(in_order(m))) },
                ) && s2.phase == Step::FlushTable
            }
        }),
{
    lemma_frame(r);
    assert(applied(s.mem, r).contains_key(r.key));
}

} // verus!
