//! What the files of a database say, what a crash can leave of them, and that a database is
//! always recovered from them to the writes that were acknowledged, with at most one more: a
//! write that reached the log and was not acknowledged.

use vstd::prelude::*;

use crate::compaction::{joined, merged, recs_of};
use crate::db::{after_write, begin_compact, begin_flush, begin_get, begin_write, get_on, idle,
    numbers, overflows, probe, read_on, remove_on, reopened, replay_fits, resumed, seq_after, Act,
    DbState, Lead, Step, COMPACTION_TRIGGER};
use crate::error::Fault;
use crate::keymap::{as_map, in_order};
use crate::layers::{flush_keeps_values, layer_ok, lemma_empty_mem, lemma_insert_ordered,
    lemma_merged_pick, mem_ok, merge_keeps_values, newest, shown_rec, sound, under, under_mem, value,
    write_changes_one_value};
use crate::manifest::{fresh, manifest_reads_back, manifest_text, stored_manifest, Listing, SstEntry};
use crate::memtable::{applied, applied_all, cell, footprint, is_newest, lemma_footprint_part,
    newest_record_wins, part_of, Cell};
use crate::record::{decoded, fits, frame, lemma_consumed, torn_record_is_ignored, Kind, Rec};
use crate::sstable::{file_range, highest_seq, is_table, opened, pick, table_bytes, table_finds,
    table_of, table_opens, table_records_read_back, Table};
use crate::wal::{all_fit, append_is_read_back, frames, log_reads_back, replayed, whole_len};

verus! {

/// The files of a database: the log, the manifest if there is one, and the tables.
#[verifier::ext_equal]
pub struct Disk {
    pub log: Seq<u8>,
    pub manifest: Option<Seq<char>>,
    pub tables: Map<u64, Seq<u8>>,
}

/// The files `d` after the action `act`.
pub open spec fn performed(d: Disk, act: Act) -> Disk {
    match act {
        Act::AppendLog { at, bytes } => Disk { log: d.log.take(at as int) + bytes, ..d },
        Act::ResetLog => Disk { log: Seq::empty(), ..d },
        Act::ReadLog => d,
        Act::WriteTable { number, bytes } => Disk { tables: d.tables.insert(number, bytes), ..d },
        Act::WriteManifest { text } => Disk { manifest: Some(text), ..d },
        Act::ReadTable { number, len } => d,
        Act::RemoveTable { number } => Disk { tables: d.tables.remove(number), ..d },
        Act::Done => d,
    }
}

/// What is read in the action `act` on the files `d`.
pub open spec fn reply(d: Disk, act: Act) -> Seq<u8> {
    match act {
        Act::WriteTable { number, bytes } => bytes,
        Act::ReadLog => d.log,
        Act::ReadTable { number, len } => file_range(d.tables[number], 0, len as nat)->0,
        _ => Seq::empty(),
    }
}

/// A crash during the action `act` on the files `d` can leave the files `d2`: an append is cut
/// off anywhere; every other action is done or not.
pub open spec fn crash_image(d: Disk, act: Act, d2: Disk) -> bool {
    ||| d2 == d
    ||| d2 == performed(d, act)
    ||| match act {
        Act::AppendLog { at, bytes } => exists|n: int|
            0 <= n <= bytes.len() && d2 == (Disk {
                log: d.log.take(at as int) + #[trigger] bytes.take(n),
                ..d
            }),
        _ => false,
    }
}

/// A table in `act` has a size that can be counted.
pub open spec fn countable(act: Act) -> bool {
    match act {
        Act::WriteTable { number, bytes } => bytes.len() <= u64::MAX,
        _ => true,
    }
}

/// What a map says of a key.
pub open spec fn entry(g: Map<Seq<u8>, Seq<u8>>, k: Seq<u8>) -> Option<Seq<u8>> {
    if g.contains_key(k) {
        Some(g[k])
    } else {
        None
    }
}

/// `g` after the write `r`.
pub open spec fn written(g: Map<Seq<u8>, Seq<u8>>, r: Rec) -> Map<Seq<u8>, Seq<u8>> {
    match r.kind {
        Kind::Put => g.insert(r.key, r.value),
        Kind::Tombstone => g.remove(r.key),
    }
}

/// `file` is that of a table.
pub open spec fn good_file(file: Seq<u8>) -> bool {
    exists|rs: Seq<Rec>| is_table(file, rs)
}

/// The records of the table with the file `file`.
pub open spec fn content(file: Seq<u8>) -> Seq<Rec> {
    choose|rs: Seq<Rec>| is_table(file, rs)
}

/// The records of the tables `nums`.
pub open spec fn stack(files: Map<u64, Seq<u8>>, nums: Seq<u64>) -> Seq<Seq<Rec>> {
    nums.map_values(|n: u64| content(files[n]))
}

/// The file of each of the tables `nums` is there and good.
pub open spec fn present(files: Map<u64, Seq<u8>>, nums: Seq<u64>) -> bool {
    forall|i: int|
        0 <= i < nums.len() ==> files.contains_key(#[trigger] nums[i]) && good_file(files[nums[i]])
}

/// The tables `nums`, oldest first, under the memory table `mem` are in order and hold exactly
/// the entries of `g`.
pub open spec fn holds(
    files: Map<u64, Seq<u8>>,
    nums: Seq<u64>,
    mem: Map<Seq<u8>, Cell>,
    next_seq: int,
    g: Map<Seq<u8>, Seq<u8>>,
) -> bool {
    &&& present(files, nums)
    &&& sound(stack(files, nums), mem, next_seq)
    &&& forall|k: Seq<u8>| #[trigger] value(stack(files, nums), mem, k) == entry(g, k)
}

/// All of `nums` are below `n`.
pub open spec fn below(nums: Seq<u64>, n: u64) -> bool {
    forall|i: int| 0 <= i < nums.len() ==> #[trigger] nums[i] < n
}

/// The sequence numbers in the tables are below `n`.
pub open spec fn seqs_below(layers: Seq<Seq<Rec>>, n: int) -> bool {
    forall|i: int| 0 <= i < layers.len() ==> layer_ok(#[trigger] layers[i], n)
}

/// The log consists of records that leave the memory table `mem`.
pub open spec fn log_holds(log: Seq<u8>, mem: Map<Seq<u8>, Cell>, next_seq: int) -> bool {
    &&& replayed(log) matches Ok(rs)
    &&& log == frames(rs)
    &&& all_fit(rs)
    &&& replay_fits(rs)
    &&& applied_all(Map::empty(), rs) == mem
    &&& forall|i: int| 0 <= i < rs.len() ==> #[trigger] rs[i].seq < next_seq
}

/// The numbers of the open tables.
pub open spec fn open_numbers(s: DbState) -> Seq<u64> {
    s.tables.map_values(|t: Table| t.number)
}

/// The manifest on disk lists tables that, under the memory table `mem`, hold the entries of
/// `g`.
pub open spec fn manifest_holds(
    d: Disk,
    mem: Map<Seq<u8>, Cell>,
    next_seq: u64,
    next_sst: u64,
    g: Map<Seq<u8>, Seq<u8>>,
) -> bool {
    &&& stored_manifest(d.manifest) matches Ok(listing)
    &&& holds(d.tables, numbers(listing.ssts), mem, next_seq as int, g)
    &&& seqs_below(stack(d.tables, numbers(listing.ssts)), listing.next_seq as int)
    &&& below(numbers(listing.ssts), listing.next_sst)
    &&& below(numbers(listing.ssts), next_sst)
    &&& listing.next_seq <= next_seq
}

/// How many bytes of the log on disk are records: none, where a reset was done and not reported
/// as done.
pub open spec fn log_at(s: DbState, d: Disk) -> u64 {
    if s.unsure && d.log.len() < s.log_len {
        0
    } else {
        s.log_len
    }
}

/// The memory table that the log on disk leaves.
pub open spec fn log_mem(s: DbState, d: Disk) -> Map<Seq<u8>, Cell> {
    applied_all(Map::empty(), replayed(d.log.take(log_at(s, d) as int))->Ok_0)
}

/// The database `s` with what is known of its log brought up to date.
pub open spec fn sure(s: DbState, d: Disk) -> DbState {
    DbState { log_len: log_at(s, d), unsure: false, ..s }
}

/// The database `s` with the memory table that the log on disk leaves.
pub open spec fn on_disk(s: DbState, d: Disk) -> DbState {
    DbState { mem: log_mem(s, d), ..sure(s, d) }
}

/// The tables under the memory table `mem` hold the entries of `g`: those that are open, those
/// that the manifest in memory lists, and those that the manifest on disk lists.
pub open spec fn lists_hold(
    s: DbState,
    d: Disk,
    mem: Map<Seq<u8>, Cell>,
    g: Map<Seq<u8>, Seq<u8>>,
) -> bool {
    &&& holds(d.tables, open_numbers(s), mem, s.next_seq as int, g)
    &&& holds(d.tables, numbers(s.manifest.ssts), mem, s.next_seq as int, g)
    &&& manifest_holds(d, mem, s.next_seq, s.next_sst, g)
}

/// The open database `s` and the files `d` agree that the entries are those of `g`: under the
/// memory table, and under what the log leaves of it. What the log does not say of the memory
/// table any more is in the tables.
pub open spec fn agrees(s: DbState, d: Disk, g: Map<Seq<u8>, Seq<u8>>) -> bool {
    &&& log_at(s, d) <= d.log.len()
    &&& log_holds(d.log.take(log_at(s, d) as int), log_mem(s, d), s.next_seq as int)
    &&& part_of(log_mem(s, d), s.mem)
    &&& lists_hold(s, d, s.mem, g)
    &&& lists_hold(s, d, log_mem(s, d), g)
    &&& forall|i: int|
        0 <= i < s.tables.len() ==> #[trigger] s.tables[i] == table_of(
            s.tables[i].number,
            content(d.tables[s.tables[i].number]),
        )
    &&& below(open_numbers(s), s.next_sst)
    &&& below(numbers(s.manifest.ssts), s.next_sst)
}

/// Nothing that is read follows the records of the log.
pub open spec fn clean(s: DbState, d: Disk) -> bool {
    decoded(d.log.skip(log_at(s, d) as int)) == Ok::<Option<Rec>, Fault>(None)
}

/// Behind the records of the log stands exactly the record `r`, which was appended and not
/// acknowledged: its sequence number is not given out.
pub open spec fn unacknowledged(s: DbState, d: Disk, r: Rec) -> bool {
    &&& d.log.skip(log_at(s, d) as int) == frame(r)
    &&& r.seq == s.next_seq
    &&& fits(r)
    &&& !overflows(on_disk(s, d), r)
}

/// Nothing that is read follows the records of the log, or only one record that was not
/// acknowledged.
pub open spec fn settled(s: DbState, d: Disk) -> bool {
    clean(s, d) || exists|r: Rec| unacknowledged(s, d, r)
}

/// The record at the end of the log that was not acknowledged, if there is one.
pub open spec fn pending(s: DbState, d: Disk) -> Option<Rec> {
    match replayed(d.log) {
        Ok(rs) => if rs.len() > 0 && rs.last().seq == s.next_seq {
            Some(rs.last())
        } else {
            None
        },
        Err(_) => None,
    }
}

/// The entries that the files `d` are recovered to, where those of the database `s` are `g`:
/// the same, but for a write that was logged and not acknowledged.
pub open spec fn recovered(s: DbState, d: Disk, g: Map<Seq<u8>, Seq<u8>>) -> Map<Seq<u8>, Seq<u8>> {
    match pending(s, d) {
        Some(r) => written(g, r),
        None => g,
    }
}

/// The manifest in memory is up to date with the counters.
pub open spec fn current(s: DbState) -> bool {
    s.manifest.next_seq == s.next_seq && s.manifest.next_sst == s.next_sst
}

/// The table `n` is neither open nor listed.
pub open spec fn unused(s: DbState, d: Disk, n: u64) -> bool {
    &&& !open_numbers(s).contains(n)
    &&& !numbers(s.manifest.ssts).contains(n)
    &&& stored_manifest(d.manifest) matches Ok(listing) ==> !numbers(listing.ssts).contains(n)
}

/// The operation under way in `s` is waiting for `act`, and what it has done so far holds.
pub open spec fn under_way(s: DbState, act: Act, d: Disk, g: Map<Seq<u8>, Seq<u8>>) -> bool {
    let none = Map::<Seq<u8>, Cell>::empty();
    match s.phase {
        Step::Idle => act == Act::Done,
        Step::Checking(r) => {
            &&& act == Act::ReadLog
            &&& s.unsure
            &&& fits(r)
            &&& r.seq == s.next_seq
            &&& !overflows(s, r)
        },
        Step::Logging(r) => {
            &&& act == Act::AppendLog { at: s.log_len, bytes: frame(r) }
            &&& !s.unsure
            &&& fits(r)
            &&& r.seq == s.next_seq
            &&& !overflows(s, r)
        },
        Step::FlushTable => {
            &&& act == Act::WriteTable {
                number: s.next_sst,
                bytes: table_bytes(recs_of(in_order(s.mem))),
            }
            &&& s.next_sst < u64::MAX
        },
        Step::FlushManifest => {
            &&& act == Act::WriteManifest { text: manifest_text(s.manifest) }
            &&& current(s)
            &&& holds(d.tables, open_numbers(s), none, s.next_seq as int, g)
            &&& holds(d.tables, numbers(s.manifest.ssts), none, s.next_seq as int, g)
        },
        Step::FlushReset => {
            &&& act == Act::ResetLog
            &&& s.unsure
            &&& lists_hold(s, d, none, g)
        },
        Step::CompactRead(inputs) => {
            &&& inputs.len() < s.tables.len()
            &&& inputs == stack(d.tables, open_numbers(s)).take(inputs.len() as int)
            &&& act == Act::ReadTable {
                number: s.tables[inputs.len() as int].number,
                len: s.tables[inputs.len() as int].index_offset,
            }
        },
        Step::CompactTable(max) => {
            &&& act == Act::WriteTable {
                number: s.next_sst,
                bytes: table_bytes(merged(joined(stack(d.tables, open_numbers(s))), true)),
            }
            &&& s.next_sst < u64::MAX
        },
        Step::CompactManifest(t, old) => {
            &&& act == Act::WriteManifest { text: manifest_text(s.manifest) }
            &&& current(s)
            &&& numbers(s.manifest.ssts) == seq![t.number]
            &&& t == table_of(t.number, content(d.tables[t.number]))
            &&& below(old, t.number)
        },
        Step::Removing(rest) => {
            &&& act matches Act::RemoveTable { number }
            &&& unused(s, d, number)
            &&& forall|i: int| 0 <= i < rest.len() ==> unused(s, d, #[trigger] rest[i])
        },
    }
}

/// The refusal `f` in `s` says that there is no number left for a new table.
pub open spec fn out_of_numbers(s: DbState, f: Fault) -> bool {
    f == Fault::Overflow && s.next_sst == u64::MAX
}

/// The database `s`, waiting for `act`, and the files `d` hold the entries of `g`.
pub open spec fn consistent(s: DbState, act: Act, d: Disk, g: Map<Seq<u8>, Seq<u8>>) -> bool {
    &&& agrees(s, d, g)
    &&& under_way(s, act, d, g)
}

/// The entries once the action that `s` is waiting for is done, where they were those of `g`.
pub open spec fn acknowledged(s: DbState, g: Map<Seq<u8>, Seq<u8>>) -> Map<Seq<u8>, Seq<u8>> {
    match s.phase {
        Step::Logging(r) => written(g, r),
        _ => g,
    }
}

/// The entries once the operation under way in `s` is done, where they were those of `g`.
pub open spec fn intended(s: DbState, g: Map<Seq<u8>, Seq<u8>>) -> Map<Seq<u8>, Seq<u8>> {
    match s.phase {
        Step::Checking(r) => written(g, r),
        Step::Logging(r) => written(g, r),
        _ => g,
    }
}

/// A database that is opened from the files `d` has the entries of `g`.
pub open spec fn recovers(d: Disk, g: Map<Seq<u8>, Seq<u8>>) -> bool {
    let n = whole_len(d.log) as int;
    &&& n <= d.log.len()
    &&& n <= u64::MAX
    &&& decoded(d.log.skip(n)) == Ok::<Option<Rec>, Fault>(None)
    &&& stored_manifest(d.manifest) matches Ok(listing)
    &&& replayed(d.log) matches Ok(rs)
    &&& d.log.take(n) == frames(rs)
    &&& all_fit(rs)
    &&& replay_fits(rs)
    &&& seq_after(listing.next_seq, rs) <= u64::MAX
    &&& holds(
        d.tables,
        numbers(listing.ssts),
        applied_all(Map::empty(), rs),
        seq_after(listing.next_seq, rs),
        g,
    )
    &&& seqs_below(stack(d.tables, numbers(listing.ssts)), listing.next_seq as int)
    &&& below(numbers(listing.ssts), listing.next_sst)
}

/// The tables `nums`, opened from their files.
pub open spec fn opened_all(files: Map<u64, Seq<u8>>, nums: Seq<u64>) -> Result<Seq<Table>, Fault>
    decreases nums.len(),
{
    if nums.len() == 0 {
        Ok(Seq::empty())
    } else {
        match opened_all(files, nums.drop_last()) {
            Err(f) => Err(f),
            Ok(ts) => if !files.contains_key(nums.last()) {
                Err(Fault::UnexpectedEof)
            } else {
                match opened(nums.last(), files[nums.last()]) {
                    Err(f) => Err(f),
                    Ok(t) => Ok(ts.push(t)),
                }
            },
        }
    }
}

/// The database that is opened from the files `d`: the manifest is read, the tables that it
/// lists are opened, and the log is replayed on top.
pub open spec fn restart(d: Disk) -> Result<DbState, Fault> {
    match stored_manifest(d.manifest) {
        Err(f) => Err(f),
        Ok(listing) => match opened_all(d.tables, numbers(listing.ssts)) {
            Err(f) => Err(f),
            Ok(ts) => reopened(listing, ts, d.log),
        },
    }
}

/// The value of `key` that the lead `lead` ends in, once each block that it asks for, of ever
/// older tables below the `n`th, is read from its file and the read goes on.
pub open spec fn followed(
    s: DbState,
    files: Map<u64, Seq<u8>>,
    key: Seq<u8>,
    lead: Result<Lead, Fault>,
    n: nat,
) -> Result<Option<Seq<u8>>, Fault>
    decreases n,
{
    match lead {
        Err(f) => Err(f),
        Ok(Lead::Answer(v)) => Ok(v),
        Ok(Lead::Read { table, number, start, end }) => if table >= n {
            Err(Fault::Malformed)
        } else {
            match file_range(files[number], start as nat, (end - start) as nat) {
                None => Err(Fault::UnexpectedEof),
                Some(block) => followed(s, files, key, get_on(s, key, table, block), table),
            }
        },
    }
}

/// The value of `key` that a read gives, once each block that it asks for is read from its file.
pub open spec fn answered(s: DbState, files: Map<u64, Seq<u8>>, key: Seq<u8>) -> Result<
    Option<Seq<u8>>,
    Fault,
> {
    followed(s, files, key, begin_get(s, key), s.tables.len())
}

/// A file holds the records that it was written with, and no others.
pub proof fn file_has_one_content(file: Seq<u8>, rs: Seq<Rec>)
    requires
        is_table(file, rs),
    ensures
        good_file(file),
        content(file) == rs,
{
    let cs = content(file);
    table_opens(0, file, rs);
    table_opens(0, file, cs);
    table_records_read_back(0, file, rs);
    table_records_read_back(0, file, cs);
}

/// Tables hold the same as long as their files stay.
proof fn lemma_same_files(
    files: Map<u64, Seq<u8>>,
    files2: Map<u64, Seq<u8>>,
    nums: Seq<u64>,
    mem: Map<Seq<u8>, Cell>,
    next_seq: int,
    g: Map<Seq<u8>, Seq<u8>>,
)
    requires
        holds(files, nums, mem, next_seq, g),
        forall|i: int|
            0 <= i < nums.len() ==> files2.contains_key(#[trigger] nums[i]) && files2[nums[i]]
                == files[nums[i]],
    ensures
        holds(files2, nums, mem, next_seq, g),
        stack(files2, nums) == stack(files, nums),
{
    assert forall|i: int| 0 <= i < nums.len() implies files2.contains_key(#[trigger] nums[i])
        && good_file(files2[nums[i]]) by {
        assert(good_file(files[nums[i]]));
    }
    assert(stack(files2, nums) =~= stack(files, nums));
}

/// Tables hold the same when a table with another number is put in place.
proof fn lemma_new_file(
    files: Map<u64, Seq<u8>>,
    num: u64,
    bytes: Seq<u8>,
    nums: Seq<u64>,
    mem: Map<Seq<u8>, Cell>,
    next_seq: int,
    g: Map<Seq<u8>, Seq<u8>>,
)
    requires
        holds(files, nums, mem, next_seq, g),
        below(nums, num),
    ensures
        holds(files.insert(num, bytes), nums, mem, next_seq, g),
        stack(files.insert(num, bytes), nums) == stack(files, nums),
{
    assert forall|i: int| 0 <= i < nums.len() implies files.insert(num, bytes).contains_key(
        #[trigger] nums[i],
    ) && files.insert(num, bytes)[nums[i]] == files[nums[i]] by {
        assert(nums[i] < num);
    }
    lemma_same_files(files, files.insert(num, bytes), nums, mem, next_seq, g);
}

/// A flushed table on top holds the same, with the memory table and without it.
proof fn lemma_flushed(
    files: Map<u64, Seq<u8>>,
    num: u64,
    bytes: Seq<u8>,
    nums: Seq<u64>,
    mem: Map<Seq<u8>, Cell>,
    next_seq: int,
    g: Map<Seq<u8>, Seq<u8>>,
)
    requires
        holds(files, nums, mem, next_seq, g),
        below(nums, num),
        bytes == table_bytes(recs_of(in_order(mem))),
        bytes.len() <= u64::MAX,
    ensures
        is_table(bytes, recs_of(in_order(mem))),
        holds(files.insert(num, bytes), nums.push(num), mem, next_seq, g),
        holds(files.insert(num, bytes), nums.push(num), Map::empty(), next_seq, g),
        stack(files.insert(num, bytes), nums.push(num)) == stack(files, nums).push(
            recs_of(in_order(mem)),
        ),
{
    let files2 = files.insert(num, bytes);
    let top = recs_of(in_order(mem));
    let layers = stack(files, nums);
    lemma_new_file(files, num, bytes, nums, mem, next_seq, g);
    flush_keeps_values(layers, mem, next_seq);
    let all = layers.push(top);
    assert(layer_ok(all[layers.len() as int], next_seq));
    file_has_one_content(bytes, top);
    assert(stack(files2, nums.push(num)) =~= all) by {
        assert forall|i: int| 0 <= i < all.len() implies stack(files2, nums.push(num))[i] == all[i] by {
            if i < nums.len() {
                assert(stack(files2, nums)[i] == layers[i]);
            }
        }
    }
    assert forall|i: int| 0 <= i < nums.push(num).len() implies files2.contains_key(
        #[trigger] nums.push(num)[i],
    ) && good_file(files2[nums.push(num)[i]]) by {
        if i < nums.len() {
            assert(nums.push(num)[i] == nums[i]);
            assert(good_file(files2[nums[i]]));
        }
    }
    assert forall|k: Seq<u8>| #[trigger] value(all, mem, k) == entry(g, k) by {
        assert(value(layers, mem, k) == entry(g, k));
    }
    assert forall|k: Seq<u8>| #[trigger] value(all, Map::empty(), k) == entry(g, k) by {
        assert(value(layers, mem, k) == entry(g, k));
    }
}

/// The merged table alone holds the same.
proof fn lemma_merged(
    files: Map<u64, Seq<u8>>,
    num: u64,
    bytes: Seq<u8>,
    nums: Seq<u64>,
    mem: Map<Seq<u8>, Cell>,
    next_seq: int,
    g: Map<Seq<u8>, Seq<u8>>,
)
    requires
        holds(files, nums, mem, next_seq, g),
        bytes == table_bytes(merged(joined(stack(files, nums)), true)),
        bytes.len() <= u64::MAX,
    ensures
        is_table(bytes, merged(joined(stack(files, nums)), true)),
        holds(files.insert(num, bytes), seq![num], mem, next_seq, g),
{
    let files2 = files.insert(num, bytes);
    let layers = stack(files, nums);
    let one = merged(joined(layers), true);
    merge_keeps_values(layers, mem, next_seq);
    let all = seq![one];
    assert(layer_ok(all[0], next_seq));
    file_has_one_content(bytes, one);
    assert(stack(files2, seq![num]) =~= all);
    assert forall|k: Seq<u8>| #[trigger] value(all, mem, k) == entry(g, k) by {
        assert(value(layers, mem, k) == entry(g, k));
    }
}

/// A write reaches every table list in the same way.
proof fn lemma_written(
    files: Map<u64, Seq<u8>>,
    nums: Seq<u64>,
    mem: Map<Seq<u8>, Cell>,
    next_seq: int,
    g: Map<Seq<u8>, Seq<u8>>,
    r: Rec,
)
    requires
        holds(files, nums, mem, next_seq, g),
        r.seq == next_seq,
        fits(r),
    ensures
        holds(files, nums, applied(mem, r), next_seq + 1, written(g, r)),
{
    let layers = stack(files, nums);
    write_changes_one_value(layers, mem, next_seq, r);
    assert forall|k: Seq<u8>| #[trigger]
        value(layers, applied(mem, r), k) == entry(written(g, r), k) by {
        assert(value(layers, mem, k) == entry(g, k));
    }
}

/// The log with one more record.
proof fn lemma_log_grows(log: Seq<u8>, mem: Map<Seq<u8>, Cell>, next_seq: int, r: Rec)
    requires
        log_holds(log, mem, next_seq),
        fits(r),
        r.seq == next_seq,
        footprint(in_order(applied(mem, r))) <= usize::MAX,
    ensures
        log_holds(log + frame(r), applied(mem, r), next_seq + 1),
{
    let rs = replayed(log)->Ok_0;
    let all = rs.push(r);
    append_is_read_back(rs, r);
    crate::wal::lemma_frames_push(rs, r);
    assert(all.drop_last() =~= rs);
    assert forall|n: int| 0 <= n <= all.len() implies footprint(
        in_order(applied_all(Map::empty(), #[trigger] all.take(n))),
    ) <= usize::MAX by {
        if n <= rs.len() {
            assert(all.take(n) =~= rs.take(n));
        } else {
            assert(all.take(n) =~= all);
        }
    }
    assert forall|i: int| 0 <= i < all.len() implies fits(#[trigger] all[i]) by {
        if i < rs.len() {
            assert(all[i] == rs[i]);
        }
    }
    assert forall|i: int| 0 <= i < all.len() implies #[trigger] all[i].seq < next_seq + 1 by {
        if i < rs.len() {
            assert(all[i] == rs[i]);
        }
    }
}

/// An empty log.
proof fn lemma_empty_log(next_seq: int)
    ensures
        log_holds(Seq::empty(), Map::empty(), next_seq),
        decoded(Seq::empty()) == Ok::<Option<Rec>, Fault>(None),
{
    let none = Seq::<u8>::empty();
    let rs = Seq::<Rec>::empty();
    lemma_consumed(none);
    log_reads_back(rs, none);
    assert(frames(rs) + none =~= none);
    assert forall|n: int| 0 <= n <= rs.len() implies footprint(
        in_order(applied_all(Map::empty(), #[trigger] rs.take(n))),
    ) <= usize::MAX by {
        assert(rs.take(n) =~= rs);
        crate::db::lemma_empty_footprint();
    }
}

/// Tables that hold the same with a memory table and without it do so with a part of it.
proof fn lemma_part_holds(
    files: Map<u64, Seq<u8>>,
    nums: Seq<u64>,
    mem: Map<Seq<u8>, Cell>,
    part: Map<Seq<u8>, Cell>,
    next_seq: int,
    g: Map<Seq<u8>, Seq<u8>>,
)
    requires
        holds(files, nums, mem, next_seq, g),
        holds(files, nums, Map::empty(), next_seq, g),
        part_of(part, mem),
        mem_ok(part, next_seq),
    ensures
        holds(files, nums, part, next_seq, g),
{
    let layers = stack(files, nums);
    assert forall|i: int| 0 <= i < layers.len() implies under_mem(#[trigger] layers[i], part) by {
        assert(under_mem(layers[i], mem));
    }
    assert forall|k: Seq<u8>| #[trigger] value(layers, part, k) == entry(g, k) by {
        assert(value(layers, mem, k) == entry(g, k));
        assert(value(layers, Map::empty(), k) == entry(g, k));
    }
}

/// A part and the whole, after the next write.
proof fn lemma_part_written(
    part: Map<Seq<u8>, Cell>,
    mem: Map<Seq<u8>, Cell>,
    next_seq: int,
    r: Rec,
)
    requires
        part_of(part, mem),
        mem_ok(part, next_seq),
        mem_ok(mem, next_seq),
        r.seq == next_seq,
    ensures
        part_of(applied(part, r), applied(mem, r)),
        footprint(in_order(applied(part, r))) <= footprint(in_order(applied(mem, r))),
{
    lemma_insert_ordered(part, r);
    lemma_insert_ordered(mem, r);
    lemma_footprint_part(applied(part, r), applied(mem, r));
}

/// Appending the record that `s` waits for.
pub proof fn lemma_step_append(s: DbState, act: Act, d: Disk, g: Map<Seq<u8>, Seq<u8>>, r: Rec)
    requires
        consistent(s, act, d, g),
        s.phase == Step::Logging(r),
    ensures
        agrees(after_write(s, r), performed(d, act), written(g, r)),
        clean(after_write(s, r), performed(d, act)),
{
    let s2 = after_write(s, r);
    let d2 = performed(d, act);
    let n = s.next_seq as int;
    let part = log_mem(s, d);
    let listing = stored_manifest(d.manifest)->Ok_0;
    lemma_part_written(part, s.mem, n, r);
    lemma_log_grows(d.log.take(s.log_len as int), part, n, r);
    assert(d2.log.take(s2.log_len as int) =~= d.log.take(s.log_len as int) + frame(r));
    assert(d2.log.skip(s2.log_len as int) =~= Seq::<u8>::empty());
    lemma_empty_log(0);
    assert(open_numbers(s2) =~= open_numbers(s));
    lemma_written(d.tables, open_numbers(s), s.mem, n, g, r);
    lemma_written(d.tables, numbers(s.manifest.ssts), s.mem, n, g, r);
    lemma_written(d.tables, numbers(listing.ssts), s.mem, n, g, r);
    lemma_written(d.tables, open_numbers(s), part, n, g, r);
    lemma_written(d.tables, numbers(s.manifest.ssts), part, n, g, r);
    lemma_written(d.tables, numbers(listing.ssts), part, n, g, r);
}

/// Putting a new table in place.
proof fn lemma_step_file(s: DbState, d: Disk, g: Map<Seq<u8>, Seq<u8>>, bytes: Seq<u8>)
    requires
        agrees(s, d, g),
    ensures
        agrees(s, Disk { tables: d.tables.insert(s.next_sst, bytes), ..d }, g),
{
    let num = s.next_sst;
    let n = s.next_seq as int;
    let d2 = Disk { tables: d.tables.insert(num, bytes), ..d };
    let listing = stored_manifest(d.manifest)->Ok_0;
    let part = log_mem(s, d);
    lemma_new_file(d.tables, num, bytes, open_numbers(s), s.mem, n, g);
    lemma_new_file(d.tables, num, bytes, numbers(s.manifest.ssts), s.mem, n, g);
    lemma_new_file(d.tables, num, bytes, numbers(listing.ssts), s.mem, n, g);
    lemma_new_file(d.tables, num, bytes, open_numbers(s), part, n, g);
    lemma_new_file(d.tables, num, bytes, numbers(s.manifest.ssts), part, n, g);
    lemma_new_file(d.tables, num, bytes, numbers(listing.ssts), part, n, g);
    assert forall|i: int| 0 <= i < s.tables.len() implies #[trigger] s.tables[i] == table_of(
        s.tables[i].number,
        content(d2.tables[s.tables[i].number]),
    ) by {
        assert(open_numbers(s)[i] == s.tables[i].number);
        assert(open_numbers(s)[i] < num);
    }
}

/// A new manifest in place of the old one.
proof fn lemma_step_manifest(s: DbState, d: Disk, g: Map<Seq<u8>, Seq<u8>>, mem: Map<Seq<u8>, Cell>)
    requires
        current(s),
        below(numbers(s.manifest.ssts), s.next_sst),
        holds(d.tables, numbers(s.manifest.ssts), mem, s.next_seq as int, g),
    ensures
        stored_manifest(Some(manifest_text(s.manifest))) == Ok::<Listing, Fault>(s.manifest),
        manifest_holds(
            Disk { manifest: Some(manifest_text(s.manifest)), ..d },
            mem,
            s.next_seq,
            s.next_sst,
            g,
        ),
{
    manifest_reads_back(s.manifest);
}

/// The flushed table is in place: it is opened and listed.
proof fn lemma_step_flush_table(s: DbState, act: Act, d: Disk, g: Map<Seq<u8>, Seq<u8>>)
    requires
        consistent(s, act, d, g),
        s.phase == Step::FlushTable,
        countable(act),
    ensures
        ({
            let (s2, res) = resumed(s, reply(d, act));
            res matches Ok(act2) && consistent(s2, act2, performed(d, act), g)
        }),
{
    let bytes = reply(d, act);
    let num = s.next_sst;
    let n = s.next_seq as int;
    let d2 = performed(d, act);
    let rs = recs_of(in_order(s.mem));
    lemma_step_file(s, d, g, bytes);
    lemma_flushed(d.tables, num, bytes, open_numbers(s), s.mem, n, g);
    lemma_flushed(d.tables, num, bytes, numbers(s.manifest.ssts), s.mem, n, g);
    let part = log_mem(s, d);
    lemma_part_holds(d2.tables, open_numbers(s).push(num), s.mem, part, n, g);
    lemma_part_holds(d2.tables, numbers(s.manifest.ssts).push(num), s.mem, part, n, g);
    file_has_one_content(bytes, rs);
    table_opens(num, bytes, rs);
    let (s2, res) = resumed(s, bytes);
    assert(open_numbers(s2) =~= open_numbers(s).push(num));
    assert(numbers(s2.manifest.ssts) =~= numbers(s.manifest.ssts).push(num));
    assert forall|i: int| 0 <= i < s2.tables.len() implies #[trigger] s2.tables[i] == table_of(
        s2.tables[i].number,
        content(d2.tables[s2.tables[i].number]),
    ) by {
        if i < s.tables.len() {
            assert(s2.tables[i] == s.tables[i]);
        }
    }
    lemma_below_push(open_numbers(s), num);
    lemma_below_push(numbers(s.manifest.ssts), num);
}

/// One more number, the next one.
proof fn lemma_below_push(nums: Seq<u64>, num: u64)
    requires
        below(nums, num),
        num < u64::MAX,
    ensures
        below(nums.push(num), (num + 1) as u64),
        below(nums, (num + 1) as u64),
{
    assert forall|i: int| 0 <= i < nums.push(num).len() implies #[trigger] nums.push(num)[i] < num
        + 1 by {
        if i < nums.len() {
            assert(nums[i] < num);
        }
    }
}

/// The manifest that lists the flushed table is in place.
proof fn lemma_step_flush_manifest(s: DbState, act: Act, d: Disk, g: Map<Seq<u8>, Seq<u8>>)
    requires
        consistent(s, act, d, g),
        s.phase == Step::FlushManifest,
    ensures
        ({
            let (s2, res) = resumed(s, reply(d, act));
            res matches Ok(act2) && consistent(s2, act2, performed(d, act), g)
        }),
{
    let (s2, res) = resumed(s, reply(d, act));
    lemma_step_manifest(s, d, g, s.mem);
    lemma_step_manifest(s, d, g, log_mem(s, d));
    lemma_step_manifest(s, d, g, Map::empty());
    assert(open_numbers(s2) =~= open_numbers(s));
}

/// The log is emptied: what it held is in the tables. They are in agreement with the database
/// whether or not it is told.
proof fn lemma_step_reset(s: DbState, act: Act, d: Disk, g: Map<Seq<u8>, Seq<u8>>)
    requires
        consistent(s, act, d, g),
        s.phase == Step::FlushReset,
    ensures
        ({
            let s2 = DbState { mem: Map::empty(), log_len: 0, unsure: false, ..s };
            let d2 = performed(d, act);
            &&& agrees(s2, d2, g) && clean(s2, d2)
            &&& agrees(s, d2, g) && clean(s, d2)
        }),
{
    let s2 = DbState { mem: Map::empty(), log_len: 0, unsure: false, ..s };
    let d2 = performed(d, act);
    lemma_empty_log(s.next_seq as int);
    assert(d2.log.take(0) =~= Seq::<u8>::empty());
    assert(d2.log.skip(0) =~= Seq::<u8>::empty());
    assert(log_at(s, d2) == 0);
    assert(open_numbers(s2) =~= open_numbers(s));
}

/// The log was looked at: the record goes where its records end.
proof fn lemma_step_check(s: DbState, act: Act, d: Disk, g: Map<Seq<u8>, Seq<u8>>, r: Rec)
    requires
        consistent(s, act, d, g),
        s.phase == Step::Checking(r),
    ensures
        ({
            let (s2, res) = resumed(s, reply(d, act));
            &&& res matches Ok(act2) && consistent(s2, act2, d, g)
            &&& s2 == (DbState { phase: Step::Logging(r), ..sure(s, d) })
        }),
{
    let (s2, res) = resumed(s, reply(d, act));
    assert(open_numbers(s2) =~= open_numbers(s));
}

/// A merge goes on with the next table.
proof fn lemma_read_on(s: DbState, d: Disk, g: Map<Seq<u8>, Seq<u8>>, inputs: Seq<Seq<Rec>>)
    requires
        agrees(s, d, g),
        inputs.len() <= s.tables.len(),
        inputs == stack(d.tables, open_numbers(s)).take(inputs.len() as int),
    ensures
        match read_on(s, inputs) {
            (s2, Ok(act2)) => consistent(s2, act2, d, g),
            (s2, Err(f)) => out_of_numbers(s2, f) && consistent(s2, Act::Done, d, g),
        },
{
    let (s2, res) = read_on(s, inputs);
    assert(open_numbers(s2) =~= open_numbers(s));
    if inputs.len() == s.tables.len() {
        assert(inputs =~= stack(d.tables, open_numbers(s)));
    }
}

/// A table is read for a merge.
proof fn lemma_step_read(s: DbState, act: Act, d: Disk, g: Map<Seq<u8>, Seq<u8>>, inputs: Seq<
    Seq<Rec>,
>)
    requires
        consistent(s, act, d, g),
        s.phase == Step::CompactRead(inputs),
    ensures
        match resumed(s, reply(d, act)) {
            (s2, Ok(act2)) => consistent(s2, act2, d, g),
            (s2, Err(f)) => out_of_numbers(s2, f) && consistent(s2, Act::Done, d, g),
        },
{
    let i = inputs.len() as int;
    let t = s.tables[i];
    let file = d.tables[t.number];
    assert(open_numbers(s)[i] == t.number);
    assert(good_file(file));
    let rs = content(file);
    table_records_read_back(t.number, file, rs);
    let layers = stack(d.tables, open_numbers(s));
    assert(layers[i] == rs);
    assert(inputs.push(rs) =~= layers.take(i + 1));
    lemma_read_on(s, d, g, inputs.push(rs));
}

/// The merged table is in place: it is opened and alone listed.
proof fn lemma_step_merged_table(s: DbState, act: Act, d: Disk, g: Map<Seq<u8>, Seq<u8>>, max: u64)
    requires
        consistent(s, act, d, g),
        s.phase == Step::CompactTable(max),
        countable(act),
    ensures
        ({
            let (s2, res) = resumed(s, reply(d, act));
            res matches Ok(act2) && consistent(s2, act2, performed(d, act), g)
        }),
{
    let bytes = reply(d, act);
    let num = s.next_sst;
    let n = s.next_seq as int;
    let rs = merged(joined(stack(d.tables, open_numbers(s))), true);
    lemma_step_file(s, d, g, bytes);
    lemma_merged(d.tables, num, bytes, open_numbers(s), s.mem, n, g);
    lemma_merged(d.tables, num, bytes, open_numbers(s), log_mem(s, d), n, g);
    file_has_one_content(bytes, rs);
    table_opens(num, bytes, rs);
    let (s2, res) = resumed(s, bytes);
    assert(open_numbers(s2) =~= open_numbers(s));
    assert(numbers(s2.manifest.ssts) =~= seq![num]);
    lemma_below_push(open_numbers(s), num);
    lemma_below_push(numbers(s.manifest.ssts), num);
    let listing = stored_manifest(d.manifest)->Ok_0;
    lemma_below_push(numbers(listing.ssts), num);
}

/// The next of the tables that were merged is removed.
proof fn lemma_remove_on(s: DbState, d: Disk, g: Map<Seq<u8>, Seq<u8>>, rest: Seq<u64>)
    requires
        agrees(s, d, g),
        forall|i: int| 0 <= i < rest.len() ==> unused(s, d, #[trigger] rest[i]),
    ensures
        ({
            let (s2, res) = remove_on(s, rest);
            res matches Ok(act2) && consistent(s2, act2, d, g)
        }),
{
    let (s2, res) = remove_on(s, rest);
    assert(open_numbers(s2) =~= open_numbers(s));
    if rest.len() > 0 {
        assert(unused(s, d, rest[0]));
        let more = rest.drop_first();
        assert forall|i: int| 0 <= i < more.len() implies unused(s2, d, #[trigger] more[i]) by {
            assert(more[i] == rest[i + 1]);
            assert(unused(s, d, rest[i + 1]));
        }
    }
}

/// The manifest that lists only the merged table is in place.
proof fn lemma_step_merged_manifest(
    s: DbState,
    act: Act,
    d: Disk,
    g: Map<Seq<u8>, Seq<u8>>,
    t: Table,
    old: Seq<u64>,
)
    requires
        consistent(s, act, d, g),
        s.phase == Step::CompactManifest(t, old),
    ensures
        ({
            let (s2, res) = resumed(s, reply(d, act));
            res matches Ok(act2) && consistent(s2, act2, performed(d, act), g)
        }),
{
    let d2 = performed(d, act);
    let s1 = DbState { tables: seq![t], ..s };
    lemma_step_manifest(s, d, g, s.mem);
    lemma_step_manifest(s, d, g, log_mem(s, d));
    assert(open_numbers(s1) =~= seq![t.number]);
    assert(agrees(s1, d2, g));
    assert forall|i: int| 0 <= i < old.len() implies unused(s1, d2, #[trigger] old[i]) by {
        assert(old[i] < t.number);
    }
    lemma_remove_on(s1, d2, g, old);
}

/// A table that is neither open nor listed is removed.
proof fn lemma_step_remove(s: DbState, d: Disk, g: Map<Seq<u8>, Seq<u8>>, num: u64)
    requires
        agrees(s, d, g),
        unused(s, d, num),
    ensures
        agrees(s, Disk { tables: d.tables.remove(num), ..d }, g),
{
    let n = s.next_seq as int;
    let d2 = Disk { tables: d.tables.remove(num), ..d };
    let listing = stored_manifest(d.manifest)->Ok_0;
    let part = log_mem(s, d);
    lemma_file_gone(d.tables, num, open_numbers(s), s.mem, n, g);
    lemma_file_gone(d.tables, num, numbers(s.manifest.ssts), s.mem, n, g);
    lemma_file_gone(d.tables, num, numbers(listing.ssts), s.mem, n, g);
    lemma_file_gone(d.tables, num, open_numbers(s), part, n, g);
    lemma_file_gone(d.tables, num, numbers(s.manifest.ssts), part, n, g);
    lemma_file_gone(d.tables, num, numbers(listing.ssts), part, n, g);
    assert forall|i: int| 0 <= i < s.tables.len() implies #[trigger] s.tables[i] == table_of(
        s.tables[i].number,
        content(d2.tables[s.tables[i].number]),
    ) by {
        assert(open_numbers(s)[i] == s.tables[i].number);
        assert(open_numbers(s).contains(s.tables[i].number));
    }
}

/// Tables hold the same when a table that is not one of them is removed.
proof fn lemma_file_gone(
    files: Map<u64, Seq<u8>>,
    num: u64,
    nums: Seq<u64>,
    mem: Map<Seq<u8>, Cell>,
    next_seq: int,
    g: Map<Seq<u8>, Seq<u8>>,
)
    requires
        holds(files, nums, mem, next_seq, g),
        !nums.contains(num),
    ensures
        holds(files.remove(num), nums, mem, next_seq, g),
        stack(files.remove(num), nums) == stack(files, nums),
{
    assert forall|i: int| 0 <= i < nums.len() implies files.remove(num).contains_key(
        #[trigger] nums[i],
    ) && files.remove(num)[nums[i]] == files[nums[i]] by {
        assert(nums.contains(nums[i]));
    }
    lemma_same_files(files, files.remove(num), nums, mem, next_seq, g);
}

/// How a log ends depends on the log, where its records end and the next sequence number.
proof fn lemma_settled(s: DbState, d: Disk, s2: DbState, d2: Disk)
    requires
        d2.log == d.log,
        log_at(s2, d2) == log_at(s, d),
        s2.next_seq == s.next_seq,
        settled(s, d),
    ensures
        settled(s2, d2),
        clean(s, d) ==> clean(s2, d2),
{
    if !clean(s, d) {
        let r = choose|r: Rec| unacknowledged(s, d, r);
        assert(unacknowledged(s2, d2, r));
    }
}

/// A flush or a merge can begin at any time.
pub proof fn maintenance_begins(s: DbState, d: Disk, g: Map<Seq<u8>, Seq<u8>>)
    requires
        agrees(s, d, g),
    ensures
        match begin_flush(s) {
            (s2, Ok(act2)) => consistent(s2, act2, d, g),
            (s2, Err(f)) => out_of_numbers(s2, f) && consistent(s2, Act::Done, d, g),
        },
        match begin_compact(s) {
            (s2, Ok(act2)) => consistent(s2, act2, d, g),
            (s2, Err(f)) => out_of_numbers(s2, f) && consistent(s2, Act::Done, d, g),
        },
        settled(s, d) ==> settled(begin_flush(s).0, d) && settled(begin_compact(s).0, d),
        clean(s, d) ==> clean(begin_flush(s).0, d) && clean(begin_compact(s).0, d),
{
    assert(open_numbers(begin_flush(s).0) =~= open_numbers(s));
    assert(open_numbers(begin_compact(s).0) =~= open_numbers(s));
    let none = Seq::<Seq<Rec>>::empty();
    assert(stack(d.tables, open_numbers(s)).take(0) =~= none);
    lemma_read_on(s, d, g, none);
    if settled(s, d) {
        lemma_settled(s, d, begin_flush(s).0, d);
        lemma_settled(s, d, begin_compact(s).0, d);
    }
}

/// A write begins by handing the record to the log, which is looked at first where it may have
/// been emptied; until that is done nothing changes. It is refused where the record could not
/// be read back, and where a counter or a size has no room.
pub proof fn write_begins(
    s: DbState,
    d: Disk,
    g: Map<Seq<u8>, Seq<u8>>,
    kind: Kind,
    key: Seq<u8>,
    value: Seq<u8>,
)
    requires
        agrees(s, d, g),
    ensures
        ({
            let r = Rec { seq: s.next_seq, kind, key, value };
            match begin_write(s, kind, key, value) {
                (s2, Ok(act2)) => {
                    &&& fits(r) && !overflows(s, r)
                    &&& consistent(s2, act2, d, g)
                    &&& intended(s2, g) == written(g, r)
                },
                (s2, Err(f)) => {
                    &&& f == if fits(r) {
                        Fault::Overflow
                    } else {
                        Fault::RecordTooLong
                    }
                    &&& !fits(r) || overflows(s, r)
                    &&& consistent(s2, Act::Done, d, g)
                },
            }
        }),
        settled(s, d) ==> settled(begin_write(s, kind, key, value).0, d),
        clean(s, d) ==> clean(begin_write(s, kind, key, value).0, d),
{
    let (s2, res) = begin_write(s, kind, key, value);
    assert(open_numbers(s2) =~= open_numbers(s));
    if settled(s, d) {
        lemma_settled(s, d, s2, d);
    }
}

/// The action `act` changes the log.
pub open spec fn on_log(act: Act) -> bool {
    act is AppendLog || act is ResetLog
}

/// Every action that a database asks for, once done, leaves database and files in agreement:
/// appending a record to the log makes its write part of the entries, and nothing else changes
/// them. After an append or a reset nothing is left behind the records of the log; the other
/// actions leave it as it is.
pub proof fn step_keeps_entries(s: DbState, act: Act, d: Disk, g: Map<Seq<u8>, Seq<u8>>)
    requires
        consistent(s, act, d, g),
        countable(act),
    ensures
        match resumed(s, reply(d, act)) {
            (s2, Ok(act2)) => consistent(s2, act2, performed(d, act), acknowledged(s, g)),
            (s2, Err(f)) => out_of_numbers(s2, f) && consistent(
                s2,
                Act::Done,
                performed(d, act),
                acknowledged(s, g),
            ),
        },
        settled(s, d) ==> settled(resumed(s, reply(d, act)).0, performed(d, act)),
        on_log(act) || clean(s, d) ==> clean(resumed(s, reply(d, act)).0, performed(d, act)),
        !on_log(act) ==> {
            &&& performed(d, act).log == d.log
            &&& resumed(s, reply(d, act)).0.next_seq == s.next_seq
            &&& acknowledged(s, g) == g
        },
{
    let d2 = performed(d, act);
    let s3 = resumed(s, reply(d, act)).0;
    match s.phase {
        Step::Idle => {},
        Step::Checking(r) => {
            lemma_step_check(s, act, d, g, r);
        },
        Step::Logging(r) => {
            lemma_step_append(s, act, d, g, r);
            maintenance_begins(after_write(s, r), d2, written(g, r));
        },
        Step::FlushTable => {
            lemma_step_flush_table(s, act, d, g);
        },
        Step::FlushManifest => {
            lemma_step_flush_manifest(s, act, d, g);
        },
        Step::FlushReset => {
            let s2 = DbState { mem: Map::empty(), log_len: 0, unsure: false, ..s };
            lemma_step_reset(s, act, d, g);
            maintenance_begins(s2, d2, g);
            assert(open_numbers(idle(s2)) =~= open_numbers(s2));
        },
        Step::CompactRead(inputs) => {
            lemma_step_read(s, act, d, g, inputs);
        },
        Step::CompactTable(max) => {
            lemma_step_merged_table(s, act, d, g, max);
        },
        Step::CompactManifest(t, old) => {
            lemma_step_merged_manifest(s, act, d, g, t, old);
        },
        Step::Removing(rest) => {
            let num = act->RemoveTable_number;
            lemma_step_remove(s, d, g, num);
            assert forall|i: int| 0 <= i < rest.len() implies unused(s, d2, #[trigger] rest[i]) by {
                assert(unused(s, d, rest[i]));
            }
            lemma_remove_on(s, d2, g, rest);
        },
    }
    if !on_log(act) && settled(s, d) {
        lemma_settled(s, d, s3, d2);
    }
}

/// The next sequence number after records: above each of theirs, and no higher than it must be.
proof fn lemma_seq_after(n: u64, rs: Seq<Rec>)
    ensures
        n <= seq_after(n, rs),
        forall|i: int| 0 <= i < rs.len() ==> #[trigger] rs[i].seq < seq_after(n, rs),
        forall|m: int|
            n <= m && (forall|i: int| 0 <= i < rs.len() ==> #[trigger] rs[i].seq < m)
                ==> #[trigger] at_most(seq_after(n, rs), m),
    decreases rs.len(),
{
    if rs.len() > 0 {
        let front = rs.drop_last();
        lemma_seq_after(n, front);
        assert forall|i: int| 0 <= i < rs.len() implies #[trigger] rs[i].seq < seq_after(n, rs) by {
            if i < front.len() {
                assert(front[i].seq < seq_after(n, front));
            }
        }
        assert forall|m: int|
            n <= m && (forall|i: int|
                0 <= i < rs.len() ==> #[trigger] rs[i].seq < m) implies #[trigger] at_most(
            seq_after(n, rs),
            m,
        ) by {
            assert forall|i: int| 0 <= i < front.len() implies #[trigger] front[i].seq < m by {
                assert(rs[i].seq < m);
            }
            assert(at_most(seq_after(n, front), m));
            assert(rs[rs.len() - 1].seq < m);
        }
    }
}

spec fn at_most(a: int, b: int) -> bool {
    a <= b
}

/// What is known of a key after records comes from one of them.
proof fn lemma_mem_seqs(rs: Seq<Rec>, m: int)
    requires
        forall|i: int| 0 <= i < rs.len() ==> #[trigger] rs[i].seq < m,
    ensures
        forall|k: Seq<u8>| #[trigger]
            applied_all(Map::empty(), rs).contains_key(k) ==> applied_all(Map::empty(), rs)[k].seq < m,
{
    let mem = applied_all(Map::empty(), rs);
    assert forall|k: Seq<u8>| #[trigger] mem.contains_key(k) implies mem[k].seq < m by {
        newest_record_wins(rs, k);
        let i = choose|i: int| #[trigger]
            is_newest(rs, i) && rs[i].key == k && mem[k] == cell(rs[i]);
        assert(rs[i].seq < m);
    }
}

/// Tables under a memory table hold the same where all sequence numbers are below another
/// bound.
proof fn lemma_other_bound(
    files: Map<u64, Seq<u8>>,
    nums: Seq<u64>,
    mem: Map<Seq<u8>, Cell>,
    n: int,
    g: Map<Seq<u8>, Seq<u8>>,
    low: int,
    m: int,
)
    requires
        holds(files, nums, mem, n, g),
        seqs_below(stack(files, nums), low),
        low <= m,
        forall|k: Seq<u8>| #[trigger] mem.contains_key(k) ==> mem[k].seq < m,
    ensures
        holds(files, nums, mem, m, g),
{
    let layers = stack(files, nums);
    assert forall|i: int| 0 <= i < layers.len() implies layer_ok(#[trigger] layers[i], m) by {
        assert(layer_ok(layers[i], low));
    }
}

/// Where an open database and its files agree, opening the files anew gives the same entries.
pub proof fn agreement_recovers(s: DbState, d: Disk, g: Map<Seq<u8>, Seq<u8>>)
    requires
        agrees(s, d, g),
        clean(s, d),
    ensures
        recovers(d, g),
{
    let n = log_at(s, d) as int;
    let log = d.log.take(n);
    let tail = d.log.skip(n);
    let rs = replayed(log)->Ok_0;
    let listing = stored_manifest(d.manifest)->Ok_0;
    assert(d.log =~= frames(rs) + tail);
    log_reads_back(rs, tail);
    lemma_seq_after(listing.next_seq, rs);
    assert(at_most(seq_after(listing.next_seq, rs), s.next_seq as int));
    lemma_mem_seqs(rs, seq_after(listing.next_seq, rs));
    lemma_other_bound(
        d.tables,
        numbers(listing.ssts),
        log_mem(s, d),
        s.next_seq as int,
        g,
        listing.next_seq as int,
        seq_after(listing.next_seq, rs),
    );
}

/// The files of a database can be opened at any moment, also after actions that failed. The
/// entries are then those of the database, but for a write that was logged and not
/// acknowledged, if there is one: that may have become one of them.
pub proof fn files_recover(s: DbState, d: Disk, g: Map<Seq<u8>, Seq<u8>>)
    requires
        agrees(s, d, g),
        settled(s, d),
    ensures
        recovers(d, recovered(s, d, g)),
        clean(s, d) ==> recovered(s, d, g) == g,
{
    let at = log_at(s, d) as int;
    let tail = d.log.skip(at);
    let rs = replayed(d.log.take(at))->Ok_0;
    assert(d.log =~= frames(rs) + tail);
    if clean(s, d) {
        log_reads_back(rs, tail);
        if rs.len() > 0 {
            assert(rs[rs.len() - 1].seq < s.next_seq);
        }
        agreement_recovers(s, d, g);
    } else {
        let r = choose|r: Rec| unacknowledged(s, d, r);
        let w = DbState { phase: Step::Logging(r), ..on_disk(s, d) };
        let act = Act::AppendLog { at: w.log_len, bytes: frame(r) };
        assert(open_numbers(w) =~= open_numbers(s));
        assert(log_mem(w, d) == w.mem);
        assert(performed(d, act).log =~= d.log);
        lemma_step_append(w, act, d, g, r);
        append_is_read_back(rs, r);
        assert(rs.push(r).last() == r);
        agreement_recovers(after_write(w, r), d, written(g, r));
    }
}

/// A crash at any point of any operation, even in the middle of an append and also after
/// actions that failed, leaves files from which the entries are recovered as the files had them
/// before the action that it interrupted, as the database had them, or as they are after it.
pub proof fn crash_recovers(s: DbState, act: Act, d: Disk, g: Map<Seq<u8>, Seq<u8>>, d2: Disk)
    requires
        consistent(s, act, d, g),
        settled(s, d),
        countable(act),
        crash_image(d, act, d2),
    ensures
        recovers(d2, recovered(s, d, g)) || recovers(d2, g) || recovers(d2, acknowledged(s, g)),
{
    if d2 == d {
        files_recover(s, d, g);
    } else if d2 == performed(d, act) {
        step_keeps_entries(s, act, d, g);
        let s2 = resumed(s, reply(d, act)).0;
        files_recover(s2, d2, acknowledged(s, g));
    } else {
        let at = act->at;
        let bytes = act->AppendLog_bytes;
        let n = choose|n: int|
            0 <= n <= bytes.len() && d2 == (Disk {
                log: d.log.take(at as int) + #[trigger] bytes.take(n),
                ..d
            });
        if n == bytes.len() {
            assert(bytes.take(n) =~= bytes);
        } else if s.phase is Logging {
            let r = s.phase->Logging_0;
            torn_record_is_ignored(r, n);
            let at = s.log_len as int;
            assert(d2.log.take(at) =~= d.log.take(at));
            assert(d2.log.skip(at) =~= bytes.take(n));
            agreement_recovers(s, d2, g);
        }
    }
}

/// An append that fails leaves nothing behind the records of the log, or the record whole.
proof fn lemma_failed_append(s: DbState, act: Act, d: Disk, g: Map<Seq<u8>, Seq<u8>>, d2: Disk)
    requires
        consistent(s, act, d, g),
        act is AppendLog,
        crash_image(d, act, d2),
        d2 != d,
    ensures
        agrees(s, d2, g),
        settled(s, d2),
{
    let r = s.phase->Logging_0;
    let bytes = frame(r);
    let at = s.log_len as int;
    assert(bytes.take(bytes.len() as int) =~= bytes);
    let n = choose|n: int|
        0 <= n <= bytes.len() && d2 == (Disk { log: d.log.take(at) + #[trigger] bytes.take(n), ..d });
    assert(d2.log.take(at) =~= d.log.take(at));
    assert(d2.log.skip(at) =~= bytes.take(n));
    if n == bytes.len() {
        lemma_part_written(log_mem(s, d), s.mem, s.next_seq as int, r);
        assert(unacknowledged(s, d2, r));
    } else {
        torn_record_is_ignored(r, n);
    }
}

/// An action that fails, whether it was done, partly done or not done, leaves database and
/// files in agreement on the entries as they were, and what a restart finds in order. The next
/// operation can begin.
pub proof fn failure_keeps_entries(s: DbState, act: Act, d: Disk, g: Map<Seq<u8>, Seq<u8>>, d2: Disk)
    requires
        consistent(s, act, d, g),
        settled(s, d),
        countable(act),
        crash_image(d, act, d2),
    ensures
        agrees(s, d2, g),
        settled(s, d2),
{
    if d2 != d {
        match act {
            Act::AppendLog { at, bytes } => {
                lemma_failed_append(s, act, d, g, d2);
            },
            Act::ResetLog => {
                lemma_step_reset(s, act, d, g);
            },
            Act::WriteTable { number, bytes } => {
                lemma_step_file(s, d, g, bytes);
            },
            Act::WriteManifest { text } => {
                lemma_step_manifest(s, d, g, s.mem);
                lemma_step_manifest(s, d, g, log_mem(s, d));
            },
            Act::RemoveTable { number } => {
                lemma_step_remove(s, d, g, number);
            },
            _ => {},
        }
        if !on_log(act) {
            lemma_settled(s, d, s, d2);
        }
    }
}

/// Good tables open with the index of their records.
proof fn lemma_opened_all(files: Map<u64, Seq<u8>>, nums: Seq<u64>)
    requires
        present(files, nums),
    ensures
        opened_all(files, nums) == Ok::<Seq<Table>, Fault>(
            nums.map_values(|n: u64| table_of(n, content(files[n]))),
        ),
    decreases nums.len(),
{
    let ts = nums.map_values(|n: u64| table_of(n, content(files[n])));
    if nums.len() == 0 {
        assert(ts =~= Seq::empty());
    } else {
        let front = nums.drop_last();
        let last = nums[nums.len() - 1];
        assert forall|i: int| 0 <= i < front.len() implies files.contains_key(#[trigger] front[i])
            && good_file(files[front[i]]) by {
            assert(front[i] == nums[i]);
        }
        lemma_opened_all(files, front);
        assert(good_file(files[last]));
        table_opens(last, files[last], content(files[last]));
        assert(front.map_values(|n: u64| table_of(n, content(files[n]))).push(
            table_of(last, content(files[last])),
        ) =~= ts);
    }
}

/// Opening files from which entries can be recovered succeeds, and the open database agrees
/// with them on those entries.
pub proof fn restart_recovers(d: Disk, g: Map<Seq<u8>, Seq<u8>>)
    requires
        recovers(d, g),
    ensures
        restart(d) matches Ok(s) && consistent(s, Act::Done, d, g) && clean(s, d),
{
    let listing = stored_manifest(d.manifest)->Ok_0;
    let nums = numbers(listing.ssts);
    let rs = replayed(d.log)->Ok_0;
    let n = whole_len(d.log) as int;
    lemma_opened_all(d.tables, nums);
    let s = restart(d)->Ok_0;
    assert(open_numbers(s) =~= nums);
    lemma_seq_after(listing.next_seq, rs);
    let none = Seq::<u8>::empty();
    lemma_consumed(none);
    log_reads_back(rs, none);
    assert(frames(rs) + none =~= d.log.take(n));
}

/// A directory without files is a database without entries.
pub proof fn fresh_is_empty()
    ensures
        recovers(
            Disk { log: Seq::empty(), manifest: None, tables: Map::empty() },
            Map::<Seq<u8>, Seq<u8>>::empty(),
        ),
{
    let d = Disk { log: Seq::empty(), manifest: None, tables: Map::empty() };
    let none = Seq::<u8>::empty();
    let rs = Seq::<Rec>::empty();
    lemma_empty_log(1);
    log_reads_back(rs, none);
    assert(frames(rs) + none =~= none);
    assert(d.log.skip(0) =~= none);
    assert(d.log.take(0) =~= none);
    assert(replayed(none)->Ok_0 =~= rs);
    lemma_empty_mem(1);
    let nums = numbers(fresh().ssts);
    assert(stack(d.tables, nums) =~= Seq::empty());
}

/// Removing a table that the manifest does not list changes nothing for who opens the files.
pub proof fn cleanup_keeps_entries(d: Disk, g: Map<Seq<u8>, Seq<u8>>, num: u64)
    requires
        recovers(d, g),
        stored_manifest(d.manifest) matches Ok(listing) && !crate::files::listed(listing.ssts, num),
    ensures
        recovers(Disk { tables: d.tables.remove(num), ..d }, g),
{
    let listing = stored_manifest(d.manifest)->Ok_0;
    let nums = numbers(listing.ssts);
    let rs = replayed(d.log)->Ok_0;
    if nums.contains(num) {
        let i = choose|i: int| 0 <= i < nums.len() && nums[i] == num;
        assert(listing.ssts[i].number == num);
    }
    lemma_file_gone(
        d.tables,
        num,
        nums,
        applied_all(Map::empty(), rs),
        seq_after(listing.next_seq, rs),
        g,
    );
}

/// A file that the manifest does not list plays no part in opening a database.
pub proof fn stray_table_is_ignored(d: Disk, num: u64, junk: Seq<u8>)
    requires
        stored_manifest(d.manifest) matches Ok(listing) && !crate::files::listed(listing.ssts, num),
    ensures
        restart(Disk { tables: d.tables.insert(num, junk), ..d }) == restart(d),
{
    let listing = stored_manifest(d.manifest)->Ok_0;
    let nums = numbers(listing.ssts);
    assert forall|i: int| 0 <= i < nums.len() implies #[trigger] nums[i] != num by {
        assert(listing.ssts[i].number == nums[i]);
    }
    lemma_stray(d.tables, num, junk, nums);
}

proof fn lemma_stray(files: Map<u64, Seq<u8>>, num: u64, junk: Seq<u8>, nums: Seq<u64>)
    requires
        forall|i: int| 0 <= i < nums.len() ==> #[trigger] nums[i] != num,
    ensures
        opened_all(files.insert(num, junk), nums) == opened_all(files, nums),
    decreases nums.len(),
{
    if nums.len() > 0 {
        let front = nums.drop_last();
        assert forall|i: int| 0 <= i < front.len() implies #[trigger] front[i] != num by {
            assert(nums[i] != num);
        }
        lemma_stray(files, num, junk, front);
        assert(nums[nums.len() - 1] != num);
    }
}

/// A search among the `n` oldest tables finds the newest record there.
proof fn lemma_followed(s: DbState, files: Map<u64, Seq<u8>>, key: Seq<u8>, n: nat, m: nat)
    requires
        n <= m,
        n <= s.tables.len(),
        present(files, open_numbers(s)),
        forall|i: int|
            0 <= i < s.tables.len() ==> #[trigger] s.tables[i] == table_of(
                s.tables[i].number,
                content(files[s.tables[i].number]),
            ),
    ensures
        followed(s, files, key, probe(s.tables, key, n), m) == Ok::<Option<Seq<u8>>, Fault>(
            shown_rec(newest(stack(files, open_numbers(s)).take(n as int), key)),
        ),
    decreases n,
{
    reveal_with_fuel(followed, 2);
    let layers = stack(files, open_numbers(s));
    let front = layers.take(n as int);
    if n == 0 {
        assert(front =~= Seq::empty());
    } else {
        let older = (n - 1) as nat;
        lemma_followed(s, files, key, older, m);
        lemma_followed(s, files, key, older, older);
        let t = s.tables[older as int];
        let file = files[t.number];
        assert(open_numbers(s)[older as int] == t.number);
        assert(good_file(file));
        table_finds(t.number, file, content(file), key);
        assert(front.drop_last() =~= layers.take(older as int));
        assert(front.last() == content(file));
    }
}

/// A read gives back what was last written: the value of the key's newest write, and nothing
/// where there is none or it is a delete.
pub proof fn get_answers(s: DbState, d: Disk, g: Map<Seq<u8>, Seq<u8>>, key: Seq<u8>)
    requires
        agrees(s, d, g),
    ensures
        answered(s, d.tables, key) == Ok::<Option<Seq<u8>>, Fault>(entry(g, key)),
{
    let layers = stack(d.tables, open_numbers(s));
    lemma_followed(s, d.tables, key, s.tables.len(), s.tables.len());
    assert(layers.take(s.tables.len() as int) =~= layers);
    assert(value(layers, s.mem, key) == entry(g, key));
}

/// After a crash at any point the database opens, and all its reads are answered alike: as the
/// files had the entries before the interrupted action, as the database had them, or as they
/// are after it.
pub proof fn crash_then_reads(s: DbState, act: Act, d: Disk, g: Map<Seq<u8>, Seq<u8>>, d2: Disk)
    requires
        consistent(s, act, d, g),
        settled(s, d),
        countable(act),
        crash_image(d, act, d2),
    ensures
        restart(d2) matches Ok(s2) && {
            ||| reads_as_map(s2, d2, recovered(s, d, g))
            ||| reads_as_map(s2, d2, g)
            ||| reads_as_map(s2, d2, acknowledged(s, g))
        },
{
    crash_recovers(s, act, d, g, d2);
    let h = if recovers(d2, g) {
        g
    } else if recovers(d2, acknowledged(s, g)) {
        acknowledged(s, g)
    } else {
        recovered(s, d, g)
    };
    restart_recovers(d2, h);
    let s2 = restart(d2)->Ok_0;
    assert forall|k: Seq<u8>| #[trigger]
        answered(s2, d2.tables, k) == Ok::<Option<Seq<u8>>, Fault>(entry(h, k)) by {
        get_answers(s2, d2, h, k);
    }
}

/// Every read of the database `s` gives what the map `g` says.
pub open spec fn reads_as_map(s: DbState, d: Disk, g: Map<Seq<u8>, Seq<u8>>) -> bool {
    forall|k: Seq<u8>| #[trigger]
        answered(s, d.tables, k) == Ok::<Option<Seq<u8>>, Fault>(entry(g, k))
}

/// How many actions an operation may still take.
pub open spec fn rank(s: DbState) -> nat {
    let t = s.tables.len();
    let m = s.manifest.ssts.len();
    match s.phase {
        Step::Idle => 0,
        Step::Checking(_) => t + m + 13,
        Step::Logging(_) => t + m + 12,
        Step::FlushTable => t + m + 11,
        Step::FlushManifest => t + m + 7,
        Step::FlushReset => t + m + 6,
        Step::CompactRead(inputs) => if inputs.len() < t {
            (t - inputs.len() + m + 4) as nat
        } else {
            m + 4
        },
        Step::CompactTable(_) => m + 3,
        Step::CompactManifest(_, old) => old.len() + 2,
        Step::Removing(rest) => rest.len() + 1,
    }
}

/// Every operation ends: each action that it takes leaves fewer to take.
pub proof fn operations_end(s: DbState, data: Seq<u8>)
    ensures
        match resumed(s, data).1 {
            Ok(act) => act is Done || rank(resumed(s, data).0) < rank(s),
            Err(_) => true,
        },
{
}

/// The operation under way in `s`, waiting for `act`, done to its end.
pub open spec fn run(s: DbState, act: Act, d: Disk) -> (DbState, Result<(), Fault>, Disk)
    decreases rank(s),
{
    if act is Done {
        (s, Ok(()), d)
    } else if !countable(act) {
        (s, Err(Fault::Overflow), d)
    } else {
        proof {
            operations_end(s, reply(d, act));
        }
        match resumed(s, reply(d, act)) {
            (s2, Err(f)) => (s2, Err(f), performed(d, act)),
            (s2, Ok(Act::Done)) => (s2, Ok(()), performed(d, act)),
            (s2, Ok(act2)) => run(s2, act2, performed(d, act)),
        }
    }
}

/// There is no number left for a new table, or the one that a flush or a merge would write is
/// longer than can be counted.
pub open spec fn no_room_for_table(s: DbState, d: Disk) -> bool {
    ||| s.next_sst == u64::MAX
    ||| table_bytes(recs_of(in_order(s.mem))).len() > u64::MAX
    ||| table_bytes(merged(joined(stack(d.tables, open_numbers(s))), true)).len() > u64::MAX
}

/// An operation, done to its end, leaves the entries that it was meant to.
proof fn lemma_run(s: DbState, act: Act, d: Disk, g: Map<Seq<u8>, Seq<u8>>)
    requires
        consistent(s, act, d, g),
        clean(s, d),
    ensures
        match run(s, act, d) {
            (s2, Ok(_), d2) => consistent(s2, Act::Done, d2, intended(s, g)) && clean(s2, d2),
            (s2, Err(f), d2) => {
                &&& f == Fault::Overflow
                &&& no_room_for_table(s2, d2)
                &&& agrees(s2, d2, intended(s, g))
                &&& clean(s2, d2)
            },
        },
    decreases rank(s),
{
    if !(act is Done) && countable(act) {
        step_keeps_entries(s, act, d, g);
        operations_end(s, reply(d, act));
        let (s2, res) = resumed(s, reply(d, act));
        if let Ok(act2) = res {
            if !(act2 is Done) {
                lemma_run(s2, act2, performed(d, act), acknowledged(s, g));
                lemma_one_write(s, reply(d, act));
            }
        }
    }
}

/// No operation goes on to write another record.
proof fn lemma_one_write(s: DbState, data: Seq<u8>)
    ensures
        !(resumed(s, data).0.phase is Checking),
        resumed(s, data).0.phase matches Step::Logging(r) ==> s.phase == Step::Checking(r),
{
}

/// What can be done with a database.
pub enum Op {
    Put(Seq<u8>, Seq<u8>),
    Delete(Seq<u8>),
    Flush,
    Compact,
    Reopen,
}

/// The record of an operation can be read back.
pub open spec fn op_fits(op: Op) -> bool {
    match op {
        Op::Put(k, v) => fits(Rec { seq: 0, kind: Kind::Put, key: k, value: v }),
        Op::Delete(k) => fits(Rec { seq: 0, kind: Kind::Tombstone, key: k, value: Seq::empty() }),
        _ => true,
    }
}

/// What the operation `op` does to a map: nothing, where its record is too long.
pub open spec fn modelled(g: Map<Seq<u8>, Seq<u8>>, op: Op) -> Map<Seq<u8>, Seq<u8>> {
    match op {
        Op::Put(k, v) => if op_fits(op) {
            g.insert(k, v)
        } else {
            g
        },
        Op::Delete(k) => if op_fits(op) {
            g.remove(k)
        } else {
            g
        },
        _ => g,
    }
}

/// An operation that has begun, done to its end.
pub open spec fn finish(begun: (DbState, Result<Act, Fault>), d: Disk) -> (
    DbState,
    Result<(), Fault>,
    Disk,
) {
    match begun.1 {
        Ok(act) => run(begun.0, act, d),
        Err(f) => (begun.0, Err(f), d),
    }
}

/// The operation `op` on the database `s` with the files `d`, done to its end.
pub open spec fn operated(s: DbState, d: Disk, op: Op) -> (DbState, Result<(), Fault>, Disk) {
    match op {
        Op::Put(k, v) => finish(begin_write(s, Kind::Put, k, v), d),
        Op::Delete(k) => finish(begin_write(s, Kind::Tombstone, k, Seq::empty()), d),
        Op::Flush => finish(begin_flush(s), d),
        Op::Compact => finish(begin_compact(s), d),
        Op::Reopen => match restart(d) {
            Ok(s2) => (s2, Ok(()), d),
            Err(f) => (s, Err(f), d),
        },
    }
}

/// The operations `ops`, one after the other. A write that is refused for its length is passed
/// over.
pub open spec fn operated_all(s: DbState, d: Disk, ops: Seq<Op>) -> (DbState, Result<(), Fault>, Disk)
    decreases ops.len(),
{
    if ops.len() == 0 {
        (s, Ok(()), d)
    } else {
        match operated_all(s, d, ops.drop_last()) {
            (s2, Ok(_), d2) => match operated(s2, d2, ops.last()) {
                (s3, Err(Fault::RecordTooLong), d3) => (s3, Ok(()), d3),
                out => out,
            },
            (s2, Err(f), d2) => (s2, Err(f), d2),
        }
    }
}

/// What the operations `ops` do to a map.
pub open spec fn modelled_all(g: Map<Seq<u8>, Seq<u8>>, ops: Seq<Op>) -> Map<Seq<u8>, Seq<u8>>
    decreases ops.len(),
{
    if ops.len() == 0 {
        g
    } else {
        modelled(modelled_all(g, ops.drop_last()), ops.last())
    }
}

/// The operation `op` finds a counter or a size without room before it begins.
pub open spec fn op_overflows(s: DbState, op: Op) -> bool {
    match op {
        Op::Put(k, v) => overflows(s, Rec { seq: s.next_seq, kind: Kind::Put, key: k, value: v }),
        Op::Delete(k) => overflows(
            s,
            Rec { seq: s.next_seq, kind: Kind::Tombstone, key: k, value: Seq::empty() },
        ),
        _ => false,
    }
}

/// The operation `op`, which found the entries of `g`, was refused and left `s` and `d`: before
/// it began, for want of room for its record, or after its write was done, for want of room
/// for a table.
pub open spec fn stopped(s: DbState, d: Disk, g: Map<Seq<u8>, Seq<u8>>, op: Op) -> bool {
    &&& clean(s, d)
    &&& {
        ||| op_overflows(s, op) && agrees(s, d, g)
        ||| no_room_for_table(s, d) && agrees(s, d, modelled(g, op))
    }
}

/// One operation does to the database what it does to a map, unless a counter or a size runs
/// out. A write is refused for its length if and only if its record is too long, and then
/// nothing changes. Whatever is refused, the database and its files agree, and what was written
/// before is kept.
pub proof fn operation_matches_model(s: DbState, d: Disk, g: Map<Seq<u8>, Seq<u8>>, op: Op)
    requires
        consistent(s, Act::Done, d, g),
        clean(s, d),
    ensures
        match operated(s, d, op) {
            (s2, Ok(_), d2) => {
                &&& op_fits(op)
                &&& consistent(s2, Act::Done, d2, modelled(g, op))
                &&& clean(s2, d2)
            },
            (s2, Err(f), d2) => if op_fits(op) {
                f == Fault::Overflow && stopped(s2, d2, g, op)
            } else {
                f == Fault::RecordTooLong && s2 == idle(s) && d2 == d
            },
        },
{
    match op {
        Op::Put(k, v) => {
            write_begins(s, d, g, Kind::Put, k, v);
            if let (s2, Ok(act)) = begin_write(s, Kind::Put, k, v) {
                lemma_run(s2, act, d, g);
            }
        },
        Op::Delete(k) => {
            write_begins(s, d, g, Kind::Tombstone, k, Seq::empty());
            if let (s2, Ok(act)) = begin_write(s, Kind::Tombstone, k, Seq::empty()) {
                lemma_run(s2, act, d, g);
            }
        },
        Op::Flush => {
            maintenance_begins(s, d, g);
            if let (s2, Ok(act)) = begin_flush(s) {
                lemma_run(s2, act, d, g);
            }
        },
        Op::Compact => {
            maintenance_begins(s, d, g);
            if let (s2, Ok(act)) = begin_compact(s) {
                lemma_run(s2, act, d, g);
            }
        },
        Op::Reopen => {
            agreement_recovers(s, d, g);
            restart_recovers(d, g);
        },
    }
}

/// Under any sequence of operations, reopening among them, the database behaves as a map does:
/// unless a counter or a size runs out, every operation succeeds, but for writes that are
/// refused for their length, and every read of the database then gives what the map says.
pub proof fn engine_matches_model(
    s: DbState,
    d: Disk,
    g: Map<Seq<u8>, Seq<u8>>,
    ops: Seq<Op>,
    key: Seq<u8>,
)
    requires
        consistent(s, Act::Done, d, g),
        clean(s, d),
    ensures
        match operated_all(s, d, ops) {
            (s2, Ok(_), d2) => {
                &&& consistent(s2, Act::Done, d2, modelled_all(g, ops))
                &&& clean(s2, d2)
                &&& answered(s2, d2.tables, key) == Ok::<Option<Seq<u8>>, Fault>(
                    entry(modelled_all(g, ops), key),
                )
            },
            (s2, Err(f), d2) => f == Fault::Overflow && exists|i: int|
                0 <= i < ops.len() && stopped(
                    s2,
                    d2,
                    modelled_all(g, #[trigger] ops.take(i)),
                    ops[i],
                ),
        },
    decreases ops.len(),
{
    if ops.len() > 0 {
        let front = ops.drop_last();
        engine_matches_model(s, d, g, front, key);
        match operated_all(s, d, front) {
            (s2, Ok(_), d2) => {
                operation_matches_model(s2, d2, modelled_all(g, front), ops.last());
                assert(ops.take(ops.len() - 1) =~= front);
            },
            (s2, Err(_), d2) => {
                let i = choose|i: int|
                    0 <= i < front.len() && stopped(
                        s2,
                        d2,
                        modelled_all(g, #[trigger] front.take(i)),
                        front[i],
                    );
                assert(ops.take(i) =~= front.take(i));
            },
        }
    }
    if let (s2, Ok(_), d2) = operated_all(s, d, ops) {
        get_answers(s2, d2, modelled_all(g, ops), key);
    }
}

/// The records of all open tables, merged.
pub open spec fn merged_records(s: DbState, d: Disk) -> Seq<Rec> {
    merged(joined(stack(d.tables, open_numbers(s))), true)
}

/// The database `s` once all its tables are merged.
pub open spec fn compacted(s: DbState, d: Disk) -> DbState {
    let rs = merged_records(s, d);
    let next_sst = (s.next_sst + 1) as u64;
    DbState {
        tables: seq![table_of(s.next_sst, rs)],
        next_sst,
        manifest: Listing {
            next_seq: s.next_seq,
            next_sst,
            ssts: seq![SstEntry { number: s.next_sst, max_seq: highest_seq(rs) }],
        },
        phase: Step::Idle,
        ..s
    }
}

/// The files `d2` are those of the database `s` with the files `d` once all its tables are
/// merged: the merged table is there and listed, the tables that were listed are gone, and the
/// log is as it was.
pub open spec fn compacted_files(s: DbState, d: Disk, d2: Disk) -> bool {
    let num = s.next_sst;
    &&& d2.log == d.log
    &&& d2.manifest == Some(manifest_text(compacted(s, d).manifest))
    &&& d2.tables.contains_key(num)
    &&& d2.tables[num] == table_bytes(merged_records(s, d))
    &&& forall|i: int|
        0 <= i < s.manifest.ssts.len() ==> !d2.tables.contains_key(
            (#[trigger] s.manifest.ssts[i]).number,
        )
    &&& forall|n: u64| #[trigger]
        d2.tables.contains_key(n) <==> n == num || (d.tables.contains_key(n) && !numbers(
            s.manifest.ssts,
        ).contains(n))
    &&& forall|n: u64| #[trigger]
        d2.tables.contains_key(n) && n != num ==> d2.tables[n] == d.tables[n]
}

/// Tables that were merged are removed one after the other, and nothing else happens.
proof fn lemma_run_removing(s: DbState, act: Act, d: Disk, num: u64)
    requires
        s.phase is Removing,
        act is RemoveTable,
        act->RemoveTable_number != num,
        !s.phase->Removing_0.contains(num),
    ensures
        ({
            let (s2, res, d2) = run(s, act, d);
            let rest = s.phase->Removing_0;
            &&& res is Ok
            &&& s2 == idle(s)
            &&& d2.log == d.log
            &&& d2.manifest == d.manifest
            &&& d2.tables.contains_key(num) == d.tables.contains_key(num)
            &&& d2.tables[num] == d.tables[num]
            &&& forall|n: u64| #[trigger]
                d2.tables.contains_key(n) <==> d.tables.contains_key(n) && n
                    != act->RemoveTable_number && !rest.contains(n)
            &&& forall|n: u64| #[trigger]
                d2.tables.contains_key(n) ==> d2.tables[n] == d.tables[n]
        }),
    decreases s.phase->Removing_0.len(),
{
    let rest = s.phase->Removing_0;
    let d1 = performed(d, act);
    let (s1, res) = resumed(s, reply(d, act));
    operations_end(s, reply(d, act));
    if rest.len() > 0 {
        let more = rest.drop_first();
        assert(rest.contains(rest[0]));
        assert(rest =~= seq![rest[0]] + more);
        assert forall|n: u64| rest.contains(n) <==> n == rest[0] || more.contains(n) by {
            if rest.contains(n) && n != rest[0] {
                let i = rest.index_of(n);
                assert(more[i - 1] == n);
            }
            if more.contains(n) {
                let i = more.index_of(n);
                assert(rest[i + 1] == n);
            }
        }
        lemma_run_removing(s1, Act::RemoveTable { number: rest[0] }, d1, num);
    }
}

/// The merged table is written and listed, and those that it was made of are removed.
proof fn lemma_run_merged(s: DbState, d: Disk, g: Map<Seq<u8>, Seq<u8>>)
    requires
        agrees(s, d, g),
        s.next_sst < u64::MAX,
    ensures
        ({
            let rs = merged_records(s, d);
            let act = Act::WriteTable { number: s.next_sst, bytes: table_bytes(rs) };
            let s1 = DbState { phase: Step::CompactTable(highest_seq(rs)), ..s };
            let (s2, res, d2) = run(s1, act, d);
            res is Ok ==> s2 == compacted(s, d) && compacted_files(s, d, d2)
        }),
{
    reveal_with_fuel(run, 3);
    let rs = merged_records(s, d);
    let num = s.next_sst;
    let bytes = table_bytes(rs);
    let act = Act::WriteTable { number: num, bytes };
    let s1 = DbState { phase: Step::CompactTable(highest_seq(rs)), ..s };
    if countable(act) {
        lemma_merged(d.tables, num, bytes, open_numbers(s), s.mem, s.next_seq as int, g);
        table_opens(num, bytes, rs);
        let old = numbers(s.manifest.ssts);
        let d1 = performed(d, act);
        let s2 = resumed(s1, bytes).0;
        let act2 = Act::WriteManifest { text: manifest_text(s2.manifest) };
        let d2 = performed(d1, act2);
        let (s3, res3) = resumed(s2, reply(d1, act2));
        operations_end(s1, bytes);
        operations_end(s2, reply(d1, act2));
        assert(!old.contains(num));
        if old.len() > 0 {
            let more = old.drop_first();
            assert(!more.contains(num)) by {
                if more.contains(num) {
                    let i = more.index_of(num);
                    assert(old[i + 1] == num);
                }
            }
            assert(old[0] != num);
            let act3 = Act::RemoveTable { number: old[0] };
            lemma_run_removing(s3, act3, d2, num);
            let d3 = run(s3, act3, d2).2;
            assert forall|i: int| 0 <= i < s.manifest.ssts.len() implies !d3.tables.contains_key(
                (#[trigger] s.manifest.ssts[i]).number,
            ) by {
                assert(old[i] == s.manifest.ssts[i].number);
                if i > 0 {
                    assert(more[i - 1] == old[i]);
                }
            }
        }
        assert(idle(s3) =~= compacted(s, d));
    }
}

/// The tables are read one after the other, then the merged one is written.
proof fn lemma_run_read(s: DbState, d: Disk, g: Map<Seq<u8>, Seq<u8>>, inputs: Seq<Seq<Rec>>)
    requires
        agrees(s, d, g),
        inputs.len() <= s.tables.len(),
        inputs == stack(d.tables, open_numbers(s)).take(inputs.len() as int),
    ensures
        ({
            let (s2, res, d2) = finish(read_on(s, inputs), d);
            res is Ok ==> s2 == compacted(s, d) && compacted_files(s, d, d2)
        }),
    decreases s.tables.len() - inputs.len(),
{
    let layers = stack(d.tables, open_numbers(s));
    let i = inputs.len() as int;
    if i < s.tables.len() {
        let t = s.tables[i];
        let file = d.tables[t.number];
        assert(open_numbers(s)[i] == t.number);
        assert(good_file(file));
        let rs = content(file);
        table_records_read_back(t.number, file, rs);
        assert(layers[i] == rs);
        assert(inputs.push(rs) =~= layers.take(i + 1));
        lemma_run_read(s, d, g, inputs.push(rs));
        let (s1, act) = (read_on(s, inputs).0, read_on(s, inputs).1->Ok_0);
        operations_end(s1, reply(d, act));
        assert(read_on(s1, inputs.push(rs)) == read_on(s, inputs.push(rs)));
    } else {
        assert(inputs =~= layers);
        if s.next_sst < u64::MAX {
            lemma_run_merged(s, d, g);
        }
    }
}

/// Merging two tables or more, done to its end, leaves exactly one, which holds of each key the
/// newest record, if that is no tombstone. Entries in memory, log and sequence numbers are
/// untouched, and the tables that were merged are gone.
pub proof fn compaction_leaves_one_table(s: DbState, d: Disk, g: Map<Seq<u8>, Seq<u8>>)
    requires
        agrees(s, d, g),
    ensures
        ({
            let (s2, res, d2) = operated(s, d, Op::Compact);
            if s.tables.len() < 2 {
                res is Ok && s2 == idle(s) && d2 == d
            } else {
                res is Ok ==> s2 == compacted(s, d) && compacted_files(s, d, d2)
            }
        }),
        compacted(s, d).tables.len() == 1,
        compacted(s, d).next_seq == s.next_seq,
        forall|k: Seq<u8>| #[trigger]
            pick(merged_records(s, d), k) == match newest(stack(d.tables, open_numbers(s)), k) {
                Some(r) => if r.kind == Kind::Put {
                    Some(r)
                } else {
                    None
                },
                None => None,
            },
{
    let none = Seq::<Seq<Rec>>::empty();
    let layers = stack(d.tables, open_numbers(s));
    assert(layers.take(0) =~= none);
    if s.tables.len() >= 2 {
        lemma_run_read(s, d, g, none);
    }
    assert forall|k: Seq<u8>| #[trigger]
        pick(merged_records(s, d), k) == match newest(layers, k) {
            Some(r) => if r.kind == Kind::Put {
                Some(r)
            } else {
                None
            },
            None => None,
        } by {
        lemma_merged_pick(layers, s.mem, s.next_seq as int, k);
    }
}

/// The database `s` once its memory table is flushed.
pub open spec fn flushed(s: DbState) -> DbState {
    let rs = recs_of(in_order(s.mem));
    let next_sst = (s.next_sst + 1) as u64;
    DbState {
        mem: Map::empty(),
        log_len: 0,
        unsure: false,
        tables: s.tables.push(table_of(s.next_sst, rs)),
        next_sst,
        manifest: Listing {
            next_seq: s.next_seq,
            next_sst,
            ssts: s.manifest.ssts.push(SstEntry { number: s.next_sst, max_seq: highest_seq(rs) }),
        },
        phase: Step::Idle,
        ..s
    }
}

/// The files of the database `s` once its memory table is flushed: the table is there and
/// listed, and the log is empty.
pub open spec fn flushed_files(s: DbState, d: Disk) -> Disk {
    Disk {
        log: Seq::empty(),
        manifest: Some(manifest_text(flushed(s).manifest)),
        tables: d.tables.insert(s.next_sst, table_bytes(recs_of(in_order(s.mem)))),
    }
}

/// A flush, done to its end, leaves the memory table and the log empty and the sequence numbers
/// as they were. What the memory table held is one more table; where there are then too many,
/// all are merged.
pub proof fn flush_moves_memory_to_a_table(s: DbState, d: Disk, g: Map<Seq<u8>, Seq<u8>>)
    requires
        agrees(s, d, g),
    ensures
        ({
            let (s2, res, d2) = operated(s, d, Op::Flush);
            if s.mem == Map::<Seq<u8>, Cell>::empty() {
                res is Ok && s2 == idle(s) && d2 == d
            } else if s.tables.len() < COMPACTION_TRIGGER {
                res is Ok ==> s2 == flushed(s) && d2 == flushed_files(s, d)
            } else {
                res is Ok ==> {
                    &&& s2 == compacted(flushed(s), flushed_files(s, d))
                    &&& compacted_files(flushed(s), flushed_files(s, d), d2)
                }
            }
        }),
        flushed(s).next_seq == s.next_seq,
        flushed(s).tables.len() == s.tables.len() + 1,
{
    reveal_with_fuel(run, 4);
    if s.mem != Map::<Seq<u8>, Cell>::empty() && s.next_sst < u64::MAX {
        let num = s.next_sst;
        let rs = recs_of(in_order(s.mem));
        let (s0, act0) = (begin_flush(s).0, begin_flush(s).1->Ok_0);
        maintenance_begins(s, d, g);
        if countable(act0) {
            lemma_flushed(d.tables, num, table_bytes(rs), open_numbers(s), s.mem, s.next_seq as int, g);
            table_opens(num, table_bytes(rs), rs);
            step_keeps_entries(s0, act0, d, g);
            let d1 = performed(d, act0);
            let (s1, act1) = (resumed(s0, reply(d, act0)).0, resumed(s0, reply(d, act0)).1->Ok_0);
            step_keeps_entries(s1, act1, d1, g);
            let d2 = performed(d1, act1);
            let s2 = resumed(s1, reply(d1, act1)).0;
            lemma_step_reset(s2, Act::ResetLog, d2, g);
            let d3 = performed(d2, Act::ResetLog);
            operations_end(s0, reply(d, act0));
            operations_end(s1, reply(d1, act1));
            operations_end(s2, reply(d2, Act::ResetLog));
            let s3 = flushed(s);
            let s4 = DbState { phase: s2.phase, ..s3 };
            assert(resumed(s2, reply(d2, Act::ResetLog)) == crate::db::log_reset(s2));
            assert(d3 =~= flushed_files(s, d));
            if s3.tables.len() > COMPACTION_TRIGGER {
                let none = Seq::<Seq<Rec>>::empty();
                assert(open_numbers(s3) =~= open_numbers(s4));
                assert(stack(d3.tables, open_numbers(s3)).take(0) =~= none);
                lemma_run_read(s3, d3, g, none);
                assert(read_on(s4, none) == read_on(s3, none));
            }
        }
    }
}

/// A flush that ends well had a number for its table, and one for the merged table where it went
/// on to merge.
pub proof fn flush_has_room(s: DbState, d: Disk, g: Map<Seq<u8>, Seq<u8>>)
    requires
        agrees(s, d, g),
        s.mem != Map::<Seq<u8>, Cell>::empty(),
        operated(s, d, Op::Flush).1 is Ok,
    ensures
        s.next_sst < u64::MAX,
        s.tables.len() >= 4 ==> s.next_sst + 1 < u64::MAX,
        opened(s.next_sst, table_bytes(recs_of(in_order(s.mem)))) == Ok::<Table, Fault>(
            table_of(s.next_sst, recs_of(in_order(s.mem))),
        ),
        stack(flushed_files(s, d).tables, open_numbers(flushed(s))) == stack(
            d.tables,
            open_numbers(s),
        ).push(recs_of(in_order(s.mem))),
        s.tables.len() >= 4 ==> opened(
            flushed(s).next_sst,
            table_bytes(merged_records(flushed(s), flushed_files(s, d))),
        ) is Ok,
{
    reveal_with_fuel(run, 4);
    let num = s.next_sst;
    let rs = recs_of(in_order(s.mem));
    let (s0, act0) = (begin_flush(s).0, begin_flush(s).1->Ok_0);
    maintenance_begins(s, d, g);
    lemma_flushed(d.tables, num, table_bytes(rs), open_numbers(s), s.mem, s.next_seq as int, g);
    table_opens(num, table_bytes(rs), rs);
    step_keeps_entries(s0, act0, d, g);
    let d1 = performed(d, act0);
    let (s1, act1) = (resumed(s0, reply(d, act0)).0, resumed(s0, reply(d, act0)).1->Ok_0);
    step_keeps_entries(s1, act1, d1, g);
    let d2 = performed(d1, act1);
    let s2 = resumed(s1, reply(d1, act1)).0;
    lemma_step_reset(s2, Act::ResetLog, d2, g);
    let d3 = performed(d2, Act::ResetLog);
    operations_end(s0, reply(d, act0));
    operations_end(s1, reply(d1, act1));
    operations_end(s2, reply(d2, Act::ResetLog));
    let s3 = flushed(s);
    let s4 = DbState { phase: s2.phase, ..s3 };
    assert(d3 =~= flushed_files(s, d));
    assert(open_numbers(s3) =~= open_numbers(s).push(num));
    if s3.tables.len() > COMPACTION_TRIGGER {
        let none = Seq::<Seq<Rec>>::empty();
        assert(open_numbers(s3) =~= open_numbers(s4));
        assert(stack(d3.tables, open_numbers(s3)).take(0) =~= none);
        lemma_read_has_room(s3, d3, g, none);
        assert(read_on(s4, none) == read_on(s3, none));
    }
}

/// A merge that ends well had a number for its table.
proof fn lemma_read_has_room(s: DbState, d: Disk, g: Map<Seq<u8>, Seq<u8>>, inputs: Seq<Seq<Rec>>)
    requires
        agrees(s, d, g),
        inputs.len() <= s.tables.len(),
        inputs == stack(d.tables, open_numbers(s)).take(inputs.len() as int),
        finish(read_on(s, inputs), d).1 is Ok,
    ensures
        s.next_sst < u64::MAX,
        opened(s.next_sst, table_bytes(merged_records(s, d))) == Ok::<Table, Fault>(
            table_of(s.next_sst, merged_records(s, d)),
        ),
    decreases s.tables.len() - inputs.len(),
{
    let layers = stack(d.tables, open_numbers(s));
    let i = inputs.len() as int;
    if i < s.tables.len() {
        let t = s.tables[i];
        let file = d.tables[t.number];
        assert(open_numbers(s)[i] == t.number);
        assert(good_file(file));
        let rs = content(file);
        table_records_read_back(t.number, file, rs);
        assert(layers[i] == rs);
        assert(inputs.push(rs) =~= layers.take(i + 1));
        let (s1, act) = (read_on(s, inputs).0, read_on(s, inputs).1->Ok_0);
        operations_end(s1, reply(d, act));
        assert(read_on(s1, inputs.push(rs)) == read_on(s, inputs.push(rs)));
        lemma_read_has_room(s, d, g, inputs.push(rs));
    } else {
        assert(inputs =~= layers);
        let bytes = table_bytes(merged_records(s, d));
        assert(countable(Act::WriteTable { number: s.next_sst, bytes }));
        lemma_merged(d.tables, s.next_sst, bytes, open_numbers(s), s.mem, s.next_seq as int, g);
        table_opens(s.next_sst, bytes, merged_records(s, d));
    }
}

/// A merge of two tables or more that ends well had a number for its table.
pub proof fn compaction_has_room(s: DbState, d: Disk, g: Map<Seq<u8>, Seq<u8>>)
    requires
        agrees(s, d, g),
        operated(s, d, Op::Compact).1 is Ok,
    ensures
        s.tables.len() >= 2 ==> {
            &&& s.next_sst < u64::MAX
            &&& opened(s.next_sst, table_bytes(merged_records(s, d))) == Ok::<Table, Fault>(
                table_of(s.next_sst, merged_records(s, d)),
            )
        },
{
    if s.tables.len() >= 2 {
        let none = Seq::<Seq<Rec>>::empty();
        assert(stack(d.tables, open_numbers(s)).take(0) =~= none);
        lemma_read_has_room(s, d, g, none);
    }
}

/// A memory table that says something has an entry.
pub proof fn lemma_mem_entries(s: DbState, d: Disk, g: Map<Seq<u8>, Seq<u8>>)
    requires
        agrees(s, d, g),
        s.mem != Map::<Seq<u8>, Cell>::empty(),
    ensures
        in_order(s.mem).len() > 0,
{
    if in_order(s.mem).len() == 0 {
        assert(as_map(in_order(s.mem)) =~= Map::<Seq<u8>, Cell>::empty());
    }
}

/// A write logs its record, takes it in and uses up one sequence number. Then it is complete,
/// unless the memory table exceeds the threshold: then it is flushed.
pub proof fn write_then_flush(s: DbState, d: Disk, kind: Kind, key: Seq<u8>, value: Seq<u8>)
    requires
        begin_write(s, kind, key, value).1 is Ok,
    ensures
        ({
            let r = Rec { seq: s.next_seq, kind, key, value };
            let s1 = after_write(sure(s, d), r);
            let d1 = Disk { log: d.log.take(log_at(s, d) as int) + frame(r), ..d };
            finish(begin_write(s, kind, key, value), d) == if footprint(in_order(s1.mem))
                > s.threshold {
                operated(s1, d1, Op::Flush)
            } else {
                (s1, Ok(()), d1)
            }
        }),
{
    reveal_with_fuel(run, 2);
    let r = Rec { seq: s.next_seq, kind, key, value };
    let (s0, act) = (begin_write(s, kind, key, value).0, begin_write(s, kind, key, value).1->Ok_0);
    operations_end(s0, reply(d, act));
    let (s1, act1) = if s.unsure {
        (resumed(s0, reply(d, act)).0, resumed(s0, reply(d, act)).1->Ok_0)
    } else {
        (s0, act)
    };
    operations_end(s1, reply(d, act1));
    assert(s1 == (DbState { phase: Step::Logging(r), ..sure(s, d) }));
    assert(after_write(s1, r) == after_write(sure(s, d), r));
}

/// The tables are being merged, or have been.
spec fn merging(s: DbState) -> bool {
    match s.phase {
        Step::CompactRead(_) => true,
        Step::CompactTable(_) => true,
        Step::CompactManifest(_, _) => true,
        Step::Removing(_) => true,
        _ => false,
    }
}

/// A merge that is under way, done to its end, leaves one table.
proof fn lemma_merge_runs(s: DbState, act: Act, d: Disk)
    requires
        merging(s),
        s.phase is Removing ==> s.tables.len() == 1,
        !(act is Done),
    ensures
        run(s, act, d).1 is Ok ==> run(s, act, d).0.tables.len() == 1,
    decreases rank(s),
{
    if countable(act) {
        operations_end(s, reply(d, act));
        let (s2, res) = resumed(s, reply(d, act));
        if let Ok(act2) = res {
            if !(act2 is Done) {
                lemma_merge_runs(s2, act2, performed(d, act));
            }
        }
    }
}

/// An operation that is under way, done to its end, leaves no more tables than may stay
/// unmerged.
proof fn lemma_few_tables(s: DbState, act: Act, d: Disk)
    requires
        match s.phase {
            Step::Idle => s.tables.len() <= COMPACTION_TRIGGER,
            Step::Checking(_) => s.tables.len() <= COMPACTION_TRIGGER,
            Step::Logging(_) => s.tables.len() <= COMPACTION_TRIGGER,
            Step::FlushTable => s.tables.len() <= COMPACTION_TRIGGER,
            Step::FlushManifest => s.tables.len() <= COMPACTION_TRIGGER + 1,
            Step::FlushReset => s.tables.len() <= COMPACTION_TRIGGER + 1,
            Step::Removing(_) => s.tables.len() == 1,
            _ => merging(s),
        },
        act is Done ==> s.phase is Idle,
    ensures
        run(s, act, d).1 is Ok ==> run(s, act, d).0.tables.len() <= COMPACTION_TRIGGER,
    decreases rank(s),
{
    if !(act is Done) && countable(act) {
        if merging(s) {
            lemma_merge_runs(s, act, d);
        } else {
            operations_end(s, reply(d, act));
            let (s2, res) = resumed(s, reply(d, act));
            if let Ok(act2) = res {
                if !(act2 is Done) {
                    lemma_few_tables(s2, act2, performed(d, act));
                }
            }
        }
    }
}

/// However much is written, there are never more tables between operations than may stay
/// unmerged.
pub proof fn tables_stay_few(s: DbState, d: Disk, op: Op)
    requires
        s.tables.len() <= COMPACTION_TRIGGER,
        !(op is Reopen),
    ensures
        operated(s, d, op).1 is Ok ==> operated(s, d, op).0.tables.len() <= COMPACTION_TRIGGER,
{
    let begun = match op {
        Op::Put(k, v) => begin_write(s, Kind::Put, k, v),
        Op::Delete(k) => begin_write(s, Kind::Tombstone, k, Seq::empty()),
        Op::Flush => begin_flush(s),
        Op::Compact => begin_compact(s),
        Op::Reopen => (s, Err(Fault::Overflow)),
    };
    if let (s2, Ok(act)) = begun {
        lemma_few_tables(s2, act, d);
    }
}

/// After recovery the next sequence number is past every record of the log, and not before the
/// one that the manifest gives.
pub proof fn recovered_sequence_is_past_the_log(manifest: Listing, tables: Seq<Table>, log: Seq<u8>)
    ensures
        reopened(manifest, tables, log) matches Ok(s) ==> {
            &&& manifest.next_seq <= s.next_seq
            &&& replayed(log) matches Ok(rs)
            &&& forall|i: int| 0 <= i < rs.len() ==> #[trigger] rs[i].seq < s.next_seq
        },
{
    if let Ok(rs) = replayed(log) {
        lemma_seq_after(manifest.next_seq, rs);
    }
}

} // verus!
