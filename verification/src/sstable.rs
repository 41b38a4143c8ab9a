//! Immutable sorted table.
//! Layout: `[data: encoded records in key order][sparse index][footer]`.
//! Index entry: `[key length u32][key][offset u64]`, one for every sixteenth record.
//! Footer: `[index offset u64][index length u64][count u64][magic u32]`.

use vstd::prelude::*;
use vstd::string::*;

use crate::bytes::{copy_bytes, copy_range, key_lt, key_order, le32, le64, lemma_key_lt_asymmetric,
    lemma_key_lt_transitive, lemma_le32, lemma_le32_at, lemma_le64, lemma_le64_at, lemma_un_le32,
    lemma_un_le64, push_bytes, push_u32, push_u64, read_u32, read_u64, u32_at, u64_at, un_le32,
    un_le64, KeyOrder};
use crate::compaction::recs_of;
use crate::error::{Error, Fault};
use crate::keymap::{ascending, in_order};
use crate::memtable::MemTable;
use crate::record::{consumed, decoded, fits, frame, lemma_consumed, reads_as, record_reads_back, recs,
    Cursor, Rec, Record};
use crate::wal::{all_fit, frames, lemma_frames_join, lemma_frames_push, log_reads_back, replayed};

verus! {

/// The last four bytes of a table: `SSTB`.
pub const MAGIC: u32 = 0x5353_5442;

pub const FOOTER_LEN: usize = 28;

/// One record in so many is in the index.
pub const INDEX_INTERVAL: usize = 16;

/// How many index entries `n` records have.
pub open spec fn block_count(n: nat) -> nat {
    (n + 15) / 16
}

/// The index entry of the block `b` of the records `rs`: its first key, and where it starts.
pub open spec fn index_entry(rs: Seq<Rec>, b: int) -> (Seq<u8>, u64) {
    (rs[16 * b].key, frames(rs.take(16 * b)).len() as u64)
}

/// The sparse index of the records `rs`.
pub open spec fn index_of(rs: Seq<Rec>) -> Seq<(Seq<u8>, u64)> {
    Seq::new(block_count(rs.len()), |b: int| index_entry(rs, b))
}

/// The bytes of one index entry.
pub open spec fn index_entry_bytes(e: (Seq<u8>, u64)) -> Seq<u8> {
    le32(e.0.len() as u32) + e.0 + le64(e.1)
}

/// The bytes of an index.
pub open spec fn index_bytes(ix: Seq<(Seq<u8>, u64)>) -> Seq<u8>
    decreases ix.len(),
{
    if ix.len() == 0 {
        Seq::empty()
    } else {
        index_entry_bytes(ix[0]) + index_bytes(ix.drop_first())
    }
}

/// The bytes of a footer.
pub open spec fn footer_bytes(index_offset: u64, index_len: u64, count: u64) -> Seq<u8> {
    le64(index_offset) + le64(index_len) + le64(count) + le32(MAGIC)
}

/// The bytes of a table with the records `rs`.
#[verifier::opaque]
pub open spec fn table_bytes(rs: Seq<Rec>) -> Seq<u8> {
    let data = frames(rs);
    let index = index_bytes(index_of(rs));
    data + index + footer_bytes(data.len() as u64, index.len() as u64, rs.len() as u64)
}

/// What the footer says of the index.
#[derive(Debug, Clone, Copy, PartialEq, Eq, Structural)]
pub struct Footer {
    pub index_offset: u64,
    pub index_len: u64,
}

/// What the last bytes of a file of `file_len` bytes say.
pub open spec fn footer_of(file_len: nat, tail: Seq<u8>) -> Result<Footer, Fault> {
    if file_len < FOOTER_LEN {
        Err(Fault::Corruption("sstable smaller than footer"@))
    } else if un_le32(tail.subrange(24, 28)) != MAGIC {
        Err(Fault::Corruption("bad sstable magic"@))
    } else {
        Ok(
            Footer {
                index_offset: un_le64(tail.subrange(0, 8)),
                index_len: un_le64(tail.subrange(8, 16)),
            },
        )
    }
}

/// The entries of the index `s`. Fewer than four bytes at its end are ignored.
pub open spec fn parsed_index(s: Seq<u8>) -> Result<Seq<(Seq<u8>, u64)>, Fault>
    decreases s.len(),
{
    if s.len() < 4 {
        Ok(Seq::empty())
    } else {
        let n = un_le32(s.subrange(0, 4)) as int;
        if s.len() < 12 + n {
            Err(Fault::UnexpectedEof)
        } else {
            match parsed_index(s.skip(12 + n)) {
                Ok(more) => Ok(
                    seq![(s.subrange(4, 4 + n), un_le64(s.subrange(4 + n, 12 + n)))] + more,
                ),
                Err(f) => Err(f),
            }
        }
    }
}

/// The value of an [`SSTable`].
#[verifier::ext_equal]
pub struct Table {
    pub number: u64,
    pub index: Seq<(Seq<u8>, u64)>,
    pub index_offset: u64,
}

/// `len` bytes of a file from `start` on.
pub open spec fn file_range(file: Seq<u8>, start: nat, len: nat) -> Option<Seq<u8>> {
    if len == 0 {
        Some(Seq::empty())
    } else if start + len <= file.len() {
        Some(file.subrange(start as int, (start + len) as int))
    } else {
        None
    }
}

/// The table in the file `file`.
pub open spec fn opened(number: u64, file: Seq<u8>) -> Result<Table, Fault> {
    match footer_of(file.len(), file.skip(file.len() - FOOTER_LEN)) {
        Err(f) => Err(f),
        Ok(footer) => match file_range(file, footer.index_offset as nat, footer.index_len as nat) {
            None => Err(Fault::UnexpectedEof),
            Some(s) => match parsed_index(s) {
                Err(f) => Err(f),
                Ok(index) => Ok(Table { number, index, index_offset: footer.index_offset }),
            },
        },
    }
}

/// Halving `lo..hi`: the first place whose index key is after `key`, if the keys ascend.
pub open spec fn bisect(ix: Seq<(Seq<u8>, u64)>, key: Seq<u8>, lo: int, hi: int) -> int
    decreases hi - lo,
{
    if lo < hi {
        let mid = (lo + hi) / 2;
        if key_lt(key, ix[mid].0) {
            bisect(ix, key, lo, mid)
        } else {
            bisect(ix, key, mid + 1, hi)
        }
    } else {
        lo
    }
}

/// Where in its file the table `t` could have `key`: from the first byte up to the second.
pub open spec fn block_of(t: Table, key: Seq<u8>) -> Result<Option<(u64, u64)>, Fault> {
    if t.index.len() == 0 || key_lt(key, t.index[0].0) {
        Ok(None)
    } else {
        let b = bisect(t.index, key, 0, t.index.len() as int) - 1;
        let start = t.index[b].1;
        let end = if b + 1 < t.index.len() {
            t.index[b + 1].1
        } else {
            t.index_offset
        };
        if end < start {
            Err(Fault::Malformed)
        } else {
            Ok(Some((start, end)))
        }
    }
}

/// The record of `key` in the block `s`, whose records stand in key order.
pub open spec fn scanned(s: Seq<u8>, key: Seq<u8>) -> Result<Option<Rec>, Fault>
    decreases s.len(),
{
    match decoded(s) {
        Err(f) => Err(f),
        Ok(None) => Ok(None),
        Ok(Some(r)) => {
            proof {
                lemma_consumed(s);
            }
            if r.key == key {
                Ok(Some(r))
            } else if key_lt(key, r.key) {
                Ok(None)
            } else {
                scanned(s.skip(consumed(s) as int), key)
            }
        },
    }
}

/// The record of `key` in the table `t` with the file `file`.
pub open spec fn found(t: Table, file: Seq<u8>, key: Seq<u8>) -> Result<Option<Rec>, Fault> {
    match block_of(t, key) {
        Err(f) => Err(f),
        Ok(None) => Ok(None),
        Ok(Some((start, end))) => match file_range(file, start as nat, (end - start) as nat) {
            None => Err(Fault::UnexpectedEof),
            Some(s) => scanned(s, key),
        },
    }
}

/// The bytes of one more index entry.
proof fn lemma_index_bytes_push(ix: Seq<(Seq<u8>, u64)>, e: (Seq<u8>, u64))
    ensures
        index_bytes(ix.push(e)) == index_bytes(ix) + index_entry_bytes(e),
    decreases ix.len(),
{
    let jx = ix.push(e);
    if ix.len() == 0 {
        assert(jx.drop_first() =~= Seq::empty());
        assert(index_bytes(jx.drop_first()) =~= Seq::empty());
        assert(index_bytes(jx) =~= index_bytes(ix) + index_entry_bytes(e));
    } else {
        lemma_index_bytes_push(ix.drop_first(), e);
        assert(jx.drop_first() =~= ix.drop_first().push(e));
        assert(index_bytes(jx) =~= index_bytes(ix) + index_entry_bytes(e));
    }
}

/// The bytes of a table with `records`, which stand in key order.
pub fn write_records(records: &[Record]) -> (out: Vec<u8>)
    ensures
        out@ == table_bytes(recs(records@)),
{
    let ghost rs = recs(records@);
    let mut out: Vec<u8> = Vec::new();
    let mut index: Vec<u8> = Vec::new();
    let ghost mut ix: Seq<(Seq<u8>, u64)> = Seq::empty();
    let mut i: usize = 0;
    assert(rs.take(0) =~= Seq::empty());
    while i < records.len()
        invariant
            i <= records@.len(),
            rs == recs(records@),
            out@ == frames(rs.take(i as int)),
            index@ == index_bytes(ix),
            ix.len() == block_count(i as nat),
            forall|b: int| 0 <= b < ix.len() ==> ix[b] == index_entry(rs, b),
        decreases records@.len() - i,
    {
        let record = &records[i];
        if i % INDEX_INTERVAL == 0 {
            let offset: u64 = out.len() as u64;
            proof {
                let e = (record.key@, offset);
                assert(16 * (i as int / 16) == i);
                assert(e == index_entry(rs, i as int / 16));
                lemma_index_bytes_push(ix, e);
                ix = ix.push(e);
            }
            push_u32(&mut index, record.key.len() as u32);
            push_bytes(&mut index, record.key.as_slice());
            push_u64(&mut index, offset);
            assert(index@ =~= index_bytes(ix));
        }
        let bytes = record.encode();
        push_bytes(&mut out, bytes.as_slice());
        proof {
            assert(rs.take(i + 1) =~= rs.take(i as int).push(rs[i as int]));
            lemma_frames_push(rs.take(i as int), rs[i as int]);
        }
        i = i + 1;
    }
    proof {
        assert(rs.take(i as int) =~= rs);
        assert(ix =~= index_of(rs));
        reveal(table_bytes);
    }
    let index_offset: u64 = out.len() as u64;
    let index_len: u64 = index.len() as u64;
    let count: u64 = records.len() as u64;
    push_bytes(&mut out, index.as_slice());
    push_u64(&mut out, index_offset);
    push_u64(&mut out, index_len);
    push_u64(&mut out, count);
    push_u32(&mut out, MAGIC);
    assert(out@ =~= table_bytes(rs));
    out
}

/// The highest sequence number among the records `rs`; zero where there are none.
pub open spec fn highest_seq(rs: Seq<Rec>) -> u64
    decreases rs.len(),
{
    if rs.len() == 0 {
        0
    } else if highest_seq(rs.drop_last()) < rs.last().seq {
        rs.last().seq
    } else {
        highest_seq(rs.drop_last())
    }
}

/// The highest sequence number among `records`; zero where there are none.
pub fn max_seq(records: &[Record]) -> (n: u64)
    ensures
        n == highest_seq(recs(records@)),
{
    let ghost rs = recs(records@);
    let mut n: u64 = 0;
    let mut i: usize = 0;
    assert(rs.take(0) =~= Seq::empty());
    while i < records.len()
        invariant
            i <= records@.len(),
            rs == recs(records@),
            n == highest_seq(rs.take(i as int)),
        decreases records@.len() - i,
    {
        assert(rs.take(i + 1).drop_last() =~= rs.take(i as int));
        if n < records[i].seq {
            n = records[i].seq;
        }
        i = i + 1;
    }
    assert(rs.take(i as int) =~= rs);
    n
}

/// The highest sequence number of a table is that of one of its records, and none has a higher
/// one.
pub proof fn lemma_highest_seq(rs: Seq<Rec>)
    ensures
        forall|i: int| 0 <= i < rs.len() ==> #[trigger] rs[i].seq <= highest_seq(rs),
        rs.len() > 0 ==> exists|i: int| 0 <= i < rs.len() && #[trigger] rs[i].seq == highest_seq(rs),
        rs.len() == 0 ==> highest_seq(rs) == 0,
    decreases rs.len(),
{
    if rs.len() > 0 {
        let t = rs.drop_last();
        lemma_highest_seq(t);
        assert forall|i: int| 0 <= i < rs.len() implies #[trigger] rs[i].seq <= highest_seq(rs) by {
            if i < t.len() {
                assert(t[i].seq <= highest_seq(t));
            }
        }
        if highest_seq(rs) == rs.last().seq {
            assert(rs[rs.len() - 1].seq == highest_seq(rs));
        } else if t.len() > 0 {
            let i = choose|i: int| 0 <= i < t.len() && #[trigger] t[i].seq == highest_seq(t);
            assert(rs[i].seq == highest_seq(rs));
        } else {
            assert(rs[0].seq == highest_seq(rs));
        }
    }
}

/// The records that a memory table holds, in key order.
pub fn memtable_records(memtable: &MemTable) -> (out: Vec<Record>)
    requires
        memtable.wf(),
    ensures
        recs(out@) == recs_of(in_order(memtable@)),
{
    let ghost pairs = in_order(memtable@);
    let mut out: Vec<Record> = Vec::new();
    for e in it: memtable.iter()
        invariant
            it.seq().map_values(|e: &(Vec<u8>, crate::memtable::Entry)| (e.0@, e.1@)) == pairs,
            recs(out@) == recs_of(pairs.take(it.index())),
    {
        let ghost before = recs(out@);
        out.push(
            Record {
                seq: e.1.seq,
                kind: e.1.kind,
                key: copy_bytes(e.0.as_slice()),
                value: copy_bytes(e.1.value.as_slice()),
            },
        );
        proof {
            let s = pairs.take(it.index() + 1);
            assert(pairs[it.index()] == (e.0@, e.1@));
            assert(recs(out@) =~= before.push(crate::compaction::rec_of(pairs[it.index()])));
            assert(recs_of(s) =~= recs_of(pairs.take(it.index())).push(
                crate::compaction::rec_of(pairs[it.index()]),
            ));
        }
    }
    assert(pairs.take(pairs.len() as int) =~= pairs);
    out
}

/// The bytes of a table with what a memory table holds, in key order.
pub fn write_from_memtable(memtable: &MemTable) -> (out: Vec<u8>)
    requires
        memtable.wf(),
    ensures
        out@ == table_bytes(recs_of(in_order(memtable@))),
{
    write_records(memtable_records(memtable).as_slice())
}

/// An open table: the sparse index, and where the data ends. The file itself stays where it
/// is and is read block by block.
#[derive(Debug)]
pub struct SSTable {
    number: u64,
    index: Vec<(Vec<u8>, u64)>,
    index_offset: u64,
}

/// The values of index entries.
spec fn entry_values(index: Seq<(Vec<u8>, u64)>) -> Seq<(Seq<u8>, u64)> {
    index.map_values(|e: (Vec<u8>, u64)| (e.0@, e.1))
}

impl View for SSTable {
    type V = Table;

    closed spec fn view(&self) -> Table {
        Table {
            number: self.number,
            index: entry_values(self.index@),
            index_offset: self.index_offset,
        }
    }
}

/// `res` is the outcome `out`.
pub open spec fn opens_as(res: Result<SSTable, Error>, out: Result<Table, Fault>) -> bool {
    match (res, out) {
        (Ok(sst), Ok(t)) => sst@ == t,
        (Err(e), Err(f)) => e@ == f,
        _ => false,
    }
}

/// Reads the footer: `tail` is the last bytes of a file of `file_len` bytes.
pub fn parse_footer(file_len: u64, tail: &[u8]) -> (res: Result<Footer, Error>)
    requires
        file_len >= FOOTER_LEN ==> tail@.len() == FOOTER_LEN,
    ensures
        match (res, footer_of(file_len as nat, tail@)) {
            (Ok(footer), Ok(v)) => footer == v,
            (Err(e), Err(f)) => e@ == f,
            _ => false,
        },
{
    if file_len < FOOTER_LEN as u64 {
        return Err(Error::Corruption(String::from_str("sstable smaller than footer")));
    }
    let index_offset: u64 = read_u64(tail, 0);
    let index_len: u64 = read_u64(tail, 8);
    let magic: u32 = read_u32(tail, 24);
    if magic != MAGIC {
        return Err(Error::Corruption(String::from_str("bad sstable magic")));
    }
    Ok(Footer { index_offset, index_len })
}

/// Reads the entries of an index.
fn parse_index(bytes: &[u8]) -> (res: Result<Vec<(Vec<u8>, u64)>, Error>)
    ensures
        match (res, parsed_index(bytes@)) {
            (Ok(index), Ok(v)) => entry_values(index@) == v,
            (Err(e), Err(f)) => e@ == f,
            _ => false,
        },
{
    let mut index: Vec<(Vec<u8>, u64)> = Vec::new();
    let mut at: usize = 0;
    let len: usize = bytes.len();
    proof {
        assert(bytes@.skip(0) =~= bytes@);
        assert(forall|more: Seq<(Seq<u8>, u64)>| #![auto] entry_values(index@) + more =~= more);
    }
    while len - at >= 4
        invariant
            at <= len == bytes@.len(),
            match parsed_index(bytes@.skip(at as int)) {
                Ok(more) => parsed_index(bytes@) == Ok::<Seq<(Seq<u8>, u64)>, Fault>(
                    entry_values(index@) + more,
                ),
                Err(f) => parsed_index(bytes@) == Err::<Seq<(Seq<u8>, u64)>, Fault>(f),
            },
        decreases len - at,
    {
        let ghost s = bytes@.skip(at as int);
        assert(bytes@.subrange(at as int, at + 4) =~= s.subrange(0, 4));
        let n: usize = read_u32(bytes, at) as usize;
        if len - at - 4 < n || len - at - 4 - n < 8 {
            return Err(Error::UnexpectedEof);
        }
        let key = copy_range(bytes, at + 4, at + 4 + n);
        let offset: u64 = read_u64(bytes, at + 4 + n);
        let ghost before = entry_values(index@);
        index.push((key, offset));
        proof {
            assert(key@ =~= s.subrange(4, 4 + n));
            assert(bytes@.subrange(at + 4 + n, at + 12 + n) =~= s.subrange(4 + n, 12 + n));
            assert(s.skip(12 + n) =~= bytes@.skip(at + 12 + n));
            assert(entry_values(index@) =~= before.push((key@, offset)));
            if let Ok(more) = parsed_index(bytes@.skip(at + 12 + n)) {
                assert(before + (seq![(key@, offset)] + more) =~= entry_values(index@) + more);
            }
        }
        at = at + 12 + n;
    }
    assert(entry_values(index@) + Seq::empty() =~= entry_values(index@));
    Ok(index)
}

/// `len` bytes of a file from `start` on.
fn read_file_range(file: &[u8], start: u64, len: u64) -> (res: Result<Vec<u8>, Error>)
    ensures
        match (res, file_range(file@, start as nat, len as nat)) {
            (Ok(bytes), Some(s)) => bytes@ == s,
            (Err(e), None) => e == Error::UnexpectedEof,
            _ => false,
        },
{
    let n: u64 = file.len() as u64;
    if len == 0 {
        Ok(Vec::new())
    } else if start <= n && len <= n - start {
        Ok(copy_range(file, start as usize, start as usize + len as usize))
    } else {
        Err(Error::UnexpectedEof)
    }
}

/// Looks for `key` in the bytes of a block, whose records stand in key order.
pub fn scan_block(block: Vec<u8>, key: &[u8]) -> (res: Result<Option<Record>, Error>)
    ensures
        reads_as(res, scanned(block@, key@)),
{
    let mut cursor = Cursor::new(block);
    loop
        invariant
            scanned(cursor@, key@) == scanned(block@, key@),
        decreases cursor@.len(),
    {
        proof {
            lemma_consumed(cursor@);
        }
        match Record::decode(&mut cursor) {
            Err(e) => return Err(e),
            Ok(None) => return Ok(None),
            Ok(Some(record)) => match key_order(key, record.key.as_slice()) {
                KeyOrder::Same => return Ok(Some(record)),
                KeyOrder::Before => return Ok(None),
                KeyOrder::After => {},
            },
        }
    }
}

impl SSTable {
    /// The table with the given footer and index.
    pub fn from_index(number: u64, footer: Footer, index_bytes: &[u8]) -> (res: Result<
        SSTable,
        Error,
    >)
        ensures
            opens_as(
                res,
                match parsed_index(index_bytes@) {
                    Err(f) => Err(f),
                    Ok(index) => Ok(Table { number, index, index_offset: footer.index_offset }),
                },
            ),
    {
        match parse_index(index_bytes) {
            Ok(index) => Ok(SSTable { number, index, index_offset: footer.index_offset }),
            Err(e) => Err(e),
        }
    }

    /// Opens the table in the file `file`.
    pub fn open(number: u64, file: &[u8]) -> (res: Result<SSTable, Error>)
        ensures
            opens_as(res, opened(number, file@)),
    {
        let len: usize = file.len();
        let tail = if len < FOOTER_LEN {
            Vec::new()
        } else {
            copy_range(file, len - FOOTER_LEN, len)
        };
        assert(len >= FOOTER_LEN ==> tail@ =~= file@.skip(len - FOOTER_LEN));
        let footer = match parse_footer(len as u64, tail.as_slice()) {
            Ok(footer) => footer,
            Err(e) => return Err(e),
        };
        match read_file_range(file, footer.index_offset, footer.index_len) {
            Ok(bytes) => SSTable::from_index(number, footer, bytes.as_slice()),
            Err(e) => Err(e),
        }
    }

    /// The number of this table.
    pub fn number(&self) -> (n: u64)
        ensures
            n == self@.number,
    {
        self.number
    }

    /// Where the records of this table end and its index starts.
    pub fn index_offset(&self) -> (n: u64)
        ensures
            n == self@.index_offset,
    {
        self.index_offset
    }

    /// Where in its file this table could have `key`: from the first byte up to the second.
    pub fn block_range(&self, key: &[u8]) -> (res: Result<Option<(u64, u64)>, Error>)
        ensures
            match (res, block_of(self@, key@)) {
                (Ok(r), Ok(v)) => r == v,
                (Err(e), Err(f)) => e@ == f,
                _ => false,
            },
    {
        let ghost ix = self@.index;
        if self.index.len() == 0 {
            return Ok(None);
        }
        assert(ix[0].0 == self.index@[0].0@);
        if key_order(key, self.index[0].0.as_slice()) == KeyOrder::Before {
            return Ok(None);
        }
        let mut lo: usize = 0;
        let mut hi: usize = self.index.len();
        while lo < hi
            invariant
                lo <= hi <= ix.len(),
                ix == entry_values(self.index@),
                !key_lt(key@, ix[0].0),
                hi > 0,
                bisect(ix, key@, lo as int, hi as int) == bisect(ix, key@, 0, ix.len() as int),
            decreases hi - lo,
        {
            let mid: usize = lo + (hi - lo) / 2;
            assert(mid == (lo + hi) / 2);
            assert(ix[mid as int].0 == self.index@[mid as int].0@);
            if key_order(key, self.index[mid].0.as_slice()) == KeyOrder::Before {
                hi = mid;
            } else {
                lo = mid + 1;
            }
        }
        let b: usize = lo - 1;
        let start: u64 = self.index[b].1;
        let end: u64 = if b + 1 < self.index.len() {
            self.index[b + 1].1
        } else {
            self.index_offset
        };
        if end < start {
            Err(Error::Malformed)
        } else {
            Ok(Some((start, end)))
        }
    }

    /// The record of `key` in this table, whose file is `file`; none where it has no such key.
    pub fn get(&self, file: &[u8], key: &[u8]) -> (res: Result<Option<Record>, Error>)
        ensures
            reads_as(res, found(self@, file@, key@)),
    {
        match self.block_range(key) {
            Err(e) => Err(e),
            Ok(None) => Ok(None),
            Ok(Some((start, end))) => match read_file_range(file, start, end - start) {
                Err(e) => Err(e),
                Ok(block) => scan_block(block, key),
            },
        }
    }
}

/// The records `rs` stand in strictly ascending key order.
pub open spec fn sorted(rs: Seq<Rec>) -> bool {
    forall|i: int, j: int| 0 <= i < j < rs.len() ==> key_lt(#[trigger] rs[i].key, #[trigger] rs[j].key)
}

/// A record of `rs` has the key `key`.
pub open spec fn holds_key(rs: Seq<Rec>, key: Seq<u8>) -> bool {
    exists|i: int| 0 <= i < rs.len() && #[trigger] rs[i].key == key
}

/// The record of `key` among `rs`.
pub open spec fn pick(rs: Seq<Rec>, key: Seq<u8>) -> Option<Rec> {
    if holds_key(rs, key) {
        Some(rs[choose|i: int| 0 <= i < rs.len() && #[trigger] rs[i].key == key])
    } else {
        None
    }
}

/// The open table with the records `rs`.
pub open spec fn table_of(number: u64, rs: Seq<Rec>) -> Table {
    Table { number, index: index_of(rs), index_offset: frames(rs).len() as u64 }
}

/// The file `file` is that of a table with the records `rs`, which stand in key order and can
/// all be read back.
pub open spec fn is_table(file: Seq<u8>, rs: Seq<Rec>) -> bool {
    &&& sorted(rs)
    &&& all_fit(rs)
    &&& file == table_bytes(rs)
    &&& file.len() <= u64::MAX
}

/// A record of sorted records is the one picked for its key.
pub proof fn lemma_pick(rs: Seq<Rec>, i: int)
    requires
        sorted(rs),
        0 <= i < rs.len(),
    ensures
        pick(rs, rs[i].key) == Some(rs[i]),
{
    let k = rs[i].key;
    let j = choose|j: int| 0 <= j < rs.len() && #[trigger] rs[j].key == k;
    if i < j {
        lemma_key_lt_asymmetric(rs[i].key, rs[j].key);
    } else if j < i {
        lemma_key_lt_asymmetric(rs[j].key, rs[i].key);
    }
}

/// An index is read back from its bytes.
proof fn lemma_index_reads_back(ix: Seq<(Seq<u8>, u64)>)
    requires
        forall|b: int| 0 <= b < ix.len() ==> #[trigger] ix[b].0.len() <= u32::MAX,
    ensures
        parsed_index(index_bytes(ix)) == Ok::<Seq<(Seq<u8>, u64)>, Fault>(ix),
    decreases ix.len(),
{
    if ix.len() == 0 {
        assert(ix =~= Seq::empty());
    } else {
        let e = ix[0];
        let n = e.0.len() as int;
        let more = ix.drop_first();
        assert forall|b: int| 0 <= b < more.len() implies #[trigger] more[b].0.len() <= u32::MAX by {
            assert(more[b] == ix[b + 1]);
        }
        lemma_index_reads_back(more);
        let s = index_bytes(ix);
        lemma_le32(n as u32);
        lemma_le64(e.1);
        assert(s.subrange(0, 4) =~= le32(n as u32));
        assert(s.subrange(4, 4 + n) =~= e.0);
        assert(s.subrange(4 + n, 12 + n) =~= le64(e.1));
        assert(s.skip(12 + n) =~= index_bytes(more));
        assert(seq![e] + more =~= ix);
    }
}

/// Where the parts of a table stand.
proof fn lemma_table_parts(rs: Seq<Rec>)
    ensures
        ({
            let file = table_bytes(rs);
            let d = frames(rs).len();
            let x = index_bytes(index_of(rs)).len();
            let tail = file.skip(file.len() - 28);
            &&& file.len() == d + x + 28
            &&& file.subrange(0, d as int) == frames(rs)
            &&& file.subrange(d as int, (d + x) as int) == index_bytes(index_of(rs))
            &&& tail.subrange(0, 8) == le64(d as u64)
            &&& tail.subrange(8, 16) == le64(x as u64)
            &&& tail.subrange(16, 24) == le64(rs.len() as u64)
            &&& tail.subrange(24, 28) == le32(MAGIC)
        }),
{
    reveal(table_bytes);
    let data = frames(rs);
    let index = index_bytes(index_of(rs));
    let a = le64(data.len() as u64);
    let b = le64(index.len() as u64);
    let c = le64(rs.len() as u64);
    lemma_le64(data.len() as u64);
    lemma_le64(index.len() as u64);
    lemma_le64(rs.len() as u64);
    lemma_le32(MAGIC);
    lemma_parts(data, index, a, b, c, le32(MAGIC));
}

proof fn lemma_parts(
    data: Seq<u8>,
    index: Seq<u8>,
    a: Seq<u8>,
    b: Seq<u8>,
    c: Seq<u8>,
    d: Seq<u8>,
)
    requires
        a.len() == 8,
        b.len() == 8,
        c.len() == 8,
        d.len() == 4,
    ensures
        ({
            let file = data + index + (a + b + c + d);
            let tail = file.skip(file.len() - 28);
            &&& file.len() == data.len() + index.len() + 28
            &&& file.subrange(0, data.len() as int) == data
            &&& file.subrange(data.len() as int, (data.len() + index.len()) as int) == index
            &&& tail.subrange(0, 8) == a
            &&& tail.subrange(8, 16) == b
            &&& tail.subrange(16, 24) == c
            &&& tail.subrange(24, 28) == d
        }),
{
    let file = data + index + (a + b + c + d);
    let tail = file.skip(file.len() - 28);
    assert(file.subrange(0, data.len() as int) =~= data);
    assert(file.subrange(data.len() as int, (data.len() + index.len()) as int) =~= index);
    assert(tail =~= a + b + c + d);
    assert(tail.subrange(0, 8) =~= a);
    assert(tail.subrange(8, 16) =~= b);
    assert(tail.subrange(16, 24) =~= c);
    assert(tail.subrange(24, 28) =~= d);
}

/// A table that was written opens with the index of its records.
pub proof fn table_opens(number: u64, file: Seq<u8>, rs: Seq<Rec>)
    requires
        is_table(file, rs),
    ensures
        opened(number, file) == Ok::<Table, Fault>(table_of(number, rs)),
{
    lemma_table_parts(rs);
    let d = frames(rs).len();
    let ix = index_of(rs);
    let x = index_bytes(ix).len();
    lemma_le64(d as u64);
    lemma_le64(x as u64);
    lemma_le32(MAGIC);
    assert forall|b: int| 0 <= b < ix.len() implies #[trigger] ix[b].0.len() <= u32::MAX by {
        assert(ix[b] == index_entry(rs, b));
        assert(fits(rs[16 * b]));
    }
    lemma_index_reads_back(ix);
    if x == 0 {
        assert(file.subrange(d as int, (d + x) as int) =~= Seq::empty());
    }
}

/// A run of records stands in the data where the lengths of the records before it say.
proof fn lemma_data_range(rs: Seq<Rec>, i: int, j: int)
    requires
        0 <= i <= j <= rs.len(),
    ensures
        frames(rs.take(i)).len() <= frames(rs.take(j)).len() <= frames(rs).len(),
        frames(rs).subrange(
            frames(rs.take(i)).len() as int,
            frames(rs.take(j)).len() as int,
        ) == frames(rs.subrange(i, j)),
{
    let a = rs.take(i);
    let b = rs.subrange(i, j);
    let c = rs.skip(j);
    assert(rs.take(j) =~= a + b);
    assert(rs =~= a + b + c);
    lemma_frames_join(a, b);
    lemma_frames_join(a + b, c);
    assert(frames(rs).subrange(frames(a).len() as int, frames(a + b).len() as int) =~= frames(b));
}

/// Scanning a run of sorted records for a key finds the record that has it.
proof fn lemma_scan(rs: Seq<Rec>, key: Seq<u8>)
    requires
        sorted(rs),
        all_fit(rs),
    ensures
        scanned(frames(rs), key) == Ok::<Option<Rec>, Fault>(pick(rs, key)),
    decreases rs.len(),
{
    if rs.len() == 0 {
        lemma_consumed(frames(rs));
    } else {
        let r = rs[0];
        let more = rs.drop_first();
        let s = frames(rs);
        assert(fits(rs[0]));
        record_reads_back(r, frames(more));
        assert(s.skip(consumed(s) as int) =~= frames(more));
        if r.key == key {
            lemma_pick(rs, 0);
        } else if key_lt(key, r.key) {
            assert forall|i: int| 0 <= i < rs.len() implies #[trigger] rs[i].key != key by {
                if i > 0 {
                    lemma_key_lt_transitive(key, r.key, rs[i].key);
                    lemma_key_lt_asymmetric(key, rs[i].key);
                }
            }
        } else {
            assert forall|i: int, j: int| 0 <= i < j < more.len() implies key_lt(
                #[trigger] more[i].key,
                #[trigger] more[j].key,
            ) by {
                assert(more[i] == rs[i + 1] && more[j] == rs[j + 1]);
            }
            assert forall|i: int| 0 <= i < more.len() implies fits(#[trigger] more[i]) by {
                assert(more[i] == rs[i + 1]);
            }
            lemma_scan(more, key);
            if holds_key(rs, key) {
                let i = choose|i: int| 0 <= i < rs.len() && #[trigger] rs[i].key == key;
                assert(more[i - 1].key == key);
                lemma_pick(rs, i);
                lemma_pick(more, i - 1);
            } else if holds_key(more, key) {
                let i = choose|i: int| 0 <= i < more.len() && #[trigger] more[i].key == key;
                assert(rs[i + 1].key == key);
            }
        }
    }
}

/// In ascending keys, halving finds where the keys after `key` begin.
proof fn lemma_bisect(ix: Seq<(Seq<u8>, u64)>, key: Seq<u8>, lo: int, hi: int)
    requires
        ascending(ix),
        0 <= lo <= hi <= ix.len(),
        forall|i: int| 0 <= i < lo ==> !key_lt(key, #[trigger] ix[i].0),
        forall|i: int| hi <= i < ix.len() ==> key_lt(key, #[trigger] ix[i].0),
    ensures
        lo <= bisect(ix, key, lo, hi) <= hi,
        forall|i: int| 0 <= i < bisect(ix, key, lo, hi) ==> !key_lt(key, #[trigger] ix[i].0),
        forall|i: int| bisect(ix, key, lo, hi) <= i < ix.len() ==> key_lt(key, #[trigger] ix[i].0),
    decreases hi - lo,
{
    if lo < hi {
        let mid = (lo + hi) / 2;
        if key_lt(key, ix[mid].0) {
            assert forall|i: int| mid <= i < ix.len() implies key_lt(key, #[trigger] ix[i].0) by {
                if mid < i {
                    lemma_key_lt_transitive(key, ix[mid].0, ix[i].0);
                }
            }
            lemma_bisect(ix, key, lo, mid);
        } else {
            assert forall|i: int| 0 <= i < mid + 1 implies !key_lt(key, #[trigger] ix[i].0) by {
                if i < mid && key_lt(key, ix[i].0) {
                    lemma_key_lt_transitive(key, ix[i].0, ix[mid].0);
                }
            }
            lemma_bisect(ix, key, mid + 1, hi);
        }
    }
}

/// The index of sorted records has its keys in ascending order.
proof fn lemma_index_ascending(rs: Seq<Rec>)
    requires
        sorted(rs),
    ensures
        ascending(index_of(rs)),
{
    let ix = index_of(rs);
    assert forall|i: int, j: int| 0 <= i < j < ix.len() implies key_lt(
        #[trigger] ix[i].0,
        #[trigger] ix[j].0,
    ) by {
        assert(ix[i] == index_entry(rs, i) && ix[j] == index_entry(rs, j));
        assert(key_lt(rs[16 * i].key, rs[16 * j].key));
    }
}

/// The block in which a key could stand: the run of records from `i` up to `j`.
proof fn lemma_block(number: u64, rs: Seq<Rec>, key: Seq<u8>) -> (run: (int, int))
    requires
        sorted(rs),
        frames(rs).len() <= u64::MAX,
        rs.len() > 0,
        !key_lt(key, rs[0].key),
    ensures
        0 <= run.0 < run.1 <= rs.len(),
        !key_lt(key, rs[run.0].key),
        run.1 < rs.len() ==> key_lt(key, rs[run.1].key),
        frames(rs.take(run.0)).len() <= frames(rs.take(run.1)).len() <= frames(rs).len(),
        block_of(table_of(number, rs), key) == Ok::<Option<(u64, u64)>, Fault>(
            Some((frames(rs.take(run.0)).len() as u64, frames(rs.take(run.1)).len() as u64)),
        ),
{
    let ix = index_of(rs);
    let n = rs.len() as int;
    lemma_index_ascending(rs);
    assert(ix[0] == index_entry(rs, 0));
    lemma_bisect(ix, key, 0, ix.len() as int);
    let b = bisect(ix, key, 0, ix.len() as int) - 1;
    if b < 0 {
        assert(key_lt(key, ix[0].0));
    }
    assert(!key_lt(key, ix[b].0));
    assert(ix[b] == index_entry(rs, b));
    let i = 16 * b;
    let j = if b + 1 < ix.len() {
        16 * (b + 1)
    } else {
        n
    };
    if b + 1 < ix.len() {
        assert(key_lt(key, ix[b + 1].0));
        assert(ix[b + 1] == index_entry(rs, b + 1));
    } else {
        assert(rs.take(n) =~= rs);
    }
    lemma_data_range(rs, i, j);
    (i, j)
}

/// A run of records stands in the file of a table where the lengths of the records before it
/// say.
proof fn lemma_file_run(file: Seq<u8>, rs: Seq<Rec>, i: int, j: int)
    requires
        file == table_bytes(rs),
        0 <= i <= j <= rs.len(),
    ensures
        frames(rs.take(i)).len() <= frames(rs.take(j)).len() <= frames(rs).len(),
        file_range(
            file,
            frames(rs.take(i)).len(),
            (frames(rs.take(j)).len() - frames(rs.take(i)).len()) as nat,
        ) == Some(frames(rs.subrange(i, j))),
{
    lemma_table_parts(rs);
    lemma_data_range(rs, i, j);
    let start = frames(rs.take(i)).len() as int;
    let end = frames(rs.take(j)).len() as int;
    let data = file.subrange(0, frames(rs).len() as int);
    assert(file.subrange(start, end) =~= data.subrange(start, end));
    if start == end {
        assert(frames(rs.subrange(i, j)) =~= Seq::empty());
    }
}

/// What a table says of a key is what was written into it: the record with that key, and
/// nothing where there is none.
pub proof fn table_finds(number: u64, file: Seq<u8>, rs: Seq<Rec>, key: Seq<u8>)
    requires
        is_table(file, rs),
    ensures
        found(table_of(number, rs), file, key) == Ok::<Option<Rec>, Fault>(pick(rs, key)),
{
    let ix = index_of(rs);
    lemma_table_parts(rs);
    if rs.len() == 0 {
        assert(ix.len() == 0);
    } else if key_lt(key, rs[0].key) {
        assert(ix[0] == index_entry(rs, 0));
        assert forall|i: int| 0 <= i < rs.len() implies #[trigger] rs[i].key != key by {
            if i > 0 {
                lemma_key_lt_transitive(key, rs[0].key, rs[i].key);
            }
            lemma_key_lt_asymmetric(key, rs[i].key);
        }
    } else {
        let (i, j) = lemma_block(number, rs, key);
        lemma_file_run(file, rs, i, j);
        lemma_run(rs, i, j);
        lemma_scan(rs.subrange(i, j), key);
        lemma_pick_in_run(rs, key, i, j);
    }
}

/// A run of sorted records that can be read back is sorted and can be read back.
proof fn lemma_run(rs: Seq<Rec>, i: int, j: int)
    requires
        sorted(rs),
        all_fit(rs),
        0 <= i <= j <= rs.len(),
    ensures
        sorted(rs.subrange(i, j)),
        all_fit(rs.subrange(i, j)),
{
    let run = rs.subrange(i, j);
    assert forall|a: int, b: int| 0 <= a < b < run.len() implies key_lt(
        #[trigger] run[a].key,
        #[trigger] run[b].key,
    ) by {
        assert(run[a] == rs[i + a] && run[b] == rs[i + b]);
    }
    assert forall|a: int| 0 <= a < run.len() implies fits(#[trigger] run[a]) by {
        assert(run[a] == rs[i + a]);
    }
}

/// A key that is not before the run's first key and is before the key after the run can only
/// be in the run.
proof fn lemma_pick_in_run(rs: Seq<Rec>, key: Seq<u8>, i: int, j: int)
    requires
        sorted(rs),
        0 <= i < j <= rs.len(),
        !key_lt(key, rs[i].key),
        j < rs.len() ==> key_lt(key, rs[j].key),
        sorted(rs.subrange(i, j)),
    ensures
        pick(rs.subrange(i, j), key) == pick(rs, key),
{
    let run = rs.subrange(i, j);
    if holds_key(rs, key) {
        let a = choose|a: int| 0 <= a < rs.len() && #[trigger] rs[a].key == key;
        if a >= j {
            if a > j {
                lemma_key_lt_transitive(key, rs[j].key, rs[a].key);
            }
            lemma_key_lt_asymmetric(key, rs[a].key);
        }
        assert(i <= a);
        assert(run[a - i] == rs[a]);
        lemma_pick(rs, a);
        lemma_pick(run, a - i);
    } else if holds_key(run, key) {
        let a = choose|a: int| 0 <= a < run.len() && #[trigger] run[a].key == key;
        assert(rs[i + a].key == key);
    }
}

/// The data of a table holds exactly the records that were written into it, in order.
pub proof fn table_records_read_back(number: u64, file: Seq<u8>, rs: Seq<Rec>)
    requires
        is_table(file, rs),
    ensures
        file_range(file, 0, table_of(number, rs).index_offset as nat) == Some(frames(rs)),
        replayed(frames(rs)) == Ok::<Seq<Rec>, Fault>(rs),
{
    lemma_table_parts(rs);
    if frames(rs).len() == 0 {
        assert(frames(rs) =~= Seq::empty());
    }
    let none = Seq::<u8>::empty();
    lemma_consumed(none);
    log_reads_back(rs, none);
    assert(frames(rs) + none =~= frames(rs));
}

/// A search of a block goes on behind each record with a key before the one sought, and ends at
/// a record with that key or a later one. Bytes that are refused refuse the search.
pub proof fn a_search_goes_on_behind_a_record(s: Seq<u8>, key: Seq<u8>)
    ensures
        match decoded(s) {
            Err(f) => scanned(s, key) == Err::<Option<Rec>, Fault>(f),
            Ok(None) => scanned(s, key) == Ok::<Option<Rec>, Fault>(None),
            Ok(Some(r)) => if r.key == key {
                scanned(s, key) == Ok::<Option<Rec>, Fault>(Some(r))
            } else if key_lt(key, r.key) {
                scanned(s, key) == Ok::<Option<Rec>, Fault>(None)
            } else {
                scanned(s, key) == scanned(s.skip(consumed(s) as int), key)
            },
        },
{
    if let Ok(Some(r)) = decoded(s) {
        lemma_consumed(s);
    }
}

/// A search that comes upon bytes that are refused, before it comes upon the key or a later one,
/// is refused: it does not answer that the key is not there.
pub proof fn a_search_refuses_a_bad_record(rs: Seq<Rec>, tail: Seq<u8>, key: Seq<u8>, f: Fault)
    requires
        forall|i: int|
            0 <= i < rs.len() ==> 17 + #[trigger] rs[i].key.len() + rs[i].value.len() <= 67_108_864
                && key_lt(rs[i].key, key),
        decoded(tail) == Err::<Option<Rec>, Fault>(f),
    ensures
        scanned(frames(rs) + tail, key) == Err::<Option<Rec>, Fault>(f),
{
    lemma_scan_on(rs, tail, key);
}

/// A search finds the record of the key behind records with keys before it, whatever follows,
/// and finds none where a record with a later key, or the end, comes first.
pub proof fn a_search_finds_the_key(rs: Seq<Rec>, r: Rec, rest: Seq<u8>, key: Seq<u8>)
    requires
        forall|i: int|
            0 <= i < rs.len() ==> 17 + #[trigger] rs[i].key.len() + rs[i].value.len() <= 67_108_864
                && key_lt(rs[i].key, key),
        17 + r.key.len() + r.value.len() <= 67_108_864,
    ensures
        r.key == key ==> scanned(frames(rs) + (frame(r) + rest), key) == Ok::<Option<Rec>, Fault>(
            Some(r),
        ),
        key_lt(key, r.key) ==> scanned(frames(rs) + (frame(r) + rest), key) == Ok::<
            Option<Rec>,
            Fault,
        >(None),
        scanned(frames(rs), key) == Ok::<Option<Rec>, Fault>(None),
{
    lemma_scan_on(rs, frame(r) + rest, key);
    lemma_scan_on(rs, Seq::empty(), key);
    assert(frames(rs) + Seq::<u8>::empty() =~= frames(rs));
    lemma_consumed(Seq::empty());
    record_reads_back(r, rest);
    if key_lt(key, r.key) {
        lemma_key_lt_asymmetric(key, r.key);
    }
}

/// Records with keys before the one sought are passed over.
proof fn lemma_scan_on(rs: Seq<Rec>, tail: Seq<u8>, key: Seq<u8>)
    requires
        forall|i: int|
            0 <= i < rs.len() ==> 17 + #[trigger] rs[i].key.len() + rs[i].value.len() <= 67_108_864
                && key_lt(rs[i].key, key),
    ensures
        scanned(frames(rs) + tail, key) == scanned(tail, key),
    decreases rs.len(),
{
    let s = frames(rs) + tail;
    if rs.len() == 0 {
        assert(s =~= tail);
    } else {
        let r = rs[0];
        let more = rs.drop_first();
        let rest = frames(more) + tail;
        assert(s =~= frame(r) + rest);
        assert(17 + rs[0].key.len() + rs[0].value.len() <= 67_108_864);
        assert forall|i: int| 0 <= i < more.len() implies 17 + #[trigger] more[i].key.len()
            + more[i].value.len() <= 67_108_864 && key_lt(more[i].key, key) by {
            assert(more[i] == rs[i + 1]);
            assert(17 + rs[i + 1].key.len() + rs[i + 1].value.len() <= 67_108_864);
        }
        record_reads_back(r, rest);
        lemma_key_lt_asymmetric(r.key, key);
        assert(s.skip(consumed(s) as int) =~= rest);
        lemma_scan_on(more, tail, key);
    }
}

/// An index is read entry by entry: the length of a key, the key, where its block starts. An
/// entry that is cut off refuses the index, but for fewer than four bytes at its end.
pub proof fn an_index_is_read_entry_by_entry(s: Seq<u8>)
    ensures
        ({
            let n = u32_at(s, 0);
            if s.len() < 4 {
                parsed_index(s) == Ok::<Seq<(Seq<u8>, u64)>, Fault>(Seq::empty())
            } else if s.len() < 12 + n {
                parsed_index(s) == Err::<Seq<(Seq<u8>, u64)>, Fault>(Fault::UnexpectedEof)
            } else {
                match parsed_index(s.skip(12 + n)) {
                    Err(f) => parsed_index(s) == Err::<Seq<(Seq<u8>, u64)>, Fault>(f),
                    Ok(more) => parsed_index(s) matches Ok(ix) && {
                        &&& ix.len() == 1 + more.len()
                        &&& ix[0].0 == s.subrange(4, 4 + n)
                        &&& ix[0].1 == u64_at(s, 4 + n)
                        &&& ix.skip(1) == more
                    },
                }
            }
        }),
{
    if s.len() >= 4 {
        lemma_un_le32(s, 0);
        let n = u32_at(s, 0);
        if s.len() >= 12 + n {
            lemma_un_le64(s, 4 + n);
            if let Ok(more) = parsed_index(s.skip(12 + n)) {
                let ix = parsed_index(s)->Ok_0;
                assert(ix.skip(1) =~= more);
            }
        }
    }
}

/// A table is opened by its last 28 bytes: a shorter file and one without the magic number at
/// its end are refused, as is one whose index would lie outside it; else the index is what is
/// read of the bytes that they name.
pub proof fn opening_goes_by_the_footer(number: u64, file: Seq<u8>)
    ensures
        ({
            let t = file.len() - 28;
            let offset = u64_at(file, t);
            let len = u64_at(file, t + 8);
            let index = if len == 0 {
                Seq::empty()
            } else {
                file.subrange(offset, offset + len)
            };
            if file.len() < 28 {
                opened(number, file) == Err::<Table, Fault>(
                    Fault::Corruption("sstable smaller than footer"@),
                )
            } else if u32_at(file, t + 24) != 0x5353_5442 {
                opened(number, file) == Err::<Table, Fault>(Fault::Corruption("bad sstable magic"@))
            } else if len > 0 && offset + len > file.len() {
                opened(number, file) == Err::<Table, Fault>(Fault::UnexpectedEof)
            } else {
                match parsed_index(index) {
                    Err(f) => opened(number, file) == Err::<Table, Fault>(f),
                    Ok(ix) => opened(number, file) matches Ok(table) && table.number == number
                        && table.index == ix && table.index_offset == offset,
                }
            }
        }),
{
    if file.len() >= 28 {
        let t = file.len() - 28;
        let tail = file.skip(t);
        lemma_un_le64(file, t);
        lemma_un_le64(file, t + 8);
        lemma_un_le32(file, t + 24);
        assert(tail.subrange(0, 8) =~= file.subrange(t, t + 8));
        assert(tail.subrange(8, 16) =~= file.subrange(t + 8, t + 16));
        assert(tail.subrange(24, 28) =~= file.subrange(t + 24, t + 28));
    }
}

/// What the footer of a file says, and when it is refused.
pub proof fn what_a_footer_says(file_len: nat, tail: Seq<u8>)
    requires
        tail.len() == 28,
    ensures
        if file_len < 28 {
            footer_of(file_len, tail) == Err::<Footer, Fault>(
                Fault::Corruption("sstable smaller than footer"@),
            )
        } else if u32_at(tail, 24) != 0x5353_5442 {
            footer_of(file_len, tail) == Err::<Footer, Fault>(Fault::Corruption("bad sstable magic"@))
        } else {
            footer_of(file_len, tail) matches Ok(footer) && footer.index_offset == u64_at(tail, 0)
                && footer.index_len == u64_at(tail, 8)
        },
{
    lemma_un_le64(tail, 0);
    lemma_un_le64(tail, 8);
    lemma_un_le32(tail, 24);
}

/// A key is looked for in the block of an index entry that is not after it, up to the block
/// behind that one, which is after it, or up to the end of the records. Before the first entry,
/// and only there, nothing is to be read. A block that would end before it starts is refused.
pub proof fn a_key_is_looked_for_in_one_block(t: Table, key: Seq<u8>) -> (b: int)
    ensures
        t.index.len() == 0 || key_lt(key, t.index[0].0) ==> block_of(t, key) == Ok::<
            Option<(u64, u64)>,
            Fault,
        >(None),
        t.index.len() > 0 && !key_lt(key, t.index[0].0) ==> {
            let start = t.index[b].1;
            let end = if b + 1 < t.index.len() {
                t.index[b + 1].1
            } else {
                t.index_offset
            };
            &&& 0 <= b < t.index.len()
            &&& !key_lt(key, t.index[b].0)
            &&& b + 1 < t.index.len() ==> key_lt(key, t.index[b + 1].0)
            &&& if start <= end {
                block_of(t, key) == Ok::<Option<(u64, u64)>, Fault>(Some((start, end)))
            } else {
                block_of(t, key) == Err::<Option<(u64, u64)>, Fault>(Fault::Malformed)
            }
        },
{
    let ix = t.index;
    if ix.len() > 0 && !key_lt(key, ix[0].0) {
        lemma_bisect_between(ix, key, 0, ix.len() as int);
        bisect(ix, key, 0, ix.len() as int) - 1
    } else {
        0
    }
}

/// Halving ends between a key that is not after the one sought and a key that is.
proof fn lemma_bisect_between(ix: Seq<(Seq<u8>, u64)>, key: Seq<u8>, lo: int, hi: int)
    requires
        0 <= lo <= hi <= ix.len(),
        lo > 0 ==> !key_lt(key, ix[lo - 1].0),
        hi < ix.len() ==> key_lt(key, ix[hi].0),
    ensures
        lo <= bisect(ix, key, lo, hi) <= hi,
        bisect(ix, key, lo, hi) > 0 ==> !key_lt(key, ix[bisect(ix, key, lo, hi) - 1].0),
        bisect(ix, key, lo, hi) < ix.len() ==> key_lt(key, ix[bisect(ix, key, lo, hi)].0),
    decreases hi - lo,
{
    if lo < hi {
        let mid = (lo + hi) / 2;
        if key_lt(key, ix[mid].0) {
            lemma_bisect_between(ix, key, lo, mid);
        } else {
            lemma_bisect_between(ix, key, mid + 1, hi);
        }
    }
}

/// A read of a table searches the bytes of one block of its file, and is refused where that is
/// not whole.
pub proof fn a_read_searches_the_block(t: Table, file: Seq<u8>, key: Seq<u8>)
    ensures
        match block_of(t, key) {
            Err(f) => found(t, file, key) == Err::<Option<Rec>, Fault>(f),
            Ok(None) => found(t, file, key) == Ok::<Option<Rec>, Fault>(None),
            Ok(Some((start, end))) => if start == end {
                found(t, file, key) == scanned(Seq::empty(), key)
            } else if end > file.len() {
                found(t, file, key) == Err::<Option<Rec>, Fault>(Fault::UnexpectedEof)
            } else {
                found(t, file, key) == scanned(file.subrange(start as int, end as int), key)
            },
        },
{
}

/// The index entry `e` stands in `s` at `p`.
spec fn entry_at(s: Seq<u8>, p: int, e: (Seq<u8>, u64)) -> bool {
    let n = e.0.len() as int;
    &&& 0 <= p
    &&& p + 12 + n <= s.len()
    &&& s.subrange(p, p + 12 + n) == index_entry_bytes(e)
}

/// An entry stands in a whole where it stands in a part.
proof fn lemma_entry_moves(part: Seq<u8>, whole: Seq<u8>, off: int, p: int, e: (Seq<u8>, u64))
    requires
        entry_at(part, p, e),
        0 <= off,
        off + part.len() <= whole.len(),
        whole.subrange(off, off + part.len()) == part,
    ensures
        entry_at(whole, off + p, e),
{
    let n = e.0.len() as int;
    assert(whole.subrange(off + p, off + p + 12 + n) =~= part.subrange(p, p + 12 + n));
}

/// What is read where an entry stands.
proof fn lemma_entry_read(s: Seq<u8>, p: int, e: (Seq<u8>, u64))
    requires
        entry_at(s, p, e),
        e.0.len() <= u32::MAX,
    ensures
        u32_at(s, p) == e.0.len(),
        s.subrange(p + 4, p + 4 + e.0.len()) == e.0,
        u64_at(s, p + 4 + e.0.len()) == e.1,
{
    let n = e.0.len() as int;
    let g = s.subrange(p, p + 12 + n);
    lemma_le32(n as u32);
    lemma_le64(e.1);
    assert(g.subrange(0, 4) =~= le32(n as u32));
    assert(g.subrange(4, 4 + n) =~= e.0);
    assert(g.subrange(4 + n, 12 + n) =~= le64(e.1));
    assert(s.subrange(p, p + 4) =~= g.subrange(0, 4));
    assert(s.subrange(p + 4, p + 4 + n) =~= g.subrange(4, 4 + n));
    assert(s.subrange(p + 4 + n, p + 4 + n + 8) =~= g.subrange(4 + n, 12 + n));
    lemma_le32_at(n as u32, s, p);
    lemma_le64_at(e.1, s, p + 4 + n);
}

/// Where the entries of an index stand in its bytes.
proof fn lemma_index_layout(ix: Seq<(Seq<u8>, u64)>, at: Seq<int>)
    requires
        at.len() == ix.len() + 1,
        at[0] == 0,
        forall|b: int| 0 < b < at.len() ==> #[trigger] at[b] == at[b - 1] + 12 + ix[b - 1].0.len(),
    ensures
        index_bytes(ix).len() == at[ix.len() as int],
        forall|b: int| 0 <= b < ix.len() ==> entry_at(index_bytes(ix), #[trigger] at[b], ix[b]),
    decreases ix.len(),
{
    if ix.len() > 0 {
        let m = ix.len() - 1;
        let front = ix.drop_last();
        let e = ix[m];
        let less = at.drop_last();
        assert forall|b: int| 0 < b < less.len() implies #[trigger] less[b] == less[b - 1] + 12
            + front[b - 1].0.len() by {
            assert(at[b] == at[b - 1] + 12 + ix[b - 1].0.len());
        }
        lemma_index_layout(front, less);
        lemma_index_bytes_push(front, e);
        assert(front.push(e) =~= ix);
        let s = index_bytes(ix);
        let f = index_bytes(front);
        let g = index_entry_bytes(e);
        lemma_le32(e.0.len() as u32);
        lemma_le64(e.1);
        assert(at[m + 1] == at[m] + 12 + ix[m].0.len());
        assert(f.len() == less[m]);
        assert forall|b: int| 0 <= b < ix.len() implies entry_at(s, #[trigger] at[b], ix[b]) by {
            if b < m {
                assert(entry_at(f, less[b], front[b]));
                assert(s.subrange(0, f.len() as int) =~= f);
                lemma_entry_moves(f, s, 0, at[b], ix[b]);
            } else {
                assert(s.subrange(at[m], at[m] + 12 + e.0.len()) =~= g);
            }
        }
    }
}

/// Where the index entries of a table stand, if `at` says where each of them starts and where
/// they end.
spec fn index_places(rs: Seq<Rec>, at: Seq<int>) -> bool {
    &&& at.len() == (rs.len() + 15) / 16 + 1
    &&& at[0] == frames(rs).len()
    &&& forall|b: int|
        0 < b < at.len() ==> #[trigger] at[b] == at[b - 1] + 12 + rs[16 * (b - 1)].key.len()
}

proof fn lemma_index_places(rs: Seq<Rec>, at: Seq<int>)
    requires
        index_places(rs, at),
    ensures
        at[at.len() - 1] == frames(rs).len() + index_bytes(index_of(rs)).len(),
        forall|b: int|
            0 <= b < at.len() - 1 ==> entry_at(
                index_bytes(index_of(rs)),
                #[trigger] at[b] - frames(rs).len(),
                index_entry(rs, b),
            ),
{
    let ix = index_of(rs);
    let d = frames(rs).len() as int;
    let rel = Seq::new(at.len(), |b: int| at[b] - d);
    assert forall|b: int| 0 < b < rel.len() implies #[trigger] rel[b] == rel[b - 1] + 12 + ix[b
        - 1].0.len() by {
        assert(ix[b - 1] == index_entry(rs, b - 1));
        assert(at[b] == at[b - 1] + 12 + rs[16 * (b - 1)].key.len());
    }
    lemma_index_layout(ix, rel);
    assert(rel[ix.len() as int] == at[at.len() - 1] - d);
    assert forall|b: int| 0 <= b < at.len() - 1 implies entry_at(
        index_bytes(ix),
        #[trigger] at[b] - d,
        index_entry(rs, b),
    ) by {
        assert(entry_at(index_bytes(ix), rel[b], ix[b]));
    }
}

/// Where everything stands in the bytes of a table but its index: first the records, and last 28
/// bytes that say where the index starts, how long it is, how many records there are, and the
/// magic number. `at` says where the index entries stand: one for every sixteenth record.
pub proof fn table_layout(rs: Seq<Rec>, at: Seq<int>)
    requires
        table_bytes(rs).len() <= u64::MAX,
        at.len() == (rs.len() + 15) / 16 + 1,
        at[0] == frames(rs).len(),
        forall|b: int|
            0 < b < at.len() ==> #[trigger] at[b] == at[b - 1] + 12 + rs[16 * (b - 1)].key.len(),
    ensures
        ({
            let file = table_bytes(rs);
            let end = at[at.len() - 1];
            &&& file.len() == end + 28
            &&& file.take(frames(rs).len() as int) == frames(rs)
            &&& u64_at(file, end) == frames(rs).len()
            &&& u64_at(file, end + 8) == end - frames(rs).len()
            &&& u64_at(file, end + 16) == rs.len()
            &&& u32_at(file, end + 24) == 0x5353_5442
        }),
{
    let file = table_bytes(rs);
    lemma_index_places(rs, at);
    lemma_table_parts(rs);
    assert(file.take(frames(rs).len() as int) =~= file.subrange(0, frames(rs).len() as int));
    lemma_frames_count(rs);
    lemma_footer_layout(rs, at[at.len() - 1]);
}

/// Where everything stands in an index entry of a table: the length of the key of the record
/// that it is for, that key, and where that record starts.
pub proof fn index_layout(rs: Seq<Rec>, at: Seq<int>, b: int)
    requires
        table_bytes(rs).len() <= u64::MAX,
        at.len() == (rs.len() + 15) / 16 + 1,
        at[0] == frames(rs).len(),
        forall|c: int|
            0 < c < at.len() ==> #[trigger] at[c] == at[c - 1] + 12 + rs[16 * (c - 1)].key.len(),
        0 <= b < at.len() - 1,
        rs[16 * b].key.len() <= u32::MAX,
    ensures
        ({
            let file = table_bytes(rs);
            let key = rs[16 * b].key;
            &&& u32_at(file, at[b]) == key.len()
            &&& file.subrange(at[b] + 4, at[b] + 4 + key.len()) == key
            &&& u64_at(file, at[b] + 4 + key.len()) == frames(rs.take(16 * b)).len()
        }),
{
    lemma_index_places(rs, at);
    lemma_entry_in_table(rs, table_bytes(rs), b, at[b] - frames(rs).len());
}

/// What is read in a table where an index entry stands.
proof fn lemma_entry_in_table(rs: Seq<Rec>, file: Seq<u8>, b: int, p: int)
    requires
        file == table_bytes(rs),
        file.len() <= u64::MAX,
        0 <= 16 * b < rs.len(),
        rs[16 * b].key.len() <= u32::MAX,
        entry_at(index_bytes(index_of(rs)), p, index_entry(rs, b)),
    ensures
        ({
            let q = frames(rs).len() + p;
            let key = rs[16 * b].key;
            &&& u32_at(file, q) == key.len()
            &&& file.subrange(q + 4, q + 4 + key.len()) == key
            &&& u64_at(file, q + 4 + key.len()) == frames(rs.take(16 * b)).len()
        }),
{
    let d = frames(rs).len() as int;
    lemma_table_parts(rs);
    lemma_entry_moves(index_bytes(index_of(rs)), file, d, p, index_entry(rs, b));
    lemma_entry_read(file, d + p, index_entry(rs, b));
    lemma_frames_join(rs.take(16 * b), rs.skip(16 * b));
    assert(rs.take(16 * b) + rs.skip(16 * b) =~= rs);
}

/// Where everything stands in a footer.
proof fn lemma_footer_layout(rs: Seq<Rec>, end: int)
    requires
        table_bytes(rs).len() <= u64::MAX,
        end == frames(rs).len() + index_bytes(index_of(rs)).len(),
        rs.len() <= frames(rs).len(),
    ensures
        ({
            let file = table_bytes(rs);
            &&& file.len() == end + 28
            &&& u64_at(file, end) == frames(rs).len()
            &&& u64_at(file, end + 8) == end - frames(rs).len()
            &&& u64_at(file, end + 16) == rs.len()
            &&& u32_at(file, end + 24) == 0x5353_5442
        }),
{
    let file = table_bytes(rs);
    lemma_table_parts(rs);
    let tail = file.skip(file.len() - 28);
    assert(file.subrange(end, end + 8) =~= tail.subrange(0, 8));
    assert(file.subrange(end + 8, end + 8 + 8) =~= tail.subrange(8, 16));
    assert(file.subrange(end + 16, end + 16 + 8) =~= tail.subrange(16, 24));
    assert(file.subrange(end + 24, end + 24 + 4) =~= tail.subrange(24, 28));
    lemma_le64_at(frames(rs).len() as u64, file, end);
    lemma_le64_at(index_bytes(index_of(rs)).len() as u64, file, end + 8);
    lemma_le64_at(rs.len() as u64, file, end + 16);
    lemma_le32_at(MAGIC, file, end + 24);
}

/// There are no more records than bytes.
proof fn lemma_frames_count(rs: Seq<Rec>)
    ensures
        rs.len() <= frames(rs).len(),
    decreases rs.len(),
{
    if rs.len() > 0 {
        lemma_frames_count(rs.drop_first());
        crate::record::lemma_frame(rs[0]);
    }
}

/// What opening a table gives: that table, or the same refusal.
pub proof fn what_opening_gives(res: Result<SSTable, Error>, out: Result<Table, Fault>)
    ensures
        opens_as(res, out) <==> match res {
            Ok(sst) => out == Ok::<Table, Fault>(sst@),
            Err(e) => out == Err::<Table, Fault>(e@),
        },
{
}

} // verus!
