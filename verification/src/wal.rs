//! Write-ahead log: encoded records, one after the other. Every write is appended here
//! before it is applied anywhere else, so a crash can always be recovered from by replaying
//! the log.

use vstd::prelude::*;

use crate::error::{Error, Fault};
use crate::record::{consumed, corrupt_payload_is_refused, decoded, fits, frame, lemma_consumed, lemma_frame, record_reads_back, recs,
    torn_record_is_ignored, Cursor, Rec, Record};

verus! {

/// The bytes of the records `rs`, one after the other.
pub open spec fn frames(rs: Seq<Rec>) -> Seq<u8>
    decreases rs.len(),
{
    if rs.len() == 0 {
        Seq::empty()
    } else {
        frame(rs[0]) + frames(rs.drop_first())
    }
}

/// The records in `s`, up to its end or a torn record.
pub open spec fn replayed(s: Seq<u8>) -> Result<Seq<Rec>, Fault>
    decreases s.len(),
{
    match decoded(s) {
        Err(f) => Err(f),
        Ok(None) => Ok(Seq::empty()),
        Ok(Some(r)) => {
            proof {
                lemma_consumed(s);
            }
            match replayed(s.skip(consumed(s) as int)) {
                Ok(rs) => Ok(seq![r] + rs),
                Err(f) => Err(f),
            }
        },
    }
}

/// How many bytes at the start of `s` are whole records.
pub open spec fn whole_len(s: Seq<u8>) -> nat
    decreases s.len(),
{
    match decoded(s) {
        Ok(Some(r)) => {
            proof {
                lemma_consumed(s);
            }
            consumed(s) + whole_len(s.skip(consumed(s) as int))
        },
        _ => 0,
    }
}

/// A log with `len` bytes of records takes the record `r`: it can be read back, and there is
/// room for it.
pub open spec fn accepts(len: u64, r: Rec) -> bool {
    fits(r) && len + frame(r).len() <= u64::MAX
}

/// A log, as far as it is read: where its records end.
#[derive(Debug, Clone, Copy, PartialEq, Eq, Structural)]
pub struct Wal {
    len: u64,
}

impl View for Wal {
    type V = u64;

    /// How many bytes the records take.
    closed spec fn view(&self) -> u64 {
        self.len
    }
}

impl Wal {
    /// A log without records.
    pub fn new() -> (w: Wal)
        ensures
            w@ == 0,
    {
        Wal { len: 0 }
    }

    /// How many bytes the records take. The next record goes there: what is torn behind it is
    /// overwritten.
    pub fn end(&self) -> (n: u64)
        ensures
            n == self@,
    {
        self.len
    }

    /// Whether the record is short enough to be read back and the log has room for it.
    pub fn has_room(&self, record: &Record) -> (b: bool)
        ensures
            b == accepts(self@, record@),
    {
        proof {
            lemma_frame(record@);
        }
        record.is_short_enough() && 25 + record.key.len() as u64 + record.value.len() as u64
            <= u64::MAX - self.len
    }

    /// The bytes that append `record`, if the record is short enough to be read back and the
    /// log has room for it.
    pub fn append(&self, record: &Record) -> (bytes: Option<Vec<u8>>)
        ensures
            match bytes {
                Some(bytes) => bytes@ == frame(record@) && accepts(self@, record@),
                None => !accepts(self@, record@),
            },
    {
        if self.has_room(record) {
            Some(record.encode())
        } else {
            None
        }
    }

    /// Takes note that `record` was appended.
    pub fn appended(&mut self, record: &Record)
        requires
            old(self)@ + frame(record@).len() <= u64::MAX,
        ensures
            final(self)@ == old(self)@ + frame(record@).len(),
    {
        proof {
            lemma_frame(record@);
        }
        self.len = self.len + (25 + record.key.len() as u64 + record.value.len() as u64);
    }

    /// Reads the records of a log in order. What is torn at the end is left out; a whole record
    /// that is refused makes the log refused.
    pub fn replay(log: Vec<u8>) -> (res: Result<(Vec<Record>, Wal), Error>)
        ensures
            match (res, replayed(log@)) {
                (Ok((records, wal)), Ok(rs)) => recs(records@) == rs && wal@ == whole_len(log@),
                (Err(e), Err(f)) => e@ == f,
                _ => false,
            },
    {
        let ghost s = log@;
        let total: usize = log.len();
        let mut cursor = Cursor::new(log);
        let mut records: Vec<Record> = Vec::new();
        let mut done: usize = 0;
        assert(recs(records@) =~= Seq::empty());
        loop
            invariant
                s == log@,
                total == s.len(),
                done + cursor@.len() == total,
                whole_len(s) == done + whole_len(cursor@),
                match replayed(cursor@) {
                    Ok(rs) => replayed(s) == Ok::<Seq<Rec>, Fault>(recs(records@) + rs),
                    Err(f) => replayed(s) == Err::<Seq<Rec>, Fault>(f),
                },
            decreases cursor@.len(),
        {
            let ghost before = recs(records@);
            proof {
                lemma_consumed(cursor@);
            }
            match Record::decode(&mut cursor) {
                Err(e) => return Err(e),
                Ok(None) => {
                    assert(before + Seq::<Rec>::empty() =~= before);
                    return Ok((records, Wal { len: done as u64 }));
                },
                Ok(Some(record)) => {
                    done = total - cursor.remaining();
                    records.push(record);
                    proof {
                        assert(recs(records@) =~= before.push(record@));
                        if let Ok(rs) = replayed(cursor@) {
                            assert(before + (seq![record@] + rs) =~= recs(records@) + rs);
                        }
                    }
                },
            }
        }
    }
}

/// The bytes of records appended to a log.
pub proof fn lemma_frames_join(a: Seq<Rec>, b: Seq<Rec>)
    ensures
        frames(a + b) == frames(a) + frames(b),
    decreases a.len(),
{
    if a.len() == 0 {
        assert(a + b =~= b);
        assert(frames(a) + frames(b) =~= frames(b));
    } else {
        lemma_frames_join(a.drop_first(), b);
        assert((a + b).drop_first() =~= a.drop_first() + b);
        assert(frame(a[0]) + (frames(a.drop_first()) + frames(b)) =~= frame(a[0]) + frames(
            a.drop_first(),
        ) + frames(b));
    }
}

/// The bytes of one more record.
pub proof fn lemma_frames_push(a: Seq<Rec>, r: Rec)
    ensures
        frames(a.push(r)) == frames(a) + frame(r),
{
    let one = seq![r];
    assert(a.push(r) =~= a + one);
    lemma_frames_join(a, one);
    assert(one.drop_first() =~= Seq::<Rec>::empty());
    assert(frames(one.drop_first()) =~= Seq::<u8>::empty());
    assert(frames(one) =~= frame(r));
}

/// Every record in `rs` can be read back.
pub open spec fn all_fit(rs: Seq<Rec>) -> bool {
    forall|i: int| 0 <= i < rs.len() ==> fits(#[trigger] rs[i])
}

/// The records of a log are read back in order, whatever follows them, and exactly their
/// bytes are whole records, if nothing is read after them.
pub proof fn log_reads_back(rs: Seq<Rec>, tail: Seq<u8>)
    requires
        all_fit(rs),
        decoded(tail) == Ok::<Option<Rec>, Fault>(None),
    ensures
        replayed(frames(rs) + tail) == Ok::<Seq<Rec>, Fault>(rs),
        whole_len(frames(rs) + tail) == frames(rs).len(),
    decreases rs.len(),
{
    let s = frames(rs) + tail;
    if rs.len() == 0 {
        assert(s =~= tail);
        assert(rs =~= Seq::<Rec>::empty());
    } else {
        let r = rs[0];
        let more = rs.drop_first();
        let rest = frames(more) + tail;
        assert(s =~= frame(r) + rest);
        assert(fits(rs[0]));
        assert forall|i: int| 0 <= i < more.len() implies fits(#[trigger] more[i]) by {
            assert(more[i] == rs[i + 1]);
        }
        record_reads_back(r, rest);
        assert(s.skip(frame(r).len() as int) =~= rest);
        log_reads_back(more, tail);
        assert(seq![r] + more =~= rs);
    }
}

/// A log whose last append was cut off anywhere reads as if that append had not begun.
pub proof fn torn_tail_is_dropped(rs: Seq<Rec>, r: Rec, n: int)
    requires
        all_fit(rs),
        fits(r),
        0 <= n < frame(r).len(),
    ensures
        replayed(frames(rs) + frame(r).take(n)) == Ok::<Seq<Rec>, Fault>(rs),
        whole_len(frames(rs) + frame(r).take(n)) == frames(rs).len(),
{
    torn_record_is_ignored(r, n);
    log_reads_back(rs, frame(r).take(n));
}

/// A record appended to a log is read back after those that were there.
pub proof fn append_is_read_back(rs: Seq<Rec>, r: Rec)
    requires
        all_fit(rs),
        fits(r),
    ensures
        replayed(frames(rs) + frame(r)) == Ok::<Seq<Rec>, Fault>(rs.push(r)),
        whole_len(frames(rs) + frame(r)) == frames(rs).len() + frame(r).len(),
{
    lemma_frames_push(rs, r);
    let all = rs.push(r);
    assert forall|i: int| 0 <= i < all.len() implies fits(#[trigger] all[i]) by {
        if i < rs.len() {
            assert(all[i] == rs[i]);
        }
    }
    lemma_consumed(Seq::empty());
    log_reads_back(all, Seq::empty());
    assert(frames(all) + Seq::<u8>::empty() =~= frames(all));
}

/// The bytes of records are those of each, one after the other.
pub proof fn records_stand_one_after_the_other(a: Seq<Rec>, r: Rec, b: Seq<Rec>)
    ensures
        frames(Seq::empty()).len() == 0,
        frames(seq![r]) == frame(r),
        frames(a + b) == frames(a) + frames(b),
        frames(a.push(r)) == frames(a) + frame(r),
{
    lemma_frames_join(a, b);
    lemma_frames_push(a, r);
    lemma_frames_push(Seq::empty(), r);
    assert(Seq::<Rec>::empty().push(r) =~= seq![r]);
    assert(frames(Seq::empty()) + frame(r) =~= frame(r));
}

/// What is read of a log goes on behind each record: where a record is read, the rest of the log
/// is read as if it stood alone, and a refusal there refuses the whole; where nothing is read,
/// the log ends; where bytes are refused, the log is.
pub proof fn replay_goes_on_behind_a_record(s: Seq<u8>)
    ensures
        match decoded(s) {
            Err(f) => replayed(s) == Err::<Seq<Rec>, Fault>(f),
            Ok(None) => replayed(s) == Ok::<Seq<Rec>, Fault>(Seq::empty()) && whole_len(s) == 0,
            Ok(Some(r)) => {
                let rest = s.skip(consumed(s) as int);
                &&& whole_len(s) == consumed(s) + whole_len(rest)
                &&& match replayed(rest) {
                    Ok(rs) => replayed(s) == Ok::<Seq<Rec>, Fault>(seq![r] + rs),
                    Err(f) => replayed(s) == Err::<Seq<Rec>, Fault>(f),
                }
            },
        },
{
    if let Ok(Some(r)) = decoded(s) {
        lemma_consumed(s);
    }
}

/// A log is refused at its first bytes that are, however many good records stand before them:
/// none of those is handed out.
pub proof fn replay_refuses_at_the_first_bad_record(rs: Seq<Rec>, tail: Seq<u8>, f: Fault)
    requires
        forall|i: int|
            0 <= i < rs.len() ==> 17 + #[trigger] rs[i].key.len() + rs[i].value.len() <= 67_108_864,
        decoded(tail) == Err::<Option<Rec>, Fault>(f),
    ensures
        replayed(frames(rs) + tail) == Err::<Seq<Rec>, Fault>(f),
    decreases rs.len(),
{
    let s = frames(rs) + tail;
    if rs.len() == 0 {
        assert(s =~= tail);
    } else {
        let r = rs[0];
        let more = rs.drop_first();
        let rest = frames(more) + tail;
        assert(s =~= frame(r) + rest);
        assert(17 + rs[0].key.len() + rs[0].value.len() <= 67_108_864);
        assert forall|i: int| 0 <= i < more.len() implies 17 + #[trigger] more[i].key.len()
            + more[i].value.len() <= 67_108_864 by {
            assert(more[i] == rs[i + 1]);
        }
        record_reads_back(r, rest);
        assert(s.skip(frame(r).len() as int) =~= rest);
        replay_refuses_at_the_first_bad_record(more, tail, f);
    }
}

/// A log in which one payload byte of one record is changed is refused as corrupt, wherever in
/// the log that record stands and whatever follows it.
pub proof fn a_changed_byte_refuses_the_log(before: Seq<Rec>, r: Rec, s: Seq<u8>, at: int)
    requires
        forall|i: int|
            0 <= i < before.len() ==> 17 + #[trigger] before[i].key.len() + before[i].value.len()
                <= 67_108_864,
        17 + r.key.len() + r.value.len() <= 67_108_864,
        8 <= at < frame(r).len(),
        frames(before).len() + frame(r).len() <= s.len(),
        s.take(frames(before).len() as int) == frames(before),
        s[frames(before).len() + at] != frame(r)[at],
        forall|i: int|
            0 <= i < frame(r).len() && i != at ==> s[frames(before).len() + i] == #[trigger] frame(
                r,
            )[i],
    ensures
        replayed(s) matches Err(f) && f is Corruption,
{
    let n = frames(before).len() as int;
    let tail = s.skip(n);
    assert forall|i: int| 0 <= i < frame(r).len() && i != at implies tail[i] == frame(r)[i] by {
        assert(tail[i] == s[n + i]);
    }
    corrupt_payload_is_refused(r, tail, at);
    let f = decoded(tail)->Err_0;
    replay_refuses_at_the_first_bad_record(before, tail, f);
    assert(s =~= frames(before) + tail);
}

/// A log takes a record exactly when its payload has at most 64 MiB and the log, with its bytes,
/// has a length that fits in 64 bits.
pub proof fn what_a_log_takes(len: u64, r: Rec)
    ensures
        accepts(len, r) <==> 17 + r.key.len() + r.value.len() <= 67_108_864 && len + 25
            + r.key.len() + r.value.len() <= u64::MAX,
{
    lemma_frame(r);
}

} // verus!
