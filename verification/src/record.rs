//! Records and their encoding: `[crc u32][length u32][payload]`, where the payload is
//! `[seq u64][kind u8][key length u32][key][value length u32][value]`, all little-endian.

use vstd::prelude::*;
use vstd::string::*;

use crate::bytes::{copy_range, le32, le64, lemma_le32, lemma_le32_at, lemma_le64, lemma_le64_at,
    lemma_un_le32, lemma_un_le64, push_bytes, push_u32, push_u64, read_u32, read_u64, u32_at, u64_at,
    un_le32, un_le64};
use crate::encode::{checksum, checksum_detects_a_changed_byte, crc32};
use crate::error::{Error, Fault};
use crate::text::{decimal, hex8, push_decimal, push_hex8};

verus! {

/// The longest payload that is read back. The length field is not covered by the
/// checksum, so a larger value there is taken for garbage.
pub const MAX_RECORD_LEN: usize = 67_108_864;

/// Whether a record stores a value or marks its key as deleted.
#[derive(Debug, Clone, Copy, PartialEq, Eq, Structural)]
pub enum Kind {
    Put,
    Tombstone,
}

/// The byte that stands for a kind.
pub open spec fn kind_byte(kind: Kind) -> u8 {
    match kind {
        Kind::Put => 0,
        Kind::Tombstone => 1,
    }
}

/// The text that refuses `b` as a kind.
pub open spec fn bad_kind_text(b: u8) -> Seq<char> {
    "invalid record kind: "@ + decimal(b as nat)
}

impl Kind {
    /// The byte that stands for this kind.
    pub fn to_byte(&self) -> (b: u8)
        ensures
            b == kind_byte(*self),
    {
        match self {
            Kind::Put => 0,
            Kind::Tombstone => 1,
        }
    }

    /// The kind that `b` stands for.
    pub fn from_byte(b: u8) -> (res: Result<Kind, Error>)
        ensures
            match res {
                Ok(kind) => b == kind_byte(kind),
                Err(e) => b > 1 && e@ == Fault::Corruption(bad_kind_text(b)),
            },
    {
        match b {
            0 => Ok(Kind::Put),
            1 => Ok(Kind::Tombstone),
            other => {
                let mut text: String = String::new();
                text.append("invalid record kind: ");
                push_decimal(&mut text, other as u64);
                assert(text@ =~= bad_kind_text(b));
                Err(Error::Corruption(text))
            },
        }
    }
}

/// One write: the newest state of `key` as of sequence number `seq`.
#[derive(Debug, Clone, PartialEq, Eq)]
pub struct Record {
    pub seq: u64,
    pub kind: Kind,
    pub key: Vec<u8>,
    /// Empty for a tombstone.
    pub value: Vec<u8>,
}

/// The value of a [`Record`].
#[verifier::ext_equal]
pub struct Rec {
    pub seq: u64,
    pub kind: Kind,
    pub key: Seq<u8>,
    pub value: Seq<u8>,
}

impl View for Record {
    type V = Rec;

    open spec fn view(&self) -> Rec {
        Rec { seq: self.seq, kind: self.kind, key: self.key@, value: self.value@ }
    }
}

/// The values of a sequence of records.
pub open spec fn recs(s: Seq<Record>) -> Seq<Rec> {
    s.map_values(|r: Record| r@)
}

/// The payload of a record.
#[verifier::opaque]
pub open spec fn payload(r: Rec) -> Seq<u8> {
    le64(r.seq) + seq![kind_byte(r.kind)] + le32(r.key.len() as u32) + r.key + le32(
        r.value.len() as u32,
    ) + r.value
}

/// The bytes of a record: checksum and length of the payload, then the payload.
#[verifier::opaque]
pub open spec fn frame(r: Rec) -> Seq<u8> {
    le32(checksum(payload(r))) + le32(payload(r).len() as u32) + payload(r)
}

/// The length of a record's payload.
pub open spec fn payload_len(r: Rec) -> nat {
    17 + r.key.len() + r.value.len()
}

/// The payload is short enough to be read back. Only such records are logged.
pub open spec fn fits(r: Rec) -> bool {
    payload_len(r) <= MAX_RECORD_LEN
}

/// The text that refuses a payload for its checksum.
pub open spec fn bad_crc_text(expected: u32, actual: u32) -> Seq<char> {
    "crc mismatch: expected "@ + hex8(expected) + ", got "@ + hex8(actual)
}

/// The text that refuses a payload of `n` bytes whose fields would end past it.
pub open spec fn short_text(n: nat) -> Seq<char> {
    "record payload too short: "@ + decimal(n)
}

/// What a payload with the right checksum holds.
#[verifier::opaque]
pub open spec fn parsed(p: Seq<u8>) -> Result<Rec, Fault> {
    if p.len() < 9 {
        Err(Fault::Corruption(short_text(p.len())))
    } else if p[8] > 1 {
        Err(Fault::Corruption(bad_kind_text(p[8])))
    } else if p.len() < 13 {
        Err(Fault::Corruption(short_text(p.len())))
    } else {
        let key_len = un_le32(p.subrange(9, 13)) as int;
        if p.len() < 17 + key_len {
            Err(Fault::Corruption(short_text(p.len())))
        } else {
            let value_len = un_le32(p.subrange(13 + key_len, 17 + key_len)) as int;
            if p.len() < 17 + key_len + value_len {
                Err(Fault::Corruption(short_text(p.len())))
            } else {
                Ok(
                    Rec {
                        seq: un_le64(p.subrange(0, 8)),
                        kind: if p[8] == 0 {
                            Kind::Put
                        } else {
                            Kind::Tombstone
                        },
                        key: p.subrange(13, 13 + key_len),
                        value: p.subrange(17 + key_len, 17 + key_len + value_len),
                    },
                )
            }
        }
    }
}

/// What is read at the start of `s`: a record; nothing, where `s` is empty or holds a torn
/// record; or a refusal.
#[verifier::opaque]
pub open spec fn decoded(s: Seq<u8>) -> Result<Option<Rec>, Fault> {
    if s.len() < 8 {
        Ok(None)
    } else {
        let expected = un_le32(s.subrange(0, 4));
        let len = un_le32(s.subrange(4, 8)) as int;
        if len > MAX_RECORD_LEN || s.len() < 8 + len {
            Ok(None)
        } else {
            let p = s.subrange(8, 8 + len);
            if checksum(p) != expected {
                Err(Fault::Corruption(bad_crc_text(expected, checksum(p))))
            } else {
                match parsed(p) {
                    Ok(r) => Ok(Some(r)),
                    Err(f) => Err(f),
                }
            }
        }
    }
}

/// How many bytes of `s` are read to find that out.
#[verifier::opaque]
pub open spec fn consumed(s: Seq<u8>) -> nat {
    if s.len() < 8 {
        s.len()
    } else {
        let len = un_le32(s.subrange(4, 8)) as nat;
        if len > MAX_RECORD_LEN {
            8
        } else if s.len() < 8 + len {
            s.len()
        } else {
            8 + len
        }
    }
}

/// `res` is the outcome `out`.
pub open spec fn reads_as(res: Result<Option<Record>, Error>, out: Result<Option<Rec>, Fault>) -> bool {
    match (res, out) {
        (Ok(Some(r)), Ok(Some(v))) => r@ == v,
        (Ok(None), Ok(None)) => true,
        (Err(e), Err(f)) => e@ == f,
        _ => false,
    }
}

/// Bytes that are read from front to back.
pub struct Cursor {
    buf: Vec<u8>,
    pos: usize,
}

impl View for Cursor {
    type V = Seq<u8>;

    /// The bytes that are still to be read.
    closed spec fn view(&self) -> Seq<u8> {
        self.buf@.skip(self.pos as int)
    }
}

impl Cursor {
    #[verifier::type_invariant]
    closed spec fn inside(self) -> bool {
        self.pos <= self.buf@.len()
    }

    /// A cursor at the start of `buf`.
    pub fn new(buf: Vec<u8>) -> (c: Cursor)
        ensures
            c@ == buf@,
    {
        let c = Cursor { buf, pos: 0 };
        assert(c@ =~= buf@);
        c
    }

    /// How many bytes are still to be read.
    pub fn remaining(&self) -> (n: usize)
        ensures
            n == self@.len(),
    {
        proof {
            use_type_invariant(self);
        }
        self.buf.len() - self.pos
    }
}

/// Reads `n` bytes. Where fewer are left, reads those and gives nothing.
fn read_exact_or_none(r: &mut Cursor, n: usize) -> (out: Option<Vec<u8>>)
    ensures
        match out {
            Some(bytes) => n <= old(r)@.len() && bytes@ == old(r)@.take(n as int) && final(r)@
                == old(r)@.skip(n as int),
            None => old(r)@.len() < n && final(r)@ == Seq::<u8>::empty(),
        },
{
    proof {
        use_type_invariant(&*r);
    }
    let pos: usize = r.pos;
    let len: usize = r.buf.len();
    if len - pos < n {
        r.pos = len;
        assert(r@ =~= Seq::<u8>::empty());
        None
    } else {
        let bytes = copy_range(r.buf.as_slice(), pos, pos + n);
        r.pos = pos + n;
        assert(bytes@ =~= old(r)@.take(n as int));
        assert(r@ =~= old(r)@.skip(n as int));
        Some(bytes)
    }
}

/// The refusal of a payload of `n` bytes whose fields would end past it.
fn short_payload(n: usize) -> (e: Error)
    ensures
        e@ == Fault::Corruption(short_text(n as nat)),
{
    let mut text: String = String::new();
    text.append("record payload too short: ");
    push_decimal(&mut text, n as u64);
    assert(text@ =~= short_text(n as nat));
    Error::Corruption(text)
}

/// Reads the fields of a payload with the right checksum.
fn parse_payload(p: &[u8]) -> (res: Result<Record, Error>)
    ensures
        match (res, parsed(p@)) {
            (Ok(r), Ok(v)) => r@ == v,
            (Err(e), Err(f)) => e@ == f,
            _ => false,
        },
{
    reveal(parsed);
    let len: usize = p.len();
    if len < 9 {
        return Err(short_payload(len));
    }
    let seq: u64 = read_u64(p, 0);
    let kind = match Kind::from_byte(p[8]) {
        Ok(kind) => kind,
        Err(e) => return Err(e),
    };
    if len < 13 {
        return Err(short_payload(len));
    }
    let key_len: usize = read_u32(p, 9) as usize;
    if len - 13 < key_len || len - 13 - key_len < 4 {
        return Err(short_payload(len));
    }
    let key = copy_range(p, 13, 13 + key_len);
    let value_len: usize = read_u32(p, 13 + key_len) as usize;
    if len - 17 - key_len < value_len {
        return Err(short_payload(len));
    }
    let value = copy_range(p, 17 + key_len, 17 + key_len + value_len);
    Ok(Record { seq, kind, key, value })
}

impl Record {
    /// Whether the record is short enough to be read back.
    pub fn is_short_enough(&self) -> (b: bool)
        ensures
            b == fits(self@),
    {
        self.key.len() <= MAX_RECORD_LEN && self.value.len() <= MAX_RECORD_LEN && 17
            + self.key.len() + self.value.len() <= MAX_RECORD_LEN
    }

    /// The bytes of this record, with checksum and length in front.
    pub fn encode(&self) -> (buf: Vec<u8>)
        ensures
            buf@ == frame(self@),
    {
        reveal(payload);
        reveal(frame);
        let mut payload: Vec<u8> = Vec::new();
        push_u64(&mut payload, self.seq);
        payload.push(self.kind.to_byte());
        push_u32(&mut payload, self.key.len() as u32);
        push_bytes(&mut payload, self.key.as_slice());
        push_u32(&mut payload, self.value.len() as u32);
        push_bytes(&mut payload, self.value.as_slice());
        assert(payload@ =~= self::payload(self@));

        let crc: u32 = crc32(payload.as_slice());
        let total_len: u32 = payload.len() as u32;
        let mut buf: Vec<u8> = Vec::new();
        push_u32(&mut buf, crc);
        push_u32(&mut buf, total_len);
        push_bytes(&mut buf, payload.as_slice());
        assert(buf@ =~= frame(self@));
        buf
    }

    /// Reads one record. Gives nothing at the end of the bytes and at a torn record, and
    /// refuses as corrupt a whole record whose checksum or kind is wrong or whose fields would
    /// end past it.
    pub fn decode(r: &mut Cursor) -> (res: Result<Option<Record>, Error>)
        ensures
            reads_as(res, decoded(old(r)@)),
            final(r)@ == old(r)@.skip(consumed(old(r)@) as int),
    {
        reveal(decoded);
        reveal(consumed);
        let ghost s = r@;
        let header = match read_exact_or_none(r, 8) {
            Some(header) => header,
            None => {
                assert(s.skip(s.len() as int) =~= Seq::<u8>::empty());
                return Ok(None);
            },
        };
        assert(header@.subrange(0, 4) =~= s.subrange(0, 4));
        assert(header@.subrange(4, 8) =~= s.subrange(4, 8));
        let crc_expected: u32 = read_u32(header.as_slice(), 0);
        let total_len: usize = read_u32(header.as_slice(), 4) as usize;
        if total_len > MAX_RECORD_LEN {
            return Ok(None);
        }
        let payload = match read_exact_or_none(r, total_len) {
            Some(payload) => payload,
            None => {
                assert(s.skip(s.len() as int) =~= Seq::<u8>::empty());
                return Ok(None);
            },
        };
        assert(payload@ =~= s.subrange(8, 8 + total_len));
        assert(r@ =~= s.skip(8 + total_len));
        let crc_actual: u32 = crc32(payload.as_slice());
        if crc_actual != crc_expected {
            let mut text: String = String::new();
            text.append("crc mismatch: expected ");
            push_hex8(&mut text, crc_expected);
            text.append(", got ");
            push_hex8(&mut text, crc_actual);
            assert(text@ =~= bad_crc_text(crc_expected, crc_actual));
            return Err(Error::Corruption(text));
        }
        match parse_payload(payload.as_slice()) {
            Ok(record) => Ok(Some(record)),
            Err(e) => Err(e),
        }
    }
}

/// Where the parts of a payload stand.
proof fn lemma_payload(r: Rec)
    ensures
        payload(r).len() == payload_len(r),
        payload(r).subrange(0, 8) == le64(r.seq),
        payload(r)[8] == kind_byte(r.kind),
        payload(r).subrange(9, 13) == le32(r.key.len() as u32),
        payload(r).subrange(13, 13int + r.key.len()) == r.key,
        payload(r).subrange(13int + r.key.len(), 17int + r.key.len()) == le32(r.value.len() as u32),
        payload(r).subrange(17int + r.key.len(), 17int + r.key.len() + r.value.len()) == r.value,
{
    reveal(payload);
    lemma_le64(r.seq);
    lemma_le32(r.key.len() as u32);
    lemma_le32(r.value.len() as u32);
    let p = payload(r);
    let k = r.key.len() as int;
    assert(p.subrange(0, 8) =~= le64(r.seq));
    assert(p.subrange(9, 13) =~= le32(r.key.len() as u32));
    assert(p.subrange(13, 13 + k) =~= r.key);
    assert(p.subrange(13 + k, 17 + k) =~= le32(r.value.len() as u32));
    assert(p.subrange(17 + k, 17 + k + r.value.len()) =~= r.value);
}

/// A payload that is short enough holds the record it was made of.
proof fn lemma_parsed(r: Rec)
    requires
        fits(r),
    ensures
        parsed(payload(r)) == Ok::<Rec, Fault>(r),
{
    reveal(parsed);
    lemma_payload(r);
    lemma_le64(r.seq);
    lemma_le32(r.key.len() as u32);
    lemma_le32(r.value.len() as u32);
}

/// How long the bytes of a record are, and where their parts stand.
pub proof fn lemma_frame(r: Rec)
    ensures
        frame(r).len() == 8 + payload_len(r),
        frame(r).subrange(0, 4) == le32(checksum(payload(r))),
        frame(r).subrange(4, 8) == le32(payload(r).len() as u32),
        frame(r).subrange(8, frame(r).len() as int) == payload(r),
{
    reveal(frame);
    lemma_payload(r);
    lemma_le32(checksum(payload(r)));
    lemma_le32(payload(r).len() as u32);
    let f = frame(r);
    assert(f.subrange(0, 4) =~= le32(checksum(payload(r))));
    assert(f.subrange(4, 8) =~= le32(payload(r).len() as u32));
    assert(f.subrange(8, f.len() as int) =~= payload(r));
}

/// A record that was encoded is read back, whatever follows it, and exactly its bytes are
/// read.
pub proof fn record_reads_back(r: Rec, rest: Seq<u8>)
    requires
        fits(r),
    ensures
        decoded(frame(r) + rest) == Ok::<Option<Rec>, Fault>(Some(r)),
        consumed(frame(r) + rest) == frame(r).len(),
{
    reveal(decoded);
    reveal(consumed);
    lemma_payload(r);
    lemma_frame(r);
    lemma_parsed(r);
    lemma_le32(checksum(payload(r)));
    lemma_le32(payload(r).len() as u32);
    let f = frame(r);
    let s = f + rest;
    assert(s.subrange(0, 4) =~= f.subrange(0, 4));
    assert(s.subrange(4, 8) =~= f.subrange(4, 8));
    assert(s.subrange(8, 8int + payload_len(r)) =~= payload(r));
}

/// A record cut off anywhere before its end is taken for a torn one: nothing is read.
pub proof fn torn_record_is_ignored(r: Rec, n: int)
    requires
        fits(r),
        0 <= n < frame(r).len(),
    ensures
        decoded(frame(r).take(n)) == Ok::<Option<Rec>, Fault>(None),
{
    reveal(decoded);
    lemma_payload(r);
    lemma_frame(r);
    lemma_le32(payload(r).len() as u32);
    if n >= 8 {
        assert(frame(r).take(n).subrange(4, 8) =~= frame(r).subrange(4, 8));
    }
}

/// A frame `f` with one changed byte after its header.
proof fn lemma_changed_byte(f: Seq<u8>, s: Seq<u8>, at: int)
    requires
        8 <= at < f.len() <= s.len(),
        s[at] != f[at],
        forall|i: int| 0 <= i < f.len() && i != at ==> s[i] == f[i],
    ensures
        s.subrange(0, 4) == f.subrange(0, 4),
        s.subrange(4, 8) == f.subrange(4, 8),
        checksum(s.subrange(8, f.len() as int)) != checksum(f.subrange(8, f.len() as int)),
{
    let p = f.subrange(8, f.len() as int);
    let q = s.subrange(8, f.len() as int);
    assert(s.subrange(0, 4) =~= f.subrange(0, 4));
    assert(s.subrange(4, 8) =~= f.subrange(4, 8));
    assert(p[at - 8] == f[at] && q[at - 8] == s[at]);
    assert forall|i: int| 0 <= i < p.len() && i != at - 8 implies p[i] == q[i] by {
        assert(s[8 + i] == f[8 + i]);
    }
    checksum_detects_a_changed_byte(p, q, at - 8);
}

/// A whole frame whose checksum does not match its payload.
proof fn lemma_bad_crc(s: Seq<u8>, expected: u32, len: u32)
    requires
        len <= MAX_RECORD_LEN,
        8 + len <= s.len(),
        s.subrange(0, 4) == le32(expected),
        s.subrange(4, 8) == le32(len),
        checksum(s.subrange(8, 8 + len)) != expected,
    ensures
        decoded(s) == Err::<Option<Rec>, Fault>(
            Fault::Corruption(bad_crc_text(expected, checksum(s.subrange(8, 8 + len)))),
        ),
{
    reveal(decoded);
    lemma_le32(expected);
    lemma_le32(len);
}

/// A record with one changed byte in its payload is refused as corrupt, whatever follows it.
pub proof fn corrupt_payload_is_refused(r: Rec, s: Seq<u8>, at: int)
    requires
        fits(r),
        8 <= at < frame(r).len() <= s.len(),
        s[at] != frame(r)[at],
        forall|i: int| 0 <= i < frame(r).len() && i != at ==> s[i] == frame(r)[i],
    ensures
        decoded(s) == Err::<Option<Rec>, Fault>(
            Fault::Corruption(
                bad_crc_text(
                    checksum(payload(r)),
                    checksum(s.subrange(8, frame(r).len() as int)),
                ),
            ),
        ),
{
    lemma_payload(r);
    lemma_frame(r);
    lemma_changed_byte(frame(r), s, at);
    lemma_bad_crc(s, checksum(payload(r)), payload(r).len() as u32);
}

/// What is read never takes more bytes than there are, and takes some where there are any.
/// Nothing is read where there is nothing.
pub proof fn lemma_consumed(s: Seq<u8>)
    ensures
        consumed(s) <= s.len(),
        s.len() > 0 ==> consumed(s) > 0,
        s.len() == 0 ==> decoded(s) == Ok::<Option<Rec>, Fault>(None),
{
    reveal(decoded);
    reveal(consumed);
}

/// Where everything stands in the bytes of a record: the checksum of all that follows the
/// header; the length of that; then the sequence number, the kind, the key and the value, each
/// of these two behind its length.
pub proof fn record_layout(r: Rec)
    requires
        17 + r.key.len() + r.value.len() <= u32::MAX,
    ensures
        ({
            let f = frame(r);
            let k = r.key.len() as int;
            let v = r.value.len() as int;
            &&& f.len() == 25 + k + v
            &&& u32_at(f, 0) == checksum(f.skip(8))
            &&& u32_at(f, 4) == 17 + k + v
            &&& u64_at(f, 8) == r.seq
            &&& f[16] == if r.kind == Kind::Put {
                0u8
            } else {
                1u8
            }
            &&& u32_at(f, 17) == k
            &&& f.subrange(21, 21 + k) == r.key
            &&& u32_at(f, 21 + k) == v
            &&& f.subrange(25 + k, 25 + k + v) == r.value
        }),
{
    let f = frame(r);
    let p = payload(r);
    let k = r.key.len() as int;
    let v = r.value.len() as int;
    lemma_frame(r);
    lemma_payload(r);
    assert(f.skip(8) =~= f.subrange(8, f.len() as int));
    lemma_le32_at(checksum(p), f, 0);
    lemma_le32_at(p.len() as u32, f, 4);
    assert(f.subrange(8, 16) =~= p.subrange(0, 8));
    lemma_le64_at(r.seq, f, 8);
    assert(f[16] == p[8]);
    assert(f.subrange(17, 21) =~= p.subrange(9, 13));
    lemma_le32_at(r.key.len() as u32, f, 17);
    assert(f.subrange(21, 21 + k) =~= p.subrange(13, 13 + k));
    assert(f.subrange(21 + k, 25 + k) =~= p.subrange(13 + k, 17 + k));
    lemma_le32_at(r.value.len() as u32, f, 21 + k);
    assert(f.subrange(25 + k, 25 + k + v) =~= p.subrange(17 + k, 17 + k + v));
}

/// A record can be read back, and is logged, exactly when its payload has at most 64 MiB.
pub proof fn the_longest_record(r: Rec)
    ensures
        fits(r) <==> 17 + r.key.len() + r.value.len() <= 67_108_864,
{
}

/// What is read of any bytes whatever: nothing, exactly where the header or the payload that it
/// announces is not whole, or is announced longer than 64 MiB; else a refusal, where the
/// checksum is wrong, the kind is unknown or a field would end past the payload; else the
/// record with the fields that stand there.
pub proof fn decoding_goes_by_the_bytes(s: Seq<u8>)
    ensures
        ({
            let len = u32_at(s, 4);
            let p = s.subrange(8, 8 + len);
            let k = u32_at(p, 9);
            let v = u32_at(p, 13 + k);
            if s.len() < 8 {
                decoded(s) == Ok::<Option<Rec>, Fault>(None) && consumed(s) == s.len()
            } else if len > 67_108_864 {
                decoded(s) == Ok::<Option<Rec>, Fault>(None) && consumed(s) == 8
            } else if s.len() < 8 + len {
                decoded(s) == Ok::<Option<Rec>, Fault>(None) && consumed(s) == s.len()
            } else {
                &&& consumed(s) == 8 + len
                &&& if checksum(p) != u32_at(s, 0) {
                    decoded(s) == Err::<Option<Rec>, Fault>(
                        Fault::Corruption(
                            "crc mismatch: expected "@ + hex8(u32_at(s, 0) as u32) + ", got "@
                                + hex8(checksum(p)),
                        ),
                    )
                } else if len >= 9 && p[8] > 1 {
                    decoded(s) == Err::<Option<Rec>, Fault>(
                        Fault::Corruption("invalid record kind: "@ + decimal(p[8] as nat)),
                    )
                } else if len < 13 || len < 17 + k || len < 17 + k + v {
                    decoded(s) == Err::<Option<Rec>, Fault>(
                        Fault::Corruption("record payload too short: "@ + decimal(len as nat)),
                    )
                } else {
                    decoded(s) matches Ok(Some(r)) && {
                        &&& r.seq == u64_at(p, 0)
                        &&& r.kind == Kind::Put <==> p[8] == 0
                        &&& r.key == p.subrange(13, 13 + k)
                        &&& r.value == p.subrange(17 + k, 17 + k + v)
                    }
                }
            }
        }),
{
    reveal(decoded);
    reveal(consumed);
    reveal(parsed);
    if s.len() >= 8 {
        lemma_un_le32(s, 0);
        lemma_un_le32(s, 4);
        let len = u32_at(s, 4);
        if len <= MAX_RECORD_LEN && 8 + len <= s.len() {
            let p = s.subrange(8, 8 + len);
            if len >= 13 {
                lemma_un_le64(p, 0);
                lemma_un_le32(p, 9);
                let k = u32_at(p, 9);
                if len >= 17 + k {
                    lemma_un_le32(p, 13 + k);
                }
            }
        }
    }
}

/// What a record, and several, stand for: all their fields, one by one and in order.
pub proof fn what_records_stand_for(r: Record, s: Seq<Record>)
    ensures
        r@.seq == r.seq && r@.kind == r.kind && r@.key == r.key@ && r@.value == r.value@,
        recs(s).len() == s.len(),
        forall|i: int| 0 <= i < s.len() ==> #[trigger] recs(s)[i] == s[i]@,
{
}

/// What is read is what is there: a record where there is one, with the same fields, nothing
/// where there is nothing, and a refusal, the same one, where there is one.
pub proof fn what_reading_gives(res: Result<Option<Record>, Error>, out: Result<Option<Rec>, Fault>)
    ensures
        reads_as(res, out) <==> match res {
            Ok(Some(r)) => out == Ok::<Option<Rec>, Fault>(Some(r@)),
            Ok(None) => out == Ok::<Option<Rec>, Fault>(None),
            Err(e) => out == Err::<Option<Rec>, Fault>(e@),
        },
{
}

/// The byte of each kind, and the refusal of any other byte.
pub proof fn kinds_and_their_bytes(b: u8)
    ensures
        kind_byte(Kind::Put) == 0,
        kind_byte(Kind::Tombstone) == 1,
        bad_kind_text(b) == "invalid record kind: "@ + decimal(b as nat),
{
}

} // verus!
