//! Byte strings: little-endian integers, copying, and the order of keys.

use vstd::prelude::*;

verus! {

/// The four bytes of `x`, lowest first.
#[verifier::opaque]
pub open spec fn le32(x: u32) -> Seq<u8> {
    seq![
        (x % 0x100) as u8,
        (x / 0x100 % 0x100) as u8,
        (x / 0x1_0000 % 0x100) as u8,
        (x / 0x100_0000) as u8,
    ]
}

/// The number whose four bytes, lowest first, are `s`.
#[verifier::opaque]
pub open spec fn un_le32(s: Seq<u8>) -> u32 {
    (s[0] + 0x100 * s[1] + 0x1_0000 * s[2] + 0x100_0000 * s[3]) as u32
}

/// The eight bytes of `x`, lowest first.
#[verifier::opaque]
pub open spec fn le64(x: u64) -> Seq<u8> {
    le32((x % 0x1_0000_0000) as u32) + le32((x / 0x1_0000_0000) as u32)
}

/// The number whose eight bytes, lowest first, are `s`.
#[verifier::opaque]
pub open spec fn un_le64(s: Seq<u8>) -> u64 {
    (un_le32(s.subrange(0, 4)) + 0x1_0000_0000 * un_le32(s.subrange(4, 8))) as u64
}

/// Reading back the four bytes of a number gives the number.
pub proof fn lemma_le32(x: u32)
    ensures
        le32(x).len() == 4,
        un_le32(le32(x)) == x,
{
    reveal(le32);
    reveal(un_le32);
}

/// Reading back the eight bytes of a number gives the number.
pub proof fn lemma_le64(x: u64)
    ensures
        le64(x).len() == 8,
        un_le64(le64(x)) == x,
{
    reveal(le64);
    reveal(un_le64);
    let lo = (x % 0x1_0000_0000) as u32;
    let hi = (x / 0x1_0000_0000) as u32;
    lemma_le32(lo);
    lemma_le32(hi);
    assert(le64(x).subrange(0, 4) =~= le32(lo));
    assert(le64(x).subrange(4, 8) =~= le32(hi));
}

/// Appends `s` to `buf`.
pub fn push_bytes(buf: &mut Vec<u8>, s: &[u8])
    ensures
        final(buf)@ == old(buf)@ + s@,
{
    buf.extend_from_slice(s);
    assert(buf@ =~= old(buf)@ + s@);
}

/// Appends the four bytes of `x` to `buf`, lowest first.
pub fn push_u32(buf: &mut Vec<u8>, x: u32)
    ensures
        final(buf)@ == old(buf)@ + le32(x),
{
    reveal(le32);
    buf.push((x % 0x100) as u8);
    buf.push((x / 0x100 % 0x100) as u8);
    buf.push((x / 0x1_0000 % 0x100) as u8);
    buf.push((x / 0x100_0000) as u8);
    assert(buf@ =~= old(buf)@ + le32(x));
}

/// Appends the eight bytes of `x` to `buf`, lowest first.
pub fn push_u64(buf: &mut Vec<u8>, x: u64)
    ensures
        final(buf)@ == old(buf)@ + le64(x),
{
    reveal(le64);
    push_u32(buf, (x % 0x1_0000_0000) as u32);
    push_u32(buf, (x / 0x1_0000_0000) as u32);
    assert(buf@ =~= old(buf)@ + le64(x));
}

/// The number in the four bytes of `buf` from `at` on.
pub fn read_u32(buf: &[u8], at: usize) -> (x: u32)
    requires
        at + 4 <= buf@.len(),
    ensures
        x == un_le32(buf@.subrange(at as int, at + 4)),
{
    reveal(un_le32);
    let ghost s = buf@.subrange(at as int, at + 4);
    assert(s[0] == buf@[at as int] && s[1] == buf@[at + 1] && s[2] == buf@[at + 2] && s[3]
        == buf@[at + 3]);
    buf[at] as u32 + 0x100 * buf[at + 1] as u32 + 0x1_0000 * buf[at + 2] as u32 + 0x100_0000
        * buf[at + 3] as u32
}

/// The number in the eight bytes of `buf` from `at` on.
pub fn read_u64(buf: &[u8], at: usize) -> (x: u64)
    requires
        at + 8 <= buf@.len(),
    ensures
        x == un_le64(buf@.subrange(at as int, at + 8)),
{
    reveal(un_le64);
    let ghost s = buf@.subrange(at as int, at + 8);
    assert(s.subrange(0, 4) =~= buf@.subrange(at as int, at + 4));
    assert(s.subrange(4, 8) =~= buf@.subrange(at + 4, at + 8));
    assert(at + 8 <= buf.len());
    let lo: u64 = read_u32(buf, at) as u64;
    let hi: u64 = read_u32(buf, at + 4) as u64;
    lo + 0x1_0000_0000 * hi
}

/// A copy of `s`.
pub fn copy_bytes(s: &[u8]) -> (out: Vec<u8>)
    ensures
        out@ == s@,
{
    let mut out: Vec<u8> = Vec::new();
    push_bytes(&mut out, s);
    assert(out@ =~= s@);
    out
}

/// A copy of the bytes of `s` from `from` up to `to`.
pub fn copy_range(s: &[u8], from: usize, to: usize) -> (out: Vec<u8>)
    requires
        from <= to <= s@.len(),
    ensures
        out@ == s@.subrange(from as int, to as int),
{
    copy_bytes(&s[from..to])
}

/// `a` and `b` agree below `i`, and there `a` ends or has the smaller byte.
pub open spec fn lower_at(a: Seq<u8>, b: Seq<u8>, i: int) -> bool {
    &&& 0 <= i <= a.len()
    &&& i < b.len()
    &&& forall|j: int| 0 <= j < i ==> a[j] == b[j]
    &&& i < a.len() ==> a[i] < b[i]
}

/// The lexicographic order of byte strings: `a` comes strictly before `b`.
pub open spec fn key_lt(a: Seq<u8>, b: Seq<u8>) -> bool {
    exists|i: int| lower_at(a, b, i)
}

/// No key comes before itself, and two keys are never before each other.
pub proof fn lemma_key_lt_asymmetric(a: Seq<u8>, b: Seq<u8>)
    requires
        key_lt(a, b),
    ensures
        a != b,
        !key_lt(b, a),
{
    let i = choose|i: int| lower_at(a, b, i);
    if key_lt(b, a) {
        let j = choose|j: int| lower_at(b, a, j);
        if i < j {
            assert(a[i] == b[i]);
        } else if j < i {
            assert(a[j] == b[j]);
        }
    }
}

/// The order of keys is transitive.
pub proof fn lemma_key_lt_transitive(a: Seq<u8>, b: Seq<u8>, c: Seq<u8>)
    requires
        key_lt(a, b),
        key_lt(b, c),
    ensures
        key_lt(a, c),
{
    let i = choose|i: int| lower_at(a, b, i);
    let j = choose|j: int| lower_at(b, c, j);
    let k = if i < j {
        i
    } else {
        j
    };
    assert(lower_at(a, c, k));
}

/// How one key stands to another.
#[derive(Clone, Copy, PartialEq, Eq, Structural, Debug)]
pub enum KeyOrder {
    Before,
    Same,
    After,
}

/// How `a` stands to `b` in the order of keys.
pub fn key_order(a: &[u8], b: &[u8]) -> (o: KeyOrder)
    ensures
        o == KeyOrder::Before <==> key_lt(a@, b@),
        o == KeyOrder::Same <==> a@ == b@,
        o == KeyOrder::After <==> key_lt(b@, a@),
{
    let mut i: usize = 0;
    while i < a.len() && i < b.len() && a[i] == b[i]
        invariant
            i <= a@.len(),
            i <= b@.len(),
            forall|j: int| 0 <= j < i ==> a@[j] == b@[j],
        decreases a@.len() - i,
    {
        i = i + 1;
    }
    if i < b.len() && (i == a.len() || a[i] < b[i]) {
        proof {
            assert(lower_at(a@, b@, i as int));
            lemma_key_lt_asymmetric(a@, b@);
        }
        KeyOrder::Before
    } else if i < a.len() {
        proof {
            assert(lower_at(b@, a@, i as int));
            lemma_key_lt_asymmetric(b@, a@);
        }
        KeyOrder::After
    } else {
        proof {
            assert(a@ =~= b@);
            if key_lt(a@, b@) {
                lemma_key_lt_asymmetric(a@, b@);
            }
        }
        KeyOrder::Same
    }
}

/// Any two keys are the same, or one comes before the other.
pub proof fn lemma_key_lt_total(a: Seq<u8>, b: Seq<u8>)
    ensures
        a == b || key_lt(a, b) || key_lt(b, a),
    decreases a.len(),
{
    if a.len() == 0 || b.len() == 0 {
        if a.len() == 0 && b.len() == 0 {
            assert(a =~= b);
        } else if a.len() == 0 {
            assert(lower_at(a, b, 0));
        } else {
            assert(lower_at(b, a, 0));
        }
    } else if a[0] != b[0] {
        assert(lower_at(a, b, 0) || lower_at(b, a, 0));
    } else {
        let a1 = a.drop_first();
        let b1 = b.drop_first();
        lemma_key_lt_total(a1, b1);
        if a1 == b1 {
            assert(a =~= seq![a[0]] + a1);
            assert(b =~= seq![b[0]] + b1);
        } else if key_lt(a1, b1) {
            let i = choose|i: int| lower_at(a1, b1, i);
            assert(forall|j: int| 0 <= j < i + 1 ==> j > 0 ==> a[j] == a1[j - 1] && b[j] == b1[j - 1]);
            assert(lower_at(a, b, i + 1));
        } else {
            let i = choose|i: int| lower_at(b1, a1, i);
            assert(forall|j: int| 0 <= j < i + 1 ==> j > 0 ==> a[j] == a1[j - 1] && b[j] == b1[j - 1]);
            assert(lower_at(b, a, i + 1));
        }
    }
}

/// The number that the four bytes of `s` from `i` on are, the lowest first.
pub open spec fn u32_at(s: Seq<u8>, i: int) -> int {
    s[i] + 256 * s[i + 1] + 65536 * s[i + 2] + 16777216 * s[i + 3]
}

/// The number that the eight bytes of `s` from `i` on are, the lowest first.
pub open spec fn u64_at(s: Seq<u8>, i: int) -> int {
    u32_at(s, i) + 4294967296 * u32_at(s, i + 4)
}

/// Numbers are stored with their lowest byte first: in four bytes or in eight, each byte counts
/// 256 times the one before it.
pub proof fn numbers_are_little_endian(x: u32, y: u64, s: Seq<u8>, i: int)
    requires
        0 <= i,
        i + 8 <= s.len(),
    ensures
        le32(x).len() == 4,
        le32(x)[0] + 256 * le32(x)[1] + 65536 * le32(x)[2] + 16777216 * le32(x)[3] == x,
        le64(y).len() == 8,
        le64(y)[0] + 256 * le64(y)[1] + 65536 * le64(y)[2] + 16777216 * le64(y)[3] + 4294967296 * (
        le64(y)[4] + 256 * le64(y)[5] + 65536 * le64(y)[6] + 16777216 * le64(y)[7]) == y,
        un_le32(s.subrange(i, i + 4)) == s[i] + 256 * s[i + 1] + 65536 * s[i + 2] + 16777216 * s[i
            + 3],
        un_le64(s.subrange(i, i + 8)) == s[i] + 256 * s[i + 1] + 65536 * s[i + 2] + 16777216 * s[i
            + 3] + 4294967296 * (s[i + 4] + 256 * s[i + 5] + 65536 * s[i + 6] + 16777216 * s[i + 7]),
        u32_at(s, i) == s[i] + 256 * s[i + 1] + 65536 * s[i + 2] + 16777216 * s[i + 3],
        u64_at(s, i) == s[i] + 256 * s[i + 1] + 65536 * s[i + 2] + 16777216 * s[i + 3] + 4294967296
            * (s[i + 4] + 256 * s[i + 5] + 65536 * s[i + 6] + 16777216 * s[i + 7]),
{
    lemma_le32(x);
    lemma_le64(y);
    assert(le32(x).subrange(0, 4) =~= le32(x));
    assert(le64(y).subrange(0, 8) =~= le64(y));
    lemma_le32_at(x, le32(x), 0);
    lemma_le64_at(y, le64(y), 0);
    lemma_un_le32(s, i);
    lemma_un_le64(s, i);
}

/// Where the four bytes of `x` stand in `s`, they are read as `x`.
pub proof fn lemma_le32_at(x: u32, s: Seq<u8>, i: int)
    requires
        0 <= i,
        i + 4 <= s.len(),
        s.subrange(i, i + 4) == le32(x),
    ensures
        u32_at(s, i) == x,
        le32(x).len() == 4,
{
    reveal(le32);
    let t = s.subrange(i, i + 4);
    assert(s[i] == t[0] && s[i + 1] == t[1] && s[i + 2] == t[2] && s[i + 3] == t[3]);
}

/// Where the eight bytes of `x` stand in `s`, they are read as `x`.
pub proof fn lemma_le64_at(x: u64, s: Seq<u8>, i: int)
    requires
        0 <= i,
        i + 8 <= s.len(),
        s.subrange(i, i + 8) == le64(x),
    ensures
        u64_at(s, i) == x,
        le64(x).len() == 8,
{
    reveal(le64);
    let t = s.subrange(i, i + 8);
    let lo = (x % 0x1_0000_0000) as u32;
    let hi = (x / 0x1_0000_0000) as u32;
    lemma_le32(lo);
    lemma_le32(hi);
    assert(s.subrange(i, i + 4) =~= t.subrange(0, 4));
    assert(t.subrange(0, 4) =~= le32(lo));
    assert(s.subrange(i + 4, i + 8) =~= t.subrange(4, 8));
    assert(t.subrange(4, 8) =~= le32(hi));
    lemma_le32_at(lo, s, i);
    lemma_le32_at(hi, s, i + 4);
}

/// Four bytes are read as the number that they are.
pub proof fn lemma_un_le32(s: Seq<u8>, i: int)
    requires
        0 <= i,
        i + 4 <= s.len(),
    ensures
        un_le32(s.subrange(i, i + 4)) == u32_at(s, i),
{
    reveal(un_le32);
    let t = s.subrange(i, i + 4);
    assert(s[i] == t[0] && s[i + 1] == t[1] && s[i + 2] == t[2] && s[i + 3] == t[3]);
}

/// Eight bytes are read as the number that they are.
pub proof fn lemma_un_le64(s: Seq<u8>, i: int)
    requires
        0 <= i,
        i + 8 <= s.len(),
    ensures
        un_le64(s.subrange(i, i + 8)) == u64_at(s, i),
{
    reveal(un_le64);
    let t = s.subrange(i, i + 8);
    assert(t.subrange(0, 4) =~= s.subrange(i, i + 4));
    assert(t.subrange(4, 8) =~= s.subrange(i + 4, i + 8));
    lemma_un_le32(s, i);
    lemma_un_le32(s, i + 4);
}

/// Keys are ordered as words in a dictionary: nothing comes first, then the first bytes decide,
/// and where those are the same, what follows them.
pub proof fn keys_are_in_dictionary_order(a: Seq<u8>, b: Seq<u8>)
    ensures
        a.len() == 0 ==> (key_lt(a, b) <==> b.len() > 0),
        b.len() == 0 ==> !key_lt(a, b),
        a.len() > 0 && b.len() > 0 ==> (key_lt(a, b) <==> a[0] < b[0] || (a[0] == b[0] && key_lt(
            a.skip(1),
            b.skip(1),
        ))),
{
    if a.len() == 0 && b.len() > 0 {
        assert(lower_at(a, b, 0));
    }
    if a.len() > 0 && b.len() > 0 {
        let a1 = a.skip(1);
        let b1 = b.skip(1);
        if key_lt(a, b) {
            let i = choose|i: int| lower_at(a, b, i);
            if i > 0 {
                assert(forall|j: int| 0 <= j < i - 1 ==> a1[j] == a[j + 1] && b1[j] == b[j + 1]);
                assert(lower_at(a1, b1, i - 1));
            }
        }
        if a[0] < b[0] {
            assert(lower_at(a, b, 0));
        }
        if a[0] == b[0] && key_lt(a1, b1) {
            let i = choose|i: int| lower_at(a1, b1, i);
            assert(forall|j: int| 0 < j < i + 1 ==> a[j] == a1[j - 1] && b[j] == b1[j - 1]);
            assert(lower_at(a, b, i + 1));
        }
    }
}

} // verus!
