//! IEEE CRC-32 (reflected, polynomial 0xEDB88320).
//! Standard check value: crc32(b"123456789") == 0xCBF43926.

use vstd::prelude::*;

verus! {

/// The polynomial, with its lowest power in the highest bit.
pub const POLYNOMIAL: u32 = 0xEDB8_8320;

/// One division step: shifts one bit out and subtracts the polynomial if it was set.
pub open spec fn crc_bit(c: u32) -> u32 {
    if c & 1 == 1 {
        (c >> 1) ^ 0xEDB8_8320
    } else {
        c >> 1
    }
}

/// `n` division steps.
pub open spec fn crc_bits(c: u32, n: nat) -> u32
    decreases n,
{
    if n == 0 {
        c
    } else {
        crc_bit(crc_bits(c, (n - 1) as nat))
    }
}

/// The register `c` after the byte `b` has gone through it.
pub open spec fn crc_byte(c: u32, b: u8) -> u32 {
    crc_bits(c ^ (b as u32), 8)
}

/// The register `c` after all of `s` has gone through it.
pub open spec fn crc_bytes(c: u32, s: Seq<u8>) -> u32
    decreases s.len(),
{
    if s.len() == 0 {
        c
    } else {
        crc_byte(crc_bytes(c, s.drop_last()), s.last())
    }
}

/// The CRC-32 of `s`: the register starts with all bits set and is inverted at the end.
pub open spec fn checksum(s: Seq<u8>) -> u32 {
    crc_bytes(0xFFFF_FFFF, s) ^ 0xFFFF_FFFF
}

/// Eight steps written out.
spec fn crc_eight(c: u32) -> u32 {
    crc_bit(crc_bit(crc_bit(crc_bit(crc_bit(crc_bit(crc_bit(crc_bit(c))))))))
}

proof fn lemma_crc_eight(c: u32)
    ensures
        crc_bits(c, 8) == crc_eight(c),
{
    reveal_with_fuel(crc_bits, 9);
}

/// Eight steps shift the upper bytes down and add what the lowest byte turns into.
proof fn lemma_crc_table(c: u32)
    ensures
        crc_bits(c, 8) == (c >> 8) ^ crc_bits(c & 0xFF, 8),
{
    lemma_crc_eight(c);
    lemma_crc_eight(c & 0xFF);
    assert(crc_eight(c) == (c >> 8) ^ crc_eight(c & 0xFF)) by (bit_vector);
}

/// What each byte value turns into in eight steps.
fn make_table() -> (table: [u32; 256])
    ensures
        forall|i: int| 0 <= i < 256 ==> table@[i] == crc_bits(i as u32, 8),
{
    let mut table: [u32; 256] = [0u32; 256];
    let mut i: usize = 0;
    while i < 256
        invariant
            i <= 256,
            forall|k: int| 0 <= k < i ==> table@[k] == crc_bits(k as u32, 8),
        decreases 256 - i,
    {
        let mut crc: u32 = i as u32;
        let mut j: usize = 0;
        while j < 8
            invariant
                j <= 8,
                crc == crc_bits(i as u32, j as nat),
            decreases 8 - j,
        {
            if crc & 1 == 1 {
                crc = (crc >> 1) ^ POLYNOMIAL;
            } else {
                crc = crc >> 1;
            }
            j = j + 1;
        }
        table[i] = crc;
        i = i + 1;
    }
    table
}

/// The CRC-32 of `bytes`.
pub fn crc32(bytes: &[u8]) -> (crc: u32)
    ensures
        crc == checksum(bytes@),
{
    let table = make_table();
    let mut crc: u32 = 0xFFFF_FFFF;
    let mut i: usize = 0;
    while i < bytes.len()
        invariant
            i <= bytes@.len(),
            forall|k: int| 0 <= k < 256 ==> table@[k] == crc_bits(k as u32, 8),
            crc == crc_bytes(0xFFFF_FFFF, bytes@.take(i as int)),
        decreases bytes@.len() - i,
    {
        let x: u32 = crc ^ bytes[i] as u32;
        assert(x & 0xFF < 256) by (bit_vector);
        let idx: usize = (x & 0xFF) as usize;
        proof {
            let b = bytes@[i as int] as u32;
            lemma_crc_table(x);
            assert((crc ^ b) >> 8 == crc >> 8) by (bit_vector)
                requires
                    b < 256,
            ;
            let s = bytes@.take(i + 1);
            assert(s.drop_last() =~= bytes@.take(i as int));
        }
        crc = (crc >> 8) ^ table[idx];
        i = i + 1;
    }
    assert(bytes@.take(i as int) =~= bytes@);
    crc ^ 0xFFFF_FFFF
}

proof fn lemma_crc_bits_injective(c: u32, d: u32, n: nat)
    requires
        crc_bits(c, n) == crc_bits(d, n),
    ensures
        c == d,
    decreases n,
{
    if n > 0 {
        let x = crc_bits(c, (n - 1) as nat);
        let y = crc_bits(d, (n - 1) as nat);
        assert(crc_bit(x) == crc_bit(y) ==> x == y) by (bit_vector);
        lemma_crc_bits_injective(c, d, (n - 1) as nat);
    }
}

proof fn lemma_crc_bytes_differ(c: u32, s: Seq<u8>, t: Seq<u8>, at: int)
    requires
        0 <= at < s.len(),
        s.len() == t.len(),
        s[at] != t[at],
        forall|i: int| 0 <= i < s.len() && i != at ==> s[i] == t[i],
    ensures
        crc_bytes(c, s) != crc_bytes(c, t),
    decreases s.len(),
{
    let x = crc_bytes(c, s.drop_last());
    let y = crc_bytes(c, t.drop_last());
    let a = s.last() as u32;
    let b = t.last() as u32;
    if at == s.len() - 1 {
        assert(s.drop_last() =~= t.drop_last());
        assert(x ^ a == x ^ b ==> a == b) by (bit_vector);
    } else {
        lemma_crc_bytes_differ(c, s.drop_last(), t.drop_last(), at);
        assert(x ^ a == y ^ a ==> x == y) by (bit_vector);
    }
    if crc_bytes(c, s) == crc_bytes(c, t) {
        lemma_crc_bits_injective(x ^ a, y ^ b, 8);
    }
}

/// A change confined to one byte, so a single flipped bit too, changes the checksum.
pub proof fn checksum_detects_a_changed_byte(s: Seq<u8>, t: Seq<u8>, at: int)
    requires
        0 <= at < s.len(),
        s.len() == t.len(),
        s[at] != t[at],
        forall|i: int| 0 <= i < s.len() && i != at ==> s[i] == t[i],
    ensures
        checksum(s) != checksum(t),
{
    lemma_crc_bytes_differ(0xFFFF_FFFF, s, t, at);
    let x = crc_bytes(0xFFFF_FFFF, s);
    let y = crc_bytes(0xFFFF_FFFF, t);
    assert(x ^ 0xFFFF_FFFF == y ^ 0xFFFF_FFFF ==> x == y) by (bit_vector);
}

/// The checksum is the remainder of a division by the polynomial over all bytes, however many
/// there are: nothing has the checksum zero, and one more byte is XORed into the inverted
/// checksum, put through eight steps that each shift one bit out and subtract the polynomial if
/// that bit was set, and inverted again. `regs` holds the register before and after each step.
pub proof fn checksum_is_a_division(s: Seq<u8>, b: u8, regs: Seq<u32>)
    requires
        regs.len() == 9,
        regs[0] == (checksum(s) ^ 0xFFFF_FFFF) ^ (b as u32),
        forall|i: int|
            0 < i <= 8 ==> #[trigger] regs[i] == if regs[i - 1] & 1 == 1 {
                (regs[i - 1] >> 1) ^ 0xEDB8_8320
            } else {
                regs[i - 1] >> 1
            },
    ensures
        checksum(Seq::empty()) == 0,
        checksum(s.push(b)) == regs[8] ^ 0xFFFF_FFFF,
{
    let c = crc_bytes(0xFFFF_FFFF, s);
    assert((c ^ 0xFFFF_FFFF) ^ 0xFFFF_FFFF == c) by (bit_vector);
    assert(0xFFFF_FFFFu32 ^ 0xFFFF_FFFF == 0) by (bit_vector);
    assert(s.push(b).drop_last() =~= s);
    lemma_crc_eight(c ^ (b as u32));
    assert(regs[1] == crc_bit(regs[0]));
    assert(regs[2] == crc_bit(regs[1]));
    assert(regs[3] == crc_bit(regs[2]));
    assert(regs[4] == crc_bit(regs[3]));
    assert(regs[5] == crc_bit(regs[4]));
    assert(regs[6] == crc_bit(regs[5]));
    assert(regs[7] == crc_bit(regs[6]));
    assert(regs[8] == crc_bit(regs[7]));
}

/// What is above the lowest byte only moves down in eight steps.
proof fn lemma_crc_upper(c: u32, y: u32)
    requires
        y < 0x100_0000,
    ensures
        crc_bits(c ^ (y << 8), 8) == crc_bits(c, 8) ^ y,
{
    lemma_crc_eight(c);
    lemma_crc_eight(c ^ (y << 8));
    assert(crc_eight(c ^ (y << 8)) == crc_eight(c) ^ y) by (bit_vector)
        requires
            y < 0x100_0000,
    ;
}

/// Four bytes in one word, the first lowest.
spec fn word(a: u8, b: u8, c: u8, d: u8) -> u32 {
    (a as u32) ^ (((b as u32) ^ (((c as u32) ^ ((d as u32) << 8)) << 8)) << 8)
}

/// Four bytes go through the register as one word does.
proof fn lemma_crc_word(x: u32, a: u8, b: u8, c: u8, d: u8)
    ensures
        crc_byte(crc_byte(crc_byte(crc_byte(x, a), b), c), d) == crc_bits(
            crc_bits(crc_bits(crc_bits(x ^ word(a, b, c, d), 8), 8), 8),
            8,
        ),
{
    let w3 = d as u32;
    let w2 = (c as u32) ^ (w3 << 8);
    let w1 = (b as u32) ^ (w2 << 8);
    let w0 = (a as u32) ^ (w1 << 8);
    let (a32, b32, c32) = (a as u32, b as u32, c as u32);
    assert(w2 < 0x1_0000) by (bit_vector)
        requires
            w2 == c32 ^ (w3 << 8),
            c32 < 256,
            w3 < 256,
    ;
    assert(w1 < 0x100_0000) by (bit_vector)
        requires
            w1 == b32 ^ (w2 << 8),
            b32 < 256,
            w2 < 0x1_0000,
    ;
    let x1 = crc_bits(x ^ w0, 8);
    assert(x ^ w0 == (x ^ a32) ^ (w1 << 8)) by (bit_vector)
        requires
            w0 == a32 ^ (w1 << 8),
    ;
    lemma_crc_upper(x ^ a32, w1);
    let y1 = crc_byte(x, a);
    assert(x1 == y1 ^ w1);
    assert(y1 ^ w1 == (y1 ^ b32) ^ (w2 << 8)) by (bit_vector)
        requires
            w1 == b32 ^ (w2 << 8),
    ;
    lemma_crc_upper(y1 ^ b32, w2);
    let y2 = crc_byte(y1, b);
    assert(y2 ^ w2 == (y2 ^ c32) ^ (w3 << 8)) by (bit_vector)
        requires
            w2 == c32 ^ (w3 << 8),
    ;
    lemma_crc_upper(y2 ^ c32, w3);
}

/// Two runs of four bytes that differ leave different registers.
proof fn lemma_crc_four(x: u32, s: Seq<u8>, t: Seq<u8>)
    requires
        s.len() == 4,
        t.len() == 4,
        crc_bytes(x, s) == crc_bytes(x, t),
    ensures
        s == t,
{
    reveal_with_fuel(crc_bytes, 5);
    lemma_crc_word(x, s[0], s[1], s[2], s[3]);
    lemma_crc_word(x, t[0], t[1], t[2], t[3]);
    let v = x ^ word(s[0], s[1], s[2], s[3]);
    let w = x ^ word(t[0], t[1], t[2], t[3]);
    assert(s.drop_last().drop_last().drop_last().drop_last() =~= Seq::empty());
    assert(t.drop_last().drop_last().drop_last().drop_last() =~= Seq::empty());
    lemma_crc_bits_injective(
        crc_bits(crc_bits(crc_bits(v, 8), 8), 8),
        crc_bits(crc_bits(crc_bits(w, 8), 8), 8),
        8,
    );
    lemma_crc_bits_injective(crc_bits(crc_bits(v, 8), 8), crc_bits(crc_bits(w, 8), 8), 8);
    lemma_crc_bits_injective(crc_bits(v, 8), crc_bits(w, 8), 8);
    lemma_crc_bits_injective(v, w, 8);
    lemma_word(x, s[0], s[1], s[2], s[3], t[0], t[1], t[2], t[3]);
    assert(s =~= t);
}

/// A word gives its bytes back.
proof fn lemma_word(x: u32, a: u8, b: u8, c: u8, d: u8, e: u8, f: u8, g: u8, h: u8)
    by (bit_vector)
    requires
        x ^ ((a as u32) ^ (((b as u32) ^ (((c as u32) ^ ((d as u32) << 8)) << 8)) << 8)) == x ^ ((
        e as u32) ^ (((f as u32) ^ (((g as u32) ^ ((h as u32) << 8)) << 8)) << 8)),
    ensures
        a == e,
        b == f,
        c == g,
        d == h,
{
}

/// What goes through the register after a difference keeps it.
proof fn lemma_crc_apart(x: u32, y: u32, s: Seq<u8>)
    requires
        x != y,
    ensures
        crc_bytes(x, s) != crc_bytes(y, s),
    decreases s.len(),
{
    if s.len() > 0 {
        let front = s.drop_last();
        lemma_crc_apart(x, y, front);
        let p = crc_bytes(x, front);
        let q = crc_bytes(y, front);
        let b = s.last() as u32;
        assert(p ^ b == q ^ b ==> p == q) by (bit_vector);
        if crc_bytes(x, s) == crc_bytes(y, s) {
            lemma_crc_bits_injective(p ^ b, q ^ b, 8);
        }
    }
}

/// Bytes go through the register part by part.
proof fn lemma_crc_join(x: u32, s: Seq<u8>, t: Seq<u8>)
    ensures
        crc_bytes(x, s + t) == crc_bytes(crc_bytes(x, s), t),
    decreases t.len(),
{
    if t.len() == 0 {
        assert(s + t =~= s);
    } else {
        lemma_crc_join(x, s, t.drop_last());
        assert((s + t).drop_last() =~= s + t.drop_last());
    }
}

/// Changes confined to four consecutive bytes, so every burst of up to 32 bits, change the
/// checksum, wherever they stand and however long the input is.
pub proof fn checksum_detects_a_burst(front: Seq<u8>, a: Seq<u8>, b: Seq<u8>, back: Seq<u8>)
    requires
        a.len() == 4,
        b.len() == 4,
        a != b,
    ensures
        checksum(front + a + back) != checksum(front + b + back),
{
    let x = crc_bytes(0xFFFF_FFFF, front);
    lemma_crc_join(0xFFFF_FFFF, front, a);
    lemma_crc_join(0xFFFF_FFFF, front, b);
    lemma_crc_join(0xFFFF_FFFF, front + a, back);
    lemma_crc_join(0xFFFF_FFFF, front + b, back);
    let p = crc_bytes(x, a);
    let q = crc_bytes(x, b);
    if p == q {
        lemma_crc_four(x, a, b);
    }
    lemma_crc_apart(p, q, back);
    let v = crc_bytes(p, back);
    let w = crc_bytes(q, back);
    assert(v ^ 0xFFFF_FFFF == w ^ 0xFFFF_FFFF ==> v == w) by (bit_vector);
}

} // verus!
