//! Numbers and words in text.

use vstd::prelude::*;
use vstd::string::*;

verus! {

/// The decimal digit for `d`.
pub open spec fn digit(d: int) -> char {
    (48 + d) as char
}

/// `n` in decimal, with leading zeros where it has fewer than `width` digits.
pub open spec fn padded(n: nat, width: nat) -> Seq<char>
    decreases n, width,
{
    if n < 10 && width <= 1 {
        seq![digit(n as int)]
    } else {
        padded(n / 10, if width == 0 { 0 } else { (width - 1) as nat }).push(
            digit((n % 10) as int),
        )
    }
}

/// `n` in decimal, without leading zeros.
pub open spec fn decimal(n: nat) -> Seq<char> {
    padded(n, 1)
}

/// The lower-case hexadecimal digit for `d`.
pub open spec fn hex_digit(d: int) -> char {
    if d < 10 {
        (48 + d) as char
    } else {
        (87 + d) as char
    }
}

/// `x` as `0x` and eight hexadecimal digits.
pub open spec fn hex8(x: u32) -> Seq<char> {
    "0x"@ + seq![
        hex_digit(x as int / 0x1000_0000),
        hex_digit(x as int / 0x100_0000 % 0x10),
        hex_digit(x as int / 0x10_0000 % 0x10),
        hex_digit(x as int / 0x1_0000 % 0x10),
        hex_digit(x as int / 0x1000 % 0x10),
        hex_digit(x as int / 0x100 % 0x10),
        hex_digit(x as int / 0x10 % 0x10),
        hex_digit(x as int % 0x10),
    ]
}

pub open spec fn is_digit(c: char) -> bool {
    '0' <= c <= '9'
}

/// The number that the digits `s` stand for.
pub open spec fn digits_value(s: Seq<char>) -> nat
    decreases s.len(),
{
    if s.len() == 0 {
        0
    } else {
        (10 * digits_value(s.drop_last()) + (s.last() as int - 48)) as nat
    }
}

/// `s` without a leading plus sign.
pub open spec fn unsigned(s: Seq<char>) -> Seq<char> {
    if s.len() > 0 && s[0] == '+' {
        s.drop_first()
    } else {
        s
    }
}

/// The number written in `s`: an optional plus sign and one or more decimal digits,
/// with a value that fits in 64 bits.
pub open spec fn number(s: Seq<char>) -> Option<u64> {
    let d = unsigned(s);
    if d.len() > 0 && (forall|i: int| 0 <= i < d.len() ==> is_digit(d[i])) && digits_value(d)
        <= u64::MAX {
        Some(digits_value(d) as u64)
    } else {
        None
    }
}

/// Unicode white space.
pub open spec fn is_space(c: char) -> bool {
    ||| '\u{9}' <= c <= '\u{d}'
    ||| c == ' '
    ||| c == '\u{85}'
    ||| c == '\u{a0}'
    ||| c == '\u{1680}'
    ||| '\u{2000}' <= c <= '\u{200a}'
    ||| c == '\u{2028}'
    ||| c == '\u{2029}'
    ||| c == '\u{202f}'
    ||| c == '\u{205f}'
    ||| c == '\u{3000}'
}

/// How many characters stand in `s` before its first white space.
pub open spec fn word_len(s: Seq<char>) -> nat
    decreases s.len(),
{
    if s.len() == 0 || is_space(s[0]) {
        0
    } else {
        1 + word_len(s.drop_first())
    }
}

/// The characters before the first white space are characters of `s`, and none is white space.
pub proof fn lemma_word_len(s: Seq<char>)
    ensures
        word_len(s) <= s.len(),
        forall|i: int| 0 <= i < word_len(s) ==> !is_space(s[i]),
        word_len(s) < s.len() ==> is_space(s[word_len(s) as int]),
    decreases s.len(),
{
    if s.len() > 0 && !is_space(s[0]) {
        let t = s.drop_first();
        lemma_word_len(t);
        assert(forall|i: int| 0 < i < s.len() ==> s[i] == t[i - 1]);
    }
}

/// The words of `s`: its longest pieces without white space, in order.
pub open spec fn words(s: Seq<char>) -> Seq<Seq<char>>
    decreases s.len(),
{
    if s.len() == 0 {
        Seq::empty()
    } else if is_space(s[0]) {
        words(s.drop_first())
    } else {
        proof {
            lemma_word_len(s);
        }
        seq![s.take(word_len(s) as int)] + words(s.skip(word_len(s) as int))
    }
}

/// `s` without the white space at its ends.
pub open spec fn trimmed(s: Seq<char>) -> Seq<char>
    decreases s.len(),
{
    if s.len() == 0 {
        s
    } else if is_space(s[0]) {
        trimmed(s.drop_first())
    } else if is_space(s.last()) {
        trimmed(s.drop_last())
    } else {
        s
    }
}

/// The literal for one decimal or hexadecimal digit.
fn digit_literal(d: u32) -> (s: &'static str)
    requires
        d < 16,
    ensures
        s@ == seq![hex_digit(d as int)],
{
    proof {
        reveal_strlit("0");
        reveal_strlit("1");
        reveal_strlit("2");
        reveal_strlit("3");
        reveal_strlit("4");
        reveal_strlit("5");
        reveal_strlit("6");
        reveal_strlit("7");
        reveal_strlit("8");
        reveal_strlit("9");
        reveal_strlit("a");
        reveal_strlit("b");
        reveal_strlit("c");
        reveal_strlit("d");
        reveal_strlit("e");
        reveal_strlit("f");
    }
    let s = match d {
        0 => "0",
        1 => "1",
        2 => "2",
        3 => "3",
        4 => "4",
        5 => "5",
        6 => "6",
        7 => "7",
        8 => "8",
        9 => "9",
        10 => "a",
        11 => "b",
        12 => "c",
        13 => "d",
        14 => "e",
        _ => "f",
    };
    assert(s@ =~= seq![hex_digit(d as int)]);
    s
}

/// Appends `n` in decimal, with leading zeros where it has fewer than `width` digits.
pub fn push_padded(out: &mut String, n: u64, width: usize)
    ensures
        final(out)@ == old(out)@ + padded(n as nat, width as nat),
    decreases n, width,
{
    if n >= 10 || width > 1 {
        push_padded(out, n / 10, if width == 0 { 0 } else { width - 1 });
    }
    out.append(digit_literal((n % 10) as u32));
    assert(out@ =~= old(out)@ + padded(n as nat, width as nat));
}

/// Appends `n` in decimal.
pub fn push_decimal(out: &mut String, n: u64)
    ensures
        final(out)@ == old(out)@ + decimal(n as nat),
{
    push_padded(out, n, 1);
}

/// Appends `x` as `0x` and eight hexadecimal digits.
pub fn push_hex8(out: &mut String, x: u32)
    ensures
        final(out)@ == old(out)@ + hex8(x),
{
    out.append("0x");
    out.append(digit_literal(x / 0x1000_0000));
    out.append(digit_literal(x / 0x100_0000 % 0x10));
    out.append(digit_literal(x / 0x10_0000 % 0x10));
    out.append(digit_literal(x / 0x1_0000 % 0x10));
    out.append(digit_literal(x / 0x1000 % 0x10));
    out.append(digit_literal(x / 0x100 % 0x10));
    out.append(digit_literal(x / 0x10 % 0x10));
    out.append(digit_literal(x % 0x10));
    assert(out@ =~= old(out)@ + hex8(x));
}

/// The characters of `s`.
pub fn chars_of(s: &str) -> (out: Vec<char>)
    ensures
        out@ == s@,
{
    let mut out: Vec<char> = Vec::new();
    for c in it: s.chars()
        invariant
            out@ == it.seq().take(it.index()),
            it.seq() == s@,
    {
        out.push(c);
        assert(out@ =~= it.seq().take(it.index() + 1));
    }
    assert(out@ =~= s@);
    out
}

/// The number in `s`, if one is written there.
pub fn parse_number(s: &[char]) -> (n: Option<u64>)
    ensures
        n == number(s@),
{
    let start: usize = if s.len() > 0 && s[0] == '+' {
        1
    } else {
        0
    };
    let ghost d = unsigned(s@);
    assert(d =~= s@.skip(start as int));
    if start == s.len() {
        return None;
    }
    let mut value: u64 = 0;
    let mut i: usize = start;
    while i < s.len()
        invariant
            start <= i <= s@.len(),
            start <= 1,
            d == unsigned(s@),
            d == s@.skip(start as int),
            forall|j: int| 0 <= j < i - start ==> is_digit(d[j]),
            value == digits_value(d.take(i - start)),
        decreases s@.len() - i,
    {
        let c = s[i];
        assert(d[i - start] == c);
        proof {
            lemma_digits_value_grows(d, i - start + 1);
            assert(d.take(i - start + 1).drop_last() =~= d.take(i - start));
        }
        if c < '0' || c > '9' {
            return None;
        }
        let x: u64 = c as u64 - 48;
        if value > (u64::MAX - x) / 10 {
            assert(10 * value + x > u64::MAX);
            return None;
        }
        value = 10 * value + x;
        i = i + 1;
    }
    assert(d.take(i - start) =~= d);
    Some(value)
}

/// More digits never make a smaller number.
proof fn lemma_digits_value_grows(d: Seq<char>, n: int)
    requires
        0 <= n <= d.len(),
    ensures
        (forall|i: int| 0 <= i < d.len() ==> is_digit(d[i])) ==> digits_value(d.take(n))
            <= digits_value(d),
    decreases d.len(),
{
    if n == d.len() {
        assert(d.take(n) =~= d);
    } else {
        lemma_digits_value_grows(d.drop_last(), n);
        assert(d.drop_last().take(n) =~= d.take(n));
    }
}

/// What is written for a number, padded or not, is digits that stand for it.
pub proof fn lemma_padded(n: nat, width: nat)
    ensures
        padded(n, width).len() >= 1,
        forall|i: int| 0 <= i < padded(n, width).len() ==> is_digit(padded(n, width)[i]),
        digits_value(padded(n, width)) == n,
    decreases n, width,
{
    let p = padded(n, width);
    if n < 10 && width <= 1 {
        assert(p.drop_last() =~= Seq::empty());
        assert(digits_value(Seq::empty()) == 0);
    } else {
        let w = if width == 0 { 0 } else { (width - 1) as nat };
        lemma_padded(n / 10, w);
        assert(p.drop_last() =~= padded(n / 10, w));
    }
}

/// A number that was written, padded or not, is read back.
pub proof fn number_reads_back(n: u64, width: nat)
    ensures
        number(padded(n as nat, width)) == Some(n),
{
    lemma_padded(n as nat, width);
    assert(unsigned(padded(n as nat, width)) =~= padded(n as nat, width));
}

/// Whether `c` is white space.
fn space(c: char) -> (b: bool)
    ensures
        b == is_space(c),
{
    ('\u{9}' <= c && c <= '\u{d}') || c == ' ' || c == '\u{85}' || c == '\u{a0}' || c == '\u{1680}'
        || ('\u{2000}' <= c && c <= '\u{200a}') || c == '\u{2028}' || c == '\u{2029}' || c
        == '\u{202f}' || c == '\u{205f}' || c == '\u{3000}'
}

/// The pieces of `s` at the places `v`.
pub open spec fn pieces(s: Seq<char>, v: Seq<(usize, usize)>) -> Seq<Seq<char>> {
    v.map_values(|r: (usize, usize)| s.subrange(r.0 as int, r.1 as int))
}

/// Where the words of `s` stand.
pub fn split_words(s: &[char]) -> (v: Vec<(usize, usize)>)
    ensures
        pieces(s@, v@) == words(s@),
        forall|i: int| 0 <= i < v@.len() ==> (#[trigger] v@[i]).0 <= v@[i].1 <= s@.len(),
{
    let mut v: Vec<(usize, usize)> = Vec::new();
    let mut i: usize = 0;
    assert(s@.skip(0) =~= s@);
    assert(pieces(s@, v@) + words(s@) =~= words(s@));
    while i < s.len()
        invariant
            i <= s@.len(),
            pieces(s@, v@) + words(s@.skip(i as int)) == words(s@),
            forall|k: int| 0 <= k < v@.len() ==> (#[trigger] v@[k]).0 <= v@[k].1 <= s@.len(),
        decreases s@.len() - i,
    {
        let ghost rest = s@.skip(i as int);
        if space(s[i]) {
            i = i + 1;
            assert(rest.drop_first() =~= s@.skip(i as int));
        } else {
            let start: usize = i;
            let ghost before = pieces(s@, v@);
            while i < s.len() && !space(s[i])
                invariant
                    start <= i <= s@.len(),
                    rest == s@.skip(start as int),
                    word_len(rest) == i - start + word_len(s@.skip(i as int)),
                decreases s@.len() - i,
            {
                let ghost here = s@.skip(i as int);
                i = i + 1;
                assert(here.drop_first() =~= s@.skip(i as int));
            }
            v.push((start, i));
            proof {
                assert(word_len(s@.skip(i as int)) == 0);
                assert(rest.take(i - start) =~= s@.subrange(start as int, i as int));
                assert(rest.skip(i - start) =~= s@.skip(i as int));
                assert(pieces(s@, v@) =~= before.push(s@.subrange(start as int, i as int)));
                assert(before + (seq![s@.subrange(start as int, i as int)] + words(
                    s@.skip(i as int),
                )) =~= pieces(s@, v@) + words(s@.skip(i as int)));
                lemma_word_len(rest);
            }
        }
    }
    assert(pieces(s@, v@) + words(s@.skip(i as int)) =~= pieces(s@, v@));
    v
}

/// Where `s` stands without the white space at its ends.
pub fn trim(s: &[char]) -> (r: (usize, usize))
    ensures
        r.0 <= r.1 <= s@.len(),
        s@.subrange(r.0 as int, r.1 as int) == trimmed(s@),
{
    let mut a: usize = 0;
    let mut b: usize = s.len();
    assert(s@.subrange(0, s@.len() as int) =~= s@);
    while a < b && space(s[a])
        invariant
            a <= b <= s@.len(),
            trimmed(s@.subrange(a as int, b as int)) == trimmed(s@),
        decreases b - a,
    {
        assert(s@.subrange(a as int, b as int).drop_first() =~= s@.subrange(a + 1, b as int));
        a = a + 1;
    }
    while a < b && space(s[b - 1])
        invariant
            a <= b <= s@.len(),
            a < b ==> !is_space(s@[a as int]),
            trimmed(s@.subrange(a as int, b as int)) == trimmed(s@),
        decreases b - a,
    {
        assert(s@.subrange(a as int, b as int).drop_last() =~= s@.subrange(a as int, b - 1));
        b = b - 1;
    }
    (a, b)
}

/// Whether `s` is `t`.
pub fn same_chars(s: &[char], t: &[char]) -> (b: bool)
    ensures
        b == (s@ == t@),
{
    if s.len() != t.len() {
        return false;
    }
    let mut i: usize = 0;
    while i < s.len()
        invariant
            i <= s@.len(),
            s@.len() == t@.len(),
            forall|j: int| 0 <= j < i ==> s@[j] == t@[j],
        decreases s@.len() - i,
    {
        if s[i] != t[i] {
            return false;
        }
        i = i + 1;
    }
    assert(s@ =~= t@);
    true
}

/// A word in front of white space is the first word.
pub proof fn lemma_words_front(w: Seq<char>, c: char, rest: Seq<char>)
    requires
        w.len() > 0,
        forall|i: int| 0 <= i < w.len() ==> !is_space(w[i]),
        is_space(c),
    ensures
        words(w + seq![c] + rest) == seq![w] + words(rest),
{
    let s = w + seq![c] + rest;
    lemma_word_len(s);
    let n = word_len(s) as int;
    if n < w.len() {
        assert(s[n] == w[n]);
    }
    if n > w.len() {
        assert(s[w.len() as int] == c);
    }
    assert(s.take(n) =~= w);
    let more = s.skip(n);
    assert(more.drop_first() =~= rest);
    assert(words(more) == words(rest));
}

/// Text without white space is one word.
pub proof fn lemma_words_one(w: Seq<char>)
    requires
        w.len() > 0,
        forall|i: int| 0 <= i < w.len() ==> !is_space(w[i]),
    ensures
        words(w) == seq![w],
{
    lemma_word_len(w);
    let n = word_len(w) as int;
    assert(n == w.len());
    assert(w.take(n) =~= w);
    assert(w.skip(n) =~= Seq::<char>::empty());
    assert(words(w.skip(n)) =~= Seq::<Seq<char>>::empty());
    assert(words(w) =~= seq![w]);
}

/// What is written for a number is decimal digits that stand for it: as many as asked for, and
/// more only where the number needs them. Each further digit makes ten times the number and the
/// digit of what stands before it.
pub proof fn numbers_are_decimal(n: nat, width: nat, s: Seq<char>, c: char)
    requires
        '0' <= c <= '9',
        forall|i: int| 0 <= i < s.len() ==> '0' <= #[trigger] s[i] <= '9',
    ensures
        digits_value(Seq::empty()) == 0,
        digits_value(s.push(c)) == 10 * digits_value(s) + (c as int - '0' as int),
        digits_value(padded(n, width)) == n,
        forall|i: int|
            0 <= i < padded(n, width).len() ==> '0' <= #[trigger] padded(n, width)[i] <= '9',
        padded(n, width).len() >= width,
        padded(n, width).len() >= 1,
        padded(n, width).len() > width && padded(n, width).len() > 1 ==> padded(n, width)[0] != '0',
        decimal(n) == padded(n, 1),
{
    lemma_padded(n, width);
    lemma_padded_len(n, width);
    assert(s.push(c).drop_last() =~= s);
    assert forall|i: int| 0 <= i < padded(n, width).len() implies '0' <= #[trigger] padded(n, width)[i]
        <= '9' by {
        assert(is_digit(padded(n, width)[i]));
    }
}

/// How many digits are written.
proof fn lemma_padded_len(n: nat, width: nat)
    ensures
        padded(n, width).len() >= width,
        padded(n, width).len() >= 1,
        padded(n, width).len() > width && padded(n, width).len() > 1 ==> padded(n, width)[0] != '0',
        n > 0 && padded(n, width).len() == 1 ==> padded(n, width)[0] != '0',
    decreases n, width,
{
    if !(n < 10 && width <= 1) {
        let w = if width == 0 { 0 } else { (width - 1) as nat };
        lemma_padded_len(n / 10, w);
        assert(padded(n, width)[0] == padded(n / 10, w)[0]);
    }
}

/// A number is read off an optional plus sign and decimal digits, at least one, whose value
/// fits in 64 bits; nothing else is a number.
pub proof fn numbers_are_read_off_digits(s: Seq<char>, d: Seq<char>)
    requires
        s == seq!['+'] + d || (s == d && (d.len() == 0 || d[0] != '+')),
    ensures
        match number(s) {
            Some(n) => {
                &&& d.len() > 0
                &&& forall|i: int| 0 <= i < d.len() ==> '0' <= #[trigger] d[i] && d[i] <= '9'
                &&& digits_value(d) == n
            },
            None => d.len() == 0 || digits_value(d) > u64::MAX || exists|i: int|
                0 <= i < d.len() && (#[trigger] d[i] < '0' || d[i] > '9'),
        },
{
    assert(unsigned(s) =~= d);
    if number(s) is Some {
        assert forall|i: int| 0 <= i < d.len() implies '0' <= #[trigger] d[i] && d[i] <= '9' by {
            assert(is_digit(d[i]));
        }
    } else if d.len() > 0 && digits_value(d) <= u64::MAX {
        let i = choose|i: int| 0 <= i < d.len() && !is_digit(d[i]);
        assert(d[i] < '0' || d[i] > '9');
    }
}

/// A word in hexadecimal is `0x` and eight lower-case digits, the highest first.
pub proof fn words_are_hexadecimal(x: u32)
    ensures
        hex8(x).len() == 10,
        hex8(x)[0] == '0',
        hex8(x)[1] == 'x',
        forall|i: int|
            2 <= i < 10 ==> '0' <= #[trigger] hex8(x)[i] <= '9' || 'a' <= hex8(x)[i] <= 'f',
        ({
            let v = |i: int|
                if hex8(x)[i] <= '9' {
                    hex8(x)[i] as int - '0' as int
                } else {
                    hex8(x)[i] as int - 'a' as int + 10
                };
            x == v(9) + 16 * (v(8) + 16 * (v(7) + 16 * (v(6) + 16 * (v(5) + 16 * (v(4) + 16 * (v(3)
                + 16 * v(2)))))))
        }),
{
    reveal_strlit("0x");
    let h = hex8(x);
    let n0 = x as int;
    let n1 = n0 / 16;
    let n2 = n1 / 16;
    let n3 = n2 / 16;
    let n4 = n3 / 16;
    let n5 = n4 / 16;
    let n6 = n5 / 16;
    let n7 = n6 / 16;
    assert(n2 == n0 / 0x100 && n3 == n0 / 0x1000 && n4 == n0 / 0x1_0000 && n5 == n0 / 0x10_0000 && n6
        == n0 / 0x100_0000 && n7 == n0 / 0x1000_0000);
    assert(h.len() == 10);
    lemma_hex_digit(n0 % 16);
    lemma_hex_digit(n1 % 16);
    lemma_hex_digit(n2 % 16);
    lemma_hex_digit(n3 % 16);
    lemma_hex_digit(n4 % 16);
    lemma_hex_digit(n5 % 16);
    lemma_hex_digit(n6 % 16);
    lemma_hex_digit(n7);
    assert(h[9] == hex_digit(n0 % 16) && h[8] == hex_digit(n1 % 16) && h[7] == hex_digit(n2 % 16)
        && h[6] == hex_digit(n3 % 16) && h[5] == hex_digit(n4 % 16) && h[4] == hex_digit(n5 % 16)
        && h[3] == hex_digit(n6 % 16) && h[2] == hex_digit(n7));
}

/// A hexadecimal digit is one, and stands for its value.
proof fn lemma_hex_digit(d: int)
    requires
        0 <= d < 16,
    ensures
        '0' <= hex_digit(d) <= '9' || 'a' <= hex_digit(d) <= 'f',
        d == if hex_digit(d) <= '9' {
            hex_digit(d) as int - '0' as int
        } else {
            hex_digit(d) as int - 'a' as int + 10
        },
{
}

/// The white space characters, by their code points.
pub proof fn white_space_characters(c: char)
    ensures
        is_space(c) <==> 9 <= c as int <= 13 || c as int == 32 || c as int == 133 || c as int == 160
            || c as int == 5760 || 8192 <= c as int <= 8202 || c as int == 8232 || c as int == 8233
            || c as int == 8239 || c as int == 8287 || c as int == 12288,
{
}

/// Text is split into words at white space: white space in front is passed over, text without
/// any is one word, and a word in front of white space is the first one.
pub proof fn words_are_split_at_white_space(w: Seq<char>, c: char, rest: Seq<char>)
    requires
        w.len() > 0,
        forall|i: int| 0 <= i < w.len() ==> !is_space(w[i]),
        is_space(c),
    ensures
        words(Seq::empty()).len() == 0,
        words(seq![c] + rest) == words(rest),
        words(w) == seq![w],
        words(w + seq![c] + rest) == seq![w] + words(rest),
{
    lemma_words_one(w);
    lemma_words_front(w, c, rest);
    assert((seq![c] + rest).drop_first() =~= rest);
}

/// Trimming takes the white space at the ends, all of it, and nothing else.
#[verifier::rlimit(60)]
pub proof fn trimming_takes_white_space(s: Seq<char>) -> (cut: (int, int))
    ensures
        0 <= cut.0 <= cut.1 <= s.len(),
        trimmed(s) == s.subrange(cut.0, cut.1),
        forall|i: int| 0 <= i < cut.0 || cut.1 <= i < s.len() ==> is_space(#[trigger] s[i]),
        cut.0 < cut.1 ==> !is_space(s[cut.0]) && !is_space(s[cut.1 - 1]),
    decreases s.len(),
{
    if s.len() == 0 {
        assert(s.subrange(0, 0) =~= s);
        (0, 0)
    } else if is_space(s[0]) {
        let t = s.drop_first();
        let (a, b) = trimming_takes_white_space(t);
        assert(t.subrange(a, b) =~= s.subrange(a + 1, b + 1));
        assert forall|i: int| 0 <= i < a + 1 || b + 1 <= i < s.len() implies is_space(
            #[trigger] s[i],
        ) by {
            if i > 0 {
                assert(t[i - 1] == s[i]);
            }
        }
        (a + 1, b + 1)
    } else if is_space(s.last()) {
        let t = s.drop_last();
        let (a, b) = trimming_takes_white_space(t);
        assert(t.subrange(a, b) =~= s.subrange(a, b));
        assert forall|i: int| 0 <= i < a || b <= i < s.len() implies is_space(#[trigger] s[i]) by {
            if i < t.len() {
                assert(t[i] == s[i]);
            }
        }
        (a, b)
    } else {
        assert(s.subrange(0, s.len() as int) =~= s);
        (0, s.len() as int)
    }
}

} // verus!
