//! The manifest: the authoritative record of which tables are live, oldest first, with each
//! one's highest sequence number, and of the counters. It is kept as text, one item a line.

use vstd::prelude::*;
use vstd::string::*;

use crate::error::{Error, Fault};
use crate::text::{chars_of, decimal, lemma_padded, lemma_words_front, lemma_words_one, number,
    number_reads_back, parse_number, push_decimal, same_chars, split_words, trim, trimmed, words};

verus! {

/// One live table.
#[derive(Debug, Clone, Copy, PartialEq, Eq, Structural)]
pub struct SstEntry {
    pub number: u64,
    pub max_seq: u64,
}

/// The live tables, oldest first, and the next numbers to give out.
#[derive(Debug, Clone, PartialEq, Default)]
pub struct Manifest {
    pub next_seq: u64,
    pub next_sst: u64,
    pub ssts: Vec<SstEntry>,
}

/// The value of a [`Manifest`].
#[verifier::ext_equal]
pub struct Listing {
    pub next_seq: u64,
    pub next_sst: u64,
    pub ssts: Seq<SstEntry>,
}

impl View for Manifest {
    type V = Listing;

    open spec fn view(&self) -> Listing {
        Listing { next_seq: self.next_seq, next_sst: self.next_sst, ssts: self.ssts@ }
    }
}

/// The manifest of a database that was never written to.
pub open spec fn fresh() -> Listing {
    Listing { next_seq: 1, next_sst: 1, ssts: Seq::empty() }
}

/// The line for one table.
pub open spec fn sst_line(e: SstEntry) -> Seq<char> {
    "sst "@ + decimal(e.number as nat) + " "@ + decimal(e.max_seq as nat) + "\n"@
}

/// The lines for the tables `ssts`.
pub open spec fn sst_lines(ssts: Seq<SstEntry>) -> Seq<char>
    decreases ssts.len(),
{
    if ssts.len() == 0 {
        Seq::empty()
    } else {
        sst_lines(ssts.drop_last()) + sst_line(ssts.last())
    }
}

/// A manifest as text.
pub open spec fn manifest_text(m: Listing) -> Seq<char> {
    "next_seq "@ + decimal(m.next_seq as nat) + "\n"@ + ("next_sst "@ + decimal(m.next_sst as nat)
        + "\n"@) + sst_lines(m.ssts)
}

/// The lines of `t`; the last one ends with the text.
pub open spec fn lines(t: Seq<char>) -> Seq<Seq<char>>
    decreases t.len(),
{
    if t.len() == 0 {
        seq![Seq::empty()]
    } else {
        let ls = lines(t.drop_last());
        if t.last() == '\n' {
            ls.push(Seq::empty())
        } else {
            ls.drop_last().push(ls.last().push(t.last()))
        }
    }
}

/// What one line says.
pub enum Line {
    Blank,
    NextSeq(u64),
    NextSst(u64),
    Sst(SstEntry),
    /// Nothing that a manifest may say; the text says why.
    Bad(Seq<char>),
}

/// The text that refuses a word as a number.
pub open spec fn bad_number_text(w: Seq<char>) -> Seq<char> {
    "bad number in manifest: "@ + w
}

/// The text that refuses a line.
pub open spec fn bad_line_text(l: Seq<char>) -> Seq<char> {
    "bad manifest line: "@ + trimmed(l)
}

/// What the line `l` says.
pub open spec fn meaning(l: Seq<char>) -> Line {
    let w = words(l);
    if w.len() == 0 {
        Line::Blank
    } else if w.len() == 2 && w[0] == "next_seq"@ {
        match number(w[1]) {
            Some(v) => Line::NextSeq(v),
            None => Line::Bad(bad_number_text(w[1])),
        }
    } else if w.len() == 2 && w[0] == "next_sst"@ {
        match number(w[1]) {
            Some(v) => Line::NextSst(v),
            None => Line::Bad(bad_number_text(w[1])),
        }
    } else if w.len() == 3 && w[0] == "sst"@ {
        match (number(w[1]), number(w[2])) {
            (Some(number), Some(max_seq)) => Line::Sst(SstEntry { number, max_seq }),
            (None, _) => Line::Bad(bad_number_text(w[1])),
            (_, None) => Line::Bad(bad_number_text(w[2])),
        }
    } else {
        Line::Bad(bad_line_text(l))
    }
}

/// What the lines read so far have said.
#[verifier::ext_equal]
pub struct Draft {
    pub next_seq: Option<u64>,
    pub next_sst: Option<u64>,
    pub ssts: Seq<SstEntry>,
}

/// `d` after one more line. The first bad line decides.
pub open spec fn read_line(d: Result<Draft, Seq<char>>, line: Line) -> Result<Draft, Seq<char>> {
    match d {
        Err(text) => Err(text),
        Ok(d) => match line {
            Line::Blank => Ok(d),
            Line::NextSeq(v) => Ok(Draft { next_seq: Some(v), ..d }),
            Line::NextSst(v) => Ok(Draft { next_sst: Some(v), ..d }),
            Line::Sst(e) => Ok(Draft { ssts: d.ssts.push(e), ..d }),
            Line::Bad(text) => Err(text),
        },
    }
}

/// What the lines `ls` say.
pub open spec fn read_lines(ls: Seq<Seq<char>>) -> Result<Draft, Seq<char>>
    decreases ls.len(),
{
    if ls.len() == 0 {
        Ok(Draft { next_seq: None, next_sst: None, ssts: Seq::empty() })
    } else {
        read_line(read_lines(ls.drop_last()), meaning(ls.last()))
    }
}

/// The manifest that the text `t` describes.
pub open spec fn manifest_of(t: Seq<char>) -> Result<Listing, Fault> {
    match read_lines(lines(t)) {
        Err(text) => Err(Fault::Corruption(text)),
        Ok(d) => match (d.next_seq, d.next_sst) {
            (Some(next_seq), Some(next_sst)) => Ok(Listing { next_seq, next_sst, ssts: d.ssts }),
            (None, _) => Err(Fault::Corruption("manifest missing next_seq"@)),
            (_, None) => Err(Fault::Corruption("manifest missing next_sst"@)),
        },
    }
}

/// The manifest of a database whose manifest file holds the text, or has none.
pub open spec fn stored_manifest(text: Option<Seq<char>>) -> Result<Listing, Fault> {
    match text {
        Some(t) => manifest_of(t),
        None => Ok(fresh()),
    }
}

/// `res` is the outcome `out`.
pub open spec fn loads_as(res: Result<Manifest, Error>, out: Result<Listing, Fault>) -> bool {
    match (res, out) {
        (Ok(m), Ok(v)) => m@ == v,
        (Err(e), Err(f)) => e@ == f,
        _ => false,
    }
}

/// The lines before a line break stay as they are when more text follows.
proof fn lemma_lines_stay(t: Seq<char>, i: int, j: int)
    requires
        0 <= i < j <= t.len(),
        t[i] == '\n',
    ensures
        lines(t.take(j)).len() > lines(t.take(i)).len(),
        lines(t.take(j)).take(lines(t.take(i)).len() as int) == lines(t.take(i)),
    decreases j,
{
    let now = lines(t.take(i));
    let ls = lines(t.take(j));
    let before = lines(t.take(j - 1));
    assert(t.take(j).drop_last() =~= t.take(j - 1));
    if j - 1 > i {
        lemma_lines_stay(t, i, j - 1);
        assert(ls.take(now.len() as int) =~= before.take(now.len() as int));
    } else {
        assert(ls.take(now.len() as int) =~= now);
    }
}

/// A bad line refuses the manifest whatever follows.
proof fn lemma_bad_line_stays(ls: Seq<Seq<char>>, n: int)
    requires
        0 <= n <= ls.len(),
        read_lines(ls.take(n)) is Err,
    ensures
        read_lines(ls) == read_lines(ls.take(n)),
    decreases ls.len(),
{
    if n == ls.len() {
        assert(ls.take(n) =~= ls);
    } else {
        assert(ls.drop_last().take(n) =~= ls.take(n));
        lemma_bad_line_stays(ls.drop_last(), n);
    }
}

/// A bad line in front of the line break at `i` refuses the manifest.
proof fn lemma_first_bad_line(t: Seq<char>, i: int)
    requires
        0 <= i < t.len(),
        t[i] == '\n',
        read_lines(lines(t.take(i))) is Err,
    ensures
        read_lines(lines(t)) == read_lines(lines(t.take(i))),
{
    assert(t.take(t.len() as int) =~= t);
    lemma_lines_stay(t, i, t.len() as int);
    lemma_bad_line_stays(lines(t), lines(t.take(i)).len() as int);
}

/// The number in the word at `from` up to `to` of `line`, which starts at `base` in `text`.
fn parse_u64(text: &str, line: &[char], base: usize, from: usize, to: usize) -> (res: Result<
    u64,
    Error,
>)
    requires
        from <= to <= line@.len(),
        base + line@.len() <= text@.len() <= usize::MAX,
        line@ == text@.subrange(base as int, base + line@.len()),
    ensures
        match (res, number(line@.subrange(from as int, to as int))) {
            (Ok(v), Some(n)) => v == n,
            (Err(e), None) => e@ == Fault::Corruption(
                bad_number_text(line@.subrange(from as int, to as int)),
            ),
            _ => false,
        },
{
    match parse_number(&line[from..to]) {
        Some(v) => Ok(v),
        None => {
            let mut message = String::from_str("bad number in manifest: ");
            message.append(text.substring_char(base + from, base + to));
            assert(text@.subrange(base + from, base + to) =~= line@.subrange(from as int, to as int));
            Err(Error::Corruption(message))
        },
    }
}

impl Manifest {
    /// The manifest of a database that was never written to.
    pub fn new() -> (m: Manifest)
        ensures
            m@ == fresh(),
    {
        let m = Manifest { next_seq: 1, next_sst: 1, ssts: Vec::new() };
        assert(m@ =~= fresh());
        m
    }

    /// This manifest as text.
    pub fn encode(&self) -> (s: String)
        ensures
            s@ == manifest_text(self@),
    {
        let mut s: String = String::new();
        s.append("next_seq ");
        push_decimal(&mut s, self.next_seq);
        s.append("\n");
        s.append("next_sst ");
        push_decimal(&mut s, self.next_sst);
        s.append("\n");
        let ghost head = s@;
        assert(head =~= "next_seq "@ + decimal(self.next_seq as nat) + "\n"@ + ("next_sst "@
            + decimal(self.next_sst as nat) + "\n"@));
        let mut i: usize = 0;
        assert(self.ssts@.take(0) =~= Seq::empty());
        while i < self.ssts.len()
            invariant
                i <= self.ssts@.len(),
                s@ == head + sst_lines(self.ssts@.take(i as int)),
            decreases self.ssts@.len() - i,
        {
            let e = self.ssts[i];
            s.append("sst ");
            push_decimal(&mut s, e.number);
            s.append(" ");
            push_decimal(&mut s, e.max_seq);
            s.append("\n");
            proof {
                let t = self.ssts@.take(i + 1);
                assert(t.drop_last() =~= self.ssts@.take(i as int));
                assert(s@ =~= head + (sst_lines(self.ssts@.take(i as int)) + sst_line(e)));
            }
            i = i + 1;
        }
        assert(self.ssts@.take(i as int) =~= self.ssts@);
        s
    }

    /// Takes in one line of a manifest, which starts at `base` in `text`.
    fn take_line(
        text: &str,
        line: &[char],
        base: usize,
        next_seq: &mut Option<u64>,
        next_sst: &mut Option<u64>,
        ssts: &mut Vec<SstEntry>,
    ) -> (res: Result<(), Error>)
        requires
            base + line@.len() <= text@.len() <= usize::MAX,
            line@ == text@.subrange(base as int, base + line@.len()),
        ensures
            match (
                res,
                read_line(
                    Ok(Draft { next_seq: *old(next_seq), next_sst: *old(next_sst), ssts: old(ssts)@ }),
                    meaning(line@),
                ),
            ) {
                (Ok(_), Ok(d)) => d == (Draft {
                    next_seq: *final(next_seq),
                    next_sst: *final(next_sst),
                    ssts: final(ssts)@,
                }),
                (Err(e), Err(message)) => e@ == Fault::Corruption(message),
                _ => false,
            },
    {
        let parts = split_words(line);
        let ghost w = words(line@);
        assert(w.len() == parts@.len());
        if parts.len() == 0 {
            return Ok(());
        }
        let (first_from, first_to) = parts[0];
        let first = &line[first_from..first_to];
        assert(first@ == w[0]);
        if parts.len() == 2 {
            let (from, to) = parts[1];
            assert(w[1] == line@.subrange(from as int, to as int));
            if same_chars(first, chars_of("next_seq").as_slice()) {
                match parse_u64(text, line, base, from, to) {
                    Ok(v) => {
                        *next_seq = Some(v);
                        return Ok(());
                    },
                    Err(e) => return Err(e),
                }
            }
            if same_chars(first, chars_of("next_sst").as_slice()) {
                match parse_u64(text, line, base, from, to) {
                    Ok(v) => {
                        *next_sst = Some(v);
                        return Ok(());
                    },
                    Err(e) => return Err(e),
                }
            }
        }
        if parts.len() == 3 && same_chars(first, chars_of("sst").as_slice()) {
            let (from1, to1) = parts[1];
            let (from2, to2) = parts[2];
            assert(w[1] == line@.subrange(from1 as int, to1 as int));
            assert(w[2] == line@.subrange(from2 as int, to2 as int));
            let number: u64 = match parse_u64(text, line, base, from1, to1) {
                Ok(v) => v,
                Err(e) => return Err(e),
            };
            let max_seq: u64 = match parse_u64(text, line, base, from2, to2) {
                Ok(v) => v,
                Err(e) => return Err(e),
            };
            ssts.push(SstEntry { number, max_seq });
            return Ok(());
        }
        let (from, to) = trim(line);
        let mut message = String::from_str("bad manifest line: ");
        message.append(text.substring_char(base + from, base + to));
        assert(text@.subrange(base + from, base + to) =~= line@.subrange(from as int, to as int));
        Err(Error::Corruption(message))
    }

    /// The manifest that `text` describes.
    pub fn decode(text: &str) -> (res: Result<Manifest, Error>)
        ensures
            loads_as(res, manifest_of(text@)),
    {
        let chars = chars_of(text);
        let mut next_seq: Option<u64> = None;
        let mut next_sst: Option<u64> = None;
        let mut ssts: Vec<SstEntry> = Vec::new();
        let mut start: usize = 0;
        let mut i: usize = 0;
        let ghost mut done: Seq<Seq<char>> = Seq::empty();
        proof {
            assert(chars@.take(0) =~= Seq::empty());
            assert(chars@.subrange(0, 0) =~= Seq::empty());
            assert(lines(chars@.take(0)) =~= done.push(chars@.subrange(0, 0)));
        }
        while i < chars.len()
            invariant
                chars@ == text@,
                start <= i <= chars@.len(),
                lines(chars@.take(i as int)) == done.push(chars@.subrange(start as int, i as int)),
                read_lines(done) == Ok::<Draft, Seq<char>>(Draft { next_seq, next_sst, ssts: ssts@ }),
            decreases chars@.len() - i,
        {
            let ghost t = chars@.take(i + 1);
            proof {
                assert(t.drop_last() =~= chars@.take(i as int));
            }
            if chars[i] == '\n' {
                proof {
                    let now = done.push(chars@.subrange(start as int, i as int));
                    assert(now.drop_last() =~= done);
                    if read_lines(now) is Err {
                        lemma_first_bad_line(chars@, i as int);
                    }
                }
                match Self::take_line(
                    text,
                    &chars[start..i],
                    start,
                    &mut next_seq,
                    &mut next_sst,
                    &mut ssts,
                ) {
                    Ok(_) => {},
                    Err(e) => return Err(e),
                }
                proof {
                    let now = done.push(chars@.subrange(start as int, i as int));
                    assert(lines(t) =~= now.push(Seq::empty()));
                    assert(chars@.subrange(i + 1, i + 1) =~= Seq::empty());
                    done = now;
                }
                start = i + 1;
            } else {
                proof {
                    let line = chars@.subrange(start as int, i as int);
                    let now = done.push(line);
                    assert(now.drop_last() =~= done);
                    assert(line.push(chars@[i as int]) =~= chars@.subrange(start as int, i + 1));
                    assert(lines(t) =~= done.push(line.push(chars@[i as int])));
                }
            }
            i = i + 1;
        }
        proof {
            assert(chars@.take(i as int) =~= chars@);
            let now = done.push(chars@.subrange(start as int, i as int));
            assert(now.drop_last() =~= done);
        }
        match Self::take_line(
            text,
            &chars[start..i],
            start,
            &mut next_seq,
            &mut next_sst,
            &mut ssts,
        ) {
            Ok(_) => {},
            Err(e) => return Err(e),
        }
        match next_seq {
            None => Err(Error::Corruption(String::from_str("manifest missing next_seq"))),
            Some(next_seq) => match next_sst {
                None => Err(Error::Corruption(String::from_str("manifest missing next_sst"))),
                Some(next_sst) => Ok(Manifest { next_seq, next_sst, ssts }),
            },
        }
    }

    /// The manifest of a database: the one that its manifest file describes, or a fresh one
    /// where there is no such file.
    pub fn load(text: Option<&str>) -> (res: Result<Manifest, Error>)
        ensures
            loads_as(
                res,
                stored_manifest(
                    match text {
                        Some(t) => Some(t@),
                        None => None,
                    },
                ),
            ),
    {
        match text {
            Some(text) => Manifest::decode(text),
            None => Ok(Manifest::new()),
        }
    }
}

/// Text without a line break extends the last line.
proof fn lemma_lines_extend(a: Seq<char>, l: Seq<char>)
    requires
        forall|i: int| 0 <= i < l.len() ==> l[i] != '\n',
    ensures
        lines(a).len() > 0,
        lines(a + l) == lines(a).drop_last().push(lines(a).last() + l),
    decreases l.len(),
{
    lemma_lines_some(a);
    if l.len() == 0 {
        assert(a + l =~= a);
        assert(lines(a).last() + l =~= lines(a).last());
        assert(lines(a) =~= lines(a).drop_last().push(lines(a).last()));
    } else {
        lemma_lines_extend(a, l.drop_last());
        assert((a + l).drop_last() =~= a + l.drop_last());
        let before = lines(a + l.drop_last());
        assert(before.drop_last() =~= lines(a).drop_last());
        assert((lines(a).last() + l.drop_last()).push(l.last()) =~= lines(a).last() + l);
    }
}

proof fn lemma_lines_some(a: Seq<char>)
    ensures
        lines(a).len() > 0,
    decreases a.len(),
{
    if a.len() > 0 {
        lemma_lines_some(a.drop_last());
    }
}

/// One more line, after text that ends with a line break or is empty, is read after the lines
/// before it.
proof fn lemma_read_one_more(a: Seq<char>, l: Seq<char>)
    requires
        lines(a).last() == Seq::<char>::empty(),
        forall|i: int| 0 <= i < l.len() ==> l[i] != '\n',
    ensures
        lines(a + (l + "\n"@)).last() == Seq::<char>::empty(),
        read_lines(lines(a + (l + "\n"@))) == read_line(read_lines(lines(a)), meaning(l)),
{
    reveal_strlit("\n");
    lemma_lines_extend(a, l);
    let t = a + (l + "\n"@);
    assert(t.drop_last() =~= a + l);
    let head = lines(a).drop_last();
    assert(lines(a).last() + l =~= l);
    assert(lines(t) =~= head.push(l).push(Seq::empty()));
    assert(lines(t).drop_last() =~= head.push(l));
    assert(head.push(l).drop_last() =~= head);
    let none = Seq::<char>::empty();
    assert(words(none) =~= Seq::empty());
    assert(meaning(none) == Line::Blank);
    assert(read_lines(lines(a)) == read_line(read_lines(head), Line::Blank));
    assert(read_lines(lines(a)) == read_lines(head));
    assert(read_lines(head.push(l)) == read_line(read_lines(head), meaning(l)));
    assert(lines(t).last() == none);
    assert(read_lines(lines(t)) == read_line(read_lines(head.push(l)), meaning(none)));
}

/// A decimal number is one word without line breaks.
proof fn lemma_decimal_word(n: u64)
    ensures
        decimal(n as nat).len() > 0,
        forall|i: int|
            0 <= i < decimal(n as nat).len() ==> !crate::text::is_space(#[trigger] decimal(n as nat)[i])
                && decimal(n as nat)[i] != '\n',
        number(decimal(n as nat)) == Some(n),
        words(decimal(n as nat)) == seq![decimal(n as nat)],
{
    lemma_padded(n as nat, 1);
    number_reads_back(n, 1);
    lemma_words_one(decimal(n as nat));
}

/// The line for one table says that table.
proof fn lemma_sst_line(e: SstEntry)
    ensures
        meaning("sst "@ + decimal(e.number as nat) + " "@ + decimal(e.max_seq as nat)) == Line::Sst(e),
        forall|i: int|
            0 <= i < ("sst "@ + decimal(e.number as nat) + " "@ + decimal(e.max_seq as nat)).len()
                ==> ("sst "@ + decimal(e.number as nat) + " "@ + decimal(e.max_seq as nat))[i] != '\n',
{
    reveal_strlit("sst ");
    reveal_strlit("sst");
    reveal_strlit(" ");
    reveal_strlit("next_seq");
    reveal_strlit("next_sst");
    let a = decimal(e.number as nat);
    let b = decimal(e.max_seq as nat);
    lemma_decimal_word(e.number);
    lemma_decimal_word(e.max_seq);
    let l = "sst "@ + a + " "@ + b;
    let rest = a + seq![' '] + b;
    assert(l =~= "sst"@ + seq![' '] + rest);
    lemma_words_front("sst"@, ' ', rest);
    lemma_words_front(a, ' ', b);
    assert(words(l) =~= seq!["sst"@, a, b]);
}

/// The line for a counter says that counter.
proof fn lemma_counter_lines(v: u64)
    ensures
        meaning("next_seq "@ + decimal(v as nat)) == Line::NextSeq(v),
        meaning("next_sst "@ + decimal(v as nat)) == Line::NextSst(v),
        forall|i: int|
            0 <= i < ("next_seq "@ + decimal(v as nat)).len() ==> ("next_seq "@ + decimal(
                v as nat,
            ))[i] != '\n',
        forall|i: int|
            0 <= i < ("next_sst "@ + decimal(v as nat)).len() ==> ("next_sst "@ + decimal(
                v as nat,
            ))[i] != '\n',
{
    reveal_strlit("next_seq ");
    reveal_strlit("next_seq");
    reveal_strlit("next_sst ");
    reveal_strlit("next_sst");
    let d = decimal(v as nat);
    lemma_decimal_word(v);
    assert("next_seq "@ + d =~= "next_seq"@ + seq![' '] + d);
    lemma_words_front("next_seq"@, ' ', d);
    assert(words("next_seq "@ + d) =~= seq!["next_seq"@, d]);
    assert("next_sst "@ + d =~= "next_sst"@ + seq![' '] + d);
    lemma_words_front("next_sst"@, ' ', d);
    assert(words("next_sst "@ + d) =~= seq!["next_sst"@, d]);
    assert("next_seq"@[6] == 'e' && "next_sst"@[6] == 's');
}

proof fn lemma_sst_lines(a: Seq<char>, d: Draft, ssts: Seq<SstEntry>)
    requires
        lines(a).last() == Seq::<char>::empty(),
        read_lines(lines(a)) == Ok::<Draft, Seq<char>>(d),
        d.ssts.len() == 0,
    ensures
        lines(a + sst_lines(ssts)).last() == Seq::<char>::empty(),
        read_lines(lines(a + sst_lines(ssts))) == Ok::<Draft, Seq<char>>(Draft { ssts, ..d }),
    decreases ssts.len(),
{
    if ssts.len() == 0 {
        assert(a + sst_lines(ssts) =~= a);
        assert(d.ssts =~= ssts);
    } else {
        let e = ssts.last();
        lemma_sst_lines(a, d, ssts.drop_last());
        lemma_sst_line(e);
        let b = a + sst_lines(ssts.drop_last());
        let l = "sst "@ + decimal(e.number as nat) + " "@ + decimal(e.max_seq as nat);
        lemma_read_one_more(b, l);
        assert(a + sst_lines(ssts) =~= b + (l + "\n"@));
        assert(ssts.drop_last().push(e) =~= ssts);
    }
}

/// A manifest that was written as text is read back.
pub proof fn manifest_reads_back(m: Listing)
    ensures
        manifest_of(manifest_text(m)) == Ok::<Listing, Fault>(m),
{
    let none = Seq::<char>::empty();
    let l1 = "next_seq "@ + decimal(m.next_seq as nat);
    let l2 = "next_sst "@ + decimal(m.next_sst as nat);
    lemma_counter_lines(m.next_seq);
    lemma_counter_lines(m.next_sst);
    assert(words(none) =~= Seq::empty());
    assert(lines(none) =~= seq![none]);
    assert(lines(none).drop_last() =~= Seq::empty());
    assert(read_lines(Seq::empty()) == Ok::<Draft, Seq<char>>(
        Draft { next_seq: None, next_sst: None, ssts: Seq::empty() },
    ));
    lemma_read_one_more(none, l1);
    assert(none + (l1 + "\n"@) =~= l1 + "\n"@);
    lemma_read_one_more(l1 + "\n"@, l2);
    let head = l1 + "\n"@ + (l2 + "\n"@);
    let d = Draft { next_seq: Some(m.next_seq), next_sst: Some(m.next_sst), ssts: Seq::empty() };
    assert(read_lines(lines(head)) == Ok::<Draft, Seq<char>>(d));
    lemma_sst_lines(head, d, m.ssts);
}

/// A manifest as text: a line for each counter, then one for each table, oldest first, with its
/// number and its highest sequence number.
pub proof fn manifest_layout(m: Listing, e: SstEntry)
    ensures
        m.ssts.len() == 0 ==> manifest_text(m) == "next_seq "@ + decimal(m.next_seq as nat) + "\n"@
            + ("next_sst "@ + decimal(m.next_sst as nat) + "\n"@),
        manifest_text(Listing { ssts: m.ssts.push(e), ..m }) == manifest_text(m) + ("sst "@
            + decimal(e.number as nat) + " "@ + decimal(e.max_seq as nat) + "\n"@),
{
    let more = Listing { ssts: m.ssts.push(e), ..m };
    assert(more.ssts.drop_last() =~= m.ssts);
    assert(manifest_text(more) =~= manifest_text(m) + ("sst "@ + decimal(e.number as nat) + " "@
        + decimal(e.max_seq as nat) + "\n"@));
    if m.ssts.len() == 0 {
        assert(manifest_text(m) =~= "next_seq "@ + decimal(m.next_seq as nat) + "\n"@ + ("next_sst "@
            + decimal(m.next_sst as nat) + "\n"@));
    }
}

/// The manifest of a database that was never written to lists nothing and counts from one.
pub proof fn a_fresh_manifest()
    ensures
        stored_manifest(None) matches Ok(m) && m.next_seq == 1 && m.next_sst == 1 && m.ssts.len()
            == 0,
        forall|t: Seq<char>| #[trigger] stored_manifest(Some(t)) == manifest_of(t),
{
}

/// Text is split into lines at line breaks.
pub proof fn lines_are_split_at_breaks(a: Seq<char>, b: Seq<char>)
    ensures
        lines(a + seq!['\n'] + b) == lines(a) + lines(b),
        (forall|i: int| 0 <= i < a.len() ==> a[i] != '\n') ==> lines(a) == seq![a],
    decreases a.len() + b.len(),
{
    lemma_lines_join(a, b);
    if forall|i: int| 0 <= i < a.len() ==> a[i] != '\n' {
        lemma_one_line(a);
    }
}

proof fn lemma_some_lines(t: Seq<char>)
    ensures
        lines(t).len() > 0,
    decreases t.len(),
{
    if t.len() > 0 {
        lemma_some_lines(t.drop_last());
    }
}

proof fn lemma_lines_join(a: Seq<char>, b: Seq<char>)
    ensures
        lines(a + seq!['\n'] + b) == lines(a) + lines(b),
    decreases b.len(),
{
    let s = a + seq!['\n'] + b;
    lemma_some_lines(a);
    if b.len() == 0 {
        assert(s.drop_last() =~= a);
        assert(s.last() == '\n');
        assert(lines(s) =~= lines(a) + lines(b));
    } else {
        let c = b.drop_last();
        lemma_lines_join(a, c);
        lemma_some_lines(c);
        assert(s.drop_last() =~= a + seq!['\n'] + c);
        assert(s.last() == b.last());
        assert(lines(s) =~= lines(a) + lines(b));
    }
}

proof fn lemma_one_line(t: Seq<char>)
    requires
        forall|i: int| 0 <= i < t.len() ==> t[i] != '\n',
    ensures
        lines(t) == seq![t],
    decreases t.len(),
{
    if t.len() == 0 {
        assert(t =~= Seq::empty());
        assert(lines(t) =~= seq![t]);
    } else {
        let c = t.drop_last();
        assert forall|i: int| 0 <= i < c.len() implies c[i] != '\n' by {
            assert(c[i] == t[i]);
        }
        lemma_one_line(c);
        assert(t[t.len() - 1] != '\n');
        assert(c.push(t.last()) =~= t);
        assert(lines(c).last() == c);
        assert(lines(c).drop_last() =~= Seq::empty());
        assert(lines(t) == lines(c).drop_last().push(t));
        assert(lines(t) =~= seq![t]);
    }
}

/// What one more line makes of a manifest: a blank one nothing; one for a counter sets it; one
/// for a table adds that table behind the others; any other, and one with a word that is no
/// number in a number's place, refuses the manifest.
pub proof fn what_a_line_says(t: Seq<char>, l: Seq<char>, m: Listing)
    requires
        forall|i: int| 0 <= i < l.len() ==> l[i] != '\n',
        manifest_of(t) == Ok::<Listing, Fault>(m),
    ensures
        ({
            let w = words(l);
            let out = manifest_of(t + seq!['\n'] + l);
            let bad = |text: Seq<char>| Err::<Listing, Fault>(Fault::Corruption(text));
            if w.len() == 0 {
                out == Ok::<Listing, Fault>(m)
            } else if w.len() == 2 && (w[0] == "next_seq"@ || w[0] == "next_sst"@) {
                match number(w[1]) {
                    None => out == bad("bad number in manifest: "@ + w[1]),
                    Some(v) => out matches Ok(n) && n.ssts == m.ssts && if w[0] == "next_seq"@ {
                        n.next_seq == v && n.next_sst == m.next_sst
                    } else {
                        n.next_seq == m.next_seq && n.next_sst == v
                    },
                }
            } else if w.len() == 3 && w[0] == "sst"@ {
                match (number(w[1]), number(w[2])) {
                    (Some(a), Some(b)) => out matches Ok(n) && n.next_seq == m.next_seq && n.next_sst
                        == m.next_sst && n.ssts == m.ssts.push(SstEntry { number: a, max_seq: b }),
                    (None, _) => out == bad("bad number in manifest: "@ + w[1]),
                    (Some(_), None) => out == bad("bad number in manifest: "@ + w[2]),
                }
            } else {
                out == bad("bad manifest line: "@ + trimmed(l))
            }
        }),
{
    lines_are_split_at_breaks(t, l);
    lemma_one_line(l);
    assert(lines(t + seq!['\n'] + l) =~= lines(t).push(l));
    assert(lines(t).push(l).drop_last() =~= lines(t));
    reveal_strlit("next_seq");
    reveal_strlit("next_sst");
    reveal_strlit("sst");
    assert("next_seq"@[6] == 'e' && "next_sst"@[6] == 's');
}

/// A manifest needs a line for each counter: it is not read without them, and of several for
/// one counter the last is right.
pub proof fn counters_are_needed(t: Seq<char>, m: Listing)
    requires
        manifest_of(t) == Ok::<Listing, Fault>(m),
    ensures
        exists|i: int|
            0 <= i < lines(t).len() && words(#[trigger] lines(t)[i]).len() == 2 && words(lines(t)[i])[0]
                == "next_seq"@ && number(words(lines(t)[i])[1]) == Some(m.next_seq),
        exists|i: int|
            0 <= i < lines(t).len() && words(#[trigger] lines(t)[i]).len() == 2 && words(lines(t)[i])[0]
                == "next_sst"@ && number(words(lines(t)[i])[1]) == Some(m.next_sst),
{
    let d = read_lines(lines(t))->Ok_0;
    lemma_counter_source(lines(t), d);
}

proof fn lemma_counter_source(ls: Seq<Seq<char>>, d: Draft)
    requires
        read_lines(ls) == Ok::<Draft, Seq<char>>(d),
    ensures
        d.next_seq matches Some(v) ==> exists|i: int|
            0 <= i < ls.len() && words(#[trigger] ls[i]).len() == 2 && words(ls[i])[0]
                == "next_seq"@ && number(words(ls[i])[1]) == Some(v),
        d.next_sst matches Some(v) ==> exists|i: int|
            0 <= i < ls.len() && words(#[trigger] ls[i]).len() == 2 && words(ls[i])[0]
                == "next_sst"@ && number(words(ls[i])[1]) == Some(v),
    decreases ls.len(),
{
    if ls.len() > 0 {
        let front = ls.drop_last();
        let n = ls.len() - 1;
        let e = read_lines(front)->Ok_0;
        lemma_counter_source(front, e);
        reveal_strlit("next_seq");
        reveal_strlit("next_sst");
        assert("next_seq"@[6] == 'e' && "next_sst"@[6] == 's');
        if let Some(v) = d.next_seq {
            if meaning(ls[n]) is NextSeq {
                assert(words(ls[n]).len() == 2);
            } else {
                let i = choose|i: int|
                    0 <= i < front.len() && words(#[trigger] front[i]).len() == 2 && words(
                        front[i],
                    )[0] == "next_seq"@ && number(words(front[i])[1]) == Some(v);
                assert(ls[i] == front[i]);
            }
        }
        if let Some(v) = d.next_sst {
            if meaning(ls[n]) is NextSst {
                assert(words(ls[n]).len() == 2);
            } else {
                let i = choose|i: int|
                    0 <= i < front.len() && words(#[trigger] front[i]).len() == 2 && words(
                        front[i],
                    )[0] == "next_sst"@ && number(words(front[i])[1]) == Some(v);
                assert(ls[i] == front[i]);
            }
        }
    }
}

/// Lines of different kinds may stand in any order: two neighbours that start with different
/// words, and neither of which is refused, can be exchanged.
pub proof fn lines_of_different_kinds_commute(
    a: Seq<char>,
    l: Seq<char>,
    k: Seq<char>,
    b: Seq<char>,
)
    requires
        forall|i: int| 0 <= i < l.len() ==> l[i] != '\n',
        forall|i: int| 0 <= i < k.len() ==> k[i] != '\n',
        words(l).len() == 0 || words(k).len() == 0 || words(l)[0] != words(k)[0],
        !(meaning(l) is Bad),
        !(meaning(k) is Bad),
    ensures
        manifest_of(a + seq!['\n'] + (l + seq!['\n'] + (k + seq!['\n'] + b))) == manifest_of(
            a + seq!['\n'] + (k + seq!['\n'] + (l + seq!['\n'] + b)),
        ),
{
    lines_are_split_at_breaks(a, l + seq!['\n'] + (k + seq!['\n'] + b));
    lines_are_split_at_breaks(l, k + seq!['\n'] + b);
    lines_are_split_at_breaks(k, b);
    lines_are_split_at_breaks(a, k + seq!['\n'] + (l + seq!['\n'] + b));
    lines_are_split_at_breaks(k, l + seq!['\n'] + b);
    lines_are_split_at_breaks(l, b);
    let x = lines(a).push(l).push(k);
    let y = lines(a).push(k).push(l);
    assert(lines(a + seq!['\n'] + (l + seq!['\n'] + (k + seq!['\n'] + b))) =~= x + lines(b));
    assert(lines(a + seq!['\n'] + (k + seq!['\n'] + (l + seq!['\n'] + b))) =~= y + lines(b));
    assert(x.drop_last() =~= lines(a).push(l));
    assert(y.drop_last() =~= lines(a).push(k));
    assert(lines(a).push(l).drop_last() =~= lines(a));
    assert(lines(a).push(k).drop_last() =~= lines(a));
    let d = read_lines(lines(a));
    assert(read_lines(lines(a).push(l)) == read_line(d, meaning(l)));
    assert(read_lines(lines(a).push(k)) == read_line(d, meaning(k)));
    assert(read_lines(x) == read_line(read_line(d, meaning(l)), meaning(k)));
    assert(read_lines(y) == read_line(read_line(d, meaning(k)), meaning(l)));
    if words(l).len() > 0 && words(k).len() > 0 {
        assert(words(l)[0] != words(k)[0]);
    }
    lemma_read_behind(x, y, lines(b));
}

/// What is read of lines depends on those before them only through what was read there.
proof fn lemma_read_behind(x: Seq<Seq<char>>, y: Seq<Seq<char>>, more: Seq<Seq<char>>)
    requires
        read_lines(x) == read_lines(y),
    ensures
        read_lines(x + more) == read_lines(y + more),
    decreases more.len(),
{
    if more.len() == 0 {
        assert(x + more =~= x);
        assert(y + more =~= y);
    } else {
        lemma_read_behind(x, y, more.drop_last());
        assert((x + more).drop_last() =~= x + more.drop_last());
        assert((y + more).drop_last() =~= y + more.drop_last());
    }
}

/// A line that is refused refuses the manifest, whatever follows it, where what stands before it
/// is not refused itself.
pub proof fn a_bad_line_refuses_the_manifest(a: Seq<char>, l: Seq<char>, b: Seq<char>, m: Listing)
    requires
        manifest_of(a) == Ok::<Listing, Fault>(m),
        forall|i: int| 0 <= i < l.len() ==> l[i] != '\n',
        manifest_of(a + seq!['\n'] + l) is Err,
    ensures
        manifest_of(a + seq!['\n'] + (l + seq!['\n'] + b)) == manifest_of(a + seq!['\n'] + l),
{
    lines_are_split_at_breaks(a, l);
    lines_are_split_at_breaks(a, l + seq!['\n'] + b);
    lines_are_split_at_breaks(l, b);
    lemma_one_line(l);
    let x = lines(a).push(l);
    assert(lines(a + seq!['\n'] + l) =~= x);
    assert(lines(a + seq!['\n'] + (l + seq!['\n'] + b)) =~= x + lines(b));
    assert(x.drop_last() =~= lines(a));
    lemma_refused_stays(x, lines(b));
}

proof fn lemma_refused_stays(x: Seq<Seq<char>>, more: Seq<Seq<char>>)
    requires
        read_lines(x) is Err,
    ensures
        read_lines(x + more) == read_lines(x),
    decreases more.len(),
{
    if more.len() == 0 {
        assert(x + more =~= x);
    } else {
        lemma_refused_stays(x, more.drop_last());
        assert((x + more).drop_last() =~= x + more.drop_last());
    }
}

/// What a line may say: nothing, where it has no words; a counter or a table, by its first word
/// and its numbers; anything else is refused, for its first word in a number's place that is
/// none, or as a whole.
pub proof fn what_lines_mean(l: Seq<char>)
    ensures
        ({
            let w = words(l);
            let counter = w.len() == 2 && (w[0] == "next_seq"@ || w[0] == "next_sst"@);
            let table = w.len() == 3 && w[0] == "sst"@;
            if w.len() == 0 {
                meaning(l) is Blank
            } else if counter {
                match number(w[1]) {
                    None => meaning(l) == Line::Bad("bad number in manifest: "@ + w[1]),
                    Some(v) => if w[0] == "next_seq"@ {
                        meaning(l) == Line::NextSeq(v)
                    } else {
                        meaning(l) == Line::NextSst(v)
                    },
                }
            } else if table {
                match (number(w[1]), number(w[2])) {
                    (Some(a), Some(b)) => meaning(l) == Line::Sst(
                        SstEntry { number: a, max_seq: b },
                    ),
                    (None, _) => meaning(l) == Line::Bad("bad number in manifest: "@ + w[1]),
                    (Some(_), None) => meaning(l) == Line::Bad("bad number in manifest: "@ + w[2]),
                }
            } else {
                meaning(l) == Line::Bad("bad manifest line: "@ + trimmed(l))
            }
        }),
{
    reveal_strlit("next_seq");
    reveal_strlit("next_sst");
    assert("next_seq"@[6] == 'e' && "next_sst"@[6] == 's');
}

/// Whatever stands before it, as long as no line there is refused, and whatever follows it: the
/// first line that is refused refuses the manifest.
pub proof fn the_first_bad_line_refuses(a: Seq<char>, l: Seq<char>, b: Seq<char>, text: Seq<char>)
    requires
        forall|i: int| 0 <= i < lines(a).len() ==> !(meaning(#[trigger] lines(a)[i]) is Bad),
        forall|i: int| 0 <= i < l.len() ==> l[i] != '\n',
        meaning(l) == Line::Bad(text),
    ensures
        manifest_of(a + seq!['\n'] + l) == Err::<Listing, Fault>(Fault::Corruption(text)),
        manifest_of(a + seq!['\n'] + (l + seq!['\n'] + b)) == Err::<Listing, Fault>(
            Fault::Corruption(text),
        ),
{
    lines_are_split_at_breaks(a, l);
    lines_are_split_at_breaks(a, l + seq!['\n'] + b);
    lines_are_split_at_breaks(l, b);
    lemma_one_line(l);
    let x = lines(a).push(l);
    assert(lines(a + seq!['\n'] + l) =~= x);
    assert(lines(a + seq!['\n'] + (l + seq!['\n'] + b)) =~= x + lines(b));
    assert(x.drop_last() =~= lines(a));
    lemma_good_lines(lines(a));
    lemma_refused_stays(x, lines(b));
}

/// Lines none of which is refused are read.
proof fn lemma_good_lines(ls: Seq<Seq<char>>)
    requires
        forall|i: int| 0 <= i < ls.len() ==> !(meaning(#[trigger] ls[i]) is Bad),
    ensures
        read_lines(ls) matches Ok(d) && {
            &&& d.next_seq is None <==> forall|i: int|
                0 <= i < ls.len() ==> !(meaning(#[trigger] ls[i]) is NextSeq)
            &&& d.next_sst is None <==> forall|i: int|
                0 <= i < ls.len() ==> !(meaning(#[trigger] ls[i]) is NextSst)
        },
    decreases ls.len(),
{
    if ls.len() > 0 {
        let front = ls.drop_last();
        let n = ls.len() - 1;
        assert forall|i: int| 0 <= i < front.len() implies !(meaning(#[trigger] front[i]) is Bad) by {
            assert(front[i] == ls[i]);
        }
        lemma_good_lines(front);
        assert(!(meaning(ls[n]) is Bad));
        let e = read_lines(front)->Ok_0;
        let d = read_lines(ls)->Ok_0;
        if d.next_seq is None {
            assert forall|i: int| 0 <= i < ls.len() implies !(meaning(#[trigger] ls[i]) is NextSeq) by {
                if i < n {
                    assert(front[i] == ls[i]);
                }
            }
        } else if !(meaning(ls[n]) is NextSeq) {
            let i = choose|i: int| 0 <= i < front.len() && meaning(#[trigger] front[i]) is NextSeq;
            assert(front[i] == ls[i]);
        }
        if d.next_sst is None {
            assert forall|i: int| 0 <= i < ls.len() implies !(meaning(#[trigger] ls[i]) is NextSst) by {
                if i < n {
                    assert(front[i] == ls[i]);
                }
            }
        } else if !(meaning(ls[n]) is NextSst) {
            let i = choose|i: int| 0 <= i < front.len() && meaning(#[trigger] front[i]) is NextSst;
            assert(front[i] == ls[i]);
        }
    }
}

/// A manifest without a refused line is read exactly where both counters are given, and refused
/// for the one that is missing.
pub proof fn a_missing_counter_refuses_the_manifest(t: Seq<char>)
    requires
        forall|i: int| 0 <= i < lines(t).len() ==> !(meaning(#[trigger] lines(t)[i]) is Bad),
    ensures
        ({
            let seq_given = exists|i: int|
                0 <= i < lines(t).len() && meaning(#[trigger] lines(t)[i]) is NextSeq;
            let sst_given = exists|i: int|
                0 <= i < lines(t).len() && meaning(#[trigger] lines(t)[i]) is NextSst;
            if !seq_given {
                manifest_of(t) == Err::<Listing, Fault>(
                    Fault::Corruption("manifest missing next_seq"@),
                )
            } else if !sst_given {
                manifest_of(t) == Err::<Listing, Fault>(
                    Fault::Corruption("manifest missing next_sst"@),
                )
            } else {
                manifest_of(t) is Ok
            }
        }),
{
    lemma_good_lines(lines(t));
}

/// What a manifest stands for, and what reading one gives: the same manifest, or the same
/// refusal.
pub proof fn what_manifests_stand_for(
    m: Manifest,
    res: Result<Manifest, Error>,
    out: Result<Listing, Fault>,
)
    ensures
        m@.next_seq == m.next_seq && m@.next_sst == m.next_sst && m@.ssts == m.ssts@,
        loads_as(res, out) <==> match res {
            Ok(v) => out == Ok::<Listing, Fault>(v@),
            Err(e) => out == Err::<Listing, Fault>(e@),
        },
{
}

} // verus!
