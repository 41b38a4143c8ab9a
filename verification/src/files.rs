//! The names of a database's files, relative to its directory, and which files are litter
//! that a crash left behind.

use vstd::prelude::*;
use vstd::string::*;

use crate::manifest::SstEntry;
use crate::text::{chars_of, digits_value, number, number_reads_back, numbers_are_decimal, padded, parse_number, push_padded,
    same_chars};

verus! {

/// The name of the file of the table `n`.
pub open spec fn sst_name(n: u64) -> Seq<char> {
    padded(n as nat, 6) + ".sst"@
}

/// `s` ends with `suffix`.
pub open spec fn ends(s: Seq<char>, suffix: Seq<char>) -> bool {
    s.len() >= suffix.len() && s.skip(s.len() - suffix.len()) == suffix
}

/// The table that a file named `s` would belong to.
pub open spec fn table_number(s: Seq<char>) -> Option<u64> {
    if ends(s, ".sst"@) {
        number(s.take(s.len() - 4))
    } else {
        None
    }
}

/// The table `n` is one of `live`.
pub open spec fn listed(live: Seq<SstEntry>, n: u64) -> bool {
    exists|i: int| 0 <= i < live.len() && #[trigger] live[i].number == n
}

/// A file named `s` is litter: a temporary file, or a table that is not one of `live`.
pub open spec fn litter(s: Seq<char>, live: Seq<SstEntry>) -> bool {
    ends(s, ".tmp"@) || match table_number(s) {
        Some(n) => !listed(live, n),
        None => false,
    }
}

/// The name of the log.
pub fn wal_path() -> (s: &'static str)
    ensures
        s@ == "wal.log"@,
{
    "wal.log"
}

/// The name of the file of the table `num`.
pub fn sst_path(num: u64) -> (s: String)
    ensures
        s@ == sst_name(num),
{
    let mut s: String = String::new();
    push_padded(&mut s, num, 6);
    s.append(".sst");
    assert(s@ =~= sst_name(num));
    s
}

/// The name of the manifest.
pub fn manifest_path() -> (s: &'static str)
    ensures
        s@ == "MANIFEST"@,
{
    "MANIFEST"
}

/// The name under which a file is written before it takes its place.
pub fn tmp_path_for(path: &str) -> (s: String)
    ensures
        s@ == path@ + ".tmp"@,
{
    let mut s = String::from_str(path);
    s.append(".tmp");
    s
}

/// Whether the four last characters of `s` are `suffix`.
fn has_suffix(s: &[char], suffix: &str) -> (b: bool)
    requires
        suffix@.len() == 4,
    ensures
        b == ends(s@, suffix@),
{
    let n: usize = s.len();
    if n < 4 {
        false
    } else {
        assert(s@.subrange(n - 4, n as int) =~= s@.skip(n - 4));
        same_chars(&s[n - 4..n], chars_of(suffix).as_slice())
    }
}

/// The table that a file of this name would belong to.
pub fn parse_sst_number(name: &str) -> (n: Option<u64>)
    ensures
        n == table_number(name@),
{
    proof {
        reveal_strlit(".sst");
    }
    let s = chars_of(name);
    if has_suffix(s.as_slice(), ".sst") {
        assert(s@.subrange(0, s@.len() - 4) =~= s@.take(s@.len() - 4));
        parse_number(&s[0..s.len() - 4])
    } else {
        None
    }
}

/// Whether the table `num` is one of `live`.
pub fn contains_number(live: &[SstEntry], num: u64) -> (b: bool)
    ensures
        b == listed(live@, num),
{
    let mut i: usize = 0;
    while i < live.len()
        invariant
            i <= live@.len(),
            forall|j: int| 0 <= j < i ==> #[trigger] live@[j].number != num,
        decreases live@.len() - i,
    {
        if live[i].number == num {
            return true;
        }
        i = i + 1;
    }
    false
}

/// Whether a file of this name is litter, where the tables `live` are in use.
pub fn is_orphan(name: &str, live: &[SstEntry]) -> (b: bool)
    ensures
        b == litter(name@, live@),
{
    proof {
        reveal_strlit(".tmp");
    }
    if has_suffix(chars_of(name).as_slice(), ".tmp") {
        true
    } else {
        match parse_sst_number(name) {
            Some(num) => !contains_number(live, num),
            None => false,
        }
    }
}

/// The table that a file belongs to is read off its name, and no two tables share one.
pub proof fn name_gives_number(n: u64)
    ensures
        table_number(sst_name(n)) == Some(n),
        !ends(sst_name(n), ".tmp"@),
{
    reveal_strlit(".sst");
    reveal_strlit(".tmp");
    let s = sst_name(n);
    number_reads_back(n, 6);
    assert(s.skip(s.len() - 4) =~= ".sst"@);
    assert(s.take(s.len() - 4) =~= padded(n as nat, 6));
    assert(".sst"@[1] == 's' && ".tmp"@[1] == 't');
}

/// Clearing litter away spares the log, the manifest and every table in use, and takes every
/// table that is not in use and every temporary file.
pub proof fn cleanup_spares_what_is_in_use(live: Seq<SstEntry>, n: u64, path: Seq<char>)
    ensures
        !litter("wal.log"@, live),
        !litter("MANIFEST"@, live),
        litter(sst_name(n), live) <==> !listed(live, n),
        litter(path + ".tmp"@, live),
{
    name_gives_number(n);
    reveal_strlit(".sst");
    reveal_strlit(".tmp");
    reveal_strlit("wal.log");
    reveal_strlit("MANIFEST");
    assert("wal.log"@.skip(3)[1] == 'l');
    assert("MANIFEST"@.skip(4)[1] == 'E');
    assert(".sst"@[1] == 's' && ".tmp"@[1] == 't');
    let t = path + ".tmp"@;
    assert(t.skip(t.len() - 4) =~= ".tmp"@);
}

/// The file of a table is named by its number in decimal, with zeros in front where it has
/// fewer than six digits, and `.sst`.
pub proof fn how_tables_are_named(n: u64)
    ensures
        ({
            let s = sst_name(n);
            let d = s.take(s.len() - 4);
            &&& s.len() >= 10
            &&& s.skip(s.len() - 4) == ".sst"@
            &&& forall|i: int| 0 <= i < d.len() ==> '0' <= #[trigger] d[i] && d[i] <= '9'
            &&& digits_value(d) == n
            &&& d.len() > 6 ==> d[0] != '0'
        }),
{
    reveal_strlit(".sst");
    let s = sst_name(n);
    let p = padded(n as nat, 6);
    numbers_are_decimal(n as nat, 6, Seq::empty(), '0');
    assert(s.take(s.len() - 4) =~= p);
    assert(s.skip(s.len() - 4) =~= ".sst"@);
    assert forall|i: int| 0 <= i < p.len() implies '0' <= #[trigger] p[i] && p[i] <= '9' by {
        assert('0' <= p[i] <= '9');
    }
}

/// Of all files, exactly those are litter whose name ends with `.tmp`, or is a number and
/// `.sst` where no table in use has that number.
pub proof fn what_is_litter(s: Seq<char>, live: Seq<SstEntry>)
    ensures
        ({
            let stem = s.take(s.len() - 4);
            let suffix = s.skip(s.len() - 4);
            if s.len() < 4 {
                !litter(s, live) && table_number(s) is None
            } else if suffix == ".tmp"@ {
                litter(s, live) && table_number(s) is None
            } else if suffix == ".sst"@ {
                &&& table_number(s) == number(stem)
                &&& litter(s, live) <==> (number(stem) matches Some(n) && forall|i: int|
                    0 <= i < live.len() ==> #[trigger] live[i].number != n)
            } else {
                !litter(s, live) && table_number(s) is None
            }
        }),
        forall|n: u64| #[trigger]
            listed(live, n) <==> exists|i: int| 0 <= i < live.len() && #[trigger] live[i].number == n,
{
    reveal_strlit(".sst");
    reveal_strlit(".tmp");
    assert(".sst"@[1] == 's' && ".tmp"@[1] == 't');
}

} // verus!
