//! In-memory sorted view of the newest state of each key: the newest sequence number wins,
//! and a tombstone hides its key.

use vstd::layout::size_of;
use vstd::prelude::*;
use vstd::std_specs::iter::IteratorSpec;

use crate::bytes::{copy_bytes, key_lt, lemma_key_lt_asymmetric};
use crate::keymap::{as_map, ascending, in_order, lemma_entry, lemma_gap, lemma_in_order,
    lemma_insert_at, lemma_place, lemma_update_at, KeyMap};
use crate::record::{Kind, Rec, Record};

verus! {

/// The newest state of one key.
#[derive(Debug, Clone, PartialEq, Eq)]
pub struct Entry {
    pub seq: u64,
    pub kind: Kind,
    pub value: Vec<u8>,
}

/// The value of an [`Entry`].
#[verifier::ext_equal]
pub struct Cell {
    pub seq: u64,
    pub kind: Kind,
    pub value: Seq<u8>,
}

impl View for Entry {
    type V = Cell;

    open spec fn view(&self) -> Cell {
        Cell { seq: self.seq, kind: self.kind, value: self.value@ }
    }
}

/// What a record says of its key.
pub open spec fn cell(r: Rec) -> Cell {
    Cell { seq: r.seq, kind: r.kind, value: r.value }
}

/// `m` after the record `r`: a record that is no newer than what is known of its key changes
/// nothing.
pub open spec fn applied(m: Map<Seq<u8>, Cell>, r: Rec) -> Map<Seq<u8>, Cell> {
    if m.contains_key(r.key) && m[r.key].seq >= r.seq {
        m
    } else {
        m.insert(r.key, cell(r))
    }
}

/// `m` after the records `s`, one after the other.
pub open spec fn applied_all(m: Map<Seq<u8>, Cell>, s: Seq<Rec>) -> Map<Seq<u8>, Cell>
    decreases s.len(),
{
    if s.len() == 0 {
        m
    } else {
        applied(applied_all(m, s.drop_last()), s.last())
    }
}

/// Of the records `s`, the one at `i` is the newest of its key: it has the highest sequence
/// number, and no earlier record of the key has the same.
pub open spec fn is_newest(s: Seq<Rec>, i: int) -> bool {
    &&& 0 <= i < s.len()
    &&& forall|j: int|
        0 <= j < s.len() && #[trigger] s[j].key == s[i].key ==> s[j].seq < s[i].seq || (s[j].seq
            == s[i].seq && i <= j)
}

/// After any records in any order, each key that they write is known by its newest record,
/// and no other key is known.
pub proof fn newest_record_wins(s: Seq<Rec>, k: Seq<u8>)
    ensures
        applied_all(Map::empty(), s).contains_key(k) <==> exists|i: int|
            0 <= i < s.len() && #[trigger] s[i].key == k,
        applied_all(Map::empty(), s).contains_key(k) ==> exists|i: int| #[trigger]
            is_newest(s, i) && s[i].key == k && applied_all(Map::empty(), s)[k] == cell(s[i]),
    decreases s.len(),
{
    if s.len() > 0 {
        let t = s.drop_last();
        let n = s.len() - 1;
        let m = applied_all(Map::empty(), t);
        newest_record_wins(t, k);
        assert(forall|i: int| 0 <= i < n ==> t[i] == s[i]);
        if s[n].key == k {
            if m.contains_key(k) && m[k].seq >= s[n].seq {
                let i = choose|i: int| #[trigger] is_newest(t, i) && t[i].key == k && m[k] == cell(t[i]);
                assert(is_newest(s, i));
            } else {
                assert forall|j: int| 0 <= j < s.len() && #[trigger] s[j].key == s[n].key implies s[j].seq
                    < s[n].seq || (s[j].seq == s[n].seq && n <= j) by {
                    if j < n {
                        assert(t[j].key == k);
                        let i = choose|i: int| #[trigger]
                            is_newest(t, i) && t[i].key == k && m[k] == cell(t[i]);
                    }
                }
                assert(is_newest(s, n));
            }
        } else if m.contains_key(k) {
            let i = choose|i: int| #[trigger] is_newest(t, i) && t[i].key == k && m[k] == cell(t[i]);
            assert(is_newest(s, i));
            let j = choose|j: int| 0 <= j < t.len() && #[trigger] t[j].key == k;
            assert(s[j].key == k);
        } else {
            assert forall|j: int| 0 <= j < s.len() implies #[trigger] s[j].key != k by {
                if j < n {
                    assert(t[j].key != k);
                }
            }
        }
    }
}

/// The order in which two records arrive does not matter, unless they share key and sequence
/// number: entries and size are the same. Nor does it matter that a record arrives twice.
pub proof fn arrival_order_does_not_matter(m: Map<Seq<u8>, Cell>, a: Rec, b: Rec)
    requires
        a.key != b.key || a.seq != b.seq,
    ensures
        applied(applied(m, a), b) == applied(applied(m, b), a),
        in_order(applied(applied(m, a), b)) == in_order(applied(applied(m, b), a)),
        footprint(in_order(applied(applied(m, a), b))) == footprint(
            in_order(applied(applied(m, b), a)),
        ),
        applied(applied(m, a), a) == applied(m, a),
{
    assert(applied(applied(m, a), b) =~= applied(applied(m, b), a));
}

/// No two records of `s` that differ share key and sequence number.
pub open spec fn told_apart(s: Seq<Rec>) -> bool {
    forall|i: int, j: int|
        0 <= i < s.len() && 0 <= j < s.len() && #[trigger] s[i].key == #[trigger] s[j].key
            && s[i].seq == s[j].seq ==> s[i] == s[j]
}

/// What a table holds after records that can be told apart depends on which they are, and
/// neither on their order nor on how often each arrives.
pub proof fn only_the_set_of_records_matters(s: Seq<Rec>, t: Seq<Rec>)
    requires
        told_apart(s),
        forall|r: Rec| #[trigger] s.contains(r) <==> t.contains(r),
    ensures
        applied_all(Map::empty(), s) == applied_all(Map::empty(), t),
        in_order(applied_all(Map::empty(), s)) == in_order(applied_all(Map::empty(), t)),
        footprint(in_order(applied_all(Map::empty(), s))) == footprint(
            in_order(applied_all(Map::empty(), t)),
        ),
{
    let m = applied_all(Map::empty(), s);
    let n = applied_all(Map::empty(), t);
    assert forall|k: Seq<u8>| #[trigger]
        m.contains_key(k) == n.contains_key(k) && (m.contains_key(k) ==> m[k] == n[k]) by {
        newest_record_wins(s, k);
        newest_record_wins(t, k);
        if m.contains_key(k) {
            let i = choose|i: int| 0 <= i < s.len() && #[trigger] s[i].key == k;
            assert(s.contains(s[i]));
            let j = t.index_of(s[i]);
            assert(t[j].key == k);
        }
        if n.contains_key(k) {
            let j = choose|j: int| 0 <= j < t.len() && #[trigger] t[j].key == k;
            assert(t.contains(t[j]));
            assert(s.contains(t[j]));
            let i = s.index_of(t[j]);
            assert(s[i].key == k);
        }
        if m.contains_key(k) && n.contains_key(k) {
            let i = choose|i: int| #[trigger] is_newest(s, i) && s[i].key == k && m[k] == cell(s[i]);
            let j = choose|j: int| #[trigger] is_newest(t, j) && t[j].key == k && n[k] == cell(t[j]);
            assert(s.contains(s[i]));
            assert(t.contains(t[j]));
            assert(s.contains(t[j]));
            let a = s.index_of(t[j]);
            let b = t.index_of(s[i]);
            assert(s[a].key == s[i].key);
            assert(t[b].key == t[j].key);
        }
    }
    assert(m =~= n);
}

/// What one entry adds to the size.
pub open spec fn entry_footprint(key: Seq<u8>, c: Cell) -> nat {
    key.len() + c.value.len() + size_of::<Entry>()
}

/// The size of the entries `s`.
pub open spec fn footprint(s: Seq<(Seq<u8>, Cell)>) -> nat
    decreases s.len(),
{
    if s.len() == 0 {
        0
    } else {
        footprint(s.drop_last()) + entry_footprint(s.last().0, s.last().1)
    }
}

proof fn lemma_footprint_update(s: Seq<(Seq<u8>, Cell)>, p: int, e: (Seq<u8>, Cell))
    requires
        0 <= p < s.len(),
    ensures
        footprint(s.update(p, e)) + entry_footprint(s[p].0, s[p].1) == footprint(s)
            + entry_footprint(e.0, e.1),
    decreases s.len(),
{
    let t = s.update(p, e);
    if p == s.len() - 1 {
        assert(t.drop_last() =~= s.drop_last());
    } else {
        lemma_footprint_update(s.drop_last(), p, e);
        assert(t.drop_last() =~= s.drop_last().update(p, e));
    }
}

proof fn lemma_footprint_insert(s: Seq<(Seq<u8>, Cell)>, p: int, e: (Seq<u8>, Cell))
    requires
        0 <= p <= s.len(),
    ensures
        footprint(s.insert(p, e)) == footprint(s) + entry_footprint(e.0, e.1),
    decreases s.len(),
{
    let t = s.insert(p, e);
    if p == s.len() {
        assert(t.drop_last() =~= s);
    } else {
        lemma_footprint_insert(s.drop_last(), p, e);
        assert(t.drop_last() =~= s.drop_last().insert(p, e));
    }
}

proof fn lemma_footprint_has(s: Seq<(Seq<u8>, Cell)>, p: int)
    requires
        0 <= p < s.len(),
    ensures
        footprint(s) >= entry_footprint(s[p].0, s[p].1),
    decreases s.len(),
{
    if p < s.len() - 1 {
        lemma_footprint_has(s.drop_last(), p);
    }
}

/// All that `a` says, `b` says too.
pub open spec fn part_of(a: Map<Seq<u8>, Cell>, b: Map<Seq<u8>, Cell>) -> bool {
    forall|k: Seq<u8>| #[trigger] a.contains_key(k) ==> b.contains_key(k) && b[k] == a[k]
}

/// The entry `e` is one of `s`.
spec fn one_of(s: Seq<(Seq<u8>, Cell)>, e: (Seq<u8>, Cell)) -> bool {
    exists|j: int| 0 <= j < s.len() && #[trigger] s[j] == e
}

/// Some of the entries of `s`, in order, are no larger than all of them.
proof fn lemma_footprint_some(t: Seq<(Seq<u8>, Cell)>, s: Seq<(Seq<u8>, Cell)>)
    requires
        ascending(t),
        ascending(s),
        forall|i: int| 0 <= i < t.len() ==> one_of(s, #[trigger] t[i]),
    ensures
        footprint(t) <= footprint(s),
    decreases s.len(),
{
    if t.len() > 0 {
        let m = t.len() - 1;
        let n = s.len() - 1;
        assert(one_of(s, t[m]));
        let front = s.drop_last();
        let rest = if t[m] == s[n] {
            t.drop_last()
        } else {
            t
        };
        assert forall|i: int| 0 <= i < rest.len() implies one_of(front, #[trigger] rest[i]) by {
            assert(rest[i] == t[i]);
            assert(one_of(s, t[i]));
            let j = choose|j: int| 0 <= j < s.len() && #[trigger] s[j] == t[i];
            if j == n {
                lemma_key_lt_asymmetric(t[i].0, t[m].0);
                let a = choose|a: int| 0 <= a < s.len() && #[trigger] s[a] == t[m];
                assert(key_lt(s[a].0, s[n].0));
            }
            assert(front[j] == rest[i]);
        }
        lemma_footprint_some(rest, front);
    }
}

/// A part is no larger than the whole.
pub proof fn lemma_footprint_part(a: Map<Seq<u8>, Cell>, b: Map<Seq<u8>, Cell>)
    requires
        part_of(a, b),
        ascending(in_order(a)),
        as_map(in_order(a)) == a,
        ascending(in_order(b)),
        as_map(in_order(b)) == b,
    ensures
        footprint(in_order(a)) <= footprint(in_order(b)),
{
    let t = in_order(a);
    let s = in_order(b);
    assert forall|i: int| 0 <= i < t.len() implies one_of(s, #[trigger] t[i]) by {
        lemma_entry(t, i);
        assert(a.contains_key(t[i].0));
        let j = lemma_place(s, t[i].0);
        assert(s[j] == t[i]);
    }
    lemma_footprint_some(t, s);
}

/// How the size changes when a key gets a new state.
proof fn lemma_footprint_after(s: Seq<(Seq<u8>, Cell)>, key: Seq<u8>, c: Cell)
    requires
        ascending(s),
    ensures
        as_map(s).contains_key(key) ==> footprint(s) >= entry_footprint(key, as_map(s)[key]),
        footprint(in_order(as_map(s).insert(key, c))) == footprint(s) + entry_footprint(key, c)
            - if as_map(s).contains_key(key) {
            entry_footprint(key, as_map(s)[key]) as int
        } else {
            0
        },
{
    if as_map(s).contains_key(key) {
        let p = lemma_place(s, key);
        lemma_footprint_has(s, p);
        lemma_footprint_update(s, p, (key, c));
        lemma_update_at(s, p, key, c);
        lemma_in_order(s.update(p, (key, c)));
    } else {
        let p = lemma_gap(s, key);
        lemma_footprint_insert(s, p, (key, c));
        lemma_insert_at(s, p, key, c);
        lemma_in_order(s.insert(p, (key, c)));
    }
}

/// What one entry adds to the size.
fn entry_size(key: &[u8], entry: &Entry) -> (n: usize)
    requires
        entry_footprint(key@, entry@) <= usize::MAX,
    ensures
        n == entry_footprint(key@, entry@),
{
    key.len() + entry.value.len() + std::mem::size_of::<Entry>()
}

/// The newest state of each key that was written.
#[derive(Debug)]
pub struct MemTable {
    map: KeyMap<Entry>,
    size_bytes: usize,
}

impl View for MemTable {
    type V = Map<Seq<u8>, Cell>;

    closed spec fn view(&self) -> Map<Seq<u8>, Cell> {
        self.map@
    }
}

impl MemTable {
    /// The entries are in order and their size is known.
    pub closed spec fn wf(&self) -> bool {
        &&& self.map.wf()
        &&& self.size_bytes == footprint(self.map.pairs())
    }

    /// A table without entries.
    pub fn new() -> (m: MemTable)
        ensures
            m.wf(),
            m@ == Map::<Seq<u8>, Cell>::empty(),
    {
        MemTable { map: KeyMap::new(), size_bytes: 0 }
    }

    /// Whether the size of the table with `record` taken in can still be counted.
    pub fn can_apply(&self, record: &Record) -> (b: bool)
        requires
            self.wf(),
        ensures
            b == (footprint(in_order(applied(self@, record@))) <= usize::MAX),
    {
        proof {
            lemma_in_order(self.map.pairs());
            lemma_footprint_after(self.map.pairs(), record.key@, cell(record@));
        }
        let mut rest: u128 = self.size_bytes as u128;
        if let Some(existing) = self.map.get(record.key.as_slice()) {
            if existing.seq >= record.seq {
                return true;
            }
            rest = rest - entry_size(record.key.as_slice(), existing) as u128;
        }
        rest + record.key.len() as u128 + record.value.len() as u128
            + std::mem::size_of::<Entry>() as u128 <= usize::MAX as u128
    }

    /// Takes in one record. A record that is no newer than what is known of its key changes
    /// nothing.
    pub fn apply(&mut self, record: Record)
        requires
            old(self).wf(),
            footprint(in_order(applied(old(self)@, record@))) <= usize::MAX,
        ensures
            final(self).wf(),
            final(self)@ == applied(old(self)@, record@),
    {
        proof {
            lemma_footprint_after(self.map.pairs(), record.key@, cell(record@));
        }
        let mut old_size: usize = 0;
        if let Some(existing) = self.map.get(record.key.as_slice()) {
            if existing.seq >= record.seq {
                return ;
            }
            old_size = entry_size(record.key.as_slice(), existing);
        }
        let entry = Entry { seq: record.seq, kind: record.kind, value: record.value };
        let new_size: usize = entry_size(record.key.as_slice(), &entry);
        self.map.insert(record.key, entry);
        self.size_bytes = self.size_bytes - old_size + new_size;
        proof {
            lemma_in_order(self.map.pairs());
        }
    }

    /// The current value of `key`: none where the key was never written or its newest
    /// state is a tombstone.
    pub fn get(&self, key: &[u8]) -> (v: Option<&[u8]>)
        requires
            self.wf(),
        ensures
            match v {
                Some(v) => self@.contains_key(key@) && self@[key@].kind == Kind::Put
                    && self@[key@].value == v@,
                None => !self@.contains_key(key@) || self@[key@].kind == Kind::Tombstone,
            },
    {
        match self.map.get(key) {
            Some(entry) => {
                if entry.kind == Kind::Put {
                    Some(entry.value.as_slice())
                } else {
                    None
                }
            },
            None => None,
        }
    }

    /// The size of all entries: keys, values, and one [`Entry`] for each.
    pub fn approx_size_bytes(&self) -> (n: usize)
        requires
            self.wf(),
        ensures
            n == footprint(in_order(self@)),
    {
        proof {
            lemma_in_order(self.map.pairs());
        }
        self.size_bytes
    }

    /// Whether there are no entries.
    pub fn is_empty(&self) -> (b: bool)
        ensures
            b <==> self@ == Map::<Seq<u8>, Cell>::empty(),
    {
        self.map.is_empty()
    }

    /// The entries in key order.
    pub fn iter(&self) -> (it: std::slice::Iter<'_, (Vec<u8>, Entry)>)
        requires
            self.wf(),
        ensures
            IteratorSpec::remaining(&it).map_values(|e: &(Vec<u8>, Entry)| (e.0@, e.1@))
                == in_order(self@),
            ascending(in_order(self@)),
            as_map(in_order(self@)) == self@,
            IteratorSpec::decrease(&it) is Some,
            IteratorSpec::initial_value_relation(&it, &it),
    {
        let entries = self.map.entries();
        let it = entries.as_slice().iter();
        assert(IteratorSpec::remaining(&it).map_values(|e: &(Vec<u8>, Entry)| (e.0@, e.1@))
            =~= entries@.map_values(|e: (Vec<u8>, Entry)| (e.0@, e.1@)));
        it
    }

    /// What is known of `key`, tombstones too.
    pub fn lookup(&self, key: &[u8]) -> (v: Option<(Kind, Vec<u8>)>)
        requires
            self.wf(),
        ensures
            match v {
                Some((kind, value)) => self@.contains_key(key@) && self@[key@].kind == kind
                    && self@[key@].value == value@,
                None => !self@.contains_key(key@),
            },
    {
        match self.map.get(key) {
            Some(entry) => Some((entry.kind, copy_bytes(entry.value.as_slice()))),
            None => None,
        }
    }
}

impl Default for MemTable {
    fn default() -> (m: MemTable)
        ensures
            m.wf(),
            m@ == Map::<Seq<u8>, Cell>::empty(),
    {
        MemTable::new()
    }
}

/// The size of a table is the lengths of all keys and values, whatever they are, and one entry
/// for each key.
pub proof fn size_is_the_sum_of_all_lengths(s: Seq<(Seq<u8>, Cell)>)
    ensures
        footprint(s) == s.fold_left(
            0int,
            |n: int, e: (Seq<u8>, Cell)| n + e.0.len() + e.1.value.len(),
        ) + s.len() * size_of::<Entry>(),
        forall|e: (Seq<u8>, Cell)| #[trigger]
            footprint(s.push(e)) == footprint(s) + e.0.len() + e.1.value.len() + size_of::<Entry>(),
        forall|i: int|
            0 <= i < s.len() ==> footprint(s) >= #[trigger] s[i].0.len() + s[i].1.value.len(),
        s.len() == 0 ==> footprint(s) == 0,
    decreases s.len(),
{
    assert forall|e: (Seq<u8>, Cell)| #[trigger]
        footprint(s.push(e)) == footprint(s) + e.0.len() + e.1.value.len() + size_of::<Entry>() by {
        assert(s.push(e).drop_last() =~= s);
    }
    assert forall|i: int| 0 <= i < s.len() implies footprint(s) >= #[trigger] s[i].0.len()
        + s[i].1.value.len() by {
        lemma_footprint_has(s, i);
    }
    if s.len() > 0 {
        let n = s.len() as int;
        let z = size_of::<Entry>() as int;
        size_is_the_sum_of_all_lengths(s.drop_last());
        assert((n - 1) * z + z == n * z) by (nonlinear_arith);
    }
}

/// After any records in any order, what is known of a key is what one of its records says: none
/// has a higher sequence number, and none before it has the same. The entries are listed in key
/// order, each once.
pub proof fn memory_has_the_newest_of_each_key(s: Seq<Rec>, k: Seq<u8>)
    ensures
        ({
            let m = applied_all(Map::empty(), s);
            let e = in_order(m);
            &&& m.contains_key(k) <==> exists|i: int| 0 <= i < s.len() && #[trigger] s[i].key == k
            &&& m.contains_key(k) ==> exists|i: int|
                0 <= i < s.len() && #[trigger] s[i].key == k && m[k].seq == s[i].seq && m[k].kind
                    == s[i].kind && m[k].value == s[i].value && forall|j: int|
                    0 <= j < s.len() && #[trigger] s[j].key == k ==> s[j].seq < s[i].seq || (
                    s[j].seq == s[i].seq && i <= j)
            &&& m.contains_key(k) <==> exists|x: int| 0 <= x < e.len() && #[trigger] e[x].0 == k
            &&& forall|x: int| 0 <= x < e.len() && #[trigger] e[x].0 == k ==> e[x].1 == m[k]
            &&& forall|x: int, y: int|
                0 <= x < y < e.len() ==> key_lt(#[trigger] e[x].0, #[trigger] e[y].0)
        }),
{
    let m = applied_all(Map::empty(), s);
    let e = in_order(m);
    newest_record_wins(s, k);
    crate::layers::lemma_applied_all_ordered(s);
    if m.contains_key(k) {
        let i = choose|i: int| #[trigger] is_newest(s, i) && s[i].key == k && m[k] == cell(s[i]);
        assert(s[i].key == k);
        let x = lemma_place(e, k);
        assert(e[x].0 == k);
    }
    assert forall|x: int| 0 <= x < e.len() && #[trigger] e[x].0 == k implies e[x].1 == m[k]
        && m.contains_key(k) by {
        lemma_entry(e, x);
    }
}

/// Taking in a record changes what is known of its key at most, and that only where nothing as
/// new was known.
pub proof fn a_record_touches_its_own_key(m: Map<Seq<u8>, Cell>, r: Rec, k: Seq<u8>)
    ensures
        ({
            let n = applied(m, r);
            &&& k != r.key ==> n.contains_key(k) == m.contains_key(k) && (m.contains_key(k)
                ==> n[k] == m[k])
            &&& n.contains_key(r.key)
            &&& if m.contains_key(r.key) && m[r.key].seq >= r.seq {
                n[r.key] == m[r.key]
            } else {
                n[r.key].seq == r.seq && n[r.key].kind == r.kind && n[r.key].value == r.value
            }
        }),
{
}

/// What an entry stands for: all its fields.
pub proof fn what_entries_stand_for(e: Entry)
    ensures
        e@.seq == e.seq && e@.kind == e.kind && e@.value == e.value@,
{
}

} // verus!
