//! A map from keys to values that keeps its entries in key order.

use vstd::prelude::*;

use crate::bytes::{key_lt, key_order, lemma_key_lt_asymmetric, lemma_key_lt_total,
    lemma_key_lt_transitive, KeyOrder};

verus! {

/// The entries of `s` stand in strictly ascending key order.
pub open spec fn ascending<T>(s: Seq<(Seq<u8>, T)>) -> bool {
    forall|i: int, j: int| 0 <= i < j < s.len() ==> key_lt(#[trigger] s[i].0, #[trigger] s[j].0)
}

/// An entry of `s` has the key `k`.
pub open spec fn has_key<T>(s: Seq<(Seq<u8>, T)>, k: Seq<u8>) -> bool {
    exists|i: int| 0 <= i < s.len() && #[trigger] s[i].0 == k
}

/// The map with the entries of `s`.
pub open spec fn as_map<T>(s: Seq<(Seq<u8>, T)>) -> Map<Seq<u8>, T> {
    Map::new(
        |k: Seq<u8>| has_key(s, k),
        |k: Seq<u8>| s[choose|i: int| 0 <= i < s.len() && #[trigger] s[i].0 == k].1,
    )
}

/// The entries of `m` in key order.
pub open spec fn in_order<T>(m: Map<Seq<u8>, T>) -> Seq<(Seq<u8>, T)> {
    choose|s: Seq<(Seq<u8>, T)>| ascending(s) && as_map(s) == m
}

/// Each entry of an ascending sequence is the one that the map has for its key.
pub proof fn lemma_entry<T>(s: Seq<(Seq<u8>, T)>, i: int)
    requires
        ascending(s),
        0 <= i < s.len(),
    ensures
        as_map(s).contains_key(s[i].0),
        as_map(s)[s[i].0] == s[i].1,
{
    let k = s[i].0;
    assert(has_key(s, k));
    let j = choose|j: int| 0 <= j < s.len() && #[trigger] s[j].0 == k;
    if i < j {
        lemma_key_lt_asymmetric(s[i].0, s[j].0);
    } else if j < i {
        lemma_key_lt_asymmetric(s[j].0, s[i].0);
    }
}

/// The place of a key that the map of an ascending sequence has.
pub proof fn lemma_place<T>(s: Seq<(Seq<u8>, T)>, k: Seq<u8>) -> (i: int)
    requires
        ascending(s),
        as_map(s).contains_key(k),
    ensures
        0 <= i < s.len(),
        s[i].0 == k,
        s[i].1 == as_map(s)[k],
{
    let i = choose|i: int| 0 <= i < s.len() && #[trigger] s[i].0 == k;
    lemma_entry(s, i);
    i
}

/// Two ascending sequences with the same map are the same.
pub proof fn lemma_ascending_unique<T>(s: Seq<(Seq<u8>, T)>, t: Seq<(Seq<u8>, T)>)
    requires
        ascending(s),
        ascending(t),
        as_map(s) == as_map(t),
    ensures
        s == t,
    decreases s.len(),
{
    if s.len() == 0 {
        if t.len() > 0 {
            lemma_entry(t, 0);
            assert(as_map(s).contains_key(t[0].0));
        }
        assert(s =~= t);
    } else {
        lemma_entry(s, s.len() - 1);
        let j = lemma_place(t, s.last().0);
        let i = {
            lemma_entry(t, t.len() - 1);
            lemma_place(s, t.last().0)
        };
        if j < t.len() - 1 {
            assert(key_lt(t[j].0, t[t.len() - 1].0));
            if i < s.len() - 1 {
                assert(key_lt(s[i].0, s[s.len() - 1].0));
            }
            lemma_key_lt_asymmetric(t[j].0, t[t.len() - 1].0);
        }
        let s1 = s.drop_last();
        let t1 = t.drop_last();
        assert(ascending(s1));
        assert(ascending(t1));
        assert(s.last() == t.last());
        lemma_drop_last(s);
        lemma_drop_last(t);
        lemma_ascending_unique(s1, t1);
        assert(s =~= s1.push(s.last()));
        assert(t =~= t1.push(t.last()));
    }
}

/// Without its last entry, an ascending sequence has the map without that key.
pub proof fn lemma_drop_last<T>(s: Seq<(Seq<u8>, T)>)
    requires
        ascending(s),
        s.len() > 0,
    ensures
        ascending(s.drop_last()),
        as_map(s.drop_last()) == as_map(s).remove(s.last().0),
{
    let t = s.drop_last();
    assert(ascending(t));
    assert forall|k: Seq<u8>| as_map(t).contains_key(k) <==> as_map(s).remove(
        s.last().0,
    ).contains_key(k) by {
        if as_map(t).contains_key(k) {
            let i = lemma_place(t, k);
            assert(s[i].0 == k);
            lemma_key_lt_asymmetric(s[i].0, s[s.len() - 1].0);
        }
        if as_map(s).contains_key(k) && k != s.last().0 {
            let i = lemma_place(s, k);
            assert(t[i].0 == k);
        }
    }
    assert forall|k: Seq<u8>| as_map(t).contains_key(k) implies as_map(t)[k] == as_map(s)[k] by {
        let i = lemma_place(t, k);
        lemma_entry(s, i);
    }
    assert(as_map(t) =~= as_map(s).remove(s.last().0));
}

/// The entries of a map that an ascending sequence has, in key order, are that sequence.
pub proof fn lemma_in_order<T>(s: Seq<(Seq<u8>, T)>)
    requires
        ascending(s),
    ensures
        in_order(as_map(s)) == s,
{
    lemma_ascending_unique(in_order(as_map(s)), s);
}

/// Entering a new key at its place in an ascending sequence enters it in the map.
pub proof fn lemma_insert_at<T>(s: Seq<(Seq<u8>, T)>, p: int, k: Seq<u8>, v: T)
    requires
        ascending(s),
        0 <= p <= s.len(),
        forall|i: int| 0 <= i < p ==> key_lt(#[trigger] s[i].0, k),
        forall|i: int| p <= i < s.len() ==> key_lt(k, #[trigger] s[i].0),
    ensures
        ascending(s.insert(p, (k, v))),
        as_map(s.insert(p, (k, v))) == as_map(s).insert(k, v),
        !as_map(s).contains_key(k),
{
    let t = s.insert(p, (k, v));
    assert(forall|i: int| 0 <= i < p ==> t[i] == s[i]);
    assert(forall|i: int| p < i < t.len() ==> t[i] == s[i - 1]);
    assert(ascending(t));
    if as_map(s).contains_key(k) {
        let i = lemma_place(s, k);
        if i < p {
            lemma_key_lt_asymmetric(s[i].0, k);
        } else {
            lemma_key_lt_asymmetric(k, s[i].0);
        }
    }
    let m = as_map(s).insert(k, v);
    assert forall|q: Seq<u8>| as_map(t).contains_key(q) <==> m.contains_key(q) by {
        if as_map(t).contains_key(q) {
            let i = lemma_place(t, q);
            if i < p {
                assert(s[i].0 == q);
            } else if i > p {
                assert(s[i - 1].0 == q);
            }
        }
        if m.contains_key(q) {
            if q == k {
                assert(t[p].0 == q);
            } else {
                let i = lemma_place(s, q);
                if i < p {
                    assert(t[i].0 == q);
                } else {
                    assert(t[i + 1].0 == q);
                }
            }
        }
    }
    assert forall|q: Seq<u8>| m.contains_key(q) implies as_map(t)[q] == m[q] by {
        if q == k {
            lemma_entry(t, p);
        } else {
            let i = lemma_place(s, q);
            if i < p {
                lemma_entry(t, i);
            } else {
                lemma_entry(t, i + 1);
            }
        }
    }
    assert(as_map(t) =~= m);
}

/// Changing the value of an entry of an ascending sequence changes it in the map.
pub proof fn lemma_update_at<T>(s: Seq<(Seq<u8>, T)>, p: int, k: Seq<u8>, v: T)
    requires
        ascending(s),
        0 <= p < s.len(),
        s[p].0 == k,
    ensures
        ascending(s.update(p, (k, v))),
        as_map(s.update(p, (k, v))) == as_map(s).insert(k, v),
        as_map(s).contains_key(k),
        as_map(s)[k] == s[p].1,
{
    let t = s.update(p, (k, v));
    assert(forall|i: int| 0 <= i < t.len() ==> t[i].0 == s[i].0);
    assert(ascending(t));
    lemma_entry(s, p);
    let m = as_map(s).insert(k, v);
    assert forall|q: Seq<u8>| as_map(t).contains_key(q) <==> m.contains_key(q) by {
        if as_map(t).contains_key(q) {
            let i = lemma_place(t, q);
            assert(s[i].0 == q);
        }
        if m.contains_key(q) && q != k {
            let i = lemma_place(s, q);
            assert(t[i].0 == q);
        }
        assert(t[p].0 == k);
    }
    assert forall|q: Seq<u8>| m.contains_key(q) implies as_map(t)[q] == m[q] by {
        if q == k {
            lemma_entry(t, p);
        } else {
            let i = lemma_place(s, q);
            lemma_entry(t, i);
        }
    }
    assert(as_map(t) =~= m);
}

/// The place where a new key would stand in an ascending sequence.
pub proof fn lemma_gap<T>(s: Seq<(Seq<u8>, T)>, k: Seq<u8>) -> (p: int)
    requires
        ascending(s),
        !as_map(s).contains_key(k),
    ensures
        0 <= p <= s.len(),
        forall|i: int| 0 <= i < p ==> key_lt(#[trigger] s[i].0, k),
        forall|i: int| p <= i < s.len() ==> key_lt(k, #[trigger] s[i].0),
    decreases s.len(),
{
    if s.len() == 0 {
        0
    } else {
        let n = s.len() - 1;
        lemma_entry(s, n);
        lemma_key_lt_total(s[n].0, k);
        if key_lt(s[n].0, k) {
            assert forall|i: int| 0 <= i < s.len() implies key_lt(#[trigger] s[i].0, k) by {
                if i < n {
                    lemma_key_lt_transitive(s[i].0, s[n].0, k);
                }
            }
            n + 1
        } else {
            lemma_drop_last(s);
            let t = s.drop_last();
            let p = lemma_gap(t, k);
            assert forall|i: int| 0 <= i < p implies key_lt(#[trigger] s[i].0, k) by {
                assert(t[i].0 == s[i].0);
            }
            assert forall|i: int| p <= i < s.len() implies key_lt(k, #[trigger] s[i].0) by {
                if i < n {
                    assert(t[i].0 == s[i].0);
                }
            }
            p
        }
    }
}

/// A map from keys to values, with its entries in key order.
#[derive(Debug)]
pub struct KeyMap<V> {
    entries: Vec<(Vec<u8>, V)>,
}

impl<V: View> KeyMap<V> {
    /// The entries in the order in which they stand.
    pub closed spec fn pairs(&self) -> Seq<(Seq<u8>, V::V)> {
        self.entries@.map_values(|e: (Vec<u8>, V)| (e.0@, e.1@))
    }

    /// The entries stand in key order.
    pub open spec fn wf(&self) -> bool {
        ascending(self.pairs())
    }
}

impl<V: View> View for KeyMap<V> {
    type V = Map<Seq<u8>, V::V>;

    open spec fn view(&self) -> Map<Seq<u8>, V::V> {
        as_map(self.pairs())
    }
}

impl<V: View> KeyMap<V> {
    /// A map without entries.
    pub fn new() -> (m: KeyMap<V>)
        ensures
            m.wf(),
            m@ == Map::<Seq<u8>, V::V>::empty(),
            m.pairs() == Seq::<(Seq<u8>, V::V)>::empty(),
    {
        let m = KeyMap { entries: Vec::new() };
        assert(m.pairs() =~= Seq::<(Seq<u8>, V::V)>::empty());
        assert(m@ =~= Map::<Seq<u8>, V::V>::empty());
        m
    }

    /// Whether there are no entries.
    pub fn is_empty(&self) -> (b: bool)
        ensures
            b <==> self@ == Map::<Seq<u8>, V::V>::empty(),
            b <==> self.pairs().len() == 0,
    {
        proof {
            if self.pairs().len() > 0 {
                assert(has_key(self.pairs(), self.pairs()[0].0));
                assert(self@.contains_key(self.pairs()[0].0));
            } else {
                assert(self@ =~= Map::<Seq<u8>, V::V>::empty());
            }
        }
        self.entries.len() == 0
    }

    /// The place of `key`, or the place where it would stand.
    fn find(&self, key: &[u8]) -> (at: (bool, usize))
        requires
            self.wf(),
        ensures
            at.0 <==> self@.contains_key(key@),
            at.1 <= self.pairs().len(),
            at.0 ==> at.1 < self.pairs().len() && self.pairs()[at.1 as int].0 == key@,
            forall|i: int|
                0 <= i < at.1 && i < self.pairs().len() ==> key_lt(#[trigger] self.pairs()[i].0, key@),
            forall|i: int|
                at.1 <= i < self.pairs().len() && !at.0 ==> key_lt(key@, #[trigger] self.pairs()[i].0),
    {
        let ghost s = self.pairs();
        let mut lo: usize = 0;
        let mut hi: usize = self.entries.len();
        while lo < hi
            invariant
                lo <= hi <= self.entries@.len(),
                s == self.pairs(),
                s.len() == self.entries@.len(),
                ascending(s),
                forall|i: int| 0 <= i < lo ==> key_lt(#[trigger] s[i].0, key@),
                forall|i: int| hi <= i < s.len() ==> key_lt(key@, #[trigger] s[i].0),
            decreases hi - lo,
        {
            let mid: usize = lo + (hi - lo) / 2;
            assert(s[mid as int].0 == self.entries@[mid as int].0@);
            match key_order(self.entries[mid].0.as_slice(), key) {
                KeyOrder::Same => {
                    assert(has_key(s, key@));
                    return (true, mid);
                },
                KeyOrder::Before => {
                    assert forall|i: int| 0 <= i < mid + 1 implies key_lt(#[trigger] s[i].0, key@) by {
                        if i < mid {
                            lemma_key_lt_transitive(s[i].0, s[mid as int].0, key@);
                        }
                    }
                    lo = mid + 1;
                },
                KeyOrder::After => {
                    assert forall|i: int| mid <= i < s.len() implies key_lt(key@, #[trigger] s[i].0) by {
                        if i > mid {
                            lemma_key_lt_transitive(key@, s[mid as int].0, s[i].0);
                        }
                    }
                    hi = mid;
                },
            }
        }
        proof {
            if has_key(s, key@) {
                let i = lemma_place(s, key@);
                if i < lo {
                    lemma_key_lt_asymmetric(s[i].0, key@);
                } else {
                    lemma_key_lt_asymmetric(key@, s[i].0);
                }
            }
        }
        (false, lo)
    }

    /// The value of `key`, if there is one.
    pub fn get(&self, key: &[u8]) -> (v: Option<&V>)
        requires
            self.wf(),
        ensures
            match v {
                Some(v) => self@.contains_key(key@) && self@[key@] == v@,
                None => !self@.contains_key(key@),
            },
    {
        let (hit, at) = self.find(key);
        if hit {
            proof {
                lemma_entry(self.pairs(), at as int);
                assert(self.pairs()[at as int].1 == self.entries@[at as int].1@);
            }
            Some(&self.entries[at].1)
        } else {
            None
        }
    }

    /// Gives `key` the value `value`, in place of an earlier one.
    pub fn insert(&mut self, key: Vec<u8>, value: V)
        requires
            old(self).wf(),
        ensures
            final(self).wf(),
            final(self)@ == old(self)@.insert(key@, value@),
    {
        let (hit, at) = self.find(key.as_slice());
        let ghost s = self.pairs();
        if hit {
            self.entries[at] = (key, value);
            proof {
                lemma_update_at(s, at as int, key@, value@);
                assert(self.pairs() =~= s.update(at as int, (key@, value@)));
            }
        } else {
            self.entries.insert(at, (key, value));
            proof {
                lemma_insert_at(s, at as int, key@, value@);
                assert(self.pairs() =~= s.insert(at as int, (key@, value@)));
            }
        }
    }

    /// The entries in key order.
    pub fn entries(&self) -> (v: &Vec<(Vec<u8>, V)>)
        requires
            self.wf(),
        ensures
            v@.map_values(|e: (Vec<u8>, V)| (e.0@, e.1@)) == self.pairs(),
            self.pairs() == in_order(self@),
    {
        proof {
            lemma_in_order(self.pairs());
        }
        &self.entries
    }

    /// The entries in key order.
    pub fn into_entries(self) -> (v: Vec<(Vec<u8>, V)>)
        requires
            self.wf(),
        ensures
            v@.map_values(|e: (Vec<u8>, V)| (e.0@, e.1@)) == in_order(self@),
    {
        proof {
            lemma_in_order(self.pairs());
        }
        self.entries
    }
}

} // verus!
