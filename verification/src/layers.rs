//! What a stack of tables under a memory table shows, and that flushing and merging leave it
//! as it is.

use vstd::prelude::*;

use crate::bytes::key_lt;
use crate::compaction::{is_winner, joined, keeps, kept_all, merged, newer_input_wins, rec_of,
    recs_of, survivors};
use crate::db::shown;
use crate::keymap::{as_map, ascending, in_order, lemma_entry, lemma_gap, lemma_in_order,
    lemma_insert_at, lemma_place, lemma_update_at};
use crate::memtable::{applied, applied_all, cell, Cell};
use crate::record::{fits, Kind, Rec};
use crate::sstable::{holds_key, lemma_pick, pick, sorted};
use crate::wal::all_fit;

verus! {

/// The newest record of `key` in the tables `layers`, which stand oldest first.
pub open spec fn newest(layers: Seq<Seq<Rec>>, key: Seq<u8>) -> Option<Rec>
    decreases layers.len(),
{
    if layers.len() == 0 {
        None
    } else if holds_key(layers.last(), key) {
        pick(layers.last(), key)
    } else {
        newest(layers.drop_last(), key)
    }
}

/// The value that a record, if there is one, shows.
pub open spec fn shown_rec(r: Option<Rec>) -> Option<Seq<u8>> {
    match r {
        Some(r) => shown(r.kind, r.value),
        None => None,
    }
}

/// The value of `key` in the tables `layers` under the memory table `mem`.
pub open spec fn value(layers: Seq<Seq<Rec>>, mem: Map<Seq<u8>, Cell>, key: Seq<u8>) -> Option<
    Seq<u8>,
> {
    if mem.contains_key(key) {
        shown(mem[key].kind, mem[key].value)
    } else {
        shown_rec(newest(layers, key))
    }
}

/// `a` is older than `b`, or they are the same record.
pub open spec fn no_newer(a: Rec, b: Rec) -> bool {
    a.seq < b.seq || a == b
}

/// A table: its records stand in key order and can be read back, and their sequence numbers
/// are given out.
pub open spec fn layer_ok(rs: Seq<Rec>, next_seq: int) -> bool {
    &&& sorted(rs)
    &&& all_fit(rs)
    &&& forall|j: int| 0 <= j < rs.len() ==> #[trigger] rs[j].seq < next_seq
}

/// No record of `a` is newer than the record of the same key in `b`.
pub open spec fn under(a: Seq<Rec>, b: Seq<Rec>) -> bool {
    forall|k: Seq<u8>| #[trigger]
        holds_key(a, k) && holds_key(b, k) ==> no_newer(pick(a, k)->0, pick(b, k)->0)
}

/// No record of `a` is newer than what `mem` says of the same key.
pub open spec fn under_mem(a: Seq<Rec>, mem: Map<Seq<u8>, Cell>) -> bool {
    forall|k: Seq<u8>| #[trigger]
        holds_key(a, k) && mem.contains_key(k) ==> no_newer(pick(a, k)->0, rec_of((k, mem[k])))
}

/// What `mem` says can be read back once it is written, and its sequence numbers are given
/// out.
pub open spec fn mem_ok(mem: Map<Seq<u8>, Cell>, next_seq: int) -> bool {
    &&& forall|k: Seq<u8>| #[trigger]
        mem.contains_key(k) ==> fits(rec_of((k, mem[k]))) && mem[k].seq < next_seq
    &&& ascending(in_order(mem))
    &&& as_map(in_order(mem)) == mem
}

/// The tables `layers` under the memory table `mem` are in order: newer ones are above.
pub open spec fn sound(layers: Seq<Seq<Rec>>, mem: Map<Seq<u8>, Cell>, next_seq: int) -> bool {
    &&& forall|i: int| 0 <= i < layers.len() ==> layer_ok(#[trigger] layers[i], next_seq)
    &&& forall|i: int, j: int|
        0 <= i < j < layers.len() ==> under(#[trigger] layers[i], #[trigger] layers[j])
    &&& forall|i: int| 0 <= i < layers.len() ==> under_mem(#[trigger] layers[i], mem)
    &&& mem_ok(mem, next_seq)
}

/// A map that records were taken into has its entries in order.
pub proof fn lemma_applied_all_ordered(rs: Seq<Rec>)
    ensures
        ascending(in_order(applied_all(Map::empty(), rs))),
        as_map(in_order(applied_all(Map::empty(), rs))) == applied_all(Map::empty(), rs),
    decreases rs.len(),
{
    if rs.len() == 0 {
        let none = Seq::<(Seq<u8>, Cell)>::empty();
        assert(as_map(none) =~= Map::<Seq<u8>, Cell>::empty());
        lemma_in_order(none);
    } else {
        lemma_applied_all_ordered(rs.drop_last());
        lemma_insert_ordered(applied_all(Map::empty(), rs.drop_last()), rs.last());
    }
}

/// So has one that the records of a merge were taken into.
proof fn lemma_kept_all_ordered(rs: Seq<Rec>)
    ensures
        ascending(in_order(kept_all(rs))),
        as_map(in_order(kept_all(rs))) == kept_all(rs),
    decreases rs.len(),
{
    if rs.len() == 0 {
        lemma_applied_all_ordered(rs);
    } else {
        lemma_kept_all_ordered(rs.drop_last());
        lemma_insert_ordered(kept_all(rs.drop_last()), rs.last());
    }
}

/// A map that has its entries in order, after one more record.
pub proof fn lemma_insert_ordered(m: Map<Seq<u8>, Cell>, r: Rec)
    requires
        ascending(in_order(m)),
        as_map(in_order(m)) == m,
    ensures
        ascending(in_order(m.insert(r.key, cell(r)))),
        as_map(in_order(m.insert(r.key, cell(r)))) == m.insert(r.key, cell(r)),
{
    let s = in_order(m);
    if m.contains_key(r.key) {
        let p = lemma_place(s, r.key);
        lemma_update_at(s, p, r.key, cell(r));
        lemma_in_order(s.update(p, (r.key, cell(r))));
    } else {
        let p = lemma_gap(s, r.key);
        lemma_insert_at(s, p, r.key, cell(r));
        lemma_in_order(s.insert(p, (r.key, cell(r))));
    }
}

/// The records of entries in key order: sorted, and one for each key.
pub proof fn lemma_recs_of(s: Seq<(Seq<u8>, Cell)>, k: Seq<u8>)
    requires
        ascending(s),
    ensures
        sorted(recs_of(s)),
        holds_key(recs_of(s), k) <==> as_map(s).contains_key(k),
        as_map(s).contains_key(k) ==> pick(recs_of(s), k) == Some(rec_of((k, as_map(s)[k]))),
{
    let rs = recs_of(s);
    assert forall|i: int, j: int| 0 <= i < j < rs.len() implies key_lt(
        #[trigger] rs[i].key,
        #[trigger] rs[j].key,
    ) by {
        assert(key_lt(s[i].0, s[j].0));
    }
    if holds_key(rs, k) {
        let i = choose|i: int| 0 <= i < rs.len() && #[trigger] rs[i].key == k;
        assert(s[i].0 == k);
        lemma_entry(s, i);
    }
    if as_map(s).contains_key(k) {
        let i = lemma_place(s, k);
        assert(rs[i].key == k);
        lemma_pick(rs, i);
    }
}

/// The record of a key that a table holds is one of its records.
proof fn lemma_pick_is_in(rs: Seq<Rec>, k: Seq<u8>) -> (i: int)
    requires
        holds_key(rs, k),
    ensures
        0 <= i < rs.len(),
        rs[i].key == k,
        pick(rs, k) == Some(rs[i]),
{
    choose|i: int| 0 <= i < rs.len() && #[trigger] rs[i].key == k
}

/// What a memory table holds, as a table: in order, and above every table that the memory
/// table is above.
pub proof fn lemma_flushed_layer(mem: Map<Seq<u8>, Cell>, next_seq: int)
    requires
        mem_ok(mem, next_seq),
    ensures
        layer_ok(recs_of(in_order(mem)), next_seq),
        forall|k: Seq<u8>| #[trigger]
            holds_key(recs_of(in_order(mem)), k) <==> mem.contains_key(k),
        forall|k: Seq<u8>| #[trigger]
            holds_key(recs_of(in_order(mem)), k) ==> pick(recs_of(in_order(mem)), k) == Some(
                rec_of((k, mem[k])),
            ),
{
    let s = in_order(mem);
    let rs = recs_of(s);
    lemma_recs_of(s, Seq::empty());
    assert forall|j: int| 0 <= j < rs.len() implies fits(#[trigger] rs[j]) && rs[j].seq < next_seq by {
        lemma_entry(s, j);
        assert(mem.contains_key(s[j].0));
    }
    assert forall|k: Seq<u8>| #[trigger] holds_key(rs, k) <==> mem.contains_key(k) by {
        lemma_recs_of(s, k);
    }
    assert forall|k: Seq<u8>| #[trigger] holds_key(rs, k) implies pick(rs, k) == Some(
        rec_of((k, mem[k])),
    ) by {
        lemma_recs_of(s, k);
    }
}

/// An empty memory table is in order.
pub proof fn lemma_empty_mem(next_seq: int)
    ensures
        mem_ok(Map::empty(), next_seq),
{
    lemma_applied_all_ordered(Seq::empty());
}

/// Flushing changes nothing: the tables with what the memory table holds on top show the same,
/// whether the memory table is still there or emptied.
pub proof fn flush_keeps_values(
    layers: Seq<Seq<Rec>>,
    mem: Map<Seq<u8>, Cell>,
    next_seq: int,
)
    requires
        sound(layers, mem, next_seq),
    ensures
        ({
            let all = layers.push(recs_of(in_order(mem)));
            &&& sound(all, mem, next_seq)
            &&& sound(all, Map::empty(), next_seq)
            &&& forall|k: Seq<u8>| #[trigger] value(all, mem, k) == value(layers, mem, k)
            &&& forall|k: Seq<u8>| #[trigger] value(all, Map::empty(), k) == value(layers, mem, k)
        }),
{
    let top = recs_of(in_order(mem));
    let all = layers.push(top);
    lemma_flushed_layer(mem, next_seq);
    lemma_empty_mem(next_seq);
    assert forall|i: int, j: int| 0 <= i < j < all.len() implies under(
        #[trigger] all[i],
        #[trigger] all[j],
    ) by {
        if j == layers.len() {
            assert(under_mem(layers[i], mem));
            assert forall|k: Seq<u8>| #[trigger]
                holds_key(all[i], k) && holds_key(all[j], k) implies no_newer(
                pick(all[i], k)->0,
                pick(all[j], k)->0,
            ) by {
                assert(holds_key(top, k));
            }
        } else {
            assert(all[i] == layers[i] && all[j] == layers[j]);
        }
    }
    assert forall|i: int| 0 <= i < all.len() implies layer_ok(#[trigger] all[i], next_seq)
        && under_mem(all[i], mem) by {
        if i < layers.len() {
            assert(all[i] == layers[i]);
        }
    }
    assert(all.drop_last() =~= layers);
    assert forall|k: Seq<u8>| #[trigger] value(all, mem, k) == value(layers, mem, k) by {
        assert(holds_key(top, k) <==> mem.contains_key(k));
    }
    assert forall|k: Seq<u8>| #[trigger] value(all, Map::empty(), k) == value(layers, mem, k) by {
        assert(holds_key(top, k) <==> mem.contains_key(k));
    }
}

/// A write with the next sequence number changes the value of its key and of no other.
pub proof fn write_changes_one_value(
    layers: Seq<Seq<Rec>>,
    mem: Map<Seq<u8>, Cell>,
    next_seq: int,
    r: Rec,
)
    requires
        sound(layers, mem, next_seq),
        r.seq == next_seq,
        fits(r),
    ensures
        applied(mem, r) == mem.insert(r.key, cell(r)),
        sound(layers, applied(mem, r), next_seq + 1),
        forall|k: Seq<u8>| #[trigger]
            value(layers, applied(mem, r), k) == if k == r.key {
                shown(r.kind, r.value)
            } else {
                value(layers, mem, k)
            },
{
    let m = applied(mem, r);
    lemma_insert_ordered(mem, r);
    assert forall|k: Seq<u8>| #[trigger] m.contains_key(k) implies fits(rec_of((k, m[k]))) && m[k].seq
        < next_seq + 1 by {
        if k == r.key {
            assert(rec_of((k, m[k])) =~= r);
        } else {
            assert(mem.contains_key(k));
        }
    }
    assert forall|i: int| 0 <= i < layers.len() implies layer_ok(#[trigger] layers[i], next_seq + 1)
        && under_mem(layers[i], m) by {
        let rs = layers[i];
        assert(layer_ok(rs, next_seq) && under_mem(rs, mem));
        assert forall|k: Seq<u8>| #[trigger]
            holds_key(rs, k) && m.contains_key(k) implies no_newer(
            pick(rs, k)->0,
            rec_of((k, m[k])),
        ) by {
            let j = lemma_pick_is_in(rs, k);
            assert(rs[j].seq < next_seq);
        }
    }
}

/// Where a record of all tables comes from.
proof fn lemma_joined_source(layers: Seq<Seq<Rec>>, n: int) -> (at: (int, int))
    requires
        0 <= n < joined(layers).len(),
    ensures
        0 <= at.0 < layers.len(),
        0 <= at.1 < layers[at.0].len(),
        layers[at.0][at.1] == joined(layers)[n],
    decreases layers.len(),
{
    let front = layers.drop_last();
    if n < joined(front).len() {
        let at = lemma_joined_source(front, n);
        assert(front[at.0] == layers[at.0]);
        at
    } else {
        (layers.len() - 1, n - joined(front).len())
    }
}

/// Where a record of one table stands among all.
proof fn lemma_joined_target(layers: Seq<Seq<Rec>>, i: int, j: int) -> (n: int)
    requires
        0 <= i < layers.len(),
        0 <= j < layers[i].len(),
    ensures
        0 <= n < joined(layers).len(),
        joined(layers)[n] == layers[i][j],
    decreases layers.len(),
{
    let front = layers.drop_last();
    if i < layers.len() - 1 {
        assert(front[i] == layers[i]);
        lemma_joined_target(front, i, j)
    } else {
        joined(front).len() as int + j
    }
}

/// The newest record of a key comes from the last table that holds it.
proof fn lemma_newest_source(layers: Seq<Seq<Rec>>, k: Seq<u8>) -> (i: int)
    requires
        newest(layers, k) is Some,
    ensures
        0 <= i < layers.len(),
        holds_key(layers[i], k),
        newest(layers, k) == pick(layers[i], k),
        forall|j: int| i < j < layers.len() ==> !holds_key(#[trigger] layers[j], k),
    decreases layers.len(),
{
    let n = layers.len() - 1;
    if holds_key(layers.last(), k) {
        n
    } else {
        let front = layers.drop_last();
        let i = lemma_newest_source(front, k);
        assert(front[i] == layers[i]);
        assert forall|j: int| i < j < layers.len() implies !holds_key(#[trigger] layers[j], k) by {
            if j < n {
                assert(front[j] == layers[j]);
            }
        }
        i
    }
}

/// A key that a table holds has a newest record.
proof fn lemma_newest_some(layers: Seq<Seq<Rec>>, k: Seq<u8>, i: int)
    requires
        0 <= i < layers.len(),
        holds_key(layers[i], k),
    ensures
        newest(layers, k) is Some,
    decreases layers.len(),
{
    if !holds_key(layers.last(), k) {
        let front = layers.drop_last();
        assert(front[i] == layers[i]);
        lemma_newest_some(front, k, i);
    }
}

/// Taking in all tables leaves each key with its newest record.
proof fn lemma_joined_newest(layers: Seq<Seq<Rec>>, mem: Map<Seq<u8>, Cell>, next_seq: int, k: Seq<u8>)
    requires
        sound(layers, mem, next_seq),
    ensures
        kept_all(joined(layers)).contains_key(k) <==> newest(layers, k) is Some,
        newest(layers, k) matches Some(r) ==> r.key == k && kept_all(joined(layers))[k]
            == cell(r),
{
    let all = joined(layers);
    let m = kept_all(all);
    newer_input_wins(all, k);
    if m.contains_key(k) {
        let n = choose|n: int| 0 <= n < all.len() && #[trigger] all[n].key == k;
        let (i, j) = lemma_joined_source(layers, n);
        assert(layers[i][j].key == k);
        lemma_newest_some(layers, k, i);
    }
    if newest(layers, k) is Some {
        let i = lemma_newest_source(layers, k);
        let j = lemma_pick_is_in(layers[i], k);
        let r = layers[i][j];
        let n = lemma_joined_target(layers, i, j);
        assert(all[n].key == k);
        let w = choose|w: int| #[trigger] is_winner(all, w) && all[w].key == k && m[k] == cell(all[w]);
        let (a, b) = lemma_joined_source(layers, w);
        assert(layer_ok(layers[a], next_seq));
        lemma_pick(layers[a], b);
        assert(layers[a][b].key == k);
        assert(holds_key(layers[a], k));
        if a < i {
            assert(under(layers[a], layers[i]));
        }
        assert(no_newer(all[w], r));
        assert(all[n].seq <= all[w].seq);
    }
}

/// The entry `e` is one of `s`.
spec fn among(s: Seq<(Seq<u8>, Cell)>, e: (Seq<u8>, Cell)) -> bool {
    exists|j: int| 0 <= j < s.len() && #[trigger] s[j] == e
}

/// Leaving entries out keeps the others in order.
proof fn lemma_filter(s: Seq<(Seq<u8>, Cell)>, p: spec_fn((Seq<u8>, Cell)) -> bool, k: Seq<u8>)
    requires
        ascending(s),
    ensures
        ascending(s.filter(p)),
        as_map(s.filter(p)).contains_key(k) <==> as_map(s).contains_key(k) && p((k, as_map(s)[k])),
        as_map(s.filter(p)).contains_key(k) ==> as_map(s.filter(p))[k] == as_map(s)[k],
    decreases s.len(),
{
    let f = s.filter(p);
    lemma_filter_order(s, p);
    if as_map(f).contains_key(k) {
        let i = lemma_place(f, k);
        assert(among(s, f[i]));
        let j = choose|j: int| 0 <= j < s.len() && #[trigger] s[j] == f[i];
        lemma_entry(s, j);
    }
    if as_map(s).contains_key(k) && p((k, as_map(s)[k])) {
        let j = lemma_place(s, k);
        assert(s[j] == (k, as_map(s)[k]));
        let i = lemma_filter_keeps(s, p, j);
        lemma_entry(f, i);
    }
}

proof fn lemma_filter_keeps(
    s: Seq<(Seq<u8>, Cell)>,
    p: spec_fn((Seq<u8>, Cell)) -> bool,
    j: int,
) -> (i: int)
    requires
        0 <= j < s.len(),
        p(s[j]),
    ensures
        0 <= i < s.filter(p).len(),
        s.filter(p)[i] == s[j],
    decreases s.len(),
{
    reveal(Seq::filter);
    let t = s.drop_last();
    if j == s.len() - 1 {
        t.filter(p).len() as int
    } else {
        assert(t[j] == s[j]);
        lemma_filter_keeps(t, p, j)
    }
}

proof fn lemma_filter_order(s: Seq<(Seq<u8>, Cell)>, p: spec_fn((Seq<u8>, Cell)) -> bool)
    requires
        ascending(s),
    ensures
        ascending(s.filter(p)),
        forall|i: int|
            0 <= i < s.filter(p).len() ==> among(s, #[trigger] s.filter(p)[i]) && p(
                s.filter(p)[i],
            ),
    decreases s.len(),
{
    reveal(Seq::filter);
    if s.len() > 0 {
        let t = s.drop_last();
        let n = s.len() - 1;
        assert(ascending(t));
        lemma_filter_order(t, p);
        let f = t.filter(p);
        let g = s.filter(p);
        assert forall|i: int| 0 <= i < g.len() implies among(s, #[trigger] g[i]) && p(g[i]) by {
            if i < f.len() {
                assert(among(t, f[i]) && p(f[i]));
                let j = choose|j: int| 0 <= j < t.len() && #[trigger] t[j] == f[i];
                assert(s[j] == g[i]);
            } else {
                assert(s[n] == g[i]);
            }
        }
        assert forall|i: int, j: int| 0 <= i < j < g.len() implies key_lt(
            #[trigger] g[i].0,
            #[trigger] g[j].0,
        ) by {
            if j < f.len() {
                assert(g[i] == f[i] && g[j] == f[j]);
            } else {
                assert(g[i] == f[i] && g[j] == s[n]);
                assert(among(t, f[i]));
                let a = choose|a: int| 0 <= a < t.len() && #[trigger] t[a] == f[i];
                assert(key_lt(s[a].0, s[n].0));
            }
        }
    }
}

/// What the merged table holds of one key.
proof fn lemma_merged_key(
    layers: Seq<Seq<Rec>>,
    mem: Map<Seq<u8>, Cell>,
    next_seq: int,
    drop_tombstones: bool,
    k: Seq<u8>,
)
    requires
        sound(layers, mem, next_seq),
    ensures
        holds_key(merged(joined(layers), drop_tombstones), k) <==> (newest(layers, k) matches Some(r)
            && !(drop_tombstones && r.kind == Kind::Tombstone)),
        holds_key(merged(joined(layers), drop_tombstones), k) ==> pick(
            merged(joined(layers), drop_tombstones),
            k,
        ) == newest(layers, k),
{
    let all = joined(layers);
    let m = kept_all(all);
    let s = in_order(m);
    lemma_kept_all_ordered(all);
    lemma_joined_newest(layers, mem, next_seq, k);
    lemma_filter(s, keeps(drop_tombstones), k);
    lemma_recs_of(survivors(s, drop_tombstones), k);
    if let Some(r) = newest(layers, k) {
        assert(rec_of((k, m[k])) =~= r);
    }
}

/// What a search of the merged table gives: the newest record of the key, but for a tombstone.
pub proof fn lemma_merged_pick(
    layers: Seq<Seq<Rec>>,
    mem: Map<Seq<u8>, Cell>,
    next_seq: int,
    k: Seq<u8>,
)
    requires
        sound(layers, mem, next_seq),
    ensures
        pick(merged(joined(layers), true), k) == match newest(layers, k) {
            Some(r) => if r.kind == Kind::Put {
                Some(r)
            } else {
                None
            },
            None => None,
        },
{
    lemma_merged_key(layers, mem, next_seq, true, k);
}

/// The merge of any records is sorted; it has one record for each key that they write, the
/// one that wins it, but for the tombstones where those are dropped.
pub proof fn merge_keeps_the_newest(s: Seq<Rec>, drop_tombstones: bool, k: Seq<u8>)
    ensures
        sorted(merged(s, drop_tombstones)),
        match pick(merged(s, drop_tombstones), k) {
            Some(r) => exists|i: int| #[trigger]
                is_winner(s, i) && s[i] == r && r.key == k && !(drop_tombstones && r.kind
                    == Kind::Tombstone),
            None => forall|i: int| #[trigger]
                is_winner(s, i) && s[i].key == k ==> drop_tombstones && s[i].kind
                    == Kind::Tombstone,
        },
{
    let m = kept_all(s);
    let e = in_order(m);
    lemma_kept_all_ordered(s);
    newer_input_wins(s, k);
    lemma_filter_order(e, keeps(drop_tombstones));
    lemma_filter(e, keeps(drop_tombstones), k);
    lemma_recs_of(survivors(e, drop_tombstones), k);
    if m.contains_key(k) {
        let i = choose|i: int| #[trigger] is_winner(s, i) && s[i].key == k && m[k] == cell(s[i]);
        assert(rec_of((k, m[k])) =~= s[i]);
        assert forall|j: int| #[trigger] is_winner(s, j) && s[j].key == k implies j == i by {
            assert(s[i].key == s[j].key);
        }
    } else {
        assert forall|i: int| #[trigger] is_winner(s, i) implies s[i].key != k by {
            assert(0 <= i < s.len());
        }
    }
}

/// The merged table is in order, and takes the place of the tables that it was made of.
proof fn lemma_merged_layer(
    layers: Seq<Seq<Rec>>,
    mem: Map<Seq<u8>, Cell>,
    next_seq: int,
    drop_tombstones: bool,
)
    requires
        sound(layers, mem, next_seq),
    ensures
        layer_ok(merged(joined(layers), drop_tombstones), next_seq),
        under_mem(merged(joined(layers), drop_tombstones), mem),
{
    let one = merged(joined(layers), drop_tombstones);
    merge_keeps_the_newest(joined(layers), drop_tombstones, Seq::empty());
    assert forall|j: int| 0 <= j < one.len() implies fits(#[trigger] one[j]) && one[j].seq < next_seq by {
        let k = one[j].key;
        lemma_pick(one, j);
        assert(holds_key(one, k));
        lemma_merged_key(layers, mem, next_seq, drop_tombstones, k);
        let i = lemma_newest_source(layers, k);
        let a = lemma_pick_is_in(layers[i], k);
        assert(layer_ok(layers[i], next_seq));
        assert(fits(layers[i][a]));
    }
    assert forall|k: Seq<u8>| #[trigger]
        holds_key(one, k) && mem.contains_key(k) implies no_newer(
        pick(one, k)->0,
        rec_of((k, mem[k])),
    ) by {
        lemma_merged_key(layers, mem, next_seq, drop_tombstones, k);
        let i = lemma_newest_source(layers, k);
        assert(under_mem(layers[i], mem));
    }
}

/// Merging all tables changes nothing: the merged table alone, in place of all of them, shows
/// the same, though overwritten values, deleted keys and their tombstones are gone.
pub proof fn merge_keeps_values(
    layers: Seq<Seq<Rec>>,
    mem: Map<Seq<u8>, Cell>,
    next_seq: int,
)
    requires
        sound(layers, mem, next_seq),
    ensures
        ({
            let one = merged(joined(layers), true);
            &&& sound(seq![one], mem, next_seq)
            &&& forall|k: Seq<u8>| #[trigger] value(seq![one], mem, k) == value(layers, mem, k)
            &&& forall|k: Seq<u8>| #[trigger]
                holds_key(one, k) <==> (newest(layers, k) matches Some(r) && r.kind == Kind::Put)
        }),
{
    let one = merged(joined(layers), true);
    lemma_merged_layer(layers, mem, next_seq, true);
    assert forall|k: Seq<u8>| #[trigger]
        holds_key(one, k) <==> (newest(layers, k) matches Some(r) && r.kind == Kind::Put) by {
        lemma_merged_key(layers, mem, next_seq, true, k);
    }
    let stack = seq![one];
    assert(stack.drop_last() =~= Seq::empty());
    assert forall|k: Seq<u8>| #[trigger] value(stack, mem, k) == value(layers, mem, k) by {
        lemma_merged_key(layers, mem, next_seq, true, k);
        assert(newest(stack.drop_last(), k) is None);
    }
}

/// The newest record of a key is in the upper tables, if they hold one, else in the lower ones.
proof fn lemma_newest_join(lower: Seq<Seq<Rec>>, upper: Seq<Seq<Rec>>, k: Seq<u8>)
    ensures
        newest(lower + upper, k) == if newest(upper, k) is Some {
            newest(upper, k)
        } else {
            newest(lower, k)
        },
    decreases upper.len(),
{
    if upper.len() == 0 {
        assert(lower + upper =~= lower);
    } else {
        lemma_newest_join(lower, upper.drop_last(), k);
        assert((lower + upper).drop_last() =~= lower + upper.drop_last());
        if holds_key(upper.last(), k) {
            lemma_pick_is_in(upper.last(), k);
        }
    }
}

/// Merging only the newer tables changes nothing either, as long as tombstones are kept: they
/// go on hiding what the older tables say.
pub proof fn partial_merge_keeps_values(
    lower: Seq<Seq<Rec>>,
    upper: Seq<Seq<Rec>>,
    mem: Map<Seq<u8>, Cell>,
    next_seq: int,
)
    requires
        sound(lower + upper, mem, next_seq),
    ensures
        ({
            let one = merged(joined(upper), false);
            &&& sound(lower.push(one), mem, next_seq)
            &&& forall|k: Seq<u8>| #[trigger]
                value(lower.push(one), mem, k) == value(lower + upper, mem, k)
        }),
{
    let all = lower + upper;
    let n = lower.len() as int;
    let one = merged(joined(upper), false);
    let new = lower.push(one);
    assert forall|i: int| 0 <= i < upper.len() implies layer_ok(#[trigger] upper[i], next_seq)
        && under_mem(upper[i], mem) by {
        assert(all[n + i] == upper[i]);
    }
    assert forall|i: int, j: int| 0 <= i < j < upper.len() implies under(
        #[trigger] upper[i],
        #[trigger] upper[j],
    ) by {
        assert(all[n + i] == upper[i] && all[n + j] == upper[j]);
    }
    assert(sound(upper, mem, next_seq));
    lemma_merged_layer(upper, mem, next_seq, false);
    assert forall|i: int| 0 <= i < new.len() implies layer_ok(#[trigger] new[i], next_seq)
        && under_mem(new[i], mem) by {
        if i < n {
            assert(all[i] == new[i]);
        }
    }
    assert forall|i: int, j: int| 0 <= i < j < new.len() implies under(
        #[trigger] new[i],
        #[trigger] new[j],
    ) by {
        assert(all[i] == new[i]);
        if j < n {
            assert(all[j] == new[j]);
        } else {
            assert forall|k: Seq<u8>| #[trigger]
                holds_key(new[i], k) && holds_key(new[j], k) implies no_newer(
                pick(new[i], k)->0,
                pick(new[j], k)->0,
            ) by {
                lemma_merged_key(upper, mem, next_seq, false, k);
                let a = lemma_newest_source(upper, k);
                assert(all[n + a] == upper[a]);
                assert(under(all[i], all[n + a]));
            }
        }
    }
    assert(new.drop_last() =~= lower);
    assert forall|k: Seq<u8>| #[trigger] value(new, mem, k) == value(all, mem, k) by {
        lemma_merged_key(upper, mem, next_seq, false, k);
        lemma_newest_join(lower, upper, k);
    }
}

} // verus!
