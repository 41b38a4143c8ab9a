//! Compaction: merge several tables into one, keeping only the newest version of each key
//! and, where that is safe, dropping tombstones.

use vstd::prelude::*;

use crate::bytes::key_lt;
use crate::keymap::{in_order, KeyMap};
use crate::layers::merge_keeps_the_newest;
use crate::memtable::{cell, Cell, Entry};
use crate::record::{recs, Kind, Rec, Record};
use crate::sstable::{lemma_pick, pick};

verus! {

/// The records of all inputs, one input after the other.
pub open spec fn joined(inputs: Seq<Seq<Rec>>) -> Seq<Rec>
    decreases inputs.len(),
{
    if inputs.len() == 0 {
        Seq::empty()
    } else {
        joined(inputs.drop_last()) + inputs.last()
    }
}

/// The values of the inputs of a merge.
pub open spec fn input_recs(inputs: Seq<Vec<Record>>) -> Seq<Seq<Rec>> {
    inputs.map_values(|input: Vec<Record>| recs(input@))
}

/// `m` after the record `r` of an input that is no older than those before it: the record that
/// is held of the key stays only if its sequence number is higher.
pub open spec fn kept(m: Map<Seq<u8>, Cell>, r: Rec) -> Map<Seq<u8>, Cell> {
    if m.contains_key(r.key) && m[r.key].seq > r.seq {
        m
    } else {
        m.insert(r.key, cell(r))
    }
}

/// What is held after the records `s`, one after the other.
pub open spec fn kept_all(s: Seq<Rec>) -> Map<Seq<u8>, Cell>
    decreases s.len(),
{
    if s.len() == 0 {
        Map::empty()
    } else {
        kept(kept_all(s.drop_last()), s.last())
    }
}

/// Of the records `s`, the one at `i` wins its key: it has the highest sequence number, and no
/// later record of the key has the same.
pub open spec fn is_winner(s: Seq<Rec>, i: int) -> bool {
    &&& 0 <= i < s.len()
    &&& forall|j: int|
        0 <= j < s.len() && #[trigger] s[j].key == s[i].key ==> s[j].seq < s[i].seq || (s[j].seq
            == s[i].seq && j <= i)
}

/// After any records, each key that they write is held with the record that wins it: the one
/// with the highest sequence number, and of several such the one of the newest input. No other
/// key is held.
pub proof fn newer_input_wins(s: Seq<Rec>, k: Seq<u8>)
    ensures
        kept_all(s).contains_key(k) <==> exists|i: int| 0 <= i < s.len() && #[trigger] s[i].key == k,
        kept_all(s).contains_key(k) ==> exists|i: int| #[trigger]
            is_winner(s, i) && s[i].key == k && kept_all(s)[k] == cell(s[i]),
    decreases s.len(),
{
    if s.len() > 0 {
        let t = s.drop_last();
        let n = s.len() - 1;
        let m = kept_all(t);
        newer_input_wins(t, k);
        assert(forall|i: int| 0 <= i < n ==> t[i] == s[i]);
        if m.contains_key(k) {
            let j = choose|j: int| 0 <= j < t.len() && #[trigger] t[j].key == k;
            assert(s[j].key == k);
            let i = choose|i: int| #[trigger] is_winner(t, i) && t[i].key == k && m[k] == cell(t[i]);
            if s[n].key == k && m[k].seq <= s[n].seq {
                assert forall|j: int| 0 <= j < s.len() && #[trigger] s[j].key == s[n].key implies s[j].seq
                    < s[n].seq || (s[j].seq == s[n].seq && j <= n) by {
                    if j < n {
                        assert(t[j].key == k);
                    }
                }
                assert(is_winner(s, n));
            } else {
                assert(is_winner(s, i));
            }
        } else {
            assert forall|j: int| 0 <= j < n implies #[trigger] s[j].key != k by {
                assert(t[j].key != k);
            }
            if s[n].key == k {
                assert(is_winner(s, n));
            }
        }
    }
}

/// The record that an entry stands for.
pub open spec fn rec_of(e: (Seq<u8>, Cell)) -> Rec {
    Rec { seq: e.1.seq, kind: e.1.kind, key: e.0, value: e.1.value }
}

/// The records of the entries `s`.
pub open spec fn recs_of(s: Seq<(Seq<u8>, Cell)>) -> Seq<Rec> {
    s.map_values(|e: (Seq<u8>, Cell)| rec_of(e))
}

/// Whether an entry stays when tombstones are, or are not, to be dropped.
pub open spec fn keeps(drop_tombstones: bool) -> spec_fn((Seq<u8>, Cell)) -> bool {
    |e: (Seq<u8>, Cell)| !(drop_tombstones && e.1.kind == Kind::Tombstone)
}

/// The entries of `s`, without the tombstones if they are to be dropped.
pub open spec fn survivors(s: Seq<(Seq<u8>, Cell)>, drop_tombstones: bool) -> Seq<
    (Seq<u8>, Cell),
> {
    s.filter(keeps(drop_tombstones))
}

/// The merge of the records `s`: of each key the record that wins it, in key order, without
/// the tombstones if they are to be dropped.
pub open spec fn merged(s: Seq<Rec>, drop_tombstones: bool) -> Seq<Rec> {
    recs_of(survivors(in_order(kept_all(s)), drop_tombstones))
}

/// Takes `rec` into `winners` unless a record of its key is there that is newer.
fn keep_newest(winners: &mut KeyMap<Entry>, rec: Record)
    requires
        old(winners).wf(),
    ensures
        final(winners).wf(),
        final(winners)@ == kept(old(winners)@, rec@),
{
    if let Some(existing) = winners.get(rec.key.as_slice()) {
        if existing.seq > rec.seq {
            return ;
        }
    }
    winners.insert(rec.key, Entry { seq: rec.seq, kind: rec.kind, value: rec.value });
}

/// Merges the records of `inputs`, which stand oldest first, into one sorted run. Where two
/// records share a key and a sequence number, the one of the newer input wins.
pub fn merge(inputs: Vec<Vec<Record>>, drop_tombstones: bool) -> (out: Vec<Record>)
    ensures
        recs(out@) == merged(joined(input_recs(inputs@)), drop_tombstones),
{
    let mut winners: KeyMap<Entry> = KeyMap::new();
    let ghost all = input_recs(inputs@);
    for input in it: inputs
        invariant
            winners.wf(),
            all == input_recs(it.seq()),
            winners@ == kept_all(joined(all.take(it.index()))),
    {
        let ghost done = joined(all.take(it.index()));
        let ghost mine = recs(input@);
        assert(mine == all[it.index()]);
        for rec in inner: input
            invariant
                winners.wf(),
                mine == recs(inner.seq()),
                winners@ == kept_all(done + mine.take(inner.index())),
        {
            proof {
                let s = done + mine.take(inner.index() + 1);
                assert(s.drop_last() =~= done + mine.take(inner.index()));
                assert(s.last() == rec@);
            }
            keep_newest(&mut winners, rec);
        }
        proof {
            assert(mine.take(mine.len() as int) =~= mine);
            let s = all.take(it.index() + 1);
            assert(s.drop_last() =~= all.take(it.index()));
        }
    }
    assert(all.take(all.len() as int) =~= all);
    let ghost pairs = in_order(winners@);
    let ghost keep = keeps(drop_tombstones);
    let entries = winners.into_entries();
    let mut out: Vec<Record> = Vec::new();
    for e in it: entries
        invariant
            pairs == it.seq().map_values(|e: (Vec<u8>, Entry)| (e.0@, e.1@)),
            keep == keeps(drop_tombstones),
            recs(out@) == recs_of(pairs.take(it.index()).filter(keep)),
    {
        let ghost s = pairs.take(it.index() + 1);
        proof {
            assert(s.drop_last() =~= pairs.take(it.index()));
            assert(s.last() == (e.0@, e.1@));
            reveal(Seq::filter);
        }
        if !(drop_tombstones && e.1.kind == Kind::Tombstone) {
            let record = Record { seq: e.1.seq, kind: e.1.kind, key: e.0, value: e.1.value };
            let ghost before = out@;
            out.push(record);
            proof {
                assert(keep(s.last()));
                assert(s.filter(keep) == s.drop_last().filter(keep).push(s.last()));
                assert(recs(out@) =~= recs(before).push(record@));
                assert(recs_of(s.filter(keep)) =~= recs_of(s.drop_last().filter(keep)).push(rec_of(s.last())));
            }
        }
    }
    assert(pairs.take(pairs.len() as int) =~= pairs);
    out
}

/// Where the record `j` of the input `i` stands among all records.
spec fn place(inputs: Seq<Seq<Rec>>, i: int, j: int) -> int {
    joined(inputs.take(i)).len() + j
}

/// More inputs have no fewer records.
proof fn lemma_joined_grows(inputs: Seq<Seq<Rec>>, a: int, i: int)
    requires
        0 <= a <= i <= inputs.len(),
    ensures
        joined(inputs.take(a)).len() <= joined(inputs.take(i)).len(),
    decreases i,
{
    if a < i {
        lemma_joined_grows(inputs, a, i - 1);
        assert(inputs.take(i).drop_last() =~= inputs.take(i - 1));
    }
}

/// Each record of each input stands in its place, and those of later inputs stand later.
proof fn lemma_place(inputs: Seq<Seq<Rec>>, i: int, j: int)
    requires
        0 <= i < inputs.len(),
        0 <= j < inputs[i].len(),
    ensures
        0 <= place(inputs, i, j) < joined(inputs.take(i + 1)).len() <= joined(inputs).len(),
        joined(inputs)[place(inputs, i, j)] == inputs[i][j],
    decreases inputs.len(),
{
    lemma_joined_grows(inputs, i + 1, inputs.len() as int);
    assert(inputs.take(inputs.len() as int) =~= inputs);
    assert(inputs.take(i + 1).drop_last() =~= inputs.take(i));
    let front = inputs.drop_last();
    if i < inputs.len() - 1 {
        lemma_place(front, i, j);
        assert(front.take(i) =~= inputs.take(i));
        assert(front[i] == inputs[i]);
    } else {
        assert(front =~= inputs.take(i));
    }
}

/// Each place is that of a record of an input.
proof fn lemma_placed(inputs: Seq<Seq<Rec>>, n: int) -> (at: (int, int))
    requires
        0 <= n < joined(inputs).len(),
    ensures
        0 <= at.0 < inputs.len(),
        0 <= at.1 < inputs[at.0].len(),
        n == place(inputs, at.0, at.1),
    decreases inputs.len(),
{
    let front = inputs.drop_last();
    if n < joined(front).len() {
        let at = lemma_placed(front, n);
        assert(front.take(at.0) =~= inputs.take(at.0));
        assert(front[at.0] == inputs[at.0]);
        at
    } else {
        assert(front =~= inputs.take(inputs.len() - 1));
        (inputs.len() - 1, n - joined(front).len())
    }
}

/// A record comes no later than another exactly when its input does, or it does in the same.
proof fn lemma_place_order(inputs: Seq<Seq<Rec>>, a: int, b: int, i: int, j: int)
    requires
        0 <= a < inputs.len(),
        0 <= b < inputs[a].len(),
        0 <= i < inputs.len(),
        0 <= j < inputs[i].len(),
    ensures
        place(inputs, a, b) <= place(inputs, i, j) <==> a < i || (a == i && b <= j),
{
    lemma_place(inputs, a, b);
    lemma_place(inputs, i, j);
    if a < i {
        lemma_joined_grows(inputs, a + 1, i);
    } else if i < a {
        lemma_joined_grows(inputs, i + 1, a);
    }
}

/// Each record that a merge gives out is one of an input: no record of the same key has a
/// higher sequence number, and none in a newer input, or later in the same one, has the same.
/// The records stand in key order, and no tombstone is among them where those are dropped.
pub proof fn a_merge_gives_out_the_newest(inputs: Seq<Seq<Rec>>, drop_tombstones: bool, x: int) -> (at:
    (int, int))
    requires
        0 <= x < merged(joined(inputs), drop_tombstones).len(),
    ensures
        ({
            let out = merged(joined(inputs), drop_tombstones);
            let r = out[x];
            &&& forall|y: int| x < y < out.len() ==> key_lt(r.key, #[trigger] out[y].key)
            &&& drop_tombstones ==> r.kind == Kind::Put
            &&& 0 <= at.0 < inputs.len()
            &&& 0 <= at.1 < inputs[at.0].len()
            &&& inputs[at.0][at.1] == r
            &&& forall|a: int, b: int|
                0 <= a < inputs.len() && 0 <= b < inputs[a].len() && #[trigger] inputs[a][b].key
                    == r.key ==> inputs[a][b].seq < r.seq || (inputs[a][b].seq == r.seq && (a < at.0
                    || (a == at.0 && b <= at.1)))
        }),
{
    let s = joined(inputs);
    let out = merged(s, drop_tombstones);
    let r = out[x];
    merge_keeps_the_newest(s, drop_tombstones, r.key);
    lemma_pick(out, x);
    let i = choose|i: int| #[trigger]
        is_winner(s, i) && s[i] == r && !(drop_tombstones && r.kind == Kind::Tombstone);
    let at = lemma_placed(inputs, i);
    lemma_place(inputs, at.0, at.1);
    assert forall|a: int, b: int|
        0 <= a < inputs.len() && 0 <= b < inputs[a].len() && #[trigger] inputs[a][b].key
            == r.key implies inputs[a][b].seq < r.seq || (inputs[a][b].seq == r.seq && (a < at.0 || (a
        == at.0 && b <= at.1))) by {
        lemma_place(inputs, a, b);
        lemma_place_order(inputs, a, b, at.0, at.1);
        assert(s[place(inputs, a, b)].key == s[i].key);
    }
    at
}

/// A merge leaves out nothing but what a newer record hides, and tombstones where those are
/// dropped.
pub proof fn a_merge_leaves_out_only_what_is_hidden(
    inputs: Seq<Seq<Rec>>,
    drop_tombstones: bool,
    i: int,
    j: int,
) -> (x: int)
    requires
        0 <= i < inputs.len(),
        0 <= j < inputs[i].len(),
        forall|a: int, b: int|
            0 <= a < inputs.len() && 0 <= b < inputs[a].len() && #[trigger] inputs[a][b].key
                == inputs[i][j].key ==> inputs[a][b].seq < inputs[i][j].seq || (inputs[a][b].seq
                == inputs[i][j].seq && (a < i || (a == i && b <= j))),
        drop_tombstones ==> inputs[i][j].kind == Kind::Put,
    ensures
        0 <= x < merged(joined(inputs), drop_tombstones).len(),
        merged(joined(inputs), drop_tombstones)[x] == inputs[i][j],
{
    let s = joined(inputs);
    let r = inputs[i][j];
    let out = merged(s, drop_tombstones);
    let n = place(inputs, i, j);
    lemma_place(inputs, i, j);
    assert forall|m: int| 0 <= m < s.len() && #[trigger] s[m].key == s[n].key implies s[m].seq
        < s[n].seq || (s[m].seq == s[n].seq && m <= n) by {
        let (a, b) = lemma_placed(inputs, m);
        lemma_place(inputs, a, b);
        lemma_place_order(inputs, a, b, i, j);
        assert(inputs[a][b].key == r.key);
    }
    assert(is_winner(s, n));
    merge_keeps_the_newest(s, drop_tombstones, r.key);
    let p = pick(out, r.key)->0;
    let m = choose|m: int| #[trigger] is_winner(s, m) && s[m] == p && p.key == r.key;
    assert(s[m].key == s[n].key);
    choose|x: int| 0 <= x < out.len() && #[trigger] out[x].key == r.key
}

/// The records of entries: one for each, with its key and what is known of it.
pub proof fn records_say_what_entries_do(s: Seq<(Seq<u8>, Cell)>)
    ensures
        recs_of(s).len() == s.len(),
        forall|i: int|
            0 <= i < s.len() ==> (#[trigger] recs_of(s)[i]).key == s[i].0 && recs_of(s)[i].seq
                == s[i].1.seq && recs_of(s)[i].kind == s[i].1.kind && recs_of(s)[i].value
                == s[i].1.value,
{
}

/// What the inputs of a merge stand for: the records of each, in order.
pub proof fn what_inputs_stand_for(inputs: Seq<Vec<Record>>)
    ensures
        input_recs(inputs).len() == inputs.len(),
        forall|i: int|
            0 <= i < inputs.len() ==> #[trigger] input_recs(inputs)[i] == recs(inputs[i]@),
{
}

} // verus!
