//! What holds of tables built from observations and merged together.

use vstd::prelude::*;

use super::hashable_buffer::{lemma_lex_irreflexive, lemma_lex_total, lemma_lex_transitive, lex_lt};
use super::models::{
    StationRecords,
    enumerates, export_chars, insert_value, keys_sorted, merge_maps, merge_seq, observe,
    sorted_entries, sum_counts, total_count, Summary,
};

verus! {

/// Merging with the empty table, on either side, changes nothing.
pub proof fn lemma_merge_identity(m: Map<Seq<u8>, Summary>)
    ensures
        merge_maps(m, Map::empty()) == m,
        merge_maps(Map::empty(), m) == m,
{
    assert(merge_maps(m, Map::empty()) =~= m);
    assert(merge_maps(Map::empty(), m) =~= m);
}

/// Combining summaries is associative.
pub proof fn lemma_combine_associative(a: Summary, b: Summary, c: Summary)
    ensures
        a.combine(b).combine(c) == a.combine(b.combine(c)),
{
}

/// Combining summaries is commutative.
pub proof fn lemma_combine_commutative(a: Summary, b: Summary)
    ensures
        a.combine(b) == b.combine(a),
{
}

/// Merging tables is associative.
pub proof fn lemma_merge_associative(a: Map<Seq<u8>, Summary>, b: Map<Seq<u8>, Summary>, c: Map<Seq<u8>, Summary>)
    ensures
        merge_maps(merge_maps(a, b), c) == merge_maps(a, merge_maps(b, c)),
{
    assert(merge_maps(merge_maps(a, b), c) =~= merge_maps(a, merge_maps(b, c)));
}

/// Merging tables is commutative.
pub proof fn lemma_merge_commutative(a: Map<Seq<u8>, Summary>, b: Map<Seq<u8>, Summary>)
    ensures
        merge_maps(a, b) == merge_maps(b, a),
{
    assert(merge_maps(a, b) =~= merge_maps(b, a));
}

/// Merging station tables, as `StationRecords::merge` does, is associative
/// and commutative, and the empty table is its identity.
pub proof fn lemma_records_merge_laws(a: StationRecords, b: StationRecords, c: StationRecords)
    ensures
        merge_maps(merge_maps(a@, b@), c@) == merge_maps(a@, merge_maps(b@, c@)),
        merge_maps(a@, b@) == merge_maps(b@, a@),
        merge_maps(a@, Map::empty()) == a@,
        merge_maps(Map::empty(), a@) == a@,
{
    lemma_merge_associative(a@, b@, c@);
    lemma_merge_commutative(a@, b@);
    lemma_merge_identity(a@);
}

/// Observing `a` then `b` gives the table of `a` merged with the table of `b`:
/// observations can be shared out among workers and their tables merged.
pub proof fn lemma_observe_split(a: Seq<(Seq<u8>, int)>, b: Seq<(Seq<u8>, int)>)
    ensures
        observe(Map::empty(), a + b) == merge_maps(observe(Map::empty(), a), observe(Map::empty(), b)),
    decreases b.len(),
{
    let ta = observe(Map::empty(), a);
    if b.len() == 0 {
        assert(a + b =~= a);
        assert(observe(Map::empty(), b) == Map::<Seq<u8>, Summary>::empty());
        lemma_merge_identity(ta);
    } else {
        let b_init = b.drop_last();
        let x = b.last();
        lemma_observe_split(a, b_init);
        assert((a + b).drop_last() =~= a + b_init);
        assert((a + b).last() == x);
        let tb2 = observe(Map::empty(), b_init);
        assert(insert_value(merge_maps(ta, tb2), x.0, x.1) =~= merge_maps(ta, insert_value(tb2, x.0, x.1)));
    }
}

/// The values observed for station `k`, in order.
pub open spec fn values_of(obs: Seq<(Seq<u8>, int)>, k: Seq<u8>) -> Seq<int>
    decreases obs.len(),
{
    if obs.len() == 0 {
        Seq::empty()
    } else if obs.last().0 == k {
        values_of(obs.drop_last(), k).push(obs.last().1)
    } else {
        values_of(obs.drop_last(), k)
    }
}

/// The sum of a sequence of values.
pub open spec fn seq_sum(v: Seq<int>) -> int
    decreases v.len(),
{
    if v.len() == 0 { 0 } else { seq_sum(v.drop_last()) + v.last() }
}

/// A station is in the table exactly when it was observed; its count is the
/// number of its observations, its sum their sum, and its minimum and maximum
/// the least and the greatest of them.
pub proof fn lemma_station_stats(obs: Seq<(Seq<u8>, int)>, k: Seq<u8>)
    ensures
        observe(Map::empty(), obs).contains_key(k) <==> values_of(obs, k).len() > 0,
        values_of(obs, k).len() > 0 ==> ({
            let s = observe(Map::empty(), obs)[k];
            let v = values_of(obs, k);
            &&& s.count == v.len()
            &&& s.sum == seq_sum(v)
            &&& forall|i: int| 0 <= i < v.len() ==> s.min <= #[trigger] v[i] <= s.max
            &&& exists|i: int| 0 <= i < v.len() && v[i] == s.min
            &&& exists|i: int| 0 <= i < v.len() && v[i] == s.max
        }),
    decreases obs.len(),
{
    if obs.len() > 0 {
        let prev = obs.drop_last();
        lemma_station_stats(prev, k);
        let x = obs.last();
        if x.0 == k {
            let pv = values_of(prev, k);
            let v = values_of(obs, k);
            assert(v == pv.push(x.1));
            let m = observe(Map::empty(), prev);
            let s = observe(Map::empty(), obs)[k];
            if pv.len() > 0 {
                let ps = m[k];
                assert(s == ps.extend(x.1));
                assert forall|i: int| 0 <= i < v.len() implies s.min <= #[trigger] v[i] <= s.max by {
                    if i < pv.len() {
                        assert(v[i] == pv[i]);
                    }
                }
                if s.min == x.1 {
                    assert(v[v.len() - 1] == s.min);
                } else {
                    let i = choose|i: int| 0 <= i < pv.len() && pv[i] == ps.min;
                    assert(v[i] == s.min);
                }
                if s.max == x.1 {
                    assert(v[v.len() - 1] == s.max);
                } else {
                    let i = choose|i: int| 0 <= i < pv.len() && pv[i] == ps.max;
                    assert(v[i] == s.max);
                }
                assert(v.drop_last() =~= pv);
                assert(s.count == v.len());
                assert(s.sum == seq_sum(v));
            } else {
                assert(!m.contains_key(k));
                assert(s == Summary::single(x.1));
                assert(v[0] == x.1);
                assert(v.drop_last() =~= pv);
                assert(pv =~= Seq::<int>::empty());
                assert(seq_sum(v) == seq_sum(pv) + x.1);
                assert(s.sum == seq_sum(v));
                assert(v[0] == s.min && v[0] == s.max);
            }
        } else {
            let m = observe(Map::empty(), prev);
            assert(observe(Map::empty(), obs) == insert_value(m, x.0, x.1));
            assert(observe(Map::empty(), obs).contains_key(k) == m.contains_key(k));
            if m.contains_key(k) {
                assert(observe(Map::empty(), obs)[k] == m[k]);
            }
            assert(values_of(obs, k) == values_of(prev, k));
        }
    }
}

/// The observations of a sequence of frames, one frame after another.
pub open spec fn flatten_obs(fs: Seq<Seq<(Seq<u8>, int)>>) -> Seq<(Seq<u8>, int)>
    decreases fs.len(),
{
    if fs.len() == 0 {
        Seq::empty()
    } else {
        flatten_obs(fs.drop_last()) + fs.last()
    }
}

/// The frames that worker `w` took, in the order they came, where frame `i`
/// went to worker `owner[i]`.
pub open spec fn frames_of(fs: Seq<Seq<(Seq<u8>, int)>>, owner: Seq<nat>, w: nat) -> Seq<Seq<(Seq<u8>, int)>>
    decreases fs.len(),
{
    if fs.len() == 0 || owner.len() == 0 {
        Seq::empty()
    } else if owner.last() == w {
        frames_of(fs.drop_last(), owner.drop_last(), w).push(fs.last())
    } else {
        frames_of(fs.drop_last(), owner.drop_last(), w)
    }
}

/// The tables of `n` workers, each built from the frames it took.
pub open spec fn worker_tables(fs: Seq<Seq<(Seq<u8>, int)>>, owner: Seq<nat>, n: nat) -> Seq<Map<Seq<u8>, Summary>> {
    Seq::new(n, |w: int| observe(Map::empty(), flatten_obs(frames_of(fs, owner, w as nat))))
}

proof fn lemma_merge_seq_empties(ts: Seq<Map<Seq<u8>, Summary>>)
    requires
        forall|i: int| 0 <= i < ts.len() ==> ts[i] == Map::<Seq<u8>, Summary>::empty(),
    ensures
        merge_seq(ts) == Map::<Seq<u8>, Summary>::empty(),
    decreases ts.len(),
{
    if ts.len() > 0 {
        lemma_merge_seq_empties(ts.drop_last());
        lemma_merge_identity(Map::empty());
    }
}

/// Merging one more table into one of the tables merges it into the whole.
proof fn lemma_merge_seq_update(ts: Seq<Map<Seq<u8>, Summary>>, o: int, t: Map<Seq<u8>, Summary>)
    requires
        0 <= o < ts.len(),
    ensures
        merge_seq(ts.update(o, merge_maps(ts[o], t))) == merge_maps(merge_seq(ts), t),
    decreases ts.len(),
{
    let us = ts.update(o, merge_maps(ts[o], t));
    let d = ts.drop_last();
    assert(us.drop_last() =~= if o == ts.len() - 1 { d } else { d.update(o, merge_maps(ts[o], t)) });
    if o == ts.len() - 1 {
        lemma_merge_associative(merge_seq(d), ts[o], t);
    } else {
        lemma_merge_seq_update(d, o, t);
        lemma_merge_associative(merge_seq(d), t, ts.last());
        lemma_merge_commutative(t, ts.last());
        lemma_merge_associative(merge_seq(d), ts.last(), t);
    }
}

/// However the frames are shared out among workers, merging the workers'
/// tables gives the table of all observations in the order of the input.
pub proof fn lemma_workers_merge_to_whole(fs: Seq<Seq<(Seq<u8>, int)>>, owner: Seq<nat>, n: nat)
    requires
        owner.len() == fs.len(),
        forall|i: int| 0 <= i < owner.len() ==> owner[i] < n,
    ensures
        merge_seq(worker_tables(fs, owner, n)) == observe(Map::empty(), flatten_obs(fs)),
    decreases fs.len(),
{
    let ts = worker_tables(fs, owner, n);
    if fs.len() == 0 {
        assert forall|i: int| 0 <= i < ts.len() implies ts[i] == Map::<Seq<u8>, Summary>::empty() by {
            assert(frames_of(fs, owner, i as nat) =~= Seq::<Seq<(Seq<u8>, int)>>::empty());
            assert(flatten_obs(frames_of(fs, owner, i as nat)) =~= Seq::<(Seq<u8>, int)>::empty());
        }
        lemma_merge_seq_empties(ts);
    } else {
        let earlier = fs.drop_last();
        let earlier_owner = owner.drop_last();
        let f = fs.last();
        let o = owner.last();
        lemma_workers_merge_to_whole(earlier, earlier_owner, n);
        let earlier_tables = worker_tables(earlier, earlier_owner, n);
        let tf = observe(Map::empty(), f);
        let mine = flatten_obs(frames_of(earlier, earlier_owner, o));
        assert(frames_of(fs, owner, o).drop_last() =~= frames_of(earlier, earlier_owner, o));
        assert(flatten_obs(frames_of(fs, owner, o)) == mine + f);
        lemma_observe_split(mine, f);
        assert(ts =~= earlier_tables.update(o as int, merge_maps(earlier_tables[o as int], tf)));
        lemma_merge_seq_update(earlier_tables, o as int, tf);
        lemma_observe_split(flatten_obs(earlier), f);
    }
}

/// Two runs on the same frames, shared out among any numbers of workers in
/// any way, export the same text.
pub proof fn lemma_output_independent_of_workers(
    fs: Seq<Seq<(Seq<u8>, int)>>,
    owner1: Seq<nat>,
    n1: nat,
    owner2: Seq<nat>,
    n2: nat,
)
    requires
        owner1.len() == fs.len(),
        owner2.len() == fs.len(),
        forall|i: int| 0 <= i < fs.len() ==> owner1[i] < n1,
        forall|i: int| 0 <= i < fs.len() ==> owner2[i] < n2,
    ensures
        merge_seq(worker_tables(fs, owner1, n1)) == merge_seq(worker_tables(fs, owner2, n2)),
        export_chars(merge_seq(worker_tables(fs, owner1, n1))) == export_chars(
            merge_seq(worker_tables(fs, owner2, n2)),
        ),
{
    lemma_workers_merge_to_whole(fs, owner1, n1);
    lemma_workers_merge_to_whole(fs, owner2, n2);
}

proof fn lemma_sum_counts_update(s: Seq<(Seq<u8>, Summary)>, i: int, e: (Seq<u8>, Summary))
    requires
        0 <= i < s.len(),
    ensures
        sum_counts(s.update(i, e)) == sum_counts(s) - s[i].1.count + e.1.count,
    decreases s.len(),
{
    if i == s.len() - 1 {
        assert(s.update(i, e).drop_last() =~= s.drop_last());
    } else {
        lemma_sum_counts_update(s.drop_last(), i, e);
        assert(s.update(i, e).drop_last() =~= s.drop_last().update(i, e));
    }
}

proof fn lemma_sum_counts_remove(s: Seq<(Seq<u8>, Summary)>, i: int)
    requires
        0 <= i < s.len(),
    ensures
        sum_counts(s.remove(i)) == sum_counts(s) - s[i].1.count,
    decreases s.len(),
{
    if i == s.len() - 1 {
        assert(s.remove(i) =~= s.drop_last());
    } else {
        lemma_sum_counts_remove(s.drop_last(), i);
        assert(s.remove(i).drop_last() =~= s.drop_last().remove(i));
    }
}

/// Taken over all stations of the table built from `obs`, in any order, the
/// counts add up to the number of observations.
pub proof fn lemma_count_conservation(obs: Seq<(Seq<u8>, int)>, s: Seq<(Seq<u8>, Summary)>)
    requires
        forall|i: int, j: int| 0 <= i < j < s.len() ==> s[i].0 != s[j].0,
        enumerates(s, observe(Map::empty(), obs)),
    ensures
        sum_counts(s) == obs.len(),
    decreases obs.len(),
{
    if obs.len() == 0 {
        if s.len() > 0 {
            assert(observe(Map::empty(), obs).contains_key(s[0].0));
        }
    } else {
        let prev = obs.drop_last();
        let (k, v) = obs.last();
        let m = observe(Map::empty(), prev);
        let m2 = observe(Map::empty(), obs);
        assert(m2 == insert_value(m, k, v));
        assert(m2.contains_key(k));
        let i = choose|i: int| 0 <= i < s.len() && #[trigger] s[i].0 == k;
        if m.contains_key(k) {
            let shorter = s.update(i, (k, m[k]));
            assert forall|a: int, b: int| 0 <= a < b < shorter.len() implies shorter[a].0 != shorter[b].0 by {
                assert(shorter[a].0 == s[a].0 && shorter[b].0 == s[b].0);
            }
            assert forall|j: int| 0 <= j < shorter.len() implies m.contains_key(#[trigger] shorter[j].0) && m[shorter[j].0] == shorter[j].1 by {
                if j != i {
                    assert(shorter[j] == s[j]);
                    assert(s[j].0 != k);
                    assert(m2.contains_key(s[j].0));
                }
            }
            assert forall|q: Seq<u8>| m.contains_key(q) implies exists|j: int| 0 <= j < shorter.len() && #[trigger] shorter[j].0 == q by {
                assert(m2.contains_key(q));
                let j = choose|j: int| 0 <= j < s.len() && #[trigger] s[j].0 == q;
                assert(shorter[j].0 == q);
            }
            lemma_sum_counts_update(s, i, (k, m[k]));
            assert(s.update(i, (k, m[k])).update(i, s[i]) =~= s);
            lemma_count_conservation(prev, shorter);
        } else {
            let shorter = s.remove(i);
            assert forall|a: int, b: int| 0 <= a < b < shorter.len() implies shorter[a].0 != shorter[b].0 by {
                let a0 = if a < i { a } else { a + 1 };
                let b0 = if b < i { b } else { b + 1 };
                assert(shorter[a] == s[a0] && shorter[b] == s[b0]);
            }
            assert forall|j: int| 0 <= j < shorter.len() implies m.contains_key(#[trigger] shorter[j].0) && m[shorter[j].0] == shorter[j].1 by {
                let j0 = if j < i { j } else { j + 1 };
                assert(shorter[j] == s[j0]);
                assert(s[j0].0 != k);
                assert(m2.contains_key(s[j0].0));
            }
            assert forall|q: Seq<u8>| m.contains_key(q) implies exists|j: int| 0 <= j < shorter.len() && #[trigger] shorter[j].0 == q by {
                assert(m2.contains_key(q));
                let j = choose|j: int| 0 <= j < s.len() && #[trigger] s[j].0 == q;
                assert(j != i);
                if j < i {
                    assert(shorter[j].0 == q);
                } else {
                    assert(shorter[j - 1].0 == q);
                }
            }
            lemma_sum_counts_remove(s, i);
            lemma_count_conservation(prev, shorter);
        }
    }
}

/// `s` with `e` put in its place in byte order of the keys.
pub open spec fn insert_entry(s: Seq<(Seq<u8>, Summary)>, e: (Seq<u8>, Summary)) -> Seq<(Seq<u8>, Summary)>
    decreases s.len(),
{
    if s.len() == 0 {
        seq![e]
    } else if lex_lt(e.0, s[0].0) {
        seq![e] + s
    } else {
        seq![s[0]] + insert_entry(s.drop_first(), e)
    }
}

proof fn lemma_insert_entry(s: Seq<(Seq<u8>, Summary)>, e: (Seq<u8>, Summary))
    requires
        keys_sorted(s),
        forall|j: int| 0 <= j < s.len() ==> s[j].0 != e.0,
    ensures
        keys_sorted(insert_entry(s, e)),
        insert_entry(s, e).len() == s.len() + 1,
        forall|x: (Seq<u8>, Summary)| #[trigger] insert_entry(s, e).contains(x) <==> (x == e || s.contains(x)),
    decreases s.len(),
{
    let r = insert_entry(s, e);
    if s.len() == 0 {
        assert forall|x: (Seq<u8>, Summary)| #[trigger] r.contains(x) <==> (x == e || s.contains(x)) by {
            if r.contains(x) {
                let j = choose|j: int| 0 <= j < r.len() && r[j] == x;
            }
            if x == e {
                assert(r[0] == x);
            }
        }
    } else if lex_lt(e.0, s[0].0) {
        assert forall|i: int, j: int| 0 <= i < j < r.len() implies lex_lt(#[trigger] r[i].0, #[trigger] r[j].0) by {
            if i == 0 {
                assert(r[j] == s[j - 1]);
                if j - 1 > 0 {
                    assert(lex_lt(s[0].0, s[j - 1].0));
                    lemma_lex_transitive(e.0, s[0].0, s[j - 1].0);
                }
            } else {
                assert(r[i] == s[i - 1] && r[j] == s[j - 1]);
            }
        }
        assert forall|x: (Seq<u8>, Summary)| #[trigger] r.contains(x) <==> (x == e || s.contains(x)) by {
            if r.contains(x) {
                let j = choose|j: int| 0 <= j < r.len() && r[j] == x;
                if j > 0 {
                    assert(s[j - 1] == x);
                }
            }
            if x == e {
                assert(r[0] == x);
            }
            if s.contains(x) {
                let j = choose|j: int| 0 <= j < s.len() && s[j] == x;
                assert(r[j + 1] == x);
            }
        }
    } else {
        let t = s.drop_first();
        assert forall|j: int| 0 <= j < t.len() implies t[j].0 != e.0 by {
            assert(t[j] == s[j + 1]);
        }
        assert(keys_sorted(t)) by {
            assert forall|i: int, j: int| 0 <= i < j < t.len() implies lex_lt(#[trigger] t[i].0, #[trigger] t[j].0) by {
                assert(t[i] == s[i + 1] && t[j] == s[j + 1]);
            }
        }
        lemma_insert_entry(t, e);
        let rt = insert_entry(t, e);
        assert(s[0].0 != e.0);
        lemma_lex_total(s[0].0, e.0);
        assert(lex_lt(s[0].0, e.0));
        assert forall|j: int| 0 <= j < rt.len() implies lex_lt(s[0].0, #[trigger] rt[j].0) by {
            assert(rt.contains(rt[j]));
            if rt[j] != e {
                assert(t.contains(rt[j]));
                let q = choose|q: int| 0 <= q < t.len() && t[q] == rt[j];
                assert(s[q + 1] == rt[j]);
            }
        }
        assert forall|i: int, j: int| 0 <= i < j < r.len() implies lex_lt(#[trigger] r[i].0, #[trigger] r[j].0) by {
            if i == 0 {
                assert(r[j] == rt[j - 1]);
            } else {
                assert(r[i] == rt[i - 1] && r[j] == rt[j - 1]);
            }
        }
        assert forall|x: (Seq<u8>, Summary)| #[trigger] r.contains(x) <==> (x == e || s.contains(x)) by {
            if r.contains(x) {
                let j = choose|j: int| 0 <= j < r.len() && r[j] == x;
                if j > 0 {
                    assert(rt.contains(rt[j - 1]));
                    if x != e {
                        assert(t.contains(x));
                        let q = choose|q: int| 0 <= q < t.len() && t[q] == x;
                        assert(s[q + 1] == x);
                    }
                } else {
                    assert(s[0] == x);
                }
            }
            if x == e {
                assert(rt.contains(e));
                let j = choose|j: int| 0 <= j < rt.len() && rt[j] == e;
                assert(r[j + 1] == x);
            }
            if s.contains(x) {
                let j = choose|j: int| 0 <= j < s.len() && s[j] == x;
                if j == 0 {
                    assert(r[0] == x);
                } else {
                    assert(t[j - 1] == x);
                    assert(t.contains(x));
                    assert(rt.contains(x));
                    let q = choose|q: int| 0 <= q < rt.len() && rt[q] == x;
                    assert(r[q + 1] == x);
                }
            }
        }
    }
}

/// A sorted enumeration of the table built from `obs`.
proof fn lemma_sorted_witness(obs: Seq<(Seq<u8>, int)>) -> (s: Seq<(Seq<u8>, Summary)>)
    ensures
        keys_sorted(s),
        enumerates(s, observe(Map::empty(), obs)),
    decreases obs.len(),
{
    if obs.len() == 0 {
        Seq::empty()
    } else {
        let prev = obs.drop_last();
        let (k, v) = obs.last();
        let s = lemma_sorted_witness(prev);
        let m = observe(Map::empty(), prev);
        let m2 = observe(Map::empty(), obs);
        assert(m2 == insert_value(m, k, v));
        if m.contains_key(k) {
            let i = choose|i: int| 0 <= i < s.len() && #[trigger] s[i].0 == k;
            let shorter = s.update(i, (k, m2[k]));
            assert forall|a: int, b: int| 0 <= a < b < shorter.len() implies lex_lt(#[trigger] shorter[a].0, #[trigger] shorter[b].0) by {
                assert(shorter[a].0 == s[a].0 && shorter[b].0 == s[b].0);
            }
            assert forall|j: int| 0 <= j < shorter.len() implies m2.contains_key(#[trigger] shorter[j].0) && m2[shorter[j].0] == shorter[j].1 by {
                if j != i {
                    assert(shorter[j] == s[j]);
                    if s[j].0 == k {
                        assert(lex_lt(s[if j < i { j } else { i }].0, s[if j < i { i } else { j }].0));
                        lemma_lex_irreflexive(k);
                    }
                }
            }
            assert forall|q: Seq<u8>| m2.contains_key(q) implies exists|j: int| 0 <= j < shorter.len() && #[trigger] shorter[j].0 == q by {
                let j = choose|j: int| 0 <= j < s.len() && #[trigger] s[j].0 == q;
                assert(shorter[j].0 == q);
            }
            shorter
        } else {
            let e = (k, m2[k]);
            assert forall|j: int| 0 <= j < s.len() implies s[j].0 != e.0 by {
                assert(m.contains_key(s[j].0));
            }
            lemma_insert_entry(s, e);
            let shorter = insert_entry(s, e);
            assert forall|j: int| 0 <= j < shorter.len() implies m2.contains_key(#[trigger] shorter[j].0) && m2[shorter[j].0] == shorter[j].1 by {
                assert(shorter.contains(shorter[j]));
                if shorter[j] != e {
                    assert(s.contains(shorter[j]));
                    let q = choose|q: int| 0 <= q < s.len() && s[q] == shorter[j];
                    assert(m.contains_key(s[q].0));
                }
            }
            assert forall|q: Seq<u8>| m2.contains_key(q) implies exists|j: int| 0 <= j < shorter.len() && #[trigger] shorter[j].0 == q by {
                if q == k {
                    assert(shorter.contains(e));
                    let j = choose|j: int| 0 <= j < shorter.len() && shorter[j] == e;
                    assert(shorter[j].0 == q);
                } else {
                    let j = choose|j: int| 0 <= j < s.len() && #[trigger] s[j].0 == q;
                    assert(s.contains(s[j]));
                    assert(shorter.contains(s[j]));
                    let j2 = choose|j2: int| 0 <= j2 < shorter.len() && shorter[j2] == s[j];
                    assert(shorter[j2].0 == q);
                }
            }
            shorter
        }
    }
}

/// The number of observations a table built from `obs` holds, the sum of the
/// counts of all its stations, is the number of observations in `obs`.
pub proof fn lemma_total_count(obs: Seq<(Seq<u8>, int)>)
    ensures
        total_count(observe(Map::empty(), obs)) == obs.len(),
{
    let m = observe(Map::empty(), obs);
    let w = lemma_sorted_witness(obs);
    assert(keys_sorted(w) && enumerates(w, m));
    let s = sorted_entries(m);
    assert(keys_sorted(s) && enumerates(s, m));
    assert forall|i: int, j: int| 0 <= i < j < s.len() implies s[i].0 != s[j].0 by {
        assert(lex_lt(s[i].0, s[j].0));
        if s[i].0 == s[j].0 {
            lemma_lex_irreflexive(s[i].0);
        }
    }
    lemma_count_conservation(obs, s);
}

} // verus!
