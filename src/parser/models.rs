//! The statistics record of one station and the table of all stations.

use vstd::prelude::*;

use std::collections::HashMap;
use std::hash::BuildHasherDefault;

use super::func::{ascii_chars, bytes_to_string, is_ascii_bytes, utf8_lossy};
use super::hashable_buffer::{
    bytes_less, lemma_lex_asymmetric, lemma_lex_irreflexive, lemma_lex_total,
    lemma_lex_transitive, lex_lt, LiteHashBuffer,
};
use super::text::{lemma_tenths_text_ascii, mean_of, push_tenths, rounded_mean, tenths_text};

verus! {

/// The smaller of two integers.
pub open spec fn min_int(a: int, b: int) -> int {
    if a <= b { a } else { b }
}

/// The larger of two integers.
pub open spec fn max_int(a: int, b: int) -> int {
    if a >= b { a } else { b }
}

/// What a statistics record means: the minimum, maximum, sum and number of
/// the scaled values it has seen, as unbounded integers.
pub struct Summary {
    pub min: int,
    pub max: int,
    pub sum: int,
    pub count: nat,
}

impl Summary {
    /// The summary of no values; it is the identity of `combine`.
    pub open spec fn identity() -> Summary {
        Summary { min: i16::MAX as int, max: i16::MIN as int, sum: 0, count: 0 }
    }

    /// The summary of one value.
    pub open spec fn single(v: int) -> Summary {
        Summary { min: v, max: v, sum: v, count: 1 }
    }

    /// The summary after one more value.
    pub open spec fn extend(self, v: int) -> Summary {
        Summary {
            min: min_int(self.min, v),
            max: max_int(self.max, v),
            sum: self.sum + v,
            count: self.count + 1,
        }
    }

    /// The summary of the values of both.
    pub open spec fn combine(self, o: Summary) -> Summary {
        Summary {
            min: min_int(self.min, o.min),
            max: max_int(self.max, o.max),
            sum: self.sum + o.sum,
            count: self.count + o.count,
        }
    }
}

/// Statistics of a single station; temperatures are scaled by ten.
#[derive(Debug, Clone, Copy, PartialEq, Eq, Structural)]
pub struct StationStats {
    pub min: i16,
    pub max: i16,
    pub sum: i32,
    pub count: usize,
}

impl View for StationStats {
    type V = Summary;

    open spec fn view(&self) -> Summary {
        Summary {
            min: self.min as int,
            max: self.max as int,
            sum: self.sum as int,
            count: self.count as nat,
        }
    }
}

/// Whether the sums and counts of `a` and `b` together still fit the record's fields.
pub open spec fn fits_together(a: Summary, b: Summary) -> bool {
    &&& i32::MIN <= a.sum + b.sum <= i32::MAX
    &&& a.count + b.count <= usize::MAX
}

/// The bytes of one exported entry: `<name>=<min>/<mean>/<max>`, each number
/// in degrees with one fractional digit.
pub open spec fn entry_bytes(name: Seq<u8>, s: Summary) -> Seq<u8> {
    name + seq![61u8] + tenths_text(s.min) + seq![47u8] + tenths_text(rounded_mean(s.sum, s.count))
        + seq![47u8] + tenths_text(s.max)
}

/// The exported entry as text.
pub open spec fn entry_text(name: Seq<u8>, s: Summary) -> Seq<char> {
    utf8_lossy(entry_bytes(name, s))
}

impl Default for StationStats {
    /// The record of no values, the identity of `merge`.
    fn default() -> (r: Self)
        ensures
            r@ == Summary::identity(),
    {
        StationStats { min: i16::MAX, max: i16::MIN, sum: 0, count: 0 }
    }
}

impl From<i16> for StationStats {
    fn from(value: i16) -> (r: Self) {
        Self::new(value)
    }
}

impl vstd::std_specs::convert::FromSpecImpl<i16> for StationStats {
    open spec fn obeys_from_spec() -> bool {
        true
    }

    open spec fn from_spec(v: i16) -> StationStats {
        StationStats { min: v, max: v, sum: v as i32, count: 1 }
    }
}

impl StationStats {
    /// Create a new [`StationStats`] with a single value.
    pub fn new(value: i16) -> (r: Self)
        ensures
            r@ == Summary::single(value as int),
            r == (StationStats { min: value, max: value, sum: value as i32, count: 1 }),
    {
        StationStats { min: value, max: value, sum: value as i32, count: 1 }
    }

    /// Append a single value to the stats.
    pub fn extend(&mut self, value: i16)
        requires
            fits_together(old(self)@, Summary::single(value as int)),
        ensures
            final(self)@ == old(self)@.extend(value as int),
    {
        if value < self.min {
            self.min = value;
        }
        if value > self.max {
            self.max = value;
        }
        self.sum = self.sum + value as i32;
        self.count = self.count + 1;
    }

    /// Export the stats as `<name>=<min>/<mean>/<max>`, in degrees with one
    /// fractional digit; the mean is rounded half away from zero.
    pub fn export_text(&self, name: &[u8]) -> (r: String)
        requires
            self.count > 0,
        ensures
            r@ == entry_text(name@, self@),
            is_ascii_bytes(name@) ==> r@ == ascii_chars(entry_bytes(name@, self@)),
    {
        let mut out: Vec<u8> = Vec::new();
        out.extend_from_slice(name);
        out.push(61);
        push_tenths(&mut out, self.min as i64);
        out.push(47);
        let mean = mean_of(self.sum, self.count);
        push_tenths(&mut out, mean);
        out.push(47);
        push_tenths(&mut out, self.max as i64);
        proof {
            let e = entry_bytes(name@, self@);
            assert(out@ =~= e);
            if is_ascii_bytes(name@) {
                lemma_tenths_text_ascii(self.min as int);
                lemma_tenths_text_ascii(mean as int);
                lemma_tenths_text_ascii(self.max as int);
                let t1 = tenths_text(self.min as int);
                let t2 = tenths_text(mean as int);
                let t3 = tenths_text(self.max as int);
                assert forall|i: int| 0 <= i < e.len() implies e[i] < 128 by {
                    let n = name@.len() as int;
                    if i < n {
                    } else if i == n {
                    } else if i < n + 1 + t1.len() {
                        assert(e[i] == t1[i - n - 1]);
                    } else if i == n + 1 + t1.len() {
                    } else if i < n + 2 + t1.len() + t2.len() {
                        assert(e[i] == t2[i - n - 2 - t1.len()]);
                    } else if i == n + 2 + t1.len() + t2.len() {
                    } else {
                        assert(e[i] == t3[i - n - 3 - t1.len() - t2.len()]);
                    }
                }
            }
        }
        bytes_to_string(out.as_slice())
    }

    /// Combine the values of `rhs` into these stats.
    pub fn merge(&mut self, rhs: StationStats)
        requires
            fits_together(old(self)@, rhs@),
        ensures
            final(self)@ == old(self)@.combine(rhs@),
    {
        if rhs.min < self.min {
            self.min = rhs.min;
        }
        if rhs.max > self.max {
            self.max = rhs.max;
        }
        self.sum = self.sum + rhs.sum;
        self.count = self.count + rhs.count;
    }
}

/// The hash map under [`StationRecords`]: std's `HashMap` with nohash's
/// `NoHashHasher`, which takes each key's digest as the bucket hash as it is.
/// Keys compare by all their bytes and hash by a digest of those bytes, so
/// the map behaves as a map from key bytes to stats.
#[verifier::external_body]
pub struct StatsTable {
    map: HashMap<LiteHashBuffer, StationStats, BuildHasherDefault<nohash::NoHashHasher<u64>>>,
}

/// What a [`StatsTable`] holds: the stats stored under the bytes of each key.
pub uninterp spec fn table_contents(t: StatsTable) -> Map<Seq<u8>, StationStats>;

impl StatsTable {
    /// Relies on `HashMap::with_capacity_and_hasher`: a new map is empty.
    #[verifier::external_body]
    fn with_capacity(capacity: usize) -> (r: StatsTable)
        ensures
            table_contents(r).dom().is_empty(),
    {
        StatsTable { map: HashMap::with_capacity_and_hasher(capacity, BuildHasherDefault::default()) }
    }

    /// Relies on `HashMap::get`: the value stored under an equal key, if any.
    /// Keys are equal when their bytes are, and equal keys have equal digests.
    #[verifier::external_body]
    fn get(&self, key: &LiteHashBuffer) -> (r: Option<&StationStats>)
        ensures
            r.is_some() == table_contents(*self).contains_key(key@),
            r.is_some() ==> *r.unwrap() == table_contents(*self)[key@],
    {
        self.map.get(key)
    }

    /// Relies on `HashMap::insert`: the value is stored under the key, in
    /// place of the value of an equal key if there was one.
    #[verifier::external_body]
    fn insert(&mut self, key: LiteHashBuffer, value: StationStats)
        ensures
            table_contents(*final(self)) == table_contents(*old(self)).insert(key@, value),
    {
        self.map.insert(key, value);
    }

    /// Relies on `HashMap::iter`: each stored pair once, in some order.
    #[verifier::external_body]
    fn entries(&self) -> (r: Vec<(Vec<u8>, StationStats)>)
        ensures
            forall|i: int, j: int| 0 <= i < j < r@.len() ==> r@[i].0@ != r@[j].0@,
            forall|i: int|
                0 <= i < r@.len() ==> table_contents(*self).contains_key(#[trigger] r@[i].0@)
                    && table_contents(*self)[r@[i].0@] == r@[i].1,
            forall|k: Seq<u8>|
                table_contents(*self).contains_key(k) ==> exists|i: int|
                    0 <= i < r@.len() && #[trigger] r@[i].0@ == k,
    {
        self.map.iter().map(|(k, v)| (k.bytes().clone(), *v)).collect()
    }
}

/// The table after one more observation `v` of station `k`.
pub open spec fn insert_value(m: Map<Seq<u8>, Summary>, k: Seq<u8>, v: int) -> Map<Seq<u8>, Summary> {
    m.insert(k, if m.contains_key(k) { m[k].extend(v) } else { Summary::single(v) })
}

/// The table of the observations of both: stations of one of them keep their
/// stats, stations of both combine them.
pub open spec fn merge_maps(a: Map<Seq<u8>, Summary>, b: Map<Seq<u8>, Summary>) -> Map<Seq<u8>, Summary> {
    Map::new(
        |k: Seq<u8>| a.contains_key(k) || b.contains_key(k),
        |k: Seq<u8>|
            if a.contains_key(k) && b.contains_key(k) {
                a[k].combine(b[k])
            } else if a.contains_key(k) {
                a[k]
            } else {
                b[k]
            },
    )
}

/// Whether the stats that `a` and `b` share fit the record's fields once combined.
pub open spec fn mergeable(a: Map<Seq<u8>, Summary>, b: Map<Seq<u8>, Summary>) -> bool {
    forall|k: Seq<u8>| a.contains_key(k) && b.contains_key(k) ==> fits_together(#[trigger] a[k], b[k])
}

/// Every station in the table has been observed at least once.
pub open spec fn records_wf(m: Map<Seq<u8>, Summary>) -> bool {
    forall|k: Seq<u8>| m.contains_key(k) ==> (#[trigger] m[k]).count >= 1
}

/// Entries whose keys strictly increase in byte order.
pub open spec fn keys_sorted(s: Seq<(Seq<u8>, Summary)>) -> bool {
    forall|i: int, j: int| 0 <= i < j < s.len() ==> lex_lt(#[trigger] s[i].0, #[trigger] s[j].0)
}

/// The entries of `s` are exactly the pairs of `m`.
pub open spec fn enumerates(s: Seq<(Seq<u8>, Summary)>, m: Map<Seq<u8>, Summary>) -> bool {
    &&& forall|i: int| 0 <= i < s.len() ==> m.contains_key(#[trigger] s[i].0) && m[s[i].0] == s[i].1
    &&& forall|k: Seq<u8>| m.contains_key(k) ==> exists|i: int| 0 <= i < s.len() && #[trigger] s[i].0 == k
}

/// The pairs of `m` in ascending byte order of their keys.
pub open spec fn sorted_entries(m: Map<Seq<u8>, Summary>) -> Seq<(Seq<u8>, Summary)> {
    choose|s: Seq<(Seq<u8>, Summary)>| keys_sorted(s) && enumerates(s, m)
}

/// The view of exported entries.
pub open spec fn entries_view(s: Seq<(Vec<u8>, StationStats)>) -> Seq<(Seq<u8>, Summary)> {
    s.map_values(|e: (Vec<u8>, StationStats)| (e.0@, e.1@))
}

/// There is only one sorted enumeration of a table.
pub proof fn lemma_sorted_unique(first: Seq<(Seq<u8>, Summary)>, other: Seq<(Seq<u8>, Summary)>, m: Map<Seq<u8>, Summary>)
    requires
        keys_sorted(first),
        enumerates(first, m),
        keys_sorted(other),
        enumerates(other, m),
    ensures
        first == other,
{
    assert forall|i: int| 0 <= i < first.len() && i < other.len() implies first[i] == other[i] by {
        lemma_sorted_index(first, other, m, i);
    }
    if first.len() > other.len() {
        lemma_sorted_tail(first, other, m);
    } else if other.len() > first.len() {
        assert forall|i: int| 0 <= i < other.len() && i < first.len() implies other[i] == first[i] by {
            lemma_sorted_index(first, other, m, i);
        }
        lemma_sorted_tail(other, first, m);
    }
    assert(first =~= other);
}

/// Of two sorted enumerations that agree where both have entries, neither is longer.
proof fn lemma_sorted_tail(first: Seq<(Seq<u8>, Summary)>, other: Seq<(Seq<u8>, Summary)>, m: Map<Seq<u8>, Summary>)
    requires
        keys_sorted(first),
        enumerates(first, m),
        enumerates(other, m),
        forall|i: int| 0 <= i < other.len() && i < first.len() ==> first[i] == other[i],
    ensures
        first.len() <= other.len(),
{
    if first.len() > other.len() {
        // The key after the common part is also in `other`, so it comes
        // before itself in `first`.
        let k = first[other.len() as int].0;
        assert(m.contains_key(k));
        let j = choose|j: int| 0 <= j < other.len() && #[trigger] other[j].0 == k;
        assert(first[j].0 == k);
        assert(lex_lt(first[j].0, first[other.len() as int].0));
        lemma_lex_irreflexive(k);
    }
}

proof fn lemma_sorted_index(first: Seq<(Seq<u8>, Summary)>, other: Seq<(Seq<u8>, Summary)>, m: Map<Seq<u8>, Summary>, i: int)
    requires
        keys_sorted(first),
        enumerates(first, m),
        keys_sorted(other),
        enumerates(other, m),
        0 <= i < first.len(),
        i < other.len(),
    ensures
        first[i] == other[i],
    decreases i,
{
    assert forall|l: int| 0 <= l < i implies first[l] == other[l] by {
        lemma_sorted_index(first, other, m, l);
    }
    let k1 = first[i].0;
    let k2 = other[i].0;
    assert(m.contains_key(k1));
    assert(m.contains_key(k2));
    let j2 = choose|j: int| 0 <= j < other.len() && #[trigger] other[j].0 == k1;
    let j1 = choose|j: int| 0 <= j < first.len() && #[trigger] first[j].0 == k2;
    if j2 < i {
        assert(first[j2].0 == k1);
        assert(lex_lt(first[j2].0, first[i].0));
        lemma_lex_irreflexive(k1);
    }
    if j1 < i {
        assert(other[j1].0 == k2);
        assert(lex_lt(other[j1].0, other[i].0));
        lemma_lex_irreflexive(k2);
    }
    if j2 > i {
        assert(lex_lt(other[i].0, other[j2].0));
        if j1 > i {
            assert(lex_lt(first[i].0, first[j1].0));
            lemma_lex_asymmetric(k1, k2);
        } else {
            assert(k1 == k2);
            lemma_lex_irreflexive(k1);
        }
    }
    assert(k1 == k2);
}

proof fn lemma_enumeration_by_set(sv: Seq<(Seq<u8>, Summary)>, iv: Seq<(Seq<u8>, Summary)>, m: Map<Seq<u8>, Summary>)
    requires
        sv.to_set() == iv.to_set(),
        forall|x: int| 0 <= x < iv.len() ==> m.contains_key(#[trigger] iv[x].0) && m[iv[x].0] == iv[x].1,
        forall|k: Seq<u8>| m.contains_key(k) ==> exists|x: int| 0 <= x < iv.len() && #[trigger] iv[x].0 == k,
    ensures
        enumerates(sv, m),
{
    assert forall|j: int| 0 <= j < sv.len() implies m.contains_key(#[trigger] sv[j].0) && m[sv[j].0] == sv[j].1 by {
        assert(sv.to_set().contains(sv[j]));
        assert(iv.to_set().contains(sv[j]));
        let x = choose|x: int| 0 <= x < iv.len() && #[trigger] iv[x] == sv[j];
    }
    assert forall|k: Seq<u8>| m.contains_key(k) implies exists|j: int| 0 <= j < sv.len() && #[trigger] sv[j].0 == k by {
        let x = choose|x: int| 0 <= x < iv.len() && #[trigger] iv[x].0 == k;
        assert(iv[x].0 == k);
        assert(iv.to_set().contains(iv[x]));
        assert(sv.to_set().contains(iv[x]));
        let j = choose|j: int| 0 <= j < sv.len() && #[trigger] sv[j] == iv[x];
        assert(sv[j].0 == k);
    }
}

/// Insert an entry whose key is not there yet, keeping the keys in ascending order.
fn insert_sorted(sorted: &mut Vec<(Vec<u8>, StationStats)>, key: Vec<u8>, stats: StationStats)
    requires
        keys_sorted(entries_view(old(sorted)@)),
        forall|j: int| 0 <= j < old(sorted)@.len() ==> (#[trigger] entries_view(old(sorted)@)[j]).0 != key@,
    ensures
        keys_sorted(entries_view(final(sorted)@)),
        entries_view(final(sorted)@).to_set() == entries_view(old(sorted)@).to_set().insert((key@, stats@)),
{
    let ghost sv = entries_view(sorted@);
    let ghost e = (key@, stats@);
    let mut p: usize = 0;
    while p < sorted.len()
        invariant
            p <= sorted@.len(),
            sv == entries_view(sorted@),
            key@ == e.0,
            forall|j: int| 0 <= j < p ==> lex_lt(#[trigger] sv[j].0, e.0),
        ensures
            p <= sorted@.len(),
            forall|j: int| 0 <= j < p ==> lex_lt(#[trigger] sv[j].0, e.0),
            p < sorted@.len() ==> !lex_lt(sv[p as int].0, e.0),
        decreases sorted.len() - p,
    {
        if !bytes_less(sorted[p].0.as_slice(), key.as_slice()) {
            break;
        }
        p = p + 1;
    }
    proof {
        if p < sv.len() {
            assert(sv[p as int].0 != e.0);
            lemma_lex_total(sv[p as int].0, e.0);
        }
    }
    sorted.insert(p, (key, stats));
    proof {
        let nv = entries_view(sorted@);
        assert(nv =~= sv.insert(p as int, e));
        assert forall|x: int, y: int| 0 <= x < y < nv.len() implies lex_lt(#[trigger] nv[x].0, #[trigger] nv[y].0) by {
            if y == p {
                assert(nv[x] == sv[x]);
            } else if y > p {
                assert(nv[y] == sv[y - 1]);
                assert(lex_lt(e.0, sv[p as int].0));
                if y - 1 > p {
                    assert(lex_lt(sv[p as int].0, sv[y - 1].0));
                    lemma_lex_transitive(e.0, sv[p as int].0, sv[y - 1].0);
                }
                if x < p {
                    assert(nv[x] == sv[x]);
                    lemma_lex_transitive(sv[x].0, e.0, sv[y - 1].0);
                } else if x > p {
                    assert(nv[x] == sv[x - 1]);
                }
            } else {
                assert(nv[x] == sv[x]);
                assert(nv[y] == sv[y]);
            }
        }
        assert(nv.to_set() =~= sv.to_set().insert(e)) by {
            assert forall|q: (Seq<u8>, Summary)| nv.to_set().contains(q) implies sv.to_set().insert(e).contains(q) by {
                let j = choose|j: int| 0 <= j < nv.len() && nv[j] == q;
                if j < p {
                    assert(sv[j] == q);
                } else if j > p {
                    assert(sv[j - 1] == q);
                }
            }
            assert forall|q: (Seq<u8>, Summary)| sv.to_set().insert(e).contains(q) implies nv.to_set().contains(q) by {
                if q == e {
                    assert(nv[p as int] == q);
                } else {
                    let j = choose|j: int| 0 <= j < sv.len() && sv[j] == q;
                    if j < p {
                        assert(nv[j] == q);
                    } else {
                        assert(nv[j + 1] == q);
                    }
                }
            }
        }
    }
}

/// The parts in order, with `sep` between each two.
pub open spec fn join_with(parts: Seq<Seq<char>>, sep: Seq<char>) -> Seq<char>
    decreases parts.len(),
{
    if parts.len() == 0 {
        Seq::empty()
    } else if parts.len() == 1 {
        parts[0]
    } else {
        join_with(parts.drop_last(), sep) + sep + parts.last()
    }
}

/// Relies on `itertools::join`: the first part, then the separator and the
/// next part for each further part.
#[verifier::external_body]
fn join_texts(parts: &Vec<String>, sep: &str) -> (r: String)
    ensures
        r@ == join_with(parts@.map_values(|p: String| p@), sep@),
{
    itertools::join(parts.iter(), sep)
}

/// The texts of the entries of `m`, in ascending byte order of the names.
pub open spec fn entry_texts(m: Map<Seq<u8>, Summary>) -> Seq<Seq<char>> {
    sorted_entries(m).map_values(|e: (Seq<u8>, Summary)| entry_text(e.0, e.1))
}

/// The exported text of a table: `{`, the entries joined by `, `, then `}` and a newline.
pub open spec fn export_chars(m: Map<Seq<u8>, Summary>) -> Seq<char> {
    seq!['{'] + join_with(entry_texts(m), seq![',', ' ']) + seq!['}', '\n']
}

/// Whether every station name of `m` is ASCII.
pub open spec fn names_ascii(m: Map<Seq<u8>, Summary>) -> bool {
    forall|k: Seq<u8>| m.contains_key(k) ==> is_ascii_bytes(k)
}

/// The texts of the entries of `m` with ASCII names, character for byte.
pub open spec fn entry_ascii_texts(m: Map<Seq<u8>, Summary>) -> Seq<Seq<char>> {
    sorted_entries(m).map_values(|e: (Seq<u8>, Summary)| ascii_chars(entry_bytes(e.0, e.1)))
}

/// The exported text of a table whose names are ASCII.
pub open spec fn export_ascii_chars(m: Map<Seq<u8>, Summary>) -> Seq<char> {
    seq!['{'] + join_with(entry_ascii_texts(m), seq![',', ' ']) + seq!['}', '\n']
}

/// The sum of the counts of the entries.
pub open spec fn sum_counts(s: Seq<(Seq<u8>, Summary)>) -> nat
    decreases s.len(),
{
    if s.len() == 0 {
        0
    } else {
        sum_counts(s.drop_last()) + s.last().1.count
    }
}

/// The number of observations in a table: the sum of the counts of its stations.
pub open spec fn total_count(m: Map<Seq<u8>, Summary>) -> nat {
    sum_counts(sorted_entries(m))
}

/// The tables merged one after another, starting from the empty table.
pub open spec fn merge_seq(s: Seq<Map<Seq<u8>, Summary>>) -> Map<Seq<u8>, Summary>
    decreases s.len(),
{
    if s.len() == 0 {
        Map::empty()
    } else {
        merge_maps(merge_seq(s.drop_last()), s.last())
    }
}

proof fn lemma_sum_counts_prefix(s: Seq<(Seq<u8>, Summary)>, i: int)
    requires
        0 <= i <= s.len(),
    ensures
        sum_counts(s.take(i)) <= sum_counts(s),
    decreases s.len() - i,
{
    if i < s.len() {
        lemma_sum_counts_prefix(s, i + 1);
        assert(s.take(i + 1).drop_last() =~= s.take(i));
    } else {
        assert(s.take(i) =~= s);
    }
}

/// The table after the observations `obs`, in order, starting from `m`.
pub open spec fn observe(m: Map<Seq<u8>, Summary>, obs: Seq<(Seq<u8>, int)>) -> Map<Seq<u8>, Summary>
    decreases obs.len(),
{
    if obs.len() == 0 {
        m
    } else {
        insert_value(observe(m, obs.drop_last()), obs.last().0, obs.last().1)
    }
}

/// Whether every observation of `obs`, made in order from `m`, fits the record's fields.
pub open spec fn fits_all(m: Map<Seq<u8>, Summary>, obs: Seq<(Seq<u8>, int)>) -> bool {
    forall|i: int|
        0 <= i < obs.len() ==> {
            let prior = #[trigger] observe(m, obs.take(i));
            prior.contains_key(obs[i].0) ==> fits_together(prior[obs[i].0], Summary::single(obs[i].1))
        }
}

/// Records of multiple stations, kept in a hash map keyed by station name.
pub struct StationRecords {
    stats: StatsTable,
}

impl View for StationRecords {
    type V = Map<Seq<u8>, Summary>;

    closed spec fn view(&self) -> Map<Seq<u8>, Summary> {
        table_contents(self.stats).map_values(|s: StationStats| s@)
    }
}

/// The number of stations the table is first sized for.
pub const EXPECTED_STATIONS: usize = 500;

impl Default for StationRecords {
    fn default() -> (r: Self)
        ensures
            r@ == Map::<Seq<u8>, Summary>::empty(),
    {
        let r = StationRecords { stats: StatsTable::with_capacity(EXPECTED_STATIONS) };
        proof {
            assert(r@ =~= Map::<Seq<u8>, Summary>::empty());
        }
        r
    }
}

impl StationRecords {
    /// Every station in the table has been observed at least once.
    pub open spec fn wf(&self) -> bool {
        records_wf(self@)
    }

    /// Create a new empty [`StationRecords`].
    pub fn new() -> (r: Self)
        ensures
            r@ == Map::<Seq<u8>, Summary>::empty(),
            r.wf(),
    {
        Self::default()
    }

    /// Insert a new record by mutating the [`StationRecords`] in place.
    pub fn insert(&mut self, name: LiteHashBuffer, value: i16)
        requires
            old(self).wf(),
            old(self)@.contains_key(name@) ==> fits_together(old(self)@[name@], Summary::single(value as int)),
        ensures
            final(self).wf(),
            final(self)@ == insert_value(old(self)@, name@, value as int),
    {
        let found: Option<StationStats> = match self.stats.get(&name) {
            Some(s) => Some(*s),
            None => None,
        };
        let ghost k = name@;
        match found {
            Some(s) => {
                let mut s = s;
                s.extend(value);
                self.stats.insert(name, s);
            },
            None => {
                self.stats.insert(name, StationStats::new(value));
            },
        }
        proof {
            assert(self@ =~= insert_value(old(self)@, k, value as int));
        }
    }

    /// Get the stats of a single station.
    pub fn get(&self, name: &LiteHashBuffer) -> (r: Option<&StationStats>)
        ensures
            r.is_some() == self@.contains_key(name@),
            r.is_some() ==> r.unwrap()@ == self@[name@],
    {
        self.stats.get(name)
    }

    /// The records in the order the hash map keeps them.
    pub fn iter(&self) -> (r: Vec<(Vec<u8>, StationStats)>)
        ensures
            forall|i: int, j: int| 0 <= i < j < r@.len() ==> r@[i].0@ != r@[j].0@,
            enumerates(entries_view(r@), self@),
    {
        let items = self.stats.entries();
        proof {
            let ev = entries_view(items@);
            assert forall|i: int| 0 <= i < ev.len() implies self@.contains_key(#[trigger] ev[i].0) && self@[ev[i].0] == ev[i].1 by {
                assert(ev[i].0 == items@[i].0@);
            }
            assert forall|k: Seq<u8>| self@.contains_key(k) implies exists|i: int| 0 <= i < ev.len() && #[trigger] ev[i].0 == k by {
                let i = choose|i: int| 0 <= i < items@.len() && #[trigger] items@[i].0@ == k;
                assert(ev[i].0 == k);
            }
        }
        items
    }

    /// The records in ascending byte order of the station names.
    pub fn iter_sorted(&self) -> (r: Vec<(Vec<u8>, StationStats)>)
        ensures
            keys_sorted(entries_view(r@)),
            enumerates(entries_view(r@), self@),
            entries_view(r@) == sorted_entries(self@),
    {
        let items = self.stats.entries();
        let ghost m = self@;
        let ghost iv = entries_view(items@);
        proof {
            assert forall|x: int, y: int| 0 <= x < y < iv.len() implies iv[x].0 != iv[y].0 by {
                assert(iv[x].0 == items@[x].0@ && iv[y].0 == items@[y].0@);
            }
            assert forall|x: int| 0 <= x < iv.len() implies m.contains_key(#[trigger] iv[x].0) && m[iv[x].0] == iv[x].1 by {
                assert(iv[x].0 == items@[x].0@);
            }
            assert forall|k: Seq<u8>| m.contains_key(k) implies exists|x: int| 0 <= x < iv.len() && #[trigger] iv[x].0 == k by {
                let x = choose|x: int| 0 <= x < items@.len() && #[trigger] items@[x].0@ == k;
                assert(iv[x].0 == k);
            }
            assert(iv.take(0).to_set() =~= Set::empty());
        }
        let mut sorted: Vec<(Vec<u8>, StationStats)> = Vec::new();
        let mut i: usize = 0;
        while i < items.len()
            invariant
                0 <= i <= items@.len(),
                iv == entries_view(items@),
                forall|x: int, y: int| 0 <= x < y < iv.len() ==> iv[x].0 != iv[y].0,
                keys_sorted(entries_view(sorted@)),
                entries_view(sorted@).to_set() == iv.take(i as int).to_set(),
            decreases items.len() - i,
        {
            let key = items[i].0.clone();
            let stats = items[i].1;
            proof {
                let sv = entries_view(sorted@);
                assert(iv[i as int] == (key@, stats@));
                assert forall|j: int| 0 <= j < sv.len() implies sv[j].0 != key@ by {
                    assert(sv.to_set().contains(sv[j]));
                    assert(iv.take(i as int).to_set().contains(sv[j]));
                    let x = choose|x: int| 0 <= x < i && #[trigger] iv.take(i as int)[x] == sv[j];
                    assert(iv[x] == sv[j]);
                }
                assert(iv.take(i + 1) =~= iv.take(i as int).push(iv[i as int]));
                iv.take(i as int).lemma_push_to_set_commute(iv[i as int]);
            }
            insert_sorted(&mut sorted, key, stats);
            i = i + 1;
        }
        proof {
            let sv = entries_view(sorted@);
            assert(iv.take(i as int) =~= iv);
            lemma_enumeration_by_set(sv, iv, m);
            let c = sorted_entries(m);
            assert(keys_sorted(c) && enumerates(c, m));
            lemma_sorted_unique(sv, c, m);
        }
        sorted
    }

    /// Export the results as text: the entries in ascending byte order of the
    /// names, joined by `, `, between braces, with a newline at the end.
    pub fn export_text(&self) -> (r: String)
        requires
            self.wf(),
        ensures
            r@ == export_chars(self@),
            names_ascii(self@) ==> r@ == export_ascii_chars(self@),
    {
        let entries = self.iter_sorted();
        let ghost ev = entries_view(entries@);
        let mut parts: Vec<String> = Vec::new();
        let mut i: usize = 0;
        while i < entries.len()
            invariant
                0 <= i <= entries@.len(),
                ev == entries_view(entries@),
                ev == sorted_entries(self@),
                enumerates(ev, self@),
                self.wf(),
                parts@.len() == i,
                forall|j: int| 0 <= j < i ==> (#[trigger] parts@[j])@ == entry_text(ev[j].0, ev[j].1),
                names_ascii(self@) ==> forall|j: int| 0 <= j < i ==> (#[trigger] parts@[j])@ == ascii_chars(
                    entry_bytes(ev[j].0, ev[j].1),
                ),
            decreases entries.len() - i,
        {
            proof {
                assert(ev[i as int] == (entries@[i as int].0@, entries@[i as int].1@));
                assert(self@.contains_key(ev[i as int].0));
            }
            let part = entries[i].1.export_text(entries[i].0.as_slice());
            parts.push(part);
            i = i + 1;
        }
        let joined = join_texts(&parts, ", ");
        let mut out = String::from_str("{");
        out.append(joined.as_str());
        out.append("}\n");
        proof {
            reveal_strlit("{");
            reveal_strlit(", ");
            reveal_strlit("}\n");
            assert("{"@ =~= seq!['{']);
            assert(", "@ =~= seq![',', ' ']);
            assert("}\n"@ =~= seq!['}', '\n']);
            assert(parts@.map_values(|p: String| p@) =~= entry_texts(self@));
            assert(out@ =~= export_chars(self@));
            if names_ascii(self@) {
                assert(parts@.map_values(|p: String| p@) =~= entry_ascii_texts(self@));
                assert(out@ =~= export_ascii_chars(self@));
            }
        }
        out
    }

    /// The number of observations: the sum of the counts of all stations.
    pub fn len(&self) -> (r: usize)
        requires
            total_count(self@) <= usize::MAX,
        ensures
            r == total_count(self@),
    {
        let entries = self.iter_sorted();
        let ghost ev = entries_view(entries@);
        let mut total: usize = 0;
        let mut i: usize = 0;
        while i < entries.len()
            invariant
                0 <= i <= entries@.len(),
                ev == entries_view(entries@),
                ev == sorted_entries(self@),
                total_count(self@) <= usize::MAX,
                total == sum_counts(ev.take(i as int)),
            decreases entries.len() - i,
        {
            proof {
                assert(ev.take(i + 1).drop_last() =~= ev.take(i as int));
                lemma_sum_counts_prefix(ev, i + 1);
            }
            total = total + entries[i].1.count;
            i = i + 1;
        }
        proof {
            assert(ev.take(i as int) =~= ev);
        }
        total
    }

    /// Whether no observation has been recorded.
    pub fn is_empty(&self) -> (r: bool)
        requires
            total_count(self@) <= usize::MAX,
        ensures
            r == (total_count(self@) == 0),
    {
        self.len() == 0
    }

    /// Merge all tables, one after another, into one.
    pub fn merge_all(tables: Vec<StationRecords>) -> (r: StationRecords)
        requires
            forall|i: int| 0 <= i < tables@.len() ==> (#[trigger] tables@[i]).wf(),
            forall|i: int|
                0 <= i < tables@.len() ==> mergeable(
                    merge_seq(tables@.take(i).map_values(|t: StationRecords| t@)),
                    (#[trigger] tables@[i])@,
                ),
        ensures
            r.wf(),
            r@ == merge_seq(tables@.map_values(|t: StationRecords| t@)),
    {
        let ghost views = tables@.map_values(|t: StationRecords| t@);
        let ghost all = tables@;
        let n = tables.len();
        let mut result = StationRecords::new();
        let mut rest = tables;
        proof {
            assert(views.take(0) =~= Seq::<Map<Seq<u8>, Summary>>::empty());
            assert(result@ =~= merge_seq(views.take(0)));
        }
        let mut i: usize = 0;
        while rest.len() > 0
            invariant
                views == all.map_values(|t: StationRecords| t@),
                i + rest@.len() == all.len(),
                all.len() == n,
                rest@ == all.subrange(i as int, all.len() as int),
                forall|j: int| 0 <= j < all.len() ==> (#[trigger] all[j]).wf(),
                forall|j: int|
                    0 <= j < all.len() ==> mergeable(
                        merge_seq(all.take(j).map_values(|t: StationRecords| t@)),
                        (#[trigger] all[j])@,
                    ),
                result.wf(),
                result@ == merge_seq(views.take(i as int)),
            decreases rest.len(),
        {
            let next = rest.remove(0);
            proof {
                assert(next == all[i as int]);
                assert(all.take(i as int).map_values(|t: StationRecords| t@) =~= views.take(i as int));
                assert(views.take(i + 1).drop_last() =~= views.take(i as int));
            }
            result.merge(next);
            i = i + 1;
        }
        proof {
            assert(views.take(i as int) =~= views);
        }
        result
    }

    /// Whether one more observation `value` of `name` fits the record's fields.
    pub fn can_insert(&self, name: &LiteHashBuffer, value: i16) -> (r: bool)
        ensures
            r == (self@.contains_key(name@) ==> fits_together(self@[name@], Summary::single(value as int))),
    {
        match self.stats.get(name) {
            Some(s) => {
                let fits_sum = if value < 0 {
                    s.sum >= i32::MIN - value as i32
                } else {
                    s.sum <= i32::MAX - value as i32
                };
                fits_sum && s.count < usize::MAX
            },
            None => true,
        }
    }

    /// Whether the stats that these records share with `rhs` still fit the
    /// record's fields once combined.
    pub fn can_merge(&self, rhs: &StationRecords) -> (r: bool)
        ensures
            r == mergeable(self@, rhs@),
    {
        let items = rhs.stats.entries();
        let mut i: usize = 0;
        while i < items.len()
            invariant
                0 <= i <= items@.len(),
                forall|x: int|
                    0 <= x < items@.len() ==> rhs@.contains_key(#[trigger] items@[x].0@)
                        && rhs@[items@[x].0@] == items@[x].1@,
                forall|k: Seq<u8>| rhs@.contains_key(k) ==> exists|x: int| 0 <= x < items@.len() && #[trigger] items@[x].0@ == k,
                forall|x: int|
                    0 <= x < i ==> (self@.contains_key(#[trigger] items@[x].0@) ==> fits_together(
                        self@[items@[x].0@],
                        rhs@[items@[x].0@],
                    )),
            decreases items.len() - i,
        {
            let key = LiteHashBuffer::new(items[i].0.clone());
            let theirs = items[i].1;
            match self.stats.get(&key) {
                Some(mine) => {
                    let fits_sum = if theirs.sum < 0 {
                        mine.sum >= i32::MIN - theirs.sum
                    } else {
                        mine.sum <= i32::MAX - theirs.sum
                    };
                    if !fits_sum || mine.count > usize::MAX - theirs.count {
                        proof {
                            assert(self@.contains_key(key@) && !fits_together(self@[key@], rhs@[key@]));
                        }
                        return false;
                    }
                },
                None => {},
            }
            i = i + 1;
        }
        proof {
            assert forall|k: Seq<u8>| self@.contains_key(k) && rhs@.contains_key(k) implies fits_together(
                #[trigger] self@[k],
                rhs@[k],
            ) by {
                let x = choose|x: int| 0 <= x < items@.len() && #[trigger] items@[x].0@ == k;
            }
        }
        true
    }

    /// Combine the records of `rhs` into these.
    pub fn merge(&mut self, rhs: StationRecords)
        requires
            old(self).wf(),
            rhs.wf(),
            mergeable(old(self)@, rhs@),
        ensures
            final(self).wf(),
            final(self)@ == merge_maps(old(self)@, rhs@),
    {
        let items = rhs.stats.entries();
        let ghost a = self@;
        let ghost b = rhs@;
        let mut i: usize = 0;
        while i < items.len()
            invariant
                0 <= i <= items@.len(),
                a == old(self)@,
                b == rhs@,
                records_wf(a),
                records_wf(b),
                mergeable(a, b),
                forall|x: int, y: int| 0 <= x < y < items@.len() ==> items@[x].0@ != items@[y].0@,
                forall|x: int|
                    0 <= x < items@.len() ==> b.contains_key(#[trigger] items@[x].0@)
                        && b[items@[x].0@] == items@[x].1@,
                self@ == merge_maps(a, b.restrict(Set::new(|k: Seq<u8>| exists|x: int| 0 <= x < i && #[trigger] items@[x].0@ == k))),
            decreases items.len() - i,
        {
            let ghost before = Set::new(|k: Seq<u8>| exists|x: int| 0 <= x < i && #[trigger] items@[x].0@ == k);
            let ghost after = Set::new(|k: Seq<u8>| exists|x: int| 0 <= x < i + 1 && #[trigger] items@[x].0@ == k);
            let key = LiteHashBuffer::new(items[i].0.clone());
            let incoming = items[i].1;
            let ghost k = key@;
            proof {
                assert(k == items@[i as int].0@);
                assert(!before.contains(k)) by {
                    if before.contains(k) {
                        let x = choose|x: int| 0 <= x < i && #[trigger] items@[x].0@ == k;
                        assert(items@[x].0@ != items@[i as int].0@);
                    }
                }
                assert(after =~= before.insert(k)) by {
                    assert forall|q: Seq<u8>| after.contains(q) implies before.insert(q).contains(q) by {}
                    assert forall|q: Seq<u8>| before.insert(k).contains(q) implies after.contains(q) by {
                        if q == k {
                            assert(items@[i as int].0@ == q);
                        } else {
                            let x = choose|x: int| 0 <= x < i && #[trigger] items@[x].0@ == q;
                            assert(0 <= x < i + 1 && items@[x].0@ == q);
                        }
                    }
                }
            }
            let found: Option<StationStats> = match self.stats.get(&key) {
                Some(s) => Some(*s),
                None => None,
            };
            let ghost prev = self@;
            let ghost merged = if a.contains_key(k) { a[k].combine(b[k]) } else { b[k] };
            proof {
                assert(b.contains_key(k));
                assert(b[k] == incoming@);
                assert(!b.restrict(before).contains_key(k));
                assert(prev.contains_key(k) == a.contains_key(k));
            }
            match found {
                Some(s) => {
                    proof {
                        assert(self@.contains_key(k));
                        assert(s@ == self@[k]);
                        assert(b.restrict(before).contains_key(k) == false);
                        assert(a.contains_key(k));
                        assert(self@[k] == a[k]);
                        assert(b.contains_key(k));
                        assert(b[k] == incoming@);
                    }
                    let mut s = s;
                    s.merge(incoming);
                    self.stats.insert(key, s);
                },
                None => {
                    self.stats.insert(key, incoming);
                },
            }
            proof {
                assert(self@ =~= prev.insert(k, merged));
                assert(merge_maps(a, b.restrict(after)) =~= prev.insert(k, merged));
            }
            i = i + 1;
        }
        proof {
            let all = Set::new(|k: Seq<u8>| exists|x: int| 0 <= x < i && #[trigger] items@[x].0@ == k);
            assert(b.restrict(all) =~= b);
            assert(self@ =~= merge_maps(a, b));
        }
    }
}

} // verus!
