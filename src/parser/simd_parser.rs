//! A parser that finds the separators of a frame a 64-byte window at a time.
//!
//! Each window is compared against `;` and the newline into one bit mask; the
//! set bits, taken in order of position, give the separators, and each two of
//! them give a line: the length of its name and the length of its value.

use std::collections::VecDeque;

use vstd::prelude::*;
use vstd::slice::{slice_subrange, slice_to_vec};

use super::func::{
    count_digits, digits_to_number, digits_value, lemma_digits_value_bound, lemma_pow10_monotone, pow10,
};
use super::line::{
    after_first_line, frame_records, leading_records, lemma_first_line, lemma_leading_of_well_formed,
    lemma_leading_step, lemma_line_start, line_offsets, line_record, starts_with_line,
    well_formed_frame,
};
use super::hashable_buffer::LiteHashBuffer;
use super::models::{fits_all, observe, StationRecords};
use crate::config::MAX_LINE_LENGTH;

verus! {

/// The offsets of a line: the length of its name and the length of its value.
pub type SepPositions = (usize, usize);

/// How many bytes one window holds.
pub const LANE_WIDTH: usize = 64;

/// A byte that ends a name or a line.
pub open spec fn is_sep(c: u8) -> bool {
    c == 59 || c == 10
}

/// The index of the first separator in `s` at or after `from`, or the length of `s`.
pub open spec fn find_sep(s: Seq<u8>, from: nat) -> nat
    decreases s.len() - from,
{
    if from >= s.len() {
        s.len()
    } else if is_sep(s[from as int]) {
        from
    } else {
        find_sep(s, from + 1)
    }
}

proof fn lemma_find_sep_at(s: Seq<u8>, from: nat, x: nat)
    requires
        from <= x <= s.len(),
        forall|j: int| from <= j < x ==> !is_sep(s[j]),
        x < s.len() ==> is_sep(s[x as int]),
    ensures
        find_sep(s, from) == x,
    decreases x - from,
{
    if from < x {
        lemma_find_sep_at(s, from + 1, x);
    }
}

/// The pairs of offsets that the separators of `w` give: for each two
/// separators, the bytes before the first, and the bytes between them.
/// A separator left without a partner is dropped.
pub open spec fn sep_pairs(w: Seq<u8>) -> Seq<(int, int)>
    decreases w.len(),
{
    let a = find_sep(w, 0);
    let b = find_sep(w, a + 1);
    if a < w.len() && b < w.len() && w.skip(b as int + 1).len() < w.len() {
        seq![(a as int, b - a - 1)] + sep_pairs(w.skip(b as int + 1))
    } else {
        Seq::empty()
    }
}

/// The view of a queue of offsets.
pub open spec fn pairs_view(q: Seq<SepPositions>) -> Seq<(int, int)> {
    q.map_values(|p: SepPositions| (p.0 as int, p.1 as int))
}

/// Whether the lines that the pairs describe fit in `room` bytes.
pub open spec fn pairs_fit(ps: Seq<(int, int)>, room: int) -> bool
    decreases ps.len(),
{
    if ps.len() == 0 {
        true
    } else {
        &&& ps[0].0 >= 0
        &&& ps[0].1 >= 0
        &&& ps[0].0 + ps[0].1 + 2 <= room
        &&& pairs_fit(ps.drop_first(), room - ps[0].0 - ps[0].1 - 2)
    }
}

proof fn lemma_sep_pairs_fit(w: Seq<u8>)
    ensures
        pairs_fit(sep_pairs(w), w.len() as int),
    decreases w.len(),
{
    let a = find_sep(w, 0);
    let b = find_sep(w, a + 1);
    lemma_find_sep_bounds(w, 0);
    lemma_find_sep_bounds(w, a + 1);
    if a < w.len() && b < w.len() && w.skip(b as int + 1).len() < w.len() {
        lemma_sep_pairs_fit(w.skip(b as int + 1));
        let ps = sep_pairs(w);
        assert(ps.drop_first() =~= sep_pairs(w.skip(b as int + 1)));
    }
}

proof fn lemma_find_sep_bounds(s: Seq<u8>, from: nat)
    ensures
        from <= s.len() ==> from <= find_sep(s, from) <= s.len(),
        from > s.len() ==> find_sep(s, from) == s.len(),
    decreases s.len() - from,
{
    if from < s.len() && !is_sep(s[from as int]) {
        lemma_find_sep_bounds(s, from + 1);
    }
}

/// In a window that starts a well-formed frame, the separators give the
/// offsets of the frame's first lines, and of at least one line when the
/// window holds the first line whole.
pub proof fn lemma_window_pairs(s: Seq<u8>, l: int)
    requires
        well_formed_frame(s),
        0 <= l <= s.len(),
    ensures
        sep_pairs(s.take(l)).len() <= line_offsets(s).len(),
        sep_pairs(s.take(l)) == line_offsets(s).take(sep_pairs(s.take(l)).len() as int),
        s.len() > 0 && (l == s.len() || l >= MAX_LINE_LENGTH + 1) ==> sep_pairs(s.take(l)).len() >= 1,
    decreases s.len(),
{
    let w = s.take(l);
    if s.len() == 0 {
        lemma_find_sep_at(w, 0, 0);
        assert(line_offsets(s) =~= Seq::<(int, int)>::empty());
        return;
    }
    lemma_first_line(s);
    let nl = super::line::find_byte(s, 10, 0);
    let sc = super::line::find_byte(s.take(nl as int), 59, 0);
    let rest = s.skip(nl as int + 1);
    if l <= sc {
        lemma_find_sep_at(w, 0, l as nat);
        lemma_find_sep_bounds(w, l as nat + 1);
        assert(sep_pairs(w) =~= Seq::<(int, int)>::empty());
    } else if l <= nl {
        lemma_find_sep_at(w, 0, sc);
        lemma_find_sep_at(w, sc + 1, l as nat);
        assert(sep_pairs(w) =~= Seq::<(int, int)>::empty());
    } else {
        lemma_find_sep_at(w, 0, sc);
        lemma_find_sep_at(w, sc + 1, nl);
        let l_rest = l - nl - 1;
        assert(w.skip(nl as int + 1) =~= rest.take(l_rest));
        lemma_window_pairs(rest, l_rest);
        let tail = sep_pairs(rest.take(l_rest));
        assert(sep_pairs(w) == seq![(sc as int, nl - sc - 1)] + tail);
        assert(line_offsets(s) == seq![(sc as int, nl - sc - 1)] + line_offsets(rest));
        assert(sep_pairs(w) =~= line_offsets(s).take(sep_pairs(w).len() as int));
    }
}

/// What a scan of `w` up to `i` has found: the pairs in `out`, the pairs still
/// to come from `start` on, and the unmatched separator `first`, if any.
pub open spec fn scan_state(w: Seq<u8>, i: int, start: int, first: Option<usize>, out: Seq<SepPositions>) -> bool {
    &&& 0 <= start <= i <= w.len()
    &&& pairs_view(out) + sep_pairs(w.skip(start)) == sep_pairs(w)
    &&& match first {
        None => forall|j: int| start <= j < i ==> !is_sep(#[trigger] w[j]),
        Some(a) => {
            &&& start <= a < i
            &&& is_sep(w[a as int])
            &&& forall|j: int| start <= j < i && j != a ==> !is_sep(#[trigger] w[j])
        },
    }
}

proof fn lemma_scan_skip(w: Seq<u8>, i: int, start: int, first: Option<usize>, out: Seq<SepPositions>)
    requires
        scan_state(w, i, start, first, out),
        i < w.len(),
        !is_sep(w[i]),
    ensures
        scan_state(w, i + 1, start, first, out),
{
}

proof fn lemma_scan_done(w: Seq<u8>, start: int, first: Option<usize>, out: Seq<SepPositions>)
    requires
        scan_state(w, w.len() as int, start, first, out),
    ensures
        pairs_view(out) == sep_pairs(w),
{
    let u = w.skip(start);
    match first {
        None => {
            lemma_find_sep_at(u, 0, u.len());
            lemma_find_sep_bounds(u, u.len() + 1);
        },
        Some(a) => {
            lemma_find_sep_at(u, 0, (a - start) as nat);
            lemma_find_sep_at(u, (a - start + 1) as nat, u.len());
        },
    }
    assert(sep_pairs(u) =~= Seq::<(int, int)>::empty());
    assert(pairs_view(out) + sep_pairs(u) =~= pairs_view(out));
}

/// Take note of the separator at `i` during a scan.
fn note_separator(
    out: &mut VecDeque<SepPositions>,
    start: &mut usize,
    first: &mut Option<usize>,
    i: usize,
    Ghost(w): Ghost<Seq<u8>>,
)
    requires
        scan_state(w, i as int, *old(start) as int, *old(first), old(out)@),
        i < w.len(),
        w.len() <= usize::MAX,
        is_sep(w[i as int]),
    ensures
        scan_state(w, i + 1, *final(start) as int, *final(first), final(out)@),
{
    match *first {
        None => {
            *first = Some(i);
        },
        Some(a) => {
            let ghost u = w.skip(*start as int);
            proof {
                lemma_find_sep_at(u, 0, (a - *start) as nat);
                lemma_find_sep_at(u, (a - *start + 1) as nat, (i - *start) as nat);
                assert(u.skip(i - *start + 1) =~= w.skip(i + 1));
                assert(sep_pairs(u) == seq![((a - *start) as int, (i - a - 1) as int)] + sep_pairs(w.skip(i + 1)));
            }
            out.push_back((a - *start, i - a - 1));
            proof {
                assert(pairs_view(out@) =~= pairs_view(old(out)@).push(((a - *start) as int, (i - a - 1) as int)));
                assert(pairs_view(out@) + sep_pairs(w.skip(i + 1)) =~= pairs_view(old(out)@) + sep_pairs(u));
            }
            *start = i + 1;
            *first = None;
        },
    }
}

proof fn lemma_set_bit(m: u64, i: u64, j: u64)
    by (bit_vector)
    requires
        i < 64,
        j < 64,
    ensures
        ((m | (1u64 << i)) >> j) & 1 == (if j == i { 1u64 } else { (m >> j) & 1 }),
{
}

proof fn lemma_no_bits(j: u64)
    by (bit_vector)
    requires
        j < 64,
    ensures
        (0u64 >> j) & 1 == 0,
{
}

/// Whether bit `j` of `m` is set.
pub open spec fn bit_set(m: u64, j: u64) -> bool {
    (m >> j) & 1 == 1
}

/// Find all the separators in the first 64 bytes of a chunk with one bit mask.
pub fn find_separators_simd(chunk: &[u8]) -> (r: VecDeque<SepPositions>)
    requires
        chunk@.len() >= LANE_WIDTH,
    ensures
        pairs_view(r@) == sep_pairs(chunk@.take(LANE_WIDTH as int)),
{
    let ghost w = chunk@.take(LANE_WIDTH as int);
    let mut mask: u64 = 0;
    let mut i: usize = 0;
    proof {
        assert forall|j: u64| j < 64 implies #[trigger] bit_set(mask, j) == (j < i && is_sep(w[j as int])) by {
            lemma_no_bits(j);
        }
    }
    while i < LANE_WIDTH
        invariant
            i <= LANE_WIDTH,
            chunk@.len() >= LANE_WIDTH,
            w == chunk@.take(LANE_WIDTH as int),
            forall|j: u64| j < 64 ==> #[trigger] bit_set(mask, j) == (j < i && is_sep(w[j as int])),
        decreases LANE_WIDTH - i,
    {
        let c = chunk[i];
        let ghost before = mask;
        if c == 59 || c == 10 {
            mask = mask | (1u64 << (i as u64));
            proof {
                assert forall|j: u64| j < 64 implies #[trigger] bit_set(mask, j) == (j < i + 1 && is_sep(w[j as int])) by {
                    lemma_set_bit(before, i as u64, j);
                    assert(bit_set(before, j) == (j < i && is_sep(w[j as int])));
                }
            }
        } else {
            proof {
                assert(!is_sep(w[i as int]));
                assert forall|j: u64| j < 64 implies #[trigger] bit_set(mask, j) == (j < i + 1 && is_sep(w[j as int])) by {
                    assert(bit_set(before, j) == (j < i && is_sep(w[j as int])));
                }
            }
        }
        i = i + 1;
    }
    let mut out: VecDeque<SepPositions> = VecDeque::with_capacity(8);
    let mut start: usize = 0;
    let mut first: Option<usize> = None;
    let mut i: usize = 0;
    proof {
        assert(w.skip(0) =~= w);
        assert(pairs_view(out@) + sep_pairs(w.skip(0)) =~= sep_pairs(w));
    }
    while i < LANE_WIDTH
        invariant
            i <= LANE_WIDTH,
            w.len() == LANE_WIDTH,
            forall|j: u64| j < 64 ==> #[trigger] bit_set(mask, j) == is_sep(w[j as int]),
            scan_state(w, i as int, start as int, first, out@),
        decreases LANE_WIDTH - i,
    {
        if (mask >> (i as u64)) & 1 == 1 {
            proof {
                assert(bit_set(mask, i as u64));
            }
            note_separator(&mut out, &mut start, &mut first, i, Ghost(w));
        } else {
            proof {
                assert(!bit_set(mask, i as u64));
                lemma_scan_skip(w, i as int, start as int, first, out@);
            }
        }
        i = i + 1;
    }
    proof {
        lemma_scan_done(w, start as int, first, out@);
    }
    out
}

/// Find all the separators in a chunk of bytes by looking at each byte.
///
/// This is the fallback for chunks shorter than 64 bytes.
pub fn find_separators_iter(chunk: &[u8]) -> (r: VecDeque<SepPositions>)
    ensures
        pairs_view(r@) == sep_pairs(chunk@),
{
    let ghost w = chunk@;
    let mut out: VecDeque<SepPositions> = VecDeque::with_capacity(8);
    let mut start: usize = 0;
    let mut first: Option<usize> = None;
    let mut i: usize = 0;
    proof {
        assert(w.skip(0) =~= w);
        assert(pairs_view(out@) + sep_pairs(w.skip(0)) =~= sep_pairs(w));
    }
    while i < chunk.len()
        invariant
            w == chunk@,
            scan_state(w, i as int, start as int, first, out@),
        decreases chunk.len() - i,
    {
        let c = chunk[i];
        if c == 59 || c == 10 {
            note_separator(&mut out, &mut start, &mut first, i, Ghost(w));
        } else {
            proof {
                lemma_scan_skip(w, i as int, start as int, first, out@);
            }
        }
        i = i + 1;
    }
    proof {
        lemma_scan_done(w, start as int, first, out@);
    }
    out
}

/// The window of a chunk that one search looks at: its first 64 bytes.
pub open spec fn window(chunk: Seq<u8>) -> Seq<u8> {
    if chunk.len() >= LANE_WIDTH { chunk.take(LANE_WIDTH as int) } else { chunk }
}

/// Find all the separators in the first 64 bytes of a chunk.
pub fn find_separators(chunk: &[u8]) -> (r: VecDeque<SepPositions>)
    ensures
        pairs_view(r@) == sep_pairs(window(chunk@)),
{
    if chunk.len() >= LANE_WIDTH {
        find_separators_simd(chunk)
    } else {
        find_separators_iter(chunk)
    }
}

/// Whether the digits of `v` are few enough for a temperature: at most four.
fn few_digits(v: &[u8]) -> (r: bool)
    ensures
        r ==> digits_value(v@) <= 9999,
        count_digits(v@) <= 4 ==> r,
{
    let mut n: usize = 0;
    let mut i: usize = 0;
    while i < v.len()
        invariant
            i <= v@.len(),
            n == count_digits(v@.take(i as int)),
            n <= i,
        decreases v.len() - i,
    {
        proof {
            assert(v@.take(i + 1).drop_last() =~= v@.take(i as int));
        }
        if 48 <= v[i] && v[i] <= 57 {
            n = n + 1;
        }
        i = i + 1;
    }
    proof {
        assert(v@.take(i as int) =~= v@);
        if n <= 4 {
            lemma_digits_value_bound(v@);
            assert(pow10(4) == 10000) by {
                reveal_with_fuel(pow10, 5);
            }
            lemma_pow10_monotone(n as nat, 4);
        }
    }
    n <= 4
}

/// What `find_sep` finds: the first separator from `from` on.
proof fn lemma_find_sep_facts(s: Seq<u8>, from: nat)
    requires
        from <= s.len(),
    ensures
        from <= find_sep(s, from) <= s.len(),
        find_sep(s, from) < s.len() ==> is_sep(s[find_sep(s, from) as int]),
        forall|j: int| from <= j < find_sep(s, from) ==> !is_sep(s[j]),
    decreases s.len() - from,
{
    if from < s.len() && !is_sep(s[from as int]) {
        lemma_find_sep_facts(s, from + 1);
    }
}

/// The first pair of separators of a window, and what the window holds after it.
proof fn lemma_pop_pair(w: Seq<u8>)
    requires
        sep_pairs(w).len() > 0,
    ensures
        ({
            let a = find_sep(w, 0);
            let b = find_sep(w, a + 1);
            &&& a < b < w.len()
            &&& sep_pairs(w)[0] == (a as int, b - a - 1)
            &&& sep_pairs(w).drop_first() == sep_pairs(w.skip(b as int + 1))
        }),
{
    let a = find_sep(w, 0);
    lemma_find_sep_facts(w, 0);
    lemma_find_sep_bounds(w, a + 1);
    let b = find_sep(w, a + 1);
    assert(a < w.len() && b < w.len() && w.skip(b as int + 1).len() < w.len());
    assert(sep_pairs(w).drop_first() =~= sep_pairs(w.skip(b as int + 1)));
}

/// A window that starts with a whole well-formed line, or holds one, gives
/// that line's offsets first.
proof fn lemma_window_first_line(rem: Seq<u8>, l: int)
    requires
        starts_with_line(rem),
        0 <= l <= rem.len(),
        sep_pairs(rem.take(l)).len() > 0 || l > super::line::find_byte(rem, 10, 0),
    ensures
        ({
            let nl = super::line::find_byte(rem, 10, 0);
            let sc = super::line::find_byte(rem.take(nl as int), 59, 0);
            &&& sep_pairs(rem.take(l)).len() > 0
            &&& sep_pairs(rem.take(l))[0] == (sc as int, nl - sc - 1)
            &&& find_sep(rem.take(l), sc + 1) == nl
        }),
{
    lemma_line_start(rem);
    let nl = super::line::find_byte(rem, 10, 0);
    let sc = super::line::find_byte(rem.take(nl as int), 59, 0);
    let w = rem.take(l);
    if sc >= l {
        lemma_find_sep_at(w, 0, l as nat);
        lemma_find_sep_bounds(w, l as nat + 1);
        assert(sep_pairs(w).len() == 0);
    } else {
        lemma_find_sep_at(w, 0, sc);
        if nl >= l {
            lemma_find_sep_at(w, sc + 1, l as nat);
            assert(sep_pairs(w).len() == 0);
        } else {
            lemma_find_sep_at(w, sc + 1, nl);
            assert(w.skip(nl as int + 1).len() < w.len());
        }
    }
}

/// Taking the first queued pair of a window `f[c..we]`: where it leaves the
/// parser, and, when the rest of the frame begins with a well-formed line,
/// that it cuts out exactly that line.
proof fn lemma_take_first_pair(f: Seq<u8>, c: int, we: int, a: int, bl: int)
    requires
        0 <= c <= we <= f.len(),
        sep_pairs(f.subrange(c, we)).len() > 0,
        sep_pairs(f.subrange(c, we))[0] == (a, bl),
    ensures
        a >= 0,
        bl >= 0,
        c + a + bl + 2 <= we,
        sep_pairs(f.subrange(c, we)).drop_first() == sep_pairs(f.subrange(c + a + bl + 2, we)),
        starts_with_line(f.skip(c)) ==> {
            &&& (f.subrange(c, c + a), super::func::signed_digits_value(f.subrange(c + a + 1, c + a + 1 + bl)))
                == frame_records(f.skip(c))[0]
            &&& f.skip(c + a + bl + 2) == after_first_line(f.skip(c))
            &&& count_digits(f.subrange(c + a + 1, c + a + 1 + bl)) <= 4
        },
{
    let w = f.subrange(c, we);
    lemma_pop_pair(w);
    let b = find_sep(w, a as nat + 1);
    assert(w.skip(b as int + 1) =~= f.subrange(c + a + bl + 2, we));
    if starts_with_line(f.skip(c)) {
        lemma_first_pair_is_line(f, c, we, a, bl);
    }
}

proof fn lemma_first_pair_is_line(f: Seq<u8>, c: int, we: int, a: int, bl: int)
    requires
        0 <= c <= we <= f.len(),
        sep_pairs(f.subrange(c, we)).len() > 0,
        sep_pairs(f.subrange(c, we))[0] == (a, bl),
        starts_with_line(f.skip(c)),
    ensures
        (f.subrange(c, c + a), super::func::signed_digits_value(f.subrange(c + a + 1, c + a + 1 + bl)))
            == frame_records(f.skip(c))[0],
        f.skip(c + a + bl + 2) == after_first_line(f.skip(c)),
        count_digits(f.subrange(c + a + 1, c + a + 1 + bl)) <= 4,
{
    let rem = f.skip(c);
    lemma_line_start(rem);
    let nl = super::line::find_byte(rem, 10, 0);
    let sc = super::line::find_byte(rem.take(nl as int), 59, 0);
    assert(f.subrange(c, we) =~= rem.take(we - c));
    lemma_window_first_line(rem, we - c);
    assert(a == sc && bl == nl - sc - 1);
    let v = rem.subrange(sc as int + 1, nl as int);
    assert(f.subrange(c + a + 1, c + a + 1 + bl) =~= v);
    super::line::lemma_value_facts(v);
    assert(f.subrange(c, c + a) =~= rem.take(sc as int));
    assert(f.skip(c + a + bl + 2) =~= rem.skip(nl as int + 1));
}

/// A parser that reads lines from a buffer and extracts the values from them.
pub struct LineParser {
    cursor: usize,
    buffer: Vec<u8>,
    next: VecDeque<SepPositions>,
    window_end: Ghost<nat>,
}

impl LineParser {
    /// The frame being parsed.
    pub closed spec fn frame(&self) -> Seq<u8> {
        self.buffer@
    }

    /// How far into the frame the parser has read.
    pub closed spec fn position(&self) -> nat {
        self.cursor as nat
    }

    /// The part of the frame not parsed yet.
    pub open spec fn remaining(&self) -> Seq<u8> {
        self.frame().skip(self.position() as int)
    }

    /// The parser stands inside the last window it searched, and the offsets
    /// it has queued are the separator pairs of the rest of that window.
    pub closed spec fn inv(&self) -> bool {
        &&& self.cursor <= self.window_end@ <= self.buffer@.len()
        &&& pairs_view(self.next@) == sep_pairs(self.buffer@.subrange(self.cursor as int, self.window_end@ as int))
    }

    /// Create a new `LineParser` from a buffer.
    pub fn new(buffer: Vec<u8>) -> (r: Self)
        ensures
            r.inv(),
            r.frame() == buffer@,
            r.position() == 0,
    {
        let r = Self { cursor: 0, buffer, next: VecDeque::with_capacity(8), window_end: Ghost(0) };
        proof {
            let w = r.buffer@.subrange(0, 0);
            lemma_find_sep_at(w, 0, 0);
            lemma_find_sep_bounds(w, 1);
            assert(sep_pairs(w) =~= Seq::<(int, int)>::empty());
            assert(pairs_view(r.next@) =~= Seq::<(int, int)>::empty());
        }
        r
    }

    /// Queue the offsets of the lines in the next window.
    fn refill(&mut self)
        requires
            old(self).inv(),
            old(self).cursor < old(self).buffer@.len(),
        ensures
            final(self).inv(),
            final(self).buffer == old(self).buffer,
            final(self).cursor == old(self).cursor,
            starts_with_line(final(self).remaining()) ==> final(self).next@.len() >= 1,
    {
        let ghost rem = self.buffer@.skip(self.cursor as int);
        let end = if self.buffer.len() - self.cursor > LANE_WIDTH {
            self.cursor + LANE_WIDTH
        } else {
            self.buffer.len()
        };
        let found = find_separators(slice_subrange(self.buffer.as_slice(), self.cursor, end));
        self.next = found;
        self.window_end = Ghost(end as nat);
        proof {
            let chunk = self.buffer@.subrange(self.cursor as int, end as int);
            assert(window(chunk) =~= chunk);
            if starts_with_line(rem) {
                lemma_line_start(rem);
                assert(chunk =~= rem.take(end - self.cursor));
                lemma_window_first_line(rem, end - self.cursor);
            }
        }
    }

    /// Parse the next line from the buffer.
    ///
    /// When the rest of the frame begins with a whole well-formed line, this
    /// gives that line's name and value and moves past it; at the end of the
    /// frame it gives `None`.
    pub fn parse_line(&mut self) -> (r: Option<(Vec<u8>, i16)>)
        requires
            old(self).inv(),
        ensures
            final(self).inv(),
            final(self).frame() == old(self).frame(),
            r.is_some() ==> final(self).position() > old(self).position(),
            final(self).position() <= final(self).frame().len(),
            old(self).remaining().len() == 0 ==> r.is_none(),
            starts_with_line(old(self).remaining()) ==> {
                &&& r.is_some()
                &&& (r.unwrap().0@, r.unwrap().1 as int) == frame_records(old(self).remaining())[0]
                &&& final(self).remaining() == after_first_line(old(self).remaining())
            },
    {
        let ghost rem = self.buffer@.skip(self.cursor as int);
        if self.next.len() == 0 && self.cursor < self.buffer.len() {
            self.refill();
        }
        if self.next.len() == 0 {
            return None;
        }
        let ghost q = pairs_view(self.next@);
        let (semi_colon, new_line) = self.next.pop_front().unwrap();
        proof {
            assert(q[0] == (semi_colon as int, new_line as int));
            assert(pairs_view(self.next@) =~= q.drop_first());
            lemma_take_first_pair(self.buffer@, self.cursor as int, self.window_end@ as int, semi_colon as int, new_line as int);
        }
        let frame_len = self.buffer.len();
        proof {
            assert(self.cursor + semi_colon + new_line + 2 <= frame_len);
        }
        let name_end = self.cursor + semi_colon;
        let name = slice_to_vec(slice_subrange(self.buffer.as_slice(), self.cursor, name_end));
        let value_end = name_end + 1 + new_line;
        let value_bytes = slice_subrange(self.buffer.as_slice(), name_end + 1, value_end);
        // More than four digits only come from a malformed line; they read as zero.
        let value: i16 = if few_digits(value_bytes) {
            digits_to_number(value_bytes)
        } else {
            0
        };
        self.cursor = value_end + 1;
        Some((name, value))
    }

    /// Parse all the bytes in the buffer into `records`.
    ///
    /// The whole well-formed lines the frame begins with are recorded first,
    /// in order; in a well-formed frame that is every line. Returns `false`,
    /// leaving the frame partly recorded, when a station's sum or count would
    /// no longer fit its record.
    pub fn parse_bytes(bytes: Vec<u8>, records: &mut StationRecords) -> (r: bool)
        requires
            old(records).wf(),
        ensures
            final(records).wf(),
            fits_all(old(records)@, leading_records(bytes@)) ==> exists|extra: Seq<(Seq<u8>, int)>|
                final(records)@ == observe(observe(old(records)@, leading_records(bytes@)), extra),
            well_formed_frame(bytes@) && fits_all(old(records)@, frame_records(bytes@)) ==> r,
            well_formed_frame(bytes@) && r ==> final(records)@ == observe(old(records)@, frame_records(bytes@)),
    {
        let ghost f = bytes@;
        let ghost m0 = records@;
        let ghost mut done: Seq<(Seq<u8>, int)> = Seq::empty();
        let ghost mut extra: Seq<(Seq<u8>, int)> = Seq::empty();
        let ghost mut leading = true;
        let mut parser = Self::new(bytes);
        proof {
            assert(parser.remaining() =~= f);
            lemma_leading_of_well_formed(f);
        }
        loop
            invariant
                parser.inv(),
                parser.frame() == f,
                f == bytes@,
                m0 == old(records)@,
                records.wf(),
                parser.position() <= f.len(),
                leading ==> {
                    &&& leading_records(f) == done + leading_records(parser.remaining())
                    &&& records@ == observe(m0, done)
                },
                !leading ==> {
                    &&& done == leading_records(f)
                    &&& records@ == observe(observe(m0, done), extra)
                },
                well_formed_frame(f) ==> leading && well_formed_frame(parser.remaining()),
                well_formed_frame(f) ==> leading_records(f) == frame_records(f),
            decreases f.len() - parser.position(),
        {
            let ghost rem = parser.remaining();
            proof {
                if leading && !starts_with_line(rem) {
                    assert(leading_records(rem) =~= Seq::<(Seq<u8>, int)>::empty());
                    assert(done + leading_records(rem) =~= done);
                    leading = false;
                    extra = Seq::empty();
                    assert(observe(observe(m0, done), extra) == observe(m0, done));
                }
                if well_formed_frame(f) && rem.len() > 0 {
                    lemma_first_line(rem);
                }
            }
            match parser.parse_line() {
                None => {
                    proof {
                        if leading {
                            assert(rem.len() == 0 || !starts_with_line(rem));
                            assert(leading_records(rem) =~= Seq::<(Seq<u8>, int)>::empty());
                            assert(done + leading_records(rem) =~= done);
                            assert(observe(observe(m0, done), Seq::empty()) == observe(m0, done));
                        }
                        if well_formed_frame(f) {
                            assert(rem.len() == 0);
                        }
                    }
                    return true;
                },
                Some((name, value)) => {
                    let ghost rec = (name@, value as int);
                    let key = LiteHashBuffer::new(name);
                    proof {
                        if leading {
                            lemma_leading_step(rem);
                            assert(leading_records(f) == done.push(rec) + leading_records(parser.remaining())) by {
                                assert(done + (seq![rec] + leading_records(parser.remaining())) =~= done.push(rec)
                                    + leading_records(parser.remaining()));
                            }
                            assert(leading_records(f).take(done.len() as int) =~= done);
                            assert(leading_records(f)[done.len() as int] == rec);
                        }
                    }
                    if !records.can_insert(&key, value) {
                        proof {
                            if leading && fits_all(m0, leading_records(f)) {
                                let k = done.len() as int;
                                assert(leading_records(f).take(k) == done);
                                assert(observe(m0, leading_records(f).take(k)) == records@);
                            }
                            if !leading {
                                assert(records@ == observe(observe(m0, leading_records(f)), extra));
                            }
                        }
                        return false;
                    }
                    records.insert(key, value);
                    proof {
                        if leading {
                            assert(done.push(rec).drop_last() =~= done);
                            done = done.push(rec);
                        } else {
                            assert(extra.push(rec).drop_last() =~= extra);
                            extra = extra.push(rec);
                        }
                    }
                },
            }
        }
    }
}

/// The observations that a frame's line offsets cut out of it: for each pair,
/// the name before the first offset and the value after it.
pub open spec fn records_from_offsets(f: Seq<u8>, offs: Seq<(int, int)>) -> Seq<(Seq<u8>, int)>
    decreases offs.len(),
{
    if offs.len() == 0 {
        Seq::empty()
    } else {
        let (a, b) = offs[0];
        seq![(f.take(a), super::func::signed_digits_value(f.subrange(a + 1, a + 1 + b)))]
            + records_from_offsets(f.skip(a + b + 2), offs.drop_first())
    }
}

/// On a well-formed frame the two parsers agree: every window that starts
/// the frame yields offsets of the frame's leading lines, and the offsets of
/// all lines cut out exactly the observations that the byte scan finds.
pub proof fn lemma_parser_equivalence(f: Seq<u8>)
    requires
        well_formed_frame(f),
    ensures
        records_from_offsets(f, line_offsets(f)) == frame_records(f),
        forall|l: int|
            0 <= l <= f.len() ==> #[trigger] sep_pairs(f.take(l)) == line_offsets(f).take(
                sep_pairs(f.take(l)).len() as int,
            ),
    decreases f.len(),
{
    assert forall|l: int| 0 <= l <= f.len() implies #[trigger] sep_pairs(f.take(l)) == line_offsets(f).take(
        sep_pairs(f.take(l)).len() as int,
    ) by {
        lemma_window_pairs(f, l);
    }
    if f.len() == 0 {
        assert(line_offsets(f) =~= Seq::<(int, int)>::empty());
        assert(frame_records(f) =~= Seq::<(Seq<u8>, int)>::empty());
    } else {
        lemma_first_line(f);
        let nl = super::line::find_byte(f, 10, 0);
        let sc = super::line::find_byte(f.take(nl as int), 59, 0);
        let rest = f.skip(nl as int + 1);
        lemma_parser_equivalence(rest);
        assert(line_offsets(f).drop_first() =~= line_offsets(rest));
        assert(f.skip(sc + (nl - sc - 1) + 2) =~= rest);
    }
}


} // verus!
