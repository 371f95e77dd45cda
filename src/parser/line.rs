//! The lines of a frame, and the parser that scans them byte by byte.

use vstd::prelude::*;

use super::func::{
    count_digits, digits_value, is_digit, leading_sign_value, lemma_count_digits_gaps,
    lemma_digits_value_bound, lemma_digits_value_prefix, lemma_pow10_monotone, pow10,
    signed_digits_value,
};
use super::hashable_buffer::LiteHashBuffer;
use super::models::{fits_all, insert_value, observe, StationRecords, Summary};
use crate::config::MAX_LINE_LENGTH;

verus! {

/// The index of the first `c` in `s` at or after `from`, or the length of `s` if there is none.
pub open spec fn find_byte(s: Seq<u8>, c: u8, from: nat) -> nat
    decreases s.len() - from,
{
    if from >= s.len() {
        s.len()
    } else if s[from as int] == c {
        from
    } else {
        find_byte(s, c, from + 1)
    }
}

/// `find_byte` finds the first `c` from `from` on.
pub proof fn lemma_find_byte(s: Seq<u8>, c: u8, from: nat)
    requires
        from <= s.len(),
    ensures
        from <= find_byte(s, c, from) <= s.len(),
        find_byte(s, c, from) < s.len() ==> s[find_byte(s, c, from) as int] == c,
        forall|i: int| from <= i < find_byte(s, c, from) ==> s[i] != c,
    decreases s.len() - from,
{
    if from < s.len() && s[from as int] != c {
        lemma_find_byte(s, c, from + 1);
    }
}

/// The name of a line: the bytes before its first `;`.
pub open spec fn line_name(line: Seq<u8>) -> Seq<u8> {
    line.take(find_byte(line, 59, 0) as int)
}

/// The value text of a line: the bytes after its first `;`.
pub open spec fn line_value(line: Seq<u8>) -> Seq<u8> {
    line.skip(find_byte(line, 59, 0) as int + 1)
}

/// The observation a line holds: its name and its value scaled by ten.
pub open spec fn line_record(line: Seq<u8>) -> (Seq<u8>, int) {
    (line_name(line), signed_digits_value(line_value(line)))
}

/// What follows the first line of a frame.
pub open spec fn after_first_line(f: Seq<u8>) -> Seq<u8> {
    let nl = find_byte(f, 10, 0);
    if nl < f.len() { f.skip(nl as int + 1) } else { Seq::empty() }
}

/// The observations of a frame, one per line, in order.
pub open spec fn frame_records(f: Seq<u8>) -> Seq<(Seq<u8>, int)>
    decreases f.len(),
{
    if f.len() == 0 {
        Seq::empty()
    } else {
        let nl = find_byte(f, 10, 0);
        let rest = if nl < f.len() { f.skip(nl as int + 1) } else { Seq::<u8>::empty() };
        if rest.len() < f.len() {
            seq![line_record(f.take(nl as int))] + frame_records(rest)
        } else {
            seq![line_record(f.take(nl as int))]
        }
    }
}

/// A station name: one to `MAX_LINE_LENGTH - 7` bytes, none of them `;` or a newline.
pub open spec fn is_name(n: Seq<u8>) -> bool {
    &&& 0 < n.len() <= MAX_LINE_LENGTH - 7
    &&& forall|i: int| 0 <= i < n.len() ==> n[i] != 59 && n[i] != 10
}

/// A temperature without its minus sign, if it has one.
pub open spec fn unsigned_part(v: Seq<u8>) -> Seq<u8> {
    if v.len() > 0 && v[0] == 45 { v.skip(1) } else { v }
}

/// A temperature: an optional minus, one to three digits, a dot and one digit.
pub open spec fn is_value(v: Seq<u8>) -> bool {
    let d = unsigned_part(v);
    &&& 3 <= d.len() <= 5
    &&& d[d.len() - 2] == 46
    &&& forall|i: int| 0 <= i < d.len() && i != d.len() - 2 ==> is_digit(d[i])
}

/// A line without its newline: a name, `;` and a temperature.
pub open spec fn is_line(line: Seq<u8>) -> bool {
    let semi = find_byte(line, 59, 0);
    &&& semi < line.len()
    &&& is_name(line.take(semi as int))
    &&& is_value(line.skip(semi as int + 1))
}

/// A frame of whole lines, each ending with a newline.
pub open spec fn well_formed_frame(f: Seq<u8>) -> bool
    decreases f.len(),
{
    if f.len() == 0 {
        true
    } else {
        let nl = find_byte(f, 10, 0);
        if nl < f.len() && f.skip(nl as int + 1).len() < f.len() {
            is_line(f.take(nl as int)) && well_formed_frame(f.skip(nl as int + 1))
        } else {
            false
        }
    }
}

/// A temperature spells at most four digits, and its sign is its first byte.
pub proof fn lemma_value_facts(v: Seq<u8>)
    requires
        is_value(v),
    ensures
        digits_value(v) <= 9999,
        count_digits(v) <= 4,
        signed_digits_value(v) == leading_sign_value(v),
        forall|i: int| 0 <= i < v.len() ==> v[i] != 59 && v[i] != 10,
{
    let neg = v.len() > 0 && v[0] == 45;
    let d = unsigned_part(v);
    let dot = d.len() - 2;
    if neg {
        assert(v[dot + 1] == d[dot]);
        lemma_count_digits_gaps(v, 0, dot + 1);
        assert(v[0] == 45u8);
    } else {
        assert(d == v);
        lemma_count_digits_gaps(v, dot, dot);
        assert forall|i: int| 0 <= i < v.len() implies v[i] != 45u8 by {
            if i != dot {
                assert(is_digit(d[i]));
            }
        }
    }
    assert forall|i: int| 0 <= i < v.len() implies v[i] != 59 && v[i] != 10 by {
        if neg {
            if i > 0 && i - 1 != dot {
                assert(v[i] == d[i - 1]);
                assert(is_digit(d[i - 1]));
            }
        } else if i != dot {
            assert(is_digit(d[i]));
        }
    }
    lemma_digits_value_bound(v);
    assert(pow10(4) == 10000) by {
        reveal_with_fuel(pow10, 5);
    }
    lemma_pow10_monotone(count_digits(v), 4);
}

/// Parse the name that starts at `start`: the bytes up to the next `;` or newline.
///
/// Returns the name and the index of the byte that ended it (the length of
/// `bytes` if none did).
pub fn parse_name(bytes: &[u8], start: usize) -> (r: (LiteHashBuffer, usize))
    requires
        start <= bytes@.len(),
    ensures
        start <= r.1 <= bytes@.len(),
        r.1 < bytes@.len() ==> bytes@[r.1 as int] == 59 || bytes@[r.1 as int] == 10,
        forall|i: int| start <= i < r.1 ==> bytes@[i] != 59 && bytes@[i] != 10,
        r.0@ == bytes@.subrange(start as int, r.1 as int),
{
    let mut end: usize = start;
    let mut name: Vec<u8> = Vec::new();
    while end < bytes.len()
        invariant
            start <= end <= bytes@.len(),
            forall|i: int| start <= i < end ==> bytes@[i] != 59 && bytes@[i] != 10,
            name@ == bytes@.subrange(start as int, end as int),
        ensures
            start <= end <= bytes@.len(),
            forall|i: int| start <= i < end ==> bytes@[i] != 59 && bytes@[i] != 10,
            name@ == bytes@.subrange(start as int, end as int),
            end < bytes@.len() ==> bytes@[end as int] == 59 || bytes@[end as int] == 10,
        decreases bytes.len() - end,
    {
        let c = bytes[end];
        if c == 59 || c == 10 {
            break;
        }
        name.push(c);
        end = end + 1;
        proof {
            assert(name@ =~= bytes@.subrange(start as int, end as int));
        }
    }
    (LiteHashBuffer::new(name), end)
}

/// Parse the temperature that starts at `start`, up to the next newline,
/// scaled by ten: `535.4` gives `5354`, `-535.4` gives `-5354`.
///
/// Digits are read in order and other bytes skipped; a minus sign as the
/// first byte makes the value negative. Returns the value and the index of
/// the newline (the length of `bytes` if there is none).
pub fn parse_value(bytes: &[u8], start: usize) -> (r: (i16, usize))
    requires
        start <= bytes@.len(),
    ensures
        start <= r.1 <= bytes@.len(),
        r.1 < bytes@.len() ==> bytes@[r.1 as int] == 10,
        forall|i: int| start <= i < r.1 ==> bytes@[i] != 10,
        digits_value(bytes@.subrange(start as int, r.1 as int)) <= i16::MAX ==> r.0
            == leading_sign_value(bytes@.subrange(start as int, r.1 as int)),
{
    let mut end: usize = start;
    let mut acc: u32 = 0;
    let negative = start < bytes.len() && bytes[start] == 45;
    while end < bytes.len()
        invariant
            start <= end <= bytes@.len(),
            forall|i: int| start <= i < end ==> bytes@[i] != 10,
            acc <= 999999,
            digits_value(bytes@.subrange(start as int, end as int)) < 100000 ==> acc == digits_value(
                bytes@.subrange(start as int, end as int),
            ),
            digits_value(bytes@.subrange(start as int, end as int)) >= 100000 ==> acc >= 100000,
        ensures
            start <= end <= bytes@.len(),
            forall|i: int| start <= i < end ==> bytes@[i] != 10,
            end < bytes@.len() ==> bytes@[end as int] == 10,
            digits_value(bytes@.subrange(start as int, end as int)) < 100000 ==> acc == digits_value(
                bytes@.subrange(start as int, end as int),
            ),
            digits_value(bytes@.subrange(start as int, end as int)) >= 100000 ==> acc >= 100000,
        decreases bytes.len() - end,
    {
        let c = bytes[end];
        if c == 10 {
            break;
        }
        let ghost before = bytes@.subrange(start as int, end as int);
        let ghost after = bytes@.subrange(start as int, end + 1);
        proof {
            assert(after.drop_last() =~= before);
            lemma_digits_value_prefix(after, before.len() as int);
            assert(after.take(before.len() as int) =~= before);
        }
        if 48 <= c && c <= 57 && acc < 100000 {
            acc = acc * 10 + (c - 48) as u32;
        }
        end = end + 1;
    }
    let v: i16 = if acc <= 32767 { acc as i16 } else { 0 };
    if negative {
        (-v, end)
    } else {
        (v, end)
    }
}

/// What scanning one line of a well-formed frame finds.
proof fn lemma_line_scan(f: Seq<u8>, pos: int, semi: int, nl: int)
    requires
        0 <= pos < f.len(),
        starts_with_line(f.skip(pos)),
        pos <= semi <= f.len(),
        semi < f.len() ==> f[semi] == 59 || f[semi] == 10,
        forall|i: int| pos <= i < semi ==> f[i] != 59 && f[i] != 10,
        semi < f.len() ==> {
            &&& semi + 1 <= nl <= f.len()
            &&& nl < f.len() ==> f[nl] == 10
            &&& forall|i: int| semi + 1 <= i < nl ==> f[i] != 10
        },
    ensures
        semi < nl < f.len(),
        f[semi] == 59,
        ({
            let s = f.skip(pos);
            let line = s.take(find_byte(s, 10, 0) as int);
            &&& f.subrange(pos, semi) == line_name(line)
            &&& f.subrange(semi + 1, nl) == line_value(line)
            &&& frame_records(s) == seq![line_record(line)] + frame_records(f.skip(nl + 1))
            &&& leading_records(s) == seq![line_record(line)] + leading_records(f.skip(nl + 1))
            &&& after_first_line(s) == f.skip(nl + 1)
            &&& is_value(line_value(line))
        }),
{
    let s = f.skip(pos);
    let n = find_byte(s, 10, 0);
    lemma_find_byte(s, 10, 0);
    let line = s.take(n as int);
    let sc = find_byte(line, 59, 0);
    lemma_find_byte(line, 59, 0);
    assert(n < s.len());
    assert(sc < line.len());
    // The name ends at the first `;` of the line.
    if semi < pos + sc {
        assert(f[semi] == s[semi - pos]);
        assert(line[semi - pos] == s[semi - pos]);
    }
    if semi > pos + sc {
        assert(f[pos + sc] == line[sc as int]);
    }
    assert(semi == pos + sc);
    assert(f[semi] == 59);
    // The value ends at the newline of the line.
    if nl < pos + n {
        assert(f[nl] == s[nl - pos]);
    }
    if nl > pos + n {
        assert(f[pos + n] == s[n as int]);
    }
    assert(nl == pos + n);
    assert(f.subrange(pos, semi) =~= line_name(line));
    assert(f.subrange(semi + 1, nl) =~= line_value(line));
    assert(s.skip(n as int + 1) =~= f.skip(nl + 1));
    lemma_leading_step(s);
    lemma_line_start(s);
}

/// Parse a frame into `records`, one line at a time.
///
/// The whole well-formed lines the frame begins with are recorded first, in
/// order; in a well-formed frame that is every line. Returns `false`, leaving
/// the frame partly recorded, when a station's sum or count would no longer
/// fit its record.
pub fn parse_bytes(bytes: &[u8], records: &mut StationRecords) -> (r: bool)
    requires
        old(records).wf(),
    ensures
        final(records).wf(),
        fits_all(old(records)@, leading_records(bytes@)) ==> exists|extra: Seq<(Seq<u8>, int)>|
            final(records)@ == observe(observe(old(records)@, leading_records(bytes@)), extra),
        well_formed_frame(bytes@) && fits_all(old(records)@, frame_records(bytes@)) ==> r,
        well_formed_frame(bytes@) && r ==> final(records)@ == observe(old(records)@, frame_records(bytes@)),
{
    let ghost f = bytes@;
    let ghost m0 = records@;
    let ghost mut done: Seq<(Seq<u8>, int)> = Seq::empty();
    let ghost mut extra: Seq<(Seq<u8>, int)> = Seq::empty();
    let ghost mut leading = true;
    let mut pos: usize = 0;
    proof {
        assert(f.skip(0) =~= f);
        lemma_leading_of_well_formed(f);
    }
    while pos < bytes.len()
        invariant
            f == bytes@,
            m0 == old(records)@,
            pos <= bytes@.len(),
            records.wf(),
            leading ==> {
                &&& leading_records(f) == done + leading_records(f.skip(pos as int))
                &&& records@ == observe(m0, done)
            },
            !leading ==> {
                &&& done == leading_records(f)
                &&& records@ == observe(observe(m0, done), extra)
            },
            well_formed_frame(f) ==> leading && well_formed_frame(f.skip(pos as int)),
            well_formed_frame(f) ==> leading_records(f) == frame_records(f),
        decreases bytes.len() - pos,
    {
        let ghost rem = f.skip(pos as int);
        proof {
            if leading && !starts_with_line(rem) {
                assert(leading_records(rem) =~= Seq::<(Seq<u8>, int)>::empty());
                assert(done + leading_records(rem) =~= done);
                leading = false;
                extra = Seq::empty();
                assert(observe(observe(m0, done), extra) == observe(m0, done));
            }
            if well_formed_frame(f) {
                lemma_first_line(rem);
            }
        }
        let (name, semi) = parse_name(bytes, pos);
        if semi >= bytes.len() {
            proof {
                if leading {
                    lemma_line_scan(f, pos as int, semi as int, semi as int);
                }
                assert(records@ == observe(observe(m0, leading_records(f)), extra));
            }
            return true;
        }
        let (value, nl) = parse_value(bytes, semi + 1);
        let ghost rec = (name@, value as int);
        proof {
            if leading {
                lemma_line_scan(f, pos as int, semi as int, nl as int);
                let line = rem.take(find_byte(rem, 10, 0) as int);
                lemma_value_facts(line_value(line));
                assert(rec == line_record(line));
                assert(leading_records(f) == done.push(rec) + leading_records(f.skip(nl + 1))) by {
                    assert(done + (seq![rec] + leading_records(f.skip(nl + 1))) =~= done.push(rec)
                        + leading_records(f.skip(nl + 1)));
                }
                assert(leading_records(f).take(done.len() as int) =~= done);
                assert(leading_records(f)[done.len() as int] == rec);
                if well_formed_frame(f) {
                    assert(f.skip(nl + 1) == after_first_line(rem));
                }
            }
        }
        if !records.can_insert(&name, value) {
            proof {
                if leading && fits_all(m0, leading_records(f)) {
                    let k = done.len() as int;
                    assert(leading_records(f).take(k) == done);
                    assert(observe(m0, leading_records(f).take(k)) == records@);
                }
                if !leading {
                    assert(records@ == observe(observe(m0, leading_records(f)), extra));
                }
            }
            return false;
        }
        records.insert(name, value);
        proof {
            if leading {
                assert(done.push(rec).drop_last() =~= done);
                done = done.push(rec);
            } else {
                assert(extra.push(rec).drop_last() =~= extra);
                extra = extra.push(rec);
                assert(records@ == observe(observe(m0, done), extra));
            }
        }
        if nl >= bytes.len() {
            // Only a frame whose last line has no newline gets here.
            proof {
                if leading {
                    lemma_line_scan(f, pos as int, semi as int, nl as int);
                }
                assert(records@ == observe(observe(m0, leading_records(f)), extra));
            }
            return true;
        }
        pos = nl + 1;
    }
    proof {
        if leading {
            assert(f.skip(pos as int) =~= Seq::<u8>::empty());
            assert(leading_records(f.skip(pos as int)) =~= Seq::<(Seq<u8>, int)>::empty());
            assert(done + leading_records(f.skip(pos as int)) =~= done);
            assert(observe(observe(m0, done), Seq::empty()) == observe(m0, done));
        }
    }
    true
}

/// The offsets of each line of a frame: the length of its name, and the
/// length of its value text.
pub open spec fn line_offsets(s: Seq<u8>) -> Seq<(int, int)>
    decreases s.len(),
{
    if s.len() == 0 {
        Seq::empty()
    } else {
        let nl = find_byte(s, 10, 0);
        let sc = find_byte(s.take(nl as int), 59, 0);
        let rest = after_first_line(s);
        if rest.len() < s.len() {
            seq![(sc as int, nl - sc - 1)] + line_offsets(rest)
        } else {
            seq![(sc as int, nl - sc - 1)]
        }
    }
}

/// Whether `s` begins with a whole well-formed line, its newline included.
pub open spec fn starts_with_line(s: Seq<u8>) -> bool {
    let nl = find_byte(s, 10, 0);
    nl < s.len() && is_line(s.take(nl as int))
}

/// The observations of the whole well-formed lines a frame begins with, up
/// to its first line that is not one.
pub open spec fn leading_records(f: Seq<u8>) -> Seq<(Seq<u8>, int)>
    decreases f.len(),
{
    if starts_with_line(f) && after_first_line(f).len() < f.len() {
        seq![line_record(f.take(find_byte(f, 10, 0) as int))] + leading_records(after_first_line(f))
    } else {
        Seq::empty()
    }
}

/// Past a leading well-formed line, the leading observations go on.
pub proof fn lemma_leading_step(s: Seq<u8>)
    requires
        starts_with_line(s),
    ensures
        leading_records(s) == seq![frame_records(s)[0]] + leading_records(after_first_line(s)),
        after_first_line(s).len() < s.len(),
{
    lemma_line_start(s);
}

/// In a well-formed frame every line is a leading one.
pub proof fn lemma_leading_of_well_formed(f: Seq<u8>)
    ensures
        well_formed_frame(f) ==> leading_records(f) == frame_records(f),
    decreases f.len(),
{
    if well_formed_frame(f) && f.len() > 0 {
        lemma_first_line(f);
        lemma_leading_of_well_formed(f.skip(find_byte(f, 10, 0) as int + 1));
    }
}

/// The first line of bytes that begin with a well-formed line: where its `;`
/// and newline stand, and what it holds.
pub proof fn lemma_line_start(s: Seq<u8>)
    requires
        starts_with_line(s),
    ensures
        ({
            let nl = find_byte(s, 10, 0);
            let sc = find_byte(s.take(nl as int), 59, 0);
            &&& sc < nl < s.len()
            &&& nl <= MAX_LINE_LENGTH
            &&& s[sc as int] == 59
            &&& s[nl as int] == 10
            &&& forall|i: int| 0 <= i < sc ==> s[i] != 59 && s[i] != 10
            &&& forall|i: int| sc < i < nl ==> s[i] != 59 && s[i] != 10
            &&& after_first_line(s) == s.skip(nl as int + 1)
            &&& line_offsets(s) == seq![(sc as int, nl - sc - 1)] + line_offsets(s.skip(nl as int + 1))
            &&& frame_records(s) == seq![line_record(s.take(nl as int))] + frame_records(s.skip(nl as int + 1))
            &&& line_name(s.take(nl as int)) == s.take(sc as int)
            &&& line_value(s.take(nl as int)) == s.subrange(sc as int + 1, nl as int)
            &&& is_value(s.subrange(sc as int + 1, nl as int))
        }),
{
    let nl = find_byte(s, 10, 0);
    lemma_find_byte(s, 10, 0);
    let line = s.take(nl as int);
    let sc = find_byte(line, 59, 0);
    lemma_find_byte(line, 59, 0);
    let v = line.skip(sc as int + 1);
    lemma_value_facts(v);
    assert(line.take(sc as int) =~= s.take(sc as int));
    assert(v =~= s.subrange(sc as int + 1, nl as int));
    assert forall|i: int| 0 <= i < sc implies s[i] != 59 && s[i] != 10 by {
        assert(s[i] == line[i]);
    }
    assert forall|i: int| sc < i < nl implies s[i] != 59 && s[i] != 10 by {
        assert(s[i] == v[i - sc - 1]);
    }
    assert(s[sc as int] == line[sc as int]);
    assert(v.len() <= 6);
    assert(line.len() == sc + 1 + v.len());
    assert(after_first_line(s) == s.skip(nl as int + 1));
    assert(s.skip(nl as int + 1).len() < s.len());
    assert(line_offsets(s) == seq![(sc as int, nl - sc - 1)] + line_offsets(s.skip(nl as int + 1)));
    assert(frame_records(s) == seq![line_record(s.take(nl as int))] + frame_records(s.skip(nl as int + 1)));
}

/// The first line of a well-formed frame: where its `;` and newline stand.
pub proof fn lemma_first_line(s: Seq<u8>)
    requires
        well_formed_frame(s),
        s.len() > 0,
    ensures
        starts_with_line(s),
        ({
            let nl = find_byte(s, 10, 0);
            let sc = find_byte(s.take(nl as int), 59, 0);
            &&& sc < nl < s.len()
            &&& nl <= MAX_LINE_LENGTH
            &&& s[sc as int] == 59
            &&& s[nl as int] == 10
            &&& forall|i: int| 0 <= i < sc ==> s[i] != 59 && s[i] != 10
            &&& forall|i: int| sc < i < nl ==> s[i] != 59 && s[i] != 10
            &&& after_first_line(s) == s.skip(nl as int + 1)
            &&& well_formed_frame(s.skip(nl as int + 1))
            &&& line_offsets(s) == seq![(sc as int, nl - sc - 1)] + line_offsets(s.skip(nl as int + 1))
            &&& frame_records(s) == seq![line_record(s.take(nl as int))] + frame_records(s.skip(nl as int + 1))
            &&& line_name(s.take(nl as int)) == s.take(sc as int)
            &&& line_value(s.take(nl as int)) == s.subrange(sc as int + 1, nl as int)
            &&& is_value(s.subrange(sc as int + 1, nl as int))
        }),
{
    lemma_line_start(s);
}

} // verus!
