//! Writing scaled temperatures as decimal text.

use vstd::prelude::*;

use super::func::is_ascii_bytes;

verus! {

/// The decimal digits of `n`, most significant first, as ASCII bytes.
pub open spec fn decimal_digits(n: nat) -> Seq<u8>
    decreases n,
{
    if n < 10 {
        seq![(48 + n) as u8]
    } else {
        decimal_digits(n / 10) + seq![(48 + n % 10) as u8]
    }
}

/// The magnitude of an integer.
pub open spec fn abs_int(t: int) -> nat {
    if t < 0 { (-t) as nat } else { t as nat }
}

/// A value scaled by ten written with one fractional digit: `-12.3` for `-123`.
pub open spec fn tenths_text(t: int) -> Seq<u8> {
    let a = abs_int(t);
    (if t < 0 { seq![45u8] } else { Seq::<u8>::empty() }) + decimal_digits(a / 10) + seq![
        46u8,
        (48 + a % 10) as u8,
    ]
}

/// `sum / count` rounded to the nearest integer, halves away from zero.
pub open spec fn rounded_mean(sum: int, count: nat) -> int {
    if sum >= 0 {
        (2 * sum + count) / (2 * count) as int
    } else {
        -((2 * (-sum) + count) / (2 * count) as int)
    }
}

proof fn lemma_quotient_bound(s: int, c: int, q: int, r: int)
    requires
        s >= 0,
        c >= 1,
        2 * s + c == (2 * c) * q + r,
        0 <= r < 2 * c,
    ensures
        0 <= q <= s,
{
    assert(q >= 0) by (nonlinear_arith)
        requires
            s >= 0,
            c >= 1,
            2 * s + c == (2 * c) * q + r,
            r < 2 * c,
    ;
    assert(q <= s) by (nonlinear_arith)
        requires
            s >= 0,
            c >= 1,
            2 * s + c == (2 * c) * q + r,
            0 <= r,
    ;
}

proof fn lemma_decimal_digits_ascii(n: nat)
    ensures
        is_ascii_bytes(decimal_digits(n)),
    decreases n,
{
    if n >= 10 {
        lemma_decimal_digits_ascii(n / 10);
    }
}

/// The text of a value scaled by ten is ASCII.
pub proof fn lemma_tenths_text_ascii(t: int)
    ensures
        is_ascii_bytes(tenths_text(t)),
{
    lemma_decimal_digits_ascii(abs_int(t) / 10);
}

/// Push the decimal digits of `n` onto `out`.
pub fn push_decimal(out: &mut Vec<u8>, n: u64)
    ensures
        final(out)@ == old(out)@ + decimal_digits(n as nat),
    decreases n,
{
    if n >= 10 {
        push_decimal(out, n / 10);
    }
    out.push(48 + (n % 10) as u8);
    proof {
        if n >= 10 {
            assert(final(out)@ =~= old(out)@ + decimal_digits(n as nat));
        } else {
            assert(final(out)@ =~= old(out)@ + decimal_digits(n as nat));
        }
    }
}

/// Push a value scaled by ten onto `out`, with one fractional digit.
pub fn push_tenths(out: &mut Vec<u8>, t: i64)
    requires
        t > i64::MIN,
    ensures
        final(out)@ == old(out)@ + tenths_text(t as int),
{
    if t < 0 {
        out.push(45);
    }
    let a: u64 = if t < 0 { (-t) as u64 } else { t as u64 };
    push_decimal(out, a / 10);
    out.push(46);
    out.push(48 + (a % 10) as u8);
    proof {
        assert(final(out)@ =~= old(out)@ + tenths_text(t as int));
    }
}

/// The mean of `count` values summing to `sum`, rounded to an integer.
pub fn mean_of(sum: i32, count: usize) -> (r: i64)
    requires
        count > 0,
    ensures
        r == rounded_mean(sum as int, count as nat),
        abs_int(r as int) <= abs_int(sum as int),
{
    let c = count as u128;
    let s: u128 = if sum < 0 { (-(sum as i64)) as u128 } else { sum as u128 };
    let q = (2 * s + c) / (2 * c);
    proof {
        let si = s as int;
        let ci = c as int;
        vstd::arithmetic::div_mod::lemma_fundamental_div_mod(2 * si + ci, 2 * ci);
        lemma_quotient_bound(si, ci, (2 * si + ci) / (2 * ci), (2 * si + ci) % (2 * ci));
    }
    if sum < 0 {
        -(q as i64)
    } else {
        q as i64
    }
}

} // verus!
