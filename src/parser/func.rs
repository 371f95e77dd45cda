//! Parsing utility functions.

use vstd::prelude::*;

verus! {

/// Whether `c` is an ASCII digit.
pub open spec fn is_digit(c: u8) -> bool {
    48 <= c <= 57
}

/// The number that the ASCII digits of `s` spell, read in order; other bytes are skipped.
pub open spec fn digits_value(s: Seq<u8>) -> nat
    decreases s.len(),
{
    if s.len() == 0 {
        0
    } else {
        let acc = digits_value(s.drop_last());
        if is_digit(s.last()) {
            acc * 10 + (s.last() - 48) as nat
        } else {
            acc
        }
    }
}

/// The number that `s` spells where a minus sign anywhere makes it negative.
pub open spec fn signed_digits_value(s: Seq<u8>) -> int {
    if s.contains(45u8) {
        -(digits_value(s) as int)
    } else {
        digits_value(s) as int
    }
}

/// Reading more bytes never makes the number smaller.
pub proof fn lemma_digits_value_prefix(s: Seq<u8>, i: int)
    requires
        0 <= i <= s.len(),
    ensures
        digits_value(s.take(i)) <= digits_value(s),
    decreases s.len() - i,
{
    if i < s.len() {
        lemma_digits_value_prefix(s, i + 1);
        assert(s.take(i + 1).drop_last() =~= s.take(i));
    } else {
        assert(s.take(i) =~= s);
    }
}

/// How many ASCII digits `s` holds.
pub open spec fn count_digits(s: Seq<u8>) -> nat
    decreases s.len(),
{
    if s.len() == 0 {
        0
    } else {
        count_digits(s.drop_last()) + if is_digit(s.last()) { 1nat } else { 0nat }
    }
}

/// `10` to the power `n`.
pub open spec fn pow10(n: nat) -> nat
    decreases n,
{
    if n == 0 { 1 } else { 10 * pow10((n - 1) as nat) }
}

/// Powers of ten grow with the exponent.
pub proof fn lemma_pow10_monotone(a: nat, b: nat)
    requires
        a <= b,
    ensures
        pow10(a) <= pow10(b),
    decreases b,
{
    if a < b {
        lemma_pow10_monotone(a, (b - 1) as nat);
    }
}

/// The number that `k` digits spell stays below `10` to the power `k`.
pub proof fn lemma_digits_value_bound(s: Seq<u8>)
    ensures
        digits_value(s) < pow10(count_digits(s)),
    decreases s.len(),
{
    if s.len() > 0 {
        lemma_digits_value_bound(s.drop_last());
    }
}

/// Each byte that is not a digit lowers the count of digits below the length.
pub proof fn lemma_count_digits_gaps(s: Seq<u8>, i: int, j: int)
    requires
        0 <= i < s.len(),
        0 <= j < s.len(),
        !is_digit(s[i]),
        !is_digit(s[j]),
    ensures
        count_digits(s) <= s.len() - (if i == j { 1int } else { 2int }),
    decreases s.len(),
{
    let t = s.drop_last();
    let last = s.len() - 1;
    if i == last && j == last {
        lemma_count_digits_len(t);
    } else if i == last {
        lemma_count_digits_gaps(t, j, j);
    } else if j == last {
        lemma_count_digits_gaps(t, i, i);
    } else {
        lemma_count_digits_gaps(t, i, j);
    }
}

pub proof fn lemma_count_digits_len(s: Seq<u8>)
    ensures
        count_digits(s) <= s.len(),
    decreases s.len(),
{
    if s.len() > 0 {
        lemma_count_digits_len(s.drop_last());
    }
}

/// The number that `s` spells, negative when `s` starts with a minus sign.
pub open spec fn leading_sign_value(s: Seq<u8>) -> int {
    if s.len() > 0 && s[0] == 45 {
        -(digits_value(s) as int)
    } else {
        digits_value(s) as int
    }
}

/// The value of an ASCII digit; the byte is expected to be one.
pub fn u8_to_digit(byte: u8) -> (r: u8)
    ensures
        r == byte & 15,
        is_digit(byte) ==> r == byte - 48,
{
    proof {
        assert(48 <= byte <= 57 ==> byte & 15 == byte - 48) by (bit_vector);
    }
    byte & 15
}

/// Builds a number from a slice of ASCII encoded digits.
///
/// Bytes that are not digits are skipped; a minus sign anywhere negates the result.
pub fn digits_to_number(digits: &[u8]) -> (r: i16)
    requires
        digits_value(digits@) <= i16::MAX,
    ensures
        r == signed_digits_value(digits@),
{
    let mut multiplier: i16 = 1;
    let mut acc: i16 = 0;
    let mut i: usize = 0;
    while i < digits.len()
        invariant
            0 <= i <= digits@.len(),
            digits_value(digits@) <= i16::MAX,
            acc == digits_value(digits@.take(i as int)),
            multiplier == (if digits@.take(i as int).contains(45u8) { -1int } else { 1int }),
        decreases digits.len() - i,
    {
        let c = digits[i];
        proof {
            lemma_digits_value_prefix(digits@, i + 1);
            assert(digits@.take(i + 1).drop_last() =~= digits@.take(i as int));
            assert(digits@.take(i + 1).last() == c);
        }
        if 48 <= c && c <= 57 {
            acc = acc * 10 + u8_to_digit(c) as i16;
        } else if c == 45 {
            multiplier = -1;
        }
        proof {
            let t = digits@.take(i + 1);
            assert(t =~= digits@.take(i as int).push(c));
            if c == 45 {
                assert(t[i as int] == 45u8);
            } else if digits@.take(i as int).contains(45u8) {
                let j = choose|j: int| 0 <= j < i && digits@.take(i as int)[j] == 45u8;
                assert(t[j] == 45u8);
            } else {
                assert forall|j: int| 0 <= j < t.len() implies t[j] != 45u8 by {
                    if j < i {
                        assert(t[j] == digits@.take(i as int)[j]);
                    }
                }
            }
        }
        i = i + 1;
    }
    proof {
        assert(digits@.take(i as int) =~= digits@);
    }
    acc * multiplier
}

/// What `String::from_utf8_lossy` makes of the bytes `b`.
pub uninterp spec fn utf8_lossy(b: Seq<u8>) -> Seq<char>;

/// Whether every byte of `b` is ASCII.
pub open spec fn is_ascii_bytes(b: Seq<u8>) -> bool {
    forall|i: int| 0 <= i < b.len() ==> b[i] < 128
}

/// The characters of ASCII bytes, one for one.
pub open spec fn ascii_chars(b: Seq<u8>) -> Seq<char> {
    b.map_values(|c: u8| c as char)
}

/// Relies on `String::from_utf8_lossy`: the text depends on the bytes alone,
/// and ASCII bytes become the same characters, one for one.
#[verifier::external_body]
pub fn bytes_to_string(bytes: &[u8]) -> (r: String)
    ensures
        r@ == utf8_lossy(bytes@),
        is_ascii_bytes(bytes@) ==> r@ == ascii_chars(bytes@),
{
    String::from_utf8_lossy(bytes).into_owned()
}

} // verus!
