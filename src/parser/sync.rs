//! Parsing a temperature held whole in a slice.

use vstd::prelude::*;

use super::func::{digits_value, leading_sign_value, lemma_digits_value_prefix, u8_to_digit};

verus! {

/// Parse a temperature scaled by ten: `535.4` gives `5354`, `-535.4` gives `-5354`.
///
/// Digits are read in order and other bytes skipped; a minus sign as the first
/// byte makes the value negative.
pub fn parse_value(bytes: &[u8]) -> (r: i16)
    requires
        bytes@.len() > 0,
        digits_value(bytes@) <= i16::MAX,
    ensures
        r == leading_sign_value(bytes@),
{
    let multiplier: i16 = if bytes[0] == 45 { -1 } else { 1 };
    let mut acc: i16 = 0;
    let mut i: usize = 0;
    while i < bytes.len()
        invariant
            0 <= i <= bytes@.len(),
            digits_value(bytes@) <= i16::MAX,
            acc == digits_value(bytes@.take(i as int)),
        decreases bytes.len() - i,
    {
        let c = bytes[i];
        proof {
            lemma_digits_value_prefix(bytes@, i + 1);
            assert(bytes@.take(i + 1).drop_last() =~= bytes@.take(i as int));
        }
        if 48 <= c && c <= 57 {
            acc = acc * 10 + u8_to_digit(c) as i16;
        }
        i = i + 1;
    }
    proof {
        assert(bytes@.take(i as int) =~= bytes@);
    }
    acc * multiplier
}

} // verus!
