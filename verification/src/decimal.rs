//! Lengths as decimal ASCII digits.

use crate::byte_seq::first_index;
use vstd::prelude::*;

verus! {

/// ASCII `0`, the first of the ten digits.
pub const DIGIT_ZERO: u8 = 0x30;

/// ASCII `+`.
pub const PLUS: u8 = 0x2b;

/// `b` is one of the ASCII digits `0` to `9`.
pub open spec fn is_digit(b: u8) -> bool {
    DIGIT_ZERO <= b <= DIGIT_ZERO + 9
}

/// The decimal digits of `n`, most significant first, without leading zeros.
pub open spec fn decimal(n: nat) -> Seq<u8>
    decreases n,
{
    if n < 10 {
        seq![(DIGIT_ZERO + n) as u8]
    } else {
        decimal(n / 10).push((DIGIT_ZERO + n % 10) as u8)
    }
}

/// The number that a sequence of decimal digits spells.
pub open spec fn digits_value(digits: Seq<u8>) -> nat
    decreases digits.len(),
{
    if digits.len() == 0 {
        0
    } else {
        digits_value(digits.drop_last()) * 10 + (digits.last() - DIGIT_ZERO) as nat
    }
}

/// Every byte is a decimal digit.
pub open spec fn all_digits(digits: Seq<u8>) -> bool {
    forall|i: int| 0 <= i < digits.len() ==> is_digit(#[trigger] digits[i])
}

/// The number that `text` spells: an optional `+`, then one or more decimal
/// digits and nothing else. `None` for any other text.
pub open spec fn parse_decimal(text: Seq<u8>) -> Option<nat> {
    let digits = if text.len() > 0 && text[0] == PLUS {
        text.skip(1)
    } else {
        text
    };
    if digits.len() > 0 && all_digits(digits) {
        Some(digits_value(digits))
    } else {
        None
    }
}

/// The digits of a number are digits, at least one of them, and spell it.
pub proof fn lemma_decimal_digits(n: nat)
    ensures
        decimal(n).len() >= 1,
        all_digits(decimal(n)),
        digits_value(decimal(n)) == n,
        decimal(n)[0] != PLUS,
    decreases n,
{
    if n < 10 {
        let d = decimal(n);
        assert(d.drop_last() =~= Seq::<u8>::empty());
        assert(digits_value(d.drop_last()) == 0);
    } else {
        lemma_decimal_digits(n / 10);
        let d = decimal(n);
        assert(d.drop_last() =~= decimal(n / 10));
        assert(d[0] == decimal(n / 10)[0]);
    }
}

/// Reading back the digits of a number yields the number.
pub proof fn lemma_parse_decimal_of_decimal(n: nat)
    ensures
        parse_decimal(decimal(n)) == Some(n),
{
    lemma_decimal_digits(n);
}

/// The digits of a number hold no byte that is not a digit.
pub proof fn lemma_decimal_free_of(n: nat, b: u8)
    requires
        !is_digit(b),
    ensures
        !decimal(n).contains(b),
        first_index(decimal(n), b) == decimal(n).len(),
{
    lemma_decimal_digits(n);
    crate::byte_seq::lemma_first_index(decimal(n), b);
}

/// A longer run of digits spells no smaller a number than its beginning.
pub proof fn lemma_digits_value_prefix(digits: Seq<u8>, k: int)
    requires
        0 <= k <= digits.len(),
        all_digits(digits),
    ensures
        digits_value(digits.take(k)) <= digits_value(digits),
    decreases digits.len() - k,
{
    if k == digits.len() {
        assert(digits.take(k) =~= digits);
    } else {
        lemma_digits_value_prefix(digits, k + 1);
        let longer = digits.take(k + 1);
        assert(longer.drop_last() =~= digits.take(k));
        assert(is_digit(digits[k]));
        assert(longer.last() == digits[k]);
    }
}

/// Appends the decimal digits of `n` to `out`.
pub fn push_decimal(out: &mut Vec<u8>, n: usize)
    ensures
        final(out)@ == old(out)@ + decimal(n as nat),
    decreases n,
{
    if n >= 10 {
        push_decimal(out, n / 10);
    }
    let digit: u8 = (n % 10) as u8;
    out.push(DIGIT_ZERO + digit);
    assert(final(out)@ =~= old(out)@ + decimal(n as nat));
}

/// Reads a length: an optional `+`, then decimal digits. `None` where the
/// text is anything else or the number does not fit in `usize`.
pub fn read_decimal(text: &[u8]) -> (value: Option<usize>)
    ensures
        value == match parse_decimal(text@) {
            Some(n) => if n <= usize::MAX {
                Some(n as usize)
            } else {
                None
            },
            None => None,
        },
{
    let start: usize = if text.len() > 0 && text[0] == PLUS {
        1
    } else {
        0
    };
    let ghost digits = text@.skip(start as int);
    proof {
        assert(text@.skip(0) =~= text@);
    }
    if start == text.len() {
        return None;
    }
    let mut acc: usize = 0;
    let mut i: usize = start;
    while i < text.len()
        invariant
            start <= i <= text@.len(),
            digits == text@.skip(start as int),
            digits.len() > 0,
            digits == if text@.len() > 0 && text@[0] == PLUS {
                text@.skip(1)
            } else {
                text@
            },
            all_digits(digits.take(i - start)),
            acc == digits_value(digits.take(i - start)),
        decreases text@.len() - i,
    {
        let b = text[i];
        assert(digits[i - start] == b);
        if b < DIGIT_ZERO || b > DIGIT_ZERO + 9 {
            assert(!all_digits(digits));
            return None;
        }
        let ghost longer = digits.take(i - start + 1);
        proof {
            assert(longer.drop_last() =~= digits.take(i - start));
            assert(longer.last() == b);
            assert forall|k: int| 0 <= k < longer.len() implies is_digit(#[trigger] longer[k]) by {
                if k < i - start {
                    assert(longer[k] == digits.take(i - start)[k]);
                }
            }
        }
        let d: usize = (b - DIGIT_ZERO) as usize;
        let next = match acc.checked_mul(10) {
            Some(m) => m.checked_add(d),
            None => None,
        };
        match next {
            Some(v) => {
                acc = v;
            },
            None => {
                proof {
                    assert(digits_value(longer) > usize::MAX);
                    if all_digits(digits) {
                        lemma_digits_value_prefix(digits, i - start + 1);
                    }
                }
                return None;
            },
        }
        i = i + 1;
    }
    proof {
        assert(digits.take(i - start) =~= digits);
    }
    Some(acc)
}

} // verus!
