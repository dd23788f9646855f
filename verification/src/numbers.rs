//! Parsing of signed 64-bit integers from token text.
//!
//! A token is a number exactly when it consists of an optional `+` or `-`
//! sign followed by one or more ASCII digits, and its value fits in an
//! `i64`. Any other text — including a numeral whose value overflows — is
//! not a number and becomes an ordinary word.

use vstd::prelude::*;

verus! {

/// An ASCII decimal digit.
pub open spec fn spec_is_digit(c: char) -> bool {
    0x30 <= c as int && c as int <= 0x39
}

/// The numeric value of an ASCII decimal digit.
pub open spec fn spec_digit_value(c: char) -> int {
    c as int - 0x30
}

/// Every character of the sequence is an ASCII decimal digit.
pub open spec fn spec_all_digits(s: Seq<char>) -> bool {
    forall|i: int| 0 <= i < s.len() ==> spec_is_digit(#[trigger] s[i])
}

/// The non-negative value denoted by a sequence of decimal digits,
/// most significant digit first.
pub open spec fn spec_digits_value(s: Seq<char>) -> int
    decreases s.len(),
{
    if s.len() == 0 {
        0
    } else {
        spec_digits_value(s.drop_last()) * 10 + spec_digit_value(s.last())
    }
}

/// What parsing the text as an `i64` yields: `Some` exactly on an optional
/// sign followed by at least one digit whose value is representable.
pub open spec fn spec_parse_i64(s: Seq<char>) -> Option<i64> {
    let signed = s.len() > 0 && (s[0] == '-' || s[0] == '+');
    let negative = s.len() > 0 && s[0] == '-';
    let digits = if signed {
        s.drop_first()
    } else {
        s
    };
    if digits.len() > 0 && spec_all_digits(digits) {
        let v = spec_digits_value(digits);
        if negative {
            if v <= 0x8000_0000_0000_0000 {
                Some((-v) as i64)
            } else {
                None
            }
        } else {
            if v <= 0x7FFF_FFFF_FFFF_FFFF {
                Some(v as i64)
            } else {
                None
            }
        }
    } else {
        None
    }
}

/// A digit sequence is worth at least any of its prefixes.
proof fn lemma_digits_value_prefix_le(s: Seq<char>, n: int)
    requires
        0 <= n <= s.len(),
        spec_all_digits(s),
    ensures
        spec_digits_value(s.take(n)) <= spec_digits_value(s),
        spec_digits_value(s) >= 0,
    decreases s.len() - n,
{
    if n == s.len() {
        assert(s.take(n) == s);
        lemma_digits_value_nonneg(s);
    } else {
        lemma_digits_value_prefix_le(s, n + 1);
        assert(s.take(n + 1).drop_last() == s.take(n));
        lemma_digits_value_nonneg(s.take(n));
    }
}

/// The value of a digit sequence is non-negative.
proof fn lemma_digits_value_nonneg(s: Seq<char>)
    requires
        spec_all_digits(s),
    ensures
        spec_digits_value(s) >= 0,
    decreases s.len(),
{
    if s.len() > 0 {
        assert(spec_all_digits(s.drop_last())) by {
            assert(forall|i: int|
                0 <= i < s.len() - 1 ==> s.drop_last()[i] == #[trigger] s[i]);
        }
        lemma_digits_value_nonneg(s.drop_last());
    }
}

/// Parses the text as a signed 64-bit integer, returning `None` on any
/// text that is not a numeral or whose value does not fit.
pub fn parse_i64(s: &str) -> (r: Option<i64>)
    ensures
        r == spec_parse_i64(s@),
{
    let len = s.unicode_len();
    let mut i: usize = 0;
    let mut negative = false;
    if len > 0 {
        let c0 = s.get_char(0);
        if c0 == '-' {
            negative = true;
            i = 1;
        } else if c0 == '+' {
            i = 1;
        }
    }
    if i == len {
        return None;
    }
    let ghost digits = if i == 1 {
        s@.drop_first()
    } else {
        s@
    };
    assert(digits.len() == len - i);
    assert(forall|j: int| 0 <= j < digits.len() ==> digits[j] == s@[j + i]);
    let limit: u64 = if negative {
        0x8000_0000_0000_0000
    } else {
        0x7FFF_FFFF_FFFF_FFFF
    };
    let mut acc: u64 = 0;
    let mut j: usize = i;
    while j < len
        invariant
            i <= j <= len,
            i < len,
            len == s@.len(),
            i <= 1,
            (i == 1) == (s@.len() > 0 && (s@[0] == '-' || s@[0] == '+')),
            negative == (s@.len() > 0 && s@[0] == '-'),
            limit == if negative {
                0x8000_0000_0000_0000u64
            } else {
                0x7FFF_FFFF_FFFF_FFFFu64
            },
            digits == if i == 1 {
                s@.drop_first()
            } else {
                s@
            },
            digits.len() == len - i,
            forall|k: int| 0 <= k < digits.len() ==> digits[k] == s@[k + i],
            spec_all_digits(digits.take(j - i)),
            acc == spec_digits_value(digits.take(j - i)),
            acc <= limit,
        decreases len - j,
    {
        let c = s.get_char(j);
        let n = c as u32;
        if n < 0x30 || n > 0x39 {
            assert(!spec_is_digit(digits[j - i]));
            return None;
        }
        let d = (n - 0x30) as u64;
        let ghost prefix = digits.take(j - i);
        assert(digits.take(j + 1 - i).drop_last() == prefix);
        assert(spec_all_digits(digits.take(j + 1 - i)));
        if acc > (limit - d) / 10 {
            // The value seen so far already exceeds the representable range,
            // and appending further digits can only increase it.
            assert(acc * 10 + d > limit) by (nonlinear_arith)
                requires
                    acc > (limit - d) / 10,
                    d <= limit,
            ;
            proof {
                if spec_all_digits(digits) {
                    lemma_digits_value_prefix_le(digits, j + 1 - i);
                }
            }
            return None;
        }
        assert(acc * 10 + d <= limit) by (nonlinear_arith)
            requires
                acc <= (limit - d) / 10,
                d <= limit,
        ;
        acc = acc * 10 + d;
        j = j + 1;
    }
    assert(digits.take(len - i) == digits);
    if negative {
        if acc == 0x8000_0000_0000_0000 {
            Some(i64::MIN)
        } else {
            Some(-(acc as i64))
        }
    } else {
        Some(acc as i64)
    }
}

} // verus!
