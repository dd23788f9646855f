//! Character classification used by the delimiter-splitting tokenizer.
//!
//! The tokenizer skips leading whitespace in the Unicode sense and splits
//! words at ASCII whitespace, so both classifications are defined here, each
//! as a spec-level predicate together with an executable test proved against
//! it.

use vstd::prelude::*;

verus! {

/// A code point with the Unicode `White_Space` property.
pub open spec fn spec_is_whitespace(c: char) -> bool {
    let n = c as int;
    ||| n == 0x09
    ||| n == 0x0A
    ||| n == 0x0B
    ||| n == 0x0C
    ||| n == 0x0D
    ||| n == 0x20
    ||| n == 0x85
    ||| n == 0xA0
    ||| n == 0x1680
    ||| (0x2000 <= n && n <= 0x200A)
    ||| n == 0x2028
    ||| n == 0x2029
    ||| n == 0x202F
    ||| n == 0x205F
    ||| n == 0x3000
}

/// ASCII whitespace: space, horizontal tab, line feed, form feed and
/// carriage return (vertical tab is not among them).
pub open spec fn spec_is_ascii_whitespace(c: char) -> bool {
    let n = c as int;
    ||| n == 0x09
    ||| n == 0x0A
    ||| n == 0x0C
    ||| n == 0x0D
    ||| n == 0x20
}

/// Decides the Unicode `White_Space` property of a character.
pub fn is_whitespace_char(c: char) -> (r: bool)
    ensures
        r == spec_is_whitespace(c),
{
    let n = c as u32;
    n == 0x09 || n == 0x0A || n == 0x0B || n == 0x0C || n == 0x0D || n == 0x20 || n == 0x85
        || n == 0xA0 || n == 0x1680 || (0x2000 <= n && n <= 0x200A) || n == 0x2028 || n == 0x2029
        || n == 0x202F || n == 0x205F || n == 0x3000
}

/// Decides whether a character is ASCII whitespace.
pub fn is_ascii_whitespace_char(c: char) -> (r: bool)
    ensures
        r == spec_is_ascii_whitespace(c),
{
    let n = c as u32;
    n == 0x09 || n == 0x0A || n == 0x0C || n == 0x0D || n == 0x20
}

} // verus!
