//! The delimiter-splitting tokenizer.
//!
//! Tokens are recognised by searching for the next delimiter character:
//! line comments run to the next newline, parenthesized remarks to the next
//! closing parenthesis (which is consumed as the delimiter and therefore
//! lost from the token text), string commands to the next double quote, and
//! everything else to the next ASCII whitespace character. A word consisting
//! of an optional sign and digits whose value fits in an `i64` becomes a
//! number token; any other word becomes a command token.
//!
//! Tokens borrow slices of the source buffer and never copy its text.

use vstd::prelude::*;

use crate::chars::{
    is_ascii_whitespace_char, is_whitespace_char, spec_is_ascii_whitespace, spec_is_whitespace,
};
use crate::numbers::{parse_i64, spec_parse_i64};

verus! {

/// The kinds of delimiter the tokenizer searches for.
pub enum Delimiter {
    /// A newline or carriage return.
    Newline,
    /// Any ASCII whitespace character.
    AsciiWhitespace,
    /// One specific character.
    Exact(char),
}

/// Whether `c` is a delimiter of kind `d`.
pub open spec fn spec_is_delimiter(d: Delimiter, c: char) -> bool {
    match d {
        Delimiter::Newline => c == '\n' || c == '\r',
        Delimiter::AsciiWhitespace => spec_is_ascii_whitespace(c),
        Delimiter::Exact(t) => c == t,
    }
}

/// The position of the first delimiter of kind `d`, if any.
pub open spec fn spec_find_delimiter(s: Seq<char>, d: Delimiter) -> Option<int>
    decreases s.len(),
{
    if s.len() == 0 {
        None
    } else if spec_is_delimiter(d, s[0]) {
        Some(0)
    } else {
        match spec_find_delimiter(s.drop_first(), d) {
            Some(k) => Some(k + 1),
            None => None,
        }
    }
}

/// `spec_find_delimiter` returns the least position holding a delimiter,
/// and `None` exactly when no position holds one.
pub proof fn lemma_find_delimiter(s: Seq<char>, d: Delimiter)
    ensures
        match spec_find_delimiter(s, d) {
            Some(k) => 0 <= k < s.len() && spec_is_delimiter(d, s[k]) && forall|j: int|
                0 <= j < k ==> !spec_is_delimiter(d, #[trigger] s[j]),
            None => forall|j: int| 0 <= j < s.len() ==> !spec_is_delimiter(d, #[trigger] s[j]),
        },
    decreases s.len(),
{
    if s.len() > 0 && !spec_is_delimiter(d, s[0]) {
        lemma_find_delimiter(s.drop_first(), d);
        assert(forall|j: int| 1 <= j < s.len() ==> #[trigger] s[j] == s.drop_first()[j - 1]);
    }
}

/// A witness pins `spec_find_delimiter` down.
pub proof fn lemma_find_delimiter_at(s: Seq<char>, d: Delimiter, k: int)
    requires
        0 <= k < s.len(),
        spec_is_delimiter(d, s[k]),
        forall|j: int| 0 <= j < k ==> !spec_is_delimiter(d, #[trigger] s[j]),
    ensures
        spec_find_delimiter(s, d) == Some(k),
    decreases k,
{
    if k > 0 {
        assert(forall|j: int| 1 <= j < s.len() ==> #[trigger] s[j] == s.drop_first()[j - 1]);
        assert(forall|j: int|
            0 <= j < k - 1 ==> !spec_is_delimiter(d, #[trigger] s.drop_first()[j]));
        lemma_find_delimiter_at(s.drop_first(), d, k - 1);
    }
}

/// What remains after a delimiter found at position `k`: the text past the
/// delimiter, with one further leading line feed swallowed (so that a
/// carriage-return/line-feed pair is consumed as a single line break).
pub open spec fn spec_split_rest(s: Seq<char>, k: int) -> Seq<char> {
    let tail = s.subrange(k + 1, s.len() as int);
    if tail.len() > 0 && tail[0] == '\n' {
        tail.drop_first()
    } else {
        tail
    }
}

/// Splitting at the first delimiter of kind `d`; without one, the whole
/// input is the first half and nothing remains.
pub open spec fn spec_split_at(s: Seq<char>, d: Delimiter) -> (Seq<char>, Seq<char>) {
    match spec_find_delimiter(s, d) {
        Some(k) => (s.take(k), spec_split_rest(s, k)),
        None => (s, Seq::empty()),
    }
}

/// Splitting at the first newline or carriage return.
pub open spec fn spec_split_at_newline(s: Seq<char>) -> (Seq<char>, Seq<char>) {
    spec_split_at(s, Delimiter::Newline)
}

/// Splitting at the first ASCII whitespace character.
pub open spec fn spec_split_at_ascii_whitespace(s: Seq<char>) -> (Seq<char>, Seq<char>) {
    spec_split_at(s, Delimiter::AsciiWhitespace)
}

/// Splitting at the first occurrence of `token`.
pub open spec fn spec_split_at_token(s: Seq<char>, token: char) -> (Seq<char>, Seq<char>) {
    spec_split_at(s, Delimiter::Exact(token))
}

/// The input with its leading Unicode whitespace removed.
pub open spec fn spec_trim_start(s: Seq<char>) -> Seq<char>
    decreases s.len(),
{
    if s.len() > 0 && spec_is_whitespace(s[0]) {
        spec_trim_start(s.drop_first())
    } else {
        s
    }
}

/// Trimming removes exactly the whitespace prefix: if the first `k`
/// characters are whitespace and the next one is not, the trimmed text is
/// the input from position `k` on.
pub proof fn lemma_trim_start_skip(s: Seq<char>, k: int)
    requires
        0 <= k <= s.len(),
        forall|j: int| 0 <= j < k ==> spec_is_whitespace(#[trigger] s[j]),
        k == s.len() || !spec_is_whitespace(s[k]),
    ensures
        spec_trim_start(s) == s.skip(k),
    decreases k,
{
    if k == 0 {
        assert(s.skip(0) == s);
    } else {
        assert(forall|j: int| 1 <= j < s.len() ==> #[trigger] s[j] == s.drop_first()[j - 1]);
        lemma_trim_start_skip(s.drop_first(), k - 1);
        assert(s.drop_first().skip(k - 1) =~= s.skip(k));
    }
}

/// A non-empty trimmed text never starts with whitespace.
pub proof fn lemma_trim_start_head(s: Seq<char>)
    requires
        spec_trim_start(s).len() > 0,
    ensures
        !spec_is_whitespace(spec_trim_start(s)[0]),
    decreases s.len(),
{
    if s.len() > 0 && spec_is_whitespace(s[0]) {
        lemma_trim_start_head(s.drop_first());
    }
}

/// Returns the input with its leading Unicode whitespace removed.
fn trim_leading<'a>(s: &'a str) -> (r: &'a str)
    ensures
        r@ == spec_trim_start(s@),
{
    let len = s.unicode_len();
    let mut k: usize = 0;
    while k < len && is_whitespace_char(s.get_char(k))
        invariant
            0 <= k <= len,
            len == s@.len(),
            forall|j: int| 0 <= j < k ==> spec_is_whitespace(#[trigger] s@[j]),
        decreases len - k,
    {
        k = k + 1;
    }
    proof {
        lemma_trim_start_skip(s@, k as int);
    }
    s.substring_char(k, len)
}

/// Builds the two halves once the delimiter has been found at position `k`.
fn split_found<'a>(s: &'a str, k: usize, len: usize) -> (r: (&'a str, &'a str))
    requires
        k < len,
        len == s@.len(),
    ensures
        r.0@ == s@.take(k as int),
        r.1@ == spec_split_rest(s@, k as int),
{
    let first = s.substring_char(0, k);
    let rest = if k + 1 < len && s.get_char(k + 1) == '\n' {
        proof {
            assert(s@.subrange(k + 1, s@.len() as int).drop_first() =~= s@.subrange(
                k + 2,
                s@.len() as int,
            ));
        }
        s.substring_char(k + 2, len)
    } else {
        s.substring_char(k + 1, len)
    };
    (first, rest)
}

/// The result when no delimiter was found anywhere in the input.
fn split_not_found<'a>(s: &'a str, d: Ghost<Delimiter>, len: usize) -> (r: (&'a str, &'a str))
    requires
        len == s@.len(),
        forall|j: int| 0 <= j < s@.len() ==> !spec_is_delimiter(d@, #[trigger] s@[j]),
    ensures
        r.0@ == spec_split_at(s@, d@).0,
        r.1@ == spec_split_at(s@, d@).1,
{
    proof {
        if spec_find_delimiter(s@, d@) is Some {
            lemma_find_delimiter(s@, d@);
        }
        reveal_strlit("");
        assert(""@ =~= Seq::<char>::empty());
    }
    (s, "")
}

/// Splits at the first newline or carriage return; without one, the whole
/// input is the first half. A line feed directly after the delimiter is
/// consumed with it.
pub fn split_at_newline<'a>(to_split: &'a str) -> (r: (&'a str, &'a str))
    ensures
        r.0@ == spec_split_at_newline(to_split@).0,
        r.1@ == spec_split_at_newline(to_split@).1,
{
    let len = to_split.unicode_len();
    let mut k: usize = 0;
    while k < len
        invariant
            0 <= k <= len,
            len == to_split@.len(),
            forall|j: int|
                0 <= j < k ==> !spec_is_delimiter(Delimiter::Newline, #[trigger] to_split@[j]),
        decreases len - k,
    {
        let c = to_split.get_char(k);
        if c == '\n' || c == '\r' {
            proof {
                lemma_find_delimiter_at(to_split@, Delimiter::Newline, k as int);
            }
            return split_found(to_split, k, len);
        }
        k = k + 1;
    }
    split_not_found(to_split, Ghost(Delimiter::Newline), len)
}

/// Splits at the first ASCII whitespace character; without one, the whole
/// input is the first half.
pub fn split_at_ascii_whitespace<'a>(to_split: &'a str) -> (r: (&'a str, &'a str))
    ensures
        r.0@ == spec_split_at_ascii_whitespace(to_split@).0,
        r.1@ == spec_split_at_ascii_whitespace(to_split@).1,
{
    let len = to_split.unicode_len();
    let mut k: usize = 0;
    while k < len
        invariant
            0 <= k <= len,
            len == to_split@.len(),
            forall|j: int|
                0 <= j < k ==> !spec_is_delimiter(
                    Delimiter::AsciiWhitespace,
                    #[trigger] to_split@[j],
                ),
        decreases len - k,
    {
        let c = to_split.get_char(k);
        if is_ascii_whitespace_char(c) {
            proof {
                lemma_find_delimiter_at(to_split@, Delimiter::AsciiWhitespace, k as int);
            }
            return split_found(to_split, k, len);
        }
        k = k + 1;
    }
    split_not_found(to_split, Ghost(Delimiter::AsciiWhitespace), len)
}

/// Splits at the first occurrence of `token`; without one, the whole input
/// is the first half.
pub fn split_at_token<'a>(to_split: &'a str, token: char) -> (r: (&'a str, &'a str))
    ensures
        r.0@ == spec_split_at_token(to_split@, token).0,
        r.1@ == spec_split_at_token(to_split@, token).1,
{
    let len = to_split.unicode_len();
    let mut k: usize = 0;
    while k < len
        invariant
            0 <= k <= len,
            len == to_split@.len(),
            forall|j: int|
                0 <= j < k ==> !spec_is_delimiter(
                    Delimiter::Exact(token),
                    #[trigger] to_split@[j],
                ),
        decreases len - k,
    {
        let c = to_split.get_char(k);
        if c == token {
            proof {
                lemma_find_delimiter_at(to_split@, Delimiter::Exact(token), k as int);
            }
            return split_found(to_split, k, len);
        }
        k = k + 1;
    }
    split_not_found(to_split, Ghost(Delimiter::Exact(token)), len)
}

/// The token types of the Forth dialect. Text-carrying tokens borrow
/// slices of the source buffer.
#[derive(Debug, PartialEq)]
pub enum ForthToken<'a> {
    /// A word denoting a signed 64-bit integer.
    Number(i64),
    /// Any other word.
    Command(&'a str),
    /// A word ending in a double quote, together with the quoted text that
    /// follows it (without the closing quote).
    StringCommand(&'a str, &'a str),
    /// The word-definition opener `:`.
    Colon,
    /// The word-definition closer `;`.
    SemiColon,
    /// A `\` comment running to the end of the line, without the line break.
    DropLineComment(&'a str),
    /// A `(` remark: the leading parenthesis is kept, the closing one is
    /// consumed as the delimiter and lost.
    ParenthesizedRemark(&'a str),
}

/// The mathematical shape of a token: text is a sequence of characters.
pub enum SpecToken {
    /// A number token.
    Number(int),
    /// A command token.
    Command(Seq<char>),
    /// A string command token.
    StringCommand(Seq<char>, Seq<char>),
    /// A colon token.
    Colon,
    /// A semicolon token.
    SemiColon,
    /// A line comment token.
    DropLineComment(Seq<char>),
    /// A parenthesized remark token.
    ParenthesizedRemark(Seq<char>),
}

impl<'a> View for ForthToken<'a> {
    type V = SpecToken;

    open spec fn view(&self) -> SpecToken {
        match self {
            ForthToken::Number(n) => SpecToken::Number(*n as int),
            ForthToken::Command(s) => SpecToken::Command(s@),
            ForthToken::StringCommand(c, s) => SpecToken::StringCommand(c@, s@),
            ForthToken::Colon => SpecToken::Colon,
            ForthToken::SemiColon => SpecToken::SemiColon,
            ForthToken::DropLineComment(s) => SpecToken::DropLineComment(s@),
            ForthToken::ParenthesizedRemark(s) => SpecToken::ParenthesizedRemark(s@),
        }
    }
}

/// The next token of the input, with what remains after it; `None` when
/// only whitespace is left.
pub open spec fn spec_next_token(s: Seq<char>) -> Option<(SpecToken, Seq<char>)> {
    let t = spec_trim_start(s);
    if t.len() == 0 {
        None
    } else if t[0] == '\\' {
        let (first, rest) = spec_split_at_newline(t);
        Some((SpecToken::DropLineComment(first), rest))
    } else if t[0] == ':' {
        Some((SpecToken::Colon, t.drop_first()))
    } else if t[0] == ';' {
        Some((SpecToken::SemiColon, t.drop_first()))
    } else if t[0] == '(' {
        let (first, rest) = spec_split_at_token(t, ')');
        Some((SpecToken::ParenthesizedRemark(first), rest))
    } else {
        let (start, rest) = spec_split_at_ascii_whitespace(t);
        if start.len() > 0 && start.last() == '"' {
            let (text, rest2) = spec_split_at_token(rest, '"');
            Some((SpecToken::StringCommand(start, text), rest2))
        } else {
            match spec_parse_i64(start) {
                Some(n) => Some((SpecToken::Number(n as int), rest)),
                None => Some((SpecToken::Command(start), rest)),
            }
        }
    }
}

/// A found delimiter leaves a remainder shorter than what was split.
proof fn lemma_split_rest_len(s: Seq<char>, k: int)
    requires
        0 <= k < s.len(),
    ensures
        spec_split_rest(s, k).len() <= s.len() - k - 1,
{
}

/// A token always consumes at least one character: the remainder after a
/// token is strictly shorter than the input.
pub proof fn lemma_next_token_shrinks(s: Seq<char>)
    requires
        spec_next_token(s) is Some,
    ensures
        spec_next_token(s) matches Some(p) && p.1.len() < s.len(),
{
    let t = spec_trim_start(s);
    lemma_trim_start_parts(s);
    assert(t.len() <= s.len());
    assert(t.len() > 0);
    if t[0] == '\\' {
        lemma_find_delimiter(t, Delimiter::Newline);
        match spec_find_delimiter(t, Delimiter::Newline) {
            Some(k) => lemma_split_rest_len(t, k),
            None => {},
        }
    } else if t[0] == ':' || t[0] == ';' {
    } else if t[0] == '(' {
        lemma_find_delimiter(t, Delimiter::Exact(')'));
        match spec_find_delimiter(t, Delimiter::Exact(')')) {
            Some(k) => lemma_split_rest_len(t, k),
            None => {},
        }
    } else {
        lemma_find_delimiter(t, Delimiter::AsciiWhitespace);
        let (start, rest) = spec_split_at_ascii_whitespace(t);
        match spec_find_delimiter(t, Delimiter::AsciiWhitespace) {
            Some(k) => lemma_split_rest_len(t, k),
            None => {},
        }
        assert(rest.len() < t.len());
        if start.len() > 0 && start.last() == '"' {
            lemma_find_delimiter(rest, Delimiter::Exact('"'));
            match spec_find_delimiter(rest, Delimiter::Exact('"')) {
                Some(k2) => lemma_split_rest_len(rest, k2),
                None => {},
            }
        }
    }
}

/// The whitespace prefix that trimming removes: its length, that every
/// character in it is whitespace, and that the trimmed text is the rest.
pub proof fn lemma_trim_start_parts(s: Seq<char>)
    ensures
        ({
            let k = s.len() - spec_trim_start(s).len();
            &&& 0 <= k <= s.len()
            &&& spec_trim_start(s) == s.skip(k)
            &&& forall|j: int| 0 <= j < k ==> spec_is_whitespace(#[trigger] s[j])
        }),
    decreases s.len(),
{
    if s.len() > 0 && spec_is_whitespace(s[0]) {
        lemma_trim_start_parts(s.drop_first());
        let k = s.len() - spec_trim_start(s).len();
        assert(forall|j: int| 1 <= j < s.len() ==> #[trigger] s[j] == s.drop_first()[j - 1]);
        assert(s.drop_first().skip(k - 1) =~= s.skip(k));
    } else {
        assert(s.skip(0) == s);
    }
}

/// Appending more text after a non-blank character does not change what
/// trimming removes.
proof fn lemma_trim_append(s: Seq<char>, b: Seq<char>)
    requires
        spec_trim_start(s).len() > 0,
    ensures
        spec_trim_start(s + b) == spec_trim_start(s) + b,
{
    lemma_trim_start_parts(s);
    lemma_trim_start_head(s);
    let k = s.len() - spec_trim_start(s).len();
    assert(spec_trim_start(s)[0] == s[k]);
    assert(forall|j: int| 0 <= j < s.len() ==> (s + b)[j] == #[trigger] s[j]);
    lemma_trim_start_skip(s + b, k);
    assert((s + b).skip(k) =~= s.skip(k) + b);
}

/// A wholly blank first input trims away entirely in a concatenation.
proof fn lemma_trim_append_all_whitespace(a: Seq<char>, b: Seq<char>)
    requires
        spec_trim_start(a).len() == 0,
    ensures
        spec_trim_start(a + b) == spec_trim_start(b),
    decreases a.len(),
{
    if a.len() == 0 {
        assert(a + b =~= b);
    } else {
        assert(spec_is_whitespace(a[0]));
        assert((a + b)[0] == a[0]);
        assert((a + b).drop_first() =~= a.drop_first() + b);
        lemma_trim_append_all_whitespace(a.drop_first(), b);
    }
}

/// A delimiter found in the first input is found at the same place in a
/// concatenation.
proof fn lemma_find_append(t: Seq<char>, b: Seq<char>, d: Delimiter)
    requires
        spec_find_delimiter(t, d) is Some,
    ensures
        spec_find_delimiter(t + b, d) == spec_find_delimiter(t, d),
{
    lemma_find_delimiter(t, d);
    match spec_find_delimiter(t, d) {
        Some(k) => {
            assert(forall|j: int| 0 <= j < t.len() ==> (t + b)[j] == #[trigger] t[j]);
            lemma_find_delimiter_at(t + b, d, k);
        },
        None => {},
    }
}

/// Splitting a concatenation at a delimiter inside the first input leaves
/// the appended text at the end of the remainder — provided the appended
/// text does not begin with a line feed that the delimiter would swallow.
proof fn lemma_split_rest_append(t: Seq<char>, b: Seq<char>, k: int)
    requires
        0 <= k < t.len(),
        b.len() > 0 ==> b[0] != '\n',
    ensures
        spec_split_rest(t + b, k) == spec_split_rest(t, k) + b,
{
    let tail = t.subrange(k + 1, t.len() as int);
    let tail2 = (t + b).subrange(k + 1, (t + b).len() as int);
    assert(tail2 =~= tail + b);
    if tail.len() > 0 {
        assert(tail2[0] == tail[0]);
        if tail[0] == '\n' {
            assert(tail2.drop_first() =~= tail.drop_first() + b);
        }
    } else {
        assert(tail2 =~= b);
        if b.len() > 0 {
            assert(tail2[0] != '\n');
        }
        assert(spec_split_rest(t + b, k) =~= spec_split_rest(t, k) + b);
    }
}

/// Every delimiter search of the next token step succeeds within the
/// input itself: the step cannot reach into appended text.
pub open spec fn spec_step_contained(s: Seq<char>) -> bool {
    let t = spec_trim_start(s);
    t.len() > 0 && {
        if t[0] == '\\' {
            spec_find_delimiter(t, Delimiter::Newline) is Some
        } else if t[0] == ':' || t[0] == ';' {
            true
        } else if t[0] == '(' {
            spec_find_delimiter(t, Delimiter::Exact(')')) is Some
        } else {
            spec_find_delimiter(t, Delimiter::AsciiWhitespace) is Some && {
                let (start, rest) = spec_split_at_ascii_whitespace(t);
                (start.len() > 0 && start.last() == '"') ==> spec_find_delimiter(
                    rest,
                    Delimiter::Exact('"'),
                ) is Some
            }
        }
    }
}

/// Every token of the input is delimited within it: each step is
/// contained, down to the end of the token stream.
pub open spec fn spec_self_contained(s: Seq<char>) -> bool
    decreases s.len(),
    via spec_self_contained_decreases
{
    match spec_next_token(s) {
        None => true,
        Some((t, rest)) => spec_step_contained(s) && spec_self_contained(rest),
    }
}

#[via_fn]
proof fn spec_self_contained_decreases(s: Seq<char>) {
    if spec_next_token(s) is Some {
        lemma_next_token_shrinks(s);
    }
}

/// The stream of all tokens of the input, in order.
pub open spec fn spec_tokens(s: Seq<char>) -> Seq<SpecToken>
    decreases s.len(),
    via spec_tokens_decreases
{
    match spec_next_token(s) {
        None => Seq::empty(),
        Some((t, rest)) => seq![t] + spec_tokens(rest),
    }
}

#[via_fn]
proof fn spec_tokens_decreases(s: Seq<char>) {
    if spec_next_token(s) is Some {
        lemma_next_token_shrinks(s);
    }
}

/// A contained token step of the first input happens identically in a
/// concatenation, leaving the appended text untouched at the end of the
/// remainder.
proof fn lemma_step_append(s: Seq<char>, b: Seq<char>)
    requires
        spec_step_contained(s),
        b.len() > 0 ==> b[0] != '\n',
    ensures
        spec_next_token(s) matches Some(p) && spec_next_token(s + b) == Some((p.0, p.1 + b)),
{
    let t = spec_trim_start(s);
    lemma_trim_append(s, b);
    assert(spec_trim_start(s + b) == t + b);
    assert((t + b)[0] == t[0]);
    if t[0] == '\\' {
        lemma_find_append(t, b, Delimiter::Newline);
        match spec_find_delimiter(t, Delimiter::Newline) {
            Some(k) => {
                lemma_find_delimiter(t, Delimiter::Newline);
                assert((t + b).take(k) =~= t.take(k));
                lemma_split_rest_append(t, b, k);
            },
            None => {},
        }
    } else if t[0] == ':' || t[0] == ';' {
        assert((t + b).drop_first() =~= t.drop_first() + b);
    } else if t[0] == '(' {
        lemma_find_append(t, b, Delimiter::Exact(')'));
        match spec_find_delimiter(t, Delimiter::Exact(')')) {
            Some(k) => {
                lemma_find_delimiter(t, Delimiter::Exact(')'));
                assert((t + b).take(k) =~= t.take(k));
                lemma_split_rest_append(t, b, k);
            },
            None => {},
        }
    } else {
        lemma_find_append(t, b, Delimiter::AsciiWhitespace);
        let (start, rest) = spec_split_at_ascii_whitespace(t);
        match spec_find_delimiter(t, Delimiter::AsciiWhitespace) {
            Some(k) => {
                lemma_find_delimiter(t, Delimiter::AsciiWhitespace);
                assert((t + b).take(k) =~= t.take(k));
                lemma_split_rest_append(t, b, k);
                assert(spec_split_at_ascii_whitespace(t + b) == (start, rest + b));
                if start.len() > 0 && start.last() == '"' {
                    lemma_find_append(rest, b, Delimiter::Exact('"'));
                    match spec_find_delimiter(rest, Delimiter::Exact('"')) {
                        Some(k2) => {
                            lemma_find_delimiter(rest, Delimiter::Exact('"'));
                            assert((rest + b).take(k2) =~= rest.take(k2));
                            lemma_split_rest_append(rest, b, k2);
                        },
                        None => {},
                    }
                }
            },
            None => {},
        }
    }
}

/// Concatenation respects tokenization: when every token of the first
/// input is delimited within it and the second input does not begin with
/// a line feed, the token stream of the concatenation is the two token
/// streams in order.
pub proof fn lemma_tokenize_append(a: Seq<char>, b: Seq<char>)
    requires
        spec_self_contained(a),
        b.len() > 0 ==> b[0] != '\n',
    ensures
        spec_tokens(a + b) == spec_tokens(a) + spec_tokens(b),
    decreases a.len(),
{
    match spec_next_token(a) {
        None => {
            lemma_trim_append_all_whitespace(a, b);
            assert(spec_next_token(a + b) == spec_next_token(b));
            if spec_next_token(b) is Some {
                assert(spec_tokens(a + b) == spec_tokens(b));
            } else {
                assert(spec_tokens(a + b) == spec_tokens(b));
            }
            assert(spec_tokens(a) + spec_tokens(b) =~= spec_tokens(b));
        },
        Some((t0, rest)) => {
            lemma_step_append(a, b);
            lemma_next_token_shrinks(a);
            lemma_tokenize_append(rest, b);
            assert(spec_tokens(a + b) == seq![t0] + spec_tokens(rest + b));
            assert(seq![t0] + (spec_tokens(rest) + spec_tokens(b)) =~= (seq![t0]
                + spec_tokens(rest)) + spec_tokens(b));
        },
    }
}

/// The delimiter-splitting tokenizer over a borrowed source buffer.
pub struct ForthTokenizer<'a> {
    to_tokenize: &'a str,
}

impl<'a> View for ForthTokenizer<'a> {
    type V = Seq<char>;

    closed spec fn view(&self) -> Seq<char> {
        self.to_tokenize@
    }
}

impl<'a> ForthTokenizer<'a> {
    /// Creates a tokenizer over the given source text.
    pub fn new(to_tokenize: &'a str) -> (r: ForthTokenizer<'a>)
        ensures
            r@ == to_tokenize@,
    {
        ForthTokenizer { to_tokenize }
    }

    /// Turns the tokenizer into a token stream driven by `next`.
    pub fn into_iter(self) -> (r: ForthTokenizerIntoIterator<'a>)
        ensures
            r@ == self@,
    {
        ForthTokenizerIntoIterator { to_tokenize: self.to_tokenize }
    }
}

/// The token stream of a tokenizer: repeated calls of `next` yield the
/// tokens of the source text in order.
pub struct ForthTokenizerIntoIterator<'a> {
    to_tokenize: &'a str,
}

impl<'a> View for ForthTokenizerIntoIterator<'a> {
    type V = Seq<char>;

    closed spec fn view(&self) -> Seq<char> {
        self.to_tokenize@
    }
}

/// The views of a sequence of tokens, in order.
pub open spec fn spec_token_views(r: Seq<ForthToken>) -> Seq<SpecToken> {
    r.map_values(|t: ForthToken| t@)
}

impl<'a> ForthTokenizerIntoIterator<'a> {
    /// Collects all remaining tokens, in order.
    pub fn collect(self) -> (r: Vec<ForthToken<'a>>)
        ensures
            spec_token_views(r@) == spec_tokens(self@),
    {
        let mut it = self;
        let ghost orig = it@;
        let mut r: Vec<ForthToken<'a>> = Vec::new();
        proof {
            assert(spec_token_views(r@) =~= Seq::<SpecToken>::empty());
        }
        loop
            invariant
                orig == self@,
                spec_tokens(orig) == spec_token_views(r@) + spec_tokens(it@),
            decreases it@.len(),
        {
            let ghost before = it@;
            proof {
                if spec_next_token(before) is Some {
                    lemma_next_token_shrinks(before);
                }
            }
            match it.next() {
                Some(t) => {
                    proof {
                        let m = spec_token_views(r@);
                        assert(spec_token_views(r@ + seq![t]) =~= m + seq![t@]);
                        assert(m + (seq![t@] + spec_tokens(it@)) =~= (m + seq![t@])
                            + spec_tokens(it@));
                    }
                    r.push(t);
                },
                None => {
                    proof {
                        assert(spec_tokens(before) == Seq::<SpecToken>::empty());
                        assert(spec_token_views(r@) + Seq::<SpecToken>::empty()
                            =~= spec_token_views(r@));
                    }
                    return r;
                },
            }
        }
    }

    /// Yields the next token, or `None` once only whitespace remains.
    pub fn next(&mut self) -> (r: Option<ForthToken<'a>>)
        ensures
            match spec_next_token(old(self)@) {
                Some((t, rest)) => r is Some && r->0@ == t && final(self)@ == rest,
                None => r is None && final(self)@ == spec_trim_start(old(self)@),
            },
    {
        let s = trim_leading(self.to_tokenize);
        self.to_tokenize = s;
        let len = s.unicode_len();
        if len == 0 {
            return None;
        }
        proof {
            lemma_trim_start_head(old(self)@);
        }
        let c = s.get_char(0);
        match c {
            '\\' => {
                let (first, rest) = split_at_newline(s);
                self.to_tokenize = rest;
                Some(ForthToken::DropLineComment(first))
            },
            ':' => {
                proof {
                    assert(s@.subrange(1, len as int) =~= s@.drop_first());
                }
                self.to_tokenize = s.substring_char(1, len);
                Some(ForthToken::Colon)
            },
            ';' => {
                proof {
                    assert(s@.subrange(1, len as int) =~= s@.drop_first());
                }
                self.to_tokenize = s.substring_char(1, len);
                Some(ForthToken::SemiColon)
            },
            '(' => {
                let (first, rest) = split_at_token(s, ')');
                self.to_tokenize = rest;
                Some(ForthToken::ParenthesizedRemark(first))
            },
            _ => {
                let (start, rest) = split_at_ascii_whitespace(s);
                self.to_tokenize = rest;
                let slen = start.unicode_len();
                if slen > 0 && start.get_char(slen - 1) == '"' {
                    let (newstart, newrest) = split_at_token(rest, '"');
                    self.to_tokenize = newrest;
                    return Some(ForthToken::StringCommand(start, newstart));
                }
                match parse_i64(start) {
                    Some(n) => Some(ForthToken::Number(n)),
                    None => Some(ForthToken::Command(start)),
                }
            },
        }
    }
}

} // verus!
