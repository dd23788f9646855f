//! The table-driven scanner: a deterministic finite automaton runner that
//! performs maximal-munch lexical analysis over the source text.
//!
//! The automaton is given by four read-only tables: a character classifier
//! mapping every code point to a small equivalence-class id, a row offset
//! per state, a flat transition table indexed by row offset plus class id,
//! and per-state attributes (accepting, and whether scanning must stop at
//! once on entering the state) with a parallel action id per state. The
//! driver advances over the input, remembers the position and action of the
//! most recent accepting state, backtracks to it on a dead end, and
//! dispatches on the action id; whitespace actions are counted and skipped
//! rather than emitted.

use vstd::prelude::*;

verus! {

/// The number of automaton states.
pub const STATE_COUNT: usize = 14;

/// The number of character equivalence classes.
pub const CLASS_COUNT: usize = 9;

/// The number of code points classified by the character table.
pub const CODE_POINT_COUNT: usize = 0x110000;

/// The character class of a code point: whitespace splits into line breaks
/// (class 1) and blanks (class 5); word constituents are class 6, digits
/// and the minus sign class 7; the structural characters `;` `{` `}` `:`
/// have classes of their own; everything else is class 0, which no
/// delimiter state accepts.
pub open spec fn spec_class_of_code_point(n: int) -> int {
    if n == 0x09 || n == 0x20 {
        5
    } else if (0x0A <= n && n <= 0x0D) || n == 0x85 || n == 0x2028 || n == 0x2029 {
        1
    } else if n == 0x3B {
        2
    } else if n == 0x7B {
        3
    } else if n == 0x7D {
        4
    } else if n == 0x23 || n == 0x24 || n == 0x2E || n == 0x3F || n == 0x40 || (0x41 <= n && n
        <= 0x5A) || n == 0x5C || n == 0x5F || (0x61 <= n && n <= 0x7A) {
        6
    } else if n == 0x2D || (0x30 <= n && n <= 0x39) {
        7
    } else if n == 0x3A {
        8
    } else {
        0
    }
}

/// The character class of a character.
pub open spec fn spec_class_of(c: char) -> int {
    spec_class_of_code_point(c as int)
}

/// The row offset of a state in the flat transition table.
pub open spec fn spec_row_of(s: int) -> int {
    if s == 0 {
        0
    } else if s == 1 || s == 8 {
        9
    } else if s == 2 || s == 7 || s == 10 {
        18
    } else if s == 3 || s == 9 {
        27
    } else if s == 4 || s == 12 {
        36
    } else if s == 5 {
        45
    } else if s == 6 {
        54
    } else {
        63
    }
}

/// An entry of the flat transition table: the next state, or `-1` meaning
/// that no transition exists (a dead end).
pub open spec fn spec_transition_entry(i: int) -> int {
    if i == 0 {
        1
    } else if i == 1 || i == 5 {
        2
    } else if i == 2 {
        3
    } else if i == 3 || i == 39 || i == 42 || i == 43 {
        4
    } else if i == 4 || i == 7 || i == 48 || i == 49 || i == 51 || i == 52 {
        5
    } else if i == 6 || i == 57 || i == 58 || i == 60 || i == 61 {
        6
    } else if i == 8 {
        7
    } else if i == 9 {
        8
    } else if 11 <= i && i <= 17 {
        1
    } else if i == 27 || i == 29 || i == 30 || i == 31 || i == 32 || i == 33 || i == 34 || i == 35
        || i == 54 || i == 56 || i == 59 || i == 62 {
        9
    } else if i == 28 || i == 55 {
        10
    } else if i == 36 || i == 38 || i == 41 || i == 44 || i == 63 || i == 65 || i == 66 || i == 68
        || i == 69 || i == 70 || i == 71 {
        11
    } else if i == 40 {
        12
    } else if i == 67 {
        13
    } else {
        -1
    }
}

/// The transition function: next state for a state and a character class,
/// or `-1` on a dead end.
pub open spec fn spec_transition(s: int, k: int) -> int {
    spec_transition_entry(spec_row_of(s) + k)
}

/// Whether a state is accepting: reaching it completes a candidate match.
pub open spec fn spec_accepting(s: int) -> bool {
    s == 2 || s == 3 || s == 4 || s == 5 || s == 6 || s == 7 || s == 8 || s == 10 || s == 12
        || s == 13
}

/// Whether scanning must stop at once on entering the state (the match
/// cannot be extended).
pub open spec fn spec_stops(s: int) -> bool {
    s == 2 || s == 7 || s == 10
}

/// The action id dispatched for a match ending in the given state.
pub open spec fn spec_action_of(s: int) -> int {
    if s == 2 {
        1
    } else if s == 3 {
        2
    } else if s == 4 {
        3
    } else if s == 5 {
        4
    } else if s == 6 {
        5
    } else if s == 7 {
        6
    } else if s == 8 {
        7
    } else if s == 10 {
        8
    } else if s == 12 {
        9
    } else if s == 13 {
        10
    } else {
        0
    }
}

/// The start state of a lexical mode; every mode of the current vocabulary
/// starts at state 0.
pub open spec fn spec_start_state(mode: int) -> int {
    0
}

/// Looks the row offset of a state up.
fn row_of(s: usize) -> (r: usize)
    requires
        s < STATE_COUNT,
    ensures
        r == spec_row_of(s as int),
{
    match s {
        0 => 0,
        1 => 9,
        2 => 18,
        3 => 27,
        4 => 36,
        5 => 45,
        6 => 54,
        7 => 18,
        8 => 9,
        9 => 27,
        10 => 18,
        11 => 63,
        12 => 36,
        _ => 63,
    }
}

/// Looks an entry of the flat transition table up.
fn transition_entry(i: usize) -> (r: i32)
    requires
        i < 72,
    ensures
        r == spec_transition_entry(i as int),
{
    match i {
        0 => 1,
        1 => 2,
        2 => 3,
        3 => 4,
        4 => 5,
        5 => 2,
        6 => 6,
        7 => 5,
        8 => 7,
        9 => 8,
        10 => -1,
        11 => 1,
        12 => 1,
        13 => 1,
        14 => 1,
        15 => 1,
        16 => 1,
        17 => 1,
        18 => -1,
        19 => -1,
        20 => -1,
        21 => -1,
        22 => -1,
        23 => -1,
        24 => -1,
        25 => -1,
        26 => -1,
        27 => 9,
        28 => 10,
        29 => 9,
        30 => 9,
        31 => 9,
        32 => 9,
        33 => 9,
        34 => 9,
        35 => 9,
        36 => 11,
        37 => -1,
        38 => 11,
        39 => 4,
        40 => 12,
        41 => 11,
        42 => 4,
        43 => 4,
        44 => 11,
        45 => -1,
        46 => -1,
        47 => -1,
        48 => 5,
        49 => 5,
        50 => -1,
        51 => 5,
        52 => 5,
        53 => -1,
        54 => 9,
        55 => 10,
        56 => 9,
        57 => 6,
        58 => 6,
        59 => 9,
        60 => 6,
        61 => 6,
        62 => 9,
        63 => 11,
        64 => -1,
        65 => 11,
        66 => 11,
        67 => 13,
        68 => 11,
        69 => 11,
        70 => 11,
        _ => 11,
    }
}

/// Decides whether a state is accepting.
fn is_accepting(s: usize) -> (r: bool)
    requires
        s < STATE_COUNT,
    ensures
        r == spec_accepting(s as int),
{
    match s {
        2 | 3 | 4 | 5 | 6 | 7 | 8 | 10 | 12 | 13 => true,
        _ => false,
    }
}

/// Decides whether scanning must stop at once in a state.
fn is_stop(s: usize) -> (r: bool)
    requires
        s < STATE_COUNT,
    ensures
        r == spec_stops(s as int),
{
    match s {
        2 | 7 | 10 => true,
        _ => false,
    }
}

/// Looks the action id of a state up.
fn action_of(s: usize) -> (r: i32)
    requires
        s < STATE_COUNT,
    ensures
        r == spec_action_of(s as int),
{
    match s {
        2 => 1,
        3 => 2,
        4 => 3,
        5 => 4,
        6 => 5,
        7 => 6,
        8 => 7,
        10 => 8,
        12 => 9,
        13 => 10,
        _ => 0,
    }
}

/// The start state of a lexical mode.
fn start_state(mode: usize) -> (r: usize)
    requires
        mode < 2,
    ensures
        r == spec_start_state(mode as int),
{
    0
}

/// A character the scanner skips: a line break (class 1) or a blank
/// (class 5), both matched by the counting action.
pub open spec fn spec_is_scanner_blank(c: char) -> bool {
    spec_class_of(c) == 1 || spec_class_of(c) == 5
}

/// Facts about the transition table needed throughout: entries are either
/// the dead-end mark or a state other than the start state, and the sole
/// transitions into the blank-skipping state 2 leave state 0 on a blank
/// class.
pub proof fn lemma_transition_table(s: int, k: int)
    requires
        0 <= s < STATE_COUNT,
        0 <= k < CLASS_COUNT,
    ensures
        spec_transition(s, k) == -1 || (1 <= spec_transition(s, k) < STATE_COUNT),
        spec_transition(s, k) == 2 ==> s == 0 && (k == 1 || k == 5),
        spec_accepting(spec_transition(s, k)) ==> 1 <= spec_action_of(spec_transition(s, k))
            <= 10,
{
}

/// What one inner scan pass yields: the action of the best match seen (or
/// `-1` when none was seen), the input position just past that match, and
/// whether the pass ended by running out of input rather than at a dead
/// end or a stop state.
pub struct ScanOutcome {
    /// The action id of the best match, `-1` when no accepting state was
    /// reached.
    pub action: int,
    /// The position just past the best match; without one, the position
    /// the pass started from.
    pub marked: int,
    /// Whether the pass ended at the end of the input.
    pub eof: bool,
}

/// One inner pass of the driver from position `pos` in state `state`,
/// with `action` and `marked` the best match seen so far: consume a
/// character, follow the transition, remember each accepting state passed,
/// and end at a dead end, at a stop state, or at the end of the input.
pub open spec fn spec_scan(
    input: Seq<char>,
    pos: int,
    state: int,
    action: int,
    marked: int,
) -> ScanOutcome
    decreases input.len() - pos,
    when 0 <= pos <= input.len()
{
    if pos >= input.len() {
        ScanOutcome { action, marked, eof: true }
    } else {
        let next = spec_transition(state, spec_class_of(input[pos]));
        if next == -1 {
            ScanOutcome { action, marked, eof: false }
        } else if spec_accepting(next) {
            if spec_stops(next) {
                ScanOutcome { action: spec_action_of(next), marked: pos + 1, eof: false }
            } else {
                spec_scan(input, pos + 1, next, spec_action_of(next), pos + 1)
            }
        } else {
            spec_scan(input, pos + 1, next, action, marked)
        }
    }
}

/// Bounds of a scan pass: the best-match position never moves backwards,
/// stays within the input, advances past the start whenever a new match
/// was recorded, and any action recorded is one of the table's.
pub proof fn lemma_scan_bounds(input: Seq<char>, pos: int, state: int, action: int, marked: int)
    requires
        0 <= pos <= input.len(),
        0 <= marked <= pos,
    ensures
        ({
            let r = spec_scan(input, pos, state, action, marked);
            &&& marked <= r.marked <= input.len()
            &&& (r.action != action ==> r.marked > pos)
            &&& (r.action == action || (1 <= r.action <= 10))
            &&& (action == -1 && r.action == -1 ==> r.marked == marked)
        }),
    decreases input.len() - pos,
{
    if pos < input.len() {
        let k = spec_class_of(input[pos]);
        let next = spec_transition(state, k);
        if next == -1 {
        } else if spec_accepting(next) {
            assert(1 <= spec_action_of(next) <= 10) by {
                if 0 <= state < STATE_COUNT && 0 <= k < CLASS_COUNT {
                    lemma_transition_table(state, k);
                }
            }
            if !spec_stops(next) {
                lemma_scan_bounds(input, pos + 1, next, spec_action_of(next), pos + 1);
            }
        } else {
            lemma_scan_bounds(input, pos + 1, next, action, marked);
        }
    }
}

/// The shape of a blank match: the counting action is recorded only on the
/// very first character of a pass that starts in state 0, the character is
/// a blank, and the pass stops right after it.
pub proof fn lemma_scan_blank(input: Seq<char>, pos: int, state: int, action: int, marked: int)
    requires
        0 <= pos <= input.len(),
        0 <= marked <= pos,
        0 <= state < STATE_COUNT,
    ensures
        ({
            let r = spec_scan(input, pos, state, action, marked);
            (r.action == 1 && action != 1) ==> {
                &&& state == 0
                &&& pos < input.len()
                &&& spec_is_scanner_blank(input[pos])
                &&& r.marked == pos + 1
                &&& !r.eof
            }
        }),
    decreases input.len() - pos,
{
    if pos < input.len() {
        let k = spec_class_of(input[pos]);
        let next = spec_transition(state, k);
        if next == -1 {
        } else {
            lemma_transition_table(state, k);
            if spec_accepting(next) {
                if spec_stops(next) {
                    if spec_action_of(next) == 1 {
                        assert(next == 2);
                    }
                } else {
                    assert(next != 2) by {
                        if next == 2 {
                            assert(spec_stops(2));
                        }
                    }
                    assert(spec_action_of(next) != 1);
                    lemma_scan_blank(input, pos + 1, next, spec_action_of(next), pos + 1);
                }
            } else {
                lemma_scan_blank(input, pos + 1, next, action, marked);
            }
        }
    }
}

/// What one call of `yylex` does, seen from position `pos`: either the end
/// of the input was reached (after skipping `skipped` blanks), or a token
/// whose text spans `start .. end` is dispatched through `action`, or no
/// match exists at `start` and scanning fails there.
pub enum LexOutcome {
    /// The end of the input: nothing but blanks remained.
    End {
        /// How many blank characters the call skipped and counted.
        skipped: int,
    },
    /// A match: the token's text is the input from `start` to `end`, and
    /// `action` selects the token constructor.
    Token {
        /// How many blank characters the call skipped and counted.
        skipped: int,
        /// Where the match begins.
        start: int,
        /// Where the match ends; the next call resumes here.
        end: int,
        /// The dispatched action id.
        action: int,
    },
    /// A scan error: no accepting state is reachable from `start`.
    Unmatched {
        /// How many blank characters the call skipped and counted.
        skipped: int,
        /// The position of the offending text.
        start: int,
    },
}

/// Adds `n` to the count of skipped blanks of an outcome.
pub open spec fn spec_add_skipped(o: LexOutcome, n: int) -> LexOutcome {
    match o {
        LexOutcome::End { skipped } => LexOutcome::End { skipped: skipped + n },
        LexOutcome::Token { skipped, start, end, action } => LexOutcome::Token {
            skipped: skipped + n,
            start,
            end,
            action,
        },
        LexOutcome::Unmatched { skipped, start } => LexOutcome::Unmatched {
            skipped: skipped + n,
            start,
        },
    }
}

/// The outcome of one `yylex` call starting at position `pos`: scan passes
/// whose match is the counting action are skipped and counted, and the
/// first pass with any other result decides.
pub open spec fn spec_lex(input: Seq<char>, pos: int) -> LexOutcome
    decreases input.len() - pos,
    when 0 <= pos <= input.len()
{
    let r = spec_scan(input, pos, 0, -1, pos);
    if r.eof && pos == input.len() {
        LexOutcome::End { skipped: 0 }
    } else if r.action == 1 {
        proof {
            lemma_scan_bounds(input, pos, 0, -1, pos);
        }
        spec_add_skipped(spec_lex(input, r.marked), 1)
    } else if r.action >= 0 {
        LexOutcome::Token { skipped: 0, start: pos, end: r.marked, action: r.action }
    } else {
        LexOutcome::Unmatched { skipped: 0, start: pos }
    }
}

/// The anatomy of a call outcome: the skipped characters are exactly the
/// blanks from `pos` to where the match begins, a token's span lies within
/// the input and is never empty, and its action is a dispatching one.
pub proof fn lemma_lex_shape(input: Seq<char>, pos: int)
    requires
        0 <= pos <= input.len(),
    ensures
        match spec_lex(input, pos) {
            LexOutcome::End { skipped } => skipped == input.len() - pos && forall|j: int|
                pos <= j < input.len() ==> spec_is_scanner_blank(#[trigger] input[j]),
            LexOutcome::Token { skipped, start, end, action } => {
                &&& start == pos + skipped
                &&& pos <= start < end <= input.len()
                &&& 2 <= action <= 10
                &&& forall|j: int| pos <= j < start ==> spec_is_scanner_blank(#[trigger] input[j])
            },
            LexOutcome::Unmatched { skipped, start } => {
                &&& start == pos + skipped
                &&& pos <= start <= input.len()
                &&& forall|j: int| pos <= j < start ==> spec_is_scanner_blank(#[trigger] input[j])
            },
        },
    decreases input.len() - pos,
{
    let r = spec_scan(input, pos, 0, -1, pos);
    lemma_scan_bounds(input, pos, 0, -1, pos);
    lemma_scan_blank(input, pos, 0, -1, pos);
    if r.eof && pos == input.len() {
    } else if r.action == 1 {
        lemma_lex_shape(input, r.marked);
    }
}

/// End-of-input idempotence: a scan starting at the input's end always
/// yields the end-of-input outcome and stays there, so once a call has
/// returned the sentinel, every further call returns it again.
pub proof fn lemma_end_idempotent(input: Seq<char>, pos: int)
    requires
        pos == input.len(),
    ensures
        spec_lex(input, pos) == (LexOutcome::End { skipped: 0 }),
{
}

/// Whether repeated scan calls from `pos` reach the end of the input
/// without ever failing.
pub open spec fn spec_run_complete(input: Seq<char>, pos: int) -> bool
    decreases input.len() - pos,
    when 0 <= pos <= input.len()
    via spec_run_complete_decreases
{
    match spec_lex(input, pos) {
        LexOutcome::End { .. } => true,
        LexOutcome::Token { end, .. } => spec_run_complete(input, end),
        LexOutcome::Unmatched { .. } => false,
    }
}

#[via_fn]
proof fn spec_run_complete_decreases(input: Seq<char>, pos: int) {
    lemma_lex_shape(input, pos);
}

/// The text that repeated scan calls from `pos` account for: each call
/// contributes the blanks it counted followed by the text of the token it
/// emitted, and the final call the blanks before the end of the input.
pub open spec fn spec_reconstruction(input: Seq<char>, pos: int) -> Seq<char>
    decreases input.len() - pos,
    when 0 <= pos <= input.len()
    via spec_reconstruction_decreases
{
    match spec_lex(input, pos) {
        LexOutcome::End { .. } => input.subrange(pos, input.len() as int),
        LexOutcome::Token { start, end, .. } => input.subrange(pos, start) + input.subrange(
            start,
            end,
        ) + spec_reconstruction(input, end),
        LexOutcome::Unmatched { start, .. } => input.subrange(pos, start),
    }
}

#[via_fn]
proof fn spec_reconstruction_decreases(input: Seq<char>, pos: int) {
    lemma_lex_shape(input, pos);
}

/// Lossless coverage: when a run of scan calls reaches the end of the
/// input, the counted blanks and the emitted tokens' texts, in call
/// order, reconstruct the input exactly. Each call's blank prefix is
/// genuine whitespace by `lemma_lex_shape`.
pub proof fn lemma_lossless_coverage(input: Seq<char>, pos: int)
    requires
        0 <= pos <= input.len(),
        spec_run_complete(input, pos),
    ensures
        spec_reconstruction(input, pos) == input.subrange(pos, input.len() as int),
    decreases input.len() - pos,
{
    lemma_lex_shape(input, pos);
    match spec_lex(input, pos) {
        LexOutcome::End { .. } => {},
        LexOutcome::Token { start, end, .. } => {
            lemma_lossless_coverage(input, end);
            assert(input.subrange(pos, start) + input.subrange(start, end) + input.subrange(
                end,
                input.len() as int,
            ) =~= input.subrange(pos, input.len() as int));
        },
        LexOutcome::Unmatched { .. } => {},
    }
}

/// Whether the automaton, started at `pos` in `state`, actually examines
/// `n` characters: no dead end is hit and no stop state is entered
/// strictly before the `n`-th character.
pub open spec fn spec_runs_to(input: Seq<char>, pos: int, state: int, n: int) -> bool
    decreases n,
{
    if n <= 0 {
        true
    } else if pos >= input.len() {
        false
    } else {
        let next = spec_transition(state, spec_class_of(input[pos]));
        if next == -1 {
            false
        } else if spec_accepting(next) && spec_stops(next) {
            n == 1
        } else {
            spec_runs_to(input, pos + 1, next, n - 1)
        }
    }
}

/// The automaton's state after examining `n` characters from `pos` in
/// `state`.
pub open spec fn spec_state_at(input: Seq<char>, pos: int, state: int, n: int) -> int
    decreases n,
{
    if n <= 0 {
        state
    } else {
        spec_state_at(
            input,
            pos + 1,
            spec_transition(state, spec_class_of(input[pos])),
            n - 1,
        )
    }
}

/// Maximal munch: whenever the automaton can reach an accepting state
/// after `n` characters, the scan marks a match at least that long — a
/// later, longer match always wins over an earlier, shorter one.
pub proof fn lemma_maximal_munch(
    input: Seq<char>,
    pos: int,
    state: int,
    action: int,
    marked: int,
    n: int,
)
    requires
        0 <= pos <= input.len(),
        0 <= marked <= pos,
        n >= 1,
        spec_runs_to(input, pos, state, n),
        spec_accepting(spec_state_at(input, pos, state, n)),
    ensures
        spec_scan(input, pos, state, action, marked).marked >= pos + n,
    decreases n,
{
    assert(pos < input.len());
    let next = spec_transition(state, spec_class_of(input[pos]));
    assert(next != -1);
    if n == 1 {
        assert(spec_state_at(input, pos + 1, next, 0) == next);
        assert(spec_state_at(input, pos, state, 1) == next);
        assert(spec_accepting(next));
        if spec_stops(next) {
            assert(spec_scan(input, pos, state, action, marked) == (ScanOutcome {
                action: spec_action_of(next),
                marked: pos + 1,
                eof: false,
            }));
        } else {
            lemma_scan_bounds(input, pos + 1, next, spec_action_of(next), pos + 1);
            assert(spec_scan(input, pos, state, action, marked) == spec_scan(
                input,
                pos + 1,
                next,
                spec_action_of(next),
                pos + 1,
            ));
        }
    } else {
        assert(!(spec_accepting(next) && spec_stops(next)));
        assert(spec_runs_to(input, pos + 1, next, n - 1));
        assert(spec_state_at(input, pos + 1, next, n - 1) == spec_state_at(
            input,
            pos,
            state,
            n,
        ));
        if spec_accepting(next) {
            lemma_maximal_munch(input, pos + 1, next, spec_action_of(next), pos + 1, n - 1);
        } else {
            lemma_maximal_munch(input, pos + 1, next, action, marked, n - 1);
        }
    }
}

/// Maximal munch at the call level: the token a scan call emits covers
/// every length at which the automaton could still accept from the
/// match's start — the longest reachable match wins.
pub proof fn lemma_lex_maximal_munch(input: Seq<char>, pos: int, n: int)
    requires
        0 <= pos <= input.len(),
        n >= 1,
    ensures
        match spec_lex(input, pos) {
            LexOutcome::Token { start, end, .. } => (spec_runs_to(input, start, 0, n)
                && spec_accepting(spec_state_at(input, start, 0, n))) ==> end >= start + n,
            _ => true,
        },
    decreases input.len() - pos,
{
    let r = spec_scan(input, pos, 0, -1, pos);
    lemma_scan_bounds(input, pos, 0, -1, pos);
    if r.eof && pos == input.len() {
    } else if r.action == 1 {
        lemma_lex_maximal_munch(input, r.marked, n);
    } else if r.action >= 0 {
        if spec_runs_to(input, pos, 0, n) && spec_accepting(spec_state_at(input, pos, 0, n)) {
            lemma_maximal_munch(input, pos, 0, -1, pos, n);
        }
    }
}

/// A side-channel statistic: how many blank characters the scanner has
/// consumed.
pub struct SpaceCounter {
    count: usize,
}

impl View for SpaceCounter {
    type V = int;

    closed spec fn view(&self) -> int {
        self.count as int
    }
}

impl SpaceCounter {
    /// A counter starting at zero.
    pub fn new() -> (r: SpaceCounter)
        ensures
            r@ == 0,
    {
        SpaceCounter { count: 0 }
    }

    /// Records one more skipped blank.
    pub fn increment_space(&mut self)
        requires
            old(self)@ < usize::MAX,
        ensures
            final(self)@ == old(self)@ + 1,
    {
        self.count += 1;
    }

    /// The number of blanks recorded so far.
    pub fn count(&self) -> (r: usize)
        ensures
            r == self@,
    {
        self.count
    }
}

/// The token types the scanner emits. Text-carrying tokens copy the
/// matched span of the source text.
#[derive(Debug, PartialEq)]
pub enum ForthToken {
    /// A comment, with its opening delimiter.
    Comment(String),
    /// A word denoting a signed 64-bit integer.
    Number(i64),
    /// Any other word.
    ForthWord(String),
    /// The word-definition opener `:`.
    Colon,
    /// The word-definition closer `;`.
    SemiColon,
    /// The end of the input; repeated calls keep returning it.
    End,
    /// A scan error, with the offending text.
    Error(String),
    /// A brace-delimited group scheduled for removal from the vocabulary.
    DeleteMe(String),
    /// A brace-delimited local definition scheduled for removal from the
    /// vocabulary.
    DeleteMeLocalDef(String),
}

/// The failure modes of a scan call.
#[derive(Debug, PartialEq)]
pub enum Error {
    /// The input was exhausted.
    EOF,
    /// No accepting state is reachable from the current position.
    Unmatch,
}

/// Whether `t` is the token that dispatching `action` on the matched text
/// produces.
pub open spec fn spec_token_of(action: int, text: Seq<char>, t: ForthToken) -> bool {
    if action == 2 {
        t == ForthToken::SemiColon
    } else if action == 3 || action == 4 || action == 5 {
        t matches ForthToken::ForthWord(w) && w@ == text
    } else if action == 6 {
        t == ForthToken::Colon
    } else if action == 7 {
        t matches ForthToken::DeleteMeLocalDef(w) && w@ == text
    } else if action == 8 || action == 9 || action == 10 {
        t matches ForthToken::Comment(w) && w@ == text
    } else {
        false
    }
}

/// The maximal-munch scanner over a borrowed source buffer.
pub struct Lexer<'a> {
    cmap: Vec<usize>,
    input: &'a str,
    max_len: usize,
    zz_state: usize,
    zz_lexical_state: usize,
    zz_marked_pos: usize,
    zz_current_pos: usize,
    zz_start_read: usize,
    zz_at_eof: bool,
    space_counter: SpaceCounter,
}

impl<'a> Lexer<'a> {
    /// The scanner's configuration and cursor are intact: the classifier
    /// covers every code point and agrees with the class table, and the
    /// cursor positions lie within the input.
    pub closed spec fn wf(self) -> bool {
        &&& self.cmap@.len() == CODE_POINT_COUNT
        &&& forall|i: int|
            0 <= i < CODE_POINT_COUNT ==> self.cmap@[i] == spec_class_of_code_point(i)
        &&& self.max_len == self.input@.len()
        &&& self.zz_start_read <= self.zz_marked_pos <= self.max_len
        &&& self.zz_current_pos <= self.max_len
        &&& self.zz_state < STATE_COUNT
        &&& self.zz_lexical_state < 2
        &&& (self.zz_at_eof ==> self.zz_marked_pos == self.max_len && self.zz_start_read
            == self.max_len)
    }

    /// The source text being scanned.
    pub closed spec fn text(self) -> Seq<char> {
        self.input@
    }

    /// The position scanning resumes from: the end of the last match.
    pub closed spec fn pos(self) -> int {
        self.zz_marked_pos as int
    }

    /// The position where the last match began.
    pub closed spec fn start_pos(self) -> int {
        self.zz_start_read as int
    }

    /// Whether the end of the input has been observed.
    pub closed spec fn at_eof(self) -> bool {
        self.zz_at_eof
    }

    /// The current lexical mode.
    pub closed spec fn mode(self) -> int {
        self.zz_lexical_state as int
    }

    /// The count of skipped blanks.
    pub closed spec fn blanks(self) -> int {
        self.space_counter@
    }

    /// Creates a scanner over the given source text, building the
    /// character-class table, with the cursor at the start of the input.
    pub fn new(input: &'a str, space_counter: SpaceCounter) -> (r: Lexer<'a>)
        ensures
            r.wf(),
            r.text() == input@,
            r.pos() == 0,
            r.start_pos() == 0,
            !r.at_eof(),
            r.mode() == 0,
            r.blanks() == space_counter@,
    {
        let max_len = input.unicode_len();
        let mut cmap: Vec<usize> = Vec::with_capacity(CODE_POINT_COUNT);
        let mut n: usize = 0;
        while n < CODE_POINT_COUNT
            invariant
                cmap@.len() == n,
                n <= CODE_POINT_COUNT,
                forall|i: int| 0 <= i < n ==> cmap@[i] == 0,
            decreases CODE_POINT_COUNT - n,
        {
            cmap.push(0);
            n += 1;
        }
        cmap[9] = 5;
        cmap[10] = 1;
        cmap[11] = 1;
        cmap[12] = 1;
        cmap[13] = 1;
        cmap[32] = 5;
        cmap[35] = 6;
        cmap[36] = 6;
        cmap[45] = 7;
        cmap[46] = 6;
        cmap[48] = 7;
        cmap[49] = 7;
        cmap[50] = 7;
        cmap[51] = 7;
        cmap[52] = 7;
        cmap[53] = 7;
        cmap[54] = 7;
        cmap[55] = 7;
        cmap[56] = 7;
        cmap[57] = 7;
        cmap[58] = 8;
        cmap[59] = 2;
        cmap[63] = 6;
        cmap[64] = 6;
        cmap[65] = 6;
        cmap[66] = 6;
        cmap[67] = 6;
        cmap[68] = 6;
        cmap[69] = 6;
        cmap[70] = 6;
        cmap[71] = 6;
        cmap[72] = 6;
        cmap[73] = 6;
        cmap[74] = 6;
        cmap[75] = 6;
        cmap[76] = 6;
        cmap[77] = 6;
        cmap[78] = 6;
        cmap[79] = 6;
        cmap[80] = 6;
        cmap[81] = 6;
        cmap[82] = 6;
        cmap[83] = 6;
        cmap[84] = 6;
        cmap[85] = 6;
        cmap[86] = 6;
        cmap[87] = 6;
        cmap[88] = 6;
        cmap[89] = 6;
        cmap[90] = 6;
        cmap[92] = 6;
        cmap[95] = 6;
        cmap[97] = 6;
        cmap[98] = 6;
        cmap[99] = 6;
        cmap[100] = 6;
        cmap[101] = 6;
        cmap[102] = 6;
        cmap[103] = 6;
        cmap[104] = 6;
        cmap[105] = 6;
        cmap[106] = 6;
        cmap[107] = 6;
        cmap[108] = 6;
        cmap[109] = 6;
        cmap[110] = 6;
        cmap[111] = 6;
        cmap[112] = 6;
        cmap[113] = 6;
        cmap[114] = 6;
        cmap[115] = 6;
        cmap[116] = 6;
        cmap[117] = 6;
        cmap[118] = 6;
        cmap[119] = 6;
        cmap[120] = 6;
        cmap[121] = 6;
        cmap[122] = 6;
        cmap[123] = 3;
        cmap[125] = 4;
        cmap[133] = 1;
        cmap[8232] = 1;
        cmap[8233] = 1;
        assert(forall|i: int|
            0 <= i < CODE_POINT_COUNT ==> cmap@[i] == spec_class_of_code_point(i));
        Lexer {
            cmap,
            input,
            max_len,
            zz_state: 0,
            zz_lexical_state: 0,
            zz_marked_pos: 0,
            zz_current_pos: 0,
            zz_start_read: 0,
            zz_at_eof: false,
            space_counter,
        }
    }

    /// Hands the blank counter out for reading or resetting.
    pub fn get_space_counter(&mut self) -> (r: &mut SpaceCounter)
        ensures
            *r == old(self).unwrap_space_counter(),
    {
        &mut self.space_counter
    }

    /// The blank counter, for specifications of `get_space_counter`.
    pub closed spec fn unwrap_space_counter(self) -> SpaceCounter {
        self.space_counter
    }

    /// Whether the end of the input has been observed.
    pub fn is_eof(&self) -> (r: bool)
        ensures
            r == self.at_eof(),
    {
        self.zz_at_eof
    }

    /// Switches the lexical mode used by future scan calls without moving
    /// the cursor.
    pub fn yybegin(&mut self, new_state: usize)
        requires
            new_state < 2,
        ensures
            final(self).mode() == new_state,
            old(self).wf() ==> final(self).wf(),
            final(self).text() == old(self).text(),
            final(self).pos() == old(self).pos(),
            final(self).start_pos() == old(self).start_pos(),
            final(self).at_eof() == old(self).at_eof(),
            final(self).blanks() == old(self).blanks(),
    {
        self.zz_lexical_state = new_state;
    }

    /// The current lexical mode.
    pub fn yystate(&self) -> (r: usize)
        ensures
            r == self.mode(),
    {
        self.zz_lexical_state
    }

    /// The length of the last match.
    pub fn yylength(&self) -> (r: usize)
        requires
            self.wf(),
        ensures
            r == self.pos() - self.start_pos(),
    {
        self.zz_marked_pos - self.zz_start_read
    }

    /// The character at offset `pos` from the start of the last match.
    pub fn yycharat(&self, pos: usize) -> (r: Option<char>)
        requires
            self.wf(),
        ensures
            if self.start_pos() + pos < self.text().len() {
                r == Some(self.text()[self.start_pos() + pos])
            } else {
                r is None
            },
    {
        if pos < self.max_len - self.zz_start_read {
            Some(self.input.get_char(self.zz_start_read + pos))
        } else {
            None
        }
    }

    /// The text of the last match, copied out of the source buffer.
    pub fn yytext(&self) -> (r: String)
        requires
            self.wf(),
        ensures
            r@ == self.text().subrange(self.start_pos(), self.pos()),
    {
        let s = self.input.substring_char(self.zz_start_read, self.zz_marked_pos);
        s.to_owned()
    }

    /// Gives back up to `num` characters of the last match: the next scan
    /// call resumes that much earlier. More than the match's length is
    /// ignored.
    pub fn yypushback(&mut self, num: usize)
        requires
            old(self).wf(),
        ensures
            final(self).wf(),
            if num <= old(self).pos() - old(self).start_pos() {
                final(self).pos() == old(self).pos() - num
            } else {
                final(self).pos() == old(self).pos()
            },
            final(self).text() == old(self).text(),
            final(self).start_pos() == old(self).start_pos(),
            final(self).blanks() == old(self).blanks(),
            final(self).at_eof() == old(self).at_eof(),
    {
        if num <= self.yylength() {
            self.zz_marked_pos -= num;
        }
    }

    /// The number of characters of the input not yet consumed.
    pub fn remain(&self) -> (r: usize)
        requires
            self.wf(),
        ensures
            r == self.text().len() - self.pos(),
    {
        self.max_len - self.zz_marked_pos
    }

    /// One inner pass of the driver, realising `spec_scan` from the resume
    /// position: consumes characters until a dead end, a stop state or the
    /// end of the input, records the best match, and backtracks the resume
    /// position to it.
    fn scan_once(&mut self) -> (r: (i32, bool))
        requires
            old(self).wf(),
        ensures
            final(self).wf(),
            ({
                let sr = spec_scan(
                    old(self).text(),
                    old(self).pos(),
                    0,
                    -1,
                    old(self).pos(),
                );
                &&& r.0 == sr.action
                &&& r.1 == sr.eof
                &&& final(self).zz_marked_pos == sr.marked
                &&& final(self).zz_start_read == old(self).zz_marked_pos
                &&& (sr.eof ==> final(self).zz_current_pos == old(self).text().len())
                &&& ((r.1 && final(self).zz_start_read == final(self).zz_current_pos)
                    == (sr.eof && old(self).pos() == old(self).text().len()))
            }),
            final(self).input == old(self).input,
            final(self).max_len == old(self).max_len,
            final(self).zz_lexical_state == old(self).zz_lexical_state,
            final(self).zz_at_eof == old(self).zz_at_eof,
            final(self).space_counter == old(self).space_counter,
    {
        proof {
            lemma_scan_bounds(self.input@, self.pos(), 0, -1, self.pos());
        }
        let ghost text = self.input@;
        let ghost p0 = self.zz_marked_pos as int;
        let mut zz_marked_pos_l = self.zz_marked_pos;
        let mut zz_action: i32 = -1;
        let mut zz_current_pos_l = self.zz_marked_pos;
        let mut reached_eof = false;
        self.zz_start_read = self.zz_marked_pos;
        self.zz_current_pos = self.zz_marked_pos;
        self.zz_state = start_state(self.zz_lexical_state);
        loop
            invariant_except_break
                self.wf(),
                self.input@ == text,
                self.input == old(self).input,
                self.max_len == old(self).max_len,
                self.zz_lexical_state == old(self).zz_lexical_state,
                self.zz_at_eof == old(self).zz_at_eof,
                self.space_counter == old(self).space_counter,
                self.zz_start_read == old(self).zz_marked_pos,
                self.zz_marked_pos == old(self).zz_marked_pos,
                self.zz_current_pos == old(self).zz_marked_pos,
                p0 == old(self).pos(),
                p0 <= zz_marked_pos_l <= zz_current_pos_l <= self.max_len,
                zz_action == -1 ==> zz_marked_pos_l == p0,
                -1 <= zz_action <= 10,
                spec_scan(text, p0, 0, -1, p0) == spec_scan(
                    text,
                    zz_current_pos_l as int,
                    self.zz_state as int,
                    zz_action as int,
                    zz_marked_pos_l as int,
                ),
                !reached_eof,
            ensures
                self.input@ == text,
                self.input == old(self).input,
                self.max_len == old(self).max_len,
                self.zz_lexical_state == old(self).zz_lexical_state,
                self.zz_at_eof == old(self).zz_at_eof,
                self.space_counter == old(self).space_counter,
                self.zz_start_read == old(self).zz_marked_pos,
                self.zz_marked_pos == old(self).zz_marked_pos,
                self.zz_state < STATE_COUNT,
                self.cmap@.len() == CODE_POINT_COUNT,
                forall|i: int|
                    0 <= i < CODE_POINT_COUNT ==> self.cmap@[i] == spec_class_of_code_point(i),
                p0 <= zz_marked_pos_l <= self.max_len,
                spec_scan(text, p0, 0, -1, p0) == (ScanOutcome {
                    action: zz_action as int,
                    marked: zz_marked_pos_l as int,
                    eof: reached_eof,
                }),
                reached_eof ==> self.zz_current_pos == self.max_len,
                !reached_eof ==> self.zz_current_pos == old(self).zz_marked_pos,
            decreases self.max_len - zz_current_pos_l,
        {
            if zz_current_pos_l >= self.max_len {
                reached_eof = true;
                self.zz_current_pos = zz_current_pos_l;
                break;
            }
            let c = self.input.get_char(zz_current_pos_l);
            assert((c as usize) < CODE_POINT_COUNT);
            let cls = self.cmap[c as usize];
            proof {
                assert(cls == spec_class_of(c));
                assert(0 <= spec_class_of(c) <= 8);
                lemma_transition_table(self.zz_state as int, cls as int);
            }
            let idx = row_of(self.zz_state) + cls;
            let nxt = transition_entry(idx);
            zz_current_pos_l += 1;
            if nxt == -1 {
                break;
            }
            self.zz_state = nxt as usize;
            if is_accepting(self.zz_state) {
                zz_action = action_of(self.zz_state);
                zz_marked_pos_l = zz_current_pos_l;
                if is_stop(self.zz_state) {
                    break;
                }
            }
        }
        self.zz_marked_pos = zz_marked_pos_l;
        (zz_action, reached_eof)
    }

    /// Scans the next token: skips and counts blanks, then dispatches the
    /// action of the longest match into a token, reports the end of the
    /// input (idempotently), or fails on text no accepting state matches.
    pub fn yylex(&mut self) -> (r: Result<ForthToken, Error>)
        requires
            old(self).wf(),
            old(self).blanks() + old(self).text().len() - old(self).pos() <= usize::MAX,
        ensures
            final(self).wf(),
            final(self).text() == old(self).text(),
            final(self).mode() == old(self).mode(),
            ({
                let out = spec_lex(old(self).text(), old(self).pos());
                match out {
                    LexOutcome::End { skipped } => {
                        &&& r == Ok::<ForthToken, Error>(ForthToken::End)
                        &&& final(self).pos() == old(self).text().len()
                        &&& final(self).at_eof()
                        &&& final(self).blanks() == old(self).blanks() + skipped
                    },
                    LexOutcome::Token { skipped, start, end, action } => {
                        &&& r matches Ok(t) && spec_token_of(
                            action,
                            old(self).text().subrange(start, end),
                            t,
                        )
                        &&& final(self).pos() == end
                        &&& final(self).start_pos() == start
                        &&& !final(self).at_eof()
                        &&& final(self).blanks() == old(self).blanks() + skipped
                    },
                    LexOutcome::Unmatched { skipped, start } => {
                        &&& r == Err::<ForthToken, Error>(Error::Unmatch)
                        &&& final(self).pos() == start
                        &&& final(self).start_pos() == start
                        &&& !final(self).at_eof()
                        &&& final(self).blanks() == old(self).blanks() + skipped
                    },
                }
            }),
    {
        let ghost text = old(self).text();
        let ghost pos0 = old(self).pos();
        loop
            invariant
                self.wf(),
                self.input@ == text,
                self.input == old(self).input,
                self.max_len == old(self).max_len,
                self.zz_lexical_state == old(self).zz_lexical_state,
                self.zz_at_eof == old(self).zz_at_eof,
                pos0 <= self.pos() <= text.len(),
                pos0 == old(self).pos(),
                old(self).blanks() <= self.blanks(),
                self.blanks() + text.len() - self.pos() <= usize::MAX,
                spec_lex(text, pos0) == spec_add_skipped(
                    spec_lex(text, self.pos()),
                    self.blanks() - old(self).blanks(),
                ),
            decreases text.len() - self.pos(),
        {
            let ghost p = self.pos();
            let ghost sr = spec_scan(text, p, 0, -1, p);
            proof {
                lemma_scan_bounds(text, p, 0, -1, p);
                lemma_scan_blank(text, p, 0, -1, p);
            }
            let (action, reached_eof) = self.scan_once();
            if reached_eof && self.zz_start_read == self.zz_current_pos {
                self.zz_at_eof = true;
                proof {
                    assert(p == text.len());
                    assert(spec_lex(text, p) == (LexOutcome::End { skipped: 0 }));
                }
                return Ok(ForthToken::End);
            } else {
                proof {
                    assert(!(sr.eof && p == text.len()));
                }
                match action {
                    1 => {
                        proof {
                            assert(sr.action == 1);
                            assert(sr.marked == p + 1);
                            assert(spec_lex(text, p) == spec_add_skipped(
                                spec_lex(text, p + 1),
                                1,
                            ));
                        }
                        self.space_counter.increment_space();
                    },
                    2 => {
                        return Ok(ForthToken::SemiColon);
                    },
                    3 | 4 | 5 => {
                        return Ok(ForthToken::ForthWord(self.yytext()));
                    },
                    6 => {
                        return Ok(ForthToken::Colon);
                    },
                    7 => {
                        return Ok(ForthToken::DeleteMeLocalDef(self.yytext()));
                    },
                    8 | 9 | 10 => {
                        return Ok(ForthToken::Comment(self.yytext()));
                    },
                    _ => {
                        return Err(Error::Unmatch);
                    },
                }
            }
        }
    }
}

} // verus!
