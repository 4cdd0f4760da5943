//! Blanks between lexemes do not change what a scan yields.
//!
//! Spaces, tabs and carriage returns may be put in, or taken out, at any
//! place of a source that lies between two lexemes, or inside a comment
//! behind its two slashes: the scan then yields the same tokens, with the same
//! lexemes, literal values and lines, or the same fault
//! ([`lemma_blanks_between_lexemes`]).

use crate::grammar::{
    alpha, blank, comment_at, digit, lemma_run_end, lemma_run_end_unique, lemma_step_advances, line_at,
    newlines_before, outcome_from, run_end, step_at, step_end, token_of, tokens_at, tokens_of,
    CharClass, Span, Step,
};
use vstd::prelude::*;

verus! {

/// The source `s` with the characters `blanks` put in at position `at`.
pub open spec fn with_blanks(s: Seq<char>, at: int, blanks: Seq<char>) -> Seq<char> {
    s.subrange(0, at) + blanks + s.subrange(at, s.len() as int)
}

/// Whether position `at` lies between lexemes in the scan of `s` from `pos`
/// on: the scan comes to stand at it before any fault, at the beginning of a
/// lexeme or at the end of the source, or passes it inside a comment, behind
/// the two slashes.
pub open spec fn between_lexemes(s: Seq<char>, pos: int, at: int) -> bool
    decreases s.len() - pos,
    via between_lexemes_terminates
{
    if at == pos {
        0 <= pos <= s.len()
    } else if pos < 0 || pos >= s.len() || at < pos {
        false
    } else {
        match step_at(s, pos) {
            Step::Token { end, .. } => between_lexemes(s, end, at),
            Step::Trivia { end } => (comment_at(s, pos) && pos + 2 <= at <= end)
                || between_lexemes(s, end, at),
            Step::Fault { .. } => false,
        }
    }
}

#[via_fn]
proof fn between_lexemes_terminates(s: Seq<char>, pos: int, at: int) {
    if 0 <= pos < s.len() {
        lemma_step_advances(s, pos);
    }
}

/// `t` is `s` with the blank `c` put in at position `at`.
spec fn one_more(s: Seq<char>, t: Seq<char>, at: int, c: char) -> bool {
    &&& blank(c)
    &&& 0 <= at <= s.len()
    &&& t.len() == s.len() + 1
    &&& forall|i: int| 0 <= i < at ==> #[trigger] t[i] == s[i]
    &&& t[at] == c
    &&& forall|i: int| at < i <= s.len() ==> #[trigger] t[i] == s[i - 1]
}

proof fn lemma_one_more(s: Seq<char>, at: int, c: char)
    requires
        blank(c),
        0 <= at <= s.len(),
    ensures
        one_more(s, with_blanks(s, at, seq![c]), at, c),
{
}

/// A blank does not change the count of the lines.
proof fn lemma_lines(s: Seq<char>, t: Seq<char>, at: int, c: char, p: int)
    requires
        one_more(s, t, at, c),
        0 <= p <= s.len(),
    ensures
        p <= at ==> line_at(t, p) == line_at(s, p),
        p >= at ==> line_at(t, p + 1) == line_at(s, p),
    decreases p,
{
    if p > 0 {
        lemma_lines(s, t, at, c, p - 1);
    }
    if p == at {
        assert(newlines_before(t, p + 1) == newlines_before(t, p));
    }
}

/// A run that ends before the blank, or at it where the blank is outside
/// the class, ends where it did.
proof fn lemma_run_before(
    s: Seq<char>,
    t: Seq<char>,
    at: int,
    c: char,
    from: int,
    class: CharClass,
)
    requires
        one_more(s, t, at, c),
        0 <= from <= at,
        run_end(s, from, class) < at || (run_end(s, from, class) == at && !class.admits(c)),
    ensures
        run_end(t, from, class) == run_end(s, from, class),
{
    lemma_run_end(s, from, class);
    lemma_run_end_unique(t, from, class, run_end(s, from, class));
}

/// A run that holds the place of the blank, of a class that admits the
/// blank, grows by it.
proof fn lemma_run_through(
    s: Seq<char>,
    t: Seq<char>,
    at: int,
    c: char,
    from: int,
    class: CharClass,
)
    requires
        one_more(s, t, at, c),
        0 <= from <= at <= run_end(s, from, class),
        class.admits(c),
    ensures
        run_end(t, from, class) == run_end(s, from, class) + 1,
{
    lemma_run_end(s, from, class);
    let end = run_end(s, from, class);
    assert forall|i: int| from <= i < end + 1 implies class.admits(#[trigger] t[i]) by {
        if i > at {
            assert(t[i] == s[i - 1]);
        }
    }
    lemma_run_end_unique(t, from, class, end + 1);
}

/// A run behind the blank moves by one place.
proof fn lemma_run_after(
    s: Seq<char>,
    t: Seq<char>,
    at: int,
    c: char,
    from: int,
    class: CharClass,
)
    requires
        one_more(s, t, at, c),
        at <= from <= s.len(),
    ensures
        run_end(t, from + 1, class) == run_end(s, from, class) + 1,
{
    lemma_run_end(s, from, class);
    let end = run_end(s, from, class);
    assert forall|i: int| from + 1 <= i < end + 1 implies class.admits(#[trigger] t[i]) by {
        assert(t[i] == s[i - 1]);
    }
    lemma_run_end_unique(t, from + 1, class, end + 1);
}

/// A lexeme that ends at or before the blank is not changed by it, but for
/// a comment that ends at the blank.
proof fn lemma_step_before(s: Seq<char>, t: Seq<char>, at: int, c: char, pos: int)
    requires
        one_more(s, t, at, c),
        0 <= pos < at,
        !(step_at(s, pos) is Fault),
        step_end(s, pos) <= at,
        comment_at(s, pos) ==> step_end(s, pos) < at,
    ensures
        step_at(t, pos) == step_at(s, pos),
{
    lemma_step_advances(s, pos);
    let end = step_end(s, pos);
    assert(t[pos] == s[pos]);
    if pos + 1 < at {
        assert(t[pos + 1] == s[pos + 1]);
    }
    if comment_at(s, pos) {
        lemma_run_before(s, t, at, c, pos + 2, CharClass::CommentBody);
    } else if s[pos] == '"' {
        lemma_run_before(s, t, at, c, pos + 1, CharClass::StringBody);
    } else if digit(s[pos]) {
        lemma_run_end(s, pos, CharClass::Digit);
        let whole = run_end(s, pos, CharClass::Digit);
        if whole + 1 <= s.len() {
            lemma_run_end(s, whole + 1, CharClass::Digit);
        }
        lemma_run_before(s, t, at, c, pos, CharClass::Digit);
        if whole < at {
            assert(t[whole] == s[whole]);
            if whole + 1 < at {
                assert(t[whole + 1] == s[whole + 1]);
            }
            if end > whole {
                lemma_run_before(s, t, at, c, whole + 1, CharClass::Digit);
            }
        }
    } else if alpha(s[pos]) {
        lemma_run_before(s, t, at, c, pos + 1, CharClass::Word);
        assert(t.subrange(pos, end) =~= s.subrange(pos, end));
    }
}

/// A comment that holds the place of the blank behind its slashes grows by
/// it.
proof fn lemma_step_through(s: Seq<char>, t: Seq<char>, at: int, c: char, pos: int)
    requires
        one_more(s, t, at, c),
        0 <= pos,
        comment_at(s, pos),
        pos + 2 <= at <= step_end(s, pos),
    ensures
        step_at(s, pos) == (Step::Trivia { end: step_end(s, pos) }),
        step_at(t, pos) == (Step::Trivia { end: step_end(s, pos) + 1 }),
{
    assert(t[pos] == s[pos]);
    assert(t[pos + 1] == s[pos + 1]);
    lemma_run_through(s, t, at, c, pos + 2, CharClass::CommentBody);
}

/// The step that `step` becomes when the source before it grows by one
/// character.
spec fn moved(step: Step) -> Step {
    match step {
        Step::Token { kind, end } => Step::Token { kind, end: end + 1 },
        Step::Trivia { end } => Step::Trivia { end: end + 1 },
        Step::Fault { fault, stop } => Step::Fault { fault, stop: stop + 1 },
    }
}

/// A lexeme behind the blank moves by one place.
proof fn lemma_step_after(s: Seq<char>, t: Seq<char>, at: int, c: char, pos: int)
    requires
        one_more(s, t, at, c),
        at <= pos < s.len(),
    ensures
        step_at(t, pos + 1) == moved(step_at(s, pos)),
{
    lemma_step_advances(s, pos);
    assert(t[pos + 1] == s[pos]);
    if pos + 1 < s.len() {
        assert(t[pos + 2] == s[pos + 1]);
    }
    lemma_lines(s, t, at, c, pos);
    lemma_lines(s, t, at, c, s.len() as int);
    if comment_at(s, pos) {
        lemma_run_after(s, t, at, c, pos + 2, CharClass::CommentBody);
    } else if s[pos] == '"' {
        lemma_run_after(s, t, at, c, pos + 1, CharClass::StringBody);
    } else if digit(s[pos]) {
        lemma_run_end(s, pos, CharClass::Digit);
        let whole = run_end(s, pos, CharClass::Digit);
        lemma_run_after(s, t, at, c, pos, CharClass::Digit);
        if whole < s.len() {
            assert(t[whole + 1] == s[whole]);
            if whole + 1 < s.len() {
                assert(t[whole + 2] == s[whole + 1]);
            }
            lemma_run_after(s, t, at, c, whole + 1, CharClass::Digit);
        }
    } else if alpha(s[pos]) {
        lemma_run_after(s, t, at, c, pos + 1, CharClass::Word);
        let end = run_end(s, pos + 1, CharClass::Word);
        assert(t.subrange(pos + 1, end + 1) =~= s.subrange(pos, end));
    }
}

/// The tokens at a first span and at those that follow it.
proof fn lemma_tokens_at_first(s: Seq<char>, span: Span, rest: Seq<Span>)
    ensures
        tokens_at(s, seq![span] + rest) == seq![token_of(s, span)] + tokens_at(s, rest),
{
    assert(tokens_at(s, seq![span] + rest) =~= seq![token_of(s, span)] + tokens_at(s, rest));
}

/// Behind the blank the scan goes on as it did, one place further on.
proof fn lemma_outcome_after(s: Seq<char>, t: Seq<char>, at: int, c: char, pos: int)
    requires
        one_more(s, t, at, c),
        at <= pos <= s.len(),
    ensures
        outcome_from(t, pos + 1).fault == outcome_from(s, pos).fault,
        tokens_at(t, outcome_from(t, pos + 1).spans) == tokens_at(s, outcome_from(s, pos).spans),
    decreases s.len() - pos,
{
    if pos < s.len() {
        lemma_step_advances(s, pos);
        lemma_step_after(s, t, at, c, pos);
        match step_at(s, pos) {
            Step::Token { kind, end } => {
                lemma_outcome_after(s, t, at, c, end);
                let here = Span { kind, start: pos, end };
                let there = Span { kind, start: pos + 1, end: end + 1 };
                lemma_lines(s, t, at, c, pos);
                assert(t.subrange(pos + 1, end + 1) =~= s.subrange(pos, end));
                assert(token_of(t, there) == token_of(s, here));
                lemma_tokens_at_first(s, here, outcome_from(s, end).spans);
                lemma_tokens_at_first(t, there, outcome_from(t, end + 1).spans);
            },
            Step::Trivia { end } => {
                lemma_outcome_after(s, t, at, c, end);
            },
            Step::Fault { .. } => {},
        }
    } else {
        assert(tokens_at(t, outcome_from(t, pos + 1).spans) =~= tokens_at(
            s,
            outcome_from(s, pos).spans,
        ));
    }
}

/// Up to the blank the scan goes on as it did; the blank itself is skipped.
proof fn lemma_outcome_before(s: Seq<char>, t: Seq<char>, at: int, c: char, pos: int)
    requires
        one_more(s, t, at, c),
        0 <= pos,
        between_lexemes(s, pos, at),
    ensures
        pos <= at,
        outcome_from(t, pos).fault == outcome_from(s, pos).fault,
        tokens_at(t, outcome_from(t, pos).spans) == tokens_at(s, outcome_from(s, pos).spans),
        between_lexemes(t, pos, at),
    decreases s.len() - pos,
{
    if pos == at {
        assert(step_at(t, at) == Step::Trivia { end: at + 1 });
        lemma_outcome_after(s, t, at, c, at);
    } else {
        lemma_step_advances(s, pos);
        let end = step_end(s, pos);
        if comment_at(s, pos) && pos + 2 <= at <= end {
            lemma_step_through(s, t, at, c, pos);
            lemma_outcome_after(s, t, at, c, end);
        } else {
            lemma_outcome_before(s, t, at, c, end);
            if comment_at(s, pos) {
                lemma_run_end(s, pos + 2, CharClass::CommentBody);
            }
            lemma_step_before(s, t, at, c, pos);
            match step_at(s, pos) {
                Step::Token { kind, end } => {
                    let here = Span { kind, start: pos, end };
                    lemma_lines(s, t, at, c, pos);
                    assert(t.subrange(pos, end) =~= s.subrange(pos, end));
                    assert(token_of(t, here) == token_of(s, here));
                    lemma_tokens_at_first(s, here, outcome_from(s, end).spans);
                    lemma_tokens_at_first(t, here, outcome_from(t, end).spans);
                },
                _ => {},
            }
        }
    }
}

/// One blank between lexemes changes nothing, and leaves its place between
/// lexemes.
proof fn lemma_one_blank(s: Seq<char>, at: int, c: char)
    requires
        blank(c),
        between_lexemes(s, 0, at),
    ensures
        0 <= at <= s.len(),
        tokens_of(with_blanks(s, at, seq![c])) == tokens_of(s),
        between_lexemes(with_blanks(s, at, seq![c]), 0, at),
{
    lemma_between_in_source(s, 0, at);
    let t = with_blanks(s, at, seq![c]);
    lemma_one_more(s, at, c);
    lemma_outcome_before(s, t, at, c, 0);
    lemma_lines(s, t, at, c, s.len() as int);
}

/// A place between lexemes lies in the source, at or behind the place from
/// which the scan set out.
pub proof fn lemma_between_in_source(s: Seq<char>, pos: int, at: int)
    requires
        between_lexemes(s, pos, at),
    ensures
        0 <= pos <= at <= s.len(),
    decreases s.len() - pos,
{
    if at != pos {
        lemma_step_advances(s, pos);
        let end = step_end(s, pos);
        if !(comment_at(s, pos) && pos + 2 <= at <= end) {
            lemma_between_in_source(s, end, at);
        }
    }
}

/// Blanks between lexemes. Where `at` lies between lexemes of `s`, the
/// source with a run of spaces, tabs and carriage returns put in at `at`
/// scans to what `s` scans to: the same kinds, lexemes, literal values and
/// lines in the same order, or the same fault. Read from right to left, the
/// same holds of taking such a run out, where the place it leaves lies
/// between lexemes of what remains.
pub proof fn lemma_blanks_between_lexemes(s: Seq<char>, at: int, blanks: Seq<char>)
    requires
        between_lexemes(s, 0, at),
        forall|i: int| 0 <= i < blanks.len() ==> blank(#[trigger] blanks[i]),
    ensures
        tokens_of(with_blanks(s, at, blanks)) == tokens_of(s),
        between_lexemes(with_blanks(s, at, blanks), 0, at),
    decreases blanks.len(),
{
    lemma_between_in_source(s, 0, at);
    if blanks.len() == 0 {
        assert(with_blanks(s, at, blanks) =~= s);
    } else {
        let fewer = blanks.drop_first();
        let before = with_blanks(s, at, fewer);
        lemma_blanks_between_lexemes(s, at, fewer);
        lemma_one_blank(before, at, blanks[0]);
        assert(with_blanks(before, at, seq![blanks[0]]) =~= with_blanks(s, at, blanks));
    }
}

} // verus!
