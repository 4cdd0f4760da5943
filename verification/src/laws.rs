//! What holds of every scan: laws of the lexical grammar, proved from its
//! model.

use crate::grammar::{
    alpha, alpha_numeric, blank, digit, end_marker, follows, keyword, lemma_line_monotonic,
    lemma_run_end, lemma_run_end_unique, lemma_step_advances, line_at, newlines_before,
    only_trivia, operator, outcome_from, punctuation, run_end, step_at, step_end, token_of,
    tokens_at, tokens_of, trivia_between, unexpected_character, unterminated_string, word_kind,
    CharClass, LexFault, Outcome, Span, Step,
};
use crate::token::{LiteralView, TokenView};
use crate::token_type::TokenType;
use vstd::prelude::*;

verus! {

/// Where the stretch before the `i`-th of `spans` begins, in a scan that
/// set out at `pos`: at `pos` for the first, behind the one before for the
/// others, and behind the last for `i == spans.len()`.
pub open spec fn gap_start(spans: Seq<Span>, pos: int, i: int) -> int {
    if i <= 0 {
        pos
    } else {
        spans[i - 1].end
    }
}

/// Where the stretch before the `i`-th of `spans` ends, in a scan that
/// looked at its last lexeme at `last`: where the `i`-th begins, and at
/// `last` for `i == spans.len()`.
pub open spec fn gap_end(spans: Seq<Span>, last: int, i: int) -> int {
    if i < spans.len() {
        spans[i].start
    } else {
        last
    }
}

/// No word is the end marker, a string or a number.
pub proof fn lemma_word_kind(text: Seq<char>)
    ensures
        word_kind(text) != TokenType::EndOfInput,
        word_kind(text) != TokenType::String,
        word_kind(text) != TokenType::Number,
        keyword(text) is None ==> word_kind(text) == TokenType::Identifier,
        keyword(text) is Some ==> word_kind(text) != TokenType::Identifier,
{
}

/// The tokens of a scan. Each lies in the source, behind the place from
/// which the scan set out and before the place where it halted, and holds
/// at least one character; each is the token that the grammar finds at its
/// first character. A scan that meets no fault halts at the end of the
/// source; one that meets a fault halts at the lexeme that the grammar
/// rejects.
pub proof fn lemma_outcome_spans(s: Seq<char>, pos: int)
    requires
        0 <= pos <= s.len(),
    ensures
        ({
            let outcome = outcome_from(s, pos);
            let spans = outcome.spans;
            &&& pos <= outcome.start <= outcome.stop <= s.len()
            &&& outcome.fault is None ==> outcome.start == s.len()
            &&& outcome.fault is Some ==> outcome.start < s.len() && step_at(s, outcome.start)
                == (Step::Fault { fault: outcome.fault->0, stop: outcome.stop })
            &&& forall|i: int|
                0 <= i < spans.len() ==> {
                    &&& pos <= (#[trigger] spans[i]).start < spans[i].end <= outcome.start
                    &&& step_at(s, spans[i].start) == (Step::Token {
                        kind: spans[i].kind,
                        end: spans[i].end,
                    })
                }
        }),
    decreases s.len() - pos,
{
    let outcome = outcome_from(s, pos);
    let spans = outcome.spans;
    if pos < s.len() {
        lemma_step_advances(s, pos);
        match step_at(s, pos) {
            Step::Token { kind, end } => {
                lemma_outcome_spans(s, end);
                let rest = outcome_from(s, end);
                assert forall|i: int| 0 <= i < spans.len() implies {
                    &&& pos <= (#[trigger] spans[i]).start < spans[i].end <= outcome.start
                    &&& step_at(s, spans[i].start) == (Step::Token {
                        kind: spans[i].kind,
                        end: spans[i].end,
                    })
                } by {
                    if i > 0 {
                        assert(spans[i] == rest.spans[i - 1]);
                    }
                }
            },
            Step::Trivia { end } => {
                lemma_outcome_spans(s, end);
            },
            Step::Fault { .. } => {},
        }
    }
}

/// The source between the tokens of a scan. The tokens lie in the order in
/// which they were met and do not overlap, and the stretches before the
/// first, between one and the next, and from the last to where the scan
/// halted hold whitespace and comments only. So the lexemes of the tokens,
/// with whitespace and comments between them, make up the source that was
/// scanned.
pub proof fn lemma_outcome_gaps(s: Seq<char>, pos: int)
    requires
        0 <= pos <= s.len(),
    ensures
        ({
            let outcome = outcome_from(s, pos);
            let spans = outcome.spans;
            forall|i: int|
                0 <= i <= spans.len() ==> {
                    &&& #[trigger] gap_start(spans, pos, i) <= gap_end(spans, outcome.start, i)
                    &&& trivia_between(
                        s,
                        gap_start(spans, pos, i),
                        gap_end(spans, outcome.start, i),
                    )
                }
        }),
    decreases s.len() - pos,
{
    let outcome = outcome_from(s, pos);
    let spans = outcome.spans;
    if pos < s.len() {
        lemma_step_advances(s, pos);
        match step_at(s, pos) {
            Step::Token { kind, end } => {
                lemma_outcome_gaps(s, end);
                let rest = outcome_from(s, end);
                assert forall|i: int| 0 <= i <= spans.len() implies {
                    &&& #[trigger] gap_start(spans, pos, i) <= gap_end(spans, outcome.start, i)
                    &&& trivia_between(
                        s,
                        gap_start(spans, pos, i),
                        gap_end(spans, outcome.start, i),
                    )
                } by {
                    if i > 0 {
                        assert(gap_start(spans, pos, i) == gap_start(rest.spans, end, i - 1));
                        assert(gap_end(spans, outcome.start, i) == gap_end(
                            rest.spans,
                            rest.start,
                            i - 1,
                        ));
                    }
                }
            },
            Step::Trivia { end } => {
                lemma_outcome_gaps(s, end);
                let rest = outcome_from(s, end);
                assert forall|i: int| 0 <= i <= spans.len() implies {
                    &&& #[trigger] gap_start(spans, pos, i) <= gap_end(spans, outcome.start, i)
                    &&& trivia_between(
                        s,
                        gap_start(spans, pos, i),
                        gap_end(spans, outcome.start, i),
                    )
                } by {
                    if i > 0 {
                        assert(gap_start(spans, pos, i) == gap_start(rest.spans, end, i));
                    } else {
                        assert(gap_start(rest.spans, end, 0) == end);
                    }
                }
            },
            Step::Fault { .. } => {},
        }
    }
}

/// A stretch of whitespace and comments that reaches the end of the source
/// yields no token and no fault.
proof fn lemma_trivia_to_the_end(s: Seq<char>, pos: int)
    requires
        0 <= pos <= s.len(),
        trivia_between(s, pos, s.len() as int),
    ensures
        outcome_from(s, pos) == (Outcome {
            spans: Seq::empty(),
            start: s.len() as int,
            stop: s.len() as int,
            fault: None,
        }),
    decreases s.len() - pos,
{
    if pos < s.len() {
        lemma_step_advances(s, pos);
        lemma_trivia_to_the_end(s, step_end(s, pos));
    }
}

/// A source holds whitespace and comments only if and only if its scan
/// yields the end marker and nothing else.
pub proof fn lemma_only_trivia(s: Seq<char>)
    ensures
        only_trivia(s) <==> tokens_of(s) == Ok::<_, LexFault>(seq![end_marker(s)]),
{
    let outcome = outcome_from(s, 0);
    if only_trivia(s) {
        lemma_trivia_to_the_end(s, 0);
        assert(tokens_at(s, outcome.spans).push(end_marker(s)) =~= seq![end_marker(s)]);
    }
    if tokens_of(s) == Ok::<_, LexFault>(seq![end_marker(s)]) {
        lemma_outcome_spans(s, 0);
        lemma_outcome_gaps(s, 0);
        assert(tokens_at(s, outcome.spans).push(end_marker(s)).len() == 1);
        assert(outcome.spans.len() == 0);
        assert(gap_start(outcome.spans, 0, 0) == 0);
    }
}

/// The kind of the token that the character `c` is when it stands alone:
/// the punctuation marks, the operators of one character, and the slash.
pub open spec fn lone_kind(c: char) -> Option<TokenType> {
    if punctuation(c) is Some {
        punctuation(c)
    } else if let Some((alone, _)) = operator(c) {
        Some(alone)
    } else if c == '/' {
        Some(TokenType::Slash)
    } else {
        None
    }
}

/// A source that holds one punctuation mark or operator character and
/// nothing else yields the token of that character, whose lexeme is the
/// character, followed by the end marker, both on line 1.
pub proof fn lemma_lone_punctuation(c: char)
    requires
        lone_kind(c) is Some,
    ensures
        tokens_of(seq![c]) == Ok::<_, LexFault>(
            seq![
                TokenView {
                    token_type: lone_kind(c)->0,
                    lexeme: seq![c],
                    literal: LiteralView::Absent,
                    line: 1,
                },
                TokenView {
                    token_type: TokenType::EndOfInput,
                    lexeme: Seq::empty(),
                    literal: LiteralView::Absent,
                    line: 1,
                },
            ],
        ),
{
    let s = seq![c];
    let kind = lone_kind(c)->0;
    let span = Span { kind, start: 0, end: 1 };
    assert(step_at(s, 0) == Step::Token { kind, end: 1 });
    assert(outcome_from(s, 1).spans =~= Seq::empty());
    assert(outcome_from(s, 0).spans =~= seq![span]);
    assert(s.subrange(0, 1) =~= s);
    assert(newlines_before(s, 0) == 0);
    assert(newlines_before(s, 1) == 0);
    assert(tokens_at(s, seq![span]).push(end_marker(s)) =~= seq![token_of(s, span), end_marker(s)]);
}

/// Line tracking. Each token of a scan stands on the line that the newlines
/// before its first character give it: with `n` newlines before it, line
/// `n + 1`. The end marker comes last and stands on the line that all the
/// newlines of the source give: the last line reached.
pub proof fn lemma_line_tracking(s: Seq<char>)
    ensures
        tokens_of(s) matches Ok(tokens) ==> {
            let spans = outcome_from(s, 0).spans;
            &&& tokens.len() == spans.len() + 1
            &&& forall|i: int|
                0 <= i < spans.len() ==> (#[trigger] tokens[i]).line == newlines_before(
                    s,
                    spans[i].start,
                ) + 1
            &&& tokens.last().line == newlines_before(s, s.len() as int) + 1
            &&& forall|i: int| 0 <= i < tokens.len() ==> (#[trigger] tokens[i]).line <= tokens.last().line
        },
{
    if tokens_of(s) is Ok {
        let spans = outcome_from(s, 0).spans;
        let tokens = tokens_of(s)->Ok_0;
        lemma_outcome_spans(s, 0);
        assert forall|i: int| 0 <= i < tokens.len() implies (#[trigger] tokens[i]).line
            <= tokens.last().line by {
            if i < spans.len() {
                lemma_line_monotonic(s, spans[i].start, s.len() as int);
            }
        }
    }
}

/// A scan that succeeds ends with the end marker, whose lexeme is empty,
/// and holds no other token of that kind.
pub proof fn lemma_one_end_marker(s: Seq<char>)
    ensures
        tokens_of(s) matches Ok(tokens) ==> {
            &&& tokens.len() >= 1
            &&& tokens.last() == end_marker(s)
            &&& forall|i: int|
                0 <= i < tokens.len() - 1 ==> (#[trigger] tokens[i]).token_type
                    != TokenType::EndOfInput
        },
{
    if tokens_of(s) is Ok {
        let spans = outcome_from(s, 0).spans;
        let tokens = tokens_of(s)->Ok_0;
        lemma_outcome_spans(s, 0);
        assert forall|i: int| 0 <= i < tokens.len() - 1 implies (#[trigger] tokens[i]).token_type
            != TokenType::EndOfInput by {
            let span = spans[i];
            assert(step_at(s, span.start) == Step::Token { kind: span.kind, end: span.end });
            lemma_word_kind(s.subrange(span.start, run_end(s, span.start + 1, CharClass::Word)));
        }
    }
}

/// Whether `kind` is the kind of a keyword.
pub open spec fn is_keyword(kind: TokenType) -> bool {
    match kind {
        TokenType::And
        | TokenType::Class
        | TokenType::Else
        | TokenType::False
        | TokenType::For
        | TokenType::Fun
        | TokenType::If
        | TokenType::Nil
        | TokenType::Or
        | TokenType::Print
        | TokenType::Return
        | TokenType::Super
        | TokenType::This
        | TokenType::True
        | TokenType::Var
        | TokenType::While => true,
        _ => false,
    }
}

/// Whether `text` is a decimal numeral: one digit or more, and then either
/// nothing, or a dot and one digit or more.
pub open spec fn numeral(text: Seq<char>) -> bool {
    let whole = run_end(text, 0, CharClass::Digit);
    &&& 1 <= whole
    &&& whole == text.len() || {
        &&& follows(text, whole, '.')
        &&& whole + 2 <= text.len()
        &&& run_end(text, whole + 1, CharClass::Digit) == text.len()
    }
}

/// A run within a stretch of the source that it does not leave is a run of
/// the stretch taken by itself.
proof fn lemma_run_within(s: Seq<char>, start: int, end: int, from: int, class: CharClass)
    requires
        0 <= start <= from <= end <= s.len(),
        run_end(s, from, class) <= end,
        run_end(s, from, class) < end || end == s.len() || !class.admits(s[end]),
    ensures
        run_end(s.subrange(start, end), from - start, class) == run_end(s, from, class) - start,
{
    lemma_run_end(s, from, class);
    let stretch = s.subrange(start, end);
    let stop = run_end(s, from, class);
    assert forall|i: int| from - start <= i < stop - start implies class.admits(
        #[trigger] stretch[i],
    ) by {
        assert(stretch[i] == s[i + start]);
    }
    lemma_run_end_unique(stretch, from - start, class, stop - start);
}

/// A keyword has the kind of a keyword.
proof fn lemma_keyword_kinds(text: Seq<char>)
    ensures
        keyword(text) matches Some(kind) ==> is_keyword(kind),
        is_keyword(word_kind(text)) ==> keyword(text) == Some(word_kind(text)),
        word_kind(text) == TokenType::Identifier ==> keyword(text) is None,
{
}

/// Whether the token of kind `kind` that lies at `start` of `s` and ends
/// before `end` is a word as the grammar has it: it has the kind of a
/// keyword or of an identifier exactly when it begins with a letter or an
/// underscore; it then is a maximal run of letters, digits and underscores,
/// and is the keyword that the whole run spells, or an identifier where the
/// run spells none.
pub open spec fn word_or_no_word(s: Seq<char>, kind: TokenType, start: int, end: int) -> bool {
    let lexeme = s.subrange(start, end);
    &&& (is_keyword(kind) || kind == TokenType::Identifier) <==> alpha(s[start])
    &&& is_keyword(kind) ==> keyword(lexeme) == Some(kind)
    &&& kind == TokenType::Identifier ==> keyword(lexeme) is None
    &&& alpha(s[start]) ==> {
        &&& forall|j: int| start <= j < end ==> alpha_numeric(#[trigger] s[j])
        &&& end < s.len() ==> !alpha_numeric(s[end])
    }
}

proof fn lemma_word_at(s: Seq<char>, kind: TokenType, start: int, end: int)
    requires
        0 <= start < s.len(),
        step_at(s, start) == (Step::Token { kind, end }),
    ensures
        word_or_no_word(s, kind, start, end),
{
    if alpha(s[start]) {
        lemma_run_end(s, start + 1, CharClass::Word);
        lemma_keyword_kinds(s.subrange(start, end));
    } else {
        assert(!is_keyword(kind) && kind != TokenType::Identifier);
    }
}

/// Words. In every scan, a token is a keyword or an identifier exactly when
/// it begins with a letter or an underscore. Such a token is a maximal run:
/// all its characters are letters, digits and underscores, and the character
/// behind it, if there is one, is none of these. It is the keyword that the
/// whole run spells, and an identifier where the run spells none.
pub proof fn lemma_words_are_maximal(s: Seq<char>, pos: int)
    requires
        0 <= pos <= s.len(),
    ensures
        forall|i: int|
            0 <= i < outcome_from(s, pos).spans.len() ==> {
                let span = #[trigger] outcome_from(s, pos).spans[i];
                word_or_no_word(s, span.kind, span.start, span.end)
            },
{
    let spans = outcome_from(s, pos).spans;
    lemma_outcome_spans(s, pos);
    assert forall|i: int| 0 <= i < spans.len() implies {
        let span = #[trigger] outcome_from(s, pos).spans[i];
        word_or_no_word(s, span.kind, span.start, span.end)
    } by {
        let span = spans[i];
        lemma_word_at(s, span.kind, span.start, span.end);
    }
}

/// Whether the token of kind `kind` that lies at `start` of `s` and ends
/// before `end` has the literal value that the grammar gives it. A string
/// token begins and ends with a double quote and holds no other; its value
/// is what stands between the two. A number token is a decimal numeral that
/// no digit follows, nor, where it has no fractional part, a dot with a digit
/// behind it; its value is the numeral. No other token has a value.
pub open spec fn literal_as_written(s: Seq<char>, kind: TokenType, start: int, end: int) -> bool {
    let lexeme = s.subrange(start, end);
    let literal = token_of(s, Span { kind, start, end }).literal;
    &&& kind == TokenType::String ==> {
        &&& lexeme.len() >= 2
        &&& lexeme.first() == '"'
        &&& lexeme.last() == '"'
        &&& literal == LiteralView::String(lexeme.subrange(1, lexeme.len() - 1))
        &&& forall|j: int| 1 <= j < lexeme.len() - 1 ==> #[trigger] lexeme[j] != '"'
    }
    &&& kind == TokenType::Number ==> {
        &&& numeral(lexeme)
        &&& literal == LiteralView::Number(lexeme)
        &&& end < s.len() ==> !digit(s[end])
        &&& run_end(lexeme, 0, CharClass::Digit) == lexeme.len() ==> !(follows(s, end, '.') && end
            + 1 < s.len() && digit(s[end + 1]))
    }
    &&& kind != TokenType::String && kind != TokenType::Number ==> literal == LiteralView::Absent
}

proof fn lemma_literal_at(s: Seq<char>, kind: TokenType, start: int, end: int)
    requires
        0 <= start < s.len(),
        step_at(s, start) == (Step::Token { kind, end }),
    ensures
        literal_as_written(s, kind, start, end),
{
    lemma_step_advances(s, start);
    let lexeme = s.subrange(start, end);
    if s[start] == '"' {
        lemma_run_end(s, start + 1, CharClass::StringBody);
    } else if digit(s[start]) {
        let whole = run_end(s, start, CharClass::Digit);
        lemma_run_end(s, start, CharClass::Digit);
        if whole + 1 <= s.len() {
            lemma_run_end(s, whole + 1, CharClass::Digit);
        }
        if whole == end {
            lemma_run_within(s, start, end, start, CharClass::Digit);
        } else {
            lemma_run_within(s, start, end, start, CharClass::Digit);
            lemma_run_within(s, start, end, whole + 1, CharClass::Digit);
            assert(lexeme[whole - start] == s[whole]);
        }
    } else if alpha(s[start]) {
        lemma_word_kind(lexeme);
    }
}

/// Literals. In every scan, each token has the literal value that the
/// grammar gives it ([`literal_as_written`]).
pub proof fn lemma_literals(s: Seq<char>, pos: int)
    requires
        0 <= pos <= s.len(),
    ensures
        forall|i: int|
            0 <= i < outcome_from(s, pos).spans.len() ==> {
                let span = #[trigger] outcome_from(s, pos).spans[i];
                literal_as_written(s, span.kind, span.start, span.end)
            },
{
    let spans = outcome_from(s, pos).spans;
    lemma_outcome_spans(s, pos);
    assert forall|i: int| 0 <= i < spans.len() implies {
        let span = #[trigger] outcome_from(s, pos).spans[i];
        literal_as_written(s, span.kind, span.start, span.end)
    } by {
        let span = spans[i];
        lemma_literal_at(s, span.kind, span.start, span.end);
    }
}

/// Whether some lexeme begins with the character `c`.
pub open spec fn begins_lexeme(c: char) -> bool {
    ||| punctuation(c) is Some
    ||| operator(c) is Some
    ||| c == '/'
    ||| blank(c)
    ||| c == '\n'
    ||| c == '"'
    ||| digit(c)
    ||| alpha(c)
}

/// Faults. A scan fails in one of two ways. It has come to stand at a
/// double quote behind which the source holds no other: the string is
/// unterminated, and the fault names the last line of the source. Or it has
/// come to stand at a character with which no lexeme begins: the character
/// is unexpected, and the fault names its line.
pub proof fn lemma_fault_cases(s: Seq<char>)
    ensures
        tokens_of(s) matches Err(fault) ==> {
            let at = outcome_from(s, 0).start;
            &&& 0 <= at < s.len()
            &&& if s[at] == '"' {
                &&& fault == (LexFault {
                    line: line_at(s, s.len() as int),
                    message: unterminated_string(),
                })
                &&& forall|j: int| at < j < s.len() ==> #[trigger] s[j] != '"'
            } else {
                &&& fault == (LexFault { line: line_at(s, at), message: unexpected_character() })
                &&& !begins_lexeme(s[at])
            }
        },
{
    if tokens_of(s) is Err {
        let at = outcome_from(s, 0).start;
        lemma_outcome_spans(s, 0);
        lemma_run_end(s, at + 1, CharClass::StringBody);
    }
}

} // verus!
