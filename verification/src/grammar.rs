//! The lexical grammar, as a mathematical model over sequences of characters.
//!
//! Source text is a `Seq<char>` and a position is an index into it. The model
//! says, for each position, which lexeme starts there and where it ends
//! ([`step_at`]), and from that what a whole scan yields ([`outcome_from`],
//! [`tokens_of`]). Lines are counted by the newlines that precede a position
//! ([`line_at`]).

use crate::token::{LiteralView, TokenView};
use crate::token_type::TokenType;
use vstd::prelude::*;

verus! {

// ---------------------------------------------------------------------------
// Character classes
// ---------------------------------------------------------------------------

/// An ASCII decimal digit.
pub open spec fn digit(c: char) -> bool {
    '0' <= c && c <= '9'
}

/// An ASCII letter or an underscore.
pub open spec fn alpha(c: char) -> bool {
    ('a' <= c && c <= 'z') || ('A' <= c && c <= 'Z') || c == '_'
}

/// A character that may continue an identifier.
pub open spec fn alpha_numeric(c: char) -> bool {
    alpha(c) || digit(c)
}

/// Whitespace that does not end a line: space, carriage return, tab.
pub open spec fn blank(c: char) -> bool {
    c == ' ' || c == '\r' || c == '\t'
}

/// The classes of characters of which the grammar takes maximal runs.
pub enum CharClass {
    /// Decimal digits.
    Digit,
    /// Letters, digits and underscores.
    Word,
    /// Anything but a newline: the body of a comment.
    CommentBody,
    /// Anything but a double quote: the body of a string literal.
    StringBody,
}

impl CharClass {
    /// Whether `c` belongs to the class.
    pub open spec fn admits(self, c: char) -> bool {
        match self {
            CharClass::Digit => digit(c),
            CharClass::Word => alpha_numeric(c),
            CharClass::CommentBody => c != '\n',
            CharClass::StringBody => c != '"',
        }
    }
}

// ---------------------------------------------------------------------------
// Runs and lines
// ---------------------------------------------------------------------------

/// Whether the character `c` stands at position `at` of `s`.
pub open spec fn follows(s: Seq<char>, at: int, c: char) -> bool {
    0 <= at < s.len() && s[at] == c
}

/// Whether a comment begins at position `pos` of `s`.
pub open spec fn comment_at(s: Seq<char>, pos: int) -> bool {
    follows(s, pos, '/') && follows(s, pos + 1, '/')
}

/// The end of the maximal run of characters of `class` that starts at `from`:
/// the first position at or after `from` that holds a character outside the
/// class, or the length of `s` if there is none.
pub open spec fn run_end(s: Seq<char>, from: int, class: CharClass) -> int
    decreases s.len() - from,
{
    if 0 <= from < s.len() && class.admits(s[from]) {
        run_end(s, from + 1, class)
    } else {
        from
    }
}

/// The number of newline characters among the first `pos` characters of `s`.
pub open spec fn newlines_before(s: Seq<char>, pos: int) -> nat
    decreases pos,
{
    if pos <= 0 {
        0
    } else {
        newlines_before(s, pos - 1) + if follows(s, pos - 1, '\n') {
            1nat
        } else {
            0nat
        }
    }
}

/// The line, counted from 1, on which position `pos` of `s` lies.
pub open spec fn line_at(s: Seq<char>, pos: int) -> nat {
    1 + newlines_before(s, pos)
}

// ---------------------------------------------------------------------------
// Token kinds
// ---------------------------------------------------------------------------

/// The kind of a punctuation character that is a token by itself whatever
/// follows it.
pub open spec fn punctuation(c: char) -> Option<TokenType> {
    if c == '(' {
        Some(TokenType::LeftParen)
    } else if c == ')' {
        Some(TokenType::RightParen)
    } else if c == '{' {
        Some(TokenType::LeftBrace)
    } else if c == '}' {
        Some(TokenType::RightBrace)
    } else if c == ',' {
        Some(TokenType::Comma)
    } else if c == '.' {
        Some(TokenType::Dot)
    } else if c == '-' {
        Some(TokenType::Minus)
    } else if c == '+' {
        Some(TokenType::Plus)
    } else if c == ';' {
        Some(TokenType::Semicolon)
    } else if c == '*' {
        Some(TokenType::Star)
    } else {
        None
    }
}

/// For a character that begins an operator of one or two characters, the kind
/// of the operator when the character stands alone and its kind when an equal
/// sign follows.
pub open spec fn operator(c: char) -> Option<(TokenType, TokenType)> {
    if c == '!' {
        Some((TokenType::Bang, TokenType::BangEqual))
    } else if c == '=' {
        Some((TokenType::Equal, TokenType::EqualEqual))
    } else if c == '<' {
        Some((TokenType::Less, TokenType::LessEqual))
    } else if c == '>' {
        Some((TokenType::Greater, TokenType::GreaterEqual))
    } else {
        None
    }
}

/// The keyword that `text` spells, if it spells one. The match is exact and
/// case-sensitive.
pub open spec fn keyword(text: Seq<char>) -> Option<TokenType> {
    if text == "and"@ {
        Some(TokenType::And)
    } else if text == "class"@ {
        Some(TokenType::Class)
    } else if text == "else"@ {
        Some(TokenType::Else)
    } else if text == "false"@ {
        Some(TokenType::False)
    } else if text == "for"@ {
        Some(TokenType::For)
    } else if text == "fun"@ {
        Some(TokenType::Fun)
    } else if text == "if"@ {
        Some(TokenType::If)
    } else if text == "nil"@ {
        Some(TokenType::Nil)
    } else if text == "or"@ {
        Some(TokenType::Or)
    } else if text == "print"@ {
        Some(TokenType::Print)
    } else if text == "return"@ {
        Some(TokenType::Return)
    } else if text == "super"@ {
        Some(TokenType::Super)
    } else if text == "this"@ {
        Some(TokenType::This)
    } else if text == "true"@ {
        Some(TokenType::True)
    } else if text == "var"@ {
        Some(TokenType::Var)
    } else if text == "while"@ {
        Some(TokenType::While)
    } else {
        None
    }
}

/// The kind of the token whose lexeme is the word `text`: the keyword it
/// spells, or an identifier.
pub open spec fn word_kind(text: Seq<char>) -> TokenType {
    match keyword(text) {
        Some(kind) => kind,
        None => TokenType::Identifier,
    }
}

// ---------------------------------------------------------------------------
// Faults
// ---------------------------------------------------------------------------

/// A lexical fault: the line on which it was detected and what went wrong.
pub struct LexFault {
    pub line: nat,
    pub message: Seq<char>,
}

/// The message for a string literal that the source ends inside of.
pub open spec fn unterminated_string() -> Seq<char> {
    "Unterminated string."@
}

/// The message for a character that begins no lexeme.
pub open spec fn unexpected_character() -> Seq<char> {
    "Unexpected character."@
}

// ---------------------------------------------------------------------------
// One lexeme
// ---------------------------------------------------------------------------

/// What begins at a position of the source.
pub enum Step {
    /// A token of kind `kind`, which ends before position `end`.
    Token { kind: TokenType, end: int },
    /// Whitespace or a comment, which ends before position `end`.
    Trivia { end: int },
    /// Nothing the grammar knows: the scan halts with `fault`, its cursor at
    /// `stop`.
    Fault { fault: LexFault, stop: int },
}

/// The end of the number literal that starts at `pos`: after the digits at
/// `pos`, and after a dot and the digits behind it where the dot is followed
/// by at least one digit.
pub open spec fn number_end(s: Seq<char>, pos: int) -> int {
    let whole = run_end(s, pos, CharClass::Digit);
    if follows(s, whole, '.') && 0 <= whole + 1 < s.len() && digit(s[whole + 1]) {
        run_end(s, whole + 1, CharClass::Digit)
    } else {
        whole
    }
}

/// The lexeme that begins at position `pos` of `s`.
pub open spec fn step_at(s: Seq<char>, pos: int) -> Step
    recommends
        0 <= pos < s.len(),
{
    let c = s[pos];
    if let Some(kind) = punctuation(c) {
        Step::Token { kind, end: pos + 1 }
    } else if let Some((alone, with_equal)) = operator(c) {
        if follows(s, pos + 1, '=') {
            Step::Token { kind: with_equal, end: pos + 2 }
        } else {
            Step::Token { kind: alone, end: pos + 1 }
        }
    } else if c == '/' {
        if follows(s, pos + 1, '/') {
            Step::Trivia { end: run_end(s, pos + 2, CharClass::CommentBody) }
        } else {
            Step::Token { kind: TokenType::Slash, end: pos + 1 }
        }
    } else if blank(c) || c == '\n' {
        Step::Trivia { end: pos + 1 }
    } else if c == '"' {
        let close = run_end(s, pos + 1, CharClass::StringBody);
        if close < s.len() {
            Step::Token { kind: TokenType::String, end: close + 1 }
        } else {
            Step::Fault {
                fault: LexFault {
                    line: line_at(s, s.len() as int),
                    message: unterminated_string(),
                },
                stop: s.len() as int,
            }
        }
    } else if digit(c) {
        Step::Token { kind: TokenType::Number, end: number_end(s, pos) }
    } else if alpha(c) {
        let end = run_end(s, pos + 1, CharClass::Word);
        Step::Token { kind: word_kind(s.subrange(pos, end)), end }
    } else {
        Step::Fault {
            fault: LexFault { line: line_at(s, pos), message: unexpected_character() },
            stop: pos + 1,
        }
    }
}

/// The position just behind the lexeme that begins at `pos`.
pub open spec fn step_end(s: Seq<char>, pos: int) -> int {
    match step_at(s, pos) {
        Step::Token { end, .. } => end,
        Step::Trivia { end } => end,
        Step::Fault { stop, .. } => stop,
    }
}

/// Whether the stretch of `s` from `from` up to `to` holds whitespace and
/// comments only: blanks, newlines, and comments that run from two slashes
/// to the end of their line.
pub open spec fn trivia_between(s: Seq<char>, from: int, to: int) -> bool
    decreases to - from,
    via trivia_between_terminates
{
    if from >= to {
        from == to
    } else if blank(s[from]) || s[from] == '\n' {
        trivia_between(s, from + 1, to)
    } else if comment_at(s, from) {
        let end = run_end(s, from + 2, CharClass::CommentBody);
        end <= to && trivia_between(s, end, to)
    } else {
        false
    }
}

#[via_fn]
proof fn trivia_between_terminates(s: Seq<char>, from: int, to: int) {
    if follows(s, from + 1, '/') {
        lemma_run_end(s, from + 2, CharClass::CommentBody);
    }
}

/// Whether `s` holds whitespace and comments only.
pub open spec fn only_trivia(s: Seq<char>) -> bool {
    trivia_between(s, 0, s.len() as int)
}

// ---------------------------------------------------------------------------
// A whole scan
// ---------------------------------------------------------------------------

/// The extent of a token in the source: its kind and the positions of its
/// first character and just behind its last.
pub struct Span {
    pub kind: TokenType,
    pub start: int,
    pub end: int,
}

/// How a scan ends.
pub struct Outcome {
    /// The tokens met before the scan halted, in order.
    pub spans: Seq<Span>,
    /// Where the last lexeme that the scan looked at begins: the faulty one,
    /// or the end of the source.
    pub start: int,
    /// Where the cursor stands when the scan halts.
    pub stop: int,
    /// The fault that halted the scan, if one did.
    pub fault: Option<LexFault>,
}

/// The outcome of scanning `s` from position `pos` on, lexeme by lexeme, up to
/// the first fault or the end of `s`.
pub open spec fn outcome_from(s: Seq<char>, pos: int) -> Outcome
    decreases s.len() - pos,
    via outcome_from_terminates
{
    if pos < 0 || pos >= s.len() {
        Outcome { spans: Seq::empty(), start: pos, stop: pos, fault: None }
    } else {
        match step_at(s, pos) {
            Step::Token { kind, end } => {
                let rest = outcome_from(s, end);
                Outcome { spans: seq![Span { kind, start: pos, end }] + rest.spans, ..rest }
            },
            Step::Trivia { end } => outcome_from(s, end),
            Step::Fault { fault, stop } => Outcome {
                spans: Seq::empty(),
                start: pos,
                stop,
                fault: Some(fault),
            },
        }
    }
}

#[via_fn]
proof fn outcome_from_terminates(s: Seq<char>, pos: int) {
    if 0 <= pos < s.len() {
        lemma_step_advances(s, pos);
    }
}

/// The literal value of a token of kind `kind` with lexeme `lexeme`.
pub open spec fn literal_of(kind: TokenType, lexeme: Seq<char>) -> LiteralView {
    match kind {
        TokenType::String => LiteralView::String(lexeme.subrange(1, lexeme.len() - 1)),
        TokenType::Number => LiteralView::Number(lexeme),
        _ => LiteralView::Absent,
    }
}

/// The token that the source `s` holds at `span`.
pub open spec fn token_of(s: Seq<char>, span: Span) -> TokenView {
    let lexeme = s.subrange(span.start, span.end);
    TokenView {
        token_type: span.kind,
        lexeme,
        literal: literal_of(span.kind, lexeme),
        line: line_at(s, span.start),
    }
}

/// The tokens that the source `s` holds at `spans`, in order.
pub open spec fn tokens_at(s: Seq<char>, spans: Seq<Span>) -> Seq<TokenView> {
    Seq::new(spans.len(), |i: int| token_of(s, spans[i]))
}

/// The token that marks the end of the source `s`.
pub open spec fn end_marker(s: Seq<char>) -> TokenView {
    TokenView {
        token_type: TokenType::EndOfInput,
        lexeme: Seq::empty(),
        literal: LiteralView::Absent,
        line: line_at(s, s.len() as int),
    }
}

/// What a scan of the whole source `s` returns: its tokens followed by the
/// end marker, or the first fault.
pub open spec fn tokens_of(s: Seq<char>) -> Result<Seq<TokenView>, LexFault> {
    let outcome = outcome_from(s, 0);
    match outcome.fault {
        Some(fault) => Err(fault),
        None => Ok(tokens_at(s, outcome.spans).push(end_marker(s))),
    }
}

// ---------------------------------------------------------------------------
// Facts about runs, lines and steps
// ---------------------------------------------------------------------------

/// A run ends at or after its start and within the source, every character
/// of it belongs to the class, and the character behind it, if there is one,
/// does not.
pub proof fn lemma_run_end(s: Seq<char>, from: int, class: CharClass)
    requires
        0 <= from <= s.len(),
    ensures
        from <= run_end(s, from, class) <= s.len(),
        forall|i: int| from <= i < run_end(s, from, class) ==> class.admits(#[trigger] s[i]),
        run_end(s, from, class) < s.len() ==> !class.admits(s[run_end(s, from, class)]),
    decreases s.len() - from,
{
    if from < s.len() && class.admits(s[from]) {
        lemma_run_end(s, from + 1, class);
    }
}

/// A run is determined by what [`lemma_run_end`] states of it.
pub proof fn lemma_run_end_unique(s: Seq<char>, from: int, class: CharClass, end: int)
    requires
        0 <= from <= end <= s.len(),
        forall|i: int| from <= i < end ==> class.admits(#[trigger] s[i]),
        end < s.len() ==> !class.admits(s[end]),
    ensures
        run_end(s, from, class) == end,
    decreases end - from,
{
    if from < end {
        assert(class.admits(s[from]));
        lemma_run_end_unique(s, from + 1, class, end);
    }
}

/// The line count does not decrease along the source, and grows by at most
/// one for each character.
pub proof fn lemma_line_monotonic(s: Seq<char>, from: int, to: int)
    requires
        from <= to,
    ensures
        line_at(s, from) <= line_at(s, to),
        line_at(s, to) <= line_at(s, from) + (to - from),
    decreases to - from,
{
    if from < to {
        lemma_line_monotonic(s, from, to - 1);
    }
}

/// Over a stretch without newlines the line stays the same.
pub proof fn lemma_line_constant(s: Seq<char>, from: int, to: int)
    requires
        0 <= from <= to <= s.len(),
        forall|i: int| from <= i < to ==> #[trigger] s[i] != '\n',
    ensures
        line_at(s, to) == line_at(s, from),
    decreases to - from,
{
    if from < to {
        lemma_line_constant(s, from, to - 1);
    }
}

/// Every lexeme holds at least one character and ends within the source.
pub proof fn lemma_step_advances(s: Seq<char>, pos: int)
    requires
        0 <= pos < s.len(),
    ensures
        pos < step_end(s, pos) <= s.len(),
{
    lemma_run_end(s, pos, CharClass::Digit);
    lemma_run_end(s, pos + 1, CharClass::StringBody);
    lemma_run_end(s, pos + 1, CharClass::Word);
    if pos + 2 <= s.len() {
        lemma_run_end(s, pos + 2, CharClass::CommentBody);
    }
    let whole = run_end(s, pos, CharClass::Digit);
    if whole + 1 <= s.len() {
        lemma_run_end(s, whole + 1, CharClass::Digit);
    }
}

} // verus!
