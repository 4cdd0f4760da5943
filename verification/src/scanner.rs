//! The scanner: from source text to tokens.

use crate::grammar::{
    alpha, alpha_numeric, digit, end_marker, follows, keyword, lemma_line_constant,
    lemma_line_monotonic, lemma_run_end, lemma_run_end_unique, lemma_step_advances, line_at,
    newlines_before, number_end, outcome_from, run_end, step_at, token_of, tokens_at, tokens_of,
    unterminated_string, word_kind, CharClass, LexFault, Outcome, Span, Step,
};
use crate::laws::lemma_outcome_spans;
use crate::lox::LoxError;
use crate::token::{lemma_token_views_push, token_views, Literal, Token, TokenView};
use crate::token_type::TokenType;
use vstd::prelude::*;
use vstd::string::StrSliceExecFns;

verus! {

/// Whether `c` is an ASCII decimal digit.
pub fn is_digit(c: char) -> (yes: bool)
    ensures
        yes == digit(c),
{
    c >= '0' && c <= '9'
}

/// Whether `c` is an ASCII letter or an underscore.
pub fn is_alpha(c: char) -> (yes: bool)
    ensures
        yes == alpha(c),
{
    (c >= 'a' && c <= 'z') || (c >= 'A' && c <= 'Z') || c == '_'
}

/// Whether `c` is an ASCII letter, an ASCII digit or an underscore.
pub fn is_alpha_numeric(c: char) -> (yes: bool)
    ensures
        yes == alpha_numeric(c),
{
    is_alpha(c) || is_digit(c)
}

/// Whether two pieces of text hold the same characters.
fn same_text(a: &str, b: &str) -> (same: bool)
    ensures
        same == (a@ == b@),
{
    let n = a.unicode_len();
    if n != b.unicode_len() {
        return false;
    }
    let mut i: usize = 0;
    while i < n
        invariant
            n == a@.len(),
            n == b@.len(),
            i <= n,
            forall|j: int| 0 <= j < i ==> a@[j] == b@[j],
        decreases n - i,
    {
        if a.get_char(i) != b.get_char(i) {
            return false;
        }
        i += 1;
    }
    assert(a@ =~= b@);
    true
}

/// The kind of the keyword that `word` spells, if it spells one.
pub fn get_keyword(word: &str) -> (found: Option<TokenType>)
    ensures
        found == keyword(word@),
{
    if same_text(word, "and") {
        Some(TokenType::And)
    } else if same_text(word, "class") {
        Some(TokenType::Class)
    } else if same_text(word, "else") {
        Some(TokenType::Else)
    } else if same_text(word, "false") {
        Some(TokenType::False)
    } else if same_text(word, "for") {
        Some(TokenType::For)
    } else if same_text(word, "fun") {
        Some(TokenType::Fun)
    } else if same_text(word, "if") {
        Some(TokenType::If)
    } else if same_text(word, "nil") {
        Some(TokenType::Nil)
    } else if same_text(word, "or") {
        Some(TokenType::Or)
    } else if same_text(word, "print") {
        Some(TokenType::Print)
    } else if same_text(word, "return") {
        Some(TokenType::Return)
    } else if same_text(word, "super") {
        Some(TokenType::Super)
    } else if same_text(word, "this") {
        Some(TokenType::This)
    } else if same_text(word, "true") {
        Some(TokenType::True)
    } else if same_text(word, "var") {
        Some(TokenType::Var)
    } else if same_text(word, "while") {
        Some(TokenType::While)
    } else {
        None
    }
}

/// The state of a scan, as mathematical values.
pub struct ScannerState {
    /// The source text.
    pub source: Seq<char>,
    /// The tokens emitted so far.
    pub tokens: Seq<TokenView>,
    /// Where the lexeme that is being scanned begins.
    pub start: int,
    /// The next character to read.
    pub current: int,
    /// The line on which `current` lies.
    pub line: nat,
}

/// A scanner over one source text.
pub struct Scanner {
    source: String,
    chars: Vec<char>,
    tokens: Vec<Token>,
    start: usize,
    current: usize,
    line: u32,
}

impl View for Scanner {
    type V = ScannerState;

    closed spec fn view(&self) -> ScannerState {
        ScannerState {
            source: self.source@,
            tokens: token_views(self.tokens@),
            start: self.start as int,
            current: self.current as int,
            line: self.line as nat,
        }
    }
}

impl Scanner {
    /// The cursors lie in the source, in order.
    spec fn coherent(&self) -> bool {
        &&& self.chars@ == self.source@
        &&& self.start <= self.current <= self.chars@.len() <= usize::MAX
    }

    /// The scanner stands between two lexemes: its cursors lie in the
    /// source, in order, and its line is that of the next character.
    pub closed spec fn wf(&self) -> bool {
        &&& self.coherent()
        &&& self.line == line_at(self.source@, self.current as int)
    }

    /// What [`Scanner::wf`] says of the scanner's state.
    pub proof fn lemma_wf(&self)
        requires
            self.wf(),
        ensures
            0 <= self@.start <= self@.current <= self@.source.len(),
            self@.line == line_at(self@.source, self@.current),
    {
    }

    /// A scanner at the beginning of `source`.
    pub fn new(source: &String) -> (scanner: Scanner)
        ensures
            scanner.wf(),
            scanner@ == (ScannerState {
                source: source@,
                tokens: Seq::empty(),
                start: 0,
                current: 0,
                line: 1,
            }),
    {
        let mut chars: Vec<char> = Vec::new();
        for c in it: source.as_str().chars()
            invariant
                it.seq() == source@,
                chars@ == it.seq().take(it.index()),
        {
            chars.push(c);
        }
        assert(chars@ =~= source@);
        assert(chars@.len() == chars.len());
        let scanner = Scanner {
            source: source.clone(),
            chars,
            tokens: Vec::new(),
            start: 0,
            current: 0,
            line: 1,
        };
        assert(scanner@.tokens =~= Seq::empty());
        scanner
    }

    /// Scans from the cursor to the end of the source, and hands out all
    /// the tokens emitted, followed by the end marker. At the first fault
    /// the scan halts and returns the error; the tokens stay with the
    /// scanner.
    pub fn scan_tokens(&mut self) -> (result: Result<Vec<Token>, LoxError>)
        requires
            old(self).wf(),
            line_at(old(self)@.source, old(self)@.source.len() as int) <= u32::MAX,
        ensures
            final(self).wf(),
            final(self)@.start <= final(self)@.current <= final(self)@.source.len(),
            old(self)@.line <= final(self)@.line,
            ({
                let before = old(self)@;
                let outcome = outcome_from(before.source, before.current);
                let emitted = before.tokens + tokens_at(before.source, outcome.spans);
                match result {
                    Ok(tokens) => {
                        &&& outcome.fault is None
                        &&& token_views(tokens@) == emitted.push(end_marker(before.source))
                        &&& final(self)@ == (ScannerState {
                            tokens: Seq::empty(),
                            start: outcome.start,
                            current: outcome.stop,
                            line: line_at(before.source, outcome.stop),
                            ..before
                        })
                    },
                    Err(error) => {
                        &&& outcome.fault == Some(error@)
                        &&& final(self)@ == (ScannerState {
                            tokens: emitted,
                            start: outcome.start,
                            current: outcome.stop,
                            line: line_at(before.source, outcome.stop),
                            ..before
                        })
                    },
                }
            }),
    {
        let ghost before = self@;
        let ghost whole = outcome_from(before.source, before.current);
        let ghost done: Seq<Span> = Seq::empty();
        proof {
            lemma_outcome_spans(before.source, before.current);
            lemma_line_monotonic(before.source, before.current, whole.stop);
        }
        assert(before.tokens + tokens_at(before.source, done) =~= before.tokens);
        while !self.is_at_end()
            invariant
                self.wf(),
                before == old(self)@,
                whole == outcome_from(before.source, before.current),
                whole.start <= whole.stop <= before.source.len(),
                before.line <= line_at(before.source, whole.stop),
                line_at(before.source, before.source.len() as int) <= u32::MAX,
                self@.source == before.source,
                self@.tokens == before.tokens + tokens_at(before.source, done),
                whole == (Outcome {
                    spans: done + outcome_from(before.source, self@.current).spans,
                    ..outcome_from(before.source, self@.current)
                }),
            decreases self.source@.len() - self.current,
        {
            // We are at the beginning of the next lexeme.
            self.start = self.current;
            let ghost pos = self.current as int;
            let ghost step = step_at(before.source, pos);
            proof {
                lemma_step_advances(before.source, pos);
            }
            match self.scan_token() {
                Ok(()) => {},
                Err(error) => {
                    proof {
                        assert(done + Seq::<Span>::empty() =~= done);
                    }
                    return Err(error);
                },
            }
            proof {
                let rest = outcome_from(before.source, self@.current);
                match step {
                    Step::Token { kind, end } => {
                        let span = Span { kind, start: pos, end };
                        assert(done + (seq![span] + rest.spans) =~= done.push(span) + rest.spans);
                        assert(tokens_at(before.source, done.push(span)) =~= tokens_at(
                            before.source,
                            done,
                        ).push(token_of(before.source, span)));
                        assert((before.tokens + tokens_at(before.source, done)).push(
                            token_of(before.source, span),
                        ) =~= before.tokens + tokens_at(before.source, done.push(span)));
                        done = done.push(span);
                    },
                    _ => {},
                }
            }
        }
        proof {
            assert(done + Seq::<Span>::empty() =~= done);
        }
        self.start = self.current;
        self.add_token(TokenType::EndOfInput);

        let mut tokens: Vec<Token> = Vec::new();
        core::mem::swap(&mut self.tokens, &mut tokens);
        assert(self@.tokens =~= Seq::empty());
        assert(before.source.subrange(self@.current, self@.current) =~= Seq::empty());
        Ok(tokens)
    }

    /// Whether the cursor has reached the end of the source.
    fn is_at_end(&self) -> (at_end: bool)
        ensures
            at_end == (self.current >= self.chars@.len()),
    {
        self.current >= self.chars.len()
    }

    /// Consumes the next character.
    fn advance(&mut self) -> (c: char)
        requires
            old(self).coherent(),
            old(self).current < old(self).chars@.len(),
        ensures
            c == old(self).source@[old(self).current as int],
            *final(self) == (Scanner { current: (old(self).current + 1) as usize, ..*old(self) }),
            final(self).coherent(),
    {
        let c = self.chars[self.current];
        self.current += 1;
        c
    }

    /// Consumes the next character if it is `expected`.
    fn match_next(&mut self, expected: char) -> (matched: bool)
        requires
            old(self).coherent(),
        ensures
            matched == follows(old(self).source@, old(self).current as int, expected),
            *final(self) == (Scanner {
                current: if matched {
                    (old(self).current + 1) as usize
                } else {
                    old(self).current
                },
                ..*old(self)
            }),
            final(self).coherent(),
    {
        if self.is_at_end() {
            return false;
        }
        if self.chars[self.current] != expected {
            return false;
        }
        self.current += 1;
        true
    }

    /// The next character, or NUL at the end of the source.
    fn peek(&self) -> (c: char)
        requires
            self.coherent(),
        ensures
            c == if self.current < self.source@.len() {
                self.source@[self.current as int]
            } else {
                '\0'
            },
    {
        if self.is_at_end() {
            return '\0';
        }
        self.chars[self.current]
    }

    /// The character after the next, or NUL where the source ends before it.
    fn peek_next(&self) -> (c: char)
        requires
            self.coherent(),
        ensures
            c == if self.current + 1 < self.source@.len() {
                self.source@[self.current + 1]
            } else {
                '\0'
            },
    {
        if self.is_at_end() || self.current + 1 >= self.chars.len() {
            return '\0';
        }
        self.chars[self.current + 1]
    }

    /// Emits a token without a literal value for the lexeme between the
    /// cursors.
    fn add_token(&mut self, token_type: TokenType)
        requires
            old(self).coherent(),
        ensures
            final(self).coherent(),
            final(self)@ == (ScannerState {
                tokens: old(self)@.tokens.push(
                    TokenView {
                        token_type,
                        lexeme: old(self)@.source.subrange(old(self)@.start, old(self)@.current),
                        literal: Literal::Absent@,
                        line: old(self)@.line,
                    },
                ),
                ..old(self)@
            }),
    {
        let line = self.line;
        self.add_token_literal(token_type, Literal::Absent, line);
    }

    /// Emits a token for the lexeme between the cursors, with the literal
    /// value and the line given.
    fn add_token_literal(&mut self, token_type: TokenType, literal: Literal, line: u32)
        requires
            old(self).coherent(),
        ensures
            final(self).coherent(),
            final(self)@ == (ScannerState {
                tokens: old(self)@.tokens.push(
                    TokenView {
                        token_type,
                        lexeme: old(self)@.source.subrange(old(self)@.start, old(self)@.current),
                        literal: literal@,
                        line: line as nat,
                    },
                ),
                ..old(self)@
            }),
    {
        let text = self.source.as_str().substring_char(self.start, self.current);
        let token = Token { token_type, lexeme: text.to_owned(), literal, line };
        proof {
            lemma_token_views_push(self.tokens@, token);
        }
        self.tokens.push(token);
    }
    /// Scans the rest of an identifier or keyword whose first character has
    /// been consumed, and emits its token.
    fn identifier(&mut self)
        requires
            old(self).coherent(),
            old(self).current == old(self).start + 1,
            old(self).line == line_at(old(self).source@, old(self).start as int),
        ensures
            final(self).coherent(),
            ({
                let before = old(self)@;
                let end = run_end(before.source, before.current, CharClass::Word);
                let kind = word_kind(before.source.subrange(before.start, end));
                final(self)@ == (ScannerState {
                    tokens: before.tokens.push(
                        token_of(before.source, Span { kind, start: before.start, end }),
                    ),
                    current: end,
                    ..before
                })
            }),
    {
        let ghost before = *self;
        let ghost from = self.current as int;
        while is_alpha_numeric(self.peek())
            invariant
                self.coherent(),
                *self == (Scanner { current: self.current, ..before }),
                from <= self.current,
                forall|i: int| from <= i < self.current ==> alpha_numeric(#[trigger] self.source@[i]),
            decreases self.source@.len() - self.current,
        {
            self.advance();
        }
        proof {
            lemma_run_end_unique(self.source@, from, CharClass::Word, self.current as int);
        }
        let text = self.source.as_str().substring_char(self.start, self.current);
        let token_type = get_keyword(text);
        match token_type {
            Some(t) => self.add_token(t),
            None => self.add_token(TokenType::Identifier),
        }
    }

    /// Scans the rest of a number literal whose first digit has been
    /// consumed, and emits its token.
    fn number(&mut self)
        requires
            old(self).coherent(),
            old(self).current == old(self).start + 1,
            digit(old(self).source@[old(self).start as int]),
            old(self).line == line_at(old(self).source@, old(self).start as int),
        ensures
            final(self).coherent(),
            ({
                let before = old(self)@;
                let end = number_end(before.source, before.start);
                final(self)@ == (ScannerState {
                    tokens: before.tokens.push(
                        token_of(
                            before.source,
                            Span { kind: TokenType::Number, start: before.start, end },
                        ),
                    ),
                    current: end,
                    ..before
                })
            }),
    {
        let ghost before = *self;
        let ghost from = self.start as int;
        while is_digit(self.peek())
            invariant
                self.coherent(),
                *self == (Scanner { current: self.current, ..before }),
                from < self.current,
                forall|i: int| from <= i < self.current ==> digit(#[trigger] self.source@[i]),
            decreases self.source@.len() - self.current,
        {
            self.advance();
        }
        let ghost whole = self.current as int;
        proof {
            lemma_run_end_unique(self.source@, from, CharClass::Digit, whole);
        }

        // Look for a fractional part.
        if self.peek() == '.' && is_digit(self.peek_next()) {
            // Consume the dot.
            self.advance();

            while is_digit(self.peek())
                invariant
                    self.coherent(),
                    *self == (Scanner { current: self.current, ..before }),
                    whole < self.current,
                    forall|i: int| whole + 1 <= i < self.current ==> digit(#[trigger] self.source@[i]),
                decreases self.source@.len() - self.current,
            {
                self.advance();
            }
            proof {
                lemma_run_end_unique(self.source@, whole + 1, CharClass::Digit, self.current as int);
            }
        }
        let numeral = self.source.as_str().substring_char(self.start, self.current).to_owned();
        let line = self.line;
        self.add_token_literal(TokenType::Number, Literal::Number(numeral), line);
    }

    /// Scans the rest of a string literal whose opening quote has been
    /// consumed, and emits its token. Where the source ends before the
    /// closing quote, the error names the line that the scan has reached.
    fn string(&mut self) -> (result: Result<(), LoxError>)
        requires
            old(self).coherent(),
            old(self).current == old(self).start + 1,
            old(self).line == line_at(old(self).source@, old(self).start as int),
            old(self).line == line_at(old(self).source@, old(self).current as int),
            line_at(old(self).source@, old(self).source@.len() as int) <= u32::MAX,
        ensures
            final(self).coherent(),
            ({
                let before = old(self)@;
                let close = run_end(before.source, before.current, CharClass::StringBody);
                if close < before.source.len() {
                    &&& result is Ok
                    &&& final(self)@ == (ScannerState {
                        tokens: before.tokens.push(
                            token_of(
                                before.source,
                                Span { kind: TokenType::String, start: before.start, end: close + 1 },
                            ),
                        ),
                        current: close + 1,
                        line: line_at(before.source, close + 1),
                        ..before
                    })
                } else {
                    &&& result matches Err(error)
                    &&& error@ == (LexFault {
                        line: line_at(before.source, before.source.len() as int),
                        message: unterminated_string(),
                    })
                    &&& final(self)@ == (ScannerState {
                        current: before.source.len() as int,
                        line: line_at(before.source, before.source.len() as int),
                        ..before
                    })
                }
            }),
    {
        let ghost before = *self;
        let ghost from = self.current as int;
        let first_line = self.line;
        while self.peek() != '"' && !self.is_at_end()
            invariant
                self.coherent(),
                *self == (Scanner { current: self.current, line: self.line, ..before }),
                from <= self.current,
                self.line == line_at(self.source@, self.current as int),
                line_at(self.source@, self.source@.len() as int) <= u32::MAX,
                forall|i: int| from <= i < self.current ==> #[trigger] self.source@[i] != '"',
            decreases self.source@.len() - self.current,
        {
            proof {
                lemma_line_monotonic(
                    self.source@,
                    self.current as int + 1,
                    self.source@.len() as int,
                );
            }
            if self.peek() == '\n' {
                self.line += 1;
            }
            self.advance();
        }
        proof {
            lemma_run_end_unique(self.source@, from, CharClass::StringBody, self.current as int);
        }

        if self.is_at_end() {
            return Err(LoxError { line: self.line, message: "Unterminated string.".to_owned() });
        }
        // The closing quote.

        self.advance();

        let value = self.source.as_str().substring_char(self.start + 1, self.current - 1).to_owned();
        proof {
            let lexeme = self.source@.subrange(self.start as int, self.current as int);
            assert(lexeme.subrange(1, lexeme.len() - 1) =~= value@);
        }
        self.add_token_literal(TokenType::String, Literal::String(value), first_line);
        Ok(())
    }
    /// Scans the lexeme that begins at the cursor: emits its token, skips
    /// it where it is whitespace or a comment, or fails where no lexeme
    /// begins with the character found.
    fn scan_token(&mut self) -> (result: Result<(), LoxError>)
        requires
            old(self).wf(),
            old(self).start == old(self).current,
            old(self).current < old(self).source@.len(),
            line_at(old(self).source@, old(self).source@.len() as int) <= u32::MAX,
        ensures
            final(self).wf(),
            ({
                let before = old(self)@;
                match step_at(before.source, before.current) {
                    Step::Token { kind, end } => {
                        &&& result is Ok
                        &&& final(self)@ == (ScannerState {
                            tokens: before.tokens.push(
                                token_of(before.source, Span { kind, start: before.current, end }),
                            ),
                            current: end,
                            line: line_at(before.source, end),
                            ..before
                        })
                    },
                    Step::Trivia { end } => {
                        &&& result is Ok
                        &&& final(self)@ == (ScannerState {
                            current: end,
                            line: line_at(before.source, end),
                            ..before
                        })
                    },
                    Step::Fault { fault, stop } => {
                        &&& result matches Err(error)
                        &&& error@ == fault
                        &&& final(self)@ == (ScannerState {
                            current: stop,
                            line: line_at(before.source, stop),
                            ..before
                        })
                    },
                }
            }),
    {
        let ghost source = self.source@;
        let ghost pos = self.current as int;
        proof {
            lemma_step_advances(source, pos);
            lemma_line_monotonic(source, pos + 1, source.len() as int);
        }
        let c: char = self.advance();

        match c {
            '(' => self.add_token(TokenType::LeftParen),
            ')' => self.add_token(TokenType::RightParen),
            '{' => self.add_token(TokenType::LeftBrace),
            '}' => self.add_token(TokenType::RightBrace),
            ',' => self.add_token(TokenType::Comma),
            '.' => self.add_token(TokenType::Dot),
            '-' => self.add_token(TokenType::Minus),
            '+' => self.add_token(TokenType::Plus),
            ';' => self.add_token(TokenType::Semicolon),
            '*' => self.add_token(TokenType::Star),
            '!' => {
                let next_char = self.match_next('=');
                self.add_token(
                    if next_char {
                        TokenType::BangEqual
                    } else {
                        TokenType::Bang
                    },
                );
            },
            '=' => {
                let next_char = self.match_next('=');
                self.add_token(
                    if next_char {
                        TokenType::EqualEqual
                    } else {
                        TokenType::Equal
                    },
                );
            },
            '<' => {
                let next_char = self.match_next('=');
                self.add_token(
                    if next_char {
                        TokenType::LessEqual
                    } else {
                        TokenType::Less
                    },
                );
            },
            '>' => {
                let next_char = self.match_next('=');
                self.add_token(
                    if next_char {
                        TokenType::GreaterEqual
                    } else {
                        TokenType::Greater
                    },
                );
            },
            '/' => {
                let comment = self.match_next('/');
                if comment {
                    // A comment goes until the end of the line.
                    let ghost opened = *self;
                    while self.peek() != '\n' && !self.is_at_end()
                        invariant
                            self.coherent(),
                            *self == (Scanner { current: self.current, ..opened }),
                            pos + 2 <= self.current,
                            forall|i: int|
                                pos + 2 <= i < self.current ==> #[trigger] self.source@[i] != '\n',
                        decreases self.source@.len() - self.current,
                    {
                        self.advance();
                    }
                    proof {
                        lemma_run_end_unique(
                            source,
                            pos + 2,
                            CharClass::CommentBody,
                            self.current as int,
                        );
                    }
                } else {
                    self.add_token(TokenType::Slash);
                }
            },
            ' ' | '\r' | '\t' => (),
            '\n' => self.line += 1,
            '"' => {
                match self.string() {
                    Ok(()) => {},
                    Err(error) => {
                        return Err(error);
                    },
                }
            },
            ch => {
                if is_digit(ch) {
                    self.number();
                } else if is_alpha(ch) {
                    self.identifier()
                } else {
                    return Err(
                        LoxError { line: self.line, message: "Unexpected character.".to_owned() },
                    );
                }
            },
        }
        proof {
            let end = self.current as int;
            if c != '\n' && c != '"' {
                assert forall|i: int| pos <= i < end implies #[trigger] source[i] != '\n' by {
                    lemma_run_end(source, pos + 1, CharClass::Word);
                    lemma_run_end(source, pos, CharClass::Digit);
                    let whole = run_end(source, pos, CharClass::Digit);
                    if whole + 1 <= source.len() {
                        lemma_run_end(source, whole + 1, CharClass::Digit);
                    }
                }
                lemma_line_constant(source, pos, end);
            }
        }
        Ok(())
    }
}

/// Whether the lines of `source` can be counted in 32 bits, as a scan
/// demands.
pub fn lines_fit(source: &String) -> (fit: bool)
    ensures
        fit == (line_at(source@, source@.len() as int) <= u32::MAX),
{
    let mut newlines: u32 = 0;
    for c in it: source.as_str().chars()
        invariant
            it.seq() == source@,
            newlines == newlines_before(source@, it.index() as int),
            newlines < u32::MAX,
    {
        if c == '\n' {
            if newlines == u32::MAX - 1 {
                proof {
                    lemma_line_monotonic(source@, it.index() + 1, source@.len() as int);
                }
                return false;
            }
            newlines += 1;
        }
    }
    true
}

/// What a scan returns, as mathematical values.
pub open spec fn result_view(result: Result<Vec<Token>, LoxError>) -> Result<
    Seq<TokenView>,
    LexFault,
> {
    match result {
        Ok(tokens) => Ok(token_views(tokens@)),
        Err(error) => Err(error@),
    }
}

/// Scans `source` from beginning to end: its tokens in order, followed by
/// the end marker, or the first lexical error.
pub fn scan(source: &String) -> (result: Result<Vec<Token>, LoxError>)
    requires
        line_at(source@, source@.len() as int) <= u32::MAX,
    ensures
        result_view(result) == tokens_of(source@),
{
    let mut scanner = Scanner::new(source);
    let result = scanner.scan_tokens();
    proof {
        let outcome = outcome_from(source@, 0);
        assert(Seq::<TokenView>::empty() + tokens_at(source@, outcome.spans) =~= tokens_at(
            source@,
            outcome.spans,
        ));
    }
    result
}

} // verus!
