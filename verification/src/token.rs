//! Tokens and the literal values they carry.

use crate::token_type::TokenType;
use vstd::prelude::*;

verus! {

/// The value that a token carries besides its lexeme.
#[derive(Debug)]
pub enum Literal {
    /// The text strictly between the quotes of a string literal. Escape
    /// sequences are not processed.
    String(String),
    /// The decimal numeral of a number literal: a run of digits, optionally
    /// followed by a dot and a second run of digits. The number it denotes is
    /// obtained by reading the numeral in base ten.
    Number(String),
    /// No value: punctuation, operators, identifiers, keywords and the end
    /// marker.
    Absent,
}

/// The mathematical value of a [`Literal`].
pub enum LiteralView {
    String(Seq<char>),
    Number(Seq<char>),
    Absent,
}

impl View for Literal {
    type V = LiteralView;

    open spec fn view(&self) -> LiteralView {
        match self {
            Literal::String(text) => LiteralView::String(text@),
            Literal::Number(numeral) => LiteralView::Number(numeral@),
            Literal::Absent => LiteralView::Absent,
        }
    }
}

impl Clone for Literal {
    fn clone(&self) -> (copy: Literal)
        ensures
            copy@ == self@,
    {
        match self {
            Literal::String(text) => Literal::String(text.clone()),
            Literal::Number(numeral) => Literal::Number(numeral.clone()),
            Literal::Absent => Literal::Absent,
        }
    }
}

/// One token of the source text.
#[derive(Debug)]
pub struct Token {
    /// What kind of token this is.
    pub token_type: TokenType,
    /// The exact piece of the source text that produced the token.
    pub lexeme: String,
    /// The value of a literal token.
    pub literal: Literal,
    /// The line, counted from 1, on which the token's first character stands.
    pub line: u32,
}

impl Clone for Token {
    fn clone(&self) -> (copy: Token)
        ensures
            copy@ == self@,
    {
        Token {
            token_type: self.token_type,
            lexeme: self.lexeme.clone(),
            literal: self.literal.clone(),
            line: self.line,
        }
    }
}

/// The mathematical value of a [`Token`].
pub struct TokenView {
    pub token_type: TokenType,
    pub lexeme: Seq<char>,
    pub literal: LiteralView,
    pub line: nat,
}

impl View for Token {
    type V = TokenView;

    open spec fn view(&self) -> TokenView {
        TokenView {
            token_type: self.token_type,
            lexeme: self.lexeme@,
            literal: self.literal@,
            line: self.line as nat,
        }
    }
}

/// The values of a sequence of tokens, in order.
pub open spec fn token_views(tokens: Seq<Token>) -> Seq<TokenView> {
    Seq::new(tokens.len(), |i: int| tokens[i]@)
}

/// Appending a token appends its value.
pub proof fn lemma_token_views_push(tokens: Seq<Token>, token: Token)
    ensures
        token_views(tokens.push(token)) == token_views(tokens).push(token@),
{
    assert(token_views(tokens.push(token)) =~= token_views(tokens).push(token@));
}

} // verus!
