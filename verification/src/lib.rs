//! A lexical scanner for the Lox scripting language.
//!
//! The scanner turns source text into a flat sequence of tokens, each with
//! its lexeme, its literal value and the line it starts on. What it produces
//! is stated against a mathematical model of the lexical grammar.

pub mod grammar;
pub mod laws;
pub mod lox;
pub mod scanner;
pub mod spacing;
pub mod token;
pub mod token_type;
