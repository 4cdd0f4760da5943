use lox_scanner::scanner::scan;
use lox_scanner::token::{Literal, Token};
use lox_scanner::token_type::TokenType;

fn tokens(source: &str) -> Vec<Token> {
    match scan(&source.to_string()) {
        Ok(tokens) => tokens,
        Err(error) => panic!("line {}: {}", error.line, error.message),
    }
}

fn kinds(source: &str) -> Vec<TokenType> {
    let mut kinds = Vec::new();
    for token in tokens(source) {
        kinds.push(token.token_type);
    }
    kinds
}

fn lexemes(source: &str) -> Vec<String> {
    let mut lexemes = Vec::new();
    for token in tokens(source) {
        lexemes.push(token.lexeme);
    }
    lexemes
}

fn number_value(token: &Token) -> f64 {
    match &token.literal {
        Literal::Number(numeral) => numeral.parse::<f64>().unwrap(),
        other => panic!("no number: {:?}", other),
    }
}

fn string_value(token: &Token) -> String {
    match &token.literal {
        Literal::String(text) => text.clone(),
        other => panic!("no string: {:?}", other),
    }
}

fn assert_end_marker(token: &Token, line: u32) {
    assert_eq!(token.token_type, TokenType::EndOfInput);
    assert_eq!(token.lexeme, "");
    assert!(matches!(token.literal, Literal::Absent));
    assert_eq!(token.line, line);
}

#[test]
fn empty_source_yields_only_the_end_marker() {
    let found = tokens("");
    assert_eq!(found.len(), 1);
    assert_end_marker(&found[0], 1);
}

#[test]
fn whitespace_yields_only_the_end_marker() {
    let found = tokens("  \t \r ");
    assert_eq!(found.len(), 1);
    assert_end_marker(&found[0], 1);
}

#[test]
fn newlines_yield_only_the_end_marker_on_the_last_line() {
    let found = tokens(" \n\t\n\r\n");
    assert_eq!(found.len(), 1);
    assert_end_marker(&found[0], 4);
}

#[test]
fn comments_yield_only_the_end_marker() {
    let found = tokens("// one + two\n   // \"three\n//");
    assert_eq!(found.len(), 1);
    assert_end_marker(&found[0], 3);
}

#[test]
fn comment_without_newline_runs_to_the_end() {
    let found = tokens("// var x = 1;");
    assert_eq!(found.len(), 1);
    assert_end_marker(&found[0], 1);
}

#[test]
fn each_punctuation_mark_alone_is_its_token() {
    let cases = vec![
        ("(", TokenType::LeftParen),
        (")", TokenType::RightParen),
        ("{", TokenType::LeftBrace),
        ("}", TokenType::RightBrace),
        (",", TokenType::Comma),
        (".", TokenType::Dot),
        ("-", TokenType::Minus),
        ("+", TokenType::Plus),
        (";", TokenType::Semicolon),
        ("*", TokenType::Star),
        ("/", TokenType::Slash),
        ("!", TokenType::Bang),
        ("=", TokenType::Equal),
        ("<", TokenType::Less),
        (">", TokenType::Greater),
    ];
    for (source, kind) in cases {
        let found = tokens(source);
        assert_eq!(found.len(), 2, "{}", source);
        assert_eq!(found[0].token_type, kind);
        assert_eq!(found[0].lexeme, source);
        assert!(matches!(found[0].literal, Literal::Absent));
        assert_eq!(found[0].line, 1);
        assert_end_marker(&found[1], 1);
    }
}

#[test]
fn bang_equal_is_one_token() {
    let found = tokens("!=");
    assert_eq!(found.len(), 2);
    assert_eq!(found[0].token_type, TokenType::BangEqual);
    assert_eq!(found[0].lexeme, "!=");
    assert!(matches!(found[0].literal, Literal::Absent));
    assert_eq!(found[0].line, 1);
    assert_end_marker(&found[1], 1);
}

#[test]
fn bang_alone_is_bang() {
    assert_eq!(kinds("!"), vec![TokenType::Bang, TokenType::EndOfInput]);
}

#[test]
fn compound_operators_take_the_equal_sign() {
    assert_eq!(kinds("=="), vec![TokenType::EqualEqual, TokenType::EndOfInput]);
    assert_eq!(kinds("<="), vec![TokenType::LessEqual, TokenType::EndOfInput]);
    assert_eq!(kinds(">="), vec![TokenType::GreaterEqual, TokenType::EndOfInput]);
    assert_eq!(lexemes(">="), vec![">=", ""]);
}

#[test]
fn operators_pair_from_the_left() {
    assert_eq!(
        kinds("!==<==>"),
        vec![
            TokenType::BangEqual,
            TokenType::Equal,
            TokenType::LessEqual,
            TokenType::Equal,
            TokenType::Greater,
            TokenType::EndOfInput,
        ]
    );
    assert_eq!(kinds("==="), vec![TokenType::EqualEqual, TokenType::Equal, TokenType::EndOfInput]);
    assert_eq!(kinds("! ="), vec![TokenType::Bang, TokenType::Equal, TokenType::EndOfInput]);
}

#[test]
fn slash_is_a_token_and_two_slashes_a_comment() {
    assert_eq!(
        kinds("a/b"),
        vec![TokenType::Identifier, TokenType::Slash, TokenType::Identifier, TokenType::EndOfInput]
    );
    assert_eq!(kinds("a//b"), vec![TokenType::Identifier, TokenType::EndOfInput]);
    assert_eq!(kinds("/ /"), vec![TokenType::Slash, TokenType::Slash, TokenType::EndOfInput]);
    assert_eq!(kinds("/"), vec![TokenType::Slash, TokenType::EndOfInput]);
}

#[test]
fn comment_ends_at_the_newline() {
    let found = tokens("// comment\n+");
    assert_eq!(found.len(), 2);
    assert_eq!(found[0].token_type, TokenType::Plus);
    assert_eq!(found[0].lexeme, "+");
    assert_eq!(found[0].line, 2);
    assert_end_marker(&found[1], 2);
}

#[test]
fn comment_after_a_token_hides_the_rest_of_the_line() {
    let found = tokens("x // y z\nw");
    assert_eq!(lexemes("x // y z\nw"), vec!["x", "w", ""]);
    assert_eq!(found[0].line, 1);
    assert_eq!(found[1].line, 2);
}

#[test]
fn string_literal_holds_the_text_between_the_quotes() {
    let found = tokens("\"hello\"");
    assert_eq!(found.len(), 2);
    assert_eq!(found[0].token_type, TokenType::String);
    assert_eq!(found[0].lexeme, "\"hello\"");
    assert_eq!(string_value(&found[0]), "hello");
    assert_eq!(found[0].line, 1);
    assert_end_marker(&found[1], 1);
}

#[test]
fn empty_string_literal() {
    let found = tokens("\"\"");
    assert_eq!(found.len(), 2);
    assert_eq!(found[0].token_type, TokenType::String);
    assert_eq!(found[0].lexeme, "\"\"");
    assert_eq!(string_value(&found[0]), "");
}

#[test]
fn string_literal_keeps_escapes_as_written() {
    let found = tokens("\"a\\nb\\t\"");
    assert_eq!(found.len(), 2);
    assert_eq!(string_value(&found[0]), "a\\nb\\t");
}

#[test]
fn backslash_does_not_escape_a_quote() {
    let found = tokens("\"a\\\" b");
    assert_eq!(found.len(), 3);
    assert_eq!(string_value(&found[0]), "a\\");
    assert_eq!(found[1].token_type, TokenType::Identifier);
    assert_eq!(found[1].lexeme, "b");
}

#[test]
fn string_literal_may_hold_any_character() {
    let found = tokens("\"h\u{e9}llo // + \u{4e16}\u{754c}\" x");
    assert_eq!(found.len(), 3);
    assert_eq!(string_value(&found[0]), "h\u{e9}llo // + \u{4e16}\u{754c}");
    assert_eq!(found[0].lexeme, "\"h\u{e9}llo // + \u{4e16}\u{754c}\"");
    assert_eq!(found[1].token_type, TokenType::Identifier);
    assert_eq!(found[1].lexeme, "x");
}

#[test]
fn string_literal_over_several_lines_stands_on_its_first_line() {
    let found = tokens("\n\"one\ntwo\nthree\" +");
    assert_eq!(found.len(), 3);
    assert_eq!(found[0].token_type, TokenType::String);
    assert_eq!(string_value(&found[0]), "one\ntwo\nthree");
    assert_eq!(found[0].line, 2);
    assert_eq!(found[1].token_type, TokenType::Plus);
    assert_eq!(found[1].line, 4);
    assert_end_marker(&found[2], 4);
}

#[test]
fn number_with_a_fraction_is_one_token() {
    let found = tokens("123.456");
    assert_eq!(found.len(), 2);
    assert_eq!(found[0].token_type, TokenType::Number);
    assert_eq!(found[0].lexeme, "123.456");
    assert_eq!(number_value(&found[0]), 123.456);
    assert_end_marker(&found[1], 1);
}

#[test]
fn number_does_not_take_a_trailing_dot() {
    let found = tokens("123.");
    assert_eq!(found.len(), 3);
    assert_eq!(found[0].token_type, TokenType::Number);
    assert_eq!(found[0].lexeme, "123");
    assert_eq!(number_value(&found[0]), 123.0);
    assert_eq!(found[1].token_type, TokenType::Dot);
    assert_eq!(found[1].lexeme, ".");
    assert_end_marker(&found[2], 1);
}

#[test]
fn number_does_not_take_a_leading_dot() {
    let found = tokens(".5");
    assert_eq!(found.len(), 3);
    assert_eq!(found[0].token_type, TokenType::Dot);
    assert_eq!(found[1].token_type, TokenType::Number);
    assert_eq!(number_value(&found[1]), 5.0);
}

#[test]
fn number_takes_one_fraction_only() {
    let found = tokens("1.5.25");
    assert_eq!(lexemes("1.5.25"), vec!["1.5", ".", "25", ""]);
    assert_eq!(number_value(&found[0]), 1.5);
    assert_eq!(found[1].token_type, TokenType::Dot);
    assert_eq!(number_value(&found[2]), 25.0);
}

#[test]
fn number_before_a_method_call() {
    assert_eq!(lexemes("7.abs"), vec!["7", ".", "abs", ""]);
    assert_eq!(
        kinds("7.abs"),
        vec![TokenType::Number, TokenType::Dot, TokenType::Identifier, TokenType::EndOfInput]
    );
}

#[test]
fn single_digit_and_zero() {
    let found = tokens("0 9 0.0 007");
    assert_eq!(found.len(), 5);
    assert_eq!(number_value(&found[0]), 0.0);
    assert_eq!(number_value(&found[1]), 9.0);
    assert_eq!(number_value(&found[2]), 0.0);
    assert_eq!(found[2].lexeme, "0.0");
    assert_eq!(number_value(&found[3]), 7.0);
    assert_eq!(found[3].lexeme, "007");
}

#[test]
fn long_number_keeps_all_its_digits() {
    let source = "123456789012345678901234567890.5";
    let found = tokens(source);
    assert_eq!(found.len(), 2);
    assert_eq!(found[0].lexeme, source);
    assert!(matches!(&found[0].literal, Literal::Number(numeral) if numeral == source));
    assert_eq!(number_value(&found[0]), 123456789012345678901234567890.5);
}

#[test]
fn digits_then_letters_are_two_tokens() {
    assert_eq!(lexemes("12ab"), vec!["12", "ab", ""]);
    assert_eq!(kinds("12ab"), vec![TokenType::Number, TokenType::Identifier, TokenType::EndOfInput]);
}

#[test]
fn minus_is_not_part_of_a_number() {
    assert_eq!(kinds("-1"), vec![TokenType::Minus, TokenType::Number, TokenType::EndOfInput]);
}

#[test]
fn classic_is_an_identifier() {
    let found = tokens("classic");
    assert_eq!(found.len(), 2);
    assert_eq!(found[0].token_type, TokenType::Identifier);
    assert_eq!(found[0].lexeme, "classic");
    assert!(matches!(found[0].literal, Literal::Absent));
    assert_end_marker(&found[1], 1);
}

#[test]
fn every_keyword_has_its_kind() {
    let cases = vec![
        ("and", TokenType::And),
        ("class", TokenType::Class),
        ("else", TokenType::Else),
        ("false", TokenType::False),
        ("for", TokenType::For),
        ("fun", TokenType::Fun),
        ("if", TokenType::If),
        ("nil", TokenType::Nil),
        ("or", TokenType::Or),
        ("print", TokenType::Print),
        ("return", TokenType::Return),
        ("super", TokenType::Super),
        ("this", TokenType::This),
        ("true", TokenType::True),
        ("var", TokenType::Var),
        ("while", TokenType::While),
    ];
    for (source, kind) in cases {
        let found = tokens(source);
        assert_eq!(found.len(), 2, "{}", source);
        assert_eq!(found[0].token_type, kind);
        assert_eq!(found[0].lexeme, source);
        assert!(matches!(found[0].literal, Literal::Absent));
    }
}

#[test]
fn keywords_are_case_sensitive() {
    assert_eq!(kinds("Class"), vec![TokenType::Identifier, TokenType::EndOfInput]);
    assert_eq!(kinds("NIL"), vec![TokenType::Identifier, TokenType::EndOfInput]);
    assert_eq!(kinds("If"), vec![TokenType::Identifier, TokenType::EndOfInput]);
}

#[test]
fn keyword_must_be_the_whole_word() {
    assert_eq!(kinds("orchid"), vec![TokenType::Identifier, TokenType::EndOfInput]);
    assert_eq!(kinds("fo"), vec![TokenType::Identifier, TokenType::EndOfInput]);
    assert_eq!(kinds("for1"), vec![TokenType::Identifier, TokenType::EndOfInput]);
    assert_eq!(kinds("_for"), vec![TokenType::Identifier, TokenType::EndOfInput]);
    assert_eq!(kinds("for_"), vec![TokenType::Identifier, TokenType::EndOfInput]);
    assert_eq!(
        kinds("for("),
        vec![TokenType::For, TokenType::LeftParen, TokenType::EndOfInput]
    );
}

#[test]
fn identifiers_take_letters_digits_and_underscores() {
    assert_eq!(lexemes("_ _a1 Zz_9 a.b"), vec!["_", "_a1", "Zz_9", "a", ".", "b", ""]);
    assert_eq!(
        kinds("_ _a1 Zz_9"),
        vec![
            TokenType::Identifier,
            TokenType::Identifier,
            TokenType::Identifier,
            TokenType::EndOfInput,
        ]
    );
}

#[test]
fn a_small_program() {
    let source = "var x = 3.5;\nif (x >= 2) { print \"big\"; } // done\n";
    assert_eq!(
        kinds(source),
        vec![
            TokenType::Var,
            TokenType::Identifier,
            TokenType::Equal,
            TokenType::Number,
            TokenType::Semicolon,
            TokenType::If,
            TokenType::LeftParen,
            TokenType::Identifier,
            TokenType::GreaterEqual,
            TokenType::Number,
            TokenType::RightParen,
            TokenType::LeftBrace,
            TokenType::Print,
            TokenType::String,
            TokenType::Semicolon,
            TokenType::RightBrace,
            TokenType::EndOfInput,
        ]
    );
    let found = tokens(source);
    assert_eq!(found[4].line, 1);
    assert_eq!(found[5].line, 2);
    assert_eq!(found[15].line, 2);
    assert_end_marker(&found[16], 3);
}

#[test]
fn lexemes_and_what_lies_between_them_make_up_the_source() {
    let source = " var  x=\"a b\" ;// tail";
    assert_eq!(lexemes(source), vec!["var", "x", "=", "\"a b\"", ";", ""]);
}

#[test]
fn line_is_one_more_than_the_newlines_before_the_token() {
    let found = tokens("a\nb\n\nc d\n\n\n");
    assert_eq!(found.len(), 5);
    assert_eq!(found[0].line, 1);
    assert_eq!(found[1].line, 2);
    assert_eq!(found[2].line, 4);
    assert_eq!(found[3].line, 4);
    assert_end_marker(&found[4], 7);
}

#[test]
fn carriage_return_does_not_count_as_a_line() {
    let found = tokens("a\r\nb\rc");
    assert_eq!(found.len(), 4);
    assert_eq!(found[0].line, 1);
    assert_eq!(found[1].line, 2);
    assert_eq!(found[2].line, 2);
}

#[test]
fn blanks_between_tokens_change_nothing_but_the_places() {
    let tight = tokens("var x=1.5+y;//c");
    let loose = tokens("  var\tx  = 1.5 \r+ y ; //  c ");
    assert_eq!(tight.len(), loose.len());
    for i in 0..tight.len() {
        assert_eq!(tight[i].token_type, loose[i].token_type);
        assert_eq!(tight[i].lexeme, loose[i].lexeme);
        assert_eq!(tight[i].line, loose[i].line);
        assert_eq!(format!("{:?}", tight[i].literal), format!("{:?}", loose[i].literal));
    }
}

#[test]
fn blanks_inside_a_lexeme_change_the_tokens() {
    assert_eq!(kinds("ab"), vec![TokenType::Identifier, TokenType::EndOfInput]);
    assert_eq!(
        kinds("a b"),
        vec![TokenType::Identifier, TokenType::Identifier, TokenType::EndOfInput]
    );
    assert_eq!(kinds("//"), vec![TokenType::EndOfInput]);
    assert_eq!(kinds("/ /"), vec![TokenType::Slash, TokenType::Slash, TokenType::EndOfInput]);
}

#[test]
fn token_clone_keeps_every_field() {
    let found = tokens("\"s\" 1.5 x");
    for token in &found {
        let copy = token.clone();
        assert_eq!(copy.token_type, token.token_type);
        assert_eq!(copy.lexeme, token.lexeme);
        assert_eq!(copy.line, token.line);
        assert_eq!(format!("{:?}", copy.literal), format!("{:?}", token.literal));
    }
    assert_eq!(string_value(&found[0].clone()), "s");
    assert_eq!(number_value(&found[1].clone()), 1.5);
}
