use lox_scanner::scanner::{get_keyword, is_alpha, is_alpha_numeric, is_digit, lines_fit};
use lox_scanner::token_type::TokenType;

#[test]
fn digits_are_zero_to_nine() {
    for c in '0'..='9' {
        assert!(is_digit(c));
    }
    assert!(!is_digit('/'));
    assert!(!is_digit(':'));
    assert!(!is_digit('a'));
    assert!(!is_digit(' '));
    assert!(!is_digit('\0'));
}

#[test]
fn digits_of_other_scripts_are_no_digits() {
    assert!(!is_digit('\u{663}'));
    assert!(!is_digit('\u{ff11}'));
    assert!(!is_alpha_numeric('\u{663}'));
}

#[test]
fn letters_are_ascii_letters_and_underscore() {
    for c in 'a'..='z' {
        assert!(is_alpha(c));
    }
    for c in 'A'..='Z' {
        assert!(is_alpha(c));
    }
    assert!(is_alpha('_'));
    assert!(!is_alpha('@'));
    assert!(!is_alpha('['));
    assert!(!is_alpha('`'));
    assert!(!is_alpha('{'));
    assert!(!is_alpha('0'));
    assert!(!is_alpha('-'));
    assert!(!is_alpha('\0'));
}

#[test]
fn letters_of_other_scripts_are_no_letters() {
    assert!(!is_alpha('\u{e9}'));
    assert!(!is_alpha('\u{3b1}'));
    assert!(!is_alpha_numeric('\u{e9}'));
}

#[test]
fn alpha_numeric_is_the_union() {
    for c in '\0'..='\u{ff}' {
        assert_eq!(is_alpha_numeric(c), is_alpha(c) || is_digit(c));
    }
    assert!(is_alpha_numeric('_'));
    assert!(is_alpha_numeric('5'));
    assert!(is_alpha_numeric('q'));
    assert!(!is_alpha_numeric('.'));
}

#[test]
fn keyword_table_holds_the_sixteen_keywords() {
    assert_eq!(get_keyword("and"), Some(TokenType::And));
    assert_eq!(get_keyword("class"), Some(TokenType::Class));
    assert_eq!(get_keyword("else"), Some(TokenType::Else));
    assert_eq!(get_keyword("false"), Some(TokenType::False));
    assert_eq!(get_keyword("for"), Some(TokenType::For));
    assert_eq!(get_keyword("fun"), Some(TokenType::Fun));
    assert_eq!(get_keyword("if"), Some(TokenType::If));
    assert_eq!(get_keyword("nil"), Some(TokenType::Nil));
    assert_eq!(get_keyword("or"), Some(TokenType::Or));
    assert_eq!(get_keyword("print"), Some(TokenType::Print));
    assert_eq!(get_keyword("return"), Some(TokenType::Return));
    assert_eq!(get_keyword("super"), Some(TokenType::Super));
    assert_eq!(get_keyword("this"), Some(TokenType::This));
    assert_eq!(get_keyword("true"), Some(TokenType::True));
    assert_eq!(get_keyword("var"), Some(TokenType::Var));
    assert_eq!(get_keyword("while"), Some(TokenType::While));
}

#[test]
fn keyword_table_matches_exactly() {
    assert_eq!(get_keyword(""), None);
    assert_eq!(get_keyword("an"), None);
    assert_eq!(get_keyword("andy"), None);
    assert_eq!(get_keyword("And"), None);
    assert_eq!(get_keyword("WHILE"), None);
    assert_eq!(get_keyword(" if"), None);
    assert_eq!(get_keyword("classic"), None);
    assert_eq!(get_keyword("x"), None);
}

#[test]
fn lines_of_ordinary_sources_fit() {
    assert!(lines_fit(&"".to_string()));
    assert!(lines_fit(&"a\nb\n\n".to_string()));
    assert!(lines_fit(&"\n".repeat(100000)));
}
