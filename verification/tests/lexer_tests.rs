use ratcalc::lexer::token::{Operator, Token};
use ratcalc::lexer::tokenize;

#[test]
fn tokenize_rejects_second_dot_in_run() {
    assert!(tokenize("1.2.3".to_string()).is_none());
    assert!(tokenize("..".to_string()).is_none());
}

#[test]
fn tokenize_allows_dots_in_separate_runs() {
    let tokens = tokenize("1. .2".to_string()).unwrap();
    assert_eq!(tokens.len(), 1);
    assert!(matches!(tokens[0], Token::SemiColon));
}

#[test]
fn tokenize_short_input_ends() {
    let tokens = tokenize("1.2".to_string()).unwrap();
    assert_eq!(tokens.len(), 1);
    assert!(matches!(tokens[0], Token::End));
}

#[test]
fn tokenize_long_input_semicolon() {
    let tokens = tokenize("12 34".to_string()).unwrap();
    assert_eq!(tokens.len(), 1);
    assert!(matches!(tokens[0], Token::SemiColon));
}

#[test]
fn tokenize_accepts_unicode_whitespace() {
    // A vertical tab separates two number runs, so the two dots are legal;
    // six bytes in all, so the long-input token comes back.
    let tokens = tokenize("1.2\u{B}.3".to_string()).unwrap();
    assert_eq!(tokens.len(), 1);
    assert!(matches!(tokens[0], Token::SemiColon));
}

#[test]
fn tokenize_counts_bytes_not_chars() {
    // U+3000 is three bytes in UTF-8: three characters cross the four-byte
    // threshold, two do not.
    let long = tokenize("12\u{3000}".to_string()).unwrap();
    assert!(matches!(long[0], Token::SemiColon));
    let short = tokenize("1\u{3000}".to_string()).unwrap();
    assert!(matches!(short[0], Token::End));
}

#[test]
fn binding_powers_order_operators() {
    assert_eq!(Operator::Add.binding_power(), (2, 3));
    assert_eq!(Operator::Sub.binding_power(), (2, 3));
    assert_eq!(Operator::Mul.binding_power(), (4, 5));
    assert_eq!(Operator::Div.binding_power(), (4, 5));
    assert_eq!(Operator::Mod.binding_power(), (4, 5));
    assert_eq!(Operator::Pow.binding_power(), (7, 6));
}
