use rlox::error::Error;
use rlox::lox::Lox;
use rlox::scanner::Scanner;
use rlox::token::{Token, TokenType};

#[test]
fn fresh_sink_has_no_error() {
    let error = Error::new();
    assert!(!error.had_error);
}

#[test]
fn report_latches_the_flag() {
    let mut error = Error::new();
    error.error(3, "Unexpected character.");
    assert!(error.had_error);
    error.error(7, "Unterminated string.");
    assert!(error.had_error);
}

#[test]
fn caller_may_reset_between_scans() {
    let mut error = Error::new();
    error.error(1, "Unexpected character.");
    assert!(error.had_error);
    error.had_error = false;
    let mut scanner = Scanner::new("()".to_string(), error);
    scanner.scan_tokens();
    assert!(!scanner.error.had_error);
}

#[test]
fn flag_survives_later_clean_tokens() {
    let mut scanner = Scanner::new("@ ()".to_string(), Error::new());
    let tokens = scanner.scan_tokens();
    assert_eq!(tokens.len(), 3);
    assert!(scanner.error.had_error);
}

#[test]
fn sink_already_raised_stays_raised() {
    let mut error = Error::new();
    error.error(1, "Unexpected character.");
    let mut scanner = Scanner::new("()".to_string(), error);
    scanner.scan_tokens();
    assert!(scanner.error.had_error);
}

#[test]
fn fresh_session_has_no_error() {
    let lox = Lox::new();
    assert!(!lox.error.had_error);
}

#[test]
fn token_new_keeps_fields() {
    let token = Token::new(TokenType::Number, "12".to_string(), "12".to_string(), 4);
    assert_eq!(token.token_type, TokenType::Number);
    assert_eq!(token.lexeme, "12");
    assert_eq!(token.literal, "12");
    assert_eq!(token.line, 4);
}

#[test]
fn token_clone_keeps_fields() {
    let token = Token::new(TokenType::String, "\"a\"".to_string(), "a".to_string(), 2);
    let copy = token.clone();
    assert_eq!(copy.token_type, TokenType::String);
    assert_eq!(copy.lexeme, "\"a\"");
    assert_eq!(copy.literal, "a");
    assert_eq!(copy.line, 2);
}

#[test]
fn token_to_string_shows_kind_lexeme_and_literal() {
    let token = Token::new(TokenType::Number, "12".to_string(), "12".to_string(), 1);
    assert_eq!(token.to_string(), "Number 12 12");
}

#[test]
fn scanner_keeps_tokens_it_returns() {
    let mut scanner = Scanner::new("(".to_string(), Error::new());
    let tokens = scanner.scan_tokens();
    assert_eq!(tokens.len(), scanner.tokens.len());
    assert_eq!(tokens[0].token_type, scanner.tokens[0].token_type);
    assert_eq!(tokens[0].lexeme, scanner.tokens[0].lexeme);
}
