use rlox::error::Error;
use rlox::scanner::Scanner;
use rlox::token::{Token, TokenType};

fn scan(source: &str) -> (Vec<Token>, bool) {
    let mut scanner = Scanner::new(source.to_string(), Error::new());
    let tokens = scanner.scan_tokens();
    (tokens, scanner.error.had_error)
}

fn kinds(tokens: &[Token]) -> Vec<TokenType> {
    tokens.iter().map(|t| t.token_type).collect()
}

#[test]
fn single_left_paren() {
    let (tokens, had_error) = scan("(");
    assert_eq!(tokens.len(), 2);
    assert_eq!(tokens[0].token_type, TokenType::LeftParen);
    assert_eq!(tokens[0].lexeme, "(");
    assert_eq!(tokens[0].literal, "");
    assert_eq!(tokens[0].line, 1);
    assert_eq!(tokens[1].token_type, TokenType::EOF);
    assert_eq!(tokens[1].lexeme, "");
    assert!(!had_error);
}

#[test]
fn comment_then_number() {
    let (tokens, had_error) = scan("// c\n123");
    assert_eq!(tokens.len(), 2);
    assert_eq!(tokens[0].token_type, TokenType::Number);
    assert_eq!(tokens[0].lexeme, "123");
    assert_eq!(tokens[0].literal.parse::<f64>().unwrap(), 123.0);
    assert_eq!(tokens[0].line, 2);
    assert_eq!(tokens[1].token_type, TokenType::EOF);
    assert_eq!(tokens[1].line, 2);
    assert!(!had_error);
}

#[test]
fn string_literal() {
    let (tokens, had_error) = scan("\"hi\"");
    assert_eq!(tokens.len(), 2);
    assert_eq!(tokens[0].token_type, TokenType::String);
    assert_eq!(tokens[0].lexeme, "\"hi\"");
    assert_eq!(tokens[0].literal, "hi");
    assert_eq!(tokens[1].token_type, TokenType::EOF);
    assert!(!had_error);
}

#[test]
fn unterminated_string() {
    let (tokens, had_error) = scan("\"hi");
    assert_eq!(tokens.len(), 1);
    assert_eq!(tokens[0].token_type, TokenType::EOF);
    assert!(had_error);
}

#[test]
fn keyword_and_identifier() {
    let (tokens, had_error) = scan("and andy");
    assert_eq!(tokens.len(), 3);
    assert_eq!(tokens[0].token_type, TokenType::And);
    assert_eq!(tokens[0].lexeme, "and");
    assert_eq!(tokens[1].token_type, TokenType::Identifier);
    assert_eq!(tokens[1].lexeme, "andy");
    assert_eq!(tokens[2].token_type, TokenType::EOF);
    assert!(!had_error);
}

#[test]
fn addition_of_numbers() {
    let (tokens, had_error) = scan("1 + 2.5");
    assert_eq!(tokens.len(), 4);
    assert_eq!(tokens[0].token_type, TokenType::Number);
    assert_eq!(tokens[0].lexeme, "1");
    assert_eq!(tokens[0].literal.parse::<f64>().unwrap(), 1.0);
    assert_eq!(tokens[1].token_type, TokenType::Plus);
    assert_eq!(tokens[1].lexeme, "+");
    assert_eq!(tokens[2].token_type, TokenType::Number);
    assert_eq!(tokens[2].lexeme, "2.5");
    assert_eq!(tokens[2].literal.parse::<f64>().unwrap(), 2.5);
    assert_eq!(tokens[3].token_type, TokenType::EOF);
    assert!(!had_error);
}

#[test]
fn number_with_trailing_dot() {
    let (tokens, had_error) = scan("123.");
    assert_eq!(tokens.len(), 3);
    assert_eq!(tokens[0].token_type, TokenType::Number);
    assert_eq!(tokens[0].lexeme, "123");
    assert_eq!(tokens[1].token_type, TokenType::Dot);
    assert_eq!(tokens[1].lexeme, ".");
    assert_eq!(tokens[2].token_type, TokenType::EOF);
    assert!(!had_error);
}

#[test]
fn leading_dot_is_not_a_number() {
    let (tokens, had_error) = scan(".5");
    assert_eq!(
        kinds(&tokens),
        vec![TokenType::Dot, TokenType::Number, TokenType::EOF]
    );
    assert_eq!(tokens[1].lexeme, "5");
    assert!(!had_error);
}

#[test]
fn empty_input() {
    let (tokens, had_error) = scan("");
    assert_eq!(tokens.len(), 1);
    assert_eq!(tokens[0].token_type, TokenType::EOF);
    assert_eq!(tokens[0].lexeme, "");
    assert_eq!(tokens[0].line, 1);
    assert!(!had_error);
}

#[test]
fn all_single_character_tokens() {
    let (tokens, had_error) = scan("(){},.-+;*/");
    assert_eq!(
        kinds(&tokens),
        vec![
            TokenType::LeftParen,
            TokenType::RightParen,
            TokenType::LeftBrace,
            TokenType::RightBrace,
            TokenType::Comma,
            TokenType::Dot,
            TokenType::Minus,
            TokenType::Plus,
            TokenType::SemiColon,
            TokenType::Star,
            TokenType::Slash,
            TokenType::EOF,
        ]
    );
    assert!(!had_error);
}

#[test]
fn one_and_two_character_operators() {
    let (tokens, had_error) = scan("! != = == < <= > >=");
    assert_eq!(
        kinds(&tokens),
        vec![
            TokenType::Bang,
            TokenType::BangEqual,
            TokenType::Equal,
            TokenType::EqualEqual,
            TokenType::Less,
            TokenType::LessEqual,
            TokenType::Greater,
            TokenType::GreaterEqual,
            TokenType::EOF,
        ]
    );
    assert_eq!(tokens[1].lexeme, "!=");
    assert_eq!(tokens[3].lexeme, "==");
    assert!(!had_error);
}

#[test]
fn greedy_operator_then_equal() {
    // three equals signs: the first two pair up, the third stands alone
    let (tokens, _) = scan("===");
    assert_eq!(
        kinds(&tokens),
        vec![TokenType::EqualEqual, TokenType::Equal, TokenType::EOF]
    );
}

#[test]
fn all_keywords() {
    let source = "and class else false for if nil or print return super this true var while";
    let (tokens, had_error) = scan(source);
    assert_eq!(
        kinds(&tokens),
        vec![
            TokenType::And,
            TokenType::Class,
            TokenType::Else,
            TokenType::False,
            TokenType::For,
            TokenType::If,
            TokenType::Nil,
            TokenType::Or,
            TokenType::Print,
            TokenType::Return,
            TokenType::Super,
            TokenType::This,
            TokenType::True,
            TokenType::Var,
            TokenType::While,
            TokenType::EOF,
        ]
    );
    assert!(!had_error);
}

#[test]
fn keyword_match_is_case_sensitive() {
    let (tokens, _) = scan("And AND vAr whiles");
    assert_eq!(
        kinds(&tokens),
        vec![
            TokenType::Identifier,
            TokenType::Identifier,
            TokenType::Identifier,
            TokenType::Identifier,
            TokenType::EOF,
        ]
    );
}

#[test]
fn identifier_with_underscore_and_digits() {
    let (tokens, _) = scan("_tmp1 or2");
    assert_eq!(tokens[0].token_type, TokenType::Identifier);
    assert_eq!(tokens[0].lexeme, "_tmp1");
    assert_eq!(tokens[1].token_type, TokenType::Identifier);
    assert_eq!(tokens[1].lexeme, "or2");
}

#[test]
fn whitespace_only_input() {
    let (tokens, had_error) = scan(" \t\r ");
    assert_eq!(tokens.len(), 1);
    assert_eq!(tokens[0].token_type, TokenType::EOF);
    assert_eq!(tokens[0].line, 1);
    assert!(!had_error);
}

#[test]
fn comment_only_input() {
    let (tokens, had_error) = scan("// nothing to see here");
    assert_eq!(tokens.len(), 1);
    assert_eq!(tokens[0].token_type, TokenType::EOF);
    assert_eq!(tokens[0].line, 1);
    assert!(!had_error);
}

#[test]
fn blank_and_comment_lines_produce_no_tokens() {
    let (tokens, had_error) = scan("  \t\n// first\n\n// second\n   ");
    assert_eq!(tokens.len(), 1);
    assert_eq!(tokens[0].token_type, TokenType::EOF);
    assert_eq!(tokens[0].line, 5);
    assert!(!had_error);
}

#[test]
fn final_line_counts_newlines() {
    let (tokens, _) = scan("(\n)\n{\n}");
    let last = tokens.last().unwrap();
    assert_eq!(last.token_type, TokenType::EOF);
    assert_eq!(last.line, 4);
}

#[test]
fn exactly_one_end_of_input_token() {
    let (tokens, _) = scan("var x = 1; // done\nprint x;");
    let eof_count = tokens
        .iter()
        .filter(|t| t.token_type == TokenType::EOF)
        .count();
    assert_eq!(eof_count, 1);
    assert_eq!(tokens.last().unwrap().token_type, TokenType::EOF);
}

#[test]
fn unexpected_character_sets_flag_and_emits_nothing() {
    let (tokens, had_error) = scan("@");
    assert_eq!(tokens.len(), 1);
    assert_eq!(tokens[0].token_type, TokenType::EOF);
    assert!(had_error);
}

#[test]
fn scan_continues_after_unexpected_character() {
    let (tokens, had_error) = scan("@#(");
    assert_eq!(kinds(&tokens), vec![TokenType::LeftParen, TokenType::EOF]);
    assert!(had_error);
}

#[test]
fn multi_line_string() {
    let (tokens, had_error) = scan("\"a\nb\" c");
    assert_eq!(tokens.len(), 3);
    assert_eq!(tokens[0].token_type, TokenType::String);
    assert_eq!(tokens[0].literal, "a\nb");
    // the string token is reported on the line the literal ends on
    assert_eq!(tokens[0].line, 2);
    assert_eq!(tokens[1].token_type, TokenType::Identifier);
    assert_eq!(tokens[1].line, 2);
    assert!(!had_error);
}

#[test]
fn unterminated_string_still_counts_lines() {
    let (tokens, had_error) = scan("\"a\nb");
    assert_eq!(tokens.len(), 1);
    assert_eq!(tokens[0].token_type, TokenType::EOF);
    assert_eq!(tokens[0].line, 2);
    assert!(had_error);
}

#[test]
fn empty_string_literal() {
    let (tokens, _) = scan("\"\"");
    assert_eq!(tokens[0].token_type, TokenType::String);
    assert_eq!(tokens[0].lexeme, "\"\"");
    assert_eq!(tokens[0].literal, "");
}

#[test]
fn slash_is_division_not_comment() {
    let (tokens, _) = scan("1/2");
    assert_eq!(
        kinds(&tokens),
        vec![TokenType::Number, TokenType::Slash, TokenType::Number, TokenType::EOF]
    );
}
