//! The token model: the closed catalog of token kinds and the `Token`
//! value produced by the scanner.

use vstd::prelude::*;

verus! {

/// One variant per lexical category of the source language.
#[derive(Clone, Copy, PartialEq, Eq, Structural, Debug)]
pub enum TokenType {
    LeftParen,
    RightParen,
    LeftBrace,
    RightBrace,
    Comma,
    Dot,
    Minus,
    Plus,
    SemiColon,
    Slash,
    Star,
    Bang,
    BangEqual,
    Equal,
    EqualEqual,
    Greater,
    GreaterEqual,
    Less,
    LessEqual,
    Identifier,
    String,
    Number,
    And,
    Class,
    Else,
    False,
    For,
    If,
    Nil,
    Or,
    Print,
    Return,
    Super,
    This,
    True,
    Var,
    While,
    EOF,
}

/// The mathematical value of a `Token`: its kind, the exact source slice it
/// came from, its decoded literal text, and the 1-based line it is reported on.
pub ghost struct TokenModel {
    pub kind: TokenType,
    pub lexeme: Seq<char>,
    pub literal: Seq<char>,
    pub line: nat,
}

/// An immutable classified lexeme. `literal` carries the decoded value for
/// string and number tokens (the text between the quotes, or the digit span)
/// and is empty for every other kind.
#[derive(Debug)]
pub struct Token {
    pub token_type: TokenType,
    pub lexeme: std::string::String,
    pub literal: std::string::String,
    pub line: usize,
}

impl View for Token {
    type V = TokenModel;

    open spec fn view(&self) -> TokenModel {
        TokenModel {
            kind: self.token_type,
            lexeme: self.lexeme@,
            literal: self.literal@,
            line: self.line as nat,
        }
    }
}

impl Clone for Token {
    fn clone(&self) -> (t: Token)
        ensures
            t@ == self@,
    {
        Token {
            token_type: self.token_type,
            lexeme: self.lexeme.clone(),
            literal: self.literal.clone(),
            line: self.line,
        }
    }
}

impl Token {
    pub fn new(token_type: TokenType, lexeme: std::string::String, literal: std::string::String, line: usize) -> (t: Token)
        ensures
            t@ == (TokenModel { kind: token_type, lexeme: lexeme@, literal: literal@, line: line as nat }),
    {
        Token { token_type, lexeme, literal, line }
    }

    /// Debug rendering of the token. Relies on `format!` and the derived
    /// `Debug` impl of `TokenType`; the text is not part of any contract.
    #[verifier::external_body]
    pub fn to_string(&self) -> std::string::String {
        format!("{:?} {} {}", self.token_type, self.lexeme, self.literal)
    }
}

} // verus!
