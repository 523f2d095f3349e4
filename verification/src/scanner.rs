//! The scanner: a single forward pass over the source text with one
//! character of lookahead, proved to produce exactly the token sequence,
//! final line number and error outcome that the scan model defines.

use vstd::prelude::*;
use crate::error::Error;
use crate::model::{
    comment_end, digits_end, ident_end, identifier_step, is_alnum_char, is_alpha_char,
    is_digit_char, keyword_kind, lemma_comment_end, lemma_digits_end, lemma_ident_end,
    lemma_models_push, lemma_newlines_snoc, lemma_step_bounds, lemma_string_end, models,
    newlines_in, number_step, scan_from, scan_had_error, scan_output, scan_step, string_end,
    string_step,
};
use crate::token::{Token, TokenModel, TokenType};

verus! {

/// Walks the source buffer once, left to right, emitting tokens and feeding
/// the diagnostics sink on malformed lexemes. A scanner is single-use: its
/// cursor state is only valid for one full pass.
pub struct Scanner {
    pub source: std::string::String,
    pub tokens: Vec<Token>,
    pub length: usize,
    pub start: usize,
    pub current: usize,
    pub line: usize,
    pub error: Error,
}

impl Scanner {
    /// The cursor state is inside the buffer, the cached length is honest,
    /// and the line counter cannot outrun the cursor.
    pub open spec fn wf(self) -> bool {
        &&& self.length == self.source@.len()
        &&& self.source@.len() < usize::MAX
        &&& self.start <= self.current <= self.source@.len()
        &&& 1 <= self.line <= self.current + 1
    }

    /// A scanner that has not consumed anything yet.
    pub open spec fn fresh(self) -> bool {
        self.current == 0 && self.line == 1 && self.tokens@.len() == 0
    }

    /// A scanner over `source` feeding `error`. The source must be at least
    /// one character shorter than the address space, so that the 1-based
    /// line counter always fits in a machine word.
    pub fn new(source: std::string::String, error: Error) -> (sc: Scanner)
        requires
            source@.len() < usize::MAX,
        ensures
            sc.wf(),
            sc.fresh(),
            sc.source@ == source@,
            sc.tokens@.len() == 0,
            sc.error == error,
    {
        let length = source.as_str().unicode_len();
        Scanner { source, tokens: Vec::new(), length, start: 0, current: 0, line: 1, error }
    }

    fn is_at_end(&self) -> (r: bool)
        requires
            self.wf(),
        ensures
            r == (self.current >= self.source@.len()),
    {
        self.current >= self.length
    }

    fn advance(&mut self) -> (c: char)
        requires
            old(self).wf(),
            old(self).current < old(self).source@.len(),
        ensures
            final(self).wf(),
            c == old(self).source@[old(self).current as int],
            final(self).current == old(self).current + 1,
            final(self).source@ == old(self).source@,
            final(self).tokens@ == old(self).tokens@,
            final(self).start == old(self).start,
            final(self).line == old(self).line,
            final(self).error == old(self).error,
    {
        let c = self.source.as_str().get_char(self.current);
        self.current = self.current + 1;
        c
    }

    fn match_char(&mut self, expected: char) -> (r: bool)
        requires
            old(self).wf(),
        ensures
            final(self).wf(),
            r == (old(self).current < old(self).source@.len() && old(self).source@[old(
                self,
            ).current as int] == expected),
            final(self).current == old(self).current + (if r {
                1int
            } else {
                0int
            }),
            final(self).source@ == old(self).source@,
            final(self).tokens@ == old(self).tokens@,
            final(self).start == old(self).start,
            final(self).line == old(self).line,
            final(self).error == old(self).error,
    {
        if self.is_at_end() {
            return false;
        }
        if self.source.as_str().get_char(self.current) != expected {
            return false;
        }
        self.current = self.current + 1;
        true
    }

    fn peek(&self) -> (c: char)
        requires
            self.wf(),
        ensures
            c == (if self.current >= self.source@.len() {
                '\0'
            } else {
                self.source@[self.current as int]
            }),
    {
        if self.is_at_end() {
            '\0'
        } else {
            self.source.as_str().get_char(self.current)
        }
    }

    fn peek_next(&self) -> (c: char)
        requires
            self.wf(),
        ensures
            c == (if self.current + 1 >= self.source@.len() {
                '\0'
            } else {
                self.source@[self.current as int + 1]
            }),
    {
        if self.current + 1 >= self.length {
            '\0'
        } else {
            self.source.as_str().get_char(self.current + 1)
        }
    }

    fn add_token(&mut self, token_type: TokenType)
        requires
            old(self).wf(),
        ensures
            final(self).wf(),
            models(final(self).tokens@) == models(old(self).tokens@).push(
                TokenModel {
                    kind: token_type,
                    lexeme: old(self).source@.subrange(
                        old(self).start as int,
                        old(self).current as int,
                    ),
                    literal: Seq::<char>::empty(),
                    line: old(self).line as nat,
                },
            ),
            final(self).source@ == old(self).source@,
            final(self).current == old(self).current,
            final(self).start == old(self).start,
            final(self).line == old(self).line,
            final(self).error == old(self).error,
    {
        self.add_token_literal(token_type, std::string::String::new());
    }

    fn add_token_literal(&mut self, token_type: TokenType, literal: std::string::String)
        requires
            old(self).wf(),
        ensures
            final(self).wf(),
            models(final(self).tokens@) == models(old(self).tokens@).push(
                TokenModel {
                    kind: token_type,
                    lexeme: old(self).source@.subrange(
                        old(self).start as int,
                        old(self).current as int,
                    ),
                    literal: literal@,
                    line: old(self).line as nat,
                },
            ),
            final(self).source@ == old(self).source@,
            final(self).current == old(self).current,
            final(self).start == old(self).start,
            final(self).line == old(self).line,
            final(self).error == old(self).error,
    {
        let text = self.source.as_str().substring_char(self.start, self.current).to_owned();
        let token = Token::new(token_type, text, literal, self.line);
        proof {
            lemma_models_push(self.tokens@, token);
        }
        self.tokens.push(token);
    }

    /// One full pass over the source: the returned sequence (also left in
    /// `tokens`) is exactly what the scan model defines for this source, and
    /// the sink's flag is raised exactly when the model reports an error.
    pub fn scan_tokens(&mut self) -> (r: Vec<Token>)
        requires
            old(self).wf(),
            old(self).fresh(),
        ensures
            final(self).wf(),
            models(final(self).tokens@) == scan_output(old(self).source@),
            models(r@) == scan_output(old(self).source@),
            final(self).error.had_error == (old(self).error.had_error || scan_had_error(
                old(self).source@,
            )),
            final(self).source@ == old(self).source@,
    {
        let ghost s = self.source@;
        let ghost err0 = self.error.had_error;
        let ghost mut perr = false;
        while !self.is_at_end()
            invariant
                self.wf(),
                self.source@ == s,
                scan_from(s, 0, 1).tokens == models(self.tokens@) + scan_from(
                    s,
                    self.current as nat,
                    self.line as nat,
                ).tokens,
                scan_from(s, 0, 1).line == scan_from(s, self.current as nat, self.line as nat).line,
                scan_from(s, 0, 1).error == (perr || scan_from(
                    s,
                    self.current as nat,
                    self.line as nat,
                ).error),
                self.error.had_error == (err0 || perr),
            decreases s.len() - self.current,
        {
            // We are at the beginning of the next lexeme.
            self.start = self.current;
            let ghost pre = *self;
            self.scan_token();
            proof {
                let st = scan_step(s, pre.current as nat, pre.line as nat);
                lemma_step_bounds(s, pre.current as nat, pre.line as nat);
                let rest = scan_from(s, st.next, st.line);
                match st.token {
                    Some(t) => {
                        assert(models(pre.tokens@).push(t) + rest.tokens =~= models(pre.tokens@) + (
                        seq![t] + rest.tokens));
                    },
                    None => {
                        assert(models(pre.tokens@) + rest.tokens =~= models(pre.tokens@) + (
                        Seq::<TokenModel>::empty() + rest.tokens));
                    },
                }
                perr = perr || st.error;
            }
        }
        let eof = Token::new(
            TokenType::EOF,
            std::string::String::new(),
            std::string::String::new(),
            self.line,
        );
        proof {
            lemma_models_push(self.tokens@, eof);
        }
        self.tokens.push(eof);
        clone_tokens(&self.tokens)
    }

    fn scan_token(&mut self)
        requires
            old(self).wf(),
            old(self).start == old(self).current,
            old(self).current < old(self).source@.len(),
        ensures
            final(self).wf(),
            final(self).current == scan_step(
                old(self).source@,
                old(self).current as nat,
                old(self).line as nat,
            ).next,
            final(self).line == scan_step(
                old(self).source@,
                old(self).current as nat,
                old(self).line as nat,
            ).line,
            models(final(self).tokens@) == (match scan_step(
                old(self).source@,
                old(self).current as nat,
                old(self).line as nat,
            ).token {
                Some(t) => models(old(self).tokens@).push(t),
                None => models(old(self).tokens@),
            }),
            final(self).error.had_error == (old(self).error.had_error || scan_step(
                old(self).source@,
                old(self).current as nat,
                old(self).line as nat,
            ).error),
            final(self).source@ == old(self).source@,
            final(self).start == old(self).start,
    {
        let ghost s = self.source@;
        let ghost i = self.current as nat;
        let c = self.advance();
        match c {
            '(' => self.add_token(TokenType::LeftParen),
            ')' => self.add_token(TokenType::RightParen),
            '{' => self.add_token(TokenType::LeftBrace),
            '}' => self.add_token(TokenType::RightBrace),
            ',' => self.add_token(TokenType::Comma),
            '.' => self.add_token(TokenType::Dot),
            '-' => self.add_token(TokenType::Minus),
            '+' => self.add_token(TokenType::Plus),
            ';' => self.add_token(TokenType::SemiColon),
            '*' => self.add_token(TokenType::Star),
            '!' => {
                if self.match_char('=') {
                    self.add_token(TokenType::BangEqual);
                } else {
                    self.add_token(TokenType::Bang);
                }
            },
            '=' => {
                if self.match_char('=') {
                    self.add_token(TokenType::EqualEqual);
                } else {
                    self.add_token(TokenType::Equal);
                }
            },
            '<' => {
                if self.match_char('=') {
                    self.add_token(TokenType::LessEqual);
                } else {
                    self.add_token(TokenType::Less);
                }
            },
            '>' => {
                if self.match_char('=') {
                    self.add_token(TokenType::GreaterEqual);
                } else {
                    self.add_token(TokenType::Greater);
                }
            },
            '/' => {
                if self.match_char('/') {
                    // A comment goes until the end of the line.
                    proof {
                        lemma_comment_end(s, i + 2);
                    }
                    while self.peek() != '\n' && !self.is_at_end()
                        invariant
                            self.wf(),
                            self.source@ == s,
                            self.start as nat == i,
                            i + 2 <= self.current <= comment_end(s, i + 2),
                            comment_end(s, self.current as nat) == comment_end(s, i + 2),
                            self.line == old(self).line,
                            self.tokens@ == old(self).tokens@,
                            self.error == old(self).error,
                        decreases s.len() - self.current,
                    {
                        proof {
                            lemma_comment_end(s, self.current as nat + 1);
                        }
                        self.advance();
                    }
                } else {
                    self.add_token(TokenType::Slash);
                }
            },
            ' ' | '\r' | '\t' => {
                // Whitespace produces no token.
            },
            '\n' => {
                self.line = self.line + 1;
            },
            '"' => self.string(),
            _ => {
                if self.is_digit(c) {
                    self.number();
                } else if self.is_alpha(c) {
                    self.identifier();
                } else {
                    self.error.error(self.line, "Unexpected character.");
                }
            },
        }
    }

    fn string(&mut self)
        requires
            old(self).wf(),
            old(self).current == old(self).start + 1,
            old(self).start < old(self).source@.len(),
            old(self).source@[old(self).start as int] == '"',
        ensures
            final(self).wf(),
            final(self).current == string_step(
                old(self).source@,
                old(self).start as nat,
                old(self).line as nat,
            ).next,
            final(self).line == string_step(
                old(self).source@,
                old(self).start as nat,
                old(self).line as nat,
            ).line,
            models(final(self).tokens@) == (match string_step(
                old(self).source@,
                old(self).start as nat,
                old(self).line as nat,
            ).token {
                Some(t) => models(old(self).tokens@).push(t),
                None => models(old(self).tokens@),
            }),
            final(self).error.had_error == (old(self).error.had_error || string_step(
                old(self).source@,
                old(self).start as nat,
                old(self).line as nat,
            ).error),
            final(self).source@ == old(self).source@,
            final(self).start == old(self).start,
    {
        let ghost s = self.source@;
        let ghost i = self.start as nat;
        let ghost line0 = self.line as nat;
        let ghost t0 = self.tokens@;
        let ghost e0 = self.error;
        proof {
            lemma_string_end(s, i + 1);
        }
        while self.peek() != '"' && !self.is_at_end()
            invariant
                self.wf(),
                self.source@ == s,
                self.start as nat == i,
                i + 1 <= self.current <= string_end(s, i + 1),
                string_end(s, self.current as nat) == string_end(s, i + 1),
                self.line as nat == line0 + newlines_in(s, i + 1, self.current as nat),
                self.tokens@ == t0,
                self.error == e0,
                line0 <= i + 2,
            decreases s.len() - self.current,
        {
            proof {
                lemma_string_end(s, self.current as nat + 1);
                lemma_newlines_snoc(s, i + 1, self.current as nat);
            }
            let c = self.advance();
            if c == '\n' {
                self.line = self.line + 1;
            }
        }
        if self.is_at_end() {
            self.error.error(self.line, "Unterminated string.");
            return;
        }
        // The closing quote.
        self.advance();
        // Trim the surrounding quotes.
        let value = self.source.as_str().substring_char(self.start + 1, self.current - 1).to_owned();
        self.add_token_literal(TokenType::String, value);
    }

    fn number(&mut self)
        requires
            old(self).wf(),
            old(self).current == old(self).start + 1,
            old(self).start < old(self).source@.len(),
            is_digit_char(old(self).source@[old(self).start as int]),
        ensures
            final(self).wf(),
            final(self).current == number_step(
                old(self).source@,
                old(self).start as nat,
                old(self).line as nat,
            ).next,
            final(self).line == old(self).line,
            models(final(self).tokens@) == (match number_step(
                old(self).source@,
                old(self).start as nat,
                old(self).line as nat,
            ).token {
                Some(t) => models(old(self).tokens@).push(t),
                None => models(old(self).tokens@),
            }),
            final(self).error == old(self).error,
            final(self).source@ == old(self).source@,
            final(self).start == old(self).start,
    {
        let ghost s = self.source@;
        let ghost i = self.start as nat;
        proof {
            lemma_digits_end(s, i + 1);
        }
        while self.is_digit(self.peek())
            invariant
                self.wf(),
                self.source@ == s,
                self.start as nat == i,
                i + 1 <= self.current <= digits_end(s, i + 1),
                digits_end(s, self.current as nat) == digits_end(s, i + 1),
                self.line == old(self).line,
                self.tokens@ == old(self).tokens@,
                self.error == old(self).error,
            decreases s.len() - self.current,
        {
            proof {
                lemma_digits_end(s, self.current as nat + 1);
            }
            self.advance();
        }
        let ghost j = digits_end(s, i + 1);
        assert(self.current as nat == j);
        // Look for a fractional part: only consumed when a digit follows the dot.
        if self.peek() == '.' && self.is_digit(self.peek_next()) {
            // Consume the dot.
            self.advance();
            proof {
                lemma_digits_end(s, j + 1);
            }
            while self.is_digit(self.peek())
                invariant
                    self.wf(),
                    self.source@ == s,
                    self.start as nat == i,
                    j + 1 <= self.current <= digits_end(s, j + 1),
                    digits_end(s, self.current as nat) == digits_end(s, j + 1),
                    self.line == old(self).line,
                    self.tokens@ == old(self).tokens@,
                    self.error == old(self).error,
                decreases s.len() - self.current,
            {
                proof {
                    lemma_digits_end(s, self.current as nat + 1);
                }
                self.advance();
            }
        }
        let value = self.source.as_str().substring_char(self.start, self.current).to_owned();
        self.add_token_literal(TokenType::Number, value);
    }

    fn identifier(&mut self)
        requires
            old(self).wf(),
            old(self).current == old(self).start + 1,
            old(self).start < old(self).source@.len(),
            is_alpha_char(old(self).source@[old(self).start as int]),
        ensures
            final(self).wf(),
            final(self).current == identifier_step(
                old(self).source@,
                old(self).start as nat,
                old(self).line as nat,
            ).next,
            final(self).line == old(self).line,
            models(final(self).tokens@) == (match identifier_step(
                old(self).source@,
                old(self).start as nat,
                old(self).line as nat,
            ).token {
                Some(t) => models(old(self).tokens@).push(t),
                None => models(old(self).tokens@),
            }),
            final(self).error == old(self).error,
            final(self).source@ == old(self).source@,
            final(self).start == old(self).start,
    {
        let ghost s = self.source@;
        let ghost i = self.start as nat;
        proof {
            lemma_ident_end(s, i + 1);
        }
        while self.is_alpha_numeric(self.peek())
            invariant
                self.wf(),
                self.source@ == s,
                self.start as nat == i,
                i + 1 <= self.current <= ident_end(s, i + 1),
                ident_end(s, self.current as nat) == ident_end(s, i + 1),
                self.line == old(self).line,
                self.tokens@ == old(self).tokens@,
                self.error == old(self).error,
            decreases s.len() - self.current,
        {
            proof {
                lemma_ident_end(s, self.current as nat + 1);
            }
            self.advance();
        }
        let text = self.source.as_str().substring_char(self.start, self.current).to_owned();
        match Scanner::keyword_token(&text) {
            Some(token_type) => self.add_token(token_type),
            None => self.add_token(TokenType::Identifier),
        }
    }

    /// The keyword table: an exact, case-sensitive, whole-lexeme match of one
    /// of the reserved spellings, and nothing else.
    fn keyword_token(text: &std::string::String) -> (r: Option<TokenType>)
        ensures
            r == keyword_kind(text@),
    {
        if str_eq(text, "and") {
            Some(TokenType::And)
        } else if str_eq(text, "class") {
            Some(TokenType::Class)
        } else if str_eq(text, "else") {
            Some(TokenType::Else)
        } else if str_eq(text, "false") {
            Some(TokenType::False)
        } else if str_eq(text, "for") {
            Some(TokenType::For)
        } else if str_eq(text, "if") {
            Some(TokenType::If)
        } else if str_eq(text, "nil") {
            Some(TokenType::Nil)
        } else if str_eq(text, "or") {
            Some(TokenType::Or)
        } else if str_eq(text, "print") {
            Some(TokenType::Print)
        } else if str_eq(text, "return") {
            Some(TokenType::Return)
        } else if str_eq(text, "super") {
            Some(TokenType::Super)
        } else if str_eq(text, "this") {
            Some(TokenType::This)
        } else if str_eq(text, "true") {
            Some(TokenType::True)
        } else if str_eq(text, "var") {
            Some(TokenType::Var)
        } else if str_eq(text, "while") {
            Some(TokenType::While)
        } else {
            None
        }
    }

    fn is_digit(&self, c: char) -> (r: bool)
        ensures
            r == is_digit_char(c),
    {
        c >= '0' && c <= '9'
    }

    fn is_alpha(&self, c: char) -> (r: bool)
        ensures
            r == is_alpha_char(c),
    {
        (c >= 'a' && c <= 'z') || (c >= 'A' && c <= 'Z') || c == '_'
    }

    fn is_alpha_numeric(&self, c: char) -> (r: bool)
        ensures
            r == is_alnum_char(c),
    {
        self.is_alpha(c) || self.is_digit(c)
    }
}

/// A fresh vector holding a copy of every token, in order.
fn clone_tokens(ts: &Vec<Token>) -> (r: Vec<Token>)
    ensures
        models(r@) == models(ts@),
{
    let mut r: Vec<Token> = Vec::new();
    let mut k: usize = 0;
    while k < ts.len()
        invariant
            k <= ts@.len(),
            r@.len() == k,
            forall|m: int| 0 <= m < k ==> r@[m]@ == ts@[m]@,
        decreases ts@.len() - k,
    {
        r.push(ts[k].clone());
        k = k + 1;
    }
    proof {
        assert(models(r@) =~= models(ts@));
    }
    r
}

/// Character-for-character equality of a produced lexeme with a fixed
/// spelling.
fn str_eq(a: &std::string::String, b: &str) -> (r: bool)
    ensures
        r == (a@ == b@),
{
    a.eq(&b.to_owned())
}

} // verus!
