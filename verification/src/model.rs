//! The mathematical model of scanning: spec functions that define, for any
//! input character sequence, the exact token sequence, final line number and
//! error outcome of one full pass.

use vstd::prelude::*;
use crate::token::{Token, TokenModel, TokenType};

verus! {

/// A decimal digit.
pub open spec fn is_digit_char(c: char) -> bool {
    '0' <= c && c <= '9'
}

/// An ASCII letter or underscore: what may begin an identifier.
pub open spec fn is_alpha_char(c: char) -> bool {
    ('a' <= c && c <= 'z') || ('A' <= c && c <= 'Z') || c == '_'
}

/// A character that may continue an identifier.
pub open spec fn is_alnum_char(c: char) -> bool {
    is_alpha_char(c) || is_digit_char(c)
}

/// First position at or after `i` holding a newline, or the input's length
/// when no newline follows: where a line comment stops consuming.
pub open spec fn comment_end(s: Seq<char>, i: nat) -> nat
    decreases s.len() - i,
{
    if i >= s.len() {
        s.len()
    } else if s[i as int] == '\n' {
        i
    } else {
        comment_end(s, i + 1)
    }
}

/// First position at or after `i` holding a double quote, or the input's
/// length when the literal is unterminated.
pub open spec fn string_end(s: Seq<char>, i: nat) -> nat
    decreases s.len() - i,
{
    if i >= s.len() {
        s.len()
    } else if s[i as int] == '"' {
        i
    } else {
        string_end(s, i + 1)
    }
}

/// First position at or after `i` holding a non-digit, or the input's length.
pub open spec fn digits_end(s: Seq<char>, i: nat) -> nat
    decreases s.len() - i,
{
    if i >= s.len() {
        s.len()
    } else if !is_digit_char(s[i as int]) {
        i
    } else {
        digits_end(s, i + 1)
    }
}

/// First position at or after `i` holding a character that cannot continue an
/// identifier, or the input's length.
pub open spec fn ident_end(s: Seq<char>, i: nat) -> nat
    decreases s.len() - i,
{
    if i >= s.len() {
        s.len()
    } else if !is_alnum_char(s[i as int]) {
        i
    } else {
        ident_end(s, i + 1)
    }
}

/// The number of newline characters among `s[i..j)`.
pub open spec fn newlines_in(s: Seq<char>, i: nat, j: nat) -> nat
    decreases j - i,
{
    if i >= j || i >= s.len() {
        0
    } else {
        (if s[i as int] == '\n' { 1nat } else { 0nat }) + newlines_in(s, i + 1, j)
    }
}

pub proof fn lemma_comment_end(s: Seq<char>, i: nat)
    requires
        i <= s.len(),
    ensures
        i <= comment_end(s, i) <= s.len(),
        forall|j: int| i <= j < comment_end(s, i) ==> s[j] != '\n',
        comment_end(s, i) < s.len() ==> s[comment_end(s, i) as int] == '\n',
    decreases s.len() - i,
{
    if i < s.len() && s[i as int] != '\n' {
        lemma_comment_end(s, i + 1);
    }
}

pub proof fn lemma_string_end(s: Seq<char>, i: nat)
    requires
        i <= s.len(),
    ensures
        i <= string_end(s, i) <= s.len(),
        forall|j: int| i <= j < string_end(s, i) ==> s[j] != '"',
        string_end(s, i) < s.len() ==> s[string_end(s, i) as int] == '"',
    decreases s.len() - i,
{
    if i < s.len() && s[i as int] != '"' {
        lemma_string_end(s, i + 1);
    }
}

pub proof fn lemma_digits_end(s: Seq<char>, i: nat)
    requires
        i <= s.len(),
    ensures
        i <= digits_end(s, i) <= s.len(),
        forall|j: int| i <= j < digits_end(s, i) ==> is_digit_char(s[j]),
        digits_end(s, i) < s.len() ==> !is_digit_char(s[digits_end(s, i) as int]),
    decreases s.len() - i,
{
    if i < s.len() && is_digit_char(s[i as int]) {
        lemma_digits_end(s, i + 1);
    }
}

pub proof fn lemma_ident_end(s: Seq<char>, i: nat)
    requires
        i <= s.len(),
    ensures
        i <= ident_end(s, i) <= s.len(),
        forall|j: int| i <= j < ident_end(s, i) ==> is_alnum_char(s[j]),
        ident_end(s, i) < s.len() ==> !is_alnum_char(s[ident_end(s, i) as int]),
    decreases s.len() - i,
{
    if i < s.len() && is_alnum_char(s[i as int]) {
        lemma_ident_end(s, i + 1);
    }
}

/// Counting newlines over a range one longer: the count grows by one exactly
/// when the added character is a newline.
pub proof fn lemma_newlines_snoc(s: Seq<char>, i: nat, j: nat)
    requires
        i <= j < s.len(),
    ensures
        newlines_in(s, i, j + 1) == newlines_in(s, i, j) + (
        if s[j as int] == '\n' {
            1nat
        } else {
            0nat
        }),
    decreases j - i,
{
    if i < j {
        lemma_newlines_snoc(s, i + 1, j);
    } else {
        assert(newlines_in(s, j + 1, j + 1) == 0);
    }
}

/// Newline counts add over adjacent ranges.
pub proof fn lemma_newlines_split(s: Seq<char>, a: nat, b: nat, c: nat)
    requires
        a <= b <= c,
    ensures
        newlines_in(s, a, c) == newlines_in(s, a, b) + newlines_in(s, b, c),
    decreases b - a,
{
    if a < b {
        if a < s.len() {
            lemma_newlines_split(s, a + 1, b, c);
        } else {
            lemma_newlines_empty(s, a, b);
            lemma_newlines_empty(s, a, c);
            lemma_newlines_empty(s, b, c);
        }
    }
}

/// Past the end of the input no newlines are counted.
pub proof fn lemma_newlines_empty(s: Seq<char>, i: nat, j: nat)
    requires
        i >= s.len(),
    ensures
        newlines_in(s, i, j) == 0,
    decreases j - i,
{
    if i < j {
        lemma_newlines_empty(s, i + 1, j);
    }
}

/// The newline count of a range never exceeds the range's length.
pub proof fn lemma_newlines_bound(s: Seq<char>, i: nat, j: nat)
    requires
        i <= j,
    ensures
        newlines_in(s, i, j) <= j - i,
    decreases j - i,
{
    if i < j && i < s.len() {
        lemma_newlines_bound(s, i + 1, j);
    } else if i < j {
        lemma_newlines_empty(s, i, j);
    }
}

/// A range free of newline characters counts zero newlines.
pub proof fn lemma_newlines_none(s: Seq<char>, i: nat, j: nat)
    requires
        forall|k: int| i <= k < j ==> s[k] != '\n',
    ensures
        newlines_in(s, i, j) == 0,
    decreases j - i,
{
    if i < j && i < s.len() {
        lemma_newlines_none(s, i + 1, j);
    }
}

/// The reserved-word table: an exact, case-sensitive, whole-lexeme match of
/// one of the fifteen keyword spellings, and nothing else.
pub open spec fn keyword_kind(s: Seq<char>) -> Option<TokenType> {
    if s == "and"@ {
        Some(TokenType::And)
    } else if s == "class"@ {
        Some(TokenType::Class)
    } else if s == "else"@ {
        Some(TokenType::Else)
    } else if s == "false"@ {
        Some(TokenType::False)
    } else if s == "for"@ {
        Some(TokenType::For)
    } else if s == "if"@ {
        Some(TokenType::If)
    } else if s == "nil"@ {
        Some(TokenType::Nil)
    } else if s == "or"@ {
        Some(TokenType::Or)
    } else if s == "print"@ {
        Some(TokenType::Print)
    } else if s == "return"@ {
        Some(TokenType::Return)
    } else if s == "super"@ {
        Some(TokenType::Super)
    } else if s == "this"@ {
        Some(TokenType::This)
    } else if s == "true"@ {
        Some(TokenType::True)
    } else if s == "var"@ {
        Some(TokenType::Var)
    } else if s == "while"@ {
        Some(TokenType::While)
    } else {
        None
    }
}

/// The outcome of scanning one lexeme: where the cursor and line counter
/// stand afterwards, the token emitted (if any), and whether a lexical error
/// was reported.
pub ghost struct ScanStep {
    pub next: nat,
    pub line: nat,
    pub token: Option<TokenModel>,
    pub error: bool,
}

/// A token of `width` characters starting at `i`, carrying no literal.
pub open spec fn plain_step(s: Seq<char>, i: nat, line: nat, kind: TokenType, width: nat) -> ScanStep {
    ScanStep {
        next: i + width,
        line,
        token: Some(
            TokenModel {
                kind,
                lexeme: s.subrange(i as int, (i + width) as int),
                literal: Seq::empty(),
                line,
            },
        ),
        error: false,
    }
}

/// Greedy one-character lookahead: the two-character operator when an equals
/// sign follows, else the one-character form.
pub open spec fn operator_step(s: Seq<char>, i: nat, line: nat, two: TokenType, one: TokenType) -> ScanStep {
    if i + 1 < s.len() && s[i as int + 1] == '=' {
        plain_step(s, i, line, two, 2)
    } else {
        plain_step(s, i, line, one, 1)
    }
}

/// A string literal opened at `i`: consumed through the closing quote, with
/// the literal being the text strictly between the quotes, or reported as an
/// unterminated-string error (no token) when the input ends first. Newlines
/// inside the literal advance the line counter either way, and the token's
/// line is the line the literal ends on.
pub open spec fn string_step(s: Seq<char>, i: nat, line: nat) -> ScanStep {
    let close = string_end(s, i + 1);
    if close >= s.len() {
        ScanStep {
            next: s.len(),
            line: line + newlines_in(s, i + 1, s.len()),
            token: None,
            error: true,
        }
    } else {
        let end_line = line + newlines_in(s, i + 1, close);
        ScanStep {
            next: close + 1,
            line: end_line,
            token: Some(
                TokenModel {
                    kind: TokenType::String,
                    lexeme: s.subrange(i as int, close as int + 1),
                    literal: s.subrange(i as int + 1, close as int),
                    line: end_line,
                },
            ),
            error: false,
        }
    }
}

/// A number opened by the digit at `i`: the maximal digit run, extended past
/// a dot only when a digit directly follows it — a trailing dot is left for
/// the next lexeme. The literal is the consumed digit span itself.
pub open spec fn number_step(s: Seq<char>, i: nat, line: nat) -> ScanStep {
    let j = digits_end(s, i + 1);
    let next = if j < s.len() && s[j as int] == '.' && j + 1 < s.len() && is_digit_char(
        s[j as int + 1],
    ) {
        digits_end(s, j + 1)
    } else {
        j
    };
    ScanStep {
        next,
        line,
        token: Some(
            TokenModel {
                kind: TokenType::Number,
                lexeme: s.subrange(i as int, next as int),
                literal: s.subrange(i as int, next as int),
                line,
            },
        ),
        error: false,
    }
}

/// An identifier or keyword opened by the letter or underscore at `i`: the
/// maximal alphanumeric run, classified by the keyword table.
pub open spec fn identifier_step(s: Seq<char>, i: nat, line: nat) -> ScanStep {
    let j = ident_end(s, i + 1);
    let text = s.subrange(i as int, j as int);
    let kind = match keyword_kind(text) {
        Some(k) => k,
        None => TokenType::Identifier,
    };
    ScanStep {
        next: j,
        line,
        token: Some(TokenModel { kind, lexeme: text, literal: Seq::empty(), line }),
        error: false,
    }
}

/// Dispatch on the character at `i`: one lexeme of the source language, or a
/// skipped comment, skipped whitespace, a counted newline, or an
/// unexpected-character error consuming exactly that character.
pub open spec fn scan_step(s: Seq<char>, i: nat, line: nat) -> ScanStep
    recommends
        i < s.len(),
{
    let c = s[i as int];
    if c == '(' {
        plain_step(s, i, line, TokenType::LeftParen, 1)
    } else if c == ')' {
        plain_step(s, i, line, TokenType::RightParen, 1)
    } else if c == '{' {
        plain_step(s, i, line, TokenType::LeftBrace, 1)
    } else if c == '}' {
        plain_step(s, i, line, TokenType::RightBrace, 1)
    } else if c == ',' {
        plain_step(s, i, line, TokenType::Comma, 1)
    } else if c == '.' {
        plain_step(s, i, line, TokenType::Dot, 1)
    } else if c == '-' {
        plain_step(s, i, line, TokenType::Minus, 1)
    } else if c == '+' {
        plain_step(s, i, line, TokenType::Plus, 1)
    } else if c == ';' {
        plain_step(s, i, line, TokenType::SemiColon, 1)
    } else if c == '*' {
        plain_step(s, i, line, TokenType::Star, 1)
    } else if c == '!' {
        operator_step(s, i, line, TokenType::BangEqual, TokenType::Bang)
    } else if c == '=' {
        operator_step(s, i, line, TokenType::EqualEqual, TokenType::Equal)
    } else if c == '<' {
        operator_step(s, i, line, TokenType::LessEqual, TokenType::Less)
    } else if c == '>' {
        operator_step(s, i, line, TokenType::GreaterEqual, TokenType::Greater)
    } else if c == '/' {
        if i + 1 < s.len() && s[i as int + 1] == '/' {
            ScanStep { next: comment_end(s, i + 2), line, token: None, error: false }
        } else {
            plain_step(s, i, line, TokenType::Slash, 1)
        }
    } else if c == ' ' || c == '\r' || c == '\t' {
        ScanStep { next: i + 1, line, token: None, error: false }
    } else if c == '\n' {
        ScanStep { next: i + 1, line: line + 1, token: None, error: false }
    } else if c == '"' {
        string_step(s, i, line)
    } else if is_digit_char(c) {
        number_step(s, i, line)
    } else if is_alpha_char(c) {
        identifier_step(s, i, line)
    } else {
        ScanStep { next: i + 1, line, token: None, error: true }
    }
}

/// Every step consumes at least one character and never runs past the end:
/// a scan always terminates.
pub proof fn lemma_step_bounds(s: Seq<char>, i: nat, line: nat)
    requires
        i < s.len(),
    ensures
        i < scan_step(s, i, line).next <= s.len(),
{
    let c = s[i as int];
    if c == '/' && i + 1 < s.len() && s[i as int + 1] == '/' {
        lemma_comment_end(s, i + 2);
    } else if c == '"' {
        lemma_string_end(s, i + 1);
    } else if is_digit_char(c) {
        let j = digits_end(s, i + 1);
        lemma_digits_end(s, i + 1);
        if j < s.len() && s[j as int] == '.' && j + 1 < s.len() && is_digit_char(s[j as int + 1]) {
            lemma_digits_end(s, j + 1);
        }
    } else if is_alpha_char(c) && c != '"' {
        lemma_ident_end(s, i + 1);
    }
}

/// The outcome of a whole pass from position `i` on: every token produced,
/// the final line counter, and whether any lexical error was reported.
pub ghost struct ScanResult {
    pub tokens: Seq<TokenModel>,
    pub line: nat,
    pub error: bool,
}

/// Scanning to the end of the input, one lexeme at a time.
pub open spec fn scan_from(s: Seq<char>, i: nat, line: nat) -> ScanResult
    decreases s.len() - i,
    via scan_from_decreases
{
    if i >= s.len() {
        ScanResult { tokens: Seq::empty(), line, error: false }
    } else {
        let st = scan_step(s, i, line);
        let rest = scan_from(s, st.next, st.line);
        ScanResult {
            tokens: (match st.token {
                Some(t) => seq![t],
                None => Seq::empty(),
            }) + rest.tokens,
            line: rest.line,
            error: st.error || rest.error,
        }
    }
}

#[via_fn]
proof fn scan_from_decreases(s: Seq<char>, i: nat, line: nat) {
    if i < s.len() {
        lemma_step_bounds(s, i, line);
    }
}

/// The closing token of every scan: kind `EOF`, empty lexeme and literal, at
/// the final value of the line counter.
pub open spec fn eof_model(line: nat) -> TokenModel {
    TokenModel { kind: TokenType::EOF, lexeme: Seq::empty(), literal: Seq::empty(), line }
}

/// The full token sequence one scan of `s` returns: every token of the pass,
/// then exactly one `EOF` token.
pub open spec fn scan_output(s: Seq<char>) -> Seq<TokenModel> {
    scan_from(s, 0, 1).tokens.push(eof_model(scan_from(s, 0, 1).line))
}

/// Whether one scan of `s` reports any lexical error.
pub open spec fn scan_had_error(s: Seq<char>) -> bool {
    scan_from(s, 0, 1).error
}

/// The models of a sequence of produced tokens.
pub open spec fn models(ts: Seq<Token>) -> Seq<TokenModel> {
    ts.map_values(|t: Token| t@)
}

pub proof fn lemma_models_push(ts: Seq<Token>, t: Token)
    ensures
        models(ts.push(t)) == models(ts).push(t@),
{
    assert(models(ts.push(t)) =~= models(ts).push(t@));
}

/// No step of the pass proper ever emits an end-of-input token.
proof fn lemma_step_no_eof(s: Seq<char>, i: nat, line: nat)
    requires
        i < s.len(),
    ensures
        match scan_step(s, i, line).token {
            Some(t) => t.kind != TokenType::EOF,
            None => true,
        },
{
}

proof fn lemma_scan_from_no_eof(s: Seq<char>, i: nat, line: nat)
    ensures
        forall|k: int|
            0 <= k < scan_from(s, i, line).tokens.len() ==> scan_from(
                s,
                i,
                line,
            ).tokens[k].kind != TokenType::EOF,
    decreases s.len() - i,
{
    if i < s.len() {
        lemma_step_bounds(s, i, line);
        lemma_step_no_eof(s, i, line);
        let st = scan_step(s, i, line);
        lemma_scan_from_no_eof(s, st.next, st.line);
    }
}

/// The output of one scan holds exactly one end-of-input token, and it is
/// the last element of the sequence.
pub proof fn lemma_single_end_of_input(s: Seq<char>)
    ensures
        scan_output(s).len() >= 1,
        scan_output(s).last().kind == TokenType::EOF,
        forall|k: int|
            0 <= k < scan_output(s).len() - 1 ==> scan_output(s)[k].kind != TokenType::EOF,
{
    lemma_scan_from_no_eof(s, 0, 1);
}

/// One step advances the line counter by exactly the newlines it consumes.
proof fn lemma_step_line(s: Seq<char>, i: nat, line: nat)
    requires
        i < s.len(),
    ensures
        scan_step(s, i, line).line == line + newlines_in(s, i, scan_step(s, i, line).next),
{
    let c = s[i as int];
    let st = scan_step(s, i, line);
    lemma_step_bounds(s, i, line);
    if c == '\n' {
        assert(newlines_in(s, i + 1, i + 1) == 0);
        assert(newlines_in(s, i, i + 1) == 1);
    } else if c == '"' {
        let close = string_end(s, i + 1);
        lemma_string_end(s, i + 1);
        if close >= s.len() {
            lemma_newlines_split(s, i, i + 1, s.len());
            assert(newlines_in(s, i + 1, i + 1) == 0);
            assert(newlines_in(s, i, i + 1) == 0);
        } else {
            lemma_newlines_split(s, i, i + 1, close + 1);
            assert(newlines_in(s, i + 1, i + 1) == 0);
            assert(newlines_in(s, i, i + 1) == 0);
            lemma_newlines_snoc(s, i + 1, close);
        }
    } else {
        // Every other step consumes no newline at all.
        assert(newlines_in(s, i, st.next) == 0) by {
            if c == '/' && i + 1 < s.len() && s[i as int + 1] == '/' {
                lemma_comment_end(s, i + 2);
                lemma_newlines_none(s, i, st.next);
            } else if is_digit_char(c) && c != '/' {
                let j = digits_end(s, i + 1);
                lemma_digits_end(s, i + 1);
                if j < s.len() && s[j as int] == '.' && j + 1 < s.len() && is_digit_char(
                    s[j as int + 1],
                ) {
                    lemma_digits_end(s, j + 1);
                }
                lemma_newlines_none(s, i, st.next);
            } else if is_alpha_char(c) && c != '/' {
                lemma_ident_end(s, i + 1);
                lemma_newlines_none(s, i, st.next);
            } else {
                lemma_newlines_none(s, i, st.next);
            }
        }
    }
}

proof fn lemma_scan_from_line(s: Seq<char>, i: nat, line: nat)
    requires
        i <= s.len(),
    ensures
        scan_from(s, i, line).line == line + newlines_in(s, i, s.len()),
    decreases s.len() - i,
{
    if i >= s.len() {
        lemma_newlines_empty(s, i, s.len());
    } else {
        lemma_step_bounds(s, i, line);
        lemma_step_line(s, i, line);
        let st = scan_step(s, i, line);
        lemma_scan_from_line(s, st.next, st.line);
        lemma_newlines_split(s, i, st.next, s.len());
    }
}

/// The final token's reported line is one more than the number of newline
/// characters in the input.
pub proof fn lemma_final_line(s: Seq<char>)
    ensures
        scan_output(s).last().line == 1 + newlines_in(s, 0, s.len()),
{
    lemma_scan_from_line(s, 0, 1);
}

/// Input from `i` on that holds nothing but whitespace, newlines and line
/// comments.
pub open spec fn blank_from(s: Seq<char>, i: nat) -> bool
    decreases s.len() - i,
    via blank_from_decreases
{
    if i >= s.len() {
        true
    } else {
        let c = s[i as int];
        if c == ' ' || c == '\r' || c == '\t' || c == '\n' {
            blank_from(s, i + 1)
        } else if c == '/' && i + 1 < s.len() && s[i as int + 1] == '/' {
            blank_from(s, comment_end(s, i + 2))
        } else {
            false
        }
    }
}

#[via_fn]
proof fn blank_from_decreases(s: Seq<char>, i: nat) {
    if i < s.len() && i + 1 < s.len() {
        lemma_comment_end(s, i + 2);
    }
}

/// Whitespace-only and comment-only input produces no tokens and no errors:
/// a scan of it emits nothing before the end-of-input token.
pub proof fn lemma_blank_input(s: Seq<char>, i: nat, line: nat)
    requires
        i <= s.len(),
        blank_from(s, i),
    ensures
        scan_from(s, i, line).tokens == Seq::<TokenModel>::empty(),
        !scan_from(s, i, line).error,
    decreases s.len() - i,
{
    if i < s.len() {
        lemma_step_bounds(s, i, line);
        let st = scan_step(s, i, line);
        lemma_blank_input(s, st.next, st.line);
        assert(scan_from(s, i, line).tokens =~= Seq::<TokenModel>::empty());
    }
}

/// A scan of whitespace-only or comment-only input returns the end-of-input
/// token alone, with the had-error flag untouched.
pub proof fn lemma_blank_source(s: Seq<char>)
    requires
        blank_from(s, 0),
    ensures
        scan_output(s) == seq![eof_model(1 + newlines_in(s, 0, s.len()))],
        !scan_had_error(s),
{
    lemma_blank_input(s, 0, 1);
    lemma_scan_from_line(s, 0, 1);
    assert(scan_output(s) =~= seq![eof_model(1 + newlines_in(s, 0, s.len()))]);
}

/// A lexeme shaped like an identifier: a letter or underscore followed by
/// letters, digits and underscores.
pub open spec fn identifier_shaped(s: Seq<char>) -> bool {
    s.len() > 0 && is_alpha_char(s[0]) && (forall|k: int| 0 < k < s.len() ==> is_alnum_char(s[k]))
}

/// Keywords are recognized only as an exact, case-sensitive, whole-lexeme
/// match: an identifier-shaped input scans to a single token whose kind is
/// the keyword table's verdict, and `Identifier` for every other spelling.
pub proof fn lemma_keyword_whole_lexeme(s: Seq<char>)
    requires
        identifier_shaped(s),
    ensures
        scan_output(s).len() == 2,
        scan_output(s)[0] == (TokenModel {
            kind: match keyword_kind(s) {
                Some(k) => k,
                None => TokenType::Identifier,
            },
            lexeme: s,
            literal: Seq::<char>::empty(),
            line: 1,
        }),
        !scan_had_error(s),
{
    lemma_ident_end(s, 1);
    assert(ident_end(s, 1) == s.len());
    assert(s.subrange(0, s.len() as int) =~= s);
    lemma_step_bounds(s, 0, 1);
    let st = identifier_step(s, 0, 1);
    assert(scan_step(s, 0, 1) == st);
    assert(st.next == s.len());
    assert(scan_from(s, st.next, st.line).tokens == Seq::<TokenModel>::empty());
    assert(!scan_from(s, st.next, st.line).error);
    assert(scan_from(s, 0, 1).tokens =~= seq![st.token->Some_0]);
    assert(scan_output(s)[0] == st.token->Some_0);
}

/// A number token never ends in a dot: a trailing dot is not consumed into a
/// malformed number, but left to scan as the next lexeme.
pub proof fn lemma_number_never_ends_in_dot(s: Seq<char>, i: nat, line: nat)
    requires
        i < s.len(),
        is_digit_char(s[i as int]),
    ensures
        scan_step(s, i, line) == number_step(s, i, line),
        number_step(s, i, line).token is Some,
        ({
            let lexeme = s.subrange(i as int, number_step(s, i, line).next as int);
            lexeme.len() > 0 && is_digit_char(lexeme.last()) && lexeme.last() != '.'
        }),
{
    let j = digits_end(s, i + 1);
    lemma_digits_end(s, i + 1);
    let next = number_step(s, i, line).next;
    if j < s.len() && s[j as int] == '.' && j + 1 < s.len() && is_digit_char(s[j as int + 1]) {
        lemma_digits_end(s, j + 1);
        assert(next > j + 1);
    }
    assert(is_digit_char(s.subrange(i as int, next as int).last()));
}

/// An input that ends inside an open string literal: the pass reports the
/// unterminated string and emits no token at all for that literal.
pub proof fn lemma_unterminated_string(s: Seq<char>, i: nat, line: nat)
    requires
        i < s.len(),
        s[i as int] == '"',
        forall|k: int| i < k < s.len() ==> s[k] != '"',
    ensures
        scan_from(s, i, line).tokens == Seq::<TokenModel>::empty(),
        scan_from(s, i, line).error,
{
    lemma_string_end(s, i + 1);
    assert(string_end(s, i + 1) == s.len());
    lemma_step_bounds(s, i, line);
    let st = scan_step(s, i, line);
    assert(st == string_step(s, i, line));
    assert(st.next == s.len() && st.token is None && st.error);
    assert(scan_from(s, st.next, st.line).tokens == Seq::<TokenModel>::empty());
    assert(scan_from(s, i, line).tokens =~= Seq::<TokenModel>::empty());
}

} // verus!
