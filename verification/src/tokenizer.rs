//! The lexer: turns source text into a stream of positioned tokens.
//!
//! Scanning never fails: unrecognized characters and malformed
//! literals become `Invalid` tokens, so the stream always runs to a
//! final, zero-width `Eof` token.  The whole scan is specified by the
//! recursive functions `spec_tokens` / `spec_scan` over the sequence
//! of source characters, and `Tokenizer::next_token` is proved to
//! produce exactly the tokens of that model.
//!
//! Scanning policies, stated once and for all:
//! - a radix prefix (`0b`, `0o`, `0x`) with no digit after it is an
//!   `Invalid` token;
//! - a float exponent needs at least one digit after its optional
//!   sign, otherwise the literal stops before the `e`;
//! - an unterminated string, and an escape other than `\"`, `\\`,
//!   `\n`, `\t`, `\r`, make the token `Invalid`;
//! - positions count characters, not bytes: a newline moves to the
//!   next line and resets the column to 0.

use vstd::prelude::*;

use crate::chars::{digit_val, is_digit, spec_alphabetic, spec_alphanumeric, spec_is_digit};

verus! {

/// The classification of a token.
#[derive(Clone, Copy, Debug, PartialEq, Eq, Structural)]
pub enum TokenKind {
    // literals
    DecLiteral,
    HexLiteral,
    OctLiteral,
    BinLiteral,
    FloatLiteral,
    ImaginaryLiteral,
    StringLiteral,
    Identifier,
    /// a lone underscore
    Special,
    // keywords
    KwordIf,
    KwordComp,
    KwordFn,
    KwordAnd,
    KwordOr,
    KwordNot,
    // arithmetics
    OpPlus,
    OpMinus,
    OpTimes,
    OpBy,
    OpMod,
    OpExponent,
    // bitwise
    Lshift,
    Rshift,
    Band,
    Bor,
    Bxor,
    Bnot,
    // access
    Dot,
    Pipe,
    Propagate,
    // comparisons
    OpEq,
    OpGe,
    OpGt,
    OpLe,
    OpLt,
    // delimiters
    Lparen,
    Rparen,
    Lbracket,
    Rbracket,
    Lbrace,
    Rbrace,
    // special
    Comma,
    Bar,
    Backslash,
    Appostrophe,
    Colon,
    Arrow,
    Binding,
    Positional,
    Comment,
    NewLine,
    Eof,
    Invalid,
}

/// A location in source text, ordered by line, then column.
#[derive(Clone, Copy, Debug, PartialEq, Eq, Structural, PartialOrd, Ord, Hash)]
pub struct Point {
    pub line: usize,
    pub column: usize,
}

/// A classified slice of source text: its kind, the exact characters
/// matched, and the positions bounding the match.
#[derive(Clone, Copy, Debug)]
pub struct Token<'a> {
    pub kind: TokenKind,
    pub value: &'a str,
    pub start: Point,
    pub end: Point,
}

/// The mathematical image of a [`Token`].
pub ghost struct SpecToken {
    pub kind: TokenKind,
    pub text: Seq<char>,
    pub start: Point,
    pub end: Point,
}

impl<'a> View for Token<'a> {
    type V = SpecToken;

    open spec fn view(&self) -> SpecToken {
        SpecToken { kind: self.kind, text: self.value@, start: self.start, end: self.end }
    }
}

// ---------------------------------------------------------------------------
// Positions
// ---------------------------------------------------------------------------
/// Line of the position reached after `i` characters of `s`.
pub open spec fn spec_line_at(s: Seq<char>, i: int) -> int
    decreases i,
{
    if i <= 0 {
        0
    } else if s[i - 1] == '\n' {
        spec_line_at(s, i - 1) + 1
    } else {
        spec_line_at(s, i - 1)
    }
}

/// Column of the position reached after `i` characters of `s`.
pub open spec fn spec_col_at(s: Seq<char>, i: int) -> int
    decreases i,
{
    if i <= 0 {
        0
    } else if s[i - 1] == '\n' {
        0
    } else {
        spec_col_at(s, i - 1) + 1
    }
}

/// The position reached after `i` characters of `s`.
pub open spec fn spec_point_at(s: Seq<char>, i: int) -> Point {
    Point { line: spec_line_at(s, i) as usize, column: spec_col_at(s, i) as usize }
}

pub proof fn lemma_point_bounds(s: Seq<char>, i: int)
    requires
        0 <= i,
    ensures
        0 <= spec_line_at(s, i) <= i,
        0 <= spec_col_at(s, i) <= i,
    decreases i,
{
    if i > 0 {
        lemma_point_bounds(s, i - 1);
    }
}

// ---------------------------------------------------------------------------
// The scan, one class of characters at a time
// ---------------------------------------------------------------------------
/// Blank characters skipped between tokens (a newline is a token).
pub open spec fn spec_is_space(c: char) -> bool {
    c == ' ' || c == '\t' || c == '\r'
}

/// First index at or after `i` that does not hold a blank character.
pub open spec fn spec_skip_spaces(s: Seq<char>, i: int) -> int
    decreases s.len() - i,
{
    if 0 <= i < s.len() && spec_is_space(s[i]) {
        spec_skip_spaces(s, i + 1)
    } else {
        i
    }
}

/// End of a run of digits of `radix` and `_` separators starting at `i`.
pub open spec fn spec_digit_run_end(s: Seq<char>, i: int, radix: int) -> int
    decreases s.len() - i,
{
    if 0 <= i < s.len() && (spec_is_digit(s[i], radix) || s[i] == '_') {
        spec_digit_run_end(s, i + 1, radix)
    } else {
        i
    }
}

/// End of a run of identifier characters starting at `i`.
pub open spec fn spec_ident_end(s: Seq<char>, i: int) -> int
    decreases s.len() - i,
{
    if 0 <= i < s.len() && (spec_alphanumeric(s[i]) || s[i] == '_') {
        spec_ident_end(s, i + 1)
    } else {
        i
    }
}

/// End of a run of alphabetic characters starting at `i`.
pub open spec fn spec_alpha_run_end(s: Seq<char>, i: int) -> int
    decreases s.len() - i,
{
    if 0 <= i < s.len() && spec_alphabetic(s[i]) {
        spec_alpha_run_end(s, i + 1)
    } else {
        i
    }
}

/// End of a comment starting at `i`: everything up to the next newline.
pub open spec fn spec_comment_end(s: Seq<char>, i: int) -> int
    decreases s.len() - i,
{
    if 0 <= i < s.len() && s[i] != '\n' {
        spec_comment_end(s, i + 1)
    } else {
        i
    }
}

/// The characters that may follow a backslash in a string literal.
pub open spec fn spec_escapable(c: char) -> bool {
    c == '"' || c == '\\' || c == 'n' || c == 't' || c == 'r'
}

/// Scans a string literal body from `i` (just after the opening
/// quote); yields the end of the token and whether it is well formed.
pub open spec fn spec_string_end(s: Seq<char>, i: int) -> (int, bool)
    decreases s.len() - i,
{
    if i < 0 || i >= s.len() {
        (s.len() as int, false)  // unterminated
    } else if s[i] == '"' {
        (i + 1, true)
    } else if s[i] == '\\' {
        if i + 1 < s.len() && spec_escapable(s[i + 1]) {
            spec_string_end(s, i + 2)
        } else if i + 1 < s.len() {
            (i + 2, false)  // unknown escape
        } else {
            (s.len() as int, false)
        }
    } else {
        spec_string_end(s, i + 1)
    }
}

/// End of a well-formed exponent part starting at `i` (at the `e`),
/// or `i` itself when no well-formed exponent starts there.
pub open spec fn spec_exp_end(s: Seq<char>, i: int) -> int {
    if 0 <= i < s.len() && (s[i] == 'e' || s[i] == 'E') {
        let j = if i + 1 < s.len() && (s[i + 1] == '+' || s[i + 1] == '-') {
            i + 2
        } else {
            i + 1
        };
        if j < s.len() && spec_is_digit(s[j], 10) {
            spec_digit_run_end(s, j, 10)
        } else {
            i
        }
    } else {
        i
    }
}

/// Scans the fraction of a float from `fr` (just after the `.`):
/// digits, an optional exponent, an optional imaginary marker.
pub open spec fn spec_fraction_scan(s: Seq<char>, fr: int) -> (TokenKind, int) {
    let d = spec_digit_run_end(s, fr, 10);
    let e = spec_exp_end(s, d);
    if 0 <= e < s.len() && s[e] == 'i' {
        (TokenKind::ImaginaryLiteral, e + 1)
    } else {
        (TokenKind::FloatLiteral, e)
    }
}

/// Scans a numeric literal whose first digit stands at `i`.
pub open spec fn spec_number_scan(s: Seq<char>, i: int) -> (TokenKind, int) {
    if s[i] == '0' && i + 1 < s.len() && (s[i + 1] == 'b' || s[i + 1] == 'o' || s[i + 1] == 'x') {
        let radix: int = if s[i + 1] == 'b' {
            2
        } else if s[i + 1] == 'o' {
            8
        } else {
            16
        };
        let e = spec_digit_run_end(s, i + 2, radix);
        if e == i + 2 {
            (TokenKind::Invalid, i + 2)  // prefix with no digits
        } else if s[i + 1] == 'b' {
            (TokenKind::BinLiteral, e)
        } else if s[i + 1] == 'o' {
            (TokenKind::OctLiteral, e)
        } else {
            (TokenKind::HexLiteral, e)
        }
    } else {
        let d = spec_digit_run_end(s, i, 10);
        if d < s.len() && s[d] == '.' && !(d + 1 < s.len() && (s[d + 1] == '&' || s[d + 1] == '|'
            || s[d + 1] == '^')) {
            spec_fraction_scan(s, d + 1)
        } else if d < s.len() && s[d] == 'i' {
            (TokenKind::ImaginaryLiteral, d + 1)
        } else {
            (TokenKind::DecLiteral, d)
        }
    }
}

/// Keyword recognition: the fixed keyword texts, checked exactly.
pub open spec fn spec_ident_kind(t: Seq<char>) -> TokenKind {
    if t.len() == 2 && t[0] == 'i' && t[1] == 'f' {
        TokenKind::KwordIf
    } else if t.len() == 2 && t[0] == 'f' && t[1] == 'n' {
        TokenKind::KwordFn
    } else if t.len() == 2 && t[0] == 'o' && t[1] == 'r' {
        TokenKind::KwordOr
    } else if t.len() == 3 && t[0] == 'a' && t[1] == 'n' && t[2] == 'd' {
        TokenKind::KwordAnd
    } else if t.len() == 3 && t[0] == 'n' && t[1] == 'o' && t[2] == 't' {
        TokenKind::KwordNot
    } else if t.len() == 4 && t[0] == 'c' && t[1] == 'o' && t[2] == 'm' && t[3] == 'p' {
        TokenKind::KwordComp
    } else {
        TokenKind::Identifier
    }
}

/// One token scanned from position `i` of `s` (`i` not blank, in
/// range): its kind and its end position.
pub open spec fn spec_scan(s: Seq<char>, i: int) -> (TokenKind, int) {
    let c = s[i];
    if c == '\n' {
        (TokenKind::NewLine, i + 1)
    } else if spec_is_digit(c, 10) {
        spec_number_scan(s, i)
    } else if c == '"' {
        let (e, ok) = spec_string_end(s, i + 1);
        (
            if ok {
                TokenKind::StringLiteral
            } else {
                TokenKind::Invalid
            },
            e,
        )
    } else if c == '@' {
        if i + 1 < s.len() && spec_alphabetic(s[i + 1]) {
            (TokenKind::Binding, spec_alpha_run_end(s, i + 1))
        } else {
            (TokenKind::Invalid, i + 1)
        }
    } else if c == '/' {
        if i + 1 < s.len() && s[i + 1] == '/' {
            (TokenKind::Comment, spec_comment_end(s, i))
        } else {
            (TokenKind::OpBy, i + 1)
        }
    } else if c == '-' {
        if i + 1 < s.len() && s[i + 1] == '>' {
            (TokenKind::Arrow, i + 2)
        } else {
            (TokenKind::OpMinus, i + 1)
        }
    } else if c == '<' {
        if i + 1 < s.len() && s[i + 1] == '<' {
            (TokenKind::Lshift, i + 2)
        } else if i + 1 < s.len() && s[i + 1] == '=' {
            (TokenKind::OpLe, i + 2)
        } else {
            (TokenKind::OpLt, i + 1)
        }
    } else if c == '>' {
        if i + 1 < s.len() && s[i + 1] == '>' {
            (TokenKind::Rshift, i + 2)
        } else if i + 1 < s.len() && s[i + 1] == '=' {
            (TokenKind::OpGe, i + 2)
        } else {
            (TokenKind::OpGt, i + 1)
        }
    } else if c == '|' {
        if i + 1 < s.len() && s[i + 1] == '>' {
            (TokenKind::Pipe, i + 2)
        } else {
            (TokenKind::Bar, i + 1)
        }
    } else if c == '.' {
        if i + 1 < s.len() && s[i + 1] == '&' {
            (TokenKind::Band, i + 2)
        } else if i + 1 < s.len() && s[i + 1] == '|' {
            (TokenKind::Bor, i + 2)
        } else if i + 1 < s.len() && s[i + 1] == '^' {
            (TokenKind::Bxor, i + 2)
        } else {
            (TokenKind::Dot, i + 1)
        }
    } else if c == '=' {
        (TokenKind::OpEq, i + 1)
    } else if c == '+' {
        (TokenKind::OpPlus, i + 1)
    } else if c == '*' {
        (TokenKind::OpTimes, i + 1)
    } else if c == '%' {
        (TokenKind::OpMod, i + 1)
    } else if c == '^' {
        (TokenKind::OpExponent, i + 1)
    } else if c == '~' {
        (TokenKind::Bnot, i + 1)
    } else if c == '(' {
        (TokenKind::Lparen, i + 1)
    } else if c == ')' {
        (TokenKind::Rparen, i + 1)
    } else if c == '[' {
        (TokenKind::Lbracket, i + 1)
    } else if c == ']' {
        (TokenKind::Rbracket, i + 1)
    } else if c == '{' {
        (TokenKind::Lbrace, i + 1)
    } else if c == '}' {
        (TokenKind::Rbrace, i + 1)
    } else if c == ',' {
        (TokenKind::Comma, i + 1)
    } else if c == '\\' {
        (TokenKind::Backslash, i + 1)
    } else if c == '\'' {
        (TokenKind::Appostrophe, i + 1)
    } else if c == ':' {
        (TokenKind::Colon, i + 1)
    } else if c == '?' {
        (TokenKind::Propagate, i + 1)
    } else if c == '$' {
        (TokenKind::Positional, i + 1)
    } else if c == '_' {
        (TokenKind::Special, i + 1)
    } else if spec_alphabetic(c) {
        let e = spec_ident_end(s, i + 1);
        (spec_ident_kind(s.subrange(i, e)), e)
    } else {
        (TokenKind::Invalid, i + 1)
    }
}

/// The token with text `s[lo..hi]` and the positions that bound it.
pub open spec fn spec_token_of(s: Seq<char>, lo: int, hi: int, kind: TokenKind) -> SpecToken {
    SpecToken {
        kind,
        text: s.subrange(lo, hi),
        start: spec_point_at(s, lo),
        end: spec_point_at(s, hi),
    }
}

/// The token scanned at position `i` of `s`, and its end position.
pub open spec fn spec_token_at(s: Seq<char>, i: int) -> (SpecToken, int) {
    let (k, e) = spec_scan(s, i);
    (spec_token_of(s, i, e, k), e)
}

/// The zero-width end-of-input token of `s`.
pub open spec fn spec_eof_token(s: Seq<char>) -> SpecToken {
    spec_token_of(s, s.len() as int, s.len() as int, TokenKind::Eof)
}

// ---------------------------------------------------------------------------
// Bounds of the scanning functions
// ---------------------------------------------------------------------------
pub proof fn lemma_skip_spaces_bounds(s: Seq<char>, i: int)
    requires
        0 <= i <= s.len(),
    ensures
        i <= spec_skip_spaces(s, i) <= s.len(),
    decreases s.len() - i,
{
    if i < s.len() && spec_is_space(s[i]) {
        lemma_skip_spaces_bounds(s, i + 1);
    }
}

pub proof fn lemma_digit_run_bounds(s: Seq<char>, i: int, radix: int)
    requires
        0 <= i <= s.len(),
    ensures
        i <= spec_digit_run_end(s, i, radix) <= s.len(),
    decreases s.len() - i,
{
    if i < s.len() && (spec_is_digit(s[i], radix) || s[i] == '_') {
        lemma_digit_run_bounds(s, i + 1, radix);
    }
}

pub proof fn lemma_ident_end_bounds(s: Seq<char>, i: int)
    requires
        0 <= i <= s.len(),
    ensures
        i <= spec_ident_end(s, i) <= s.len(),
    decreases s.len() - i,
{
    if i < s.len() && (spec_alphanumeric(s[i]) || s[i] == '_') {
        lemma_ident_end_bounds(s, i + 1);
    }
}

pub proof fn lemma_alpha_run_bounds(s: Seq<char>, i: int)
    requires
        0 <= i <= s.len(),
    ensures
        i <= spec_alpha_run_end(s, i) <= s.len(),
    decreases s.len() - i,
{
    if i < s.len() && spec_alphabetic(s[i]) {
        lemma_alpha_run_bounds(s, i + 1);
    }
}

pub proof fn lemma_comment_end_bounds(s: Seq<char>, i: int)
    requires
        0 <= i <= s.len(),
    ensures
        i <= spec_comment_end(s, i) <= s.len(),
    decreases s.len() - i,
{
    if i < s.len() && s[i] != '\n' {
        lemma_comment_end_bounds(s, i + 1);
    }
}

pub proof fn lemma_string_end_bounds(s: Seq<char>, i: int)
    requires
        0 <= i <= s.len(),
    ensures
        i <= spec_string_end(s, i).0 <= s.len(),
    decreases s.len() - i,
{
    if i < s.len() && s[i] != '"' {
        if s[i] == '\\' {
            if i + 1 < s.len() && spec_escapable(s[i + 1]) {
                lemma_string_end_bounds(s, i + 2);
            }
        } else {
            lemma_string_end_bounds(s, i + 1);
        }
    }
}

pub proof fn lemma_exp_end_bounds(s: Seq<char>, i: int)
    requires
        0 <= i <= s.len(),
    ensures
        i <= spec_exp_end(s, i) <= s.len(),
{
    if i < s.len() && (s[i] == 'e' || s[i] == 'E') {
        let j = if i + 1 < s.len() && (s[i + 1] == '+' || s[i + 1] == '-') {
            i + 2
        } else {
            i + 1
        };
        if j < s.len() && spec_is_digit(s[j], 10) {
            lemma_digit_run_bounds(s, j, 10);
        }
    }
}

pub proof fn lemma_fraction_scan_bounds(s: Seq<char>, fr: int)
    requires
        0 <= fr <= s.len(),
    ensures
        fr <= spec_fraction_scan(s, fr).1 <= s.len(),
{
    lemma_digit_run_bounds(s, fr, 10);
    lemma_exp_end_bounds(s, spec_digit_run_end(s, fr, 10));
}

pub proof fn lemma_number_scan_bounds(s: Seq<char>, i: int)
    requires
        0 <= i < s.len(),
        spec_is_digit(s[i], 10),
    ensures
        i < spec_number_scan(s, i).1 <= s.len(),
{
    if s[i] == '0' && i + 1 < s.len() && (s[i + 1] == 'b' || s[i + 1] == 'o' || s[i + 1] == 'x') {
        let radix: int = if s[i + 1] == 'b' {
            2
        } else if s[i + 1] == 'o' {
            8
        } else {
            16
        };
        lemma_digit_run_bounds(s, i + 2, radix);
    } else {
        lemma_digit_run_bounds(s, i + 1, 10);
        let d = spec_digit_run_end(s, i, 10);
        assert(d == spec_digit_run_end(s, i + 1, 10));
        if d < s.len() && s[d] == '.' && !(d + 1 < s.len() && (s[d + 1] == '&' || s[d + 1] == '|'
            || s[d + 1] == '^')) {
            lemma_fraction_scan_bounds(s, d + 1);
        }
    }
}

pub proof fn lemma_scan_advances(s: Seq<char>, i: int)
    requires
        0 <= i < s.len(),
    ensures
        i < spec_scan(s, i).1 <= s.len(),
{
    let c = s[i];
    if c == '\n' {
    } else if spec_is_digit(c, 10) {
        lemma_number_scan_bounds(s, i);
    } else if c == '"' {
        lemma_string_end_bounds(s, i + 1);
    } else if c == '@' {
        if i + 1 < s.len() && spec_alphabetic(s[i + 1]) {
            lemma_alpha_run_bounds(s, i + 1);
        }
    } else if c == '/' {
        if i + 1 < s.len() && s[i + 1] == '/' {
            lemma_comment_end_bounds(s, i + 1);
            assert(spec_comment_end(s, i) == spec_comment_end(s, i + 1));
        }
    } else if spec_alphabetic(c) {
        lemma_ident_end_bounds(s, i + 1);
    }
}

// ---------------------------------------------------------------------------
// The whole token stream
// ---------------------------------------------------------------------------
/// All tokens of `s` from position `i` on, ending with the one `Eof`.
pub open spec fn spec_tokens(s: Seq<char>, i: int) -> Seq<SpecToken>
    decreases s.len() - i,
        via spec_tokens_decreases
{
    let j = spec_skip_spaces(s, i);
    if !(0 <= i <= s.len()) {
        seq![spec_eof_token(s)]
    } else if j >= s.len() {
        seq![spec_eof_token(s)]
    } else {
        let (t, e) = spec_token_at(s, j);
        seq![t] + spec_tokens(s, e)
    }
}

#[via_fn]
proof fn spec_tokens_decreases(s: Seq<char>, i: int) {
    if 0 <= i <= s.len() {
        let j = spec_skip_spaces(s, i);
        lemma_skip_spaces_bounds(s, i);
        if j < s.len() {
            lemma_scan_advances(s, j);
        }
    }
}

/// The scan itself never yields the end-of-input kind: that token is
/// appended once, when the end of the text is reached.
pub proof fn lemma_scan_not_eof(s: Seq<char>, i: int)
    requires
        0 <= i < s.len(),
    ensures
        spec_scan(s, i).0 != TokenKind::Eof,
{
}

// ---------------------------------------------------------------------------
// The scanner
// ---------------------------------------------------------------------------
/// The incremental lexer: hands out one token per call of
/// [`Tokenizer::next_token`], ending with one `Eof` token.
pub struct Tokenizer<'a> {
    source: &'a str,
    chars: Vec<char>,
    start_of_token: usize,
    cursor: usize,
    start: Point,
    end: Point,
}

impl<'a> Tokenizer<'a> {
    /// The characters being scanned.
    pub closed spec fn src(&self) -> Seq<char> {
        self.source@
    }

    /// How many characters have been consumed.
    pub closed spec fn pos(&self) -> int {
        self.cursor as int
    }

    /// The scanner's internal consistency: the character buffer
    /// mirrors the source and the positions track the cursors.
    pub closed spec fn wf(&self) -> bool {
        &&& self.chars@ == self.source@
        &&& self.start_of_token <= self.cursor <= self.chars@.len()
        &&& self.end == spec_point_at(self.src(), self.cursor as int)
        &&& self.start == spec_point_at(self.src(), self.start_of_token as int)
    }

    pub fn new(source: &'a str) -> (t: Tokenizer<'a>)
        ensures
            t.wf(),
            t.src() == source@,
            t.pos() == 0,
    {
        let n = source.unicode_len();
        let mut chars: Vec<char> = Vec::new();
        let mut i: usize = 0;
        while i < n
            invariant
                i <= n,
                n == source@.len(),
                chars@ == source@.subrange(0, i as int),
            decreases n - i,
        {
            chars.push(source.get_char(i));
            proof {
                assert(chars@ =~= source@.subrange(0, i + 1 as int));
            }
            i = i + 1;
        }
        proof {
            assert(chars@ =~= source@);
        }
        Tokenizer {
            source,
            chars,
            start_of_token: 0,
            cursor: 0,
            start: Point { line: 0, column: 0 },
            end: Point { line: 0, column: 0 },
        }
    }

    /// Consumes one character, keeping the end position in step.
    fn advance(&mut self)
        requires
            old(self).wf(),
            old(self).cursor < old(self).chars@.len(),
        ensures
            final(self).wf(),
            final(self).cursor == old(self).cursor + 1,
            final(self).source == old(self).source,
            final(self).chars == old(self).chars,
            final(self).start_of_token == old(self).start_of_token,
            final(self).start == old(self).start,
    {
        proof {
            lemma_point_bounds(self.source@, self.cursor as int);
            lemma_point_bounds(self.source@, self.cursor as int + 1);
        }
        // the buffer length is a usize, so the cursor can step in bounds
        let _n = self.chars.len();
        let c = self.chars[self.cursor];
        self.cursor = self.cursor + 1;
        if c == '\n' {
            self.end = Point { line: self.end.line + 1, column: 0 };
        } else {
            self.end = Point { line: self.end.line, column: self.end.column + 1 };
        }
    }

    /// Whether the cursor stands on a blank character.
    fn at_space(&self) -> (r: bool)
        requires
            self.wf(),
        ensures
            r == (self.pos() < self.src().len() && spec_is_space(self.src()[self.pos()])),
    {
        if self.cursor < self.chars.len() {
            let c = self.chars[self.cursor];
            c == ' ' || c == '\t' || c == '\r'
        } else {
            false
        }
    }

    /// Whether the cursor stands on a digit of `radix` or a `_`.
    fn at_digit_or_sep(&self, radix: u32) -> (r: bool)
        requires
            self.wf(),
        ensures
            r == (self.pos() < self.src().len() && (spec_is_digit(
                self.src()[self.pos()],
                radix as int,
            ) || self.src()[self.pos()] == '_')),
    {
        if self.cursor < self.chars.len() {
            let c = self.chars[self.cursor];
            is_digit(c, radix) || c == '_'
        } else {
            false
        }
    }

    /// Whether the cursor stands on an identifier character.
    fn at_ident_char(&self) -> (r: bool)
        requires
            self.wf(),
        ensures
            r == (self.pos() < self.src().len() && (spec_alphanumeric(self.src()[self.pos()])
                || self.src()[self.pos()] == '_')),
    {
        if self.cursor < self.chars.len() {
            let c = self.chars[self.cursor];
            c.is_alphanumeric() || c == '_'
        } else {
            false
        }
    }

    /// Whether the cursor stands on an alphabetic character.
    fn at_alpha(&self) -> (r: bool)
        requires
            self.wf(),
        ensures
            r == (self.pos() < self.src().len() && spec_alphabetic(self.src()[self.pos()])),
    {
        if self.cursor < self.chars.len() {
            self.chars[self.cursor].is_alphabetic()
        } else {
            false
        }
    }

    /// Whether the cursor stands on anything but a newline.
    fn at_non_newline(&self) -> (r: bool)
        requires
            self.wf(),
        ensures
            r == (self.pos() < self.src().len() && self.src()[self.pos()] != '\n'),
    {
        if self.cursor < self.chars.len() {
            self.chars[self.cursor] != '\n'
        } else {
            false
        }
    }

    /// Skips blanks; newlines are tokens, not blanks.
    fn skip_spaces(&mut self)
        requires
            old(self).wf(),
        ensures
            final(self).wf(),
            final(self).source == old(self).source,
            final(self).chars == old(self).chars,
            final(self).cursor as int == spec_skip_spaces(old(self).src(), old(self).pos()),
            final(self).start_of_token == old(self).start_of_token,
            final(self).start == old(self).start,
    {
        while self.at_space()
            invariant
                self.wf(),
                self.source == old(self).source,
                self.chars == old(self).chars,
                self.start_of_token == old(self).start_of_token,
                self.start == old(self).start,
                spec_skip_spaces(self.src(), self.pos()) == spec_skip_spaces(
                    old(self).src(),
                    old(self).pos(),
                ),
            decreases self.src().len() - self.pos(),
        {
            self.advance();
        }
    }

    /// Builds the token for the slice between the two cursors.
    fn generate_token(&self, kind: TokenKind) -> (t: Token<'a>)
        requires
            self.wf(),
        ensures
            t@ == spec_token_of(self.src(), self.start_of_token as int, self.pos(), kind),
    {
        Token {
            kind,
            value: self.source.substring_char(self.start_of_token, self.cursor),
            start: self.start,
            end: self.end,
        }
    }

    /// Scans the digits (and `_` separators) of `radix` under the cursor.
    fn scan_digit_run(&mut self, radix: u32)
        requires
            old(self).wf(),
        ensures
            final(self).wf(),
            final(self).source == old(self).source,
            final(self).chars == old(self).chars,
            final(self).start_of_token == old(self).start_of_token,
            final(self).start == old(self).start,
            final(self).pos() == spec_digit_run_end(old(self).src(), old(self).pos(), radix as int),
    {
        let ghost self0 = *self;
        while self.at_digit_or_sep(radix)
            invariant
                self.wf(),
                self.source == self0.source,
                self.chars == self0.chars,
                self.start_of_token == self0.start_of_token,
                self.start == self0.start,
                self0.pos() <= self.pos(),
                spec_digit_run_end(self0.src(), self0.pos(), radix as int) == spec_digit_run_end(
                    self.src(),
                    self.pos(),
                    radix as int,
                ),
            decreases self.src().len() - self.pos(),
        {
            self.advance();
        }
    }

    /// Scans a numeric literal; the first digit is already consumed.
    fn consume_number(&mut self) -> (t: Token<'a>)
        requires
            old(self).wf(),
            old(self).start_of_token + 1 == old(self).cursor,
            spec_is_digit(old(self).src()[old(self).start_of_token as int], 10),
        ensures
            final(self).wf(),
            final(self).source == old(self).source,
            ({
                let (k, e) = spec_number_scan(old(self).src(), old(self).start_of_token as int);
                final(self).pos() == e && t@ == spec_token_of(
                    old(self).src(),
                    old(self).start_of_token as int,
                    e,
                    k,
                )
            }),
    {
        let ghost s = self.src();
        let ghost sot = self.start_of_token as int;
        let c0 = self.chars[self.start_of_token];
        let n = self.chars.len();
        if c0 == '0' && self.cursor < n {
            let p = self.chars[self.cursor];
            if p == 'b' || p == 'o' || p == 'x' {
                let radix: u32 = if p == 'b' {
                    2
                } else if p == 'o' {
                    8
                } else {
                    16
                };
                self.advance();
                let run_start = self.cursor;
                self.scan_digit_run(radix);
                let kind = if self.cursor == run_start {
                    TokenKind::Invalid
                } else if p == 'b' {
                    TokenKind::BinLiteral
                } else if p == 'o' {
                    TokenKind::OctLiteral
                } else {
                    TokenKind::HexLiteral
                };
                return self.generate_token(kind);
            }
        }
        // a decimal run, possibly becoming a float or imaginary literal
        proof {
            assert(spec_digit_run_end(s, sot, 10) == spec_digit_run_end(s, sot + 1, 10));
        }
        self.scan_digit_run(10);
        let n2 = self.chars.len();
        let mut float_dot = false;
        if self.cursor < n2 && self.chars[self.cursor] == '.' {
            if self.cursor + 1 < n2 {
                let c2 = self.chars[self.cursor + 1];
                float_dot = !(c2 == '&' || c2 == '|' || c2 == '^');
            } else {
                float_dot = true;
            }
        }
        if float_dot {
            self.advance();
            return self.consume_fraction();
        }
        if self.cursor < n2 && self.chars[self.cursor] == 'i' {
            self.advance();
            return self.generate_token(TokenKind::ImaginaryLiteral);
        }
        self.generate_token(TokenKind::DecLiteral)
    }

    /// Scans what follows the dot of a float literal: fraction digits,
    /// an optional exponent, an optional imaginary marker.
    fn consume_fraction(&mut self) -> (t: Token<'a>)
        requires
            old(self).wf(),
        ensures
            final(self).wf(),
            final(self).source == old(self).source,
            ({
                let (k, e) = spec_fraction_scan(old(self).src(), old(self).pos());
                final(self).pos() == e && t@ == spec_token_of(
                    old(self).src(),
                    old(self).start_of_token as int,
                    e,
                    k,
                )
            }),
    {
        let ghost s = self.src();
        let ghost fr = self.pos();
        self.scan_digit_run(10);
        let ghost d = self.pos();
        let n = self.chars.len();
        if self.cursor < n {
            let ce = self.chars[self.cursor];
            if ce == 'e' || ce == 'E' {
                let mut has_sign = false;
                if self.cursor + 1 < n {
                    let cs = self.chars[self.cursor + 1];
                    has_sign = cs == '+' || cs == '-';
                }
                let j = if has_sign {
                    self.cursor + 2
                } else {
                    self.cursor + 1
                };
                if j < n && is_digit(self.chars[j], 10) {
                    self.advance();
                    if has_sign {
                        self.advance();
                    }
                    self.scan_digit_run(10);
                    proof {
                        assert(self.pos() == spec_exp_end(s, d));
                    }
                }
            }
        }
        let n3 = self.chars.len();
        if self.cursor < n3 && self.chars[self.cursor] == 'i' {
            self.advance();
            return self.generate_token(TokenKind::ImaginaryLiteral);
        }
        self.generate_token(TokenKind::FloatLiteral)
    }

    /// The kind of the identifier under the two cursors: one of the
    /// fixed keywords, recognized by exact text, or a plain identifier.
    fn ident_kind(&self) -> (k: TokenKind)
        requires
            self.wf(),
        ensures
            k == spec_ident_kind(
                self.src().subrange(self.start_of_token as int, self.pos()),
            ),
    {
        let sot = self.start_of_token;
        let n = self.cursor - sot;
        if n == 2 {
            let a = self.chars[sot];
            let b = self.chars[sot + 1];
            if a == 'i' && b == 'f' {
                TokenKind::KwordIf
            } else if a == 'f' && b == 'n' {
                TokenKind::KwordFn
            } else if a == 'o' && b == 'r' {
                TokenKind::KwordOr
            } else {
                TokenKind::Identifier
            }
        } else if n == 3 {
            let a = self.chars[sot];
            let b = self.chars[sot + 1];
            let c = self.chars[sot + 2];
            if a == 'a' && b == 'n' && c == 'd' {
                TokenKind::KwordAnd
            } else if a == 'n' && b == 'o' && c == 't' {
                TokenKind::KwordNot
            } else {
                TokenKind::Identifier
            }
        } else if n == 4 {
            let a = self.chars[sot];
            let b = self.chars[sot + 1];
            let c = self.chars[sot + 2];
            let d = self.chars[sot + 3];
            if a == 'c' && b == 'o' && c == 'm' && d == 'p' {
                TokenKind::KwordComp
            } else {
                TokenKind::Identifier
            }
        } else {
            TokenKind::Identifier
        }
    }

    /// Scans an identifier or keyword; its first character is already
    /// consumed.
    fn consume_identifier(&mut self) -> (t: Token<'a>)
        requires
            old(self).wf(),
            old(self).start_of_token + 1 == old(self).cursor,
        ensures
            final(self).wf(),
            final(self).source == old(self).source,
            ({
                let sot = old(self).start_of_token as int;
                let e = spec_ident_end(old(self).src(), sot + 1);
                final(self).pos() == e && t@ == spec_token_of(
                    old(self).src(),
                    sot,
                    e,
                    spec_ident_kind(old(self).src().subrange(sot, e)),
                )
            }),
    {
        let ghost self0 = *self;
        while self.at_ident_char()
            invariant
                self.wf(),
                self.source == self0.source,
                self.chars == self0.chars,
                self.start_of_token == self0.start_of_token,
                self.start == self0.start,
                self0.pos() <= self.pos(),
                spec_ident_end(self0.src(), self0.pos()) == spec_ident_end(
                    self.src(),
                    self.pos(),
                ),
            decreases self.src().len() - self.pos(),
        {
            self.advance();
        }
        let kind = self.ident_kind();
        self.generate_token(kind)
    }

    /// Scans a binding: `@` (already consumed) and an alphabetic run.
    fn consume_binding(&mut self) -> (t: Token<'a>)
        requires
            old(self).wf(),
            old(self).start_of_token + 1 == old(self).cursor,
        ensures
            final(self).wf(),
            final(self).source == old(self).source,
            ({
                let s = old(self).src();
                let i = old(self).start_of_token as int;
                if i + 1 < s.len() && spec_alphabetic(s[i + 1]) {
                    let e = spec_alpha_run_end(s, i + 1);
                    final(self).pos() == e && t@ == spec_token_of(s, i, e, TokenKind::Binding)
                } else {
                    final(self).pos() == i + 1 && t@ == spec_token_of(
                        s,
                        i,
                        i + 1,
                        TokenKind::Invalid,
                    )
                }
            }),
    {
        if !self.at_alpha() {
            return self.generate_token(TokenKind::Invalid);
        }
        let ghost self0 = *self;
        while self.at_alpha()
            invariant
                self.wf(),
                self.source == self0.source,
                self.chars == self0.chars,
                self.start_of_token == self0.start_of_token,
                self.start == self0.start,
                self0.pos() <= self.pos(),
                spec_alpha_run_end(self0.src(), self0.pos()) == spec_alpha_run_end(
                    self.src(),
                    self.pos(),
                ),
            decreases self.src().len() - self.pos(),
        {
            self.advance();
        }
        self.generate_token(TokenKind::Binding)
    }

    /// Scans a string literal; the opening quote is already consumed.
    fn consume_string(&mut self) -> (t: Token<'a>)
        requires
            old(self).wf(),
            old(self).start_of_token + 1 == old(self).cursor,
        ensures
            final(self).wf(),
            final(self).source == old(self).source,
            ({
                let s = old(self).src();
                let sot = old(self).start_of_token as int;
                let (e, ok) = spec_string_end(s, sot + 1);
                final(self).pos() == e && t@ == spec_token_of(
                    s,
                    sot,
                    e,
                    if ok {
                        TokenKind::StringLiteral
                    } else {
                        TokenKind::Invalid
                    },
                )
            }),
    {
        let ghost self0 = *self;
        #[verifier::loop_isolation(false)]
        loop
            invariant
                self.wf(),
                self.source == self0.source,
                self.chars == self0.chars,
                self.start_of_token == self0.start_of_token,
                self.start == self0.start,
                self0.pos() <= self.pos(),
                spec_string_end(self0.src(), self0.start_of_token + 1) == spec_string_end(
                    self.src(),
                    self.pos(),
                ),
            decreases self.src().len() - self.pos(),
        {
            let n = self.chars.len();
            if self.cursor >= n {
                return self.generate_token(TokenKind::Invalid);
            }
            let c = self.chars[self.cursor];
            if c == '"' {
                self.advance();
                return self.generate_token(TokenKind::StringLiteral);
            }
            if c == '\\' {
                if self.cursor + 1 < n {
                    let c2 = self.chars[self.cursor + 1];
                    if c2 == '"' || c2 == '\\' || c2 == 'n' || c2 == 't' || c2 == 'r' {
                        self.advance();
                        self.advance();
                    } else {
                        self.advance();
                        self.advance();
                        return self.generate_token(TokenKind::Invalid);
                    }
                } else {
                    self.advance();
                    return self.generate_token(TokenKind::Invalid);
                }
            } else {
                self.advance();
            }
        }
    }

    /// Scans a comment: from the two slashes to the end of the line.
    fn consume_comment(&mut self) -> (t: Token<'a>)
        requires
            old(self).wf(),
            old(self).start_of_token + 1 == old(self).cursor,
            old(self).start_of_token < old(self).src().len(),
            old(self).src()[old(self).start_of_token as int] != '\n',
        ensures
            final(self).wf(),
            final(self).source == old(self).source,
            ({
                let s = old(self).src();
                let sot = old(self).start_of_token as int;
                let e = spec_comment_end(s, sot);
                final(self).pos() == e && t@ == spec_token_of(s, sot, e, TokenKind::Comment)
            }),
    {
        let ghost self0 = *self;
        while self.at_non_newline()
            invariant
                self.wf(),
                self.source == self0.source,
                self.chars == self0.chars,
                self.start_of_token == self0.start_of_token,
                self.start == self0.start,
                self0.pos() <= self.pos(),
                spec_comment_end(self0.src(), self0.pos()) == spec_comment_end(
                    self.src(),
                    self.pos(),
                ),
            decreases self.src().len() - self.pos(),
        {
            self.advance();
        }
        self.generate_token(TokenKind::Comment)
    }
}

/// What one call of [`Tokenizer::next_token`] yields, as a relation
/// between the position `i` before the call, the token `st`, and the
/// position `e` after the call.
pub open spec fn next_token_post(s: Seq<char>, i: int, st: SpecToken, e: int) -> bool {
    let j = spec_skip_spaces(s, i);
    if j >= s.len() {
        st == spec_eof_token(s) && e == s.len()
    } else {
        (st, e) == spec_token_at(s, j)
    }
}

impl<'a> Tokenizer<'a> {
    /// Scans and returns the next token of the text.  At the end of
    /// the text every further call returns the zero-width `Eof` token.
    pub fn next_token(&mut self) -> (t: Token<'a>)
        requires
            old(self).wf(),
        ensures
            final(self).wf(),
            final(self).src() == old(self).src(),
            next_token_post(old(self).src(), old(self).pos(), t@, final(self).pos()),
    {
        let ghost s = self.src();
        self.skip_spaces();
        self.start_of_token = self.cursor;
        self.start = self.end;
        let ghost j = self.pos();
        let n = self.chars.len();
        if self.cursor == n {
            return self.generate_token(TokenKind::Eof);
        }
        let c = self.chars[self.cursor];
        self.advance();
        if c == '\n' {
            return self.generate_token(TokenKind::NewLine);
        }
        if is_digit(c, 10) {
            return self.consume_number();
        }
        if c == '"' {
            return self.consume_string();
        }
        if c == '@' {
            return self.consume_binding();
        }
        if c == '/' {
            if self.cursor < n && self.chars[self.cursor] == '/' {
                return self.consume_comment();
            }
            return self.generate_token(TokenKind::OpBy);
        }
        if c == '-' {
            if self.cursor < n && self.chars[self.cursor] == '>' {
                self.advance();
                return self.generate_token(TokenKind::Arrow);
            }
            return self.generate_token(TokenKind::OpMinus);
        }
        if c == '<' {
            if self.cursor < n && self.chars[self.cursor] == '<' {
                self.advance();
                return self.generate_token(TokenKind::Lshift);
            }
            if self.cursor < n && self.chars[self.cursor] == '=' {
                self.advance();
                return self.generate_token(TokenKind::OpLe);
            }
            return self.generate_token(TokenKind::OpLt);
        }
        if c == '>' {
            if self.cursor < n && self.chars[self.cursor] == '>' {
                self.advance();
                return self.generate_token(TokenKind::Rshift);
            }
            if self.cursor < n && self.chars[self.cursor] == '=' {
                self.advance();
                return self.generate_token(TokenKind::OpGe);
            }
            return self.generate_token(TokenKind::OpGt);
        }
        if c == '|' {
            if self.cursor < n && self.chars[self.cursor] == '>' {
                self.advance();
                return self.generate_token(TokenKind::Pipe);
            }
            return self.generate_token(TokenKind::Bar);
        }
        if c == '.' {
            if self.cursor < n && self.chars[self.cursor] == '&' {
                self.advance();
                return self.generate_token(TokenKind::Band);
            }
            if self.cursor < n && self.chars[self.cursor] == '|' {
                self.advance();
                return self.generate_token(TokenKind::Bor);
            }
            if self.cursor < n && self.chars[self.cursor] == '^' {
                self.advance();
                return self.generate_token(TokenKind::Bxor);
            }
            return self.generate_token(TokenKind::Dot);
        }
        let single = if c == '=' {
            Some(TokenKind::OpEq)
        } else if c == '+' {
            Some(TokenKind::OpPlus)
        } else if c == '*' {
            Some(TokenKind::OpTimes)
        } else if c == '%' {
            Some(TokenKind::OpMod)
        } else if c == '^' {
            Some(TokenKind::OpExponent)
        } else if c == '~' {
            Some(TokenKind::Bnot)
        } else if c == '(' {
            Some(TokenKind::Lparen)
        } else if c == ')' {
            Some(TokenKind::Rparen)
        } else if c == '[' {
            Some(TokenKind::Lbracket)
        } else if c == ']' {
            Some(TokenKind::Rbracket)
        } else if c == '{' {
            Some(TokenKind::Lbrace)
        } else if c == '}' {
            Some(TokenKind::Rbrace)
        } else if c == ',' {
            Some(TokenKind::Comma)
        } else if c == '\\' {
            Some(TokenKind::Backslash)
        } else if c == '\'' {
            Some(TokenKind::Appostrophe)
        } else if c == ':' {
            Some(TokenKind::Colon)
        } else if c == '?' {
            Some(TokenKind::Propagate)
        } else if c == '$' {
            Some(TokenKind::Positional)
        } else if c == '_' {
            Some(TokenKind::Special)
        } else {
            None
        };
        match single {
            Some(kind) => self.generate_token(kind),
            None => {
                if c.is_alphabetic() {
                    self.consume_identifier()
                } else {
                    self.generate_token(TokenKind::Invalid)
                }
            },
        }
    }
}

/// The views of a sequence of tokens.
pub open spec fn token_views<'a>(ts: Seq<Token<'a>>) -> Seq<SpecToken> {
    ts.map_values(|t: Token<'a>| t@)
}

/// The token stream always ends with exactly one `Eof` token.
pub proof fn lemma_tokens_shape(s: Seq<char>, i: int)
    requires
        0 <= i <= s.len(),
    ensures
        spec_tokens(s, i).len() >= 1,
        spec_tokens(s, i).last().kind == TokenKind::Eof,
        forall|k: int|
            0 <= k < spec_tokens(s, i).len() - 1 ==> #[trigger] spec_tokens(s, i)[k].kind
                != TokenKind::Eof,
    decreases s.len() - i,
{
    let j = spec_skip_spaces(s, i);
    lemma_skip_spaces_bounds(s, i);
    if j < s.len() {
        lemma_scan_advances(s, j);
        lemma_scan_not_eof(s, j);
        let (t, e) = spec_token_at(s, j);
        lemma_tokens_shape(s, e);
        assert(spec_tokens(s, i) == seq![t] + spec_tokens(s, e));
    }
}

/// Whether two text slices hold the same characters.
pub fn str_eq(a: &str, b: &str) -> (r: bool)
    ensures
        r == (a@ == b@),
{
    let na = a.unicode_len();
    let nb = b.unicode_len();
    if na != nb {
        return false;
    }
    let mut i: usize = 0;
    while i < na
        invariant
            i <= na,
            na == a@.len(),
            na == b@.len(),
            forall|k: int| 0 <= k < i ==> a@[k] == b@[k],
        decreases na - i,
    {
        if a.get_char(i) != b.get_char(i) {
            return false;
        }
        i = i + 1;
    }
    proof {
        assert(a@ =~= b@);
    }
    true
}

impl<'a> PartialEq for Token<'a> {
    /// Tokens are equal when their kinds, texts and positions are.
    fn eq(&self, other: &Self) -> (r: bool) {
        self.kind == other.kind && str_eq(self.value, other.value) && self.start == other.start
            && self.end == other.end
    }
}

impl<'a> vstd::std_specs::cmp::PartialEqSpecImpl for Token<'a> {
    open spec fn obeys_eq_spec() -> bool {
        true
    }

    open spec fn eq_spec(&self, other: &Self) -> bool {
        self@ == other@
    }
}

/// Scans the whole text: every token of it in order, ending with the
/// one `Eof` token.
pub fn tokenize<'a>(source: &'a str) -> (r: Vec<Token<'a>>)
    ensures
        token_views(r@) == spec_tokens(source@, 0),
{
    let ghost s = source@;
    let mut tokenizer = Tokenizer::new(source);
    let mut out: Vec<Token<'a>> = Vec::new();
    loop
        invariant
            s == source@,
            tokenizer.wf(),
            tokenizer.src() == s,
            0 <= tokenizer.pos() <= s.len(),
            spec_tokens(s, 0) == token_views(out@) + spec_tokens(s, tokenizer.pos()),
        decreases s.len() - tokenizer.pos(),
    {
        let ghost p = tokenizer.pos();
        let ghost out0 = out@;
        let t = tokenizer.next_token();
        proof {
            lemma_skip_spaces_bounds(s, p);
            let j = spec_skip_spaces(s, p);
            if j < s.len() {
                lemma_scan_advances(s, j);
                lemma_scan_not_eof(s, j);
            }
        }
        out.push(t);
        proof {
            assert(token_views(out@) =~= token_views(out0) + seq![t@]);
        }
        if t.kind == TokenKind::Eof {
            proof {
                assert(spec_tokens(s, p) =~= seq![t@]);
                assert(token_views(out@) =~= spec_tokens(s, 0));
            }
            return out;
        }
    }
}

} // verus!
