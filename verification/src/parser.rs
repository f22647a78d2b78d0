//! The parser: precedence climbing over the token stream.
//!
//! `Parser::new` tokenizes the source and drops the noise tokens
//! (newlines and comments); `Parser::parse` climbs the stream once and
//! returns the root expression, or the first structural error.  The
//! whole parse is specified by the recursive functions `spec_primary`
//! and `spec_extend`, and the executable parser is proved to return
//! exactly what the model says.
//!
//! Both the model and the parser carry an explicit depth budget, spent
//! on every recursive step: when it runs out the parse fails with
//! `MaxNestingExceeded` instead of overflowing the call stack.

use vstd::prelude::*;
use vstd::string::StringExecFns;

use crate::literals::{parse_int, spec_int_value, spec_unescape, unescape_string};
use crate::tokenizer::{
    lemma_tokens_shape, spec_tokens, str_eq, token_views, tokenize, Point, SpecToken, Token,
    TokenKind,
};

verus! {

broadcast use vstd::std_specs::vec::group_vec_axioms;

/// The operators that can stand in expressions.
#[derive(Clone, Copy, Debug, PartialEq, Eq, Structural)]
pub enum Operator {
    Exponent,
    Times,
    By,
    Mod,
    Plus,
    Minus,
    Lshift,
    Rshift,
    Band,
    Bor,
    Bxor,
    Eq,
    Ge,
    Gt,
    Le,
    Lt,
    And,
    Or,
    Not,
    Bnot,
}

/// Whether the operator can stand between two operands.
pub open spec fn spec_is_binary(op: Operator) -> bool {
    match op {
        Operator::Not | Operator::Bnot => false,
        _ => true,
    }
}

/// Whether the operator can stand before its one operand.
pub open spec fn spec_is_unary(op: Operator) -> bool {
    match op {
        Operator::Not | Operator::Bnot | Operator::Plus | Operator::Minus => true,
        _ => false,
    }
}

impl Operator {
    /// Whether the operator can stand between two operands.
    pub fn is_binary(&self) -> (r: bool)
        ensures
            r == spec_is_binary(*self),
    {
        match self {
            Operator::Not | Operator::Bnot => false,
            _ => true,
        }
    }

    /// Whether the operator can stand before its one operand.
    pub fn is_unary(&self) -> (r: bool)
        ensures
            r == spec_is_unary(*self),
    {
        match self {
            Operator::Not | Operator::Bnot | Operator::Plus | Operator::Minus => true,
            _ => false,
        }
    }
}

/// The bracket kind enclosing a list; `File` is the implicit top-level
/// container, closed by the end of the input.
#[derive(Clone, Copy, Debug, PartialEq, Eq, Structural)]
pub enum Container {
    Paren,
    Bracket,
    Brace,
    File,
}

/// A plain name, as it stands on either side of a tag or an access.
#[derive(Debug)]
pub struct Identifier {
    pub id: String,
}

/// An expression tree.  Composite nodes own their children; a list
/// records the container kind that produced it.  Float and imaginary
/// literals carry the exact literal text (the value before the `i`
/// marker for imaginary ones); their numeric reading is left to the
/// consumer.
#[derive(Debug)]
pub enum Expression {
    IntLiteral(u64),
    FloatLiteral(String),
    ImaginaryLiteral(String),
    StringLiteral(String),
    Identifier(String),
    Unary(Operator, Box<Expression>),
    Binary(Operator, Box<Expression>, Box<Expression>),
    List(Container, Vec<Expression>),
    Access(Box<Expression>, Identifier),
    Tagged(Identifier, Box<Expression>),
    Empty,
}

/// The mathematical image of an [`Expression`].
pub ghost enum SpecExpr {
    IntLiteral(u64),
    FloatLiteral(Seq<char>),
    ImaginaryLiteral(Seq<char>),
    StringLiteral(Seq<char>),
    Identifier(Seq<char>),
    Unary(Operator, Box<SpecExpr>),
    Binary(Operator, Box<SpecExpr>, Box<SpecExpr>),
    List(Container, Seq<SpecExpr>),
    Access(Box<SpecExpr>, Seq<char>),
    Tagged(Seq<char>, Box<SpecExpr>),
    Empty,
}

/// The image of an expression: strings become character sequences,
/// vectors become sequences.
pub open spec fn expr_view(e: Expression) -> SpecExpr
    decreases e,
{
    match e {
        Expression::IntLiteral(v) => SpecExpr::IntLiteral(v),
        Expression::FloatLiteral(s) => SpecExpr::FloatLiteral(s@),
        Expression::ImaginaryLiteral(s) => SpecExpr::ImaginaryLiteral(s@),
        Expression::StringLiteral(s) => SpecExpr::StringLiteral(s@),
        Expression::Identifier(s) => SpecExpr::Identifier(s@),
        Expression::Unary(op, inner) => SpecExpr::Unary(op, Box::new(expr_view(*inner))),
        Expression::Binary(op, left, right) => SpecExpr::Binary(
            op,
            Box::new(expr_view(*left)),
            Box::new(expr_view(*right)),
        ),
        Expression::List(c, es) => SpecExpr::List(c, exprs_view(es@)),
        Expression::Access(base, member) => SpecExpr::Access(
            Box::new(expr_view(*base)),
            member.id@,
        ),
        Expression::Tagged(name, value) => SpecExpr::Tagged(name.id@, Box::new(expr_view(*value))),
        Expression::Empty => SpecExpr::Empty,
    }
}

/// The images of the elements of a list, in order.
pub open spec fn exprs_view(es: Seq<Expression>) -> Seq<SpecExpr>
    decreases es,
{
    if es.len() == 0 {
        Seq::empty()
    } else {
        exprs_view(es.drop_last()).push(expr_view(es.last()))
    }
}

impl View for Expression {
    type V = SpecExpr;

    open spec fn view(&self) -> SpecExpr {
        expr_view(*self)
    }
}

// ---------------------------------------------------------------------------
// Errors
// ---------------------------------------------------------------------------
/// Why a parse failed.
#[derive(Clone, Copy, Debug, PartialEq, Eq, Structural)]
pub enum ParseErrorKind {
    /// A token that cannot stand where it was found.
    UnexpectedToken,
    /// A literal token whose value cannot be read (including an
    /// integer literal that does not fit in 64 bits).
    InvalidLiteral,
    /// The input ended before the current container was closed.
    UnclosedContainer,
    /// A closing bracket of the wrong kind.
    MismatchedCloser,
    /// A binary-only operator in prefix position, or the reverse.
    IllegalUnaryOperator,
    /// The left side of a `:` is not an identifier.
    TaggedLhsNotIdentifier,
    /// The right side of a `.` is not an identifier.
    AccessRhsNotIdentifier,
    /// The depth budget ran out.
    MaxNestingExceeded,
}

/// A parse failure: its kind and the start of the offending token.
#[derive(Clone, Copy, Debug, PartialEq, Eq, Structural)]
pub struct ParseError {
    pub kind: ParseErrorKind,
    pub at: Point,
}

// ---------------------------------------------------------------------------
// The precedence and operator tables
// ---------------------------------------------------------------------------
/// Binding strength of a token met as a continuation: higher binds
/// tighter; `-1` marks a token that can never continue an expression;
/// `-2` marks the closing tokens.
pub open spec fn spec_precedence(k: TokenKind) -> int {
    match k {
        TokenKind::Backslash => 100,
        TokenKind::Dot => 50,
        TokenKind::Lparen | TokenKind::Lbracket | TokenKind::Lbrace => 40,
        TokenKind::Bnot => 31,
        TokenKind::KwordNot => 30,
        TokenKind::OpExponent => 20,
        TokenKind::OpTimes | TokenKind::OpBy | TokenKind::OpMod => 19,
        TokenKind::OpPlus | TokenKind::OpMinus => 18,
        TokenKind::Lshift | TokenKind::Rshift => 16,
        TokenKind::Band => 13,
        TokenKind::Bxor => 12,
        TokenKind::Bor => 11,
        TokenKind::OpEq | TokenKind::OpGe | TokenKind::OpGt | TokenKind::OpLe | TokenKind::OpLt
            => 10,
        TokenKind::KwordAnd => 9,
        TokenKind::KwordOr => 8,
        TokenKind::Pipe => 5,
        TokenKind::Colon => 2,
        TokenKind::Comma => 1,
        TokenKind::Eof | TokenKind::Rparen | TokenKind::Rbracket | TokenKind::Rbrace => -2,
        _ => -1,
    }
}

/// The operator a token stands for, if any.
pub open spec fn spec_operator(k: TokenKind) -> Option<Operator> {
    match k {
        TokenKind::OpExponent => Some(Operator::Exponent),
        TokenKind::OpTimes => Some(Operator::Times),
        TokenKind::OpBy => Some(Operator::By),
        TokenKind::OpMod => Some(Operator::Mod),
        TokenKind::OpPlus => Some(Operator::Plus),
        TokenKind::OpMinus => Some(Operator::Minus),
        TokenKind::Lshift => Some(Operator::Lshift),
        TokenKind::Rshift => Some(Operator::Rshift),
        TokenKind::Band => Some(Operator::Band),
        TokenKind::Bor => Some(Operator::Bor),
        TokenKind::Bxor => Some(Operator::Bxor),
        TokenKind::OpEq => Some(Operator::Eq),
        TokenKind::OpGe => Some(Operator::Ge),
        TokenKind::OpGt => Some(Operator::Gt),
        TokenKind::OpLe => Some(Operator::Le),
        TokenKind::OpLt => Some(Operator::Lt),
        TokenKind::KwordAnd => Some(Operator::And),
        TokenKind::KwordOr => Some(Operator::Or),
        TokenKind::KwordNot => Some(Operator::Not),
        TokenKind::Bnot => Some(Operator::Bnot),
        _ => None,
    }
}

/// The container a token opens, if any.
pub open spec fn spec_opening(k: TokenKind) -> Option<Container> {
    match k {
        TokenKind::Lparen => Some(Container::Paren),
        TokenKind::Lbracket => Some(Container::Bracket),
        TokenKind::Lbrace => Some(Container::Brace),
        _ => None,
    }
}

/// The container a token closes, if any; the end of the input closes
/// the whole file.
pub open spec fn spec_closing(k: TokenKind) -> Option<Container> {
    match k {
        TokenKind::Rparen => Some(Container::Paren),
        TokenKind::Rbracket => Some(Container::Bracket),
        TokenKind::Rbrace => Some(Container::Brace),
        TokenKind::Eof => Some(Container::File),
        _ => None,
    }
}

impl<'a> Token<'a> {
    /// Binding strength of this token as a continuation.
    pub fn precedence(&self) -> (r: i8)
        ensures
            r as int == spec_precedence(self.kind),
    {
        match self.kind {
            TokenKind::Backslash => 100,
            TokenKind::Dot => 50,
            TokenKind::Lparen | TokenKind::Lbracket | TokenKind::Lbrace => 40,
            TokenKind::Bnot => 31,
            TokenKind::KwordNot => 30,
            TokenKind::OpExponent => 20,
            TokenKind::OpTimes | TokenKind::OpBy | TokenKind::OpMod => 19,
            TokenKind::OpPlus | TokenKind::OpMinus => 18,
            TokenKind::Lshift | TokenKind::Rshift => 16,
            TokenKind::Band => 13,
            TokenKind::Bxor => 12,
            TokenKind::Bor => 11,
            TokenKind::OpEq | TokenKind::OpGe | TokenKind::OpGt | TokenKind::OpLe
                | TokenKind::OpLt => 10,
            TokenKind::KwordAnd => 9,
            TokenKind::KwordOr => 8,
            TokenKind::Pipe => 5,
            TokenKind::Colon => 2,
            TokenKind::Comma => 1,
            TokenKind::Eof | TokenKind::Rparen | TokenKind::Rbracket | TokenKind::Rbrace => -2,
            _ => -1,
        }
    }

    /// The operator this token stands for, if any.
    pub fn operator(&self) -> (r: Option<Operator>)
        ensures
            r == spec_operator(self.kind),
    {
        match self.kind {
            TokenKind::OpExponent => Some(Operator::Exponent),
            TokenKind::OpTimes => Some(Operator::Times),
            TokenKind::OpBy => Some(Operator::By),
            TokenKind::OpMod => Some(Operator::Mod),
            TokenKind::OpPlus => Some(Operator::Plus),
            TokenKind::OpMinus => Some(Operator::Minus),
            TokenKind::Lshift => Some(Operator::Lshift),
            TokenKind::Rshift => Some(Operator::Rshift),
            TokenKind::Band => Some(Operator::Band),
            TokenKind::Bor => Some(Operator::Bor),
            TokenKind::Bxor => Some(Operator::Bxor),
            TokenKind::OpEq => Some(Operator::Eq),
            TokenKind::OpGe => Some(Operator::Ge),
            TokenKind::OpGt => Some(Operator::Gt),
            TokenKind::OpLe => Some(Operator::Le),
            TokenKind::OpLt => Some(Operator::Lt),
            TokenKind::KwordAnd => Some(Operator::And),
            TokenKind::KwordOr => Some(Operator::Or),
            TokenKind::KwordNot => Some(Operator::Not),
            TokenKind::Bnot => Some(Operator::Bnot),
            _ => None,
        }
    }

    /// The container this token opens, if any.
    pub fn opening(&self) -> (r: Option<Container>)
        ensures
            r == spec_opening(self.kind),
    {
        match self.kind {
            TokenKind::Lparen => Some(Container::Paren),
            TokenKind::Lbracket => Some(Container::Bracket),
            TokenKind::Lbrace => Some(Container::Brace),
            _ => None,
        }
    }

    /// The container this token closes, if any.
    pub fn closing(&self) -> (r: Option<Container>)
        ensures
            r == spec_closing(self.kind),
    {
        match self.kind {
            TokenKind::Rparen => Some(Container::Paren),
            TokenKind::Rbracket => Some(Container::Bracket),
            TokenKind::Rbrace => Some(Container::Brace),
            TokenKind::Eof => Some(Container::File),
            _ => None,
        }
    }
}

// ---------------------------------------------------------------------------
// The model of the parse
// ---------------------------------------------------------------------------
/// The token kinds that stand for themselves as expression leaves.
pub open spec fn spec_is_leaf_kind(k: TokenKind) -> bool {
    match k {
        TokenKind::DecLiteral | TokenKind::HexLiteral | TokenKind::OctLiteral
            | TokenKind::BinLiteral | TokenKind::FloatLiteral | TokenKind::ImaginaryLiteral
            | TokenKind::StringLiteral | TokenKind::Identifier => true,
        _ => false,
    }
}

/// The expression an integer literal token stands for: its text past
/// the radix prefix, read in the radix; rejected when malformed or
/// over 64 bits.
pub open spec fn spec_int_leaf(t: SpecToken, from: int, radix: int) -> Result<
    SpecExpr,
    ParseError,
> {
    if t.text.len() < from {
        Err(ParseError { kind: ParseErrorKind::InvalidLiteral, at: t.start })
    } else {
        match spec_int_value(t.text.skip(from), radix) {
            Some(v) => if v <= u64::MAX {
                Ok(SpecExpr::IntLiteral(v as u64))
            } else {
                Err(ParseError { kind: ParseErrorKind::InvalidLiteral, at: t.start })
            },
            None => Err(ParseError { kind: ParseErrorKind::InvalidLiteral, at: t.start }),
        }
    }
}

/// The expression a leaf token stands for.
pub open spec fn spec_leaf(t: SpecToken) -> Result<SpecExpr, ParseError> {
    match t.kind {
        TokenKind::DecLiteral => spec_int_leaf(t, 0, 10),
        TokenKind::HexLiteral => spec_int_leaf(t, 2, 16),
        TokenKind::OctLiteral => spec_int_leaf(t, 2, 8),
        TokenKind::BinLiteral => spec_int_leaf(t, 2, 2),
        TokenKind::FloatLiteral => Ok(SpecExpr::FloatLiteral(t.text)),
        TokenKind::ImaginaryLiteral => Ok(
            SpecExpr::ImaginaryLiteral(
                if t.text.len() >= 1 && t.text.last() == 'i' {
                    t.text.drop_last()
                } else {
                    t.text
                },
            ),
        ),
        TokenKind::StringLiteral => match spec_unescape(t.text) {
            Some(u) => Ok(SpecExpr::StringLiteral(u)),
            None => Err(ParseError { kind: ParseErrorKind::InvalidLiteral, at: t.start }),
        },
        TokenKind::Identifier => Ok(SpecExpr::Identifier(t.text)),
        _ => Err(ParseError { kind: ParseErrorKind::UnexpectedToken, at: t.start }),
    }
}

/// One primary expression read at `pos`: a leaf, a bracketed
/// expression, an empty spot before the container's closer, or a
/// unary operator applied to the primary behind it.  Yields the
/// expression and the position after it.
pub open spec fn spec_primary(
    ts: Seq<SpecToken>,
    pos: int,
    container: Container,
    depth: nat,
) -> Result<(SpecExpr, int), ParseError>
    decreases depth,
{
    let t = ts[pos];
    if depth == 0 {
        Err(ParseError { kind: ParseErrorKind::MaxNestingExceeded, at: t.start })
    } else if spec_is_leaf_kind(t.kind) {
        match spec_leaf(t) {
            Ok(e) => Ok((e, pos + 1)),
            Err(pe) => Err(pe),
        }
    } else if spec_opening(t.kind) is Some {
        let k = spec_opening(t.kind)->0;
        match spec_primary(ts, pos + 1, k, (depth - 1) as nat) {
            Err(pe) => Err(pe),
            Ok((e0, p1)) => match spec_extend(ts, p1, 0, e0, k, (depth - 1) as nat) {
                Err(pe) => Err(pe),
                Ok((e1, p2)) => {
                    if spec_closing(ts[p2].kind) == Some(k) {
                        Ok((e1, p2 + 1))
                    } else if ts[p2].kind == TokenKind::Eof {
                        Err(ParseError { kind: ParseErrorKind::UnclosedContainer, at: ts[p2].start })
                    } else {
                        Err(ParseError { kind: ParseErrorKind::MismatchedCloser, at: ts[p2].start })
                    }
                },
            },
        }
    } else if spec_closing(t.kind) is Some {
        if spec_closing(t.kind) == Some(container) {
            Ok((SpecExpr::Empty, pos))
        } else if t.kind == TokenKind::Eof {
            Err(ParseError { kind: ParseErrorKind::UnclosedContainer, at: t.start })
        } else {
            Err(ParseError { kind: ParseErrorKind::MismatchedCloser, at: t.start })
        }
    } else if spec_operator(t.kind) is Some {
        let op = spec_operator(t.kind)->0;
        if spec_is_unary(op) {
            match spec_primary(ts, pos + 1, container, (depth - 1) as nat) {
                Err(pe) => Err(pe),
                Ok((e0, p1)) => match spec_extend(
                    ts,
                    p1,
                    spec_precedence(t.kind) + 1,
                    e0,
                    container,
                    (depth - 1) as nat,
                ) {
                    Err(pe) => Err(pe),
                    Ok((e1, p2)) => Ok((SpecExpr::Unary(op, Box::new(e1)), p2)),
                },
            }
        } else {
            Err(ParseError { kind: ParseErrorKind::IllegalUnaryOperator, at: t.start })
        }
    } else if t.kind == TokenKind::Invalid {
        Err(ParseError { kind: ParseErrorKind::InvalidLiteral, at: t.start })
    } else {
        Err(ParseError { kind: ParseErrorKind::UnexpectedToken, at: t.start })
    }
}

/// Extends `left` with continuations of at least `min_prec`: commas
/// build lists, colons tag, dots access, binary operators combine;
/// stops, without consuming, at the container's closer or at a weaker
/// continuation.
pub open spec fn spec_extend(
    ts: Seq<SpecToken>,
    pos: int,
    min_prec: int,
    left: SpecExpr,
    container: Container,
    depth: nat,
) -> Result<(SpecExpr, int), ParseError>
    decreases depth,
{
    let t = ts[pos];
    let p = spec_precedence(t.kind);
    if depth == 0 {
        Err(ParseError { kind: ParseErrorKind::MaxNestingExceeded, at: t.start })
    } else if spec_closing(t.kind) is Some {
        if spec_closing(t.kind) == Some(container) {
            Ok((left, pos))
        } else if t.kind == TokenKind::Eof {
            Err(ParseError { kind: ParseErrorKind::UnclosedContainer, at: t.start })
        } else {
            Err(ParseError { kind: ParseErrorKind::MismatchedCloser, at: t.start })
        }
    } else if p == -1 {
        Err(ParseError { kind: ParseErrorKind::UnexpectedToken, at: t.start })
    } else if p < min_prec {
        Ok((left, pos))
    } else if !(t.kind == TokenKind::Comma || t.kind == TokenKind::Colon || t.kind
        == TokenKind::Dot) && !(spec_operator(t.kind) is Some && spec_is_binary(
        spec_operator(t.kind)->0,
    )) {
        // no rule combines with this token: the unfinished
        // continuations (qualified names, pipes, call brackets) and
        // the unary-only operators
        if spec_operator(t.kind) is Some {
            Err(ParseError { kind: ParseErrorKind::IllegalUnaryOperator, at: t.start })
        } else {
            Err(ParseError { kind: ParseErrorKind::UnexpectedToken, at: t.start })
        }
    } else {
        match spec_primary(ts, pos + 1, container, (depth - 1) as nat) {
            Err(pe) => Err(pe),
            Ok((r0, p1)) => {
                let np = spec_precedence(ts[p1].kind);
                let right = if p < np {
                    spec_extend(ts, p1, p + 1, r0, container, (depth - 1) as nat)
                } else {
                    Ok((r0, p1))
                };
                match right {
                    Err(pe) => Err(pe),
                    Ok((r1, p2)) => {
                        if t.kind == TokenKind::Comma {
                            let combined = match left {
                                SpecExpr::List(c, es) => if c == container {
                                    SpecExpr::List(c, es.push(r1))
                                } else {
                                    SpecExpr::List(container, seq![left, r1])
                                },
                                _ => SpecExpr::List(container, seq![left, r1]),
                            };
                            spec_extend(ts, p2, min_prec, combined, container, (depth - 1) as nat)
                        } else if t.kind == TokenKind::Colon {
                            match left {
                                SpecExpr::Identifier(name) => spec_extend(
                                    ts,
                                    p2,
                                    min_prec,
                                    SpecExpr::Tagged(name, Box::new(r1)),
                                    container,
                                    (depth - 1) as nat,
                                ),
                                _ => Err(
                                    ParseError {
                                        kind: ParseErrorKind::TaggedLhsNotIdentifier,
                                        at: t.start,
                                    },
                                ),
                            }
                        } else if t.kind == TokenKind::Dot {
                            match r1 {
                                SpecExpr::Identifier(name) => spec_extend(
                                    ts,
                                    p2,
                                    min_prec,
                                    SpecExpr::Access(Box::new(left), name),
                                    container,
                                    (depth - 1) as nat,
                                ),
                                _ => Err(
                                    ParseError {
                                        kind: ParseErrorKind::AccessRhsNotIdentifier,
                                        at: t.start,
                                    },
                                ),
                            }
                        } else {
                            spec_extend(
                                ts,
                                p2,
                                min_prec,
                                SpecExpr::Binary(
                                    spec_operator(t.kind)->0,
                                    Box::new(left),
                                    Box::new(r1),
                                ),
                                container,
                                (depth - 1) as nat,
                            )
                        }
                    },
                }
            },
        }
    }
}

/// The whole parse from `pos`: one primary expression, extended as far
/// as the continuations reach, up to the end of the file.
pub open spec fn spec_parse(ts: Seq<SpecToken>, pos: int, depth: nat) -> Result<
    SpecExpr,
    ParseError,
> {
    match spec_primary(ts, pos, Container::File, depth) {
        Err(pe) => Err(pe),
        Ok((e0, p1)) => match spec_extend(ts, p1, 0, e0, Container::File, depth) {
            Err(pe) => Err(pe),
            Ok((e1, p2)) => Ok(e1),
        },
    }
}

/// The token stream with the noise tokens (newlines and comments)
/// dropped: the parser reads past them everywhere.
pub open spec fn spec_filter_noise(ts: Seq<SpecToken>) -> Seq<SpecToken>
    decreases ts.len(),
{
    if ts.len() == 0 {
        Seq::empty()
    } else if ts[0].kind == TokenKind::NewLine || ts[0].kind == TokenKind::Comment {
        spec_filter_noise(ts.drop_first())
    } else {
        seq![ts[0]] + spec_filter_noise(ts.drop_first())
    }
}

/// A well-formed token stream: it ends with its only `Eof` token.
pub open spec fn stream_wf(ts: Seq<SpecToken>) -> bool {
    &&& ts.len() >= 1
    &&& ts.last().kind == TokenKind::Eof
    &&& forall|k: int| 0 <= k < ts.len() - 1 ==> (#[trigger] ts[k].kind) != TokenKind::Eof
}

// ---------------------------------------------------------------------------
// The parser
// ---------------------------------------------------------------------------
/// The deepest the parse may recurse, counting every step of the
/// climb; beyond it the parse fails with `MaxNestingExceeded` rather
/// than overflow the call stack.
pub const MAX_PARSE_DEPTH: usize = 4096;

/// Reads one expression tree out of a token stream by precedence
/// climbing.
pub struct Parser<'a> {
    tokens: Vec<Token<'a>>,
    cursor: usize,
}

/// Whether the token stands for itself as an expression leaf.
fn is_leaf_token(t: &Token<'_>) -> (r: bool)
    ensures
        r == spec_is_leaf_kind(t.kind),
{
    match t.kind {
        TokenKind::DecLiteral | TokenKind::HexLiteral | TokenKind::OctLiteral
            | TokenKind::BinLiteral | TokenKind::FloatLiteral | TokenKind::ImaginaryLiteral
            | TokenKind::StringLiteral | TokenKind::Identifier => true,
        _ => false,
    }
}

/// The integer expression a literal token stands for.
fn int_leaf(t: &Token<'_>, from: usize, radix: u32) -> (r: Result<Expression, ParseError>)
    requires
        radix == 2 || radix == 8 || radix == 10 || radix == 16,
    ensures
        match spec_int_leaf(t@, from as int, radix as int) {
            Ok(e) => r is Ok && (r matches Ok(ex) ==> ex@ == e),
            Err(pe) => r == Err::<Expression, ParseError>(pe),
        },
{
    let n = t.value.unicode_len();
    if n < from {
        return Err(ParseError { kind: ParseErrorKind::InvalidLiteral, at: t.start });
    }
    match parse_int(t.value, from, radix) {
        Some(v) => Ok(Expression::IntLiteral(v)),
        None => Err(ParseError { kind: ParseErrorKind::InvalidLiteral, at: t.start }),
    }
}

/// The expression a leaf token stands for: integer literals read in
/// their radix, string literals unescaped, float and imaginary
/// literals carrying their text.
fn leaf_expression(t: &Token<'_>) -> (r: Result<Expression, ParseError>)
    ensures
        match spec_leaf(t@) {
            Ok(e) => r is Ok && (r matches Ok(ex) ==> ex@ == e),
            Err(pe) => r == Err::<Expression, ParseError>(pe),
        },
{
    match t.kind {
        TokenKind::DecLiteral => int_leaf(t, 0, 10),
        TokenKind::HexLiteral => int_leaf(t, 2, 16),
        TokenKind::OctLiteral => int_leaf(t, 2, 8),
        TokenKind::BinLiteral => int_leaf(t, 2, 2),
        TokenKind::FloatLiteral => Ok(Expression::FloatLiteral(String::from_str(t.value))),
        TokenKind::ImaginaryLiteral => {
            let n = t.value.unicode_len();
            if n >= 1 && t.value.get_char(n - 1) == 'i' {
                let body = t.value.substring_char(0, n - 1);
                proof {
                    assert(body@ =~= t@.text.drop_last());
                }
                Ok(Expression::ImaginaryLiteral(String::from_str(body)))
            } else {
                Ok(Expression::ImaginaryLiteral(String::from_str(t.value)))
            }
        },
        TokenKind::StringLiteral => match unescape_string(t.value) {
            Some(s) => Ok(Expression::StringLiteral(s)),
            None => Err(ParseError { kind: ParseErrorKind::InvalidLiteral, at: t.start }),
        },
        TokenKind::Identifier => Ok(Expression::Identifier(String::from_str(t.value))),
        _ => Err(ParseError { kind: ParseErrorKind::UnexpectedToken, at: t.start }),
    }
}

impl<'a> Parser<'a> {
    /// The views of the tokens the parser walks.
    pub closed spec fn toks(&self) -> Seq<SpecToken> {
        token_views(self.tokens@)
    }

    /// The cursor: the index of the next token to read.
    pub closed spec fn pos(&self) -> int {
        self.cursor as int
    }

    /// The parser's internal consistency: a well-formed stream, the
    /// cursor inside it.
    pub closed spec fn wf(&self) -> bool {
        &&& stream_wf(self.toks())
        &&& self.cursor < self.tokens@.len()
    }

    /// Tokenizes the source and keeps everything but the noise tokens.
    pub fn new(source: &'a str) -> (p: Parser<'a>)
        ensures
            p.wf(),
            p.toks() == spec_filter_noise(spec_tokens(source@, 0)),
            p.pos() == 0,
    {
        let all = tokenize(source);
        let ghost full = token_views(all@);
        let mut tokens: Vec<Token<'a>> = Vec::new();
        let mut i: usize = 0;
        let n = all.len();
        proof {
            assert(full.skip(0) =~= full);
            assert(token_views(tokens@) + spec_filter_noise(full.skip(0)) =~= spec_filter_noise(
                full,
            ));
        }
        while i < n
            invariant
                n == all@.len(),
                i <= n,
                full == token_views(all@),
                spec_filter_noise(full) == token_views(tokens@) + spec_filter_noise(
                    full.skip(i as int),
                ),
            decreases n - i,
        {
            let ghost views0 = token_views(tokens@);
            let ghost rem = full.skip(i as int);
            proof {
                assert(rem[0] == full[i as int]);
                assert(full[i as int] == all@[i as int]@);
                assert(rem.drop_first() =~= full.skip(i + 1));
            }
            let t = all[i];
            if !(t.kind == TokenKind::NewLine || t.kind == TokenKind::Comment) {
                tokens.push(t);
                proof {
                    assert(token_views(tokens@) =~= views0 + seq![t@]);
                    assert(views0 + (seq![t@] + spec_filter_noise(full.skip(i + 1))) =~= (views0
                        + seq![t@]) + spec_filter_noise(full.skip(i + 1)));
                }
            }
            i = i + 1;
        }
        proof {
            assert(full.skip(n as int) =~= Seq::<SpecToken>::empty());
            assert(token_views(tokens@) + Seq::<SpecToken>::empty() =~= token_views(tokens@));
            lemma_tokens_shape(source@, 0);
            lemma_filter_noise_wf(full);
        }
        Parser { tokens, cursor: 0 }
    }

    /// One primary expression at the cursor, per the model
    /// [`spec_primary`].
    fn parse_primary_expression(&mut self, container: Container, depth: usize) -> (r: Result<
        Expression,
        ParseError,
    >)
        requires
            old(self).wf(),
        ensures
            final(self).wf(),
            final(self).toks() == old(self).toks(),
            match spec_primary(old(self).toks(), old(self).pos(), container, depth as nat) {
                Ok((e, p)) => r is Ok && (r matches Ok(ex) ==> ex@ == e) && final(self).pos() == p,
                Err(pe) => r == Err::<Expression, ParseError>(pe),
            },
        decreases depth,
    {
        let ghost ts = self.toks();
        // the stream length is a usize, so the cursor can step in bounds
        let _n = self.tokens.len();
        proof {
            assert(ts[self.pos()] == self.tokens@[self.cursor as int]@);
        }
        let t = self.tokens[self.cursor];
        if depth == 0 {
            return Err(ParseError { kind: ParseErrorKind::MaxNestingExceeded, at: t.start });
        }
        if is_leaf_token(&t) {
            match leaf_expression(&t) {
                Ok(e) => {
                    self.cursor = self.cursor + 1;
                    return Ok(e);
                },
                Err(pe) => {
                    return Err(pe);
                },
            }
        }
        match t.opening() {
            Some(k) => {
                self.cursor = self.cursor + 1;
                let e0 = match self.parse_primary_expression(k, depth - 1) {
                    Ok(e) => e,
                    Err(pe) => {
                        return Err(pe);
                    },
                };
                let e1 = match self.continue_parsing(0, e0, k, depth - 1) {
                    Ok(e) => e,
                    Err(pe) => {
                        return Err(pe);
                    },
                };
                proof {
                    assert(ts[self.pos()] == self.tokens@[self.cursor as int]@);
                }
                let t2 = self.tokens[self.cursor];
                match t2.closing() {
                    Some(c2) => {
                        if c2 == k {
                            self.cursor = self.cursor + 1;
                            return Ok(e1);
                        }
                    },
                    None => {},
                }
                if t2.kind == TokenKind::Eof {
                    return Err(
                        ParseError { kind: ParseErrorKind::UnclosedContainer, at: t2.start },
                    );
                }
                return Err(ParseError { kind: ParseErrorKind::MismatchedCloser, at: t2.start });
            },
            None => {},
        }
        match t.closing() {
            Some(c) => {
                if c == container {
                    return Ok(Expression::Empty);
                }
                if t.kind == TokenKind::Eof {
                    return Err(ParseError { kind: ParseErrorKind::UnclosedContainer, at: t.start });
                }
                return Err(ParseError { kind: ParseErrorKind::MismatchedCloser, at: t.start });
            },
            None => {},
        }
        match t.operator() {
            Some(op) => {
                if op.is_unary() {
                    self.cursor = self.cursor + 1;
                    let prec = t.precedence();
                    let e0 = match self.parse_primary_expression(container, depth - 1) {
                        Ok(e) => e,
                        Err(pe) => {
                            return Err(pe);
                        },
                    };
                    let e1 = match self.continue_parsing(prec + 1, e0, container, depth - 1) {
                        Ok(e) => e,
                        Err(pe) => {
                            return Err(pe);
                        },
                    };
                    return Ok(Expression::Unary(op, Box::new(e1)));
                }
                return Err(ParseError { kind: ParseErrorKind::IllegalUnaryOperator, at: t.start });
            },
            None => {},
        }
        if t.kind == TokenKind::Invalid {
            return Err(ParseError { kind: ParseErrorKind::InvalidLiteral, at: t.start });
        }
        Err(ParseError { kind: ParseErrorKind::UnexpectedToken, at: t.start })
    }

    /// Extends an expression with the continuations at the cursor, per
    /// the model [`spec_extend`].
    fn continue_parsing(
        &mut self,
        last_precedence: i8,
        last_expression: Expression,
        container: Container,
        depth: usize,
    ) -> (r: Result<Expression, ParseError>)
        requires
            old(self).wf(),
        ensures
            final(self).wf(),
            final(self).toks() == old(self).toks(),
            match spec_extend(
                old(self).toks(),
                old(self).pos(),
                last_precedence as int,
                expr_view(last_expression),
                container,
                depth as nat,
            ) {
                Ok((e, p)) => r is Ok && (r matches Ok(ex) ==> ex@ == e) && final(self).pos() == p,
                Err(pe) => r == Err::<Expression, ParseError>(pe),
            },
        decreases depth,
    {
        let ghost ts = self.toks();
        // the stream length is a usize, so the cursor can step in bounds
        let _n = self.tokens.len();
        proof {
            assert(ts[self.pos()] == self.tokens@[self.cursor as int]@);
        }
        let t = self.tokens[self.cursor];
        if depth == 0 {
            return Err(ParseError { kind: ParseErrorKind::MaxNestingExceeded, at: t.start });
        }
        let p = t.precedence();
        match t.closing() {
            Some(c) => {
                if c == container {
                    return Ok(last_expression);
                }
                if t.kind == TokenKind::Eof {
                    return Err(ParseError { kind: ParseErrorKind::UnclosedContainer, at: t.start });
                }
                return Err(ParseError { kind: ParseErrorKind::MismatchedCloser, at: t.start });
            },
            None => {},
        }
        if p == -1 {
            return Err(ParseError { kind: ParseErrorKind::UnexpectedToken, at: t.start });
        }
        if p < last_precedence {
            return Ok(last_expression);
        }
        // which rule combines with this token; the unfinished
        // continuations (qualified names, pipes, call brackets) and the
        // unary-only operators combine with none
        let is_comma = t.kind == TokenKind::Comma;
        let is_colon = t.kind == TokenKind::Colon;
        let is_dot = t.kind == TokenKind::Dot;
        let combine_op: Option<Operator> = if is_comma || is_colon || is_dot {
            None
        } else {
            match t.operator() {
                Some(op) => {
                    if !op.is_binary() {
                        return Err(
                            ParseError { kind: ParseErrorKind::IllegalUnaryOperator, at: t.start },
                        );
                    }
                    Some(op)
                },
                None => {
                    return Err(ParseError { kind: ParseErrorKind::UnexpectedToken, at: t.start });
                },
            }
        };
        self.cursor = self.cursor + 1;
        let r0 = match self.parse_primary_expression(container, depth - 1) {
            Ok(e) => e,
            Err(pe) => {
                return Err(pe);
            },
        };
        proof {
            assert(ts[self.pos()] == self.tokens@[self.cursor as int]@);
        }
        let np = self.tokens[self.cursor].precedence();
        let r1 = if p < np {
            match self.continue_parsing(p + 1, r0, container, depth - 1) {
                Ok(e) => e,
                Err(pe) => {
                    return Err(pe);
                },
            }
        } else {
            r0
        };
        let combined = match combine_op {
            Some(op) => Expression::Binary(op, Box::new(last_expression), Box::new(r1)),
            None => {
                if is_comma {
                    match last_expression {
                        Expression::List(c, es) => {
                            if c == container {
                                let mut es = es;
                                let ghost es0 = es@;
                                es.push(r1);
                                proof {
                                    assert(es@.drop_last() =~= es0);
                                    assert(exprs_view(es@) =~= exprs_view(es0).push(
                                        expr_view(es@.last()),
                                    ));
                                }
                                Expression::List(c, es)
                            } else {
                                let mut v: Vec<Expression> = Vec::new();
                                v.push(Expression::List(c, es));
                                v.push(r1);
                                proof {
                                    lemma_exprs_view_pair(v@);
                                }
                                Expression::List(container, v)
                            }
                        },
                        other => {
                            let mut v: Vec<Expression> = Vec::new();
                            v.push(other);
                            v.push(r1);
                            proof {
                                lemma_exprs_view_pair(v@);
                            }
                            Expression::List(container, v)
                        },
                    }
                } else if is_colon {
                    match last_expression {
                        Expression::Identifier(name) => Expression::Tagged(
                            Identifier { id: name },
                            Box::new(r1),
                        ),
                        _ => {
                            return Err(
                                ParseError {
                                    kind: ParseErrorKind::TaggedLhsNotIdentifier,
                                    at: t.start,
                                },
                            );
                        },
                    }
                } else {
                    match r1 {
                        Expression::Identifier(name) => Expression::Access(
                            Box::new(last_expression),
                            Identifier { id: name },
                        ),
                        _ => {
                            return Err(
                                ParseError {
                                    kind: ParseErrorKind::AccessRhsNotIdentifier,
                                    at: t.start,
                                },
                            );
                        },
                    }
                }
            },
        };
        self.continue_parsing(last_precedence, combined, container, depth - 1)
    }

    /// Parses the whole stream into one expression, or fails with the
    /// first structural error, per the model [`spec_parse`].
    pub fn parse(&mut self) -> (r: Result<Expression, ParseError>)
        requires
            old(self).wf(),
        ensures
            final(self).wf(),
            match spec_parse(old(self).toks(), old(self).pos(), MAX_PARSE_DEPTH as nat) {
                Ok(e) => r is Ok && (r matches Ok(ex) ==> ex@ == e),
                Err(pe) => r == Err::<Expression, ParseError>(pe),
            },
    {
        let e0 = match self.parse_primary_expression(Container::File, MAX_PARSE_DEPTH) {
            Ok(e) => e,
            Err(pe) => {
                return Err(pe);
            },
        };
        self.continue_parsing(0, e0, Container::File, MAX_PARSE_DEPTH)
    }
}

/// The images of a two-element list.
proof fn lemma_exprs_view_pair(es: Seq<Expression>)
    requires
        es.len() == 2,
    ensures
        exprs_view(es) == seq![expr_view(es[0]), expr_view(es[1])],
{
    let dl = es.drop_last();
    assert(dl.drop_last() =~= Seq::<Expression>::empty());
    assert(exprs_view(dl.drop_last()) == Seq::<SpecExpr>::empty());
    assert(dl.last() == es[0]);
    assert(exprs_view(dl) == exprs_view(dl.drop_last()).push(expr_view(dl.last())));
    assert(exprs_view(es) == exprs_view(dl).push(expr_view(es.last())));
    assert(es.last() == es[1]);
    assert(exprs_view(es) =~= seq![expr_view(es[0]), expr_view(es[1])]);
}

/// The images of the elements, one by one.
pub proof fn lemma_exprs_view_index(es: Seq<Expression>)
    ensures
        exprs_view(es).len() == es.len(),
        forall|i: int| 0 <= i < es.len() ==> exprs_view(es)[i] == expr_view(#[trigger] es[i]),
    decreases es.len(),
{
    if es.len() > 0 {
        let dl = es.drop_last();
        lemma_exprs_view_index(dl);
        assert forall|i: int| 0 <= i < es.len() implies exprs_view(es)[i] == expr_view(
            #[trigger] es[i],
        ) by {
            if i < es.len() - 1 {
                assert(dl[i] == es[i]);
                assert(exprs_view(es)[i] == exprs_view(dl)[i]);
            } else {
                assert(es.last() == es[i]);
            }
        }
    }
}

/// Whether two expressions have the same shape and the same values.
#[verifier::loop_isolation(false)]
fn expr_eq(a: &Expression, b: &Expression) -> (r: bool)
    ensures
        r == (a@ == b@),
    decreases *a,
{
    match (a, b) {
        (Expression::IntLiteral(x), Expression::IntLiteral(y)) => x == y,
        (Expression::FloatLiteral(s1), Expression::FloatLiteral(s2)) => str_eq(
            s1.as_str(),
            s2.as_str(),
        ),
        (Expression::ImaginaryLiteral(s1), Expression::ImaginaryLiteral(s2)) => str_eq(
            s1.as_str(),
            s2.as_str(),
        ),
        (Expression::StringLiteral(s1), Expression::StringLiteral(s2)) => str_eq(
            s1.as_str(),
            s2.as_str(),
        ),
        (Expression::Identifier(s1), Expression::Identifier(s2)) => str_eq(
            s1.as_str(),
            s2.as_str(),
        ),
        (Expression::Unary(o1, e1), Expression::Unary(o2, e2)) => *o1 == *o2 && expr_eq(
            &**e1,
            &**e2,
        ),
        (Expression::Binary(o1, l1, r1), Expression::Binary(o2, l2, r2)) => *o1 == *o2 && expr_eq(
            &**l1,
            &**l2,
        ) && expr_eq(&**r1, &**r2),
        (Expression::List(c1, v1), Expression::List(c2, v2)) => {
            proof {
                lemma_exprs_view_index(v1@);
                lemma_exprs_view_index(v2@);
            }
            if *c1 != *c2 {
                return false;
            }
            let n1 = v1.len();
            if n1 != v2.len() {
                return false;
            }
            let mut i: usize = 0;
            while i < n1
                invariant
                    i <= n1,
                    n1 == v1@.len(),
                    n1 == v2@.len(),
                    forall|k: int| 0 <= k < i ==> expr_view(#[trigger] v1@[k]) == expr_view(v2@[k]),
                decreases n1 - i,
            {
                proof {
                    assert(decreases_to!(*a => *v1));
                    assert(decreases_to!(*v1 => v1@[i as int]));
                }
                if !expr_eq(&v1[i], &v2[i]) {
                    proof {
                        lemma_exprs_view_index(v1@);
                        lemma_exprs_view_index(v2@);
                    }
                    return false;
                }
                i = i + 1;
            }
            proof {
                lemma_exprs_view_index(v1@);
                lemma_exprs_view_index(v2@);
                assert forall|k: int| 0 <= k < v1@.len() implies exprs_view(v1@)[k] == exprs_view(
                    v2@,
                )[k] by {
                    assert(expr_view(v1@[k]) == expr_view(v2@[k]));
                }
                assert(exprs_view(v1@) =~= exprs_view(v2@));
            }
            true
        },
        (Expression::Access(b1, m1), Expression::Access(b2, m2)) => expr_eq(&**b1, &**b2)
            && str_eq(m1.id.as_str(), m2.id.as_str()),
        (Expression::Tagged(n1, e1), Expression::Tagged(n2, e2)) => str_eq(
            n1.id.as_str(),
            n2.id.as_str(),
        ) && expr_eq(&**e1, &**e2),
        (Expression::Empty, Expression::Empty) => true,
        _ => false,
    }
}

impl PartialEq for Expression {
    /// Expressions are equal when their trees have the same shape and
    /// the same values.
    fn eq(&self, other: &Self) -> (r: bool) {
        expr_eq(self, other)
    }
}

impl vstd::std_specs::cmp::PartialEqSpecImpl for Expression {
    open spec fn obeys_eq_spec() -> bool {
        true
    }

    open spec fn eq_spec(&self, other: &Self) -> bool {
        self@ == other@
    }
}

impl PartialEq for Identifier {
    /// Identifiers are equal when their names are.
    fn eq(&self, other: &Self) -> (r: bool) {
        str_eq(self.id.as_str(), other.id.as_str())
    }
}

impl vstd::std_specs::cmp::PartialEqSpecImpl for Identifier {
    open spec fn obeys_eq_spec() -> bool {
        true
    }

    open spec fn eq_spec(&self, other: &Self) -> bool {
        self.id@ == other.id@
    }
}

/// Parses source text: tokenize, drop the noise, climb.  The single
/// entry point composing the two passes.
pub fn parse(source: &str) -> (r: Result<Expression, ParseError>)
    ensures
        match spec_parse(
            spec_filter_noise(spec_tokens(source@, 0)),
            0,
            MAX_PARSE_DEPTH as nat,
        ) {
            Ok(e) => r is Ok && (r matches Ok(ex) ==> ex@ == e),
            Err(pe) => r == Err::<Expression, ParseError>(pe),
        },
{
    let mut parser = Parser::new(source);
    parser.parse()
}

/// Dropping the noise tokens keeps the stream well formed.
pub proof fn lemma_filter_noise_wf(ts: Seq<SpecToken>)
    requires
        ts.len() >= 1,
        ts.last().kind == TokenKind::Eof,
        forall|k: int| 0 <= k < ts.len() - 1 ==> (#[trigger] ts[k].kind) != TokenKind::Eof,
    ensures
        stream_wf(spec_filter_noise(ts)),
    decreases ts.len(),
{
    if ts.len() == 1 {
        let e = ts.drop_first();
        assert(e.len() == 0);
        assert(spec_filter_noise(e) == Seq::<SpecToken>::empty());
        assert(ts[0].kind == TokenKind::Eof);
        assert(spec_filter_noise(ts) == seq![ts[0]] + spec_filter_noise(e));
        assert(spec_filter_noise(ts) =~= seq![ts[0]]);
    } else {
        let rest = ts.drop_first();
        assert(rest.last() == ts.last());
        assert(forall|k: int|
            0 <= k < rest.len() - 1 ==> (#[trigger] rest[k].kind) != TokenKind::Eof);
        lemma_filter_noise_wf(rest);
        if !(ts[0].kind == TokenKind::NewLine || ts[0].kind == TokenKind::Comment) {
            let f = spec_filter_noise(ts);
            let fr = spec_filter_noise(rest);
            assert(f == seq![ts[0]] + fr);
            assert(f.last() == fr.last());
            assert(forall|k: int|
                0 <= k < f.len() - 1 ==> (#[trigger] f[k].kind) != TokenKind::Eof) by {
                assert forall|k: int| 0 <= k < f.len() - 1 implies (#[trigger] f[k].kind)
                    != TokenKind::Eof by {
                    if k > 0 {
                        assert(f[k] == fr[k - 1]);
                    }
                }
            }
        }
    }
}

} // verus!
