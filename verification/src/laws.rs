//! Laws of the parse, proved once and for all against the model.
//!
//! The statements quantify over tokens, not texts: a token is a leaf
//! or an operator by its kind alone, so each law covers every literal
//! value, every identifier and every operator at once.

use vstd::prelude::*;

use crate::chars::spec_is_digit;
use crate::literals::spec_int_value;
use crate::parser::{
    spec_closing, spec_extend, spec_filter_noise, spec_is_binary, spec_is_leaf_kind,
    spec_is_unary, spec_leaf, spec_opening, spec_operator, spec_parse, spec_precedence,
    spec_primary, stream_wf, Container, ParseError, SpecExpr,
};
use crate::tokenizer::{
    lemma_skip_spaces_bounds, lemma_tokens_shape, spec_digit_run_end, spec_exp_end,
    spec_fraction_scan, spec_is_space, spec_number_scan, spec_scan, spec_skip_spaces,
    spec_token_of, spec_tokens, SpecToken, TokenKind,
};

verus! {

/// A leaf token that stands for the expression `e`.
pub open spec fn leaf_for(t: SpecToken, e: SpecExpr) -> bool {
    spec_is_leaf_kind(t.kind) && spec_leaf(t) == Ok::<SpecExpr, ParseError>(e)
}

/// A token that stands for a binary-capable operator.
pub open spec fn binary_op_token(t: SpecToken) -> bool {
    spec_operator(t.kind) is Some && spec_is_binary(spec_operator(t.kind)->0)
}

/// Precedence law.  For any two binary operators and any three leaf
/// operands, `a OP1 b OP2 c` parses as `(a OP1 b) OP2 c` whenever
/// `OP1` binds at least as tightly as `OP2`: tighter operators bind
/// first, and operators of equal precedence associate to the left.
pub proof fn lemma_binary_precedence(
    a: SpecToken,
    o1: SpecToken,
    b: SpecToken,
    o2: SpecToken,
    c: SpecToken,
    eof: SpecToken,
    ea: SpecExpr,
    eb: SpecExpr,
    ec: SpecExpr,
    depth: nat,
)
    requires
        leaf_for(a, ea),
        leaf_for(b, eb),
        leaf_for(c, ec),
        binary_op_token(o1),
        binary_op_token(o2),
        spec_precedence(o1.kind) >= spec_precedence(o2.kind),
        eof.kind == TokenKind::Eof,
        depth >= 3,
    ensures
        spec_parse(seq![a, o1, b, o2, c, eof], 0, depth) == Ok::<SpecExpr, ParseError>(
            SpecExpr::Binary(
                spec_operator(o2.kind)->0,
                Box::new(
                    SpecExpr::Binary(spec_operator(o1.kind)->0, Box::new(ea), Box::new(eb)),
                ),
                Box::new(ec),
            ),
        ),
{
    let ts = seq![a, o1, b, o2, c, eof];
    let d1 = (depth - 1) as nat;
    let d2 = (depth - 2) as nat;
    let op1 = spec_operator(o1.kind)->0;
    let op2 = spec_operator(o2.kind)->0;
    let inner = SpecExpr::Binary(op1, Box::new(ea), Box::new(eb));
    let outer = SpecExpr::Binary(op2, Box::new(inner), Box::new(ec));
    assert(spec_primary(ts, 0, Container::File, depth) == Ok::<(SpecExpr, int), ParseError>(
        (ea, 1),
    ));
    assert(spec_primary(ts, 2, Container::File, d1) == Ok::<(SpecExpr, int), ParseError>(
        (eb, 3),
    ));
    assert(spec_primary(ts, 4, Container::File, d2) == Ok::<(SpecExpr, int), ParseError>(
        (ec, 5),
    ));
    assert(spec_extend(ts, 5, 0, outer, Container::File, d2)
        == Ok::<(SpecExpr, int), ParseError>((outer, 5)));
    assert(spec_extend(ts, 3, 0, inner, Container::File, d1)
        == Ok::<(SpecExpr, int), ParseError>((outer, 5)));
    assert(spec_extend(ts, 1, 0, ea, Container::File, depth)
        == Ok::<(SpecExpr, int), ParseError>((outer, 5)));
}

/// The tail of a comma-separated chain: from `pos` on, the stream
/// alternates a comma and a leaf of `ls`, and then closes the file.
pub open spec fn comma_chain(ts: Seq<SpecToken>, pos: int, ls: Seq<SpecToken>) -> bool
    decreases ls.len(),
{
    if ls.len() == 0 {
        pos == ts.len() - 1
    } else {
        &&& pos + 2 <= ts.len() - 1
        &&& ts[pos].kind == TokenKind::Comma
        &&& ts[pos + 1] == ls[0]
        &&& comma_chain(ts, pos + 2, ls.drop_first())
    }
}

/// The leaves that the tokens of `ls` stand for, one each.
pub open spec fn leaves_for(ls: Seq<SpecToken>, es: Seq<SpecExpr>) -> bool {
    &&& es.len() == ls.len()
    &&& forall|i: int| 0 <= i < ls.len() ==> leaf_for(#[trigger] ls[i], es[i])
}

/// Extending a file-level list over a comma chain appends exactly the
/// chain's leaves, in order.
proof fn lemma_comma_chain_extend(
    ts: Seq<SpecToken>,
    pos: int,
    ls: Seq<SpecToken>,
    es: Seq<SpecExpr>,
    acc: Seq<SpecExpr>,
    depth: nat,
)
    requires
        stream_wf(ts),
        0 <= pos,
        comma_chain(ts, pos, ls),
        leaves_for(ls, es),
        depth >= 2 * ls.len() + 1,
    ensures
        spec_extend(ts, pos, 0, SpecExpr::List(Container::File, acc), Container::File, depth)
            == Ok::<(SpecExpr, int), ParseError>(
            (SpecExpr::List(Container::File, acc + es), ts.len() - 1),
        ),
    decreases ls.len(),
{
    let left = SpecExpr::List(Container::File, acc);
    if ls.len() == 0 {
        assert(ts[pos].kind == TokenKind::Eof);
        assert(acc + es =~= acc);
        assert(spec_extend(ts, pos, 0, left, Container::File, depth)
            == Ok::<(SpecExpr, int), ParseError>((left, pos)));
    } else {
        let d1 = (depth - 1) as nat;
        assert(ts[pos + 1] == ls[0]);
        assert(leaf_for(ls[0], es[0]));
        assert(spec_primary(ts, pos + 1, Container::File, d1)
            == Ok::<(SpecExpr, int), ParseError>((es[0], pos + 2)));
        // the token after the leaf is the next comma or the end of the
        // file, so nothing binds tighter than the comma here
        assert(comma_chain(ts, pos + 2, ls.drop_first()));
        if ls.len() == 1 {
            assert(pos + 2 == ts.len() - 1);
            assert(ts[pos + 2].kind == TokenKind::Eof);
        } else {
            assert(ts[pos + 2].kind == TokenKind::Comma);
        }
        assert(spec_precedence(ts[pos + 2].kind) <= 1);
        let combined = SpecExpr::List(Container::File, acc.push(es[0]));
        lemma_comma_chain_extend(ts, pos + 2, ls.drop_first(), es.drop_first(), acc.push(es[0]), d1);
        assert(acc.push(es[0]) + es.drop_first() =~= acc + es);
        assert(spec_extend(ts, pos, 0, left, Container::File, depth)
            == spec_extend(ts, pos + 2, 0, combined, Container::File, d1));
    }
}

/// Comma-list law.  A file whose tokens are leaves separated by
/// commas parses as one file-level list holding exactly those leaves'
/// expressions, in source order.
pub proof fn lemma_parse_comma_list(
    ts: Seq<SpecToken>,
    ls: Seq<SpecToken>,
    es: Seq<SpecExpr>,
    depth: nat,
)
    requires
        stream_wf(ts),
        ls.len() >= 2,
        leaves_for(ls, es),
        ts.len() >= 2,
        ts[0] == ls[0],
        comma_chain(ts, 1, ls.drop_first()),
        depth >= 2 * ls.len() + 2,
    ensures
        spec_parse(ts, 0, depth) == Ok::<SpecExpr, ParseError>(
            SpecExpr::List(Container::File, es),
        ),
{
    let d1 = (depth - 1) as nat;
    assert(leaf_for(ls[0], es[0]));
    assert(spec_primary(ts, 0, Container::File, depth) == Ok::<(SpecExpr, int), ParseError>(
        (es[0], 1),
    ));
    // the first comma finds a plain expression on its left and opens
    // the list with two elements
    assert(ts[1].kind == TokenKind::Comma);
    assert(ts[2] == ls.drop_first()[0]);
    assert(leaf_for(ls[1], es[1]));
    assert(spec_primary(ts, 2, Container::File, d1) == Ok::<(SpecExpr, int), ParseError>(
        (es[1], 3),
    ));
    assert(comma_chain(ts, 3, ls.drop_first().drop_first()));
    if ls.len() == 2 {
        assert(ts[3].kind == TokenKind::Eof);
    } else {
        assert(ts[3].kind == TokenKind::Comma);
    }
    assert(spec_precedence(ts[3].kind) <= 1);
    assert(!(es[0] is List)) by {
        assert(leaf_for(ls[0], es[0]));
    }
    let two = SpecExpr::List(Container::File, seq![es[0], es[1]]);
    lemma_comma_chain_extend(
        ts,
        3,
        ls.drop_first().drop_first(),
        es.drop_first().drop_first(),
        seq![es[0], es[1]],
        d1,
    );
    assert(seq![es[0], es[1]] + es.drop_first().drop_first() =~= es);
    assert(spec_extend(ts, 1, 0, es[0], Container::File, depth) == spec_extend(
        ts,
        3,
        0,
        two,
        Container::File,
        d1,
    ));
}

// ---------------------------------------------------------------------------
// Container transparency
// ---------------------------------------------------------------------------
/// A list built at the top level of the file.
pub open spec fn is_file_list(e: SpecExpr) -> bool {
    match e {
        SpecExpr::List(c, es) => c == Container::File,
        _ => false,
    }
}

/// A list built by a parenthesized container.
pub open spec fn is_paren_list(e: SpecExpr) -> bool {
    match e {
        SpecExpr::List(c, es) => c == Container::Paren,
        _ => false,
    }
}

/// The file-level list retagged as a parenthesized one; anything else
/// unchanged.
pub open spec fn retag(e: SpecExpr) -> SpecExpr {
    match e {
        SpecExpr::List(c, es) => if c == Container::File {
            SpecExpr::List(Container::Paren, es)
        } else {
            e
        },
        _ => e,
    }
}

/// A file-level list whose first element is itself a parenthesized
/// list.  Wrapping such a source in parentheses merges the two lists
/// instead of nesting them, so container transparency excludes it.
pub open spec fn absorbing_list(e: SpecExpr) -> bool {
    match e {
        SpecExpr::List(c, es) => c == Container::File && es.len() >= 1 && is_paren_list(es[0]),
        _ => false,
    }
}

/// A position where a file-level list can stand: its closer, or a
/// continuation no tighter than the comma.
pub open spec fn benign(ts: Seq<SpecToken>, pos: int) -> bool {
    spec_closing(ts[pos].kind) is Some || spec_precedence(ts[pos].kind) <= 1
}

/// A successful leaf is never a list.
proof fn lemma_leaf_shape(t: SpecToken)
    ensures
        match spec_leaf(t) {
            Ok(e) => !(e is List),
            Err(_) => true,
        },
{
}

/// Where an extension stops, a closer or a weaker continuation stands.
proof fn lemma_extend_stop(
    ts: Seq<SpecToken>,
    pos: int,
    min_prec: int,
    left: SpecExpr,
    container: Container,
    depth: nat,
)
    ensures
        match spec_extend(ts, pos, min_prec, left, container, depth) {
            Ok((e, p)) => spec_closing(ts[p].kind) == Some(container) || (spec_closing(
                ts[p].kind,
            ) is None && spec_precedence(ts[p].kind) != -1 && spec_precedence(ts[p].kind)
                < min_prec),
            Err(_) => true,
        },
    decreases depth,
{
    if depth > 0 {
        let t = ts[pos];
        let p = spec_precedence(t.kind);
        if spec_closing(t.kind) is Some {
        } else if p == -1 {
        } else if p < min_prec {
        } else {
            match spec_primary(ts, pos + 1, container, (depth - 1) as nat) {
                Err(_) => {},
                Ok((r0, p1)) => {
                    let np = spec_precedence(ts[p1].kind);
                    let right = if p < np {
                        spec_extend(ts, p1, p + 1, r0, container, (depth - 1) as nat)
                    } else {
                        Ok::<(SpecExpr, int), ParseError>((r0, p1))
                    };
                    match right {
                        Err(_) => {},
                        Ok((r1, p2)) => {
                            if t.kind == TokenKind::Comma {
                                let combined = match left {
                                    SpecExpr::List(c, es) => if c == container {
                                        SpecExpr::List(c, es.push(r1))
                                    } else {
                                        SpecExpr::List(container, seq![left, r1])
                                    },
                                    _ => SpecExpr::List(container, seq![left, r1]),
                                };
                                lemma_extend_stop(ts, p2, min_prec, combined, container, (depth
                                    - 1) as nat);
                            } else if t.kind == TokenKind::Colon {
                                match left {
                                    SpecExpr::Identifier(name) => {
                                        lemma_extend_stop(
                                            ts,
                                            p2,
                                            min_prec,
                                            SpecExpr::Tagged(name, Box::new(r1)),
                                            container,
                                            (depth - 1) as nat,
                                        );
                                    },
                                    _ => {},
                                }
                            } else if t.kind == TokenKind::Dot {
                                match r1 {
                                    SpecExpr::Identifier(name) => {
                                        lemma_extend_stop(
                                            ts,
                                            p2,
                                            min_prec,
                                            SpecExpr::Access(Box::new(left), name),
                                            container,
                                            (depth - 1) as nat,
                                        );
                                    },
                                    _ => {},
                                }
                            } else {
                                lemma_extend_stop(
                                    ts,
                                    p2,
                                    min_prec,
                                    SpecExpr::Binary(
                                        spec_operator(t.kind)->0,
                                        Box::new(left),
                                        Box::new(r1),
                                    ),
                                    container,
                                    (depth - 1) as nat,
                                );
                            }
                        },
                    }
                },
            }
        }
    }
}

/// A successful step never leaves the stream and never consumes the
/// final end-of-input token.
proof fn lemma_primary_pos(ts: Seq<SpecToken>, pos: int, container: Container, depth: nat)
    requires
        stream_wf(ts),
        0 <= pos < ts.len(),
    ensures
        match spec_primary(ts, pos, container, depth) {
            Ok((e, p)) => pos <= p < ts.len(),
            Err(_) => true,
        },
    decreases depth, 0nat,
{
    if depth > 0 {
        let t = ts[pos];
        if spec_is_leaf_kind(t.kind) {
            assert(t.kind != TokenKind::Eof);
        } else if spec_opening(t.kind) is Some {
            let k = spec_opening(t.kind)->0;
            assert(t.kind != TokenKind::Eof);
            match spec_primary(ts, pos + 1, k, (depth - 1) as nat) {
                Err(_) => {},
                Ok((e0, p1)) => {
                    lemma_primary_pos(ts, pos + 1, k, (depth - 1) as nat);
                    lemma_extend_pos(ts, p1, 0, e0, k, (depth - 1) as nat);
                    match spec_extend(ts, p1, 0, e0, k, (depth - 1) as nat) {
                        Err(_) => {},
                        Ok((e1, p2)) => {
                            if spec_closing(ts[p2].kind) == Some(k) {
                                assert(ts[p2].kind != TokenKind::Eof);
                            }
                        },
                    }
                },
            }
        } else if spec_closing(t.kind) is Some {
        } else if spec_operator(t.kind) is Some {
            let op = spec_operator(t.kind)->0;
            if spec_is_unary(op) {
                assert(t.kind != TokenKind::Eof);
                match spec_primary(ts, pos + 1, container, (depth - 1) as nat) {
                    Err(_) => {},
                    Ok((e0, p1)) => {
                        lemma_primary_pos(ts, pos + 1, container, (depth - 1) as nat);
                        lemma_extend_pos(
                            ts,
                            p1,
                            spec_precedence(t.kind) + 1,
                            e0,
                            container,
                            (depth - 1) as nat,
                        );
                    },
                }
            }
        }
    }
}

/// A successful extension never leaves the stream either.
proof fn lemma_extend_pos(
    ts: Seq<SpecToken>,
    pos: int,
    min_prec: int,
    left: SpecExpr,
    container: Container,
    depth: nat,
)
    requires
        stream_wf(ts),
        0 <= pos < ts.len(),
    ensures
        match spec_extend(ts, pos, min_prec, left, container, depth) {
            Ok((e, p)) => pos <= p < ts.len(),
            Err(_) => true,
        },
    decreases depth, 1nat,
{
    if depth > 0 {
        let t = ts[pos];
        let p = spec_precedence(t.kind);
        if spec_closing(t.kind) is Some {
        } else if p == -1 {
        } else if p < min_prec {
        } else {
            assert(t.kind != TokenKind::Eof);
            match spec_primary(ts, pos + 1, container, (depth - 1) as nat) {
                Err(_) => {},
                Ok((r0, p1)) => {
                    lemma_primary_pos(ts, pos + 1, container, (depth - 1) as nat);
                    let np = spec_precedence(ts[p1].kind);
                    let right = if p < np {
                        spec_extend(ts, p1, p + 1, r0, container, (depth - 1) as nat)
                    } else {
                        Ok::<(SpecExpr, int), ParseError>((r0, p1))
                    };
                    if p < np {
                        lemma_extend_pos(ts, p1, p + 1, r0, container, (depth - 1) as nat);
                    }
                    match right {
                        Err(_) => {},
                        Ok((r1, p2)) => {
                            if t.kind == TokenKind::Comma {
                                let combined = match left {
                                    SpecExpr::List(c, es) => if c == container {
                                        SpecExpr::List(c, es.push(r1))
                                    } else {
                                        SpecExpr::List(container, seq![left, r1])
                                    },
                                    _ => SpecExpr::List(container, seq![left, r1]),
                                };
                                lemma_extend_pos(ts, p2, min_prec, combined, container, (depth
                                    - 1) as nat);
                            } else if t.kind == TokenKind::Colon {
                                match left {
                                    SpecExpr::Identifier(name) => {
                                        lemma_extend_pos(
                                            ts,
                                            p2,
                                            min_prec,
                                            SpecExpr::Tagged(name, Box::new(r1)),
                                            container,
                                            (depth - 1) as nat,
                                        );
                                    },
                                    _ => {},
                                }
                            } else if t.kind == TokenKind::Dot {
                                match r1 {
                                    SpecExpr::Identifier(name) => {
                                        lemma_extend_pos(
                                            ts,
                                            p2,
                                            min_prec,
                                            SpecExpr::Access(Box::new(left), name),
                                            container,
                                            (depth - 1) as nat,
                                        );
                                    },
                                    _ => {},
                                }
                            } else {
                                lemma_extend_pos(
                                    ts,
                                    p2,
                                    min_prec,
                                    SpecExpr::Binary(
                                        spec_operator(t.kind)->0,
                                        Box::new(left),
                                        Box::new(r1),
                                    ),
                                    container,
                                    (depth - 1) as nat,
                                );
                            }
                        },
                    }
                },
            }
        }
    }
}

/// A primary expression is never a file-level list: those are built
/// only by commas at the top of the file.
proof fn lemma_primary_no_file_list(ts: Seq<SpecToken>, pos: int, container: Container, depth: nat)
    requires
        stream_wf(ts),
        0 <= pos < ts.len(),
    ensures
        match spec_primary(ts, pos, container, depth) {
            Ok((e, p)) => !is_file_list(e),
            Err(_) => true,
        },
    decreases depth, 0nat,
{
    if depth > 0 {
        let t = ts[pos];
        if spec_is_leaf_kind(t.kind) {
            lemma_leaf_shape(t);
        } else if spec_opening(t.kind) is Some {
            let k = spec_opening(t.kind)->0;
            assert(k != Container::File);
            match spec_primary(ts, pos + 1, k, (depth - 1) as nat) {
                Err(_) => {},
                Ok((e0, p1)) => {
                    lemma_primary_pos(ts, pos + 1, k, (depth - 1) as nat);
                    lemma_primary_no_file_list(ts, pos + 1, k, (depth - 1) as nat);
                    lemma_extend_no_file_list(ts, p1, 0, e0, k, (depth - 1) as nat);
                },
            }
        } else if spec_closing(t.kind) is Some {
        } else if spec_operator(t.kind) is Some {
            let op = spec_operator(t.kind)->0;
            if spec_is_unary(op) {
                match spec_primary(ts, pos + 1, container, (depth - 1) as nat) {
                    Err(_) => {},
                    Ok((e0, p1)) => {
                        lemma_primary_pos(ts, pos + 1, container, (depth - 1) as nat);
                        lemma_primary_no_file_list(ts, pos + 1, container, (depth - 1) as nat);
                        lemma_extend_no_file_list(
                            ts,
                            p1,
                            spec_precedence(t.kind) + 1,
                            e0,
                            container,
                            (depth - 1) as nat,
                        );
                    },
                }
            }
        }
    }
}

/// An extension below the comma, or outside the file container, never
/// builds a file-level list.
proof fn lemma_extend_no_file_list(
    ts: Seq<SpecToken>,
    pos: int,
    min_prec: int,
    left: SpecExpr,
    container: Container,
    depth: nat,
)
    requires
        stream_wf(ts),
        0 <= pos < ts.len(),
        !is_file_list(left),
        container != Container::File || min_prec >= 2,
    ensures
        match spec_extend(ts, pos, min_prec, left, container, depth) {
            Ok((e, p)) => !is_file_list(e),
            Err(_) => true,
        },
    decreases depth, 1nat,
{
    if depth > 0 {
        let t = ts[pos];
        let p = spec_precedence(t.kind);
        if spec_closing(t.kind) is Some {
        } else if p == -1 {
        } else if p < min_prec {
        } else {
            match spec_primary(ts, pos + 1, container, (depth - 1) as nat) {
                Err(_) => {},
                Ok((r0, p1)) => {
                    lemma_primary_pos(ts, pos + 1, container, (depth - 1) as nat);
                    lemma_primary_no_file_list(ts, pos + 1, container, (depth - 1) as nat);
                    let np = spec_precedence(ts[p1].kind);
                    let right = if p < np {
                        spec_extend(ts, p1, p + 1, r0, container, (depth - 1) as nat)
                    } else {
                        Ok::<(SpecExpr, int), ParseError>((r0, p1))
                    };
                    if p < np {
                        lemma_extend_no_file_list(ts, p1, p + 1, r0, container, (depth - 1) as nat);
                        lemma_extend_pos(ts, p1, p + 1, r0, container, (depth - 1) as nat);
                    }
                    match right {
                        Err(_) => {},
                        Ok((r1, p2)) => {
                            if t.kind == TokenKind::Comma {
                                let combined = match left {
                                    SpecExpr::List(c, es) => if c == container {
                                        SpecExpr::List(c, es.push(r1))
                                    } else {
                                        SpecExpr::List(container, seq![left, r1])
                                    },
                                    _ => SpecExpr::List(container, seq![left, r1]),
                                };
                                assert(container != Container::File);
                                lemma_extend_no_file_list(ts, p2, min_prec, combined, container, (
                                depth - 1) as nat);
                            } else if t.kind == TokenKind::Colon {
                                match left {
                                    SpecExpr::Identifier(name) => {
                                        lemma_extend_no_file_list(
                                            ts,
                                            p2,
                                            min_prec,
                                            SpecExpr::Tagged(name, Box::new(r1)),
                                            container,
                                            (depth - 1) as nat,
                                        );
                                    },
                                    _ => {},
                                }
                            } else if t.kind == TokenKind::Dot {
                                match r1 {
                                    SpecExpr::Identifier(name) => {
                                        lemma_extend_no_file_list(
                                            ts,
                                            p2,
                                            min_prec,
                                            SpecExpr::Access(Box::new(left), name),
                                            container,
                                            (depth - 1) as nat,
                                        );
                                    },
                                    _ => {},
                                }
                            } else {
                                lemma_extend_no_file_list(
                                    ts,
                                    p2,
                                    min_prec,
                                    SpecExpr::Binary(
                                        spec_operator(t.kind)->0,
                                        Box::new(left),
                                        Box::new(r1),
                                    ),
                                    container,
                                    (depth - 1) as nat,
                                );
                            }
                        },
                    }
                },
            }
        }
    }
}

/// Extending a file-level list keeps it one and keeps its first
/// element: from a benign position, only commas combine, and they
/// append on the right.
proof fn lemma_file_list_extend(
    ts: Seq<SpecToken>,
    pos: int,
    min_prec: int,
    es: Seq<SpecExpr>,
    depth: nat,
)
    requires
        stream_wf(ts),
        0 <= pos < ts.len(),
        min_prec <= 1,
        es.len() >= 1,
        benign(ts, pos),
    ensures
        match spec_extend(
            ts,
            pos,
            min_prec,
            SpecExpr::List(Container::File, es),
            Container::File,
            depth,
        ) {
            Ok((e, p)) => match e {
                SpecExpr::List(c2, es2) => c2 == Container::File && es2.len() >= 1 && es2[0]
                    == es[0],
                _ => false,
            },
            Err(_) => true,
        },
    decreases depth,
{
    if depth > 0 {
        let left = SpecExpr::List(Container::File, es);
        let t = ts[pos];
        let p = spec_precedence(t.kind);
        if spec_closing(t.kind) is Some {
        } else if p == -1 {
        } else if p < min_prec {
        } else {
            // benign and combinable: this is a comma
            assert(t.kind == TokenKind::Comma);
            match spec_primary(ts, pos + 1, Container::File, (depth - 1) as nat) {
                Err(_) => {},
                Ok((r0, p1)) => {
                    lemma_primary_pos(ts, pos + 1, Container::File, (depth - 1) as nat);
                    let np = spec_precedence(ts[p1].kind);
                    let right = if p < np {
                        spec_extend(ts, p1, p + 1, r0, Container::File, (depth - 1) as nat)
                    } else {
                        Ok::<(SpecExpr, int), ParseError>((r0, p1))
                    };
                    if p < np {
                        lemma_extend_stop(ts, p1, p + 1, r0, Container::File, (depth - 1) as nat);
                        lemma_extend_pos(ts, p1, p + 1, r0, Container::File, (depth - 1) as nat);
                    }
                    match right {
                        Err(_) => {},
                        Ok((r1, p2)) => {
                            assert(benign(ts, p2));
                            lemma_file_list_extend(ts, p2, min_prec, es.push(r1), (depth
                                - 1) as nat);
                        },
                    }
                },
            }
        }
    }
}

/// `ts2` is `ts1` wrapped in parentheses: an opening paren in front,
/// the end-of-input token replaced by the closing paren, and a new
/// end-of-input token after it.
pub open spec fn wrapped(ts1: Seq<SpecToken>, ts2: Seq<SpecToken>) -> bool {
    &&& stream_wf(ts1)
    &&& ts2.len() == ts1.len() + 2
    &&& ts2[0].kind == TokenKind::Lparen
    &&& forall|i: int| 0 <= i < ts1.len() - 1 ==> #[trigger] ts2[i + 1] == ts1[i]
    &&& ts2[ts1.len() as int].kind == TokenKind::Rparen
    &&& ts2[ts1.len() as int + 1].kind == TokenKind::Eof
}

/// The container pairs the two runs walk: the same container inside
/// brackets, the file against the wrapping parentheses at the top.
spec fn cpair(c1: Container, c2: Container) -> bool {
    ||| (c1 == c2 && c1 != Container::File)
    ||| (c1 == Container::File && c2 == Container::Paren)
}

/// A primary expression reads the same under the wrapping parentheses,
/// one position later.
proof fn lemma_shift_primary(
    ts1: Seq<SpecToken>,
    ts2: Seq<SpecToken>,
    pos: int,
    c1: Container,
    c2: Container,
    d1: nat,
    d2: nat,
)
    requires
        wrapped(ts1, ts2),
        0 <= pos < ts1.len(),
        cpair(c1, c2),
        d2 >= d1,
    ensures
        match spec_primary(ts1, pos, c1, d1) {
            Ok((e, p)) => spec_primary(ts2, pos + 1, c2, d2) == Ok::<(SpecExpr, int), ParseError>(
                (e, p + 1),
            ),
            Err(_) => true,
        },
    decreases d1, 0nat,
{
    if d1 == 0 {
        return ;
    }
    let t = ts1[pos];
    if pos == ts1.len() - 1 {
        assert(t.kind == TokenKind::Eof);
        assert(ts2[pos + 1].kind == TokenKind::Rparen);
        return ;
    }
    assert(ts2[pos + 1] == t);
    if spec_is_leaf_kind(t.kind) {
    } else if spec_opening(t.kind) is Some {
        let k = spec_opening(t.kind)->0;
        match spec_primary(ts1, pos + 1, k, (d1 - 1) as nat) {
            Err(_) => {},
            Ok((e0, p1)) => {
                lemma_primary_pos(ts1, pos + 1, k, (d1 - 1) as nat);
                lemma_shift_primary(ts1, ts2, pos + 1, k, k, (d1 - 1) as nat, (d2 - 1) as nat);
                match spec_extend(ts1, p1, 0, e0, k, (d1 - 1) as nat) {
                    Err(_) => {},
                    Ok((e1, p2)) => {
                        lemma_extend_pos(ts1, p1, 0, e0, k, (d1 - 1) as nat);
                        lemma_shift_extend(
                            ts1,
                            ts2,
                            p1,
                            0,
                            e0,
                            e0,
                            k,
                            k,
                            (d1 - 1) as nat,
                            (d2 - 1) as nat,
                        );
                        if spec_closing(ts1[p2].kind) == Some(k) {
                            assert(ts1[p2].kind != TokenKind::Eof);
                            assert(p2 < ts1.len() - 1);
                            assert(ts2[p2 + 1] == ts1[p2]);
                        }
                    },
                }
            },
        }
    } else if spec_closing(t.kind) is Some {
    } else if spec_operator(t.kind) is Some {
        let op = spec_operator(t.kind)->0;
        if spec_is_unary(op) {
            match spec_primary(ts1, pos + 1, c1, (d1 - 1) as nat) {
                Err(_) => {},
                Ok((e0, p1)) => {
                    lemma_primary_pos(ts1, pos + 1, c1, (d1 - 1) as nat);
                    lemma_primary_no_file_list(ts1, pos + 1, c1, (d1 - 1) as nat);
                    lemma_shift_primary(ts1, ts2, pos + 1, c1, c2, (d1 - 1) as nat, (d2
                        - 1) as nat);
                    let mp = spec_precedence(t.kind) + 1;
                    match spec_extend(ts1, p1, mp, e0, c1, (d1 - 1) as nat) {
                        Err(_) => {},
                        Ok((e1, p2)) => {
                            lemma_extend_no_file_list(ts1, p1, mp, e0, c1, (d1 - 1) as nat);
                            lemma_shift_extend(
                                ts1,
                                ts2,
                                p1,
                                mp,
                                e0,
                                e0,
                                c1,
                                c2,
                                (d1 - 1) as nat,
                                (d2 - 1) as nat,
                            );
                            assert(retag(e1) == e1);
                        },
                    }
                },
            }
        }
    }
}

/// An extension reads the same under the wrapping parentheses, one
/// position later, with the file-level list retagged as the
/// parenthesized one it becomes there — except when the first list
/// element is itself a parenthesized list, which the wrapped run
/// absorbs.
proof fn lemma_shift_extend(
    ts1: Seq<SpecToken>,
    ts2: Seq<SpecToken>,
    pos: int,
    min_prec: int,
    left1: SpecExpr,
    left2: SpecExpr,
    c1: Container,
    c2: Container,
    d1: nat,
    d2: nat,
)
    requires
        wrapped(ts1, ts2),
        0 <= pos < ts1.len(),
        cpair(c1, c2),
        d2 >= d1,
        if c1 == c2 {
            left2 == left1
        } else {
            (left2 == left1 && !is_file_list(left1)) || (is_file_list(left1) && left2 == retag(
                left1,
            ) && benign(ts1, pos))
        },
    ensures
        match spec_extend(ts1, pos, min_prec, left1, c1, d1) {
            Ok((e, p)) => spec_extend(ts2, pos + 1, min_prec, left2, c2, d2) == Ok::<
                (SpecExpr, int),
                ParseError,
            >(
                (
                    if c1 == c2 {
                        e
                    } else {
                        retag(e)
                    },
                    p + 1,
                ),
            ) || (c1 != c2 && absorbing_list(e)),
            Err(_) => true,
        },
    decreases d1, 1nat,
{
    if d1 == 0 {
        return ;
    }
    let t = ts1[pos];
    let p = spec_precedence(t.kind);
    if pos == ts1.len() - 1 {
        assert(t.kind == TokenKind::Eof);
        assert(ts2[pos + 1].kind == TokenKind::Rparen);
        return ;
    }
    assert(ts2[pos + 1] == t);
    if spec_closing(t.kind) is Some {
        return ;
    }
    if p == -1 {
        return ;
    }
    if p < min_prec {
        return ;
    }
    // a combinable token, or an error that both runs share
    let is_comma = t.kind == TokenKind::Comma;
    let is_colon = t.kind == TokenKind::Colon;
    let is_dot = t.kind == TokenKind::Dot;
    if !(is_comma || is_colon || is_dot) && !(spec_operator(t.kind) is Some && spec_is_binary(
        spec_operator(t.kind)->0,
    )) {
        return ;
    }
    assert(p >= 1);
    match spec_primary(ts1, pos + 1, c1, (d1 - 1) as nat) {
        Err(_) => {},
        Ok((r0, p1)) => {
            lemma_primary_pos(ts1, pos + 1, c1, (d1 - 1) as nat);
            lemma_primary_no_file_list(ts1, pos + 1, c1, (d1 - 1) as nat);
            lemma_shift_primary(ts1, ts2, pos + 1, c1, c2, (d1 - 1) as nat, (d2 - 1) as nat);
            let np = spec_precedence(ts1[p1].kind);
            lemma_np_same(ts1, ts2, p1);
            let right = if p < np {
                spec_extend(ts1, p1, p + 1, r0, c1, (d1 - 1) as nat)
            } else {
                Ok::<(SpecExpr, int), ParseError>((r0, p1))
            };
            if p < np {
                lemma_extend_pos(ts1, p1, p + 1, r0, c1, (d1 - 1) as nat);
                lemma_extend_no_file_list(ts1, p1, p + 1, r0, c1, (d1 - 1) as nat);
                lemma_extend_stop(ts1, p1, p + 1, r0, c1, (d1 - 1) as nat);
                lemma_shift_extend(
                    ts1,
                    ts2,
                    p1,
                    p + 1,
                    r0,
                    r0,
                    c1,
                    c2,
                    (d1 - 1) as nat,
                    (d2 - 1) as nat,
                );
            }
            match right {
                Err(_) => {},
                Ok((r1, p2)) => {
                    assert(!is_file_list(r1));
                    if c1 != c2 {
                        assert(retag(r1) == r1);
                    }
                    // where the right side stopped: its closer, or
                    // nothing tighter than the comma
                    assert(spec_closing(ts1[p2].kind) is Some || spec_precedence(ts1[p2].kind)
                        <= p);
                    if is_comma {
                        let combined1 = match left1 {
                            SpecExpr::List(c, es) => if c == c1 {
                                SpecExpr::List(c, es.push(r1))
                            } else {
                                SpecExpr::List(c1, seq![left1, r1])
                            },
                            _ => SpecExpr::List(c1, seq![left1, r1]),
                        };
                        let combined2 = match left2 {
                            SpecExpr::List(c, es) => if c == c2 {
                                SpecExpr::List(c, es.push(r1))
                            } else {
                                SpecExpr::List(c2, seq![left2, r1])
                            },
                            _ => SpecExpr::List(c2, seq![left2, r1]),
                        };
                        assert(benign(ts1, p2));
                        if c1 == c2 {
                            lemma_shift_extend(
                                ts1,
                                ts2,
                                p2,
                                min_prec,
                                combined1,
                                combined2,
                                c1,
                                c2,
                                (d1 - 1) as nat,
                                (d2 - 1) as nat,
                            );
                        } else if is_file_list(left1) {
                            // both lists absorb on their own side
                            assert(combined2 == retag(combined1));
                            lemma_shift_extend(
                                ts1,
                                ts2,
                                p2,
                                min_prec,
                                combined1,
                                combined2,
                                c1,
                                c2,
                                (d1 - 1) as nat,
                                (d2 - 1) as nat,
                            );
                        } else if is_paren_list(left1) {
                            // the wrapped run absorbs into the inner
                            // parenthesized list while the plain run
                            // nests it: the plain result keeps that
                            // list as its first element
                            lemma_file_list_extend(ts1, p2, min_prec, seq![left1, r1], (d1
                                - 1) as nat);
                        } else {
                            assert(combined2 == retag(combined1));
                            lemma_shift_extend(
                                ts1,
                                ts2,
                                p2,
                                min_prec,
                                combined1,
                                combined2,
                                c1,
                                c2,
                                (d1 - 1) as nat,
                                (d2 - 1) as nat,
                            );
                        }
                    } else if is_colon {
                        match left1 {
                            SpecExpr::Identifier(name) => {
                                assert(left2 == left1);
                                lemma_shift_extend(
                                    ts1,
                                    ts2,
                                    p2,
                                    min_prec,
                                    SpecExpr::Tagged(name, Box::new(r1)),
                                    SpecExpr::Tagged(name, Box::new(r1)),
                                    c1,
                                    c2,
                                    (d1 - 1) as nat,
                                    (d2 - 1) as nat,
                                );
                            },
                            _ => {},
                        }
                    } else if is_dot {
                        match r1 {
                            SpecExpr::Identifier(name) => {
                                assert(left2 == left1);
                                lemma_shift_extend(
                                    ts1,
                                    ts2,
                                    p2,
                                    min_prec,
                                    SpecExpr::Access(Box::new(left1), name),
                                    SpecExpr::Access(Box::new(left1), name),
                                    c1,
                                    c2,
                                    (d1 - 1) as nat,
                                    (d2 - 1) as nat,
                                );
                            },
                            _ => {},
                        }
                    } else {
                        let op = spec_operator(t.kind)->0;
                        assert(left2 == left1);
                        lemma_shift_extend(
                            ts1,
                            ts2,
                            p2,
                            min_prec,
                            SpecExpr::Binary(op, Box::new(left1), Box::new(r1)),
                            SpecExpr::Binary(op, Box::new(left1), Box::new(r1)),
                            c1,
                            c2,
                            (d1 - 1) as nat,
                            (d2 - 1) as nat,
                        );
                    }
                },
            }
        },
    }
}

/// Container round-trip law.  Wrapping a whole source in parentheses
/// leaves the parsed expression as it was, except that a comma list
/// built at the top of the file is then tagged as a parenthesized
/// list.  The one family left out, by `absorbing_list`: a file-level
/// list whose first element is itself a parenthesized list, which the
/// wrapped parse absorbs into one list instead of nesting.  The
/// wrapped parse needs two more steps of depth budget for the new
/// container.
pub proof fn lemma_container_roundtrip(
    ts1: Seq<SpecToken>,
    ts2: Seq<SpecToken>,
    e: SpecExpr,
    depth: nat,
)
    requires
        wrapped(ts1, ts2),
        spec_parse(ts1, 0, depth) == Ok::<SpecExpr, ParseError>(e),
        !absorbing_list(e),
    ensures
        spec_parse(ts2, 0, depth + 2) == Ok::<SpecExpr, ParseError>(retag(e)),
{
    let file = Container::File;
    let paren = Container::Paren;
    match spec_primary(ts1, 0, file, depth) {
        Err(_) => {
            assert(false);
        },
        Ok((e0, p1)) => {
            lemma_primary_pos(ts1, 0, file, depth);
            lemma_primary_no_file_list(ts1, 0, file, depth);
            lemma_shift_primary(ts1, ts2, 0, file, paren, depth, (depth + 1) as nat);
            match spec_extend(ts1, p1, 0, e0, file, depth) {
                Err(_) => {
                    assert(false);
                },
                Ok((e1, p2)) => {
                    assert(e1 == e);
                    lemma_extend_pos(ts1, p1, 0, e0, file, depth);
                    lemma_extend_stop(ts1, p1, 0, e0, file, depth);
                    lemma_shift_extend(
                        ts1,
                        ts2,
                        p1,
                        0,
                        e0,
                        e0,
                        file,
                        paren,
                        depth,
                        (depth + 1) as nat,
                    );
                    // the plain parse can only have stopped at the end
                    // of the input
                    assert(spec_closing(ts1[p2].kind) == Some(file));
                    assert(ts1[p2].kind == TokenKind::Eof);
                    assert(p2 == ts1.len() - 1);
                    // the wrapped parse consumes the closing paren and
                    // then meets its own end of input
                    assert(ts2[p2 + 1].kind == TokenKind::Rparen);
                    assert(ts2[p2 + 2].kind == TokenKind::Eof);
                    assert(spec_primary(ts2, 0, file, (depth + 2) as nat) == Ok::<
                        (SpecExpr, int),
                        ParseError,
                    >((retag(e), p2 + 2)));
                    assert(spec_extend(ts2, p2 + 2, 0, retag(e), file, (depth + 2) as nat) == Ok::<
                        (SpecExpr, int),
                        ParseError,
                    >((retag(e), p2 + 2)));
                },
            }
        },
    }
}

/// At matching positions the two streams show the same precedence:
/// inside they hold the same token, and at the end the closing paren
/// stops the climb exactly as the end of the input does.
proof fn lemma_np_same(ts1: Seq<SpecToken>, ts2: Seq<SpecToken>, p1: int)
    requires
        wrapped(ts1, ts2),
        0 <= p1 < ts1.len(),
    ensures
        spec_precedence(ts2[p1 + 1].kind) == spec_precedence(ts1[p1].kind),
{
    if p1 == ts1.len() - 1 {
        assert(ts1[p1].kind == TokenKind::Eof);
        assert(ts2[p1 + 1].kind == TokenKind::Rparen);
    } else {
        assert(ts2[p1 + 1] == ts1[p1]);
    }
}

// ---------------------------------------------------------------------------
// Sources made of numeric literals
// ---------------------------------------------------------------------------
/// The text of a decimal integer literal: digits and `_` separators,
/// starting with a digit.
pub open spec fn dec_text(t: Seq<char>) -> bool {
    &&& t.len() >= 1
    &&& spec_is_digit(t[0], 10)
    &&& forall|k: int| 0 <= k < t.len() ==> spec_is_digit(#[trigger] t[k], 10) || t[k] == '_'
}

/// The radix a prefixed literal text selects.
pub open spec fn radix_of(t: Seq<char>) -> int {
    if t[1] == 'b' {
        2
    } else if t[1] == 'o' {
        8
    } else {
        16
    }
}

/// The text of a radix-prefixed integer literal: `0b`, `0o` or `0x`,
/// then digits of that radix and `_` separators.
pub open spec fn radix_text(t: Seq<char>) -> bool {
    &&& t.len() >= 3
    &&& t[0] == '0'
    &&& (t[1] == 'b' || t[1] == 'o' || t[1] == 'x')
    &&& forall|k: int|
        2 <= k < t.len() ==> spec_is_digit(#[trigger] t[k], radix_of(t)) || t[k] == '_'
}

/// The text of a plain float literal with its dot at `d`: digits on
/// the left, digits (possibly none) on the right, no exponent and no
/// imaginary marker.
pub open spec fn float_text_at(t: Seq<char>, d: int) -> bool {
    &&& 1 <= d <= t.len() - 1
    &&& t[d] == '.'
    &&& spec_is_digit(t[0], 10)
    &&& forall|k: int| 0 <= k < d ==> spec_is_digit(#[trigger] t[k], 10) || t[k] == '_'
    &&& forall|k: int| d < k < t.len() ==> spec_is_digit(#[trigger] t[k], 10) || t[k] == '_'
}

/// The text of a plain float literal.
pub open spec fn float_text(t: Seq<char>) -> bool {
    exists|d: int| #[trigger] float_text_at(t, d)
}

/// The text of one numeric literal token.
pub open spec fn numeric_text(t: Seq<char>) -> bool {
    dec_text(t) || radix_text(t) || float_text(t)
}

/// The kind of the token such a text scans to.
pub open spec fn lit_kind(t: Seq<char>) -> TokenKind {
    if dec_text(t) {
        TokenKind::DecLiteral
    } else if radix_text(t) {
        if t[1] == 'b' {
            TokenKind::BinLiteral
        } else if t[1] == 'o' {
            TokenKind::OctLiteral
        } else {
            TokenKind::HexLiteral
        }
    } else {
        TokenKind::FloatLiteral
    }
}

/// The expression such a literal stands for: the radix conversion of
/// its digits, or the float text itself.
pub open spec fn lit_expr(t: Seq<char>) -> SpecExpr {
    if dec_text(t) {
        SpecExpr::IntLiteral(spec_int_value(t, 10)->0 as u64)
    } else if radix_text(t) {
        SpecExpr::IntLiteral(spec_int_value(t.skip(2), radix_of(t))->0 as u64)
    } else {
        SpecExpr::FloatLiteral(t)
    }
}

/// A literal whose value can be read: integer literals must hold a
/// real digit and fit in 64 bits.
pub open spec fn lit_ok(t: Seq<char>) -> bool {
    &&& numeric_text(t)
    &&& (dec_text(t) ==> (spec_int_value(t, 10) matches Some(v) && v <= u64::MAX))
    &&& (radix_text(t) ==> (spec_int_value(t.skip(2), radix_of(t)) matches Some(v) && v
        <= u64::MAX))
}

/// A source that reads, from `i` on, as the literal texts of `ls`
/// separated by commas, with blanks allowed around the commas and
/// after the last literal.
pub open spec fn comma_lits_src(s: Seq<char>, i: int, ls: Seq<Seq<char>>) -> bool
    decreases ls.len(),
{
    if ls.len() == 0 {
        false
    } else {
        let j = i + ls[0].len();
        &&& numeric_text(ls[0])
        &&& 0 <= i
        &&& j <= s.len()
        &&& s.subrange(i, j) == ls[0]
        &&& (j == s.len() || s[j] == ',' || spec_is_space(s[j]))
        &&& if ls.len() == 1 {
            spec_skip_spaces(s, j) == s.len()
        } else {
            let k = spec_skip_spaces(s, j);
            &&& k < s.len()
            &&& s[k] == ','
            &&& comma_lits_src(s, spec_skip_spaces(s, k + 1), ls.drop_first())
        }
    }
}

/// A run of digit characters ends exactly where the digits do.
proof fn lemma_digit_run_exact(s: Seq<char>, i: int, j: int, radix: int)
    requires
        0 <= i <= j <= s.len(),
        forall|k: int| i <= k < j ==> spec_is_digit(#[trigger] s[k], radix) || s[k] == '_',
        j == s.len() || !(spec_is_digit(s[j], radix) || s[j] == '_'),
    ensures
        spec_digit_run_end(s, i, radix) == j,
    decreases j - i,
{
    if i < j {
        lemma_digit_run_exact(s, i + 1, j, radix);
    }
}

/// A numeric literal text, delimited by a comma, a blank or the end
/// of the text, scans to exactly one token of its kind.
proof fn lemma_scan_lit(s: Seq<char>, i: int, t: Seq<char>)
    requires
        numeric_text(t),
        0 <= i,
        i + t.len() <= s.len(),
        s.subrange(i, i + t.len()) == t,
        i + t.len() == s.len() || s[i + t.len()] == ',' || spec_is_space(s[i + t.len()]),
    ensures
        spec_scan(s, i) == (lit_kind(t), i + t.len()),
{
    let j = i + t.len();
    assert forall|k: int| i <= k < j implies s[k] == t[k - i] by {
        assert(s.subrange(i, j)[k - i] == s[k]);
    }
    if j < s.len() {
        assert(!spec_is_digit(s[j], 10) && s[j] != '_' && s[j] != '.' && s[j] != 'i' && s[j] != 'b'
            && s[j] != 'o' && s[j] != 'x' && s[j] != 'e' && s[j] != 'E');
    }
    if dec_text(t) {
        assert(s[i] == t[0]);
        if t[0] == '0' && i + 1 < s.len() {
            if t.len() >= 2 {
                assert(s[i + 1] == t[1]);
            }
        }
        lemma_digit_run_exact(s, i, j, 10);
        assert(spec_number_scan(s, i) == (TokenKind::DecLiteral, j));
    } else if radix_text(t) {
        let radix = radix_of(t);
        assert(s[i] == t[0] && s[i + 1] == t[1]);
        assert forall|k: int| i + 2 <= k < j implies spec_is_digit(#[trigger] s[k], radix) || s[k]
            == '_' by {
            assert(s[k] == t[k - i]);
        }
        if j < s.len() {
            assert(!(spec_is_digit(s[j], radix) || s[j] == '_'));
        }
        lemma_digit_run_exact(s, i + 2, j, radix);
        assert(spec_number_scan(s, i) == (lit_kind(t), j));
    } else {
        let d = choose|d: int| float_text_at(t, d);
        assert(float_text_at(t, d));
        assert(s[i] == t[0]);
        // the integer part ends exactly at the dot
        assert(s[i + d] == '.');
        lemma_digit_run_exact(s, i, i + d, 10);
        // the fraction ends exactly at the delimiter
        assert forall|k: int| i + d + 1 <= k < j implies spec_is_digit(#[trigger] s[k], 10) || s[k]
            == '_' by {
            assert(s[k] == t[k - i]);
        }
        lemma_digit_run_exact(s, i + d + 1, j, 10);
        if i + d + 1 < s.len() && d + 1 < t.len() {
            assert(s[i + d + 1] == t[d + 1]);
        }
        assert(spec_exp_end(s, j) == j);
        assert(spec_fraction_scan(s, i + d + 1) == (TokenKind::FloatLiteral, j));
        assert(!dec_text(t));
        assert(!radix_text(t)) by {
            if radix_text(t) {
                assert(t[d] == '.');
            }
        }
        assert(spec_number_scan(s, i) == (TokenKind::FloatLiteral, j));
    }
}

/// A token of a literal's kind and text is the leaf the literal
/// stands for.
proof fn lemma_lit_leaf(tok: SpecToken, t: Seq<char>)
    requires
        lit_ok(t),
        tok.kind == lit_kind(t),
        tok.text == t,
    ensures
        spec_is_leaf_kind(tok.kind),
        spec_leaf(tok) == Ok::<SpecExpr, ParseError>(lit_expr(t)),
{
    if dec_text(t) {
        assert(t.skip(0) =~= t);
    }
}

/// The token stream of a comma-separated literal source: one token
/// per literal, one comma token between neighbours, one final `Eof`.
proof fn lemma_comma_lits_tokens(s: Seq<char>, i: int, ls: Seq<Seq<char>>)
    requires
        comma_lits_src(s, i, ls),
    ensures
        ({
            let ts = spec_tokens(s, i);
            &&& ts.len() == 2 * ls.len()
            &&& forall|m: int|
                0 <= m < ls.len() ==> (#[trigger] ts[2 * m]).kind == lit_kind(ls[m]) && ts[2
                    * m].text == ls[m]
            &&& forall|m: int|
                0 <= m < ls.len() - 1 ==> (#[trigger] ts[2 * m + 1]).kind == TokenKind::Comma
        }),
    decreases ls.len(),
{
    let ts = spec_tokens(s, i);
    let t0 = ls[0];
    let j = i + t0.len();
    assert(s[i] == t0[0]) by {
        assert(s.subrange(i, j)[0] == s[i]);
    }
    assert(spec_is_digit(s[i], 10)) by {
        if float_text(t0) {
            let d = choose|d: int| float_text_at(t0, d);
            assert(float_text_at(t0, d));
        }
    }
    assert(!spec_is_space(s[i]));
    assert(spec_skip_spaces(s, i) == i);
    lemma_scan_lit(s, i, t0);
    let tok0 = spec_token_of(s, i, j, lit_kind(t0));
    assert(tok0.text =~= t0);
    assert(ts == seq![tok0] + spec_tokens(s, j));
    if ls.len() == 1 {
        assert(spec_skip_spaces(s, j) == s.len());
        assert(spec_tokens(s, j) =~= seq![crate::tokenizer::spec_eof_token(s)]);
        assert(ts =~= seq![tok0, crate::tokenizer::spec_eof_token(s)]);
    } else {
        let k = spec_skip_spaces(s, j);
        lemma_skip_spaces_bounds(s, j);
        assert(s[k] == ',');
        assert(spec_scan(s, k) == (TokenKind::Comma, k + 1));
        let ctok = spec_token_of(s, k, k + 1, TokenKind::Comma);
        assert(spec_tokens(s, j) == seq![ctok] + spec_tokens(s, k + 1));
        let inext = spec_skip_spaces(s, k + 1);
        lemma_comma_lits_tokens(s, inext, ls.drop_first());
        // walking from just past the comma first skips the blanks, so
        // the stream continues exactly as it does from the next literal
        let rest = spec_tokens(s, inext);
        let t1 = ls.drop_first()[0];
        assert(comma_lits_src(s, inext, ls.drop_first()));
        assert(numeric_text(t1) && 0 <= inext && inext + t1.len() <= s.len() && s.subrange(
            inext,
            inext + t1.len(),
        ) == t1);
        assert(s[inext] == t1[0]) by {
            assert(s.subrange(inext, inext + t1.len())[0] == s[inext]);
        }
        assert(spec_is_digit(s[inext], 10)) by {
            if float_text(t1) {
                let d = choose|d: int| float_text_at(t1, d);
                assert(float_text_at(t1, d));
            }
        }
        assert(!spec_is_space(s[inext]));
        assert(spec_skip_spaces(s, inext) == inext);
        assert(spec_skip_spaces(s, k + 1) == inext);
        assert(spec_tokens(s, k + 1) == rest);
        assert(ts == seq![tok0] + (seq![ctok] + rest));
        assert(ts.len() == 2 + rest.len());
        assert forall|m: int|
            0 <= m < ls.len() implies (#[trigger] ts[2 * m]).kind == lit_kind(ls[m]) && ts[2
            * m].text == ls[m] by {
            if m == 0 {
                assert(ts[0] == tok0);
            } else {
                assert(ts[2 * m] == rest[2 * (m - 1)]);
                assert(ls.drop_first()[m - 1] == ls[m]);
            }
        }
        assert forall|m: int|
            0 <= m < ls.len() - 1 implies (#[trigger] ts[2 * m + 1]).kind
            == TokenKind::Comma by {
            if m == 0 {
                assert(ts[1] == ctok);
            } else {
                assert(ts[2 * m + 1] == rest[2 * (m - 1) + 1]);
            }
        }
    }
}

/// A stream shaped literal-comma-literal carries the comma chain the
/// list law asks for.
proof fn lemma_chain_from_indices(ts: Seq<SpecToken>, lt: Seq<SpecToken>, j: int)
    requires
        ts.len() == 2 * lt.len(),
        lt.len() >= 1,
        0 <= j <= lt.len() - 1,
        forall|m: int| 0 <= m < lt.len() ==> #[trigger] lt[m] == ts[2 * m],
        forall|m: int| 0 <= m < lt.len() - 1 ==> (#[trigger] ts[2 * m + 1]).kind
            == TokenKind::Comma,
    ensures
        comma_chain(ts, 2 * j + 1, lt.skip(j + 1)),
    decreases lt.len() - j,
{
    if j == lt.len() - 1 {
        assert(lt.skip(j + 1) =~= Seq::<SpecToken>::empty());
    } else {
        lemma_chain_from_indices(ts, lt, j + 1);
        assert(lt.skip(j + 1)[0] == lt[j + 1]);
        assert(lt.skip(j + 1).drop_first() =~= lt.skip(j + 2));
        assert(ts[2 * j + 2] == lt[j + 1]);
    }
}

/// A stream without newline or comment tokens passes the noise filter
/// unchanged.
proof fn lemma_filter_noise_id(ts: Seq<SpecToken>)
    requires
        forall|k: int|
            0 <= k < ts.len() ==> (#[trigger] ts[k]).kind != TokenKind::NewLine && ts[k].kind
                != TokenKind::Comment,
    ensures
        spec_filter_noise(ts) == ts,
    decreases ts.len(),
{
    if ts.len() > 0 {
        let rest = ts.drop_first();
        assert(forall|k: int|
            0 <= k < rest.len() ==> (#[trigger] rest[k]).kind != TokenKind::NewLine && rest[k].kind
                != TokenKind::Comment);
        lemma_filter_noise_id(rest);
        assert(seq![ts[0]] + rest =~= ts);
    }
}

/// Numeric comma-list law, stated on the source text itself.  A
/// source that is numeric literals separated by commas parses as one
/// file-level list whose elements are, in source order, the radix
/// conversions of the integer literals and the texts of the float
/// literals.  (Exponents and imaginary markers are scanned by the
/// lexer too, but this statement covers the plain literal forms.)
pub proof fn lemma_parse_numeric_source(s: Seq<char>, ls: Seq<Seq<char>>, depth: nat)
    requires
        comma_lits_src(s, spec_skip_spaces(s, 0), ls),
        ls.len() >= 2,
        forall|m: int| 0 <= m < ls.len() ==> lit_ok(#[trigger] ls[m]),
        depth >= 2 * ls.len() + 2,
    ensures
        spec_parse(spec_filter_noise(spec_tokens(s, 0)), 0, depth) == Ok::<SpecExpr, ParseError>(
            SpecExpr::List(Container::File, Seq::new(ls.len(), |m: int| lit_expr(ls[m]))),
        ),
{
    let i0 = spec_skip_spaces(s, 0);
    lemma_skip_spaces_bounds(s, 0);
    lemma_comma_lits_tokens(s, i0, ls);
    let ts = spec_tokens(s, i0);
    let n = ls.len() as int;
    // the stream from the start of the text is the stream from the
    // first literal: the leading blanks are skipped either way
    assert(s[i0] == ls[0][0]) by {
        assert(s.subrange(i0, i0 + ls[0].len())[0] == s[i0]);
    }
    assert(spec_is_digit(s[i0], 10)) by {
        if float_text(ls[0]) {
            let d = choose|d: int| float_text_at(ls[0], d);
            assert(float_text_at(ls[0], d));
        }
    }
    assert(!spec_is_space(s[i0]));
    assert(spec_skip_spaces(s, i0) == i0);
    assert(spec_tokens(s, 0) == ts);
    lemma_tokens_shape(s, i0);
    // no newlines and no comments stand in such a stream
    assert forall|k: int|
        0 <= k < ts.len() implies (#[trigger] ts[k]).kind != TokenKind::NewLine && ts[k].kind
        != TokenKind::Comment by {
        if k == ts.len() - 1 {
            assert(ts[k].kind == TokenKind::Eof);
        } else if k % 2 == 0 {
            let m = k / 2;
            assert(ts[2 * m].kind == lit_kind(ls[m]));
        } else {
            let m = (k - 1) / 2;
            assert(ts[2 * m + 1].kind == TokenKind::Comma);
        }
    }
    lemma_filter_noise_id(ts);
    // the list law, instantiated with the stream's own tokens
    let lt = Seq::new(ls.len(), |m: int| ts[2 * m]);
    let es = Seq::new(ls.len(), |m: int| lit_expr(ls[m]));
    assert forall|m: int| 0 <= m < n implies leaf_for(#[trigger] lt[m], es[m]) by {
        assert(ts[2 * m].kind == lit_kind(ls[m]) && ts[2 * m].text == ls[m]);
        lemma_lit_leaf(ts[2 * m], ls[m]);
    }
    lemma_chain_from_indices(ts, lt, 0);
    assert(lt.skip(1) =~= lt.drop_first());
    assert(ts[0] == lt[0]);
    lemma_parse_comma_list(ts, lt, es, depth);
}

} // verus!
