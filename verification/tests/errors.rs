use ppl::parser::{parse, ParseErrorKind};
use ppl::tokenizer::Point;

#[test]
fn tagging_rejects_non_identifier_lhs() {
    let err = parse("1: 2").unwrap_err();
    assert_eq!(err.kind, ParseErrorKind::TaggedLhsNotIdentifier);
}

#[test]
fn access_rejects_non_identifier_member() {
    let err = parse("s.1").unwrap_err();
    assert_eq!(err.kind, ParseErrorKind::AccessRhsNotIdentifier);
}

#[test]
fn mismatched_closer_fails() {
    let err = parse("(1]").unwrap_err();
    assert_eq!(err.kind, ParseErrorKind::MismatchedCloser);
}

#[test]
fn unterminated_container_fails() {
    let err = parse("(1").unwrap_err();
    assert_eq!(err.kind, ParseErrorKind::UnclosedContainer);
}

#[test]
fn binary_only_operator_rejected_in_prefix_position() {
    let err = parse("* 1").unwrap_err();
    assert_eq!(err.kind, ParseErrorKind::IllegalUnaryOperator);
}

#[test]
fn unary_only_operator_rejected_between_operands() {
    let err = parse("1 ~ 2").unwrap_err();
    assert_eq!(err.kind, ParseErrorKind::IllegalUnaryOperator);
}

#[test]
fn unfinished_continuations_are_unexpected() {
    // qualified names, pipes and call brackets have no combine rule
    assert_eq!(parse("a \\ b").unwrap_err().kind, ParseErrorKind::UnexpectedToken);
    assert_eq!(parse("a |> b").unwrap_err().kind, ParseErrorKind::UnexpectedToken);
    assert_eq!(parse("f(x)").unwrap_err().kind, ParseErrorKind::UnexpectedToken);
}

#[test]
fn adjacent_literals_are_a_syntax_error() {
    let err = parse("1 2").unwrap_err();
    assert_eq!(err.kind, ParseErrorKind::UnexpectedToken);
}

#[test]
fn oversized_integer_literal_is_rejected() {
    let err = parse("0x1_0000_0000_0000_0000").unwrap_err();
    assert_eq!(err.kind, ParseErrorKind::InvalidLiteral);
    let err = parse("18446744073709551616").unwrap_err();
    assert_eq!(err.kind, ParseErrorKind::InvalidLiteral);
}

#[test]
fn invalid_tokens_fail_the_parse() {
    let err = parse("\"abc").unwrap_err();
    assert_eq!(err.kind, ParseErrorKind::InvalidLiteral);
    let err = parse("#").unwrap_err();
    assert_eq!(err.kind, ParseErrorKind::InvalidLiteral);
}

#[test]
fn errors_carry_the_offending_position() {
    let err = parse("1:\n 2").unwrap_err();
    assert_eq!(err.kind, ParseErrorKind::TaggedLhsNotIdentifier);
    assert_eq!(err.at, Point { line: 0, column: 1 });
}

#[test]
fn nesting_deeper_than_the_budget_fails() {
    let mut source = String::new();
    for _ in 0..5000 {
        source.push('(');
    }
    source.push('x');
    for _ in 0..5000 {
        source.push(')');
    }
    let err = parse(&source).unwrap_err();
    assert_eq!(err.kind, ParseErrorKind::MaxNestingExceeded);
}

#[test]
fn nesting_within_the_budget_succeeds() {
    let mut source = String::new();
    for _ in 0..100 {
        source.push('(');
    }
    source.push('x');
    for _ in 0..100 {
        source.push(')');
    }
    assert!(parse(&source).is_ok());
}
