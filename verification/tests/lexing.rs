use ppl::tokenizer::{tokenize, Point, Token, TokenKind, Tokenizer};

#[test]
fn tokenizer_numbers() {
    let test_string = "  12 0x8f  0b10_10_01_00   0o123_456 ";

    let mut tokenizer = Tokenizer::new(test_string);

    let reference_tokens = [
        Token {
            kind: TokenKind::DecLiteral,
            value: &test_string[2..4],
            start: Point { line: 0, column: 2 },
            end: Point { line: 0, column: 4 },
        },
        Token {
            kind: TokenKind::HexLiteral,
            value: &test_string[5..9],
            start: Point { line: 0, column: 5 },
            end: Point { line: 0, column: 9 },
        },
        Token {
            kind: TokenKind::BinLiteral,
            value: &test_string[11..24],
            start: Point { line: 0, column: 11 },
            end: Point { line: 0, column: 24 },
        },
        Token {
            kind: TokenKind::OctLiteral,
            value: &test_string[27..36],
            start: Point { line: 0, column: 27 },
            end: Point { line: 0, column: 36 },
        },
    ];

    for reference_token in reference_tokens {
        let token = tokenizer.next_token();
        assert_eq!(reference_token, token);
    }
}

#[test]
fn keywords_and_identifiers() {
    let kinds: Vec<TokenKind> = tokenize("and or not if comp fn andy")
        .into_iter()
        .map(|t| t.kind)
        .collect();
    assert_eq!(
        kinds,
        vec![
            TokenKind::KwordAnd,
            TokenKind::KwordOr,
            TokenKind::KwordNot,
            TokenKind::KwordIf,
            TokenKind::KwordComp,
            TokenKind::KwordFn,
            TokenKind::Identifier,
            TokenKind::Eof,
        ]
    );
}

#[test]
fn dot_before_a_digit_is_member_access_syntax() {
    // a float literal begins with a digit: `.5` is a dot, then `5`
    let kinds: Vec<TokenKind> = tokenize(".5").into_iter().map(|t| t.kind).collect();
    assert_eq!(kinds, vec![TokenKind::Dot, TokenKind::DecLiteral, TokenKind::Eof]);
}

#[test]
fn multi_character_operators() {
    let kinds: Vec<TokenKind> = tokenize("-> >= <= << >> .& .| .^ |> - > < | .")
        .into_iter()
        .map(|t| t.kind)
        .collect();
    assert_eq!(
        kinds,
        vec![
            TokenKind::Arrow,
            TokenKind::OpGe,
            TokenKind::OpLe,
            TokenKind::Lshift,
            TokenKind::Rshift,
            TokenKind::Band,
            TokenKind::Bor,
            TokenKind::Bxor,
            TokenKind::Pipe,
            TokenKind::OpMinus,
            TokenKind::OpGt,
            TokenKind::OpLt,
            TokenKind::Bar,
            TokenKind::Dot,
            TokenKind::Eof,
        ]
    );
}

#[test]
fn float_and_imaginary_literals() {
    let tokens = tokenize("3.4 3.4e2 1.5e-2 1. 2i 3.4i 3.4e z");
    let texts: Vec<(&TokenKind, &str)> = tokens.iter().map(|t| (&t.kind, t.value)).collect();
    assert_eq!(
        texts,
        vec![
            (&TokenKind::FloatLiteral, "3.4"),
            (&TokenKind::FloatLiteral, "3.4e2"),
            (&TokenKind::FloatLiteral, "1.5e-2"),
            (&TokenKind::FloatLiteral, "1."),
            (&TokenKind::ImaginaryLiteral, "2i"),
            (&TokenKind::ImaginaryLiteral, "3.4i"),
            // an exponent without digits stops the literal before the `e`
            (&TokenKind::FloatLiteral, "3.4"),
            (&TokenKind::Identifier, "e"),
            (&TokenKind::Identifier, "z"),
            (&TokenKind::Eof, ""),
        ]
    );
}

#[test]
fn malformed_literals_are_invalid_tokens() {
    // a radix prefix with no digits after it
    let tokens = tokenize("0x");
    assert_eq!(tokens[0].kind, TokenKind::Invalid);
    assert_eq!(tokens[0].value, "0x");
    // an unterminated string
    let tokens = tokenize("\"abc");
    assert_eq!(tokens[0].kind, TokenKind::Invalid);
    // an unknown escape
    let tokens = tokenize("\"a\\qb\"");
    assert_eq!(tokens[0].kind, TokenKind::Invalid);
}

#[test]
fn string_token_keeps_raw_slice() {
    let source = "\"a\\nb\"";
    let tokens = tokenize(source);
    assert_eq!(tokens[0].kind, TokenKind::StringLiteral);
    assert_eq!(tokens[0].value, source);
}

#[test]
fn newline_and_comment_tokens() {
    let kinds: Vec<TokenKind> = tokenize("1 // note\n2")
        .into_iter()
        .map(|t| t.kind)
        .collect();
    assert_eq!(
        kinds,
        vec![
            TokenKind::DecLiteral,
            TokenKind::Comment,
            TokenKind::NewLine,
            TokenKind::DecLiteral,
            TokenKind::Eof,
        ]
    );
}

#[test]
fn positions_across_lines() {
    let mut tokenizer = Tokenizer::new("ab\n cd");
    let a = tokenizer.next_token();
    assert_eq!(a.start, Point { line: 0, column: 0 });
    assert_eq!(a.end, Point { line: 0, column: 2 });
    let nl = tokenizer.next_token();
    assert_eq!(nl.kind, TokenKind::NewLine);
    let c = tokenizer.next_token();
    assert_eq!(c.kind, TokenKind::Identifier);
    assert_eq!(c.start, Point { line: 1, column: 1 });
    assert_eq!(c.end, Point { line: 1, column: 3 });
}

#[test]
fn bindings_and_singles() {
    let tokens = tokenize("@abc @1 $ _ ? ' \\ :");
    let pairs: Vec<(&TokenKind, &str)> = tokens.iter().map(|t| (&t.kind, t.value)).collect();
    assert_eq!(
        pairs,
        vec![
            (&TokenKind::Binding, "@abc"),
            (&TokenKind::Invalid, "@"),
            (&TokenKind::DecLiteral, "1"),
            (&TokenKind::Positional, "$"),
            (&TokenKind::Special, "_"),
            (&TokenKind::Propagate, "?"),
            (&TokenKind::Appostrophe, "'"),
            (&TokenKind::Backslash, "\\"),
            (&TokenKind::Colon, ":"),
            (&TokenKind::Eof, ""),
        ]
    );
}

#[test]
fn empty_source_is_one_eof() {
    let tokens = tokenize("");
    assert_eq!(tokens.len(), 1);
    assert_eq!(tokens[0].kind, TokenKind::Eof);
    assert_eq!(tokens[0].value, "");
}
