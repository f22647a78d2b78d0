use ppl::parser::{parse, Container, Expression, Identifier, Operator, Parser};

#[test]
fn parser_numbers() {
    let source = "1, 0x12, 3.4";

    let mut parser = Parser::new(source);

    let ast = parser.parse().unwrap();

    let reference = Expression::List(
        Container::File,
        vec![
            Expression::IntLiteral(1),
            Expression::IntLiteral(18),
            Expression::FloatLiteral("3.4".to_string()),
        ],
    );

    assert_eq!(ast, reference);
}

#[test]
fn basic() {
    let source = "
            c: - 1 * 4 > 3 - 2 and value = \"string\"
        ";

    let mut parser = Parser::new(source);
    let ast = parser.parse().unwrap();
    let reference = Expression::Tagged(
        Identifier { id: "c".to_string() },
        Box::new(Expression::Binary(
            Operator::And,
            Box::new(Expression::Binary(
                Operator::Gt,
                Box::new(Expression::Unary(
                    Operator::Minus,
                    Box::new(Expression::Binary(
                        Operator::Times,
                        Box::new(Expression::IntLiteral(1)),
                        Box::new(Expression::IntLiteral(4)),
                    )),
                )),
                Box::new(Expression::Binary(
                    Operator::Minus,
                    Box::new(Expression::IntLiteral(3)),
                    Box::new(Expression::IntLiteral(2)),
                )),
            )),
            // value = "string"
            Box::new(Expression::Binary(
                Operator::Eq,
                Box::new(Expression::Identifier("value".to_string())),
                Box::new(Expression::StringLiteral("string".to_string())),
            )),
        )),
    );

    assert_eq!(ast, reference);
}

#[test]
fn member_access() {
    let source = "
            v: - s.a ^ 2 * 3 + s.b
        ";

    let mut parser = Parser::new(source);

    let ast = parser.parse().unwrap();
    let reference = Expression::Tagged(
        Identifier { id: "v".to_string() },
        Box::new(Expression::Binary(
            Operator::Plus,
            Box::new(Expression::Unary(
                Operator::Minus,
                Box::new(Expression::Binary(
                    Operator::Times,
                    Box::new(Expression::Binary(
                        Operator::Exponent,
                        Box::new(Expression::Access(
                            Box::new(Expression::Identifier("s".to_string())),
                            Identifier { id: "a".to_string() },
                        )),
                        Box::new(Expression::IntLiteral(2)),
                    )),
                    Box::new(Expression::IntLiteral(3)),
                )),
            )),
            Box::new(Expression::Access(
                Box::new(Expression::Identifier("s".to_string())),
                Identifier { id: "b".to_string() },
            )),
        )),
    );

    assert_eq!(ast, reference);
}

#[test]
fn tagging_takes_identifier_lhs() {
    let ast = parse("c: 1 + 2").unwrap();
    let reference = Expression::Tagged(
        Identifier { id: "c".to_string() },
        Box::new(Expression::Binary(
            Operator::Plus,
            Box::new(Expression::IntLiteral(1)),
            Box::new(Expression::IntLiteral(2)),
        )),
    );
    assert_eq!(ast, reference);
}

#[test]
fn access_takes_identifier_member() {
    let ast = parse("s.a").unwrap();
    let reference = Expression::Access(
        Box::new(Expression::Identifier("s".to_string())),
        Identifier { id: "a".to_string() },
    );
    assert_eq!(ast, reference);
}

#[test]
fn empty_containers() {
    assert_eq!(parse("()").unwrap(), Expression::Empty);
    assert_eq!(parse("[]").unwrap(), Expression::Empty);
    assert_eq!(parse("{}").unwrap(), Expression::Empty);
    assert_eq!(parse("").unwrap(), Expression::Empty);
}

#[test]
fn unary_binds_tighter_than_following_binary() {
    let ast = parse("- 1 * 4 > 3 - 2 and v = \"s\"").unwrap();
    let reference = Expression::Binary(
        Operator::And,
        Box::new(Expression::Binary(
            Operator::Gt,
            Box::new(Expression::Unary(
                Operator::Minus,
                Box::new(Expression::Binary(
                    Operator::Times,
                    Box::new(Expression::IntLiteral(1)),
                    Box::new(Expression::IntLiteral(4)),
                )),
            )),
            Box::new(Expression::Binary(
                Operator::Minus,
                Box::new(Expression::IntLiteral(3)),
                Box::new(Expression::IntLiteral(2)),
            )),
        )),
        Box::new(Expression::Binary(
            Operator::Eq,
            Box::new(Expression::Identifier("v".to_string())),
            Box::new(Expression::StringLiteral("s".to_string())),
        )),
    );
    assert_eq!(ast, reference);
}

#[test]
fn higher_precedence_binds_first() {
    let ast = parse("1 * 2 + 3").unwrap();
    let reference = Expression::Binary(
        Operator::Plus,
        Box::new(Expression::Binary(
            Operator::Times,
            Box::new(Expression::IntLiteral(1)),
            Box::new(Expression::IntLiteral(2)),
        )),
        Box::new(Expression::IntLiteral(3)),
    );
    assert_eq!(ast, reference);

    let ast = parse("1 + 2 * 3").unwrap();
    let reference = Expression::Binary(
        Operator::Plus,
        Box::new(Expression::IntLiteral(1)),
        Box::new(Expression::Binary(
            Operator::Times,
            Box::new(Expression::IntLiteral(2)),
            Box::new(Expression::IntLiteral(3)),
        )),
    );
    assert_eq!(ast, reference);
}

#[test]
fn equal_precedence_associates_left() {
    let ast = parse("1 - 2 + 3").unwrap();
    let reference = Expression::Binary(
        Operator::Plus,
        Box::new(Expression::Binary(
            Operator::Minus,
            Box::new(Expression::IntLiteral(1)),
            Box::new(Expression::IntLiteral(2)),
        )),
        Box::new(Expression::IntLiteral(3)),
    );
    assert_eq!(ast, reference);
}

#[test]
fn parentheses_are_transparent() {
    assert_eq!(parse("(1 + 2)").unwrap(), parse("1 + 2").unwrap());
    assert_eq!(parse("((x))").unwrap(), parse("x").unwrap());
    assert_eq!(parse("(\"s\")").unwrap(), parse("\"s\"").unwrap());
}

#[test]
fn wrapping_an_absorbing_list_merges_it() {
    // the one case where parentheses are not transparent to the tree:
    // a file-level list whose first element is itself a parenthesized
    // list is absorbed into that list when the whole source is wrapped
    let plain = parse("(a, b), c").unwrap();
    let reference = Expression::List(
        Container::File,
        vec![
            Expression::List(
                Container::Paren,
                vec![
                    Expression::Identifier("a".to_string()),
                    Expression::Identifier("b".to_string()),
                ],
            ),
            Expression::Identifier("c".to_string()),
        ],
    );
    assert_eq!(plain, reference);

    let wrapped = parse("((a, b), c)").unwrap();
    let reference = Expression::List(
        Container::Paren,
        vec![
            Expression::Identifier("a".to_string()),
            Expression::Identifier("b".to_string()),
            Expression::Identifier("c".to_string()),
        ],
    );
    assert_eq!(wrapped, reference);
}

#[test]
fn bracket_kinds_are_recorded() {
    let ast = parse("[1, 2]").unwrap();
    let reference = Expression::List(
        Container::Bracket,
        vec![Expression::IntLiteral(1), Expression::IntLiteral(2)],
    );
    assert_eq!(ast, reference);

    let ast = parse("(1, 2)").unwrap();
    let reference = Expression::List(
        Container::Paren,
        vec![Expression::IntLiteral(1), Expression::IntLiteral(2)],
    );
    assert_eq!(ast, reference);
}

#[test]
fn literal_values_are_normalized() {
    let ast = parse("0xffff_ffff_ffff_ffff, 0b100, 0o17, 10, 2i, \"a\\nb\"").unwrap();
    let reference = Expression::List(
        Container::File,
        vec![
            Expression::IntLiteral(u64::MAX),
            Expression::IntLiteral(4),
            Expression::IntLiteral(15),
            Expression::IntLiteral(10),
            Expression::ImaginaryLiteral("2".to_string()),
            Expression::StringLiteral("a\nb".to_string()),
        ],
    );
    assert_eq!(ast, reference);
}

#[test]
fn blanks_around_commas_are_skipped() {
    assert_eq!(parse("  1 ,0x10,  2  ").unwrap(), parse("1, 16, 2").unwrap());
}

#[test]
fn unary_keywords_and_operators() {
    let ast = parse("not x").unwrap();
    let reference = Expression::Unary(
        Operator::Not,
        Box::new(Expression::Identifier("x".to_string())),
    );
    assert_eq!(ast, reference);

    let ast = parse("~1").unwrap();
    let reference = Expression::Unary(Operator::Bnot, Box::new(Expression::IntLiteral(1)));
    assert_eq!(ast, reference);
}

#[test]
fn comments_and_newlines_are_noise_to_the_parser() {
    let ast = parse("1 +\n// a note\n2").unwrap();
    let reference = Expression::Binary(
        Operator::Plus,
        Box::new(Expression::IntLiteral(1)),
        Box::new(Expression::IntLiteral(2)),
    );
    assert_eq!(ast, reference);
}
