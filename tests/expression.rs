use sheeet::Expression::{Function, Value};
use sheeet::{parse_expression, CellPointer, Expression, ExpressionError, Reference, SheetError};

#[test]
fn expression_test_parse_expression() {
    {
        let input = "=add(2, sub(4, 2, add(5, 5), 4))";
        let expr = Expression::parse(input).expect("parsing failed");
        println!("{expr:#?}");
        assert_eq!(
            expr,
            Function {
                name: String::from("add"),
                inputs: vec![
                    Value(String::from("2")),
                    Function {
                        name: String::from("sub"),
                        inputs: vec![
                            Value(String::from("4")),
                            Value(String::from("2")),
                            Function {
                                name: String::from("add"),
                                inputs: vec![Value(String::from("5")), Value(String::from("5")),],
                            },
                            Value(String::from("4")),
                        ],
                    }
                ],
            }
        );
    }
    {
        let input = "=add(A2, A0:A, 5)";
        let expr = Expression::parse(input).expect("parsing failed");
        println!("{expr:#?}");
        assert_eq!(
            expr,
            Function {
                name: String::from("add"),
                inputs: vec![
                    Expression::Reference(Reference::Single(CellPointer(1, 2))),
                    Expression::Reference(Reference::UnboundedColRange(CellPointer(1, 0), 1)),
                    Value(String::from("5")),
                ],
            }
        );
    }
    {
        let input = "2";
        let expr = Expression::parse(input).expect("parsing failed");
        println!("{expr:#?}");
        assert_eq!(expr, Value(String::from("2")));
    }
    {
        let input = "some text";
        let expr = Expression::parse(input).expect("parsing failed");
        println!("{expr:#?}");
        assert_eq!(expr, Value(String::from("some text")));
    }
    {
        let input = r#"=concat(A1:A, ", ")"#;
        let expr = Expression::parse(input).expect("parsing failed");
        println!("{expr:#?}");
        assert_eq!(
            expr,
            Function {
                name: String::from("concat"),
                inputs: vec![
                    Expression::Reference(Reference::UnboundedColRange(CellPointer(1, 1), 1)),
                    Value(String::from(", ")),
                ],
            }
        );
    }
    {
        let input = r#"=concat(A1:A, "lol")"#;
        let expr = Expression::parse(input).expect("parsing failed");
        println!("{expr:#?}");
        assert_eq!(
            expr,
            Function {
                name: String::from("concat"),
                inputs: vec![
                    Expression::Reference(Reference::UnboundedColRange(CellPointer(1, 1), 1)),
                    Value(String::from("lol")),
                ],
            }
        );
    }
}

#[test]
fn expression_test_parse_expression_two_commas() {
    let input = "=add(2,, 4)";
    let expr = Expression::parse(input);
    expr.expect_err("parsing ok");
}

#[test]
fn expression_test_parse_expression_unclosed_bracket() {
    {
        let input = "=add(2, 4";
        let expr = Expression::parse(input);
        expr.expect_err("parsing ok");
    }
    {
        let input = "=add(2, 4,";
        let expr = Expression::parse(input);
        expr.expect_err("parsing ok");
    }
}

#[test]
fn lib_test_parse_expression() {
    {
        let input = "=add(2, sub(4, 2, add(5, 5), 4))";
        let expr = parse_expression(input).expect("parsing failed");
        println!("{expr:#?}");
        assert_eq!(
            expr,
            Function {
                name: String::from("add"),
                inputs: vec![
                    Value(String::from("2")),
                    Function {
                        name: String::from("sub"),
                        inputs: vec![
                            Value(String::from("4")),
                            Value(String::from("2")),
                            Function {
                                name: String::from("add"),
                                inputs: vec![Value(String::from("5")), Value(String::from("5")),],
                            },
                            Value(String::from("4")),
                        ],
                    }
                ],
            }
        );
    }
    {
        let input = "=add(A2, A0:A, 5)";
        let expr = parse_expression(input).expect("parsing failed");
        println!("{expr:#?}");
        assert_eq!(
            expr,
            Function {
                name: String::from("add"),
                inputs: vec![
                    Expression::Reference(Reference::Single(CellPointer(1, 2))),
                    Expression::Reference(Reference::UnboundedColRange(CellPointer(1, 0), 1)),
                    Value(String::from("5")),
                ],
            }
        );
    }
}

#[test]
fn lib_test_parse_expression_two_commas() {
    let input = "=add(2,, 4)";
    let expr = parse_expression(input);
    expr.expect_err("parsing ok");
}

#[test]
fn lib_test_parse_expression_unclosed_bracket() {
    {
        let input = "=add(2, 4";
        let expr = parse_expression(input);
        expr.expect_err("parsing ok");
    }
    {
        let input = "=add(2, 4,";
        let expr = parse_expression(input);
        expr.expect_err("parsing ok");
    }
}

fn kind(input: &str) -> ExpressionError {
    match Expression::parse(input) {
        Err(SheetError::BadExpression(k)) => k,
        other => panic!("expected a parse error, got {other:?}"),
    }
}

#[test]
fn parse_errors_name_their_kind() {
    assert_eq!(kind("=1,2"), ExpressionError::CommaAtRoot);
    assert_eq!(kind("=add(2,, 4)"), ExpressionError::EmptyArgument);
    assert_eq!(kind("=add(2, 4"), ExpressionError::UnclosedFunction);
    assert_eq!(kind("=a)"), ExpressionError::UnopenedFunction);
    assert_eq!(kind("=\"abc"), ExpressionError::UnclosedQuote);
}

#[test]
fn quoted_literal_keeps_its_text() {
    let expr = Expression::parse(r#"=concat_with(A1:A, ", ")"#).unwrap();
    assert_eq!(
        expr,
        Function {
            name: String::from("concat_with"),
            inputs: vec![
                Expression::Reference(Reference::UnboundedColRange(CellPointer(1, 1), 1)),
                Value(String::from(", ")),
            ],
        }
    );
    assert_eq!(Expression::parse("=\"a (b), c\"").unwrap(), Value(String::from("a (b), c")));
    assert_eq!(
        Expression::parse("=f(g(\"x,)\"), 1)").unwrap(),
        Function {
            name: String::from("f"),
            inputs: vec![
                Function { name: String::from("g"), inputs: vec![Value(String::from("x,)"))] },
                Value(String::from("1")),
            ],
        }
    );
}

#[test]
fn copy_moves_references_and_integers() {
    let expr = Expression::parse("=add(A1, B1:C2, A1:A, A1:1, 7, x)").unwrap();
    let moved = expr.copy_with_distance((1, 2)).unwrap();
    assert_eq!(moved.to_string(), "=add(B3,C3:D4,B3:B,B3:3,9,x)");
    let back = moved.copy_with_distance((-1, -2)).unwrap();
    assert_eq!(back, expr);
    assert!(matches!(expr.copy_with_distance((0, -2)), Err(SheetError::BadCopy)));
    assert!(matches!(expr.copy_with_distance((-2, 0)), Err(SheetError::BadCopy)));
    assert_eq!(
        Value(String::from("-3")).copy_with_distance((5, 4)).unwrap(),
        Value(String::from("1"))
    );
    assert_eq!(
        Value(String::from("text")).copy_with_distance((5, 4)).unwrap(),
        Value(String::from("text"))
    );
}

#[test]
fn expression_text_quotes_literals_that_need_it() {
    let expr = Expression::parse(r#"=concat_with(A1:A, ", ")"#).unwrap();
    assert_eq!(expr.to_string(), "=concat_with(A1:A,\", \")");
    assert_eq!(Expression::parse(&expr.to_string()).unwrap(), expr);
    assert_eq!(Expression::parse("=A1").unwrap().to_string(), "=A1");
    assert_eq!(Expression::parse("plain").unwrap().to_string(), "plain");
}

#[test]
fn unicode_white_space_is_trimmed() {
    assert_eq!(
        Expression::parse("=f(\u{A0}A1\u{3000})").unwrap(),
        Function {
            name: String::from("f"),
            inputs: vec![Expression::Reference(Reference::Single(CellPointer(1, 1)))],
        }
    );
}
