use rpn::{eval, parse, EvalError, Expr, ParseError};

#[test]
fn test_parse() {
    assert_eq!(
        parse("1 2 3 + - * /").unwrap(),
        vec![
            Expr::Num(1),
            Expr::Num(2),
            Expr::Num(3),
            Expr::Add,
            Expr::Sub,
            Expr::Mul,
            Expr::Div
        ]
    );
}

#[test]
fn test_eval() {
    assert_eq!(eval(vec![Expr::Num(1), Expr::Num(2), Expr::Add]).unwrap(), 3);
    assert_eq!(eval(vec![Expr::Num(1), Expr::Num(2), Expr::Sub]).unwrap(), -1);
    assert_eq!(eval(vec![Expr::Num(1), Expr::Num(2), Expr::Mul]).unwrap(), 2);
    assert_eq!(eval(vec![Expr::Num(1), Expr::Num(2), Expr::Div]).unwrap(), 0);
}

#[test]
fn test_rpn() {
    assert_eq!(eval(parse("3 4 + 1 2 - *").unwrap()).unwrap(), -7)
}

#[test]
fn parse_rejects_malformed_word() {
    match parse("a") {
        Err(ParseError::MalformedToken { word }) => assert_eq!(word, "a"),
        other => panic!("expected MalformedToken, got {:?}", other),
    }
}

#[test]
fn parse_reports_first_malformed_word() {
    match parse("1 x y 2") {
        Err(ParseError::MalformedToken { word }) => assert_eq!(word, "x"),
        other => panic!("expected MalformedToken, got {:?}", other),
    }
}

#[test]
fn parse_rejects_joined_expression() {
    match parse("1+2") {
        Err(ParseError::MalformedToken { word }) => assert_eq!(word, "1+2"),
        other => panic!("expected MalformedToken, got {:?}", other),
    }
}

#[test]
fn parse_rejects_plus_signed_number() {
    match parse("+5") {
        Err(ParseError::MalformedToken { word }) => assert_eq!(word, "+5"),
        other => panic!("expected MalformedToken, got {:?}", other),
    }
}

#[test]
fn parse_rejects_bare_sign_pair() {
    match parse("--1") {
        Err(ParseError::MalformedToken { word }) => assert_eq!(word, "--1"),
        other => panic!("expected MalformedToken, got {:?}", other),
    }
}

#[test]
fn parse_empty_and_whitespace_only() {
    assert_eq!(parse("").unwrap(), vec![]);
    assert_eq!(parse(" \t\r\n ").unwrap(), vec![]);
}

#[test]
fn parse_handles_extra_whitespace() {
    assert_eq!(
        parse("  12\t-3  ").unwrap(),
        vec![Expr::Num(12), Expr::Num(-3)]
    );
}

#[test]
fn parse_range_edges() {
    assert_eq!(parse("2147483647").unwrap(), vec![Expr::Num(i32::MAX)]);
    assert_eq!(parse("-2147483648").unwrap(), vec![Expr::Num(i32::MIN)]);
    match parse("2147483648") {
        Err(ParseError::MalformedToken { word }) => assert_eq!(word, "2147483648"),
        other => panic!("expected MalformedToken, got {:?}", other),
    }
    match parse("-2147483649") {
        Err(ParseError::MalformedToken { word }) => assert_eq!(word, "-2147483649"),
        other => panic!("expected MalformedToken, got {:?}", other),
    }
}

#[test]
fn parse_leading_zeros_and_negative_zero() {
    assert_eq!(parse("007").unwrap(), vec![Expr::Num(7)]);
    assert_eq!(parse("-0").unwrap(), vec![Expr::Num(0)]);
}

#[test]
fn parse_twice_yields_equal_tokens() {
    let a = parse("3 4 + 1 2 - *").unwrap();
    let b = parse("3 4 + 1 2 - *").unwrap();
    assert_eq!(a, b);
    let e1 = parse("3 oops");
    let e2 = parse("3 oops");
    match (e1, e2) {
        (
            Err(ParseError::MalformedToken { word: w1 }),
            Err(ParseError::MalformedToken { word: w2 }),
        ) => assert_eq!(w1, w2),
        other => panic!("expected two MalformedToken errors, got {:?}", other),
    }
}

#[test]
fn eval_rejects_excess_operands() {
    assert_eq!(
        eval(vec![Expr::Num(1), Expr::Num(2), Expr::Add, Expr::Num(3)]),
        Err(EvalError::MalformedExpression)
    );
}

#[test]
fn eval_rejects_empty_input() {
    assert_eq!(eval(vec![]), Err(EvalError::MalformedExpression));
}

#[test]
fn eval_underflow_on_lone_operator() {
    assert_eq!(eval(vec![Expr::Add]), Err(EvalError::StackUnderflow));
}

#[test]
fn eval_underflow_on_single_operand() {
    assert_eq!(
        eval(vec![Expr::Num(1), Expr::Sub]),
        Err(EvalError::StackUnderflow)
    );
}

#[test]
fn eval_division_by_zero() {
    assert_eq!(
        eval(vec![Expr::Num(5), Expr::Num(0), Expr::Div]),
        Err(EvalError::DivisionByZero)
    );
}

#[test]
fn eval_division_truncates_toward_zero() {
    assert_eq!(eval(vec![Expr::Num(-7), Expr::Num(2), Expr::Div]).unwrap(), -3);
    assert_eq!(eval(vec![Expr::Num(7), Expr::Num(-2), Expr::Div]).unwrap(), -3);
    assert_eq!(eval(vec![Expr::Num(-7), Expr::Num(-2), Expr::Div]).unwrap(), 3);
    assert_eq!(eval(vec![Expr::Num(7), Expr::Num(2), Expr::Div]).unwrap(), 3);
}

#[test]
fn eval_operand_order_matters() {
    assert_eq!(eval(vec![Expr::Num(2), Expr::Num(5), Expr::Sub]).unwrap(), -3);
    assert_eq!(eval(vec![Expr::Num(5), Expr::Num(2), Expr::Sub]).unwrap(), 3);
    assert_eq!(eval(vec![Expr::Num(1), Expr::Num(8), Expr::Div]).unwrap(), 0);
}

#[test]
fn eval_longer_expression() {
    // 10 2 / 3 * 4 - == (10 / 2) * 3 - 4 == 11
    assert_eq!(
        eval(vec![
            Expr::Num(10),
            Expr::Num(2),
            Expr::Div,
            Expr::Num(3),
            Expr::Mul,
            Expr::Num(4),
            Expr::Sub
        ])
        .unwrap(),
        11
    );
}

#[test]
fn end_to_end_composition() {
    assert_eq!(eval(parse("1 2 +").unwrap()).unwrap(), 3);
    assert_eq!(eval(parse("10 3 /").unwrap()).unwrap(), 3);
    assert_eq!(eval(parse("-2147483647 -1 +").unwrap()).unwrap(), i32::MIN);
}
