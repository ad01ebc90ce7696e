use boolcalc::alg::Expr;
use boolcalc::alg::Op;
use boolcalc::parse::ParseError;
use boolcalc::parse::Parser;

#[test]
fn parse_literal() {
    let p: Parser = Parser {};
    let expr: Expr = p.parse("T").unwrap();

    println!("{}", expr.render());

    assert_eq!(expr, Expr::Lit(true));
}

#[test]
fn parse_variable() {
    let p: Parser = Parser {};
    let expr: Expr = p.parse("a").unwrap();

    println!("{}", expr.render());

    assert_eq!(expr, Expr::Var('a'));
}

#[test]
fn parse_binop() {
    let p = Parser {};
    let expr: Expr = p.parse("a ^ T").unwrap();

    println!("{}", expr.render());

    assert_eq!(
        expr,
        Expr::BinOp(
            Op::And,
            Box::new(Expr::Var('a')),
            Box::new(Expr::Lit(true))
        )
    );
}

#[test]
fn parse_unop() {
    let p = Parser {};
    let expr = p.parse("-a").unwrap();

    println!("{}", expr.render());

    assert_eq!(expr, Expr::Not(Box::new(Expr::Var('a'))));
}

#[test]
fn parse_parentheses_1() {
    let p = Parser {};
    let expr = p.parse("(a v b) ^ c").unwrap();

    println!("{}", expr.render());

    assert_eq!(
        expr,
        Expr::BinOp(
            Op::And,
            Box::new(Expr::BinOp(
                Op::Or,
                Box::new(Expr::Var('a')),
                Box::new(Expr::Var('b'))
            )),
            Box::new(Expr::Var('c'))
        )
    );
}

#[test]
fn parse_parentheses_2() {
    let p = Parser {};
    let expr = p.parse("a v (b ^ c)").unwrap();

    println!("{}", expr.render());

    assert_eq!(
        expr,
        Expr::BinOp(
            Op::Or,
            Box::new(Expr::Var('a')),
            Box::new(Expr::BinOp(
                Op::And,
                Box::new(Expr::Var('b')),
                Box::new(Expr::Var('c'))
            ))
        )
    );
}

#[test]
fn binary_operators_associate_to_the_right() {
    let p = Parser {};
    let expr = p.parse("a ^ b v c").unwrap();
    assert_eq!(
        expr,
        Expr::BinOp(
            Op::And,
            Box::new(Expr::Var('a')),
            Box::new(Expr::BinOp(
                Op::Or,
                Box::new(Expr::Var('b')),
                Box::new(Expr::Var('c'))
            ))
        )
    );
}

#[test]
fn render_then_parse_returns_the_same_tree() {
    let tree = || {
        Expr::BinOp(
            Op::And,
            Box::new(Expr::Var('a')),
            Box::new(Expr::BinOp(
                Op::Or,
                Box::new(Expr::Var('b')),
                Box::new(Expr::Lit(false)),
            )),
        )
    };
    let p = Parser {};
    let text = tree().render();
    assert_eq!(text, "(a ^ (b v F))");
    assert_eq!(p.parse(&text), Ok(tree()));
}

#[test]
fn doubled_operator_is_rejected() {
    let p = Parser {};
    assert_eq!(p.parse("a ^^ b"), Err(ParseError::UnexpectedToken));
}

#[test]
fn unknown_character_is_rejected() {
    let p = Parser {};
    assert_eq!(p.parse("a & b"), Err(ParseError::UnrecognizedChar('&')));
}

#[test]
fn missing_operand_is_rejected() {
    let p = Parser {};
    assert_eq!(p.parse("a ^"), Err(ParseError::UnexpectedEnd));
    assert_eq!(p.parse(""), Err(ParseError::UnexpectedEnd));
}

#[test]
fn missing_close_paren_is_rejected() {
    let p = Parser {};
    assert_eq!(p.parse("(a v b"), Err(ParseError::ExpectedCloseParen));
    assert_eq!(p.parse("(a v b("), Err(ParseError::ExpectedCloseParen));
}

#[test]
fn trailing_tokens_are_rejected() {
    let p = Parser {};
    assert_eq!(p.parse("a b"), Err(ParseError::TrailingTokens));
}

#[test]
fn spaces_are_skipped_anywhere() {
    let p = Parser {};
    assert_eq!(p.parse("  -  ( a )  "), Ok(Expr::Not(Box::new(Expr::Var('a')))));
}

#[test]
fn token_stream_materializes_all_tokens() {
    let p = Parser {};
    let toks = p.token_stream("T^vF- ()z").unwrap();
    assert_eq!(toks.len(), 8);
}
