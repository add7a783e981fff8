//! The Pratt parser from tokens to an expression tree.
//!
//! Expected trees are written out node by node; number literals carry
//! their decimal text.

use rlox::{parse, scan, Expr, LoxError, Token, TokenType, Value};

fn parse_str(src: &str) -> Result<Expr, LoxError> {
    let (tokens, errors) = scan(src);
    assert!(errors.is_empty(), "scan errors: {errors:?}");
    parse(&tokens)
}

fn num(text: &str) -> Expr {
    Expr::Literal(Value::Number(text.to_string()))
}

fn tok(ttype: TokenType, lexeme: &str) -> Token {
    Token::new(ttype, lexeme, None, 1)
}

fn bin(left: Expr, ttype: TokenType, lexeme: &str, right: Expr) -> Expr {
    Expr::Binary { left: Box::new(left), op: tok(ttype, lexeme), right: Box::new(right) }
}

fn un(ttype: TokenType, lexeme: &str, right: Expr) -> Expr {
    Expr::Unary { op: tok(ttype, lexeme), right: Box::new(right) }
}

fn group(inner: Expr) -> Expr {
    Expr::Grouping(Box::new(inner))
}

#[test]
fn parser_parses_number_literal() {
    let e = parse_str("123").unwrap();
    assert_eq!(e, Expr::Literal(Value::Number("123".into())));
}

#[test]
fn parser_parses_string_literal_strips_quotes() {
    let e = parse_str(r#""hi""#).unwrap();
    assert_eq!(e, Expr::Literal(Value::String("hi".into())));
}

#[test]
fn parser_parses_boolean_and_nil_keywords() {
    assert_eq!(parse_str("true").unwrap(), Expr::Literal(Value::Bool(true)));
    assert_eq!(parse_str("false").unwrap(), Expr::Literal(Value::Bool(false)));
    assert_eq!(parse_str("nil").unwrap(), Expr::Literal(Value::Nil));
}

#[test]
fn parser_parses_grouping() {
    assert_eq!(parse_str("(1)").unwrap(), group(num("1")));
}

#[test]
fn parser_parses_unary_minus_and_bang() {
    assert_eq!(parse_str("-1").unwrap(), un(TokenType::Minus, "-", num("1")));
    assert_eq!(
        parse_str("!true").unwrap(),
        un(TokenType::Bang, "!", Expr::Literal(Value::Bool(true)))
    );
    assert_eq!(
        parse_str("!!true").unwrap(),
        un(TokenType::Bang, "!", un(TokenType::Bang, "!", Expr::Literal(Value::Bool(true))))
    );
}

#[test]
fn parser_factor_binds_tighter_than_term() {
    assert_eq!(
        parse_str("1 + 2 * 3").unwrap(),
        bin(num("1"), TokenType::Plus, "+", bin(num("2"), TokenType::Star, "*", num("3")))
    );
}

#[test]
fn parser_term_is_left_associative() {
    assert_eq!(
        parse_str("1 + 2 + 3").unwrap(),
        bin(bin(num("1"), TokenType::Plus, "+", num("2")), TokenType::Plus, "+", num("3"))
    );
}

#[test]
fn parser_factor_is_left_associative() {
    assert_eq!(
        parse_str("8 / 4 / 2").unwrap(),
        bin(bin(num("8"), TokenType::Slash, "/", num("4")), TokenType::Slash, "/", num("2"))
    );
}

#[test]
fn parser_comparison_and_equality_chain() {
    assert_eq!(
        parse_str("1 < 2 == 3 > 4").unwrap(),
        bin(
            bin(num("1"), TokenType::Less, "<", num("2")),
            TokenType::EqualEqual,
            "==",
            bin(num("3"), TokenType::Greater, ">", num("4"))
        )
    );
}

#[test]
fn parser_equality_is_left_associative() {
    assert_eq!(
        parse_str("1 == 2 == 3").unwrap(),
        bin(
            bin(num("1"), TokenType::EqualEqual, "==", num("2")),
            TokenType::EqualEqual,
            "==",
            num("3")
        )
    );
}

#[test]
fn parser_parses_chap06_reference_case() {
    // (5 - (3 - 1)) + -1  reads as  (+ (group (- 5 (group (- 3 1)))) (- 1))
    assert_eq!(
        parse_str("(5 - (3 - 1)) + -1").unwrap(),
        bin(
            group(bin(num("5"), TokenType::Minus, "-", group(bin(num("3"), TokenType::Minus, "-", num("1"))))),
            TokenType::Plus,
            "+",
            un(TokenType::Minus, "-", num("1"))
        )
    );
}

#[test]
fn parser_missing_closing_paren_reports_parse_error() {
    let err = parse_str("(1 + 2").unwrap_err();
    let LoxError::Parse { line, location, message } = err else {
        panic!("expected Parse error, got {err:?}");
    };
    assert_eq!(line, 1);
    assert_eq!(location, " at end");
    assert_eq!(message, "Expect ')' after expression.");
}

#[test]
fn parser_missing_primary_reports_parse_error() {
    let err = parse_str("+ 1").unwrap_err();
    let LoxError::Parse { line, location, message } = err else {
        panic!("expected Parse error, got {err:?}");
    };
    assert_eq!(line, 1);
    assert_eq!(location, " at '+'");
    assert_eq!(message, "Expect expression.");
}

#[test]
fn parser_missing_operand_at_eof_reports_parse_error() {
    let err = parse_str("1 +").unwrap_err();
    let LoxError::Parse { line, location, message } = err else {
        panic!("expected Parse error, got {err:?}");
    };
    assert_eq!(line, 1);
    assert_eq!(location, " at end");
    assert_eq!(message, "Expect expression.");
}

#[test]
fn parser_rejects_trailing_garbage_after_complete_expression() {
    let err = parse_str("1 2").unwrap_err();
    let LoxError::Parse { line, location, message } = err else {
        panic!("expected Parse error, got {err:?}");
    };
    assert_eq!(line, 1);
    assert_eq!(location, " at '2'");
    assert_eq!(message, "Expect end of expression.");
}

#[test]
fn operator_tokens_keep_their_lines() {
    let e = parse_str("1\n+\n2").unwrap();
    let Expr::Binary { op, .. } = e else {
        panic!("expected a binary expression");
    };
    assert_eq!(op, Token::new(TokenType::Plus, "+", None, 2));
}

#[test]
fn unary_applies_before_factor() {
    assert_eq!(
        parse_str("-2 * 3").unwrap(),
        bin(un(TokenType::Minus, "-", num("2")), TokenType::Star, "*", num("3"))
    );
}

#[test]
fn parse_accepts_hand_built_tokens() {
    let tokens = vec![
        Token::new(TokenType::Number, "4", Some(rlox::Literal::Number("4".into())), 1),
        Token::new(TokenType::Minus, "-", None, 1),
        Token::new(TokenType::Number, "2", Some(rlox::Literal::Number("2".into())), 1),
        Token::new(TokenType::Eof, "", None, 1),
    ];
    assert_eq!(parse(&tokens).unwrap(), bin(num("4"), TokenType::Minus, "-", num("2")));
}
