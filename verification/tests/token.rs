//! Token types and token construction.

use rlox::{decimal_string, Literal, Token, TokenType};

#[test]
fn token_type_display_matches_upstream_dump_format() {
    assert_eq!(TokenType::LeftParen.name(), "LEFT_PAREN");
    assert_eq!(TokenType::RightParen.name(), "RIGHT_PAREN");
    assert_eq!(TokenType::LeftBrace.name(), "LEFT_BRACE");
    assert_eq!(TokenType::RightBrace.name(), "RIGHT_BRACE");
    assert_eq!(TokenType::Comma.name(), "COMMA");
    assert_eq!(TokenType::Dot.name(), "DOT");
    assert_eq!(TokenType::Minus.name(), "MINUS");
    assert_eq!(TokenType::Plus.name(), "PLUS");
    assert_eq!(TokenType::Semicolon.name(), "SEMICOLON");
    assert_eq!(TokenType::Slash.name(), "SLASH");
    assert_eq!(TokenType::Star.name(), "STAR");

    assert_eq!(TokenType::Bang.name(), "BANG");
    assert_eq!(TokenType::BangEqual.name(), "BANG_EQUAL");
    assert_eq!(TokenType::Equal.name(), "EQUAL");
    assert_eq!(TokenType::EqualEqual.name(), "EQUAL_EQUAL");
    assert_eq!(TokenType::Greater.name(), "GREATER");
    assert_eq!(TokenType::GreaterEqual.name(), "GREATER_EQUAL");
    assert_eq!(TokenType::Less.name(), "LESS");
    assert_eq!(TokenType::LessEqual.name(), "LESS_EQUAL");

    assert_eq!(TokenType::Identifier.name(), "IDENTIFIER");
    assert_eq!(TokenType::String.name(), "STRING");
    assert_eq!(TokenType::Number.name(), "NUMBER");

    assert_eq!(TokenType::And.name(), "AND");
    assert_eq!(TokenType::Class.name(), "CLASS");
    assert_eq!(TokenType::Else.name(), "ELSE");
    assert_eq!(TokenType::False.name(), "FALSE");
    assert_eq!(TokenType::Fun.name(), "FUN");
    assert_eq!(TokenType::For.name(), "FOR");
    assert_eq!(TokenType::If.name(), "IF");
    assert_eq!(TokenType::Nil.name(), "NIL");
    assert_eq!(TokenType::Or.name(), "OR");
    assert_eq!(TokenType::Print.name(), "PRINT");
    assert_eq!(TokenType::Return.name(), "RETURN");
    assert_eq!(TokenType::Super.name(), "SUPER");
    assert_eq!(TokenType::This.name(), "THIS");
    assert_eq!(TokenType::True.name(), "TRUE");
    assert_eq!(TokenType::Var.name(), "VAR");
    assert_eq!(TokenType::While.name(), "WHILE");

    assert_eq!(TokenType::Eof.name(), "EOF");
}

#[test]
fn token_constructor_round_trips_fields() {
    let tok = Token::new(TokenType::Number, "123", Some(Literal::Number("123".into())), 7);
    assert_eq!(tok.ttype, TokenType::Number);
    assert_eq!(tok.lexeme, "123");
    assert_eq!(tok.literal, Some(Literal::Number("123".into())));
    assert_eq!(tok.line, 7);
}

#[test]
fn cloned_token_equals_original() {
    let tok = Token::new(TokenType::String, "\"a\"", Some(Literal::String("a".into())), 3);
    assert_eq!(tok.clone(), tok);
}

#[test]
fn decimal_string_renders_numbers() {
    assert_eq!(decimal_string(0), "0");
    assert_eq!(decimal_string(7), "7");
    assert_eq!(decimal_string(120), "120");
    assert_eq!(decimal_string(4_294_967_295), "4294967295");
}
