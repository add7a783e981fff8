//! Rendering of errors in the jlox diagnostic format.

use rlox::vm::{vm_to_lox, VmError};
use rlox::error::exit_code_for;
use rlox::{LoxError, Token, TokenType};

#[test]
fn scan_error_displays_with_line_prefix() {
    let err = LoxError::scan(3, "Unexpected character.");
    assert_eq!(err.render(), "[line 3] Error: Unexpected character.");
}

#[test]
fn parse_error_at_token_includes_lexeme() {
    let token = Token::new(TokenType::RightParen, ")", None, 5);
    let err = LoxError::parse(&token, "Expect expression.");
    assert_eq!(err.render(), "[line 5] Error at ')': Expect expression.");
}

#[test]
fn parse_error_at_eof_uses_at_end_marker() {
    let eof = Token::new(TokenType::Eof, "", None, 9);
    let err = LoxError::parse(&eof, "Expect ';' after value.");
    assert_eq!(err.render(), "[line 9] Error at end: Expect ';' after value.");
}

#[test]
fn runtime_error_displays_message_then_line_frame() {
    let plus = Token::new(TokenType::Plus, "+", None, 12);
    let err = LoxError::runtime(&plus, "Operands must be two numbers or two strings.");
    assert_eq!(
        err.render(),
        "\
Operands must be two numbers or two strings.
[line 12]"
    );
}

#[test]
fn error_line_reports_each_variant() {
    assert_eq!(LoxError::scan(4, "x").line(), 4);
    let t = Token::new(TokenType::Identifier, "abc", None, 8);
    assert_eq!(LoxError::parse(&t, "m").line(), 8);
    assert_eq!(LoxError::runtime(&t, "m").line(), 8);
}

#[test]
fn parse_error_fields_hold_location_and_message() {
    let t = Token::new(TokenType::Identifier, "abc", None, 2);
    assert_eq!(
        LoxError::parse(&t, "Oops."),
        LoxError::Parse { line: 2, location: " at 'abc'".into(), message: "Oops.".into() }
    );
}

#[test]
fn vm_error_renders_like_runtime_error() {
    let err = VmError::Runtime { line: 3, message: "Operand must be a number.".into() };
    assert_eq!(err.render(), "Operand must be a number.\n[line 3]");
    let lox = vm_to_lox(err.clone());
    assert_eq!(lox, LoxError::Runtime { line: 3, message: "Operand must be a number.".into() });
    assert_eq!(lox.render(), err.render());
}

#[test]
fn multi_digit_line_numbers_render_in_decimal() {
    assert_eq!(LoxError::scan(1024, "x").render(), "[line 1024] Error: x");
    assert_eq!(LoxError::scan(0, "x").render(), "[line 0] Error: x");
}

#[test]
fn exit_code_prefers_runtime_errors_over_compile_errors() {
    let scan_err = LoxError::Scan { line: 1, message: "Unexpected character.".into() };
    let runtime_err = LoxError::Runtime { line: 2, message: "Operand must be a number.".into() };
    assert_eq!(exit_code_for(&[scan_err.clone()]), 65);
    assert_eq!(exit_code_for(&[scan_err, runtime_err]), 70);
    assert_eq!(exit_code_for(&[]), 65);
}
