//! The scope-stack environment.

use rlox::{Environment, LoxError, Token, TokenType, Value};

fn ident(name: &str) -> Token {
    Token::new(TokenType::Identifier, name, None, 1)
}

fn num(text: &str) -> Value {
    Value::Number(text.to_string())
}

#[test]
fn define_and_get_round_trip_in_global_scope() {
    let mut env = Environment::new();
    env.define("a", num("1"));
    assert_eq!(env.get(&ident("a")).unwrap(), num("1"));
}

#[test]
fn get_undefined_variable_is_runtime_error() {
    let env: Environment<Value> = Environment::new();
    let err = env.get(&ident("missing")).unwrap_err();
    let LoxError::Runtime { message, .. } = err else {
        panic!("expected Runtime error");
    };
    assert_eq!(message, "Undefined variable 'missing'.");
}

#[test]
fn assign_updates_existing_binding_and_returns_value() {
    let mut env = Environment::new();
    env.define("a", num("1"));
    let returned = env.assign(&ident("a"), num("2")).unwrap();
    assert_eq!(returned, num("2"));
    assert_eq!(env.get(&ident("a")).unwrap(), num("2"));
}

#[test]
fn assign_to_undefined_is_runtime_error() {
    let mut env = Environment::new();
    let err = env.assign(&ident("a"), Value::Nil).unwrap_err();
    let LoxError::Runtime { message, .. } = err else {
        panic!("expected Runtime error");
    };
    assert_eq!(message, "Undefined variable 'a'.");
}

#[test]
fn nested_scope_shadows_outer_binding_until_popped() {
    let mut env = Environment::new();
    env.define("a", Value::String("outer".into()));

    env.push();
    env.define("a", Value::String("inner".into()));
    assert_eq!(env.get(&ident("a")).unwrap(), Value::String("inner".into()));
    env.pop();

    assert_eq!(env.get(&ident("a")).unwrap(), Value::String("outer".into()));
}

#[test]
fn assign_in_inner_scope_walks_outward_to_outer_binding() {
    let mut env = Environment::new();
    env.define("a", num("1"));

    env.push();
    env.assign(&ident("a"), num("99")).unwrap();
    env.pop();

    assert_eq!(env.get(&ident("a")).unwrap(), num("99"));
}

#[test]
fn redefining_in_same_scope_overwrites_binding() {
    let mut env = Environment::new();
    env.define("a", num("1"));
    env.define("a", num("2"));
    assert_eq!(env.get(&ident("a")).unwrap(), num("2"));
}

#[test]
fn undefined_variable_error_carries_the_token_line() {
    let env: Environment<Value> = Environment::new();
    let name = Token::new(TokenType::Identifier, "x", None, 7);
    assert_eq!(
        env.get(&name).unwrap_err(),
        LoxError::Runtime { line: 7, message: "Undefined variable 'x'.".into() }
    );
}

#[test]
fn inner_binding_disappears_with_its_scope() {
    let mut env = Environment::new();
    env.push();
    env.define("t", Value::Bool(true));
    assert_eq!(env.depth(), 2);
    env.pop();
    assert_eq!(env.depth(), 1);
    assert!(env.get(&ident("t")).is_err());
}

#[test]
fn assign_changes_only_the_innermost_binding() {
    let mut env = Environment::new();
    env.define("a", num("1"));
    env.push();
    env.define("a", num("2"));
    env.assign(&ident("a"), num("3")).unwrap();
    assert_eq!(env.get(&ident("a")).unwrap(), num("3"));
    env.pop();
    assert_eq!(env.get(&ident("a")).unwrap(), num("1"));
}
