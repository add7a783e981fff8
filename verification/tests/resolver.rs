//! The static resolution pass, on programs built as syntax trees.

use rlox::resolver::resolve;
use rlox::{Expr, LoxError, Stmt, Token, TokenType};

fn ident(name: &str, line: usize) -> Token {
    Token::new(TokenType::Identifier, name, None, line)
}

fn num(text: &str) -> Expr {
    Expr::Literal(rlox::Value::Number(text.into()))
}

fn var(name: &str) -> Expr {
    Expr::Variable(ident(name, 1))
}

fn declare(name: &str, init: Option<Expr>) -> Stmt {
    Stmt::Var { name: ident(name, 1), initializer: init }
}

fn parse_message(e: &LoxError) -> &str {
    let LoxError::Parse { message, .. } = e else {
        panic!("expected Parse error, got {:?}", e);
    };
    message
}

// `{ var a = a; }`
#[test]
fn rejects_self_reference_in_initializer() {
    let stmts = vec![Stmt::Block(vec![declare("a", Some(var("a")))])];
    let errs = resolve(&stmts).unwrap_err();
    assert_eq!(errs.len(), 1);
    assert_eq!(parse_message(&errs[0]), "Can't read local variable in its own initializer.");
}

// `{ var a = 1; var a = 2; }`
#[test]
fn rejects_redeclaration_in_same_local_scope() {
    let stmts = vec![Stmt::Block(vec![declare("a", Some(num("1"))), declare("a", Some(num("2")))])];
    let errs = resolve(&stmts).unwrap_err();
    assert_eq!(parse_message(&errs[0]), "Already a variable with this name in this scope.");
}

// `var a = 1; var a = 2;`
#[test]
fn allows_redeclaration_at_global_scope() {
    let stmts = vec![declare("a", Some(num("1"))), declare("a", Some(num("2")))];
    let locals = resolve(&stmts).expect("global redeclaration is allowed");
    assert!(locals.is_empty());
}

// ---- further cases ----

#[test]
fn depths_count_scopes_out_from_the_reference() {
    // var g; { var a = 1; { print a; print g; a = 2; } }
    let stmts = vec![
        declare("g", None),
        Stmt::Block(vec![
            declare("a", Some(num("1"))),
            Stmt::Block(vec![
                Stmt::Print(var("a")),
                Stmt::Print(var("g")),
                Stmt::Expression(Expr::Assign { name: ident("a", 1), value: Box::new(num("2")) }),
            ]),
        ]),
    ];
    let locals = resolve(&stmts).unwrap();
    assert_eq!(locals.len(), 3);
    assert_eq!(locals.depth(0), Some(1));
    assert_eq!(locals.depth(1), None);
    assert_eq!(locals.depth(2), Some(1));
    assert_eq!(locals.depth(3), None);
    assert!(!locals.is_empty());
}

#[test]
fn innermost_binding_wins() {
    // { var a; { var a; print a; } print a; }
    let stmts = vec![Stmt::Block(vec![
        declare("a", None),
        Stmt::Block(vec![declare("a", None), Stmt::Print(var("a"))]),
        Stmt::Print(var("a")),
    ])];
    let locals = resolve(&stmts).unwrap();
    assert_eq!(locals.depth(0), Some(0));
    assert_eq!(locals.depth(1), Some(0));
}

#[test]
fn assignment_value_is_numbered_before_the_assignment() {
    // { var a; var b; a = b; }
    let stmts = vec![Stmt::Block(vec![
        declare("a", None),
        declare("b", None),
        Stmt::Expression(Expr::Assign { name: ident("a", 1), value: Box::new(var("b")) }),
    ])];
    let locals = resolve(&stmts).unwrap();
    assert_eq!(locals.len(), 2);
    assert_eq!(locals.depth(0), Some(0));
    assert_eq!(locals.depth(1), Some(0));
}

#[test]
fn every_error_is_reported_in_order_with_its_location() {
    // line 2: { var x = x; var y; var y; }
    let stmts = vec![Stmt::Block(vec![
        Stmt::Var { name: ident("x", 2), initializer: Some(Expr::Variable(ident("x", 2))) },
        Stmt::Var { name: ident("y", 2), initializer: None },
        Stmt::Var { name: ident("y", 2), initializer: None },
    ])];
    let errs = resolve(&stmts).unwrap_err();
    assert_eq!(
        errs,
        vec![
            LoxError::Parse {
                line: 2,
                location: " at 'x'".into(),
                message: "Can't read local variable in its own initializer.".into(),
            },
            LoxError::Parse {
                line: 2,
                location: " at 'y'".into(),
                message: "Already a variable with this name in this scope.".into(),
            },
        ]
    );
}

#[test]
fn global_self_reference_is_left_to_the_runtime() {
    // var x = x;
    let stmts = vec![declare("x", Some(var("x")))];
    let locals = resolve(&stmts).unwrap();
    assert_eq!(locals.depth(0), None);
}

#[test]
fn a_completed_local_can_be_read_in_a_later_initializer() {
    // { var a = 1; var b = a; } while and if bodies too
    let stmts = vec![Stmt::Block(vec![
        declare("a", Some(num("1"))),
        declare("b", Some(var("a"))),
        Stmt::While { condition: var("b"), body: Box::new(Stmt::Print(var("a"))) },
        Stmt::If { condition: var("a"), then_branch: Box::new(Stmt::Print(var("b"))), else_branch: None },
    ])];
    let locals = resolve(&stmts).unwrap();
    assert_eq!(locals.len(), 5);
    for i in 0..5 {
        assert_eq!(locals.depth(i), Some(0));
    }
}

#[test]
fn recorded_depth_is_where_the_runtime_finds_the_binding() {
    // var a; { var a; { var b; print a; print b; } }
    let stmts = vec![
        declare("a", None),
        Stmt::Block(vec![
            declare("a", None),
            Stmt::Block(vec![declare("b", None), Stmt::Print(var("a")), Stmt::Print(var("b"))]),
        ]),
    ];
    let locals = resolve(&stmts).unwrap();
    assert_eq!(locals.depth(0), Some(1));
    assert_eq!(locals.depth(1), Some(0));

    // The same scopes at run time: globals, then one scope per block.
    let mut env: rlox::Environment<i32> = rlox::Environment::new();
    env.define("a", 0);
    env.push();
    env.define("a", 1);
    env.push();
    env.define("b", 2);
    // Depth 1 from the innermost scope is the middle scope, which holds 1.
    assert_eq!(env.get(&ident("a", 1)).unwrap(), 1);
    assert_eq!(env.get(&ident("b", 1)).unwrap(), 2);
}
