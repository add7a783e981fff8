//! Abstract syntax tree for Lox expressions and statements.
//!
//! Literal numbers are carried as the exact decimal text written in the
//! source; the evaluator turns them into runtime numbers.

use vstd::prelude::*;

use crate::token::{Token, TokenV};

verus! {

/// A literal value as written in the source.
#[derive(Debug, PartialEq)]
pub enum Value {
    Nil,
    Bool(bool),
    /// A number literal, as its decimal text (`123`, `1.5`).
    Number(String),
    String(String),
}

/// Mathematical view of a [`Value`].
pub enum ValueV {
    Nil,
    Bool(bool),
    Number(Seq<char>),
    Str(Seq<char>),
}

impl View for Value {
    type V = ValueV;

    open spec fn view(&self) -> ValueV {
        match self {
            Value::Nil => ValueV::Nil,
            Value::Bool(b) => ValueV::Bool(*b),
            Value::Number(s) => ValueV::Number(s@),
            Value::String(s) => ValueV::Str(s@),
        }
    }
}

impl Clone for Value {
    fn clone(&self) -> (r: Value)
        ensures
            r == *self,
    {
        match self {
            Value::Nil => Value::Nil,
            Value::Bool(b) => Value::Bool(*b),
            Value::Number(s) => Value::Number(s.clone()),
            Value::String(s) => Value::String(s.clone()),
        }
    }
}

/// An expression node.
#[derive(Debug, PartialEq)]
pub enum Expr {
    Assign { name: Token, value: Box<Expr> },
    Binary { left: Box<Expr>, op: Token, right: Box<Expr> },
    Grouping(Box<Expr>),
    Literal(Value),
    /// Short-circuit `and` / `or`: the right operand is evaluated only when
    /// needed and the result is an operand value, not a coerced boolean.
    Logical { left: Box<Expr>, op: Token, right: Box<Expr> },
    Unary { op: Token, right: Box<Expr> },
    /// Read of a variable by name.
    Variable(Token),
}

/// Mathematical view of an [`Expr`].
pub enum ExprV {
    Assign { name: TokenV, value: Box<ExprV> },
    Binary { left: Box<ExprV>, op: TokenV, right: Box<ExprV> },
    Grouping(Box<ExprV>),
    Literal(ValueV),
    Logical { left: Box<ExprV>, op: TokenV, right: Box<ExprV> },
    Unary { op: TokenV, right: Box<ExprV> },
    Variable(TokenV),
}

pub open spec fn expr_view(e: Expr) -> ExprV
    decreases e,
{
    match e {
        Expr::Assign { name, value } => ExprV::Assign {
            name: name@,
            value: Box::new(expr_view(*value)),
        },
        Expr::Binary { left, op, right } => ExprV::Binary {
            left: Box::new(expr_view(*left)),
            op: op@,
            right: Box::new(expr_view(*right)),
        },
        Expr::Grouping(inner) => ExprV::Grouping(Box::new(expr_view(*inner))),
        Expr::Literal(v) => ExprV::Literal(v@),
        Expr::Logical { left, op, right } => ExprV::Logical {
            left: Box::new(expr_view(*left)),
            op: op@,
            right: Box::new(expr_view(*right)),
        },
        Expr::Unary { op, right } => ExprV::Unary { op: op@, right: Box::new(expr_view(*right)) },
        Expr::Variable(name) => ExprV::Variable(name@),
    }
}

impl View for Expr {
    type V = ExprV;

    open spec fn view(&self) -> ExprV {
        expr_view(*self)
    }
}

/// A statement node.
#[derive(Debug, PartialEq)]
pub enum Stmt {
    /// `expr;` — evaluate for side effects and discard the value.
    Expression(Expr),
    /// `print expr;` — evaluate and write the value.
    Print(Expr),
    /// `var name [= initializer];`
    Var { name: Token, initializer: Option<Expr> },
    /// `{ stmts... }` — a new lexical scope.
    Block(Vec<Stmt>),
    /// `if (condition) then_branch [else else_branch]`.
    If { condition: Expr, then_branch: Box<Stmt>, else_branch: Option<Box<Stmt>> },
    /// `while (condition) body`.
    While { condition: Expr, body: Box<Stmt> },
}

} // verus!
