//! Tree-walk evaluation of Lox expressions.
//!
//! Evaluation follows the book's jlox: operands left to right, `and` and
//! `or` short-circuit and yield one of their operands, `+` adds two numbers
//! or joins two strings, arithmetic and comparison need numbers, `==`
//! compares values of any types, and variables are read and assigned
//! through an [`Environment`].
//!
//! Numbers stay abstract ([`Number`]): the specification [`eval`] computes
//! with the trait's spec functions, so it fixes the outcome exactly, down
//! to which operation is applied to which operands in which order.

use vstd::prelude::*;

pub mod statements;

pub use statements::{check_program, Action, Execution, Interpreter, Work};

use crate::ast::{Expr, ExprV, ValueV};
use crate::environment::{
    assigned, lemma_assign_then_lookup, lookup, undefined_error, Environment,
};
use crate::error::{LoxError, LoxErrorV};
use crate::number::Number;
use crate::parser::{
    infix_power, lemma_scanned_tokens_parsable, p_atom, p_expr, p_loop, parse, parse_tree,
    prefix_power, spec_parse, to_expr, toks_view, Node,
};
use crate::scanner::{errors_view, scan, scanned_errors, scanned_tokens};
use crate::token::{Token, TokenType, TokenV};

verus! {

// ---------------------------------------------------------------------
// Values
// ---------------------------------------------------------------------

/// A Lox runtime value of the tree-walk interpreter.
#[derive(Debug, PartialEq)]
pub enum Value<N> {
    Nil,
    Bool(bool),
    Number(N),
    String(String),
}

/// Mathematical view of a runtime [`Value`].
pub enum Val<N> {
    Nil,
    Bool(bool),
    Number(N),
    Str(Seq<char>),
}

impl<N> View for Value<N> {
    type V = Val<N>;

    open spec fn view(&self) -> Val<N> {
        match self {
            Value::Nil => Val::Nil,
            Value::Bool(b) => Val::Bool(*b),
            Value::Number(n) => Val::Number(*n),
            Value::String(s) => Val::Str(s@),
        }
    }
}

impl<N: Copy> Clone for Value<N> {
    fn clone(&self) -> (r: Self)
        ensures
            r == *self,
    {
        match self {
            Value::Nil => Value::Nil,
            Value::Bool(b) => Value::Bool(*b),
            Value::Number(n) => Value::Number(*n),
            Value::String(s) => Value::String(s.clone()),
        }
    }
}

/// Lox truthiness: `nil` and `false` are falsy, everything else is truthy.
pub open spec fn truthy<N>(v: Val<N>) -> bool {
    !(v is Nil || v == Val::<N>::Bool(false))
}

/// Lox `==` on two values that are not both numbers: `nil` equals only
/// `nil`, booleans and strings compare by content, different types differ.
pub open spec fn same<N>(a: Val<N>, b: Val<N>) -> bool {
    match (a, b) {
        (Val::Nil, Val::Nil) => true,
        (Val::Bool(x), Val::Bool(y)) => x == y,
        (Val::Str(x), Val::Str(y)) => x == y,
        _ => false,
    }
}

/// `text` is how the value prints: `nil`, `true` or `false`, a string's
/// contents; a number prints as the number type renders it.
pub open spec fn shown<N: Number>(v: Val<N>, text: Seq<char>) -> bool {
    match v {
        Val::Nil => text == "nil"@,
        Val::Bool(b) => text == if b {
            "true"@
        } else {
            "false"@
        },
        Val::Str(t) => text == t,
        Val::Number(n) => text == n.spec_render(),
    }
}

/// The view of an evaluation result.
pub open spec fn result_view<N>(r: Result<Value<N>, LoxError>) -> Result<Val<N>, LoxErrorV> {
    match r {
        Ok(v) => Ok(v@),
        Err(e) => Err(e@),
    }
}

/// Variables as evaluation sees them: scopes of value views, innermost last.
pub type Scopes<N> = Seq<Map<Seq<char>, Val<N>>>;

/// The view of an environment's scopes.
pub open spec fn scopes_view<N>(s: Seq<Map<Seq<char>, Value<N>>>) -> Scopes<N> {
    s.map_values(|m: Map<Seq<char>, Value<N>>| m.map_values(|v: Value<N>| v@))
}

// ---------------------------------------------------------------------
// Specification
// ---------------------------------------------------------------------

/// The binary operators the parser produces.
pub open spec fn binary_op(t: TokenType) -> bool {
    t == TokenType::Plus || t == TokenType::Minus || t == TokenType::Star || t == TokenType::Slash
        || t == TokenType::Greater || t == TokenType::GreaterEqual || t == TokenType::Less || t
        == TokenType::LessEqual || t == TokenType::EqualEqual || t == TokenType::BangEqual
}

/// Every operator of the tree stands where the parser puts it: `!` or `-`
/// as prefix operators, the ten binary operators between operands, `and`
/// or `or` as logical operators.
pub open spec fn evaluable(e: ExprV) -> bool
    decreases e,
{
    match e {
        ExprV::Assign { value, .. } => evaluable(*value),
        ExprV::Binary { left, op, right } => binary_op(op.ttype) && evaluable(*left) && evaluable(
            *right,
        ),
        ExprV::Grouping(inner) => evaluable(*inner),
        ExprV::Literal(_) => true,
        ExprV::Logical { left, op, right } => (op.ttype == TokenType::And || op.ttype
            == TokenType::Or) && evaluable(*left) && evaluable(*right),
        ExprV::Unary { op, right } => (op.ttype == TokenType::Bang || op.ttype == TokenType::Minus)
            && evaluable(*right),
        ExprV::Variable(_) => true,
    }
}

/// The runtime error reported against operator `op`.
pub open spec fn runtime_error(op: TokenV, message: Seq<char>) -> LoxErrorV {
    LoxErrorV::Runtime { line: op.line, message }
}

/// Lox `a == b`: two numbers compare as the number type compares them,
/// anything else by [`same`].
pub open spec fn equal_values<N: Number>(a: Val<N>, b: Val<N>) -> bool {
    match (a, b) {
        (Val::Number(x), Val::Number(y)) => x.spec_equals(y),
        _ => same(a, b),
    }
}

/// A prefix operator applied to an operand value.
pub open spec fn unary_result<N: Number>(op: TokenV, r: Val<N>) -> Result<Val<N>, LoxErrorV> {
    if op.ttype == TokenType::Bang {
        Ok(Val::Bool(!truthy(r)))
    } else {
        match r {
            Val::Number(n) => Ok(Val::Number(n.spec_negated())),
            _ => Err(runtime_error(op, "Operand must be a number."@)),
        }
    }
}

/// A binary operator applied to two operand values, `l` on the left.
pub open spec fn binary_result<N: Number>(op: TokenV, l: Val<N>, r: Val<N>) -> Result<
    Val<N>,
    LoxErrorV,
> {
    let t = op.ttype;
    if t == TokenType::EqualEqual {
        Ok(Val::Bool(equal_values(l, r)))
    } else if t == TokenType::BangEqual {
        Ok(Val::Bool(!equal_values(l, r)))
    } else if t == TokenType::Plus {
        match (l, r) {
            (Val::Number(a), Val::Number(b)) => Ok(Val::Number(a.spec_plus(b))),
            (Val::Str(a), Val::Str(b)) => Ok(Val::Str(a + b)),
            _ => Err(runtime_error(op, "Operands must be two numbers or two strings."@)),
        }
    } else {
        match (l, r) {
            (Val::Number(a), Val::Number(b)) => if t == TokenType::Minus {
                Ok(Val::Number(a.spec_minus(b)))
            } else if t == TokenType::Star {
                Ok(Val::Number(a.spec_times(b)))
            } else if t == TokenType::Slash {
                Ok(Val::Number(a.spec_divided_by(b)))
            } else if t == TokenType::Greater {
                Ok(Val::Bool(a.spec_greater_than(b)))
            } else if t == TokenType::GreaterEqual {
                Ok(Val::Bool(a.spec_at_least(b)))
            } else if t == TokenType::Less {
                Ok(Val::Bool(a.spec_less_than(b)))
            } else {
                Ok(Val::Bool(a.spec_at_most(b)))
            },
            _ => Err(runtime_error(op, "Operands must be numbers."@)),
        }
    }
}

/// The value a literal denotes.
pub open spec fn literal_val<N: Number>(v: ValueV) -> Val<N> {
    match v {
        ValueV::Nil => Val::Nil,
        ValueV::Bool(b) => Val::Bool(b),
        ValueV::Str(s) => Val::Str(s),
        ValueV::Number(t) => Val::Number(N::spec_from_literal(t)),
    }
}

/// An outcome and the variables afterwards.
pub type Eval<N> = (Result<Val<N>, LoxErrorV>, Scopes<N>);

/// Evaluating `e` with variables `env`: operands left to right, `and` and
/// `or` yielding the operand that decides, assignment to the innermost
/// binding.
pub open spec fn eval<N: Number>(e: ExprV, env: Scopes<N>) -> Eval<N>
    decreases e,
{
    match e {
        ExprV::Literal(v) => (Ok(literal_val(v)), env),
        ExprV::Grouping(inner) => eval(*inner, env),
        ExprV::Unary { op, right } => {
            let r = eval(*right, env);
            match r.0 {
                Ok(v) => (unary_result(op, v), r.1),
                Err(_) => r,
            }
        },
        ExprV::Binary { left, op, right } => {
            let l = eval(*left, env);
            match l.0 {
                Ok(lv) => {
                    let r = eval(*right, l.1);
                    match r.0 {
                        Ok(rv) => (binary_result(op, lv, rv), r.1),
                        Err(_) => r,
                    }
                },
                Err(_) => l,
            }
        },
        ExprV::Variable(name) => match lookup(env, name.lexeme) {
            Some(v) => (Ok(v), env),
            None => (Err(undefined_error(name)), env),
        },
        ExprV::Assign { name, value } => {
            let r = eval(*value, env);
            match r.0 {
                Ok(v) => if lookup(r.1, name.lexeme) is Some {
                    (Ok(v), assigned(r.1, name.lexeme, v))
                } else {
                    (Err(undefined_error(name)), r.1)
                },
                Err(_) => r,
            }
        },
        ExprV::Logical { left, op, right } => {
            let l = eval(*left, env);
            match l.0 {
                Ok(lv) => if op.ttype == TokenType::Or && truthy(lv) {
                    l
                } else if op.ttype == TokenType::And && !truthy(lv) {
                    l
                } else {
                    eval(*right, l.1)
                },
                Err(_) => l,
            }
        },
    }
}

// ---------------------------------------------------------------------
// Laws of the operators
// ---------------------------------------------------------------------

/// The successful outcome `Bool(b)` of an operator.
pub open spec fn yields_bool<N>(b: bool) -> Result<Val<N>, LoxErrorV> {
    Ok(Val::Bool(b))
}

/// Lox `==` compares two values of one kind by what they hold and finds
/// values of different kinds unequal: `nil` equals `nil`; two booleans are
/// equal exactly when they are the same boolean, two strings exactly when
/// they have the same characters, two numbers as the number type's
/// equality says. Every value other than a number equals itself, and `!=`
/// answers the opposite of `==` on every pair.
pub proof fn lemma_equality_laws<N: Number>(eq: TokenV, ne: TokenV, a: Val<N>, b: Val<N>)
    requires
        eq.ttype == TokenType::EqualEqual,
        ne.ttype == TokenType::BangEqual,
    ensures
        binary_result(eq, a, b) is Ok,
        binary_result(eq, a, b)->Ok_0 is Bool,
        binary_result(ne, a, b) == yields_bool::<N>(!binary_result(eq, a, b)->Ok_0->Bool_0),
        binary_result(eq, Val::<N>::Nil, Val::<N>::Nil) == yields_bool::<N>(true),
        forall|x: bool, y: bool|
            #[trigger] binary_result(eq, Val::<N>::Bool(x), Val::<N>::Bool(y)) == yields_bool::<N>(x == y),
        forall|x: Seq<char>, y: Seq<char>|
            #[trigger] binary_result(eq, Val::<N>::Str(x), Val::<N>::Str(y)) == yields_bool::<N>(x == y),
        forall|x: N, y: N|
            #[trigger] binary_result(eq, Val::<N>::Number(x), Val::<N>::Number(y)) == yields_bool::<N>(
                x.spec_equals(y),
            ),
        !(a is Number) ==> binary_result(eq, a, a) == yields_bool::<N>(true),
        ((a is Nil) != (b is Nil) || (a is Bool) != (b is Bool) || (a is Str) != (b is Str))
            ==> binary_result(eq, a, b) == yields_bool::<N>(false),
{
}

/// Lox truthiness as `!` sees it: `!` gives `true` exactly for `nil` and
/// `false`; every number and every string (the empty one too) is truthy.
pub proof fn lemma_not_laws<N: Number>(bang: TokenV, v: Val<N>)
    requires
        bang.ttype == TokenType::Bang,
    ensures
        unary_result(bang, v) == yields_bool::<N>(v == Val::<N>::Nil || v == Val::<N>::Bool(false)),
        forall|x: N| #[trigger] unary_result(bang, Val::<N>::Number(x)) == yields_bool::<N>(false),
        forall|s: Seq<char>| #[trigger] unary_result(bang, Val::<N>::Str(s)) == yields_bool::<N>(false),
        unary_result(bang, Val::<N>::Bool(true)) == yields_bool::<N>(false),
{
}

/// The arithmetic and comparison operators on two numbers apply the
/// number type's operation with the left operand first; `+` on two
/// strings joins them in order; on any other operands `+` reports that it
/// needs two numbers or two strings and the others that they need
/// numbers.
pub proof fn lemma_arithmetic_laws<N: Number>(op: TokenV, x: N, y: N, s: Seq<char>, t: Seq<char>, a: Val<N>, b: Val<N>)
    ensures
        op.ttype == TokenType::Plus ==> binary_result(op, Val::Number(x), Val::Number(y)) == Ok::<
            Val<N>,
            LoxErrorV,
        >(Val::Number(x.spec_plus(y))),
        op.ttype == TokenType::Minus ==> binary_result(op, Val::Number(x), Val::Number(y)) == Ok::<
            Val<N>,
            LoxErrorV,
        >(Val::Number(x.spec_minus(y))),
        op.ttype == TokenType::Star ==> binary_result(op, Val::Number(x), Val::Number(y)) == Ok::<
            Val<N>,
            LoxErrorV,
        >(Val::Number(x.spec_times(y))),
        op.ttype == TokenType::Slash ==> binary_result(op, Val::Number(x), Val::Number(y)) == Ok::<
            Val<N>,
            LoxErrorV,
        >(Val::Number(x.spec_divided_by(y))),
        op.ttype == TokenType::Less ==> binary_result(op, Val::Number(x), Val::Number(y))
            == yields_bool::<N>(x.spec_less_than(y)),
        op.ttype == TokenType::LessEqual ==> binary_result(op, Val::Number(x), Val::Number(y))
            == yields_bool::<N>(x.spec_at_most(y)),
        op.ttype == TokenType::Greater ==> binary_result(op, Val::Number(x), Val::Number(y))
            == yields_bool::<N>(x.spec_greater_than(y)),
        op.ttype == TokenType::GreaterEqual ==> binary_result(op, Val::Number(x), Val::Number(y))
            == yields_bool::<N>(x.spec_at_least(y)),
        op.ttype == TokenType::Plus ==> binary_result(op, Val::<N>::Str(s), Val::<N>::Str(t)) == Ok::<
            Val<N>,
            LoxErrorV,
        >(Val::Str(s + t)),
        op.ttype == TokenType::Plus && !(a is Number && b is Number) && !(a is Str && b is Str)
            ==> binary_result(op, a, b) == Err::<Val<N>, LoxErrorV>(
            runtime_error(op, "Operands must be two numbers or two strings."@),
        ),
        (op.ttype == TokenType::Minus || op.ttype == TokenType::Star || op.ttype == TokenType::Slash
            || op.ttype == TokenType::Less || op.ttype == TokenType::LessEqual || op.ttype
            == TokenType::Greater || op.ttype == TokenType::GreaterEqual) && !(a is Number
            && b is Number) ==> binary_result(op, a, b) == Err::<Val<N>, LoxErrorV>(
            runtime_error(op, "Operands must be numbers."@),
        ),
{
}

/// `and` and `or` give back an operand, not a coerced boolean: `or` gives
/// its left operand when that is truthy and `and` when it is falsy, and
/// otherwise each gives its right operand, evaluated after the left; the
/// right operand is not evaluated when the left decides.
pub proof fn lemma_logical_laws<N: Number>(left: ExprV, op: TokenV, right: ExprV, env: Scopes<N>)
    ensures
        ({
            let l = eval(left, env);
            let e = eval(ExprV::Logical { left: Box::new(left), op, right: Box::new(right) }, env);
            &&& l.0 is Err ==> e == l
            &&& l.0 matches Ok(v) ==> {
                let decides = (op.ttype == TokenType::Or && !(v == Val::<N>::Nil || v == Val::<N>::Bool(false)))
                    || (op.ttype == TokenType::And && (v == Val::<N>::Nil || v == Val::<N>::Bool(false)));
                &&& decides ==> e == l
                &&& !decides ==> e == eval(right, l.1)
            }
        }),
{
}

/// How the evaluator treats each form: parentheses change nothing; a
/// literal denotes what it spells (a number its text's number) and touches
/// no variable; a variable reads its innermost binding, or fails as
/// undefined; an operator evaluates its left operand, then its right,
/// stopping at the first error; an assignment to a bound name changes
/// what that name reads, and nothing else, and gives the value assigned.
pub proof fn lemma_eval_laws<N: Number>(e: ExprV, op: TokenV, l: ExprV, r: ExprV, name: TokenV, env: Scopes<N>, other: Seq<char>)
    ensures
        eval(ExprV::Grouping(Box::new(e)), env) == eval(e, env),
        eval::<N>(ExprV::Literal(ValueV::Nil), env) == (Ok::<Val<N>, LoxErrorV>(Val::Nil), env),
        forall|b: bool| #[trigger] eval::<N>(ExprV::Literal(ValueV::Bool(b)), env) == (Ok::<Val<N>, LoxErrorV>(Val::Bool(b)), env),
        forall|s: Seq<char>| #[trigger] eval::<N>(ExprV::Literal(ValueV::Str(s)), env) == (Ok::<Val<N>, LoxErrorV>(Val::Str(s)), env),
        forall|t: Seq<char>| #[trigger] eval::<N>(ExprV::Literal(ValueV::Number(t)), env) == (Ok::<Val<N>, LoxErrorV>(Val::Number(N::spec_from_literal(t))), env),
        eval(ExprV::Variable(name), env).1 == env,
        (eval(ExprV::Variable(name), env).0 matches Ok(v) ==> lookup(env, name.lexeme) == Some(v)),
        (eval(ExprV::Variable(name), env).0 is Err ==> lookup(env, name.lexeme) is None
            && eval(ExprV::Variable(name), env).0 == Err::<Val<N>, LoxErrorV>(undefined_error(name))),
        ({
            let le = eval(l, env);
            let out = eval(ExprV::Binary { left: Box::new(l), op, right: Box::new(r) }, env);
            &&& le.0 is Err ==> out == le
            &&& le.0 matches Ok(lv) ==> {
                let re = eval(r, le.1);
                &&& re.0 is Err ==> out == re
                &&& re.0 matches Ok(rv) ==> out == (binary_result(op, lv, rv), re.1)
            }
        }),
        ({
            let ve = eval(e, env);
            let out = eval(ExprV::Assign { name, value: Box::new(e) }, env);
            &&& ve.0 is Ok && lookup(ve.1, name.lexeme) is Some ==> {
                &&& out.0 == ve.0
                &&& lookup(out.1, name.lexeme) == Some(ve.0->Ok_0)
                &&& other != name.lexeme ==> lookup(out.1, other) == lookup(ve.1, other)
                &&& out.1.len() == env.len()
            }
            &&& ve.0 is Ok && lookup(ve.1, name.lexeme) is None ==> out.0 == Err::<Val<N>, LoxErrorV>(
                undefined_error(name),
            )
        }),
{
    let ve = eval(e, env);
    lemma_eval_depth(e, env);
    if ve.0 is Ok && lookup(ve.1, name.lexeme) is Some {
        let v = ve.0->Ok_0;
        lemma_assign_then_lookup(ve.1, name.lexeme, v, name.lexeme);
        lemma_assign_then_lookup(ve.1, name.lexeme, v, other);
    }
}

// ---------------------------------------------------------------------
// Lemmas
// ---------------------------------------------------------------------

/// Reading a variable commutes with viewing the scopes.
proof fn lemma_lookup_view<N>(s: Seq<Map<Seq<char>, Value<N>>>, n: Seq<char>)
    ensures
        lookup(scopes_view(s), n) == match lookup(s, n) {
            Some(v) => Some(v@),
            None => None::<Val<N>>,
        },
    decreases s.len(),
{
    if s.len() > 0 {
        assert(scopes_view(s).drop_last() =~= scopes_view(s.drop_last()));
        lemma_lookup_view(s.drop_last(), n);
    }
}

/// Assigning a variable commutes with viewing the scopes.
proof fn lemma_assigned_view<N>(s: Seq<Map<Seq<char>, Value<N>>>, n: Seq<char>, v: Value<N>)
    ensures
        scopes_view(assigned(s, n, v)) == assigned(scopes_view(s), n, v@),
    decreases s.len(),
{
    if s.len() > 0 {
        let sv = scopes_view(s);
        assert(sv.drop_last() =~= scopes_view(s.drop_last()));
        if s.last().contains_key(n) {
            assert(s.last().insert(n, v).map_values(|x: Value<N>| x@) =~= sv.last().insert(n, v@));
            assert(scopes_view(assigned(s, n, v)) =~= assigned(sv, n, v@));
        } else {
            lemma_assigned_view(s.drop_last(), n, v);
            assert(scopes_view(assigned(s, n, v)) =~= assigned(sv, n, v@));
        }
    }
}

/// Evaluation never adds or removes scopes.
pub proof fn lemma_eval_depth<N: Number>(e: ExprV, env: Scopes<N>)
    ensures
        eval(e, env).1.len() == env.len(),
    decreases e,
{
    match e {
        ExprV::Grouping(inner) => lemma_eval_depth(*inner, env),
        ExprV::Unary { right, .. } => lemma_eval_depth(*right, env),
        ExprV::Binary { left, right, .. } => {
            lemma_eval_depth(*left, env);
            lemma_eval_depth(*right, eval(*left, env).1);
        },
        ExprV::Assign { name, value } => {
            lemma_eval_depth(*value, env);
            let r = eval(*value, env);
            if r.0 is Ok && lookup(r.1, name.lexeme) is Some {
                lemma_assign_then_lookup(r.1, name.lexeme, r.0->Ok_0, name.lexeme);
            }
        },
        ExprV::Logical { left, right, .. } => {
            lemma_eval_depth(*left, env);
            lemma_eval_depth(*right, eval(*left, env).1);
        },
        _ => {},
    }
}

/// No assignment occurs anywhere in the expression.
pub open spec fn assigns_nothing(e: ExprV) -> bool
    decreases e,
{
    match e {
        ExprV::Assign { .. } => false,
        ExprV::Binary { left, right, .. } => assigns_nothing(*left) && assigns_nothing(*right),
        ExprV::Logical { left, right, .. } => assigns_nothing(*left) && assigns_nothing(*right),
        ExprV::Grouping(inner) => assigns_nothing(*inner),
        ExprV::Unary { right, .. } => assigns_nothing(*right),
        ExprV::Literal(_) => true,
        ExprV::Variable(_) => true,
    }
}

/// Only assignments change variables: an expression without one leaves
/// every scope as it was, whatever its outcome.
pub proof fn lemma_reads_keep_variables<N: Number>(e: ExprV, env: Scopes<N>)
    requires
        assigns_nothing(e),
    ensures
        eval(e, env).1 == env,
    decreases e,
{
    match e {
        ExprV::Grouping(inner) => lemma_reads_keep_variables(*inner, env),
        ExprV::Unary { right, .. } => lemma_reads_keep_variables(*right, env),
        ExprV::Binary { left, right, .. } => {
            lemma_reads_keep_variables(*left, env);
            lemma_reads_keep_variables(*right, eval(*left, env).1);
        },
        ExprV::Logical { left, right, .. } => {
            lemma_reads_keep_variables(*left, env);
            lemma_reads_keep_variables(*right, eval(*left, env).1);
        },
        _ => {},
    }
}

/// With no variables defined, reading a variable fails with `Undefined
/// variable`, and so does assigning one once its value is computed.
pub proof fn lemma_fresh_scope_defines_nothing<N: Number>(name: TokenV, e: ExprV)
    ensures
        eval::<N>(ExprV::Variable(name), seq![Map::<Seq<char>, Val<N>>::empty()]).0 == Err::<
            Val<N>,
            LoxErrorV,
        >(undefined_error(name)),
        assigns_nothing(e) && eval::<N>(e, seq![Map::<Seq<char>, Val<N>>::empty()]).0 is Ok
            ==> eval::<N>(
            ExprV::Assign { name, value: Box::new(e) },
            seq![Map::<Seq<char>, Val<N>>::empty()],
        ).0 == Err::<Val<N>, LoxErrorV>(undefined_error(name)),
{
    let env = seq![Map::<Seq<char>, Val<N>>::empty()];
    let none = Seq::<Map<Seq<char>, Val<N>>>::empty();
    assert(env.drop_last() =~= none);
    assert(lookup(none, name.lexeme) is None);
    assert(!env.last().contains_key(name.lexeme));
    assert(lookup(env, name.lexeme) is None);
    if assigns_nothing(e) {
        lemma_reads_keep_variables(e, env);
    }
}

// ---------------------------------------------------------------------
// Evaluation
// ---------------------------------------------------------------------

/// Lox truthiness of a value.
pub fn is_truthy<N>(v: &Value<N>) -> (b: bool)
    ensures
        b == truthy(v@),
{
    match v {
        Value::Nil => false,
        Value::Bool(b) => *b,
        _ => true,
    }
}

/// Lox `==`.
fn is_equal<N: Number>(a: &Value<N>, b: &Value<N>) -> (r: bool)
    ensures
        r == equal_values(a@, b@),
{
    match (a, b) {
        (Value::Number(x), Value::Number(y)) => x.equals(*y),
        (Value::Nil, Value::Nil) => true,
        (Value::Bool(x), Value::Bool(y)) => *x == *y,
        (Value::String(x), Value::String(y)) => *x == *y,
        _ => false,
    }
}

/// A prefix operator applied to an operand.
fn eval_unary<N: Number>(op: &Token, right: Value<N>) -> (r: Result<Value<N>, LoxError>)
    requires
        op@.ttype == TokenType::Bang || op@.ttype == TokenType::Minus,
    ensures
        result_view(r) == unary_result(op@, right@),
{
    match op.ttype {
        TokenType::Bang => Ok(Value::Bool(!is_truthy(&right))),
        _ => match right {
            Value::Number(n) => Ok(Value::Number(n.negated())),
            _ => Err(LoxError::runtime(op, "Operand must be a number.")),
        },
    }
}

/// A binary operator applied to two operands.
fn eval_binary<N: Number>(op: &Token, left: Value<N>, right: Value<N>) -> (r: Result<
    Value<N>,
    LoxError,
>)
    requires
        binary_op(op@.ttype),
    ensures
        result_view(r) == binary_result(op@, left@, right@),
{
    match op.ttype {
        TokenType::EqualEqual => Ok(Value::Bool(is_equal(&left, &right))),
        TokenType::BangEqual => Ok(Value::Bool(!is_equal(&left, &right))),
        TokenType::Plus => match (left, right) {
            (Value::Number(a), Value::Number(b)) => Ok(Value::Number(a.plus(b))),
            (Value::String(a), Value::String(b)) => {
                let mut s = a;
                s.append(b.as_str());
                Ok(Value::String(s))
            },
            _ => Err(LoxError::runtime(op, "Operands must be two numbers or two strings.")),
        },
        _ => match (left, right) {
            (Value::Number(a), Value::Number(b)) => match op.ttype {
                TokenType::Minus => Ok(Value::Number(a.minus(b))),
                TokenType::Star => Ok(Value::Number(a.times(b))),
                TokenType::Slash => Ok(Value::Number(a.divided_by(b))),
                TokenType::Greater => Ok(Value::Bool(a.greater_than(b))),
                TokenType::GreaterEqual => Ok(Value::Bool(a.at_least(b))),
                TokenType::Less => Ok(Value::Bool(a.less_than(b))),
                _ => Ok(Value::Bool(a.at_most(b))),
            },
            _ => Err(LoxError::runtime(op, "Operands must be numbers.")),
        },
    }
}

/// Evaluate `expr` against the variables in `env`, which assignments
/// update: the outcome and the variables afterwards are those [`eval`]
/// gives.
pub fn evaluate_in<N: Number>(expr: &Expr, env: &mut Environment<Value<N>>) -> (r: Result<
    Value<N>,
    LoxError,
>)
    requires
        evaluable(expr@),
    ensures
        eval(expr@, scopes_view(old(env)@)) == (result_view(r), scopes_view(final(env)@)),
    decreases expr,
{
    let ghost e0 = scopes_view(env@);
    match expr {
        Expr::Literal(v) => match v {
            crate::ast::Value::Nil => Ok(Value::Nil),
            crate::ast::Value::Bool(b) => Ok(Value::Bool(*b)),
            crate::ast::Value::String(s) => Ok(Value::String(s.clone())),
            crate::ast::Value::Number(text) => Ok(Value::Number(N::from_literal(text.as_str()))),
        },
        Expr::Grouping(inner) => {
            let r = evaluate_in(inner, env);
            assert(eval(expr@, e0) == eval(inner@, e0));
            r
        },
        Expr::Unary { op, right } => {
            let r = evaluate_in(right, env);
            match r {
                Err(err) => Err(err),
                Ok(v) => eval_unary(op, v),
            }
        },
        Expr::Binary { left, op, right } => {
            let l = evaluate_in(left, env);
            let ghost e1 = scopes_view(env@);
            match l {
                Err(err) => Err(err),
                Ok(lv) => {
                    let r = evaluate_in(right, env);
                    assert(eval(right@, e1) == (result_view(r), scopes_view(env@)));
                    match r {
                        Err(err) => Err(err),
                        Ok(rv) => eval_binary(op, lv, rv),
                    }
                },
            }
        },
        Expr::Variable(name) => {
            let r = env.get(name);
            proof {
                lemma_lookup_view(env@, name@.lexeme);
            }
            r
        },
        Expr::Assign { name, value } => {
            let vr = evaluate_in(value, env);
            let ghost raw1 = env@;
            match vr {
                Err(err) => Err(err),
                Ok(v) => {
                    let ghost vv = v;
                    let r = env.assign(name, v);
                    proof {
                        lemma_lookup_view(raw1, name@.lexeme);
                        lemma_assigned_view(raw1, name@.lexeme, vv);
                    }
                    r
                },
            }
        },
        Expr::Logical { left, op, right } => {
            let l = evaluate_in(left, env);
            let ghost e1 = scopes_view(env@);
            match l {
                Err(err) => Err(err),
                Ok(lv) => {
                    let t = is_truthy(&lv);
                    let settled = match op.ttype {
                        TokenType::Or => t,
                        _ => !t,
                    };
                    if settled {
                        Ok(lv)
                    } else {
                        let r = evaluate_in(right, env);
                        assert(eval(right@, e1) == (result_view(r), scopes_view(env@)));
                        r
                    }
                },
            }
        },
    }
}

/// Evaluate `expr` with no variables defined: reading or assigning one
/// fails with `Undefined variable`.
pub fn evaluate<N: Number>(expr: &Expr) -> (r: Result<Value<N>, LoxError>)
    requires
        evaluable(expr@),
    ensures
        result_view(r) == eval(expr@, seq![Map::<Seq<char>, Val<N>>::empty()]).0,
{
    let mut env: Environment<Value<N>> = Environment::new();
    proof {
        assert(scopes_view(env@) =~= seq![Map::<Seq<char>, Val<N>>::empty()]) by {
            assert(env@[0].map_values(|v: Value<N>| v@) =~= Map::<Seq<char>, Val<N>>::empty());
        }
    }
    evaluate_in(expr, &mut env)
}

/// The user-facing text of a value: `nil`, `true` or `false`, the number
/// as [`Number::render`] writes it, a string's contents unquoted.
pub fn stringify_value<N: Number>(value: &Value<N>) -> (s: String)
    ensures
        shown(value@, s@),
{
    match value {
        Value::Nil => String::from_str("nil"),
        Value::Bool(b) => if *b {
            String::from_str("true")
        } else {
            String::from_str("false")
        },
        Value::Number(n) => n.render(),
        Value::String(t) => t.clone(),
    }
}


// ---------------------------------------------------------------------
// The parser's trees can be evaluated
// ---------------------------------------------------------------------

/// Every operator node of a parse tree holds a prefix or an infix operator.
spec fn ops_ok(ts: Seq<TokenV>, n: Node) -> bool
    decreases n,
{
    match n {
        Node::Atom(_) => true,
        Node::Group(inner, _) => ops_ok(ts, *inner),
        Node::Prefix(k, r) => prefix_power(ts[k].ttype) is Some && ops_ok(ts, *r),
        Node::Infix(l, k, r) => infix_power(ts[k].ttype) is Some && ops_ok(ts, *l) && ops_ok(
            ts,
            *r,
        ),
    }
}

proof fn lemma_ops_expr(ts: Seq<TokenV>, i: int, min: u8)
    ensures
        p_expr(ts, i, min) matches Ok((n, _)) ==> ops_ok(ts, n),
    decreases ts.len() - i, 2int,
{
    if 0 <= i < ts.len() {
        if prefix_power(ts[i].ttype) is Some {
            lemma_ops_expr(ts, i + 1, 10u8);
            match p_expr(ts, i + 1, 10u8) {
                Ok((r, j)) => {
                    if i < j <= ts.len() {
                        lemma_ops_loop(ts, Node::Prefix(i, Box::new(r)), j, min);
                    }
                },
                Err(_) => {},
            }
        } else {
            lemma_ops_atom(ts, i);
            match p_atom(ts, i) {
                Ok((a, j)) => {
                    if i < j <= ts.len() {
                        lemma_ops_loop(ts, a, j, min);
                    }
                },
                Err(_) => {},
            }
        }
    }
}

proof fn lemma_ops_atom(ts: Seq<TokenV>, i: int)
    ensures
        p_atom(ts, i) matches Ok((n, _)) ==> ops_ok(ts, n),
    decreases ts.len() - i, 1int,
{
    if 0 <= i < ts.len() && ts[i].ttype == TokenType::LeftParen {
        lemma_ops_expr(ts, i + 1, 0u8);
    }
}

proof fn lemma_ops_loop(ts: Seq<TokenV>, lhs: Node, j: int, min: u8)
    requires
        ops_ok(ts, lhs),
    ensures
        p_loop(ts, lhs, j, min) matches Ok((n, _)) ==> ops_ok(ts, n),
    decreases ts.len() - j, 0int,
{
    if 0 <= j < ts.len() {
        match infix_power(ts[j].ttype) {
            Some((l, r)) => {
                if l >= min {
                    lemma_ops_expr(ts, j + 1, r);
                    match p_expr(ts, j + 1, r) {
                        Ok((rhs, k)) => {
                            if j < k <= ts.len() {
                                lemma_ops_loop(
                                    ts,
                                    Node::Infix(Box::new(lhs), j, Box::new(rhs)),
                                    k,
                                    min,
                                );
                            }
                        },
                        Err(_) => {},
                    }
                }
            },
            None => {},
        }
    }
}

proof fn lemma_ops_evaluable(ts: Seq<TokenV>, n: Node)
    requires
        ops_ok(ts, n),
    ensures
        evaluable(to_expr(ts, n)),
    decreases n,
{
    match n {
        Node::Atom(_) => {},
        Node::Group(inner, _) => lemma_ops_evaluable(ts, *inner),
        Node::Prefix(_, r) => lemma_ops_evaluable(ts, *r),
        Node::Infix(l, _, r) => {
            lemma_ops_evaluable(ts, *l);
            lemma_ops_evaluable(ts, *r);
        },
    }
}

/// Every expression the parser produces can be evaluated: its prefix
/// operators are `!` or `-`, its binary operators the ten of the grammar.
pub proof fn lemma_parsed_evaluable(ts: Seq<TokenV>)
    ensures
        spec_parse(ts) matches Ok(e) ==> evaluable(e),
{
    lemma_ops_expr(ts, 0, 0u8);
    match parse_tree(ts) {
        Ok((n, _)) => lemma_ops_evaluable(ts, n),
        Err(_) => {},
    }
}


// ---------------------------------------------------------------------
// Running an expression
// ---------------------------------------------------------------------

/// What `run` gives for an evaluation outcome: the printed value, or the
/// runtime error.
pub open spec fn run_shows<N: Number>(o: Result<Val<N>, LoxErrorV>, r: Result<String, Vec<LoxError>>) -> bool {
    match o {
        Ok(v) => r matches Ok(text) && shown(v, text@),
        Err(e) => r matches Err(es) && errors_view(es@) == seq![e],
    }
}

/// Scan, parse and evaluate one Lox expression, giving the printed form of
/// its value, or every lexical error, or the syntax error, or the runtime
/// error.
pub fn run<N: Number>(source: &str) -> (r: Result<String, Vec<LoxError>>)
    requires
        source@.len() < usize::MAX,
    ensures
        scanned_errors(source@).len() > 0 ==> (r matches Err(es) && errors_view(es@)
            == scanned_errors(source@)),
        scanned_errors(source@).len() == 0 ==> match spec_parse(scanned_tokens(source@)) {
            Err(e) => r matches Err(es) && errors_view(es@) == seq![e],
            Ok(x) => run_shows(eval::<N>(x, seq![Map::<Seq<char>, Val<N>>::empty()]).0, r),
        },
{
    let (tokens, scan_errors) = scan(source);
    if scan_errors.len() > 0 {
        return Err(scan_errors);
    }
    proof {
        lemma_scanned_tokens_parsable(source@);
        assert(toks_view(tokens@) =~= scanned_tokens(source@));
        lemma_parsed_evaluable(scanned_tokens(source@));
    }
    let expr = match parse(tokens.as_slice()) {
        Ok(e) => e,
        Err(e) => {
            let mut errs: Vec<LoxError> = Vec::new();
            errs.push(e);
            assert(errors_view(errs@) =~= seq![errs@[0]@]);
            return Err(errs);
        },
    };
    match evaluate::<N>(&expr) {
        Ok(v) => Ok(stringify_value(&v)),
        Err(e) => {
            let mut errs: Vec<LoxError> = Vec::new();
            errs.push(e);
            assert(errors_view(errs@) =~= seq![errs@[0]@]);
            Err(errs)
        },
    }
}

} // verus!
