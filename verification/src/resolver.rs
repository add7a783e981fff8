//! Static resolution: a pass over a program after parsing and before it
//! runs.
//!
//! 1. It computes, for every variable reference (a read or an
//!    assignment), how many local scopes out from the reference its
//!    binding lives: `0` for the innermost scope, and no depth for a name
//!    that no local scope binds (a global).
//! 2. It rejects two static errors the runtime cannot catch cleanly:
//!    reading a local variable in its own initializer (`var a = a;` in a
//!    block), and declaring a name twice in one local scope.
//!
//! Only local scopes (blocks) are tracked; globals are left to the
//! runtime. A reference is identified by its number: references are
//! numbered from `0` in the order the resolver meets them, which is the
//! order of the program text except that an assignment counts after the
//! references in its value.
//!
//! The syntax trees of this library have no functions, `return`, classes,
//! `this` or `super`, so the checks that concern those have nothing to
//! look at here.

use vstd::prelude::*;

use crate::ast::{Expr, ExprV, Stmt};
use crate::environment::{lookup, scope_map};
use crate::error::{location_of, parse_error_v, LoxError, LoxErrorV};
use crate::scanner::errors_view;
use crate::token::{Token, TokenV};

verus! {

// ---------------------------------------------------------------------
// Specification
// ---------------------------------------------------------------------

/// Local scopes as the resolver sees them, innermost last: each name
/// declared in a scope, with whether its declaration is complete (`true`)
/// or its initializer is still being resolved (`false`).
pub type ResolverScopes = Seq<Map<Seq<char>, bool>>;

/// The resolver's state: the open local scopes, the depth found for each
/// reference met so far (by reference number), and the errors found so
/// far, in order.
pub struct Resolution {
    pub scopes: ResolverScopes,
    pub locals: Seq<Option<nat>>,
    pub errors: Seq<LoxErrorV>,
}

/// How many scopes out from the innermost one `name` is bound, if any
/// scope binds it.
pub open spec fn depth_of(scopes: ResolverScopes, name: Seq<char>) -> Option<nat>
    decreases scopes.len(),
{
    if scopes.len() == 0 {
        None
    } else if scopes.last().contains_key(name) {
        Some(0)
    } else {
        match depth_of(scopes.drop_last(), name) {
            Some(d) => Some(d + 1),
            None => None,
        }
    }
}

pub open spec fn redeclared_msg() -> Seq<char> {
    "Already a variable with this name in this scope."@
}

pub open spec fn own_initializer_msg() -> Seq<char> {
    "Can't read local variable in its own initializer."@
}

/// `name` bound in the innermost scope (if there is one) with `flag`.
pub open spec fn bound(r: Resolution, name: Seq<char>, flag: bool) -> Resolution {
    if r.scopes.len() == 0 {
        r
    } else {
        Resolution {
            scopes: r.scopes.update(r.scopes.len() - 1, r.scopes.last().insert(name, flag)),
            locals: r.locals,
            errors: r.errors,
        }
    }
}

/// A declaration of `name` begins: an error if the innermost scope already
/// declares it, and the name is declared but not yet complete.
pub open spec fn declared(r: Resolution, name: TokenV) -> Resolution {
    let r1 = if r.scopes.len() > 0 && r.scopes.last().contains_key(name.lexeme) {
        Resolution {
            scopes: r.scopes,
            locals: r.locals,
            errors: r.errors.push(parse_error_v(name, redeclared_msg())),
        }
    } else {
        r
    };
    bound(r1, name.lexeme, false)
}

/// A reference to `name` is met: its depth is recorded.
pub open spec fn referenced(r: Resolution, name: Seq<char>) -> Resolution {
    Resolution { scopes: r.scopes, locals: r.locals.push(depth_of(r.scopes, name)), errors: r.errors }
}

/// A read of `name`: an error if the innermost scope holds it with its
/// initializer still being resolved.
pub open spec fn read_checked(r: Resolution, name: TokenV) -> Resolution {
    if r.scopes.len() > 0 && r.scopes.last().contains_key(name.lexeme) && !r.scopes.last()[name.lexeme] {
        Resolution {
            scopes: r.scopes,
            locals: r.locals,
            errors: r.errors.push(parse_error_v(name, own_initializer_msg())),
        }
    } else {
        r
    }
}

/// Resolution of an expression: operands left to right, an assignment's
/// value before the assignment itself.
pub open spec fn res_expr(e: ExprV, r: Resolution) -> Resolution
    decreases e,
{
    match e {
        ExprV::Assign { name, value } => referenced(res_expr(*value, r), name.lexeme),
        ExprV::Binary { left, right, .. } => res_expr(*right, res_expr(*left, r)),
        ExprV::Grouping(inner) => res_expr(*inner, r),
        ExprV::Literal(_) => r,
        ExprV::Logical { left, right, .. } => res_expr(*right, res_expr(*left, r)),
        ExprV::Unary { right, .. } => res_expr(*right, r),
        ExprV::Variable(name) => referenced(read_checked(r, name), name.lexeme),
    }
}

/// Resolution of a statement. A `var` is declared before its initializer
/// is resolved and completed after it; a block resolves its statements in
/// a scope of its own.
pub open spec fn res_stmt(s: Stmt, r: Resolution) -> Resolution
    decreases s, 1int,
{
    match s {
        Stmt::Expression(e) => res_expr(e@, r),
        Stmt::Print(e) => res_expr(e@, r),
        Stmt::Var { name, initializer } => {
            let r1 = declared(r, name@);
            let r2 = match initializer {
                Some(e) => res_expr(e@, r1),
                None => r1,
            };
            bound(r2, name@.lexeme, true)
        },
        Stmt::Block(stmts) => {
            let r1 = Resolution { scopes: r.scopes.push(Map::empty()), locals: r.locals, errors: r.errors };
            let r2 = res_stmts(stmts@, r1);
            Resolution { scopes: r2.scopes.drop_last(), locals: r2.locals, errors: r2.errors }
        },
        Stmt::If { condition, then_branch, else_branch } => {
            let r2 = res_stmt(*then_branch, res_expr(condition@, r));
            match else_branch {
                Some(b) => res_stmt(*b, r2),
                None => r2,
            }
        },
        Stmt::While { condition, body } => res_stmt(*body, res_expr(condition@, r)),
    }
}

/// Resolution of statements in order.
pub open spec fn res_stmts(ss: Seq<Stmt>, r: Resolution) -> Resolution
    decreases ss, 0int,
{
    if ss.len() == 0 {
        r
    } else {
        res_stmt(ss.last(), res_stmts(ss.drop_last(), r))
    }
}

/// What resolving a program gives: the depth of every reference when no
/// static error was found, else every error found, in order.
pub open spec fn resolve_spec(ss: Seq<Stmt>) -> Result<Seq<Option<nat>>, Seq<LoxErrorV>> {
    let r = res_stmts(ss, Resolution { scopes: Seq::empty(), locals: Seq::empty(), errors: Seq::empty() });
    if r.errors.len() == 0 {
        Ok(r.locals)
    } else {
        Err(r.errors)
    }
}

// ---------------------------------------------------------------------
// Lemmas
// ---------------------------------------------------------------------

/// Bindings after position `i` that are of other names do not change what
/// a scope says of `k`.
proof fn lemma_scope_map_tail<V>(s: Seq<(String, V)>, i: int, k: Seq<char>)
    requires
        0 <= i <= s.len(),
        forall|j: int| i <= j < s.len() ==> s[j].0@ != k,
    ensures
        scope_map(s).contains_key(k) == scope_map(s.take(i)).contains_key(k),
        scope_map(s).contains_key(k) ==> scope_map(s)[k] == scope_map(s.take(i))[k],
    decreases s.len(),
{
    if s.len() == i {
        assert(s.take(i) =~= s);
    } else {
        let d = s.drop_last();
        assert(d.take(i) =~= s.take(i));
        lemma_scope_map_tail(d, i, k);
    }
}

/// Scopes after position `i` that do not bind `name` add their number to
/// its depth.
proof fn lemma_depth_tail(scopes: ResolverScopes, i: int, name: Seq<char>)
    requires
        0 <= i <= scopes.len(),
        forall|j: int| i <= j < scopes.len() ==> !(#[trigger] scopes[j]).contains_key(name),
    ensures
        depth_of(scopes, name) == match depth_of(scopes.take(i), name) {
            Some(d) => Some((d + (scopes.len() - i)) as nat),
            None => None::<nat>,
        },
    decreases scopes.len(),
{
    if scopes.len() == i {
        assert(scopes.take(i) =~= scopes);
    } else {
        let d = scopes.drop_last();
        assert(d.take(i) =~= scopes.take(i));
        assert(!scopes[scopes.len() - 1].contains_key(name));
        assert forall|j: int| i <= j < d.len() implies !(#[trigger] d[j]).contains_key(name) by {
            assert(d[j] == scopes[j]);
        }
        lemma_depth_tail(d, i, name);
    }
}

/// An innermost scope that binds `name` gives depth `0`.
proof fn lemma_depth_here(scopes: ResolverScopes, name: Seq<char>)
    requires
        scopes.len() > 0,
        scopes.last().contains_key(name),
    ensures
        depth_of(scopes, name) == Some(0nat),
{
}

/// The depth recorded for a reference is where the running program finds
/// its binding. When the runtime's scopes are the globals followed by one
/// scope for each local scope the resolver tracks, declaring the same
/// names, a name found at depth `d` is read from the scope `d` out from
/// the innermost one, and a name found at no depth is read from the
/// globals.
pub proof fn lemma_depth_finds_binding<V>(rs: ResolverScopes, env: Seq<Map<Seq<char>, V>>, name: Seq<char>)
    requires
        env.len() == rs.len() + 1,
        forall|i: int| 0 <= i < rs.len() ==> #[trigger] env[i + 1].dom() == rs[i].dom(),
    ensures
        match depth_of(rs, name) {
            Some(d) => d < rs.len() && lookup(env, name) == Some(env[env.len() - 1 - d][name]),
            None => lookup(env, name) == lookup(seq![env[0]], name),
        },
    decreases rs.len(),
{
    if rs.len() > 0 {
        let rs1 = rs.drop_last();
        let env1 = env.drop_last();
        assert forall|i: int| 0 <= i < rs1.len() implies #[trigger] env1[i + 1].dom() == rs1[i].dom() by {
            assert(env1[i + 1] == env[i + 1]);
            assert(rs1[i] == rs[i]);
        }
        lemma_depth_finds_binding(rs1, env1, name);
        assert(env.last().dom() == rs.last().dom()) by {
            assert(env[(rs.len() - 1) + 1].dom() == rs[rs.len() - 1].dom());
        }
        assert(env1[0] == env[0]);
        if !rs.last().contains_key(name) {
            assert(!rs.last().dom().contains(name));
            assert(!env.last().contains_key(name));
            match depth_of(rs1, name) {
                Some(d) => {
                    assert(env1[env1.len() - 1 - d] == env[env.len() - 1 - (d + 1)]);
                },
                None => {},
            }
        } else {
            assert(rs.last().dom().contains(name));
            assert(env.last().contains_key(name));
        }
    } else {
        assert(env =~= seq![env[0]]);
    }
}

// ---------------------------------------------------------------------
// Laws of the resolution
// ---------------------------------------------------------------------

/// Number of variable references (reads and assignments) in an
/// expression.
pub open spec fn expr_refs(e: ExprV) -> nat
    decreases e,
{
    match e {
        ExprV::Assign { value, .. } => 1 + expr_refs(*value),
        ExprV::Binary { left, right, .. } => expr_refs(*left) + expr_refs(*right),
        ExprV::Grouping(inner) => expr_refs(*inner),
        ExprV::Literal(_) => 0,
        ExprV::Logical { left, right, .. } => expr_refs(*left) + expr_refs(*right),
        ExprV::Unary { right, .. } => expr_refs(*right),
        ExprV::Variable(_) => 1,
    }
}

/// Number of variable references in a statement, every branch and body
/// included.
pub open spec fn stmt_refs(s: Stmt) -> nat
    decreases s, 1int,
{
    match s {
        Stmt::Expression(e) => expr_refs(e@),
        Stmt::Print(e) => expr_refs(e@),
        Stmt::Var { initializer, .. } => match initializer {
            Some(e) => expr_refs(e@),
            None => 0,
        },
        Stmt::Block(stmts) => stmts_refs(stmts@),
        Stmt::If { condition, then_branch, else_branch } => expr_refs(condition@) + stmt_refs(
            *then_branch,
        ) + match else_branch {
            Some(b) => stmt_refs(*b),
            None => 0,
        },
        Stmt::While { condition, body } => expr_refs(condition@) + stmt_refs(*body),
    }
}

/// Number of variable references in a sequence of statements.
pub open spec fn stmts_refs(ss: Seq<Stmt>) -> nat
    decreases ss, 0int,
{
    if ss.len() == 0 {
        0
    } else {
        stmts_refs(ss.drop_last()) + stmt_refs(ss.last())
    }
}

/// `later` is `earlier` with more items after them.
pub open spec fn grown<T>(later: Seq<T>, earlier: Seq<T>) -> bool {
    &&& earlier.len() <= later.len()
    &&& later.take(earlier.len() as int) == earlier
}

proof fn lemma_grown_trans<T>(a: Seq<T>, b: Seq<T>, c: Seq<T>)
    requires
        grown(b, a),
        grown(c, b),
    ensures
        grown(c, a),
{
    assert(c.take(a.len() as int) =~= b.take(a.len() as int));
}

proof fn lemma_grown_push<T>(a: Seq<T>, x: T)
    ensures
        grown(a.push(x), a),
{
    assert(a.push(x).take(a.len() as int) =~= a);
}

proof fn lemma_grown_refl<T>(a: Seq<T>)
    ensures
        grown(a, a),
{
    assert(a.take(a.len() as int) =~= a);
}

/// What resolving an expression does to the state: one depth more for
/// each reference in it, earlier depths and errors kept, scopes untouched.
proof fn lemma_expr_resolution(e: ExprV, r: Resolution)
    ensures
        res_expr(e, r).locals.len() == r.locals.len() + expr_refs(e),
        grown(res_expr(e, r).locals, r.locals),
        grown(res_expr(e, r).errors, r.errors),
        res_expr(e, r).scopes == r.scopes,
    decreases e,
{
    lemma_grown_refl(r.locals);
    lemma_grown_refl(r.errors);
    match e {
        ExprV::Assign { name, value } => {
            lemma_expr_resolution(*value, r);
            let r1 = res_expr(*value, r);
            lemma_grown_push(r1.locals, depth_of(r1.scopes, name.lexeme));
            lemma_grown_trans(r.locals, r1.locals, res_expr(e, r).locals);
        },
        ExprV::Binary { left, right, .. } => {
            lemma_expr_resolution(*left, r);
            let r1 = res_expr(*left, r);
            lemma_expr_resolution(*right, r1);
            lemma_grown_trans(r.locals, r1.locals, res_expr(e, r).locals);
            lemma_grown_trans(r.errors, r1.errors, res_expr(e, r).errors);
        },
        ExprV::Logical { left, right, .. } => {
            lemma_expr_resolution(*left, r);
            let r1 = res_expr(*left, r);
            lemma_expr_resolution(*right, r1);
            lemma_grown_trans(r.locals, r1.locals, res_expr(e, r).locals);
            lemma_grown_trans(r.errors, r1.errors, res_expr(e, r).errors);
        },
        ExprV::Grouping(inner) => lemma_expr_resolution(*inner, r),
        ExprV::Unary { right, .. } => lemma_expr_resolution(*right, r),
        ExprV::Literal(_) => {},
        ExprV::Variable(name) => {
            let r1 = read_checked(r, name);
            lemma_grown_push(r.errors, parse_error_v(name, own_initializer_msg()));
            lemma_grown_push(r1.locals, depth_of(r1.scopes, name.lexeme));
        },
    }
}

/// What resolving statements does to the state: one depth more for each
/// reference in them (those in every branch and loop body included),
/// earlier depths and errors kept, as many scopes open as before.
proof fn lemma_stmt_resolution(s: Stmt, r: Resolution)
    ensures
        res_stmt(s, r).locals.len() == r.locals.len() + stmt_refs(s),
        grown(res_stmt(s, r).locals, r.locals),
        grown(res_stmt(s, r).errors, r.errors),
        res_stmt(s, r).scopes.len() == r.scopes.len(),
    decreases s, 1int,
{
    lemma_grown_refl(r.locals);
    lemma_grown_refl(r.errors);
    match s {
        Stmt::Expression(e) => lemma_expr_resolution(e@, r),
        Stmt::Print(e) => lemma_expr_resolution(e@, r),
        Stmt::Var { name, initializer } => {
            let r1 = declared(r, name@);
            lemma_grown_push(r.errors, parse_error_v(name@, redeclared_msg()));
            lemma_grown_refl(r1.errors);
            match initializer {
                Some(e) => {
                    lemma_expr_resolution(e@, r1);
                    lemma_grown_trans(r.errors, r1.errors, res_expr(e@, r1).errors);
                },
                None => {},
            }
        },
        Stmt::Block(stmts) => {
            let r1 = Resolution { scopes: r.scopes.push(Map::empty()), locals: r.locals, errors: r.errors };
            lemma_stmts_resolution(stmts@, r1);
        },
        Stmt::If { condition, then_branch, else_branch } => {
            lemma_expr_resolution(condition@, r);
            let r1 = res_expr(condition@, r);
            lemma_stmt_resolution(*then_branch, r1);
            let r2 = res_stmt(*then_branch, r1);
            lemma_grown_trans(r.locals, r1.locals, r2.locals);
            lemma_grown_trans(r.errors, r1.errors, r2.errors);
            match else_branch {
                Some(b) => {
                    lemma_stmt_resolution(*b, r2);
                    lemma_grown_trans(r.locals, r2.locals, res_stmt(*b, r2).locals);
                    lemma_grown_trans(r.errors, r2.errors, res_stmt(*b, r2).errors);
                },
                None => {},
            }
        },
        Stmt::While { condition, body } => {
            lemma_expr_resolution(condition@, r);
            let r1 = res_expr(condition@, r);
            lemma_stmt_resolution(*body, r1);
            lemma_grown_trans(r.locals, r1.locals, res_stmt(*body, r1).locals);
            lemma_grown_trans(r.errors, r1.errors, res_stmt(*body, r1).errors);
        },
    }
}

proof fn lemma_stmts_resolution(ss: Seq<Stmt>, r: Resolution)
    ensures
        res_stmts(ss, r).locals.len() == r.locals.len() + stmts_refs(ss),
        grown(res_stmts(ss, r).locals, r.locals),
        grown(res_stmts(ss, r).errors, r.errors),
        res_stmts(ss, r).scopes.len() == r.scopes.len(),
    decreases ss, 0int,
{
    if ss.len() == 0 {
        lemma_grown_refl(r.locals);
        lemma_grown_refl(r.errors);
    } else {
        lemma_stmts_resolution(ss.drop_last(), r);
        let r1 = res_stmts(ss.drop_last(), r);
        lemma_stmt_resolution(ss.last(), r1);
        lemma_grown_trans(r.locals, r1.locals, res_stmts(ss, r).locals);
        lemma_grown_trans(r.errors, r1.errors, res_stmts(ss, r).errors);
    }
}

/// The resolver visits every reference of a program, those in every
/// branch and loop body included, exactly once: a program that resolves
/// gets one depth for each of its references, and resolving more
/// statements keeps the depths and errors found so far and leaves as many
/// scopes open as before.
pub proof fn lemma_every_reference_resolved(ss: Seq<Stmt>, r: Resolution)
    ensures
        res_stmts(ss, r).locals.len() == r.locals.len() + stmts_refs(ss),
        grown(res_stmts(ss, r).locals, r.locals),
        grown(res_stmts(ss, r).errors, r.errors),
        res_stmts(ss, r).scopes.len() == r.scopes.len(),
        resolve_spec(ss) matches Ok(m) ==> m.len() == stmts_refs(ss),
{
    lemma_stmts_resolution(ss, r);
    lemma_stmts_resolution(ss, Resolution { scopes: Seq::empty(), locals: Seq::empty(), errors: Seq::empty() });
}

/// Branches and loop bodies are resolved as if they stood in sequence:
/// `if (c) T else E` resolves as the statements `c; T; E`, `if (c) T` as
/// `c; T`, and `while (c) B` as `c; B`, in the same scope.
pub proof fn lemma_branches_resolve_in_sequence(s: Stmt, r: Resolution)
    ensures
        s matches Stmt::If { condition, then_branch, else_branch } ==> res_stmt(s, r) == match else_branch {
            Some(b) => res_stmts(seq![Stmt::Expression(condition), *then_branch, *b], r),
            None => res_stmts(seq![Stmt::Expression(condition), *then_branch], r),
        },
        s matches Stmt::While { condition, body } ==> res_stmt(s, r) == res_stmts(
            seq![Stmt::Expression(condition), *body],
            r,
        ),
{
    match s {
        Stmt::If { condition, then_branch, else_branch } => {
            let c = Stmt::Expression(condition);
            let t = *then_branch;
            let s1 = seq![c];
            let s2 = seq![c, t];
            assert(s1.drop_last() =~= Seq::<Stmt>::empty());
            assert(s1.last() == c);
            assert(res_stmts(s1, r) == res_stmt(c, res_stmts(Seq::<Stmt>::empty(), r)));
            assert(res_stmts(s1, r) == res_expr(condition@, r));
            assert(s2.drop_last() =~= s1);
            assert(s2.last() == t);
            assert(res_stmts(s2, r) == res_stmt(t, res_stmts(s1, r)));
            match else_branch {
                Some(b) => {
                    let s3 = seq![c, t, *b];
                    assert(s3.drop_last() =~= s2);
                    assert(s3.last() == *b);
                    assert(res_stmts(s3, r) == res_stmt(*b, res_stmts(s2, r)));
                },
                None => {},
            }
        },
        Stmt::While { condition, body } => {
            let c = Stmt::Expression(condition);
            let s1 = seq![c];
            let s2 = seq![c, *body];
            assert(s1.drop_last() =~= Seq::<Stmt>::empty());
            assert(s1.last() == c);
            assert(res_stmts(s1, r) == res_stmt(c, res_stmts(Seq::<Stmt>::empty(), r)));
            assert(res_stmts(s1, r) == res_expr(condition@, r));
            assert(s2.drop_last() =~= s1);
            assert(s2.last() == *body);
            assert(res_stmts(s2, r) == res_stmt(*body, res_stmts(s1, r)));
        },
        _ => {},
    }
}

/// Inside a block, a declaration of a name the innermost scope already
/// declares is reported at the new declaration's name; a declaration
/// leaves the name declared in the innermost scope, so a second one in the
/// same block is always reported. With no block open (global code) a
/// declaration reports nothing.
pub proof fn lemma_redeclaration(name: Token, init: Option<Expr>, r: Resolution)
    ensures
        ({
            let out = res_stmt(Stmt::Var { name, initializer: init }, r);
            &&& r.scopes.len() > 0 ==> out.scopes.last().contains_key(name@.lexeme)
            &&& r.scopes.len() > 0 && r.scopes.last().contains_key(name@.lexeme) ==> out.errors.len()
                > r.errors.len() && out.errors[r.errors.len() as int] == LoxErrorV::Parse {
                line: name@.line,
                location: location_of(name@),
                message: "Already a variable with this name in this scope."@,
            }
            &&& r.scopes.len() == 0 && init is None ==> out.errors == r.errors
        }),
{
    let r1 = declared(r, name@);
    match init {
        Some(e) => {
            lemma_expr_resolution(e@, r1);
            assert(res_expr(e@, r1).errors.take(r1.errors.len() as int)[r.errors.len() as int]
                == r1.errors[r.errors.len() as int]);
        },
        None => {},
    }
}

/// Inside a block, a variable read in the initializer of its own
/// declaration (`var a = a;`) is reported at the read, as the error that
/// follows those already found; in global code it is not reported.
pub proof fn lemma_self_initializer(name: Token, read: Token, r: Resolution)
    requires
        read@.lexeme == name@.lexeme,
    ensures
        ({
            let out = res_stmt(Stmt::Var { name, initializer: Some(Expr::Variable(read)) }, r);
            &&& r.scopes.len() > 0 && !r.scopes.last().contains_key(name@.lexeme) ==> out.errors
                == r.errors.push(
                LoxErrorV::Parse {
                    line: read@.line,
                    location: location_of(read@),
                    message: "Can't read local variable in its own initializer."@,
                },
            )
            &&& r.scopes.len() == 0 ==> out.errors == r.errors
        }),
{
    reveal_strlit("Can't read local variable in its own initializer.");
}

/// Once a declaration in a block is complete, reading the name there
/// reports nothing and finds it in the innermost scope (depth `0`).
pub proof fn lemma_declared_then_read(name: Token, read: Token, r: Resolution)
    requires
        read@.lexeme == name@.lexeme,
        r.scopes.len() > 0,
    ensures
        ({
            let r1 = res_stmt(Stmt::Var { name, initializer: None }, r);
            let r2 = res_stmt(Stmt::Print(Expr::Variable(read)), r1);
            &&& r2.errors == r1.errors
            &&& r2.locals == r1.locals.push(Some(0nat))
        }),
{
    let r1 = res_stmt(Stmt::Var { name, initializer: None }, r);
    assert(r1.scopes.last() == declared(r, name@).scopes.last().insert(name@.lexeme, true));
}

// ---------------------------------------------------------------------
// Executable
// ---------------------------------------------------------------------

/// The depth found for each variable reference of a program, by reference
/// number (see the module documentation); `None` for a global.
#[derive(Debug)]
pub struct Locals {
    depths: Vec<Option<usize>>,
}

pub open spec fn depths_view(v: Seq<Option<usize>>) -> Seq<Option<nat>> {
    v.map_values(|o: Option<usize>| match o {
        Some(d) => Some(d as nat),
        None => None,
    })
}

impl View for Locals {
    type V = Seq<Option<nat>>;

    closed spec fn view(&self) -> Seq<Option<nat>> {
        depths_view(self.depths@)
    }
}

impl Locals {
    /// How many references the program makes.
    pub fn len(&self) -> (n: usize)
        ensures
            n == self@.len(),
    {
        self.depths.len()
    }

    /// `true` when no reference was found in a local scope: every one is
    /// to a global.
    pub fn is_empty(&self) -> (b: bool)
        ensures
            b == forall|i: int| 0 <= i < self@.len() ==> #[trigger] self@[i] is None,
    {
        let mut i: usize = 0;
        while i < self.depths.len()
            invariant
                i <= self.depths@.len(),
                forall|j: int| 0 <= j < i ==> #[trigger] self@[j] is None,
            decreases self.depths@.len() - i,
        {
            if self.depths[i].is_some() {
                assert(self@[i as int] is Some);
                return false;
            }
            i = i + 1;
        }
        true
    }

    /// The depth of reference number `id`: `None` for a global or past the
    /// last reference.
    pub fn depth(&self, id: usize) -> (r: Option<usize>)
        ensures
            match r {
                Some(d) => id < self@.len() && self@[id as int] == Some(d as nat),
                None => id >= self@.len() || self@[id as int] is None,
            },
    {
        if id < self.depths.len() {
            self.depths[id]
        } else {
            None
        }
    }
}

/// The binding flag of `name` in one scope, if the scope declares it.
fn scope_get(scope: &Vec<(String, bool)>, name: &String) -> (r: Option<bool>)
    ensures
        r == if scope_map(scope@).contains_key(name@) {
            Some(scope_map(scope@)[name@])
        } else {
            None::<bool>
        },
{
    let mut i = scope.len();
    while i > 0
        invariant
            i <= scope@.len(),
            forall|j: int| i <= j < scope@.len() ==> scope@[j].0@ != name@,
        decreases i,
    {
        if scope[i - 1].0 == *name {
            proof {
                lemma_scope_map_tail(scope@, i as int, name@);
                let t = scope@.take(i as int);
                assert(t.drop_last() =~= scope@.take(i - 1));
                assert(t.last() == scope@[i - 1]);
            }
            return Some(scope[i - 1].1);
        }
        i = i - 1;
    }
    proof {
        lemma_scope_map_tail(scope@, 0, name@);
        assert(scope@.take(0) =~= Seq::<(String, bool)>::empty());
    }
    None
}

struct Resolver {
    scopes: Vec<Vec<(String, bool)>>,
    depths: Vec<Option<usize>>,
    errors: Vec<LoxError>,
}

impl View for Resolver {
    type V = Resolution;

    closed spec fn view(&self) -> Resolution {
        Resolution {
            scopes: self.scopes@.map_values(|s: Vec<(String, bool)>| scope_map(s@)),
            locals: depths_view(self.depths@),
            errors: errors_view(self.errors@),
        }
    }
}

impl Resolver {
    /// Bind `name` with `flag` in the innermost scope, if there is one.
    fn bind(&mut self, name: &String, flag: bool)
        ensures
            final(self)@ == bound(old(self)@, name@, flag),
    {
        if self.scopes.len() == 0 {
            return;
        }
        let ghost before = self.scopes@;
        let mut inner = match self.scopes.pop() {
            Some(s) => s,
            None => Vec::new(),
        };
        let ghost old_inner = inner@;
        inner.push((name.clone(), flag));
        assert(inner@.drop_last() =~= old_inner);
        self.scopes.push(inner);
        assert(self@.scopes =~= old(self)@.scopes.update(
            before.len() - 1,
            old(self)@.scopes.last().insert(name@, flag),
        ));
    }

    fn error(&mut self, name: &Token, message: &str)
        ensures
            final(self)@ == (Resolution {
                scopes: old(self)@.scopes,
                locals: old(self)@.locals,
                errors: old(self)@.errors.push(parse_error_v(name@, message@)),
            }),
    {
        let e = LoxError::parse(name, message);
        self.errors.push(e);
        assert(self@.errors =~= old(self)@.errors.push(parse_error_v(name@, message@)));
    }

    fn declare(&mut self, name: &Token)
        ensures
            final(self)@ == declared(old(self)@, name@),
    {
        let n = self.scopes.len();
        if n > 0 {
            let here = scope_get(&self.scopes[n - 1], &name.lexeme);
            if here.is_some() {
                proof {
                    reveal_strlit("Already a variable with this name in this scope.");
                }
                self.error(name, "Already a variable with this name in this scope.");
            }
        }
        self.bind(&name.lexeme, false);
    }

    /// Record the depth of a reference to `name`.
    fn reference(&mut self, name: &Token)
        ensures
            final(self)@ == referenced(old(self)@, name@.lexeme),
    {
        let ghost sv = self@.scopes;
        let n = self.scopes.len();
        let mut i = n;
        while i > 0
            invariant
                i <= n,
                n == self.scopes@.len(),
                sv == self@.scopes,
                self@ == old(self)@,
                forall|j: int| i <= j < sv.len() ==> !(#[trigger] sv[j]).contains_key(name@.lexeme),
            decreases i,
        {
            if scope_get(&self.scopes[i - 1], &name.lexeme).is_some() {
                proof {
                    assert(sv[i - 1] == scope_map(self.scopes@[i - 1]@));
                    lemma_depth_tail(sv, i as int, name@.lexeme);
                    assert(sv.take(i as int).last() == sv[i - 1]);
                    lemma_depth_here(sv.take(i as int), name@.lexeme);
                }
                let ghost before = self.depths@;
                self.depths.push(Some(n - i));
                assert(self@.locals =~= old(self)@.locals.push(depth_of(sv, name@.lexeme)));
                return;
            }
            proof {
                assert(sv[i - 1] == scope_map(self.scopes@[i - 1]@));
            }
            i = i - 1;
        }
        proof {
            lemma_depth_tail(sv, 0, name@.lexeme);
            assert(sv.take(0).len() == 0);
        }
        self.depths.push(None);
        assert(self@.locals =~= old(self)@.locals.push(depth_of(sv, name@.lexeme)));
    }

    fn resolve_expr(&mut self, e: &Expr)
        ensures
            final(self)@ == res_expr(e@, old(self)@),
            final(self)@.scopes.len() == old(self)@.scopes.len(),
        decreases e,
    {
        match e {
            Expr::Assign { name, value } => {
                self.resolve_expr(value);
                self.reference(name);
            },
            Expr::Binary { left, right, .. } => {
                self.resolve_expr(left);
                self.resolve_expr(right);
            },
            Expr::Grouping(inner) => self.resolve_expr(inner),
            Expr::Literal(_) => {},
            Expr::Logical { left, right, .. } => {
                self.resolve_expr(left);
                self.resolve_expr(right);
            },
            Expr::Unary { right, .. } => self.resolve_expr(right),
            Expr::Variable(name) => {
                let n = self.scopes.len();
                if n > 0 {
                    let here = scope_get(&self.scopes[n - 1], &name.lexeme);
                    if here == Some(false) {
                        proof {
                            reveal_strlit("Can't read local variable in its own initializer.");
                        }
                        self.error(name, "Can't read local variable in its own initializer.");
                    }
                }
                self.reference(name);
            },
        }
    }

    fn resolve_stmt(&mut self, s: &Stmt)
        ensures
            final(self)@ == res_stmt(*s, old(self)@),
            final(self)@.scopes.len() == old(self)@.scopes.len(),
        decreases s, 1int,
    {
        match s {
            Stmt::Expression(e) => self.resolve_expr(e),
            Stmt::Print(e) => self.resolve_expr(e),
            Stmt::Var { name, initializer } => {
                self.declare(name);
                match initializer {
                    Some(e) => self.resolve_expr(e),
                    None => {},
                }
                self.bind(&name.lexeme, true);
            },
            Stmt::Block(stmts) => {
                self.scopes.push(Vec::new());
                assert(self@.scopes =~= old(self)@.scopes.push(Map::empty()));
                self.resolve_stmts(stmts.as_slice());
                let ghost inside = self@;
                self.scopes.pop();
                assert(self@.scopes =~= inside.scopes.drop_last());
            },
            Stmt::If { condition, then_branch, else_branch } => {
                self.resolve_expr(condition);
                self.resolve_stmt(then_branch);
                match else_branch {
                    Some(b) => self.resolve_stmt(b),
                    None => {},
                }
            },
            Stmt::While { condition, body } => {
                self.resolve_expr(condition);
                self.resolve_stmt(body);
            },
        }
    }

    fn resolve_stmts(&mut self, program: &[Stmt])
        ensures
            final(self)@ == res_stmts(program@, old(self)@),
            final(self)@.scopes.len() == old(self)@.scopes.len(),
        decreases program@, 0int,
    {
        let mut i: usize = 0;
        assert(program@.take(0) =~= Seq::<Stmt>::empty());
        while i < program.len()
            invariant
                i <= program@.len(),
                self@ == res_stmts(program@.take(i as int), old(self)@),
                self@.scopes.len() == old(self)@.scopes.len(),
            decreases program@.len() - i,
        {
            assert(program@.take(i + 1).drop_last() =~= program@.take(i as int));
            assert(program@.take(i + 1).last() == program@[i as int]);
            proof {
                assert(decreases_to!(program@ => program@[i as int]));
            }
            self.resolve_stmt(&program[i]);
            i = i + 1;
        }
        assert(program@.take(i as int) =~= program@);
    }
}

/// Resolve a program: the depth of every variable reference, or every
/// static error found, in order.
pub fn resolve(stmts: &Vec<Stmt>) -> (r: Result<Locals, Vec<LoxError>>)
    ensures
        match resolve_spec(stmts@) {
            Ok(m) => r matches Ok(l) && l@ == m,
            Err(es) => r matches Err(e) && errors_view(e@) == es,
        },
{
    let mut res = Resolver { scopes: Vec::new(), depths: Vec::new(), errors: Vec::new() };
    assert(res@ == (Resolution { scopes: Seq::empty(), locals: Seq::empty(), errors: Seq::empty() })) by {
        assert(res@.scopes =~= Seq::<Map<Seq<char>, bool>>::empty());
        assert(res@.locals =~= Seq::<Option<nat>>::empty());
        assert(res@.errors =~= Seq::<LoxErrorV>::empty());
    }
    res.resolve_stmts(stmts.as_slice());
    let Resolver { scopes, depths, errors } = res;
    if errors.len() == 0 {
        Ok(Locals { depths })
    } else {
        Err(errors)
    }
}

} // verus!
