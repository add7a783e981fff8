//! Running statements, one step at a time.
//!
//! A program runs as an [`Execution`]: the variables and a stack of
//! pending [`Work`], next item last. Each call of [`Execution::step`] does
//! one piece of work and says what the caller is to do: write a line of
//! `print` output, go on, stop because the program ended, or stop on a
//! runtime error. The caller performs the output, so a program with a
//! `while` loop that never ends simply never stops asking to go on.
//!
//! A block pushes a scope and a [`Work::Leave`] after its statements; a
//! runtime error abandons the pending work and drops every block scope
//! still open, so the variables return to the global scope.

use vstd::prelude::*;

use crate::ast::{Expr, Stmt};
use crate::environment::Environment;
use crate::error::{LoxError, LoxErrorV};
use crate::environment::lookup;
use crate::interpreter::{
    eval, evaluable, evaluate_in, is_truthy, lemma_eval_depth, result_view, scopes_view, shown,
    stringify_value, truthy, Scopes, Val, Value,
};
use crate::number::Number;
use crate::token::TokenType;

verus! {

// ---------------------------------------------------------------------
// Specification
// ---------------------------------------------------------------------

/// Every expression of a statement can be evaluated.
pub open spec fn executable(s: Stmt) -> bool
    decreases s, 1int,
{
    match s {
        Stmt::Expression(e) => evaluable(e@),
        Stmt::Print(e) => evaluable(e@),
        Stmt::Var { initializer, .. } => match initializer {
            Some(e) => evaluable(e@),
            None => true,
        },
        Stmt::Block(stmts) => all_executable(stmts@),
        Stmt::If { condition, then_branch, else_branch } => evaluable(condition@) && executable(
            *then_branch,
        ) && match else_branch {
            Some(b) => executable(*b),
            None => true,
        },
        Stmt::While { condition, body } => evaluable(condition@) && executable(*body),
    }
}

/// Every statement of a sequence is [`executable`].
pub open spec fn all_executable(ss: Seq<Stmt>) -> bool
    decreases ss, 0int,
{
    if ss.len() == 0 {
        true
    } else {
        all_executable(ss.drop_last()) && executable(ss.last())
    }
}

/// One piece of pending work of a running program.
pub enum Work<'a> {
    /// Execute this statement.
    Run(&'a Stmt),
    /// Leave the innermost block: drop its scope.
    Leave,
}

/// Number of blocks the pending work will leave.
pub open spec fn leaves(w: Seq<Work>) -> nat
    decreases w.len(),
{
    if w.len() == 0 {
        0
    } else {
        leaves(w.drop_last()) + if w.last() is Leave {
            1nat
        } else {
            0nat
        }
    }
}

/// Every statement still to run is [`executable`].
pub open spec fn runnable(w: Seq<Work>) -> bool {
    forall|i: int| 0 <= i < w.len() ==> (#[trigger] w[i] matches Work::Run(s) ==> executable(*s))
}

/// The statements of a block as pending work: the first one last, so that
/// it runs first.
pub open spec fn runs<'a>(ss: Seq<Stmt>) -> Seq<Work<'a>> {
    Seq::new(ss.len(), |i: int| Work::Run(&ss[ss.len() - 1 - i]))
}

/// What one step asks of the caller.
pub enum Effect<N> {
    /// Print this value on a line of its own.
    Print(Val<N>),
    /// Nothing to show; step again.
    Continue,
    /// The program has ended.
    Done,
    /// The program stopped with this runtime error.
    Fail(LoxErrorV),
}

/// The state after a step, and what it asks.
pub struct Next<'a, N> {
    pub work: Seq<Work<'a>>,
    pub scopes: Scopes<N>,
    pub effect: Effect<N>,
}

/// `name` bound to `v` in the innermost scope.
pub open spec fn defined<N>(env: Scopes<N>, name: Seq<char>, v: Val<N>) -> Scopes<N> {
    env.update(env.len() - 1, env.last().insert(name, v))
}

/// A runtime error: the pending work is dropped and so is every block
/// scope still open.
pub open spec fn failed<'a, N>(env: Scopes<N>, e: LoxErrorV) -> Next<'a, N> {
    Next { work: Seq::empty(), scopes: env.take(1), effect: Effect::Fail(e) }
}

/// A step that evaluates `e` and, on success, continues as `then` says.
pub open spec fn after<'a, N: Number>(
    e: Expr,
    env: Scopes<N>,
    then: spec_fn(Val<N>, Scopes<N>) -> Next<'a, N>,
) -> Next<'a, N> {
    let o = eval(e@, env);
    match o.0 {
        Ok(v) => then(v, o.1),
        Err(err) => failed(o.1, err),
    }
}

/// One step of a program with pending work `w` and variables `env`.
pub open spec fn next<'a, N: Number>(w: Seq<Work<'a>>, env: Scopes<N>) -> Next<'a, N> {
    if w.len() == 0 {
        Next { work: w, scopes: env, effect: Effect::Done }
    } else {
        let w1 = w.drop_last();
        match w.last() {
            Work::Leave => Next {
                work: w1,
                scopes: env.drop_last(),
                effect: Effect::Continue,
            },
            Work::Run(s) => match *s {
                Stmt::Expression(e) => after(
                    e,
                    env,
                    |v: Val<N>, env1: Scopes<N>|
                        Next { work: w1, scopes: env1, effect: Effect::Continue },
                ),
                Stmt::Print(e) => after(
                    e,
                    env,
                    |v: Val<N>, env1: Scopes<N>|
                        Next { work: w1, scopes: env1, effect: Effect::Print(v) },
                ),
                Stmt::Var { name, initializer } => match initializer {
                    None => Next {
                        work: w1,
                        scopes: defined(env, name@.lexeme, Val::Nil),
                        effect: Effect::Continue,
                    },
                    Some(e) => after(
                        e,
                        env,
                        |v: Val<N>, env1: Scopes<N>|
                            Next {
                                work: w1,
                                scopes: defined(env1, name@.lexeme, v),
                                effect: Effect::Continue,
                            },
                    ),
                },
                Stmt::Block(stmts) => Next {
                    work: w1.push(Work::Leave) + runs(stmts@),
                    scopes: env.push(Map::empty()),
                    effect: Effect::Continue,
                },
                Stmt::If { condition, then_branch, else_branch } => after(
                    condition,
                    env,
                    |v: Val<N>, env1: Scopes<N>|
                        Next {
                            work: if truthy(v) {
                                w1.push(Work::Run(&*then_branch))
                            } else {
                                match else_branch {
                                    Some(b) => w1.push(Work::Run(&*b)),
                                    None => w1,
                                }
                            },
                            scopes: env1,
                            effect: Effect::Continue,
                        },
                ),
                Stmt::While { condition, body } => after(
                    condition,
                    env,
                    |v: Val<N>, env1: Scopes<N>|
                        Next {
                            work: if truthy(v) {
                                w1.push(w.last()).push(Work::Run(&*body))
                            } else {
                                w1
                            },
                            scopes: env1,
                            effect: Effect::Continue,
                        },
                ),
            },
        }
    }
}

/// Whether the step a caller saw agrees with [`next`]: the state it left
/// and the action it asked for.
pub open spec fn stepped<'a, N: Number>(n: Next<'a, N>, w: Seq<Work<'a>>, env: Scopes<N>, a: Action) -> bool {
    &&& n.work == w
    &&& n.scopes == env
    &&& match (n.effect, a) {
        (Effect::Print(v), Action::Print(text)) => shown(v, text@),
        (Effect::Continue, Action::Continue) => true,
        (Effect::Done, Action::Done) => true,
        (Effect::Fail(e), Action::Fail(err)) => err@ == e,
        _ => false,
    }
}

// ---------------------------------------------------------------------
// Lemmas
// ---------------------------------------------------------------------

proof fn lemma_leaves_push<'a>(w: Seq<Work<'a>>, x: Work<'a>)
    ensures
        leaves(w.push(x)) == leaves(w) + if x is Leave {
            1nat
        } else {
            0nat
        },
{
    assert(w.push(x).drop_last() =~= w);
}

proof fn lemma_all_executable(ss: Seq<Stmt>, i: int)
    requires
        all_executable(ss),
        0 <= i < ss.len(),
    ensures
        executable(ss[i]),
    decreases ss.len(),
{
    if i < ss.len() - 1 {
        lemma_all_executable(ss.drop_last(), i);
    }
}

proof fn lemma_take_view<N>(s: Seq<Map<Seq<char>, Value<N>>>, k: int)
    requires
        0 <= k <= s.len(),
    ensures
        scopes_view(s.take(k)) == scopes_view(s).take(k),
{
    assert(scopes_view(s.take(k)) =~= scopes_view(s).take(k));
}

/// A runtime error ends the program and closes every block still open:
/// nothing is left to do and only the global scope remains, holding what
/// the program assigned before the error.
pub proof fn lemma_failure_returns_to_globals<'a, N: Number>(w: Seq<Work<'a>>, env: Scopes<N>)
    requires
        env.len() >= 1,
    ensures
        next(w, env).effect is Fail ==> {
            &&& next(w, env).work.len() == 0
            &&& next(w, env).scopes.len() == 1
        },
{
    if w.len() > 0 {
        match w.last() {
            Work::Run(s) => match *s {
                Stmt::Expression(e) => lemma_eval_depth(e@, env),
                Stmt::Print(e) => lemma_eval_depth(e@, env),
                Stmt::Var { initializer, .. } => match initializer {
                    Some(e) => lemma_eval_depth(e@, env),
                    None => {},
                },
                Stmt::If { condition, .. } => lemma_eval_depth(condition@, env),
                Stmt::While { condition, .. } => lemma_eval_depth(condition@, env),
                Stmt::Block(_) => {},
            },
            Work::Leave => {},
        }
    }
}

/// A block runs in a scope of its own: entering it adds an empty
/// innermost scope with its statements and a [`Work::Leave`] after them,
/// and leaving it drops exactly that scope, so every variable outside
/// reads as it did before.
pub proof fn lemma_block_scope<'a, N: Number>(
    w: Seq<Work<'a>>,
    s: &'a Stmt,
    env: Scopes<N>,
    inner: Map<Seq<char>, Val<N>>,
)
    requires
        s matches Stmt::Block(_),
    ensures
        next(w.push(Work::Run(s)), env).scopes == env.push(Map::empty()),
        next(w.push(Work::Run(s)), env).work.take(w.len() + 1int) == w.push(Work::Leave),
        next(w.push(Work::Leave), env.push(inner)).scopes == env,
        next(w.push(Work::Leave), env.push(inner)).work == w,
{
    let w2 = w.push(Work::Run(s));
    assert(w2.drop_last() =~= w);
    let w3 = w.push(Work::Leave);
    assert(w3.drop_last() =~= w);
    assert(env.push(inner).drop_last() =~= env);
    match *s {
        Stmt::Block(stmts) => {
            assert((w.push(Work::Leave) + runs::<'a>(stmts@)).take(w.len() + 1int) =~= w.push(
                Work::Leave,
            ));
        },
        _ => {},
    }
}

/// The state after `k` steps of [`next`] from `w` and `env`, with the
/// effect of each step in order.
pub open spec fn steps<'a, N: Number>(w: Seq<Work<'a>>, env: Scopes<N>, k: nat) -> (
    Seq<Work<'a>>,
    Scopes<N>,
    Seq<Effect<N>>,
)
    decreases k,
{
    if k == 0 {
        (w, env, Seq::empty())
    } else {
        let s = steps(w, env, (k - 1) as nat);
        let n = next(s.0, s.1);
        (n.work, n.scopes, s.2.push(n.effect))
    }
}

/// None of `effects` ended the program: each printed or went on.
pub open spec fn kept_going<N>(effects: Seq<Effect<N>>) -> bool {
    forall|i: int| 0 <= i < effects.len() ==> #[trigger] effects[i] is Print || effects[i] is Continue
}

proof fn lemma_leaves_concat<'a>(a: Seq<Work<'a>>, b: Seq<Work<'a>>)
    ensures
        leaves(a + b) == leaves(a) + leaves(b),
    decreases b.len(),
{
    if b.len() == 0 {
        assert(a + b =~= a);
    } else {
        assert((a + b).drop_last() =~= a + b.drop_last());
        assert((a + b).last() == b.last());
        lemma_leaves_concat(a, b.drop_last());
    }
}

proof fn lemma_runs_leave_nothing<'a>(ss: Seq<Stmt>)
    ensures
        leaves(runs::<'a>(ss)) == 0,
    decreases ss.len(),
{
    if ss.len() > 0 {
        let r = runs::<'a>(ss);
        assert(r.drop_last() =~= runs::<'a>(ss.drop_first()));
        lemma_runs_leave_nothing(ss.drop_first());
    }
}

/// The statements of two programs, run as one, are pending as those of
/// the second below those of the first.
proof fn lemma_runs_concat<'a>(first: Seq<Stmt>, second: Seq<Stmt>)
    ensures
        runs::<'a>(first + second) == runs::<'a>(second) + runs::<'a>(first),
{
    let n1 = first.len() as int;
    let n2 = second.len() as int;
    let all = first + second;
    assert forall|i: int| 0 <= i < n1 + n2 implies #[trigger] runs::<'a>(all)[i] == (runs::<'a>(second)
        + runs::<'a>(first))[i] by {
        if i < n2 {
            assert(all[n1 + n2 - 1 - i] == second[n2 - 1 - i]);
        } else {
            assert(all[n1 + n2 - 1 - i] == first[n1 - 1 - (i - n2)]);
        }
    }
    assert(runs::<'a>(all) =~= runs::<'a>(second) + runs::<'a>(first));
}

/// A step that does not end the program touches only the top of the
/// pending work: work below it is carried along unchanged.
proof fn lemma_next_frame<'a, N: Number>(p: Seq<Work<'a>>, w: Seq<Work<'a>>, env: Scopes<N>)
    requires
        w.len() > 0,
        !(next(w, env).effect is Fail),
    ensures
        next(p + w, env) == (Next {
            work: p + next(w, env).work,
            scopes: next(w, env).scopes,
            effect: next(w, env).effect,
        }),
{
    let w1 = w.drop_last();
    assert((p + w).drop_last() =~= p + w1);
    assert((p + w).last() == w.last());
    match w.last() {
        Work::Leave => {},
        Work::Run(s) => match *s {
            Stmt::Block(stmts) => {
                assert((p + w1).push(Work::Leave) + runs(stmts@) =~= p + (w1.push(Work::Leave) + runs(
                    stmts@,
                )));
            },
            Stmt::If { condition, then_branch, else_branch } => {
                assert((p + w1).push(Work::Run(&*then_branch)) =~= p + w1.push(
                    Work::Run(&*then_branch),
                ));
                match else_branch {
                    Some(b) => {
                        assert((p + w1).push(Work::Run(&*b)) =~= p + w1.push(Work::Run(&*b)));
                    },
                    None => {},
                }
            },
            Stmt::While { condition, body } => {
                assert((p + w1).push(w.last()).push(Work::Run(&*body)) =~= p + w1.push(
                    w.last(),
                ).push(Work::Run(&*body)));
            },
            _ => {},
        },
    }
}

/// Every step keeps one scope beyond the global one for each block still
/// open.
proof fn lemma_next_depth<'a, N: Number>(w: Seq<Work<'a>>, env: Scopes<N>)
    requires
        env.len() == 1 + leaves(w),
    ensures
        next(w, env).scopes.len() == 1 + leaves(next(w, env).work),
{
    if w.len() > 0 {
        let w1 = w.drop_last();
        lemma_leaves_push(w1, w.last());
        assert(w1.push(w.last()) =~= w);
        match w.last() {
            Work::Leave => {},
            Work::Run(s) => match *s {
                Stmt::Expression(e) => lemma_eval_depth(e@, env),
                Stmt::Print(e) => lemma_eval_depth(e@, env),
                Stmt::Var { initializer, .. } => match initializer {
                    Some(e) => lemma_eval_depth(e@, env),
                    None => {},
                },
                Stmt::Block(stmts) => {
                    lemma_leaves_push(w1, Work::Leave);
                    lemma_runs_leave_nothing(stmts@);
                    lemma_leaves_concat(w1.push(Work::Leave), runs::<'a>(stmts@));
                },
                Stmt::If { condition, then_branch, else_branch } => {
                    lemma_eval_depth(condition@, env);
                    lemma_leaves_push(w1, Work::Run(&*then_branch));
                    match else_branch {
                        Some(b) => lemma_leaves_push(w1, Work::Run(&*b)),
                        None => {},
                    }
                },
                Stmt::While { condition, body } => {
                    lemma_eval_depth(condition@, env);
                    lemma_leaves_push(w1, w.last());
                    lemma_leaves_push(w1.push(w.last()), Work::Run(&*body));
                },
            },
        }
    }
}

proof fn lemma_steps_depth<'a, N: Number>(w: Seq<Work<'a>>, env: Scopes<N>, k: nat)
    requires
        env.len() == 1 + leaves(w),
    ensures
        steps(w, env, k).1.len() == 1 + leaves(steps(w, env, k).0),
    decreases k,
{
    if k > 0 {
        lemma_steps_depth(w, env, (k - 1) as nat);
        let s = steps(w, env, (k - 1) as nat);
        lemma_next_depth(s.0, s.1);
    }
}

proof fn lemma_steps_count<'a, N: Number>(w: Seq<Work<'a>>, env: Scopes<N>, k: nat)
    ensures
        steps(w, env, k).2.len() == k,
    decreases k,
{
    if k > 0 {
        lemma_steps_count(w, env, (k - 1) as nat);
    }
}

proof fn lemma_steps_frame<'a, N: Number>(p: Seq<Work<'a>>, w: Seq<Work<'a>>, env: Scopes<N>, k: nat)
    requires
        kept_going(steps(w, env, k).2),
    ensures
        steps(p + w, env, k) == (p + steps(w, env, k).0, steps(w, env, k).1, steps(w, env, k).2),
    decreases k,
{
    if k == 0 {
    } else {
        let s = steps(w, env, (k - 1) as nat);
        let n = next(s.0, s.1);
        let all = steps(w, env, k).2;
        lemma_steps_count(w, env, (k - 1) as nat);
        assert(all == s.2.push(n.effect));
        assert(kept_going(s.2)) by {
            assert forall|i: int| 0 <= i < s.2.len() implies #[trigger] s.2[i] is Print
                || s.2[i] is Continue by {
                assert(all[i] == s.2[i]);
            }
        }
        lemma_steps_frame(p, w, env, (k - 1) as nat);
        assert(all[k - 1] == n.effect);
        assert(n.effect is Print || n.effect is Continue);
        assert(s.0.len() > 0);
        lemma_next_frame(p, s.0, s.1);
    }
}

/// Running one program and then, once it has finished, another (as the
/// interpreter does with programs in turn, carrying the global variables
/// over) goes through the same states and effects as running both as one
/// program: for as long as the first program keeps going, the combined run
/// is the first program's run with the second program's statements
/// pending below; and once the first has finished, started from the
/// global scope alone, the combined run stands where a fresh start of the
/// second program on the first one's globals does.
pub proof fn lemma_programs_in_sequence<'a, N: Number>(
    first: Seq<Stmt>,
    second: Seq<Stmt>,
    env: Scopes<N>,
    k: nat,
)
    requires
        kept_going(steps(runs::<'a>(first), env, k).2),
    ensures
        steps(runs::<'a>(first + second), env, k) == (
            runs::<'a>(second) + steps(runs::<'a>(first), env, k).0,
            steps(runs::<'a>(first), env, k).1,
            steps(runs::<'a>(first), env, k).2,
        ),
        env.len() == 1 && steps(runs::<'a>(first), env, k).0.len() == 0 ==> steps(
            runs::<'a>(first + second),
            env,
            k,
        ) == (
            runs::<'a>(second),
            seq![steps(runs::<'a>(first), env, k).1[0]],
            steps(runs::<'a>(first), env, k).2,
        ),
{
    lemma_runs_concat(first, second);
    lemma_steps_frame(runs::<'a>(second), runs::<'a>(first), env, k);
    let s = steps(runs::<'a>(first), env, k);
    if env.len() == 1 && s.0.len() == 0 {
        lemma_runs_leave_nothing(first);
        lemma_steps_depth(runs::<'a>(first), env, k);
        assert(s.1 =~= seq![s.1[0]]);
        assert(runs::<'a>(second) + s.0 =~= runs::<'a>(second));
    }
}

/// What each statement does when its expression evaluates to `v` (with
/// variables `env1` afterwards): `print` asks for `v` to be shown and
/// goes on; `var` binds the name to `v` in the innermost scope, so that it
/// reads `v` (`nil` when there is no initializer); `if` goes on with its
/// then-branch exactly when `v` is neither `nil` nor `false`, else with
/// its else-branch if it has one; `while` runs its body and then itself
/// again exactly when `v` is neither `nil` nor `false`, and otherwise is
/// done. An expression that fails stops the program with its error.
pub proof fn lemma_statement_laws<'a, N: Number>(w: Seq<Work<'a>>, s: &'a Stmt, env: Scopes<N>)
    requires
        env.len() >= 1,
    ensures
        ({
            let out = next(w.push(Work::Run(s)), env);
            &&& s matches Stmt::Print(e) ==> (eval(e@, env).0 matches Ok(v) ==> out == (Next {
                work: w,
                scopes: eval(e@, env).1,
                effect: Effect::Print(v),
            }))
            &&& s matches Stmt::Var { name, initializer } ==> match initializer {
                None => lookup(out.scopes, name@.lexeme) == Some(Val::<N>::Nil) && out.work == w
                    && out.scopes.len() == env.len() && out.scopes.last()[name@.lexeme] == Val::<N>::Nil
                    && out.scopes.drop_last() == env.drop_last(),
                Some(e) => eval(e@, env).0 matches Ok(v) ==> lookup(out.scopes, name@.lexeme) == Some(v)
                    && out.work == w && out.scopes.len() == env.len() && out.scopes.last()[name@.lexeme] == v
                    && out.scopes.drop_last() == eval(e@, env).1.drop_last(),
            }
            &&& s matches Stmt::If { condition, then_branch, else_branch } ==> (eval(condition@, env).0 matches Ok(v)
                ==> out.work == if v != Val::<N>::Nil && v != Val::<N>::Bool(false) {
                w.push(Work::Run(&*then_branch))
            } else {
                match else_branch {
                    Some(b) => w.push(Work::Run(&*b)),
                    None => w,
                }
            })
            &&& s matches Stmt::While { condition, body } ==> (eval(condition@, env).0 matches Ok(v)
                ==> out.work == if v != Val::<N>::Nil && v != Val::<N>::Bool(false) {
                w.push(Work::Run(s)).push(Work::Run(&*body))
            } else {
                w
            })
            &&& s matches Stmt::Print(e) ==> (eval(e@, env).0 matches Err(x) ==> out.effect == Effect::<N>::Fail(x)
                && out.work.len() == 0)
        }),
{
    let w2 = w.push(Work::Run(s));
    assert(w2.drop_last() =~= w);
    assert(w2.last() == Work::Run(s));
    match *s {
        Stmt::Var { name, initializer } => {
            let e1 = match initializer {
                Some(e) => {
                    lemma_eval_depth(e@, env);
                    eval(e@, env).1
                },
                None => env,
            };
            let v: Val<N> = match initializer {
                Some(e) => match eval(e@, env).0 {
                    Ok(x) => x,
                    Err(_) => Val::Nil,
                },
                None => Val::Nil,
            };
            let d = defined(e1, name@.lexeme, v);
            assert(d.last() == e1.last().insert(name@.lexeme, v));
            assert(d.last().contains_key(name@.lexeme));
            assert(d.drop_last() =~= e1.drop_last());
        },
        _ => {},
    }
}

// ---------------------------------------------------------------------
// Executable
// ---------------------------------------------------------------------

/// What one step asks of the caller.
#[derive(Debug, PartialEq)]
pub enum Action {
    /// Write this line of `print` output.
    Print(String),
    /// Nothing to show; step again.
    Continue,
    /// The program has ended.
    Done,
    /// The program stopped with this runtime error.
    Fail(LoxError),
}

/// Whether every operator of `e` stands where the parser puts it.
pub fn check_expr(e: &Expr) -> (b: bool)
    ensures
        b == evaluable(e@),
    decreases e,
{
    match e {
        Expr::Assign { value, .. } => check_expr(value),
        Expr::Binary { left, op, right } => {
            let ok = match op.ttype {
                TokenType::Plus | TokenType::Minus | TokenType::Star | TokenType::Slash
                | TokenType::Greater | TokenType::GreaterEqual | TokenType::Less
                | TokenType::LessEqual | TokenType::EqualEqual | TokenType::BangEqual => true,
                _ => false,
            };
            ok && check_expr(left) && check_expr(right)
        },
        Expr::Grouping(inner) => check_expr(inner),
        Expr::Literal(_) => true,
        Expr::Logical { left, op, right } => {
            let ok = match op.ttype {
                TokenType::And | TokenType::Or => true,
                _ => false,
            };
            ok && check_expr(left) && check_expr(right)
        },
        Expr::Unary { op, right } => {
            let ok = match op.ttype {
                TokenType::Bang | TokenType::Minus => true,
                _ => false,
            };
            ok && check_expr(right)
        },
        Expr::Variable(_) => true,
    }
}

/// Whether every expression of `s` can be evaluated.
pub fn check_stmt(s: &Stmt) -> (b: bool)
    ensures
        b == executable(*s),
    decreases s, 1int,
{
    match s {
        Stmt::Expression(e) => check_expr(e),
        Stmt::Print(e) => check_expr(e),
        Stmt::Var { initializer, .. } => match initializer {
            Some(e) => check_expr(e),
            None => true,
        },
        Stmt::Block(stmts) => check_program(stmts.as_slice()),
        Stmt::If { condition, then_branch, else_branch } => {
            check_expr(condition) && check_stmt(then_branch) && match else_branch {
                Some(b) => check_stmt(b),
                None => true,
            }
        },
        Stmt::While { condition, body } => check_expr(condition) && check_stmt(body),
    }
}

/// Whether every statement of a program can be run.
pub fn check_program(program: &[Stmt]) -> (b: bool)
    ensures
        b == all_executable(program@),
    decreases program@, 0int,
{
    let mut i: usize = 0;
    let mut ok = true;
    assert(program@.take(0) =~= Seq::<Stmt>::empty());
    while i < program.len()
        invariant
            i <= program@.len(),
            ok == all_executable(program@.take(i as int)),
        decreases program@.len() - i,
    {
        assert(program@.take(i + 1).drop_last() =~= program@.take(i as int));
        proof {
            assert(decreases_to!(program@ => program@[i as int]));
        }
        let here = check_stmt(&program[i]);
        ok = ok && here;
        i = i + 1;
    }
    assert(program@.take(i as int) =~= program@);
    ok
}


/// Drop the pending work after a runtime error, leaving every block still
/// open.
fn unwind<'a, N: Copy>(env: &mut Environment<Value<N>>, work: &mut Vec<Work<'a>>)
    requires
        old(env)@.len() == 1 + leaves(old(work)@),
    ensures
        final(work)@.len() == 0,
        final(env)@ == old(env)@.take(1),
{
    let ghost start = env@;
    assert(start.take(start.len() as int) =~= start);
    while work.len() > 0
        invariant
            env@.len() == 1 + leaves(work@),
            env@ == start.take(env@.len() as int),
            env@.len() <= start.len(),
        decreases work@.len(),
    {
        let ghost w = work@;
        let item = work.pop();
        proof {
            lemma_leaves_push(w.drop_last(), w.last());
            assert(w.drop_last().push(w.last()) =~= w);
        }
        match item {
            Some(Work::Leave) => {
                let ghost before = env@;
                env.pop();
                assert(env@ =~= start.take(env@.len() as int));
            },
            _ => {},
        }
    }
    assert(leaves(work@) == 0);
}

/// Do the next piece of work.
fn advance<'a, N: Number>(env: &mut Environment<Value<N>>, work: &mut Vec<Work<'a>>) -> (a: Action)
    requires
        old(env)@.len() == 1 + leaves(old(work)@),
        runnable(old(work)@),
    ensures
        final(env)@.len() == 1 + leaves(final(work)@),
        runnable(final(work)@),
        stepped(next(old(work)@, scopes_view(old(env)@)), final(work)@, scopes_view(final(env)@), a),
{
    let ghost w0 = work@;
    let ghost raw0 = env@;
    let ghost e0 = scopes_view(env@);
    let item = match work.pop() {
        None => {
            assert(stepped(next(w0, e0), work@, scopes_view(env@), Action::Done));
            return Action::Done;
        },
        Some(it) => it,
    };
    let ghost w1 = work@;
    proof {
        assert(w1 =~= w0.drop_last());
        lemma_leaves_push(w1, item);
        assert(w1.push(item) =~= w0);
        assert(runnable(w1)) by {
            assert forall|i: int| 0 <= i < w1.len() implies (#[trigger] w1[i] matches Work::Run(
                s,
            ) ==> executable(*s)) by {
                assert(w1[i] == w0[i]);
            }
        }
        assert(item == w0[w0.len() - 1]);
    }
    match item {
        Work::Leave => {
            env.pop();
            proof {
                assert(scopes_view(env@) =~= e0.drop_last());
                assert(stepped(next(w0, e0), work@, scopes_view(env@), Action::Continue));
            }
            Action::Continue
        },
        Work::Run(s) => {
            assert(executable(*s));
            advance_run(env, work, s, Ghost(w0))
        },
    }
}


/// Evaluate `e`; on a runtime error, abandon the pending work.
fn eval_or_fail<'a, N: Number>(
    e: &Expr,
    env: &mut Environment<Value<N>>,
    work: &mut Vec<Work<'a>>,
) -> (r: Result<Value<N>, LoxError>)
    requires
        evaluable(e@),
        old(env)@.len() == 1 + leaves(old(work)@),
    ensures
        eval(e@, scopes_view(old(env)@)).0 == result_view(r),
        match r {
            Ok(v) => {
                &&& eval(e@, scopes_view(old(env)@)).1 == scopes_view(final(env)@)
                &&& final(work)@ == old(work)@
                &&& final(env)@.len() == old(env)@.len()
            },
            Err(err) => {
                &&& eval(e@, scopes_view(old(env)@)).1.take(1) == scopes_view(final(env)@)
                &&& final(work)@ == Seq::<Work<'a>>::empty()
                &&& final(env)@.len() == 1
            },
        },
{
    let ghost e0 = scopes_view(env@);
    let r = evaluate_in(e, env);
    proof {
        lemma_eval_depth(e@, e0);
    }
    match r {
        Ok(v) => Ok(v),
        Err(err) => {
            let ghost raw1 = env@;
            unwind(env, work);
            proof {
                lemma_take_view(raw1, 1);
                assert(work@ =~= Seq::<Work<'a>>::empty());
            }
            Err(err)
        },
    }
}

/// Run the statement `s`, the work item just taken from `w0`.
fn advance_run<'a, N: Number>(
    env: &mut Environment<Value<N>>,
    work: &mut Vec<Work<'a>>,
    s: &'a Stmt,
    Ghost(w0): Ghost<Seq<Work<'a>>>,
) -> (a: Action)
    requires
        w0.len() > 0,
        old(work)@ == w0.drop_last(),
        w0.last() == Work::Run(s),
        old(env)@.len() == 1 + leaves(old(work)@),
        runnable(old(work)@),
        executable(*s),
    ensures
        final(env)@.len() == 1 + leaves(final(work)@),
        runnable(final(work)@),
        stepped(next(w0, scopes_view(old(env)@)), final(work)@, scopes_view(final(env)@), a),
{
    let ghost w1 = work@;
    let ghost e0 = scopes_view(env@);
    match s {
        Stmt::Expression(e) => {
            let r = eval_or_fail(e, env, work);
            match r {
                Ok(_) => {
                    assert(stepped(next(w0, e0), work@, scopes_view(env@), Action::Continue));
                    Action::Continue
                },
                Err(err) => {
                    let a = Action::Fail(err);
                    assert(stepped(next(w0, e0), work@, scopes_view(env@), a));
                    a
                },
            }
        },
        Stmt::Print(e) => {
            let r = eval_or_fail(e, env, work);
            match r {
                Ok(v) => {
                    let a = Action::Print(stringify_value(&v));
                    assert(stepped(next(w0, e0), work@, scopes_view(env@), a));
                    a
                },
                Err(err) => {
                    let a = Action::Fail(err);
                    assert(stepped(next(w0, e0), work@, scopes_view(env@), a));
                    a
                },
            }
        },
        Stmt::Var { name, initializer } => {
            let v = match initializer {
                None => Value::Nil,
                Some(e) => {
                    let r = eval_or_fail(e, env, work);
                    match r {
                        Ok(v) => v,
                        Err(err) => {
                            let a = Action::Fail(err);
                            assert(stepped(next(w0, e0), work@, scopes_view(env@), a));
                            return a;
                        },
                    }
                },
            };
            let ghost e1 = scopes_view(env@);
            let ghost raw1 = env@;
            env.define(name.lexeme.as_str(), v);
            proof {
                assert(scopes_view(env@) =~= crate::interpreter::statements::defined(
                    e1,
                    name@.lexeme,
                    v@,
                )) by {
                    assert(raw1.last().insert(name@.lexeme, v).map_values(|x: Value<N>| x@)
                        =~= e1.last().insert(name@.lexeme, v@));
                }
            }
            assert(stepped(next(w0, e0), work@, scopes_view(env@), Action::Continue));
            Action::Continue
        },
        Stmt::Block(stmts) => {
            env.push();
            work.push(Work::Leave);
            proof {
                lemma_leaves_push(w1, Work::Leave);
            }
            let ghost base = work@;
            let ghost ss = stmts@;
            let n = stmts.len();
            let mut i = n;
            assert(runs::<'a>(ss).take(0) =~= Seq::<Work<'a>>::empty());
            assert(base + runs::<'a>(ss).take(0) =~= base);
            while i > 0
                invariant
                    i <= n,
                    n == ss.len(),
                    ss == stmts@,
                    all_executable(ss),
                    work@ == base + runs::<'a>(ss).take(n - i),
                    leaves(work@) == leaves(base),
                    runnable(work@),
                decreases i,
            {
                i = i - 1;
                let ghost before = work@;
                work.push(Work::Run(&stmts[i]));
                proof {
                    lemma_leaves_push(before, Work::Run(&stmts@[i as int]));
                    lemma_all_executable(ss, i as int);
                    assert(runs::<'a>(ss).take(n - i) =~= runs::<'a>(ss).take(n - i - 1).push(
                        Work::Run(&ss[i as int]),
                    ));
                    assert(work@ =~= base + runs::<'a>(ss).take(n - i));
                    assert forall|k: int| 0 <= k < work@.len() implies (
                    #[trigger] work@[k] matches Work::Run(t) ==> executable(*t)) by {
                        if k < before.len() {
                            assert(work@[k] == before[k]);
                        }
                    }
                }
            }
            proof {
                assert(runs::<'a>(ss).take(n as int) =~= runs::<'a>(ss));
                assert(scopes_view(env@) =~= e0.push(Map::empty())) by {
                    assert(env@.last().map_values(|x: Value<N>| x@) =~= Map::<Seq<char>, Val<N>>::empty());
                }
            }
            assert(stepped(next(w0, e0), work@, scopes_view(env@), Action::Continue));
            Action::Continue
        },
        Stmt::If { condition, then_branch, else_branch } => {
            let r = eval_or_fail(condition, env, work);
            match r {
                Ok(v) => {
                    if is_truthy(&v) {
                        work.push(Work::Run(&**then_branch));
                        proof {
                            lemma_leaves_push(w1, Work::Run(&**then_branch));
                        }
                    } else {
                        match else_branch {
                            Some(b) => {
                                work.push(Work::Run(&**b));
                                proof {
                                    lemma_leaves_push(w1, Work::Run(&**b));
                                }
                            },
                            None => {},
                        }
                    }
                    proof {
                        assert forall|k: int| 0 <= k < work@.len() implies (
                        #[trigger] work@[k] matches Work::Run(t) ==> executable(*t)) by {
                            if k < w1.len() {
                                assert(work@[k] == w1[k]);
                            }
                        }
                    }
                    assert(stepped(next(w0, e0), work@, scopes_view(env@), Action::Continue));
                    Action::Continue
                },
                Err(err) => {
                    let a = Action::Fail(err);
                    assert(stepped(next(w0, e0), work@, scopes_view(env@), a));
                    a
                },
            }
        },
        Stmt::While { condition, body } => {
            let r = eval_or_fail(condition, env, work);
            match r {
                Ok(v) => {
                    if is_truthy(&v) {
                        work.push(Work::Run(s));
                        work.push(Work::Run(&**body));
                        proof {
                            lemma_leaves_push(w1, Work::Run(s));
                            lemma_leaves_push(w1.push(Work::Run(s)), Work::Run(&**body));
                        }
                    }
                    proof {
                        assert forall|k: int| 0 <= k < work@.len() implies (
                        #[trigger] work@[k] matches Work::Run(t) ==> executable(*t)) by {
                            if k < w1.len() {
                                assert(work@[k] == w1[k]);
                            }
                        }
                    }
                    assert(stepped(next(w0, e0), work@, scopes_view(env@), Action::Continue));
                    Action::Continue
                },
                Err(err) => {
                    let a = Action::Fail(err);
                    assert(stepped(next(w0, e0), work@, scopes_view(env@), a));
                    a
                },
            }
        },
    }
}

/// The interpreter between programs: the global variables, which persist
/// from one program to the next (as they do across REPL lines).
pub struct Interpreter<N> {
    env: Environment<Value<N>>,
}

impl<N> Interpreter<N> {
    /// Between programs only the global scope exists.
    #[verifier::type_invariant]
    closed spec fn only_globals(&self) -> bool {
        self.env@.len() == 1
    }

    /// The global variables.
    pub closed spec fn globals(&self) -> Map<Seq<char>, Val<N>> {
        scopes_view(self.env@)[0]
    }
}

impl<N: Number> Interpreter<N> {
    /// An interpreter with no variables defined.
    pub fn new() -> (i: Self)
        ensures
            i.globals() == Map::<Seq<char>, Val<N>>::empty(),
    {
        let env = Environment::new();
        proof {
            assert(env@[0].map_values(|x: Value<N>| x@) =~= Map::<Seq<char>, Val<N>>::empty());
        }
        Interpreter { env }
    }

    /// Begin running `program`; its statements run in order, against the
    /// global variables.
    pub fn start<'a>(self, program: &'a [Stmt]) -> (x: Execution<'a, N>)
        requires
            all_executable(program@),
        ensures
            x.pending() == runs::<'a>(program@),
            x.scopes() == seq![self.globals()],
    {
        proof {
            use_type_invariant(&self);
        }
        let Interpreter { env } = self;
        let ghost ss = program@;
        let n = program.len();
        let mut work: Vec<Work<'a>> = Vec::new();
        let mut i = n;
        assert(runs::<'a>(ss).take(0) =~= Seq::<Work<'a>>::empty());
        while i > 0
            invariant
                i <= n,
                n == ss.len(),
                ss == program@,
                all_executable(ss),
                work@ == runs::<'a>(ss).take(n - i),
                leaves(work@) == 0,
                runnable(work@),
            decreases i,
        {
            i = i - 1;
            let ghost before = work@;
            work.push(Work::Run(&program[i]));
            proof {
                lemma_leaves_push(before, Work::Run(&ss[i as int]));
                lemma_all_executable(ss, i as int);
                assert(work@ =~= runs::<'a>(ss).take(n - i));
                assert forall|k: int| 0 <= k < work@.len() implies (#[trigger] work@[k] matches Work::Run(
                    t,
                ) ==> executable(*t)) by {
                    if k < before.len() {
                        assert(work@[k] == before[k]);
                    }
                }
            }
        }
        proof {
            assert(runs::<'a>(ss).take(n as int) =~= runs::<'a>(ss));
            assert(scopes_view(env@) =~= seq![scopes_view(env@)[0]]);
        }
        Execution { env, work }
    }
}

/// A program being run: the variables, and the pending work with the
/// next item last.
pub struct Execution<'a, N> {
    env: Environment<Value<N>>,
    work: Vec<Work<'a>>,
}

impl<'a, N> Execution<'a, N> {
    /// One scope beyond the global one for every block still open, and
    /// every pending statement can be run.
    #[verifier::type_invariant]
    closed spec fn consistent(&self) -> bool {
        &&& self.env@.len() == 1 + leaves(self.work@)
        &&& runnable(self.work@)
    }

    /// The pending work, next item last.
    pub closed spec fn pending(&self) -> Seq<Work<'a>> {
        self.work@
    }

    /// The variables, innermost scope last.
    pub closed spec fn scopes(&self) -> Scopes<N> {
        scopes_view(self.env@)
    }
}

impl<'a, N: Number> Execution<'a, N> {
    /// Do the next piece of work and say what the caller is to do; the
    /// new state and the action are those [`next`] gives.
    pub fn step(&mut self) -> (a: Action)
        ensures
            stepped(next(old(self).pending(), old(self).scopes()), final(self).pending(), final(self).scopes(), a),
    {
        proof {
            use_type_invariant(&*self);
        }
        let ghost w0 = self.work@;
        let ghost e0 = scopes_view(self.env@);
        let mut current = Execution { env: Environment::new(), work: Vec::new() };
        std::mem::swap(self, &mut current);
        let Execution { mut env, mut work } = current;
        assert(work@ == w0 && scopes_view(env@) == e0);
        let a = advance(&mut env, &mut work);
        *self = Execution { env, work };
        assert(stepped(next(w0, e0), self.pending(), self.scopes(), a));
        assert(old(self).pending() == w0);
        assert(old(self).scopes() == e0);
        assert(final(self).pending() == self.pending());
        a
    }

    /// Stop running: the pending work is dropped with every block scope
    /// still open, and the global variables are kept.
    pub fn finish(self) -> (i: Interpreter<N>)
        ensures
            i.globals() == self.scopes()[0],
    {
        proof {
            use_type_invariant(&self);
        }
        let Execution { mut env, mut work } = self;
        let ghost raw = env@;
        unwind(&mut env, &mut work);
        Interpreter { env }
    }
}

} // verus!
