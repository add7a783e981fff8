//! The parenthesised prefix form of syntax trees, as in the book's AST
//! printer: `(+ (group (- 5.0 (group (- 3.0 1.0)))) (- 1.0))`.
//!
//! An operator node shows as its lexeme followed by its operands, a
//! grouping as `group`, an assignment as `=`; statements show as `;`,
//! `print`, `var`, `block`, `if` and `while` forms. Number literals show as
//! the number type shows them ([`Number::show`]). The specification
//! describes the text as [`Piece`]s: literal characters, and number
//! literals, which [`fill`] turns into text.

use vstd::prelude::*;

use crate::ast::{Expr, ExprV, Stmt, Value, ValueV};
use crate::number::Number;

verus! {

/// Part of a printed tree.
pub enum Piece {
    /// These characters.
    Text(Seq<char>),
    /// The number whose literal text this is, as the number type shows it.
    Number(Seq<char>),
}

/// The text of the pieces, each number literal shown as the number type
/// shows the number it denotes.
pub open spec fn fill<N: Number>(ps: Seq<Piece>) -> Seq<char>
    decreases ps.len(),
{
    if ps.len() == 0 {
        Seq::empty()
    } else {
        fill::<N>(ps.drop_last()) + match ps.last() {
            Piece::Text(t) => t,
            Piece::Number(t) => N::spec_from_literal(t).spec_show(),
        }
    }
}

pub open spec fn text(t: Seq<char>) -> Seq<Piece> {
    seq![Piece::Text(t)]
}

/// A literal value: `nil`, `true`, `false`, a string's contents unquoted,
/// or a number.
pub open spec fn value_pieces(v: ValueV) -> Seq<Piece> {
    match v {
        ValueV::Nil => text("nil"@),
        ValueV::Bool(b) => text(
            if b {
                "true"@
            } else {
                "false"@
            },
        ),
        ValueV::Number(t) => seq![Piece::Number(t)],
        ValueV::Str(s) => text(s),
    }
}

/// An expression in prefix form.
pub open spec fn expr_pieces(e: ExprV) -> Seq<Piece>
    decreases e,
{
    match e {
        ExprV::Assign { name, value } => text("(= "@ + name.lexeme + " "@) + expr_pieces(*value)
            + text(")"@),
        ExprV::Binary { left, op, right } => text("("@ + op.lexeme + " "@) + expr_pieces(*left)
            + text(" "@) + expr_pieces(*right) + text(")"@),
        ExprV::Grouping(inner) => text("(group "@) + expr_pieces(*inner) + text(")"@),
        ExprV::Literal(v) => value_pieces(v),
        ExprV::Logical { left, op, right } => text("("@ + op.lexeme + " "@) + expr_pieces(*left)
            + text(" "@) + expr_pieces(*right) + text(")"@),
        ExprV::Unary { op, right } => text("("@ + op.lexeme + " "@) + expr_pieces(*right) + text(
            ")"@,
        ),
        ExprV::Variable(name) => text(name.lexeme),
    }
}

/// A statement in prefix form.
pub open spec fn stmt_pieces(s: Stmt) -> Seq<Piece>
    decreases s, 1int,
{
    match s {
        Stmt::Expression(e) => text("(; "@) + expr_pieces(e@) + text(")"@),
        Stmt::Print(e) => text("(print "@) + expr_pieces(e@) + text(")"@),
        Stmt::Var { name, initializer } => match initializer {
            Some(e) => text("(var "@ + name@.lexeme + " "@) + expr_pieces(e@) + text(")"@),
            None => text("(var "@ + name@.lexeme + ")"@),
        },
        Stmt::Block(stmts) => text("(block"@) + block_pieces(stmts@) + text(")"@),
        Stmt::If { condition, then_branch, else_branch } => text("(if "@) + expr_pieces(
            condition@,
        ) + text(" "@) + stmt_pieces(*then_branch) + match else_branch {
            Some(b) => text(" "@) + stmt_pieces(*b),
            None => Seq::empty(),
        } + text(")"@),
        Stmt::While { condition, body } => text("(while "@) + expr_pieces(condition@) + text(" "@)
            + stmt_pieces(*body) + text(")"@),
    }
}

/// The statements of a block, each after a space.
pub open spec fn block_pieces(ss: Seq<Stmt>) -> Seq<Piece>
    decreases ss, 0int,
{
    if ss.len() == 0 {
        Seq::empty()
    } else {
        block_pieces(ss.drop_last()) + text(" "@) + stmt_pieces(ss.last())
    }
}

/// Pieces written one after the other print as the two texts one after
/// the other.
pub proof fn lemma_fill_concat<N: Number>(p1: Seq<Piece>, p2: Seq<Piece>)
    ensures
        fill::<N>(p1 + p2) == fill::<N>(p1) + fill::<N>(p2),
    decreases p2.len(),
{
    if p2.len() == 0 {
        assert(p1 + p2 =~= p1);
        assert(fill::<N>(p2) == Seq::<char>::empty());
        assert(fill::<N>(p1) + fill::<N>(p2) =~= fill::<N>(p1));
    } else {
        let q = p2.drop_last();
        assert((p1 + p2).drop_last() =~= p1 + q);
        assert((p1 + p2).last() == p2.last());
        lemma_fill_concat::<N>(p1, q);
        let tail = match p2.last() {
            Piece::Text(t) => t,
            Piece::Number(t) => N::spec_from_literal(t).spec_show(),
        };
        assert(fill::<N>(p1 + p2) =~= fill::<N>(p1) + fill::<N>(q) + tail);
    }
}

/// Text already written, followed by more pieces, is the text of all the
/// pieces.
proof fn lemma_extend<N: Number>(base: Seq<char>, ps: Seq<Piece>, more: Seq<Piece>)
    ensures
        (base + fill::<N>(ps)) + fill::<N>(more) == base + fill::<N>(ps + more),
{
    lemma_fill_concat::<N>(ps, more);
    assert((base + fill::<N>(ps)) + fill::<N>(more) =~= base + (fill::<N>(ps) + fill::<N>(more)));
}

/// A piece on its own stands for its text.
proof fn lemma_one<N: Number>(x: Piece)
    ensures
        fill::<N>(seq![x]) == match x {
            Piece::Text(t) => t,
            Piece::Number(t) => N::spec_from_literal(t).spec_show(),
        },
{
    let e = Seq::<Piece>::empty();
    assert(seq![x].drop_last() =~= e);
    assert(fill::<N>(e) == Seq::<char>::empty());
    assert(seq![x].last() == x);
    let tail = match x {
        Piece::Text(t) => t,
        Piece::Number(t) => N::spec_from_literal(t).spec_show(),
    };
    assert(Seq::<char>::empty() + tail =~= tail);
}

/// Append `t` to `out`, where `out` holds `base` and the text of `ps`.
fn put<N: Number>(out: &mut String, t: &str, Ghost(base): Ghost<Seq<char>>, Ghost(ps): Ghost<Seq<Piece>>)
    requires
        old(out)@ == base + fill::<N>(ps),
    ensures
        final(out)@ == base + fill::<N>(ps + text(t@)),
{
    out.append(t);
    proof {
        lemma_one::<N>(Piece::Text(t@));
        lemma_extend::<N>(base, ps, text(t@));
    }
}

/// Write an expression in prefix form.
fn write_expr<N: Number>(e: &Expr, out: &mut String)
    ensures
        final(out)@ == old(out)@ + fill::<N>(expr_pieces(e@)),
    decreases e,
{
    let ghost base = out@;
    let ghost mut ps = Seq::<Piece>::empty();
    assert(out@ =~= base + fill::<N>(ps));
    match e {
        Expr::Literal(v) => {
            match v {
                Value::Number(t) => {
                    let shown_text = N::from_literal(t.as_str()).show();
                    out.append(shown_text.as_str());
                    proof {
                        let p = seq![Piece::Number(t@)];
                        lemma_one::<N>(Piece::Number(t@));
                        lemma_extend::<N>(base, ps, p);
                        ps = ps + p;
                    }
                },
                Value::Nil => {
                    put::<N>(out, "nil", Ghost(base), Ghost(ps));
                    proof {
                        ps = ps + text("nil"@);
                    }
                },
                Value::Bool(b) => {
                    let word = if *b {
                        "true"
                    } else {
                        "false"
                    };
                    put::<N>(out, word, Ghost(base), Ghost(ps));
                    proof {
                        ps = ps + text(word@);
                    }
                },
                Value::String(x) => {
                    put::<N>(out, x.as_str(), Ghost(base), Ghost(ps));
                    proof {
                        ps = ps + text(x@);
                    }
                },
            }
        },
        Expr::Variable(name) => {
            put::<N>(out, name.lexeme.as_str(), Ghost(base), Ghost(ps));
            proof {
                ps = ps + text(name@.lexeme);
            }
        },
        Expr::Grouping(inner) => {
            put::<N>(out, "(group ", Ghost(base), Ghost(ps));
            proof {
                ps = ps + text("(group "@);
            }
            write_expr::<N>(inner, out);
            proof {
                lemma_extend::<N>(base, ps, expr_pieces(inner@));
                ps = ps + expr_pieces(inner@);
            }
            put::<N>(out, ")", Ghost(base), Ghost(ps));
            proof {
                ps = ps + text(")"@);
            }
        },
        Expr::Unary { op, right } => {
            let mut head = String::from_str("(");
            head.append(op.lexeme.as_str());
            head.append(" ");
            put::<N>(out, head.as_str(), Ghost(base), Ghost(ps));
            proof {
                ps = ps + text(head@);
            }
            write_expr::<N>(right, out);
            proof {
                lemma_extend::<N>(base, ps, expr_pieces(right@));
                ps = ps + expr_pieces(right@);
            }
            put::<N>(out, ")", Ghost(base), Ghost(ps));
            proof {
                ps = ps + text(")"@);
            }
        },
        Expr::Assign { name, value } => {
            let mut head = String::from_str("(= ");
            head.append(name.lexeme.as_str());
            head.append(" ");
            put::<N>(out, head.as_str(), Ghost(base), Ghost(ps));
            proof {
                ps = ps + text(head@);
            }
            write_expr::<N>(value, out);
            proof {
                lemma_extend::<N>(base, ps, expr_pieces(value@));
                ps = ps + expr_pieces(value@);
            }
            put::<N>(out, ")", Ghost(base), Ghost(ps));
            proof {
                ps = ps + text(")"@);
            }
        },
        Expr::Binary { left, op, right } | Expr::Logical { left, op, right } => {
            let mut head = String::from_str("(");
            head.append(op.lexeme.as_str());
            head.append(" ");
            put::<N>(out, head.as_str(), Ghost(base), Ghost(ps));
            proof {
                ps = ps + text(head@);
            }
            write_expr::<N>(left, out);
            proof {
                lemma_extend::<N>(base, ps, expr_pieces(left@));
                ps = ps + expr_pieces(left@);
            }
            put::<N>(out, " ", Ghost(base), Ghost(ps));
            proof {
                ps = ps + text(" "@);
            }
            write_expr::<N>(right, out);
            proof {
                lemma_extend::<N>(base, ps, expr_pieces(right@));
                ps = ps + expr_pieces(right@);
            }
            put::<N>(out, ")", Ghost(base), Ghost(ps));
            proof {
                ps = ps + text(")"@);
            }
        },
    }
    proof {
        assert(ps =~= expr_pieces(e@));
    }
}


/// Write a statement in prefix form.
fn write_stmt<N: Number>(st: &Stmt, out: &mut String)
    ensures
        final(out)@ == old(out)@ + fill::<N>(stmt_pieces(*st)),
    decreases st, 1int,
{
    let ghost base = out@;
    let ghost mut ps = Seq::<Piece>::empty();
    assert(out@ =~= base + fill::<N>(ps));
    match st {
        Stmt::Expression(e) | Stmt::Print(e) => {
            let head = match st {
                Stmt::Expression(_) => "(; ",
                _ => "(print ",
            };
            put::<N>(out, head, Ghost(base), Ghost(ps));
            proof {
                ps = ps + text(head@);
            }
            write_expr::<N>(e, out);
            proof {
                lemma_extend::<N>(base, ps, expr_pieces(e@));
                ps = ps + expr_pieces(e@);
            }
            put::<N>(out, ")", Ghost(base), Ghost(ps));
            proof {
                ps = ps + text(")"@);
            }
        },
        Stmt::Var { name, initializer } => {
            let mut head = String::from_str("(var ");
            head.append(name.lexeme.as_str());
            match initializer {
                Some(e) => {
                    head.append(" ");
                    put::<N>(out, head.as_str(), Ghost(base), Ghost(ps));
                    proof {
                        ps = ps + text(head@);
                    }
                    write_expr::<N>(e, out);
                    proof {
                        lemma_extend::<N>(base, ps, expr_pieces(e@));
                        ps = ps + expr_pieces(e@);
                    }
                    put::<N>(out, ")", Ghost(base), Ghost(ps));
                    proof {
                        ps = ps + text(")"@);
                    }
                },
                None => {
                    head.append(")");
                    put::<N>(out, head.as_str(), Ghost(base), Ghost(ps));
                    proof {
                        ps = ps + text(head@);
                    }
                },
            }
        },
        Stmt::Block(stmts) => {
            put::<N>(out, "(block", Ghost(base), Ghost(ps));
            proof {
                ps = ps + text("(block"@);
            }
            write_block::<N>(stmts.as_slice(), out);
            proof {
                lemma_extend::<N>(base, ps, block_pieces(stmts@));
                ps = ps + block_pieces(stmts@);
            }
            put::<N>(out, ")", Ghost(base), Ghost(ps));
            proof {
                ps = ps + text(")"@);
            }
        },
        Stmt::If { condition, then_branch, else_branch } => {
            put::<N>(out, "(if ", Ghost(base), Ghost(ps));
            proof {
                ps = ps + text("(if "@);
            }
            write_expr::<N>(condition, out);
            proof {
                lemma_extend::<N>(base, ps, expr_pieces(condition@));
                ps = ps + expr_pieces(condition@);
            }
            put::<N>(out, " ", Ghost(base), Ghost(ps));
            proof {
                ps = ps + text(" "@);
            }
            write_stmt::<N>(then_branch, out);
            proof {
                lemma_extend::<N>(base, ps, stmt_pieces(**then_branch));
                ps = ps + stmt_pieces(**then_branch);
            }
            match else_branch {
                Some(b) => {
                    put::<N>(out, " ", Ghost(base), Ghost(ps));
                    proof {
                        ps = ps + text(" "@);
                    }
                    write_stmt::<N>(b, out);
                    proof {
                        lemma_extend::<N>(base, ps, stmt_pieces(**b));
                        ps = ps + stmt_pieces(**b);
                    }
                },
                None => {},
            }
            put::<N>(out, ")", Ghost(base), Ghost(ps));
            proof {
                ps = ps + text(")"@);
            }
        },
        Stmt::While { condition, body } => {
            put::<N>(out, "(while ", Ghost(base), Ghost(ps));
            proof {
                ps = ps + text("(while "@);
            }
            write_expr::<N>(condition, out);
            proof {
                lemma_extend::<N>(base, ps, expr_pieces(condition@));
                ps = ps + expr_pieces(condition@);
            }
            put::<N>(out, " ", Ghost(base), Ghost(ps));
            proof {
                ps = ps + text(" "@);
            }
            write_stmt::<N>(body, out);
            proof {
                lemma_extend::<N>(base, ps, stmt_pieces(**body));
                ps = ps + stmt_pieces(**body);
            }
            put::<N>(out, ")", Ghost(base), Ghost(ps));
            proof {
                ps = ps + text(")"@);
            }
        },
    }
    proof {
        assert(ps =~= stmt_pieces(*st));
    }
}

/// Write the statements of a block, each after a space.
fn write_block<N: Number>(stmts: &[Stmt], out: &mut String)
    ensures
        final(out)@ == old(out)@ + fill::<N>(block_pieces(stmts@)),
    decreases stmts@, 0int,
{
    let ghost base = out@;
    let mut i: usize = 0;
    assert(stmts@.take(0) =~= Seq::<Stmt>::empty());
    assert(out@ =~= base + fill::<N>(block_pieces(stmts@.take(0))));
    while i < stmts.len()
        invariant
            i <= stmts@.len(),
            out@ == base + fill::<N>(block_pieces(stmts@.take(i as int))),
        decreases stmts@.len() - i,
    {
        let ghost ps = block_pieces(stmts@.take(i as int));
        put::<N>(out, " ", Ghost(base), Ghost(ps));
        proof {
            assert(decreases_to!(stmts@ => stmts@[i as int]));
        }
        write_stmt::<N>(&stmts[i], out);
        proof {
            lemma_extend::<N>(base, ps + text(" "@), stmt_pieces(stmts@[i as int]));
            let next = stmts@.take(i + 1);
            assert(next.drop_last() =~= stmts@.take(i as int));
            assert(next.last() == stmts@[i as int]);
        }
        i = i + 1;
    }
    assert(stmts@.take(i as int) =~= stmts@);
}

impl Expr {
    /// The expression in prefix form, e.g. `(* (- 1.0) (group 2.5))`.
    pub fn render<N: Number>(&self) -> (s: String)
        ensures
            s@ == fill::<N>(expr_pieces(self@)),
    {
        let mut out = String::new();
        write_expr::<N>(self, &mut out);
        assert(Seq::<char>::empty() + fill::<N>(expr_pieces(self@)) =~= fill::<N>(
            expr_pieces(self@),
        ));
        out
    }
}

impl Stmt {
    /// The statement in prefix form, e.g. `(block (var a 1.0) (print a))`.
    pub fn render<N: Number>(&self) -> (s: String)
        ensures
            s@ == fill::<N>(stmt_pieces(*self)),
    {
        let mut out = String::new();
        write_stmt::<N>(self, &mut out);
        assert(Seq::<char>::empty() + fill::<N>(stmt_pieces(*self)) =~= fill::<N>(
            stmt_pieces(*self),
        ));
        out
    }
}

impl Value {
    /// The literal as the tree printer shows it: `nil`, `true`, `false`,
    /// a string's contents unquoted, a number as [`Number::show`] writes it.
    pub fn render<N: Number>(&self) -> (s: String)
        ensures
            s@ == fill::<N>(value_pieces(self@)),
    {
        let e = Expr::Literal(self.clone());
        e.render::<N>()
    }
}


/// Every node prints in prefix form: an operator node as `(`, its
/// operator, then its operands left to right, each after a space, then
/// `)`; a grouping as `(group ...)`; an assignment as `(= name ...)`; a
/// variable as its name; a literal as `nil`, `true`, `false`, its
/// string's characters or its number as the number type shows it.
pub proof fn lemma_prefix_form<N: Number>(e: ExprV)
    ensures
        e matches ExprV::Binary { left, op, right } ==> fill::<N>(expr_pieces(e)) == "("@ + op.lexeme
            + " "@ + fill::<N>(expr_pieces(*left)) + " "@ + fill::<N>(expr_pieces(*right)) + ")"@,
        e matches ExprV::Logical { left, op, right } ==> fill::<N>(expr_pieces(e)) == "("@ + op.lexeme
            + " "@ + fill::<N>(expr_pieces(*left)) + " "@ + fill::<N>(expr_pieces(*right)) + ")"@,
        e matches ExprV::Unary { op, right } ==> fill::<N>(expr_pieces(e)) == "("@ + op.lexeme + " "@
            + fill::<N>(expr_pieces(*right)) + ")"@,
        e matches ExprV::Grouping(inner) ==> fill::<N>(expr_pieces(e)) == "(group "@ + fill::<N>(
            expr_pieces(*inner),
        ) + ")"@,
        e matches ExprV::Assign { name, value } ==> fill::<N>(expr_pieces(e)) == "(= "@ + name.lexeme
            + " "@ + fill::<N>(expr_pieces(*value)) + ")"@,
        e matches ExprV::Variable(name) ==> fill::<N>(expr_pieces(e)) == name.lexeme,
        e == ExprV::Literal(ValueV::Nil) ==> fill::<N>(expr_pieces(e)) == "nil"@,
        e == ExprV::Literal(ValueV::Bool(true)) ==> fill::<N>(expr_pieces(e)) == "true"@,
        e == ExprV::Literal(ValueV::Bool(false)) ==> fill::<N>(expr_pieces(e)) == "false"@,
        e matches ExprV::Literal(ValueV::Str(s)) ==> fill::<N>(expr_pieces(e)) == s,
        e matches ExprV::Literal(ValueV::Number(t)) ==> fill::<N>(expr_pieces(e)) == N::spec_from_literal(
            t,
        ).spec_show(),
{

    match e {
        ExprV::Binary { left, op, right } => {
            lemma_binaryish::<N>(op.lexeme, *left, *right);
        },
        ExprV::Logical { left, op, right } => {
            lemma_binaryish::<N>(op.lexeme, *left, *right);
        },
        ExprV::Unary { op, right } => {
            let a = text("("@ + op.lexeme + " "@);
            let b = expr_pieces(*right);
            let c = text(")"@);
            lemma_fill_concat::<N>(a, b);
            lemma_fill_concat::<N>(a + b, c);
            lemma_text_fill::<N>("("@ + op.lexeme + " "@);
            lemma_text_fill::<N>(")"@);
        },
        ExprV::Grouping(inner) => {
            let a = text("(group "@);
            let b = expr_pieces(*inner);
            let c = text(")"@);
            lemma_fill_concat::<N>(a, b);
            lemma_fill_concat::<N>(a + b, c);
            lemma_text_fill::<N>("(group "@);
            lemma_text_fill::<N>(")"@);
        },
        ExprV::Assign { name, value } => {
            let a = text("(= "@ + name.lexeme + " "@);
            let b = expr_pieces(*value);
            let c = text(")"@);
            lemma_fill_concat::<N>(a, b);
            lemma_fill_concat::<N>(a + b, c);
            lemma_text_fill::<N>("(= "@ + name.lexeme + " "@);
            lemma_text_fill::<N>(")"@);
        },
        ExprV::Variable(name) => lemma_text_fill::<N>(name.lexeme),
        ExprV::Literal(v) => {
            match v {
                ValueV::Nil => lemma_text_fill::<N>("nil"@),
                ValueV::Bool(b) => {
                    lemma_text_fill::<N>("true"@);
                    lemma_text_fill::<N>("false"@);
                },
                ValueV::Str(s) => lemma_text_fill::<N>(s),
                ValueV::Number(t) => {
                    lemma_one::<N>(Piece::Number(t));
                },
            }
        },
    }
}

proof fn lemma_text_fill<N: Number>(t: Seq<char>)
    ensures
        fill::<N>(text(t)) == t,
{
    lemma_one::<N>(Piece::Text(t));
}

proof fn lemma_binaryish<N: Number>(op: Seq<char>, left: ExprV, right: ExprV)
    ensures
        fill::<N>(text("("@ + op + " "@) + expr_pieces(left) + text(" "@) + expr_pieces(right) + text(")"@))
            == "("@ + op + " "@ + fill::<N>(expr_pieces(left)) + " "@ + fill::<N>(expr_pieces(right)) + ")"@,
{
    let a = text("("@ + op + " "@);
    let b = expr_pieces(left);
    let c = text(" "@);
    let d = expr_pieces(right);
    let f = text(")"@);
    lemma_fill_concat::<N>(a, b);
    lemma_fill_concat::<N>(a + b, c);
    lemma_fill_concat::<N>(a + b + c, d);
    lemma_fill_concat::<N>(a + b + c + d, f);
    lemma_text_fill::<N>("("@ + op + " "@);
    lemma_text_fill::<N>(" "@);
    lemma_text_fill::<N>(")"@);
    assert(fill::<N>(a + b + c + d + f) =~= "("@ + op + " "@ + fill::<N>(b) + " "@ + fill::<N>(d) + ")"@);
}

} // verus!
