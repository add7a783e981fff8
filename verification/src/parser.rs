//! Pratt parser for Lox expressions.
//!
//! The grammar is specified by [`p_expr`]: operator binding powers give
//! equality the loosest binding, then comparison, then `+`/`-`, then
//! `*`/`/`, with the prefix operators `!` and `-` binding tightest; all
//! binary operators associate to the left. The same specification drives
//! the bytecode compiler, so both back ends read a source the same way.

use vstd::prelude::*;

use crate::ast::{Expr, ExprV, Value, ValueV};
use crate::error::{parse_error_v, LoxError, LoxErrorV};
use crate::scanner::{
    lemma_scan_from_shape, lemma_trailing_eof, literal_fits, scan_events, scanned_tokens,
};
use crate::token::{Literal, LiteralV, Token, TokenType, TokenV};

verus! {

// ---------------------------------------------------------------------
// Specification
// ---------------------------------------------------------------------

/// Binding power of the operand of a prefix operator.
pub open spec fn prefix_power(t: TokenType) -> Option<u8> {
    if t == TokenType::Bang || t == TokenType::Minus {
        Some(10u8)
    } else {
        None
    }
}

/// Left and right binding powers of an infix operator.
pub open spec fn infix_power(t: TokenType) -> Option<(u8, u8)> {
    if t == TokenType::EqualEqual || t == TokenType::BangEqual {
        Some((3u8, 4u8))
    } else if t == TokenType::Greater || t == TokenType::GreaterEqual || t == TokenType::Less || t
        == TokenType::LessEqual {
        Some((5u8, 6u8))
    } else if t == TokenType::Plus || t == TokenType::Minus {
        Some((7u8, 8u8))
    } else if t == TokenType::Slash || t == TokenType::Star {
        Some((9u8, 10u8))
    } else {
        None
    }
}

/// Tokens that form a literal expression on their own.
pub open spec fn is_atom(t: TokenType) -> bool {
    t == TokenType::False || t == TokenType::True || t == TokenType::Nil || t == TokenType::Number
        || t == TokenType::String
}

pub open spec fn expect_expression_msg() -> Seq<char> {
    "Expect expression."@
}

pub open spec fn expect_close_msg() -> Seq<char> {
    "Expect ')' after expression."@
}

pub open spec fn expect_end_msg() -> Seq<char> {
    "Expect end of expression."@
}

/// A parse tree over token positions.
pub enum Node {
    /// A literal, at the given token index.
    Atom(int),
    /// A parenthesised expression; the second field is the index of `)`.
    Group(Box<Node>, int),
    /// A prefix operator at the given index applied to an operand.
    Prefix(int, Box<Node>),
    /// A binary operator at the given index between two operands.
    Infix(Box<Node>, int, Box<Node>),
}

/// Index of the last token of a parse tree.
pub open spec fn last_tok(n: Node) -> int
    decreases n,
{
    match n {
        Node::Atom(k) => k,
        Node::Group(_, c) => c,
        Node::Prefix(_, r) => last_tok(*r),
        Node::Infix(_, _, r) => last_tok(*r),
    }
}

/// Outcome of parsing from a position: the tree and the index just past it,
/// or the index of the offending token and the message.
pub type PRes = Result<(Node, int), (int, Seq<char>)>;

/// An expression whose operators all bind at least as tightly as `min`,
/// starting at token `i`.
pub open spec fn p_expr(ts: Seq<TokenV>, i: int, min: u8) -> PRes
    decreases ts.len() - i, 2int,
{
    if !(0 <= i < ts.len()) {
        Err((i, expect_expression_msg()))
    } else if prefix_power(ts[i].ttype) is Some {
        match p_expr(ts, i + 1, 10u8) {
            Ok((r, j)) => if i < j <= ts.len() {
                p_loop(ts, Node::Prefix(i, Box::new(r)), j, min)
            } else {
                Err((j, expect_expression_msg()))
            },
            Err(e) => Err(e),
        }
    } else {
        match p_atom(ts, i) {
            Ok((a, j)) => if i < j <= ts.len() {
                p_loop(ts, a, j, min)
            } else {
                Err((j, expect_expression_msg()))
            },
            Err(e) => Err(e),
        }
    }
}

/// A literal or a parenthesised expression at token `i`.
pub open spec fn p_atom(ts: Seq<TokenV>, i: int) -> PRes
    decreases ts.len() - i, 1int,
{
    if !(0 <= i < ts.len()) {
        Err((i, expect_expression_msg()))
    } else if is_atom(ts[i].ttype) {
        Ok((Node::Atom(i), i + 1))
    } else if ts[i].ttype == TokenType::LeftParen {
        match p_expr(ts, i + 1, 0u8) {
            Ok((inner, j)) => if 0 <= j < ts.len() && ts[j].ttype != TokenType::Eof && ts[j].ttype
                == TokenType::RightParen {
                Ok((Node::Group(Box::new(inner), j), j + 1))
            } else {
                Err((j, expect_close_msg()))
            },
            Err(e) => Err(e),
        }
    } else {
        Err((i, expect_expression_msg()))
    }
}

/// Extend `lhs` with infix operators at or after token `j` that bind at
/// least as tightly as `min`, left-associatively.
pub open spec fn p_loop(ts: Seq<TokenV>, lhs: Node, j: int, min: u8) -> PRes
    decreases ts.len() - j, 0int,
{
    if 0 <= j < ts.len() {
        match infix_power(ts[j].ttype) {
            Some((l, r)) => if l >= min {
                match p_expr(ts, j + 1, r) {
                    Ok((rhs, k)) => if j < k <= ts.len() {
                        p_loop(ts, Node::Infix(Box::new(lhs), j, Box::new(rhs)), k, min)
                    } else {
                        Err((k, expect_expression_msg()))
                    },
                    Err(e) => Err(e),
                }
            } else {
                Ok((lhs, j))
            },
            None => Ok((lhs, j)),
        }
    } else {
        Ok((lhs, j))
    }
}

/// The literal value a literal token denotes.
pub open spec fn literal_value(t: TokenV) -> ValueV {
    if t.ttype == TokenType::False {
        ValueV::Bool(false)
    } else if t.ttype == TokenType::True {
        ValueV::Bool(true)
    } else if t.ttype == TokenType::Nil {
        ValueV::Nil
    } else {
        match t.literal {
            Some(LiteralV::Number(s)) => ValueV::Number(s),
            Some(LiteralV::Str(s)) => ValueV::Str(s),
            None => ValueV::Nil,
        }
    }
}

/// The expression a parse tree denotes.
pub open spec fn to_expr(ts: Seq<TokenV>, n: Node) -> ExprV
    decreases n,
{
    match n {
        Node::Atom(k) => ExprV::Literal(literal_value(ts[k])),
        Node::Group(inner, _) => ExprV::Grouping(Box::new(to_expr(ts, *inner))),
        Node::Prefix(k, r) => ExprV::Unary { op: ts[k], right: Box::new(to_expr(ts, *r)) },
        Node::Infix(l, k, r) => ExprV::Binary {
            left: Box::new(to_expr(ts, *l)),
            op: ts[k],
            right: Box::new(to_expr(ts, *r)),
        },
    }
}

/// The tree of a whole-input expression: it must be followed by `EOF`.
pub open spec fn parse_tree(ts: Seq<TokenV>) -> PRes {
    match p_expr(ts, 0, 0u8) {
        Ok((n, j)) => if 0 <= j < ts.len() && ts[j].ttype == TokenType::Eof {
            Ok((n, j))
        } else {
            Err((j, expect_end_msg()))
        },
        Err(e) => Err(e),
    }
}

/// What [`parse`] returns for a token sequence.
pub open spec fn spec_parse(ts: Seq<TokenV>) -> Result<ExprV, LoxErrorV> {
    match parse_tree(ts) {
        Ok((n, _)) => Ok(to_expr(ts, n)),
        Err((at, msg)) => Err(parse_error_v(ts[at], msg)),
    }
}

/// Token sequences the parser accepts as input: non-empty, terminated by
/// `EOF`, and with a literal payload on every number and string token (as
/// the scanner produces them).
pub open spec fn parsable(ts: Seq<TokenV>) -> bool {
    &&& ts.len() > 0
    &&& ts.last().ttype == TokenType::Eof
    &&& forall|k: int|
        0 <= k < ts.len() && (#[trigger] ts[k].ttype == TokenType::Number || ts[k].ttype
            == TokenType::String) ==> ts[k].literal is Some
}

/// No token in `ts[i..j]` is `EOF`.
pub open spec fn no_eof_between(ts: Seq<TokenV>, i: int, j: int) -> bool {
    forall|k: int| i <= k < j ==> #[trigger] ts[k].ttype != TokenType::Eof
}

/// Parsing never consumes `EOF`, always consumes something on success, and
/// reports errors at real token positions.
pub proof fn lemma_p_expr(ts: Seq<TokenV>, i: int, min: u8)
    requires
        parsable(ts),
        0 <= i < ts.len(),
    ensures
        p_expr(ts, i, min) matches Ok((n, j)) ==> i < j < ts.len() && no_eof_between(ts, i, j)
            && last_tok(n) == j - 1,
        p_expr(ts, i, min) matches Err((at, m)) ==> 0 <= at < ts.len(),
    decreases ts.len() - i, 2int,
{
    if prefix_power(ts[i].ttype) is Some {
        assert(ts[i].ttype != TokenType::Eof);
        if i + 1 >= ts.len() {
            assert(ts.last() == ts[i]);
        } else {
            lemma_p_expr(ts, i + 1, 10u8);
            match p_expr(ts, i + 1, 10u8) {
                Ok((r, j)) => {
                    lemma_p_loop(ts, Node::Prefix(i, Box::new(r)), j, min);
                },
                Err(_) => {},
            }
        }
    } else {
        lemma_p_atom(ts, i);
        match p_atom(ts, i) {
            Ok((a, j)) => {
                lemma_p_loop(ts, a, j, min);
            },
            Err(_) => {},
        }
    }
}

pub proof fn lemma_p_atom(ts: Seq<TokenV>, i: int)
    requires
        parsable(ts),
        0 <= i < ts.len(),
    ensures
        p_atom(ts, i) matches Ok((n, j)) ==> i < j < ts.len() && no_eof_between(ts, i, j)
            && last_tok(n) == j - 1,
        p_atom(ts, i) matches Err((at, m)) ==> 0 <= at < ts.len(),
    decreases ts.len() - i, 1int,
{
    let t = ts[i].ttype;
    if is_atom(t) {
        if i + 1 >= ts.len() {
            assert(ts.last() == ts[i]);
        }
    } else if t == TokenType::LeftParen {
        if i + 1 >= ts.len() {
            assert(ts.last() == ts[i]);
        } else {
            lemma_p_expr(ts, i + 1, 0u8);
            match p_expr(ts, i + 1, 0u8) {
                Ok((inner, j)) => {
                    if 0 <= j < ts.len() && ts[j].ttype != TokenType::Eof && ts[j].ttype
                        == TokenType::RightParen {
                        if j + 1 >= ts.len() {
                            assert(ts.last() == ts[j]);
                        }
                    }
                },
                Err(_) => {},
            }
        }
    }
}

pub proof fn lemma_p_loop(ts: Seq<TokenV>, lhs: Node, j: int, min: u8)
    requires
        parsable(ts),
        0 <= j < ts.len(),
        last_tok(lhs) == j - 1,
    ensures
        p_loop(ts, lhs, j, min) matches Ok((n, k)) ==> j <= k < ts.len() && no_eof_between(ts, j, k)
            && last_tok(n) == k - 1,
        p_loop(ts, lhs, j, min) matches Err((at, m)) ==> 0 <= at < ts.len(),
    decreases ts.len() - j, 0int,
{
    match infix_power(ts[j].ttype) {
        Some((l, r)) => {
            if l >= min {
                assert(ts[j].ttype != TokenType::Eof);
                if j + 1 >= ts.len() {
                    assert(ts.last() == ts[j]);
                } else {
                    lemma_p_expr(ts, j + 1, r);
                    match p_expr(ts, j + 1, r) {
                        Ok((rhs, k)) => {
                            lemma_p_loop(ts, Node::Infix(Box::new(lhs), j, Box::new(rhs)), k, min);
                        },
                        Err(_) => {},
                    }
                }
            }
        },
        None => {},
    }
}

/// A whole-input parse either yields a tree ending just before an `EOF`
/// token or reports an error at a real token.
pub proof fn lemma_parse_tree(ts: Seq<TokenV>)
    requires
        parsable(ts),
    ensures
        parse_tree(ts) matches Ok((n, j)) ==> 0 <= j < ts.len() && ts[j].ttype == TokenType::Eof,
        parse_tree(ts) matches Err((at, m)) ==> 0 <= at < ts.len(),
{
    lemma_p_expr(ts, 0, 0u8);
}

/// Every token sequence the scanner produces is an input the parser
/// accepts.
pub proof fn lemma_scanned_tokens_parsable(source: Seq<char>)
    ensures
        parsable(scanned_tokens(source)),
{
    lemma_trailing_eof(source);
    lemma_scan_from_shape(source, 0, 1);
    let ts = scanned_tokens(source);
    assert(ts == crate::scanner::ok_events(scan_events(source)));
    assert forall|k: int|
        0 <= k < ts.len() && (#[trigger] ts[k].ttype == TokenType::Number || ts[k].ttype
            == TokenType::String) implies ts[k].literal is Some by {
        assert(literal_fits(ts[k]));
    }
}

// ---------------------------------------------------------------------
// Executable parser
// ---------------------------------------------------------------------

pub open spec fn toks_view(v: Seq<Token>) -> Seq<TokenV> {
    v.map_values(|t: Token| t@)
}

/// A cursor into the token slice.
struct Pos<'t> {
    toks: &'t [Token],
    i: usize,
}

impl<'t> Pos<'t> {
    spec fn ts(&self) -> Seq<TokenV> {
        toks_view(self.toks@)
    }

    fn new(toks: &'t [Token]) -> (p: Pos<'t>)
        ensures
            p.toks == toks,
            p.i == 0,
    {
        Pos { toks, i: 0 }
    }

    fn head(&self) -> (t: &'t Token)
        requires
            self.i < self.toks@.len(),
        ensures
            *t == self.toks@[self.i as int],
            t@ == self.ts()[self.i as int],
    {
        &self.toks[self.i]
    }

    fn eof(&self) -> (b: bool)
        requires
            self.i < self.toks@.len(),
        ensures
            b == (self.ts()[self.i as int].ttype == TokenType::Eof),
    {
        self.head().ttype == TokenType::Eof
    }

    fn bump(&mut self)
        requires
            old(self).i < old(self).toks@.len(),
        ensures
            final(self).i == old(self).i + 1,
            final(self).toks == old(self).toks,
    {
        let n = self.toks.len();
        assert(self.i < n);
        self.i = self.i + 1;
    }
}

/// Binding power of the operand of a prefix operator.
fn prefix_bp(t: TokenType) -> (r: Option<u8>)
    ensures
        r == prefix_power(t),
{
    if t == TokenType::Bang || t == TokenType::Minus {
        Some(10)
    } else {
        None
    }
}

/// Left and right binding powers of an infix operator.
fn infix_bp(t: TokenType) -> (r: Option<(u8, u8)>)
    ensures
        r == infix_power(t),
{
    let pair = match t {
        TokenType::EqualEqual | TokenType::BangEqual => (3, 4),
        TokenType::Greater | TokenType::GreaterEqual | TokenType::Less | TokenType::LessEqual => (
            5,
            6,
        ),
        TokenType::Plus | TokenType::Minus => (7, 8),
        TokenType::Slash | TokenType::Star => (9, 10),
        _ => return None,
    };
    Some(pair)
}

/// The value carried by the literal payload of a number or string token.
fn lit_value(lit: &Option<Literal>) -> (v: Value)
    requires
        lit is Some,
    ensures
        v@ == match lit.unwrap()@ {
            LiteralV::Number(s) => ValueV::Number(s),
            LiteralV::Str(s) => ValueV::Str(s),
        },
{
    match lit {
        Some(Literal::Number(n)) => Value::Number(n.clone()),
        Some(Literal::String(s)) => Value::String(s.clone()),
        None => Value::Nil,
    }
}

/// Consume a `want` token or report `msg` at the current token.
fn expect(p: &mut Pos<'_>, want: TokenType, msg: &str) -> (r: Result<(), LoxError>)
    requires
        old(p).i < old(p).toks@.len(),
        want != TokenType::Eof,
    ensures
        final(p).toks == old(p).toks,
        ({
            let t = old(p).ts()[old(p).i as int];
            if t.ttype == want {
                r is Ok && final(p).i == old(p).i + 1
            } else {
                r matches Err(e) && e@ == parse_error_v(t, msg@)
            }
        }),
{
    if !p.eof() && p.head().ttype == want {
        p.bump();
        Ok(())
    } else {
        Err(LoxError::parse(p.head(), msg))
    }
}

/// Outcome of an executable parse against the specification result.
spec fn parsed_as(ts: Seq<TokenV>, spec_r: PRes, r: Result<Expr, LoxError>, end: usize) -> bool {
    match spec_r {
        Ok((n, j)) => r matches Ok(e) && e@ == to_expr(ts, n) && end == j,
        Err((at, m)) => r matches Err(x) && x@ == parse_error_v(ts[at], m),
    }
}

fn parse_atom(p: &mut Pos<'_>) -> (r: Result<Expr, LoxError>)
    requires
        parsable(old(p).ts()),
        old(p).i < old(p).toks@.len(),
    ensures
        final(p).toks == old(p).toks,
        parsed_as(old(p).ts(), p_atom(old(p).ts(), old(p).i as int), r, final(p).i),
    decreases old(p).toks@.len() - old(p).i, 1int,
{
    let ghost ts = p.ts();
    let ghost i = p.i as int;
    proof {
        lemma_p_atom(ts, i);
    }
    let tok = p.head();
    let value = match tok.ttype {
        TokenType::False => Value::Bool(false),
        TokenType::True => Value::Bool(true),
        TokenType::Nil => Value::Nil,
        TokenType::Number | TokenType::String => {
            assert(ts[i].ttype == TokenType::Number || ts[i].ttype == TokenType::String);
            lit_value(&tok.literal)
        },
        TokenType::LeftParen => {
            p.bump();
            if p.i >= p.toks.len() {
                proof {
                    assert(ts.last() == ts[i]);
                }
            }
            proof {
                lemma_p_expr(ts, i + 1, 0u8);
            }
            let inner = match parse_bp(p, 0) {
                Ok(e) => e,
                Err(e) => {
                    return Err(e);
                },
            };
            match expect(p, TokenType::RightParen, "Expect ')' after expression.") {
                Ok(()) => {},
                Err(e) => {
                    return Err(e);
                },
            }
            return Ok(Expr::Grouping(Box::new(inner)));
        },
        _ => {
            return Err(LoxError::parse(tok, "Expect expression."));
        },
    };
    p.bump();
    Ok(Expr::Literal(value))
}

fn parse_bp(p: &mut Pos<'_>, min_bp: u8) -> (r: Result<Expr, LoxError>)
    requires
        parsable(old(p).ts()),
        old(p).i < old(p).toks@.len(),
    ensures
        final(p).toks == old(p).toks,
        parsed_as(old(p).ts(), p_expr(old(p).ts(), old(p).i as int, min_bp), r, final(p).i),
    decreases old(p).toks@.len() - old(p).i, 2int,
{
    let ghost ts = p.ts();
    let ghost i0 = p.i as int;
    proof {
        lemma_p_expr(ts, i0, min_bp);
    }
    let head_ty = p.head().ttype;
    let ghost mut node: Node;
    let mut lhs = if let Some(rbp) = prefix_bp(head_ty) {
        let op = p.head().clone();
        p.bump();
        if p.i >= p.toks.len() {
            proof {
                assert(ts.last() == ts[i0]);
            }
        }
        proof {
            lemma_p_expr(ts, i0 + 1, 10u8);
        }
        let right = match parse_bp(p, rbp) {
            Ok(e) => e,
            Err(e) => {
                return Err(e);
            },
        };
        proof {
            let (rn, j) = p_expr(ts, i0 + 1, 10u8)->Ok_0;
            assert(p.i == j);
            assert(i0 + 1 < j < ts.len());
            node = Node::Prefix(i0, Box::new(rn));
            assert(p_expr(ts, i0, min_bp) == p_loop(ts, node, j, min_bp));
        }
        Expr::Unary { op, right: Box::new(right) }
    } else {
        let a = match parse_atom(p) {
            Ok(e) => e,
            Err(e) => {
                return Err(e);
            },
        };
        proof {
            lemma_p_atom(ts, i0);
            let (an, j) = p_atom(ts, i0)->Ok_0;
            assert(p.i == j);
            node = an;
            assert(p_expr(ts, i0, min_bp) == p_loop(ts, node, j, min_bp));
        }
        a
    };
    loop
        invariant
            p.toks == old(p).toks,
            ts == p.ts(),
            i0 == old(p).i,
            parsable(ts),
            i0 < p.i < ts.len(),
            lhs@ == to_expr(ts, node),
            last_tok(node) == p.i - 1,
            p_expr(ts, i0, min_bp) == p_loop(ts, node, p.i as int, min_bp),
        ensures
            p.toks == old(p).toks,
            p_expr(ts, i0, min_bp) == Ok::<(Node, int), (int, Seq<char>)>((node, p.i as int)),
            lhs@ == to_expr(ts, node),
        decreases ts.len() - p.i,
    {
        let ghost j = p.i as int;
        proof {
            lemma_p_loop(ts, node, j, min_bp);
        }
        let (lbp, rbp) = match infix_bp(p.head().ttype) {
            Some(pair) => pair,
            None => {
                break;
            },
        };
        if lbp < min_bp {
            break;
        }
        let op = p.head().clone();
        p.bump();
        if p.i >= p.toks.len() {
            proof {
                assert(ts.last() == ts[j]);
            }
        }
        proof {
            lemma_p_expr(ts, j + 1, rbp);
        }
        let rhs = match parse_bp(p, rbp) {
            Ok(e) => e,
            Err(e) => {
                return Err(e);
            },
        };
        proof {
            let (rn, k) = p_expr(ts, j + 1, rbp)->Ok_0;
            node = Node::Infix(Box::new(node), j, Box::new(rn));
        }
        lhs = Expr::Binary { left: Box::new(lhs), op, right: Box::new(rhs) };
    }
    Ok(lhs)
}

/// Parse a token sequence produced by [`crate::scanner::scan`] into an
/// expression AST. The whole input up to `EOF` must form one expression.
pub fn parse(tokens: &[Token]) -> (r: Result<Expr, LoxError>)
    requires
        parsable(toks_view(tokens@)),
    ensures
        match spec_parse(toks_view(tokens@)) {
            Ok(e) => r matches Ok(x) && x@ == e,
            Err(e) => r matches Err(x) && x@ == e,
        },
{
    let ghost ts = toks_view(tokens@);
    proof {
        lemma_parse_tree(ts);
        lemma_p_expr(ts, 0, 0u8);
    }
    let mut p = Pos::new(tokens);
    let expr = match parse_bp(&mut p, 0) {
        Ok(e) => e,
        Err(e) => {
            return Err(e);
        },
    };
    if !p.eof() {
        return Err(LoxError::parse(p.head(), "Expect end of expression."));
    }
    Ok(expr)
}


// ---------------------------------------------------------------------
// Laws of the grammar
// ---------------------------------------------------------------------

/// How tightly a binary operator binds: equality loosest, then
/// comparison, then `+` and `-`, then `*` and `/`; `0` for a token that is
/// no binary operator.
pub open spec fn op_rank(t: TokenType) -> int {
    if t == TokenType::EqualEqual || t == TokenType::BangEqual {
        1
    } else if t == TokenType::Greater || t == TokenType::GreaterEqual || t == TokenType::Less
        || t == TokenType::LessEqual {
        2
    } else if t == TokenType::Plus || t == TokenType::Minus {
        3
    } else if t == TokenType::Star || t == TokenType::Slash {
        4
    } else {
        0
    }
}

/// Binary operators group by how tightly they bind and, when they bind
/// alike, to the left: `a o1 b o2 c` is `a o1 (b o2 c)` when `o2` binds
/// more tightly than `o1`, and `(a o1 b) o2 c` otherwise.
pub proof fn lemma_binary_grouping(ts: Seq<TokenV>)
    requires
        ts.len() == 6,
        is_atom(ts[0].ttype),
        is_atom(ts[2].ttype),
        is_atom(ts[4].ttype),
        op_rank(ts[1].ttype) > 0,
        op_rank(ts[3].ttype) > 0,
        ts[5].ttype == TokenType::Eof,
    ensures
        parse_tree(ts) == if op_rank(ts[3].ttype) > op_rank(ts[1].ttype) {
            Ok::<(Node, int), (int, Seq<char>)>(
                (
                    Node::Infix(
                        Box::new(Node::Atom(0)),
                        1,
                        Box::new(Node::Infix(Box::new(Node::Atom(2)), 3, Box::new(Node::Atom(4)))),
                    ),
                    5,
                ),
            )
        } else {
            Ok::<(Node, int), (int, Seq<char>)>(
                (
                    Node::Infix(
                        Box::new(Node::Infix(Box::new(Node::Atom(0)), 1, Box::new(Node::Atom(2)))),
                        3,
                        Box::new(Node::Atom(4)),
                    ),
                    5,
                ),
            )
        },
{
    let (l1, r1) = infix_power(ts[1].ttype)->Some_0;
    let (l2, r2) = infix_power(ts[3].ttype)->Some_0;
    let a0 = Node::Atom(0);
    let a2 = Node::Atom(2);
    let a4 = Node::Atom(4);
    assert(p_atom(ts, 4) == Ok::<(Node, int), (int, Seq<char>)>((a4, 5)));
    assert(p_atom(ts, 2) == Ok::<(Node, int), (int, Seq<char>)>((a2, 3)));
    assert(p_atom(ts, 0) == Ok::<(Node, int), (int, Seq<char>)>((a0, 1)));
    assert(infix_power(ts[5].ttype) is None);
    assert(p_expr(ts, 4, r2) == Ok::<(Node, int), (int, Seq<char>)>((a4, 5))) by {
        assert(p_loop(ts, a4, 5, r2) == Ok::<(Node, int), (int, Seq<char>)>((a4, 5)));
    }
    if op_rank(ts[3].ttype) > op_rank(ts[1].ttype) {
        assert(l2 >= r1);
        let inner = Node::Infix(Box::new(a2), 3, Box::new(a4));
        assert(p_loop(ts, inner, 5, r1) == Ok::<(Node, int), (int, Seq<char>)>((inner, 5)));
        assert(p_loop(ts, a2, 3, r1) == Ok::<(Node, int), (int, Seq<char>)>((inner, 5)));
        assert(p_expr(ts, 2, r1) == Ok::<(Node, int), (int, Seq<char>)>((inner, 5)));
        let whole = Node::Infix(Box::new(a0), 1, Box::new(inner));
        assert(p_loop(ts, whole, 5, 0) == Ok::<(Node, int), (int, Seq<char>)>((whole, 5)));
        assert(p_loop(ts, a0, 1, 0) == Ok::<(Node, int), (int, Seq<char>)>((whole, 5)));
        assert(p_expr(ts, 0, 0) == Ok::<(Node, int), (int, Seq<char>)>((whole, 5)));
    } else {
        assert(l2 < r1);
        assert(p_loop(ts, a2, 3, r1) == Ok::<(Node, int), (int, Seq<char>)>((a2, 3)));
        assert(p_expr(ts, 2, r1) == Ok::<(Node, int), (int, Seq<char>)>((a2, 3)));
        let left = Node::Infix(Box::new(a0), 1, Box::new(a2));
        let whole = Node::Infix(Box::new(left), 3, Box::new(a4));
        assert(p_loop(ts, whole, 5, 0) == Ok::<(Node, int), (int, Seq<char>)>((whole, 5)));
        assert(p_loop(ts, left, 3, 0) == Ok::<(Node, int), (int, Seq<char>)>((whole, 5)));
        assert(p_loop(ts, a0, 1, 0) == Ok::<(Node, int), (int, Seq<char>)>((whole, 5)));
        assert(p_expr(ts, 0, 0) == Ok::<(Node, int), (int, Seq<char>)>((whole, 5)));
    }
}

/// A prefix operator binds more tightly than any binary operator:
/// `-a o b` and `!a o b` are `(-a) o b` and `(!a) o b`.
pub proof fn lemma_prefix_binds_tightest(ts: Seq<TokenV>)
    requires
        ts.len() == 5,
        ts[0].ttype == TokenType::Minus || ts[0].ttype == TokenType::Bang,
        is_atom(ts[1].ttype),
        op_rank(ts[2].ttype) > 0,
        is_atom(ts[3].ttype),
        ts[4].ttype == TokenType::Eof,
    ensures
        parse_tree(ts) == Ok::<(Node, int), (int, Seq<char>)>(
            (
                Node::Infix(
                    Box::new(Node::Prefix(0, Box::new(Node::Atom(1)))),
                    2,
                    Box::new(Node::Atom(3)),
                ),
                4,
            ),
        ),
{
    let (l, r) = infix_power(ts[2].ttype)->Some_0;
    let a1 = Node::Atom(1);
    let a3 = Node::Atom(3);
    assert(p_atom(ts, 1) == Ok::<(Node, int), (int, Seq<char>)>((a1, 2)));
    assert(p_atom(ts, 3) == Ok::<(Node, int), (int, Seq<char>)>((a3, 4)));
    assert(l < 10u8);
    assert(p_loop(ts, a1, 2, 10u8) == Ok::<(Node, int), (int, Seq<char>)>((a1, 2)));
    assert(p_expr(ts, 1, 10u8) == Ok::<(Node, int), (int, Seq<char>)>((a1, 2)));
    assert(infix_power(ts[4].ttype) is None);
    assert(p_loop(ts, a3, 4, r) == Ok::<(Node, int), (int, Seq<char>)>((a3, 4)));
    assert(p_expr(ts, 3, r) == Ok::<(Node, int), (int, Seq<char>)>((a3, 4)));
    let neg = Node::Prefix(0, Box::new(a1));
    let whole = Node::Infix(Box::new(neg), 2, Box::new(a3));
    assert(p_loop(ts, whole, 4, 0) == Ok::<(Node, int), (int, Seq<char>)>((whole, 4)));
    assert(p_loop(ts, neg, 2, 0) == Ok::<(Node, int), (int, Seq<char>)>((whole, 4)));
    assert(p_expr(ts, 0, 0) == Ok::<(Node, int), (int, Seq<char>)>((whole, 4)));
}


/// A literal token denotes what it spells: `true` and `false` the two
/// booleans, `nil` nil, a number token the number its text denotes and a
/// string token its contents.
pub proof fn lemma_literal_denotation(t: TokenV)
    ensures
        t.ttype == TokenType::True ==> literal_value(t) == ValueV::Bool(true),
        t.ttype == TokenType::False ==> literal_value(t) == ValueV::Bool(false),
        t.ttype == TokenType::Nil ==> literal_value(t) == ValueV::Nil,
        t.ttype == TokenType::Number ==> (t.literal matches Some(LiteralV::Number(s)) ==> literal_value(t)
            == ValueV::Number(s)),
        t.ttype == TokenType::String ==> (t.literal matches Some(LiteralV::Str(s)) ==> literal_value(t)
            == ValueV::Str(s)),
{
}

} // verus!
