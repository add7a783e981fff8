//! Single-pass compiler from a Lox expression to bytecode.
//!
//! A Pratt parser pulls tokens lazily from a [`Scanner`] and emits opcodes
//! as it recognises operators; there is no intermediate AST. It reads the
//! source exactly as [`crate::parser`] does (both follow [`p_expr`]), and
//! emits the postfix form of that parse: operands first, then the operator,
//! each opcode tagged with the line of the last token read before it.
//!
//! Errors are reported in "panic mode": the first error (a lexical error
//! met while pulling tokens, or a syntax error) is recorded and every later
//! one is suppressed.

use vstd::prelude::*;

use crate::error::{parse_error_v, LoxError, LoxErrorV};
use crate::parser::{
    expect_close_msg, expect_end_msg, expect_expression_msg, infix_power, is_atom, last_tok, lemma_p_atom,
    lemma_p_expr, lemma_p_loop, lemma_parse_tree, p_atom, p_expr, p_loop, parsable, parse_tree,
    prefix_power, spec_parse, Node, PRes,
};
use crate::parser::lemma_scanned_tokens_parsable;
use crate::scanner::{
    count_newlines, err_events, errors_view, lemma_ok_events_concat, lemma_ok_events_single, lemma_ok_events_take,
    lemma_scan_from_shape, lemma_trailing_eof, literals_attached, literal_fits, no_eof, ok_events,
    scan_events, scanned_errors, scanned_tokens, ScanEventV, Scanner,
};
use crate::token::{Literal, LiteralV, Token, TokenType, TokenV};
use crate::vm::chunk::{opcode_byte, Chunk, OpCode};
use crate::vm::disassembler::decodable;
use crate::vm::heap::{handle_of, lemma_handle_index, Heap, ObjV};
use crate::vm::value::Value;

verus! {

// ---------------------------------------------------------------------
// Specification of the emitted code
// ---------------------------------------------------------------------

/// View of a constant-pool entry: number constants are the decimal text of
/// their literal.
pub open spec fn const_view(c: Value<String>) -> Value<Seq<char>> {
    match c {
        Value::Nil => Value::Nil,
        Value::Bool(b) => Value::Bool(b),
        Value::Number(s) => Value::Number(s@),
        Value::Obj(h) => Value::Obj(h),
    }
}

pub open spec fn consts_view(v: Seq<Value<String>>) -> Seq<Value<Seq<char>>> {
    v.map_values(|c: Value<String>| const_view(c))
}

/// What compiling some piece of source appends: instruction bytes, their
/// lines, constant-pool entries, and newly allocated heap strings.
pub struct Emission {
    pub code: Seq<u8>,
    pub lines: Seq<usize>,
    pub consts: Seq<Value<Seq<char>>>,
    pub strs: Seq<ObjV>,
}

pub open spec fn cat(a: Emission, b: Emission) -> Emission {
    Emission {
        code: a.code + b.code,
        lines: a.lines + b.lines,
        consts: a.consts + b.consts,
        strs: a.strs + b.strs,
    }
}

/// Bare opcodes, all on `line`.
pub open spec fn ops_emission(ops: Seq<u8>, line: usize) -> Emission {
    Emission {
        code: ops,
        lines: Seq::new(ops.len(), |i: int| line),
        consts: seq![],
        strs: seq![],
    }
}

/// Opcode bytes for a binary operator token; `!=`, `>=` and `<=` are
/// synthesised from `==`, `<` and `>` followed by `OP_NOT`.
pub open spec fn binary_ops(t: TokenType) -> Seq<u8> {
    if t == TokenType::Plus {
        seq![opcode_byte(OpCode::Add)]
    } else if t == TokenType::Minus {
        seq![opcode_byte(OpCode::Subtract)]
    } else if t == TokenType::Star {
        seq![opcode_byte(OpCode::Multiply)]
    } else if t == TokenType::Slash {
        seq![opcode_byte(OpCode::Divide)]
    } else if t == TokenType::EqualEqual {
        seq![opcode_byte(OpCode::Equal)]
    } else if t == TokenType::BangEqual {
        seq![opcode_byte(OpCode::Equal), opcode_byte(OpCode::Not)]
    } else if t == TokenType::Greater {
        seq![opcode_byte(OpCode::Greater)]
    } else if t == TokenType::GreaterEqual {
        seq![opcode_byte(OpCode::Less), opcode_byte(OpCode::Not)]
    } else if t == TokenType::Less {
        seq![opcode_byte(OpCode::Less)]
    } else {
        seq![opcode_byte(OpCode::Greater), opcode_byte(OpCode::Not)]
    }
}

/// Opcode byte for a prefix operator token.
pub open spec fn unary_op(t: TokenType) -> u8 {
    if t == TokenType::Minus {
        opcode_byte(OpCode::Negate)
    } else {
        opcode_byte(OpCode::Not)
    }
}

/// Code for a literal token, given `k` constants and `h` heap objects
/// already present: numbers and strings become `OP_CONSTANT k` (strings
/// also allocate a heap object), `nil`/`true`/`false` their own opcode.
pub open spec fn atom_emission(t: TokenV, k: nat, h: nat) -> Emission {
    let line = t.line as usize;
    if t.ttype == TokenType::Nil {
        ops_emission(seq![opcode_byte(OpCode::Nil)], line)
    } else if t.ttype == TokenType::True {
        ops_emission(seq![opcode_byte(OpCode::True)], line)
    } else if t.ttype == TokenType::False {
        ops_emission(seq![opcode_byte(OpCode::False)], line)
    } else {
        match t.literal {
            Some(LiteralV::Str(s)) => Emission {
                code: seq![opcode_byte(OpCode::Constant), k as u8],
                lines: seq![line, line],
                consts: seq![Value::Obj(handle_of(h))],
                strs: seq![ObjV::Str(s)],
            },
            Some(LiteralV::Number(s)) => Emission {
                code: seq![opcode_byte(OpCode::Constant), k as u8],
                lines: seq![line, line],
                consts: seq![Value::Number(s)],
                strs: seq![],
            },
            None => ops_emission(seq![], line),
        }
    }
}

/// The postfix code of a parse tree, given `k` constants and `h` heap
/// objects already present.
pub open spec fn emit(ts: Seq<TokenV>, n: Node, k: nat, h: nat) -> Emission
    decreases n,
{
    match n {
        Node::Atom(a) => atom_emission(ts[a], k, h),
        Node::Group(inner, _) => emit(ts, *inner, k, h),
        Node::Prefix(op, r) => cat(
            emit(ts, *r, k, h),
            ops_emission(seq![unary_op(ts[op].ttype)], ts[last_tok(*r)].line as usize),
        ),
        Node::Infix(l, op, r) => {
            let el = emit(ts, *l, k, h);
            let er = emit(ts, *r, k + el.consts.len(), h + el.strs.len());
            cat(
                cat(el, er),
                ops_emission(binary_ops(ts[op].ttype), ts[last_tok(*r)].line as usize),
            )
        },
    }
}

/// The first lexical error of the stream that comes before its `k`-th
/// token.
pub open spec fn err_before(evs: Seq<ScanEventV>, k: int) -> Option<LoxErrorV>
    decreases evs.len(),
{
    if evs.len() == 0 {
        None
    } else {
        match evs[0] {
            Err(x) => Some(x),
            Ok(_) => if k <= 0 {
                None
            } else {
                err_before(evs.drop_first(), k - 1)
            },
        }
    }
}

/// How many tokens the compiler has pulled when it meets the syntax error
/// `m` at token `at`: one more than `at` for a missing expression (the
/// compiler has already advanced past the offending token), `at` itself
/// otherwise.
pub open spec fn front(at: int, m: Seq<char>) -> int {
    if m == expect_expression_msg() {
        at + 1
    } else {
        at
    }
}

/// The errors reported when the syntax error `m` at token `t` is raised
/// with `k` tokens pulled: a lexical error met before wins over it.
pub open spec fn reported(evs: Seq<ScanEventV>, k: int, t: TokenV, m: Seq<char>) -> Seq<
    LoxErrorV,
> {
    match err_before(evs, k) {
        Some(x) => seq![x],
        None => seq![parse_error_v(t, m)],
    }
}

/// The errors reported for a syntax error `m` at token `at`.
pub open spec fn failure(evs: Seq<ScanEventV>, at: int, m: Seq<char>) -> Seq<LoxErrorV> {
    reported(evs, front(at, m), ok_events(evs)[at], m)
}

/// What compiling `src` produces: the postfix code of its expression
/// followed by `OP_RETURN` (on the line of `EOF`), or the first error.
pub open spec fn compile_result(src: Seq<char>) -> Result<Emission, Seq<LoxErrorV>> {
    let evs = scan_events(src);
    let ts = ok_events(evs);
    match parse_tree(ts) {
        Ok((n, j)) => match err_before(evs, ts.len() as int) {
            Some(x) => Err(seq![x]),
            None => Ok(
                cat(
                    emit(ts, n, 0, 0),
                    ops_emission(seq![opcode_byte(OpCode::Return)], ts[j].line as usize),
                ),
            ),
        },
        Err((at, m)) => Err(failure(evs, at, m)),
    }
}

/// Number of number and string tokens in `ts`.
pub open spec fn literal_count(ts: Seq<TokenV>) -> nat
    decreases ts.len(),
{
    if ts.len() == 0 {
        0
    } else {
        literal_count(ts.drop_last()) + if ts.last().ttype == TokenType::Number
            || ts.last().ttype == TokenType::String {
            1nat
        } else {
            0nat
        }
    }
}


// ---------------------------------------------------------------------
// Facts about the event stream the compiler pulls from
// ---------------------------------------------------------------------

/// Number of tokens among the events.
pub open spec fn okc(s: Seq<ScanEventV>) -> nat {
    ok_events(s).len()
}

/// The first lexical error among the events, if any.
pub open spec fn first_err(s: Seq<ScanEventV>) -> Option<LoxErrorV>
    decreases s.len(),
{
    if s.len() == 0 {
        None
    } else {
        match first_err(s.drop_last()) {
            Some(x) => Some(x),
            None => match s.last() {
                Err(x) => Some(x),
                Ok(_) => None,
            },
        }
    }
}

/// The reported errors when at most the first one is kept.
pub open spec fn opt_seq(o: Option<LoxErrorV>) -> Seq<LoxErrorV> {
    match o {
        Some(x) => seq![x],
        None => seq![],
    }
}

/// What the compiler relies on about the stream of its source: it ends
/// with the `EOF` event, holds at most one token per character, every
/// number and string token carries its literal, and there are few enough
/// literals for a one-byte constant index.
pub open spec fn stream_facts(src: Seq<char>) -> bool {
    let evs = scan_events(src);
    let ts = ok_events(evs);
    &&& evs.len() >= 1
    &&& evs.last() is Ok
    &&& ts.len() >= 1
    &&& ts.last() == (TokenV {
        ttype: TokenType::Eof,
        lexeme: seq![],
        literal: None,
        line: 1 + count_newlines(src),
    })
    &&& no_eof(ts.drop_last())
    &&& parsable(ts)
    &&& literals_attached(ts)
    &&& literal_count(ts) <= 256
    &&& ts.len() <= src.len() + 1
    &&& src.len() <= usize::MAX / 4
}

proof fn lemma_stream_facts(src: Seq<char>)
    requires
        src.len() <= usize::MAX / 4,
        literal_count(scanned_tokens(src)) <= 256,
    ensures
        stream_facts(src),
{
    let evs = scan_events(src);
    lemma_scan_from_shape(src, 0, 1);
    lemma_trailing_eof(src);
    lemma_scanned_tokens_parsable(src);
    assert(src.subrange(0, src.len() as int) =~= src);
    let last = evs.last();
    assert(evs =~= evs.drop_last().push(last));
    assert(ok_events(evs) == ok_events(evs.drop_last()).push(last->Ok_0));
}

proof fn lemma_first_err_head(s: Seq<ScanEventV>)
    requires
        s.len() >= 1,
        s[0] is Err,
    ensures
        first_err(s) == Some(s[0]->Err_0),
    decreases s.len(),
{
    if s.len() == 1 {
        assert(s.drop_last() =~= Seq::<ScanEventV>::empty());
        assert(s.last() == s[0]);
    } else {
        assert(s.drop_last()[0] == s[0]);
        lemma_first_err_head(s.drop_last());
    }
}

proof fn lemma_first_err_skip_ok(t: TokenV, s: Seq<ScanEventV>)
    ensures
        first_err(seq![Ok::<TokenV, LoxErrorV>(t)] + s) == first_err(s),
    decreases s.len(),
{
    let h = seq![Ok::<TokenV, LoxErrorV>(t)];
    if s.len() == 0 {
        assert(h + s =~= h);
        assert(h.drop_last() =~= Seq::<ScanEventV>::empty());
        assert(first_err(h.drop_last()) is None);
        assert(h.last() == Ok::<TokenV, LoxErrorV>(t));
        assert(first_err(h) is None);
    } else {
        assert((h + s).drop_last() =~= h + s.drop_last());
        assert((h + s).last() == s.last());
        lemma_first_err_skip_ok(t, s.drop_last());
        assert(first_err(h + s) == match first_err(h + s.drop_last()) {
            Some(x) => Some(x),
            None => match s.last() {
                Err(x) => Some(x),
                Ok(_) => None,
            },
        });
    }
}

proof fn lemma_okc_single(t: TokenV)
    ensures
        okc(seq![Ok::<TokenV, LoxErrorV>(t)]) == 1,
{
    lemma_ok_events_single(t);
}

/// The first error of the events up to and including the token that is
/// current is the first error before that token.
proof fn lemma_first_err_prefix(evs: Seq<ScanEventV>, e: int, k: int)
    requires
        1 <= e <= evs.len(),
        k >= 0,
        evs[e - 1] is Ok,
        okc(evs.take(e)) <= k + 1,
        e == evs.len() || okc(evs.take(e)) == k + 1,
    ensures
        first_err(evs.take(e)) == err_before(evs, k),
    decreases evs.len(),
{
    let pre = evs.take(e);
    match evs[0] {
        Err(x) => {
            assert(pre[0] == evs[0]);
            lemma_first_err_head(pre);
            assert(err_before(evs, k) == Some(x));
        },
        Ok(t) => {
            let rest = evs.drop_first();
            let h = seq![Ok::<TokenV, LoxErrorV>(t)];
            lemma_okc_single(t);
            assert(err_before(evs, k) == if k <= 0 {
                None
            } else {
                err_before(rest, k - 1)
            });
            if e == 1 {
                assert(pre =~= h);
                assert(h.drop_last() =~= Seq::<ScanEventV>::empty());
                assert(first_err(h.drop_last()) is None);
                assert(h.last() == Ok::<TokenV, LoxErrorV>(t));
                assert(first_err(pre) is None);
                if k > 0 {
                    assert(rest.len() == 0);
                    assert(err_before(rest, k - 1) is None);
                }
            } else {
                assert(pre =~= h + rest.take(e - 1));
                lemma_ok_events_concat(h, rest.take(e - 1));
                lemma_first_err_skip_ok(t, rest.take(e - 1));
                assert(rest[e - 2] == evs[e - 1]);
                let pre1 = rest.take(e - 1);
                assert(pre1 =~= pre1.drop_last().push(pre1.last()));
                assert(pre1.last() == evs[e - 1]);
                assert(okc(pre1) >= 1);
                assert(okc(pre) == 1 + okc(pre1));
                assert(k >= 1);
                lemma_first_err_prefix(rest, e - 1, k - 1);
            }
        },
    }
}

/// Before the last event (an `EOF` token) fewer than all tokens have been
/// seen.
proof fn lemma_okc_take_lt(evs: Seq<ScanEventV>, e: int)
    requires
        evs.len() >= 1,
        evs.last() is Ok,
        0 <= e < evs.len(),
    ensures
        okc(evs.take(e)) < okc(evs),
{
    assert(evs =~= evs.take(e) + evs.skip(e));
    lemma_ok_events_concat(evs.take(e), evs.skip(e));
    assert(evs.skip(e).last() == evs.last());
}

/// The token at event `e` is token number `okc(evs.take(e))`.
proof fn lemma_tok_at(evs: Seq<ScanEventV>, e: int)
    requires
        0 <= e < evs.len(),
        evs[e] is Ok,
    ensures
        okc(evs.take(e)) < okc(evs),
        ok_events(evs)[okc(evs.take(e)) as int] == evs[e]->Ok_0,
        okc(evs.take(e + 1)) == okc(evs.take(e)) + 1,
        first_err(evs.take(e + 1)) == first_err(evs.take(e)),
{
    lemma_ok_events_take(evs, e);
    assert(evs =~= evs.take(e + 1) + evs.skip(e + 1));
    lemma_ok_events_concat(evs.take(e + 1), evs.skip(e + 1));
    assert(evs.take(e + 1).drop_last() =~= evs.take(e));
    assert(evs.take(e + 1).last() == evs[e]);
}

/// An error event at `e` leaves the token count unchanged and is the first
/// error unless one came before.
proof fn lemma_err_at(evs: Seq<ScanEventV>, e: int)
    requires
        0 <= e < evs.len(),
        evs[e] is Err,
    ensures
        okc(evs.take(e + 1)) == okc(evs.take(e)),
        first_err(evs.take(e + 1)) == match first_err(evs.take(e)) {
            Some(x) => Some(x),
            None => Some(evs[e]->Err_0),
        },
{
    lemma_ok_events_take(evs, e);
    assert(evs.take(e + 1).drop_last() =~= evs.take(e));
    assert(evs.take(e + 1).last() == evs[e]);
}

proof fn lemma_literal_count_take(ts: Seq<TokenV>, k: int)
    requires
        0 <= k <= ts.len(),
    ensures
        literal_count(ts.take(k)) <= literal_count(ts),
    decreases ts.len() - k,
{
    if k < ts.len() {
        lemma_literal_count_take(ts, k + 1);
        assert(ts.take(k + 1).drop_last() =~= ts.take(k));
    } else {
        assert(ts.take(k) =~= ts);
    }
}

/// Number and string tokens among the first `k` tokens.
pub open spec fn lits_before(ts: Seq<TokenV>, k: int) -> nat {
    if k <= 0 {
        0
    } else if k >= ts.len() {
        literal_count(ts)
    } else {
        literal_count(ts.take(k))
    }
}

proof fn lemma_lits_before_step(ts: Seq<TokenV>, k: int)
    requires
        0 <= k < ts.len(),
    ensures
        lits_before(ts, k + 1) == lits_before(ts, k) + if ts[k].ttype == TokenType::Number
            || ts[k].ttype == TokenType::String {
            1nat
        } else {
            0nat
        },
        lits_before(ts, k + 1) <= literal_count(ts),
{
    let inc: nat = if ts[k].ttype == TokenType::Number || ts[k].ttype == TokenType::String {
        1nat
    } else {
        0nat
    };
    assert(ts.take(k + 1).drop_last() =~= ts.take(k));
    assert(ts.take(k + 1).last() == ts[k]);
    assert(literal_count(ts.take(k + 1)) == literal_count(ts.take(k)) + inc);
    assert(ts.take(0) =~= Seq::<TokenV>::empty());
    assert(literal_count(ts.take(0)) == 0);
    assert(ts.take(ts.len() as int) =~= ts);
    assert(lits_before(ts, k) == literal_count(ts.take(k)));
    assert(lits_before(ts, k + 1) == literal_count(ts.take(k + 1)));
    lemma_literal_count_take(ts, k + 1);
}

proof fn lemma_lits_before_mono(ts: Seq<TokenV>, k: int)
    ensures
        lits_before(ts, k) <= lits_before(ts, k + 1),
{
    if 0 <= k < ts.len() {
        lemma_lits_before_step(ts, k);
    }
}

// ---------------------------------------------------------------------
// Pratt rules
// ---------------------------------------------------------------------

/// Precedence ladder, lowest to highest. A parse at some precedence
/// continues while the next token's infix precedence is at least as high.
#[derive(Debug, Clone, Copy, PartialEq, Eq, Structural)]
enum Precedence {
    Lowest,
    Equality,
    Comparison,
    Term,
    Factor,
    Unary,
}

spec fn rank(p: Precedence) -> u8 {
    match p {
        Precedence::Lowest => 0,
        Precedence::Equality => 4,
        Precedence::Comparison => 5,
        Precedence::Term => 6,
        Precedence::Factor => 7,
        Precedence::Unary => 8,
    }
}

spec fn spec_next_higher(p: Precedence) -> Precedence {
    match p {
        Precedence::Lowest => Precedence::Equality,
        Precedence::Equality => Precedence::Comparison,
        Precedence::Comparison => Precedence::Term,
        Precedence::Term => Precedence::Factor,
        Precedence::Factor => Precedence::Unary,
        Precedence::Unary => Precedence::Unary,
    }
}

/// The minimum binding power of [`p_expr`] that a parse at precedence `p`
/// corresponds to.
spec fn min_power(p: Precedence) -> u8 {
    match p {
        Precedence::Lowest => 0,
        Precedence::Equality => 0,
        Precedence::Comparison => 4,
        Precedence::Term => 6,
        Precedence::Factor => 8,
        Precedence::Unary => 10,
    }
}

impl Precedence {
    /// Position on the ladder.
    fn level(self) -> (r: u8)
        ensures
            r == rank(self),
    {
        match self {
            Precedence::Lowest => 0,
            Precedence::Equality => 4,
            Precedence::Comparison => 5,
            Precedence::Term => 6,
            Precedence::Factor => 7,
            Precedence::Unary => 8,
        }
    }

    /// One level higher; binary operators parse their right operand one
    /// level up so that equal operators associate to the left.
    fn next_higher(self) -> (r: Precedence)
        ensures
            r == spec_next_higher(self),
    {
        match self {
            Precedence::Lowest => Precedence::Equality,
            Precedence::Equality => Precedence::Comparison,
            Precedence::Comparison => Precedence::Term,
            Precedence::Term => Precedence::Factor,
            Precedence::Factor | Precedence::Unary => Precedence::Unary,
        }
    }
}

/// Action of a Pratt rule.
#[derive(Debug, Clone, Copy, PartialEq, Eq, Structural)]
enum ParseFn {
    Nothing,
    Grouping,
    Unary,
    Binary,
    Number,
    Literal,
    String,
}

#[derive(Debug, Clone, Copy)]
struct ParseRule {
    prefix: ParseFn,
    infix: ParseFn,
    precedence: Precedence,
}

spec fn mk_rule(prefix: ParseFn, infix: ParseFn, precedence: Precedence) -> ParseRule {
    ParseRule { prefix, infix, precedence }
}

/// The rule table.
spec fn rule_spec(t: TokenType) -> ParseRule {
    match t {
        TokenType::LeftParen => mk_rule(ParseFn::Grouping, ParseFn::Nothing, Precedence::Lowest),
        TokenType::Minus => mk_rule(ParseFn::Unary, ParseFn::Binary, Precedence::Term),
        TokenType::Plus => mk_rule(ParseFn::Nothing, ParseFn::Binary, Precedence::Term),
        TokenType::Slash | TokenType::Star => mk_rule(
            ParseFn::Nothing,
            ParseFn::Binary,
            Precedence::Factor,
        ),
        TokenType::Number => mk_rule(ParseFn::Number, ParseFn::Nothing, Precedence::Lowest),
        TokenType::String => mk_rule(ParseFn::String, ParseFn::Nothing, Precedence::Lowest),
        TokenType::Nil | TokenType::True | TokenType::False => mk_rule(
            ParseFn::Literal,
            ParseFn::Nothing,
            Precedence::Lowest,
        ),
        TokenType::Bang => mk_rule(ParseFn::Unary, ParseFn::Nothing, Precedence::Lowest),
        TokenType::EqualEqual | TokenType::BangEqual => mk_rule(
            ParseFn::Nothing,
            ParseFn::Binary,
            Precedence::Equality,
        ),
        TokenType::Greater
        | TokenType::GreaterEqual
        | TokenType::Less
        | TokenType::LessEqual => mk_rule(ParseFn::Nothing, ParseFn::Binary, Precedence::Comparison),
        _ => mk_rule(ParseFn::Nothing, ParseFn::Nothing, Precedence::Lowest),
    }
}

/// Pratt rule lookup.
fn rule_for(t: TokenType) -> (r: ParseRule)
    ensures
        r == rule_spec(t),
{
    match t {
        TokenType::LeftParen => ParseRule {
            prefix: ParseFn::Grouping,
            infix: ParseFn::Nothing,
            precedence: Precedence::Lowest,
        },
        TokenType::Minus => ParseRule {
            prefix: ParseFn::Unary,
            infix: ParseFn::Binary,
            precedence: Precedence::Term,
        },
        TokenType::Plus => ParseRule {
            prefix: ParseFn::Nothing,
            infix: ParseFn::Binary,
            precedence: Precedence::Term,
        },
        TokenType::Slash | TokenType::Star => ParseRule {
            prefix: ParseFn::Nothing,
            infix: ParseFn::Binary,
            precedence: Precedence::Factor,
        },
        TokenType::Number => ParseRule {
            prefix: ParseFn::Number,
            infix: ParseFn::Nothing,
            precedence: Precedence::Lowest,
        },
        TokenType::String => ParseRule {
            prefix: ParseFn::String,
            infix: ParseFn::Nothing,
            precedence: Precedence::Lowest,
        },
        TokenType::Nil | TokenType::True | TokenType::False => ParseRule {
            prefix: ParseFn::Literal,
            infix: ParseFn::Nothing,
            precedence: Precedence::Lowest,
        },
        TokenType::Bang => ParseRule {
            prefix: ParseFn::Unary,
            infix: ParseFn::Nothing,
            precedence: Precedence::Lowest,
        },
        TokenType::EqualEqual | TokenType::BangEqual => ParseRule {
            prefix: ParseFn::Nothing,
            infix: ParseFn::Binary,
            precedence: Precedence::Equality,
        },
        TokenType::Greater
        | TokenType::GreaterEqual
        | TokenType::Less
        | TokenType::LessEqual => ParseRule {
            prefix: ParseFn::Nothing,
            infix: ParseFn::Binary,
            precedence: Precedence::Comparison,
        },
        _ => ParseRule { prefix: ParseFn::Nothing, infix: ParseFn::Nothing, precedence: Precedence::Lowest },
    }
}

/// Whether [`p_loop`] goes on at token type `t` with minimum power `min`.
pub open spec fn continues(t: TokenType, min: u8) -> bool {
    match infix_power(t) {
        Some((l, _)) => l >= min,
        None => false,
    }
}

/// The rule table agrees with the binding powers of [`p_expr`].
proof fn lemma_rule_table(p: Precedence, t: TokenType)
    requires
        p != Precedence::Lowest,
    ensures
        (rank(p) <= rank(rule_spec(t).precedence)) == continues(t, min_power(p)),
        rule_spec(t).precedence != Precedence::Lowest ==> {
            &&& rule_spec(t).infix == ParseFn::Binary
            &&& infix_power(t) is Some
            &&& spec_next_higher(rule_spec(t).precedence) != Precedence::Lowest
            &&& min_power(spec_next_higher(rule_spec(t).precedence)) == infix_power(t)->Some_0.1
        },
        rule_spec(t).infix == ParseFn::Binary ==> rule_spec(t).precedence != Precedence::Lowest,
        (rule_spec(t).prefix == ParseFn::Unary) == (prefix_power(t) is Some),
        (rule_spec(t).prefix == ParseFn::Grouping) == (t == TokenType::LeftParen),
        (rule_spec(t).prefix == ParseFn::Number) == (t == TokenType::Number),
        (rule_spec(t).prefix == ParseFn::String) == (t == TokenType::String),
        (rule_spec(t).prefix == ParseFn::Literal) == (t == TokenType::Nil || t == TokenType::True
            || t == TokenType::False),
        rule_spec(t).prefix != ParseFn::Binary,
        (rule_spec(t).prefix == ParseFn::Nothing) == (prefix_power(t) is None && !is_atom(t) && t
            != TokenType::LeftParen),
        t == TokenType::Eof ==> rule_spec(t).prefix == ParseFn::Nothing && rule_spec(t).precedence
            == Precedence::Lowest,
{
}

// ---------------------------------------------------------------------
// How the compiler follows the grammar
// ---------------------------------------------------------------------

/// The part of an expression at token `i` before any infix operator: a
/// prefix operator with its operand, or a literal, or a grouping.
pub open spec fn prefix_part(ts: Seq<TokenV>, i: int) -> PRes {
    if prefix_power(ts[i].ttype) is Some {
        match p_expr(ts, i + 1, 10u8) {
            Ok((r, j)) => Ok((Node::Prefix(i, Box::new(r)), j)),
            Err(e) => Err(e),
        }
    } else {
        p_atom(ts, i)
    }
}

proof fn lemma_p_expr_split(ts: Seq<TokenV>, i: int, min: u8)
    requires
        parsable(ts),
        0 <= i < ts.len(),
    ensures
        p_expr(ts, i, min) == match prefix_part(ts, i) {
            Ok((a, j)) => p_loop(ts, a, j, min),
            Err(e) => Err(e),
        },
        prefix_part(ts, i) matches Ok((a, j)) ==> i < j < ts.len() && last_tok(a) == j - 1,
        prefix_part(ts, i) matches Err((at, m)) ==> 0 <= at < ts.len(),
{
    if prefix_power(ts[i].ttype) is Some {
        if i + 1 >= ts.len() {
            assert(ts.last() == ts[i]);
        }
        lemma_p_expr(ts, i + 1, 10u8);
    } else {
        lemma_p_atom(ts, i);
    }
}

proof fn lemma_messages_differ()
    ensures
        expect_close_msg() != expect_expression_msg(),
        expect_end_msg() != expect_expression_msg(),
{
    reveal_strlit("Expect expression.");
    reveal_strlit("Expect ')' after expression.");
    reveal_strlit("Expect end of expression.");
    assert(expect_close_msg().len() != expect_expression_msg().len());
    assert(expect_end_msg().len() != expect_expression_msg().len());
}

proof fn lemma_cat_assoc(x: Emission, y: Emission, z: Emission)
    ensures
        cat(cat(x, y), z) == cat(x, cat(y, z)),
{
    assert(cat(cat(x, y), z).code =~= cat(x, cat(y, z)).code);
    assert(cat(cat(x, y), z).lines =~= cat(x, cat(y, z)).lines);
    assert(cat(cat(x, y), z).consts =~= cat(x, cat(y, z)).consts);
    assert(cat(cat(x, y), z).strs =~= cat(x, cat(y, z)).strs);
}

proof fn lemma_consts_view_push(v: Seq<Value<String>>, c: Value<String>)
    ensures
        consts_view(v.push(c)) == consts_view(v).push(const_view(c)),
        consts_view(v).len() == v.len(),
{
    assert(consts_view(v.push(c)) =~= consts_view(v).push(const_view(c)));
}

// ---------------------------------------------------------------------
// The compiler
// ---------------------------------------------------------------------

/// State of one compilation: the token lookahead pulled from the scanner,
/// the chunk and heap being filled, and the errors reported so far.
struct Compiler {
    scanner: Scanner,
    /// The last token consumed.
    previous: Option<Token>,
    /// One token of lookahead.
    current: Option<Token>,
    chunk: Chunk<Value<String>>,
    /// Backs the string constants of `chunk`.
    heap: Heap,
    errors: Vec<LoxError>,
    /// Once an error is reported, later ones are suppressed.
    panic_mode: bool,
    /// Position of `current` in the token stream (`-1` before the first
    /// token is pulled; positions past the end stand for `EOF`).
    cur_idx: Ghost<int>,
    /// Whether a syntax error has been raised.
    failed: Ghost<bool>,
}

/// The two compiler states agree on everything but the chunk and heap.
spec fn same_tokens(a: Compiler, b: Compiler) -> bool {
    &&& a.scanner == b.scanner
    &&& a.previous == b.previous
    &&& a.current == b.current
    &&& a.errors == b.errors
    &&& a.panic_mode == b.panic_mode
    &&& a.cur_idx == b.cur_idx
    &&& a.failed == b.failed
}

/// `b` is `a` with the code of `em` appended.
/// (The emission's constants are compared through [`const_view`].)
spec fn appended(a: Compiler, b: Compiler, em: Emission) -> bool {
    &&& b.chunk.code@ == a.chunk.code@ + em.code
    &&& b.chunk.lines@ == a.chunk.lines@ + em.lines
    &&& consts_view(b.chunk.constants@) == consts_view(a.chunk.constants@) + em.consts
    &&& b.heap@ == a.heap@ + em.strs
}


proof fn lemma_appended_trans(a: Compiler, b: Compiler, c: Compiler, e1: Emission, e2: Emission)
    requires
        appended(a, b, e1),
        appended(b, c, e2),
    ensures
        appended(a, c, cat(e1, e2)),
{
    assert(c.chunk.code@ =~= a.chunk.code@ + cat(e1, e2).code);
    assert(c.chunk.lines@ =~= a.chunk.lines@ + cat(e1, e2).lines);
    assert(consts_view(c.chunk.constants@) =~= consts_view(a.chunk.constants@) + cat(e1, e2).consts);
    assert(c.heap@ =~= a.heap@ + cat(e1, e2).strs);
}

proof fn lemma_appended_same(a: Compiler, b: Compiler, em: Emission)
    requires
        appended(a, b, em),
    ensures
        consts_view(b.chunk.constants@).len() == b.chunk.constants@.len(),
        b.chunk.constants@.len() == a.chunk.constants@.len() + em.consts.len(),
        b.heap@.len() == a.heap@.len() + em.strs.len(),
{
    lemma_consts_view_push(a.chunk.constants@, Value::Nil);
    lemma_consts_view_push(b.chunk.constants@, Value::Nil);
}

/// Emitting opcodes one by one on the current line appends their
/// emission.
proof fn lemma_ops_appended(a: Compiler, b: Compiler, ops: Seq<u8>, line: usize)
    requires
        b.chunk.code@ == a.chunk.code@ + ops,
        b.chunk.lines@ == a.chunk.lines@ + Seq::new(ops.len(), |i: int| line),
        b.chunk.constants == a.chunk.constants,
        b.heap == a.heap,
    ensures
        appended(a, b, ops_emission(ops, line)),
{
    assert(consts_view(b.chunk.constants@) =~= consts_view(a.chunk.constants@) + seq![]);
    assert(b.heap@ =~= a.heap@ + seq![]);
}

/// `b` parsed the outcome `r` of the grammar from where `a` stood: on
/// success it has consumed the tokens of the tree and appended its code;
/// on failure it has reported the matching errors.
spec fn compiled_as(a: Compiler, b: Compiler, r: PRes) -> bool {
    match r {
        Ok((n, j)) => {
            &&& !b.failed@
            &&& b.cur_idx@ == j
            &&& appended(a, b, emit(a.ts(), n, a.chunk.constants@.len(), a.heap@.len()))
        },
        Err((at, m)) => b.failed@ && errors_view(b.errors@) == failure(a.evs(), at, m),
    }
}

/// As [`compiled_as`] for the right operand of the binary operator at
/// token `op`, followed by the operator's code.
spec fn compiled_infix(a: Compiler, b: Compiler, r: PRes, op: int) -> bool {
    match r {
        Ok((rn, k)) => {
            &&& !b.failed@
            &&& b.cur_idx@ == k
            &&& appended(
                a,
                b,
                cat(
                    emit(a.ts(), rn, a.chunk.constants@.len(), a.heap@.len()),
                    ops_emission(binary_ops(a.ts()[op].ttype), a.ts()[last_tok(rn)].line as usize),
                ),
            )
        },
        Err((at, m)) => b.failed@ && errors_view(b.errors@) == failure(a.evs(), at, m),
    }
}

/// What every step of the parse keeps.
spec fn progressed(a: Compiler, b: Compiler) -> bool {
    &&& b.inv()
    &&& b.scanner.source() == a.scanner.source()
    &&& a.failed@ ==> b.failed@ && b.errors@ == a.errors@
}

/// The state a grammar action starts in: the token that selected it has
/// just been consumed.
spec fn can_dispatch(a: Compiler) -> bool {
    &&& a.inv()
    &&& 1 <= a.cur_idx@ <= a.n() - 1
    &&& a.chunk.constants@.len() <= lits_before(a.ts(), a.cur_idx@ - 1)
    &&& a.chunk.code@.len() + 2 <= 2 * a.cur_idx@
}

/// What every grammar action ensures.
spec fn dispatched(a: Compiler, b: Compiler) -> bool {
    &&& progressed(a, b)
    &&& a.cur_idx@ <= b.cur_idx@ <= a.n()
    &&& b.chunk.code@.len() <= a.chunk.code@.len() + 2 * (b.cur_idx@ - a.cur_idx@) + 2
}

impl Compiler {
    spec fn evs(&self) -> Seq<ScanEventV> {
        scan_events(self.scanner.source())
    }

    spec fn ts(&self) -> Seq<TokenV> {
        ok_events(self.evs())
    }

    spec fn n(&self) -> int {
        self.ts().len() as int
    }

    /// The token at position `k`; positions past the end are `EOF`.
    spec fn tok(&self, k: int) -> TokenV {
        if k < self.n() {
            self.ts()[k]
        } else {
            self.ts().last()
        }
    }

    /// The line an emitted byte is tagged with.
    spec fn line_now(&self) -> usize {
        match self.previous {
            Some(t) => t.line,
            None => match self.current {
                Some(t) => t.line,
                None => 1,
            },
        }
    }

    spec fn inv(&self) -> bool {
        let evs = self.evs();
        let ts = self.ts();
        let n = self.n();
        let ci = self.cur_idx@;
        let e = self.scanner.emitted() as int;
        &&& self.scanner.wf()
        &&& stream_facts(self.scanner.source())
        &&& -1 <= ci <= n + 1
        &&& ci == -1 ==> {
            &&& e == 0
            &&& self.current is None
            &&& self.errors@.len() == 0
            &&& !self.failed@
        }
        &&& ci >= 0 ==> {
            &&& 1 <= e <= evs.len()
            &&& evs[e - 1] is Ok
            &&& okc(evs.take(e)) == if ci < n {
                ci + 1
            } else {
                n
            }
            &&& ci >= n - 1 ==> e == evs.len()
            &&& self.current is Some
            &&& self.current->Some_0@ == self.tok(ci)
        }
        &&& ci >= 1 ==> self.previous is Some && self.previous->Some_0@ == self.tok(ci - 1)
        &&& ci < 1 ==> self.previous is None
        &&& self.panic_mode == (self.errors@.len() > 0)
        &&& self.errors@.len() <= 1
        &&& self.failed@ ==> self.panic_mode
        &&& !self.failed@ && ci >= 0 ==> errors_view(self.errors@) == opt_seq(err_before(evs, ci))
        &&& self.chunk.wf()
        &&& self.chunk.constants@.len() <= lits_before(ts, ci)
        &&& self.heap@.len() <= self.chunk.constants@.len()
    }

    fn new(source: &str) -> (c: Compiler)
        requires
            stream_facts(source@),
        ensures
            c.inv(),
            c.scanner.source() == source@,
            c.cur_idx@ == -1,
            c.chunk.code@.len() == 0,
            c.chunk.lines@.len() == 0,
            c.chunk.constants@.len() == 0,
            c.heap@.len() == 0,
    {
        Compiler {
            scanner: Scanner::new(source),
            previous: None,
            current: None,
            chunk: Chunk::new(),
            heap: Heap::new(),
            errors: Vec::new(),
            panic_mode: false,
            cur_idx: Ghost(-1),
            failed: Ghost(false),
        }
    }

    /// Record `err` unless an error has already been reported.
    fn report(&mut self, err: LoxError)
        requires
            old(self).panic_mode == (old(self).errors@.len() > 0),
            old(self).errors@.len() <= 1,
        ensures
            final(self).errors@ == if old(self).panic_mode {
                old(self).errors@
            } else {
                seq![err]
            },
            final(self).panic_mode,
            final(self).scanner == old(self).scanner,
            final(self).previous == old(self).previous,
            final(self).current == old(self).current,
            final(self).chunk == old(self).chunk,
            final(self).heap == old(self).heap,
            final(self).cur_idx == old(self).cur_idx,
            final(self).failed == old(self).failed,
    {
        if self.panic_mode {
            return;
        }
        self.panic_mode = true;
        self.errors.push(err);
    }

    /// Pull the next token from the scanner. Lexical errors met on the way
    /// are reported; once the scanner is drained, an `EOF` token on the
    /// last line stands in.
    fn advance(&mut self)
        requires
            old(self).inv(),
            old(self).cur_idx@ <= old(self).n(),
        ensures
            final(self).inv(),
            final(self).scanner.source() == old(self).scanner.source(),
            final(self).cur_idx@ == old(self).cur_idx@ + 1,
            final(self).chunk == old(self).chunk,
            final(self).heap == old(self).heap,
            final(self).failed == old(self).failed,
            old(self).failed@ ==> final(self).errors@ == old(self).errors@,
    {
        let ghost c = self.cur_idx@;
        let ghost src = self.scanner.source();
        let ghost evs = self.evs();
        let ghost ts = self.ts();
        let ghost n = self.n();
        proof {
            if c >= 0 && !self.failed@ {
                lemma_first_err_prefix(evs, self.scanner.emitted() as int, c);
            }
            assert(evs.take(0) =~= Seq::<ScanEventV>::empty());
            assert(evs.take(evs.len() as int) =~= evs);
            lemma_lits_before_mono(ts, c);
        }
        self.previous = self.current.take();
        self.cur_idx = Ghost(c + 1);
        loop
            invariant
                self.scanner.wf(),
                self.scanner.source() == src,
                evs == scan_events(src),
                ts == ok_events(evs),
                n == ts.len(),
                stream_facts(src),
                self.cur_idx@ == c + 1,
                -1 <= c <= n,
                lits_before(ts, c) <= lits_before(ts, c + 1),
                old(self).inv(),
                old(self).cur_idx@ == c,
                old(self).scanner.source() == src,
                c >= n - 1 ==> self.scanner.emitted() == evs.len(),
                c < n - 1 ==> self.scanner.emitted() <= evs.len() && okc(
                    evs.take(self.scanner.emitted() as int),
                ) == c + 1,
                self.previous == old(self).current,
                self.chunk == old(self).chunk,
                self.heap == old(self).heap,
                self.failed == old(self).failed,
                self.panic_mode == (self.errors@.len() > 0),
                self.errors@.len() <= 1,
                old(self).failed@ ==> self.errors@ == old(self).errors@ && self.panic_mode,
                !old(self).failed@ ==> errors_view(self.errors@) == opt_seq(
                    first_err(evs.take(self.scanner.emitted() as int)),
                ),
            decreases evs.len() - self.scanner.emitted(),
        {
            let ghost e = self.scanner.emitted() as int;
            match self.scanner.next() {
                Some(Ok(token)) => {
                    proof {
                        assert(evs[e] == Ok::<TokenV, LoxErrorV>(token@));
                        lemma_tok_at(evs, e);
                        if c + 1 >= n - 1 && e + 1 < evs.len() {
                            lemma_okc_take_lt(evs, e + 1);
                        }
                        if !self.failed@ {
                            lemma_first_err_prefix(evs, e + 1, c + 1);
                        }
                    }
                    self.current = Some(token);
                    return;
                },
                Some(Err(err)) => {
                    proof {
                        assert(evs[e] == Err::<TokenV, LoxErrorV>(err@));
                        lemma_err_at(evs, e);
                    }
                    self.report(err);
                    proof {
                        if !old(self).failed@ {
                            assert(errors_view(self.errors@) =~= opt_seq(
                                first_err(evs.take(e + 1)),
                            ));
                        }
                    }
                },
                None => {
                    let line = self.scanner.line();
                    proof {
                        reveal_strlit("");
                        assert(src.subrange(0, src.len() as int) =~= src);
                        if c < n - 1 {
                            assert(evs.take(e) =~= evs);
                        }
                        if !self.failed@ {
                            lemma_first_err_prefix(evs, evs.len() as int, c + 1);
                        }
                    }
                    self.current = Some(Token::new(TokenType::Eof, "", None, line));
                    proof {
                        assert(self.current->Some_0@.lexeme =~= Seq::<char>::empty());
                    }
                    return;
                },
            }
        }
    }

    /// The line of the last token consumed (or of the lookahead before any).
    fn previous_or_current_line(&self) -> (l: usize)
        ensures
            l == self.line_now(),
    {
        match &self.previous {
            Some(t) => t.line,
            None => match &self.current {
                Some(t) => t.line,
                None => 1,
            },
        }
    }

    fn emit_byte(&mut self, byte: u8)
        requires
            old(self).chunk.wf(),
            old(self).chunk.code@.len() < usize::MAX,
        ensures
            final(self).chunk.wf(),
            final(self).chunk.code@ == old(self).chunk.code@.push(byte),
            final(self).chunk.lines@ == old(self).chunk.lines@.push(old(self).line_now()),
            final(self).chunk.constants == old(self).chunk.constants,
            final(self).heap == old(self).heap,
            same_tokens(*old(self), *final(self)),
    {
        let line = self.previous_or_current_line();
        self.chunk.write_byte(byte, line);
    }

    fn emit_op(&mut self, op: OpCode)
        requires
            old(self).chunk.wf(),
            old(self).chunk.code@.len() < usize::MAX,
        ensures
            final(self).chunk.wf(),
            final(self).chunk.code@ == old(self).chunk.code@.push(opcode_byte(op)),
            final(self).chunk.lines@ == old(self).chunk.lines@.push(old(self).line_now()),
            final(self).chunk.constants == old(self).chunk.constants,
            final(self).heap == old(self).heap,
            same_tokens(*old(self), *final(self)),
    {
        let line = self.previous_or_current_line();
        self.chunk.write_op(op, line);
    }

    /// Add `value` to the constant pool and emit `OP_CONSTANT <index>`.
    fn emit_constant(&mut self, value: Value<String>)
        requires
            old(self).chunk.wf(),
            old(self).chunk.code@.len() + 2 < usize::MAX,
            old(self).chunk.constants@.len() < 256,
        ensures
            final(self).chunk.wf(),
            final(self).chunk.code@ == old(self).chunk.code@ + seq![
                opcode_byte(OpCode::Constant),
                old(self).chunk.constants@.len() as u8,
            ],
            final(self).chunk.lines@ == old(self).chunk.lines@ + seq![
                old(self).line_now(),
                old(self).line_now(),
            ],
            final(self).chunk.constants@ == old(self).chunk.constants@.push(value),
            final(self).heap == old(self).heap,
            same_tokens(*old(self), *final(self)),
    {
        let idx = self.chunk.add_constant(value);
        self.emit_op(OpCode::Constant);
        self.emit_byte(idx);
        assert(self.chunk.code@ =~= old(self).chunk.code@ + seq![
            opcode_byte(OpCode::Constant),
            old(self).chunk.constants@.len() as u8,
        ]);
        assert(self.chunk.lines@ =~= old(self).chunk.lines@ + seq![
            old(self).line_now(),
            old(self).line_now(),
        ]);
    }

    fn current_token(&self) -> (t: &Token)
        requires
            self.current is Some,
        ensures
            *t == self.current->Some_0,
    {
        self.current.as_ref().unwrap()
    }

    fn previous_token(&self) -> (t: &Token)
        requires
            self.previous is Some,
        ensures
            *t == self.previous->Some_0,
    {
        self.previous.as_ref().unwrap()
    }

    /// Whether the lookahead is an `expected` token.
    fn check(&self, expected: TokenType) -> (b: bool)
        requires
            self.current is Some,
        ensures
            b == (self.current->Some_0.ttype == expected),
    {
        self.current_token().ttype == expected
    }

    /// Raise a syntax error at the lookahead token.
    fn error_at_current(&mut self, message: &str)
        requires
            old(self).inv(),
            old(self).cur_idx@ >= 0,
        ensures
            final(self).inv(),
            final(self).failed@,
            final(self).scanner == old(self).scanner,
            final(self).previous == old(self).previous,
            final(self).current == old(self).current,
            final(self).chunk == old(self).chunk,
            final(self).heap == old(self).heap,
            final(self).cur_idx == old(self).cur_idx,
            old(self).failed@ ==> final(self).errors@ == old(self).errors@,
            !old(self).failed@ ==> errors_view(final(self).errors@) == reported(
                old(self).evs(),
                old(self).cur_idx@,
                old(self).tok(old(self).cur_idx@),
                message@,
            ),
    {
        self.failed = Ghost(true);
        if self.panic_mode {
            proof {
                if !old(self).failed@ {
                    assert(err_before(old(self).evs(), old(self).cur_idx@) is Some);
                }
            }
            return;
        }
        proof {
            if !old(self).failed@ {
                assert(errors_view(self.errors@) =~= Seq::<LoxErrorV>::empty());
                assert(err_before(old(self).evs(), old(self).cur_idx@) is None);
            }
        }
        self.panic_mode = true;
        let token = self.current_token().clone();
        self.errors.push(LoxError::parse(&token, message));
        assert(errors_view(self.errors@) =~= seq![parse_error_v(token@, message@)]);
        assert(token@ == old(self).tok(old(self).cur_idx@));
    }

    /// Raise a syntax error at the token just consumed.
    fn error_at_previous(&mut self, message: &str)
        requires
            old(self).inv(),
            old(self).cur_idx@ >= 1,
        ensures
            final(self).inv(),
            final(self).failed@,
            final(self).scanner == old(self).scanner,
            final(self).previous == old(self).previous,
            final(self).current == old(self).current,
            final(self).chunk == old(self).chunk,
            final(self).heap == old(self).heap,
            final(self).cur_idx == old(self).cur_idx,
            old(self).failed@ ==> final(self).errors@ == old(self).errors@,
            !old(self).failed@ ==> errors_view(final(self).errors@) == reported(
                old(self).evs(),
                old(self).cur_idx@,
                old(self).tok(old(self).cur_idx@ - 1),
                message@,
            ),
    {
        self.failed = Ghost(true);
        if self.panic_mode {
            proof {
                if !old(self).failed@ {
                    assert(err_before(old(self).evs(), old(self).cur_idx@) is Some);
                }
            }
            return;
        }
        proof {
            if !old(self).failed@ {
                assert(errors_view(self.errors@) =~= Seq::<LoxErrorV>::empty());
                assert(err_before(old(self).evs(), old(self).cur_idx@) is None);
            }
        }
        self.panic_mode = true;
        let token = self.previous_token().clone();
        self.errors.push(LoxError::parse(&token, message));
        assert(errors_view(self.errors@) =~= seq![parse_error_v(token@, message@)]);
        assert(token@ == old(self).tok(old(self).cur_idx@ - 1));
    }

    /// Consume an `expected` token, or raise `message` at the lookahead.
    fn consume(&mut self, expected: TokenType, message: &str)
        requires
            old(self).inv(),
            0 <= old(self).cur_idx@ <= old(self).n(),
        ensures
            final(self).inv(),
            final(self).scanner.source() == old(self).scanner.source(),
            final(self).chunk == old(self).chunk,
            final(self).heap == old(self).heap,
            old(self).failed@ ==> final(self).failed@ && final(self).errors@ == old(self).errors@,
            old(self).tok(old(self).cur_idx@).ttype == expected ==> {
                &&& final(self).cur_idx@ == old(self).cur_idx@ + 1
                &&& final(self).failed == old(self).failed
            },
            old(self).tok(old(self).cur_idx@).ttype != expected ==> {
                &&& final(self).cur_idx@ == old(self).cur_idx@
                &&& final(self).failed@
                &&& !old(self).failed@ ==> errors_view(final(self).errors@) == reported(
                    old(self).evs(),
                    old(self).cur_idx@,
                    old(self).tok(old(self).cur_idx@),
                    message@,
                )
            },
    {
        if self.check(expected) {
            self.advance();
            return;
        }
        self.error_at_current(message);
    }
}

impl Compiler {
    /// Parse and emit an expression.
    fn expression(&mut self)
        requires
            old(self).inv(),
            0 <= old(self).cur_idx@ < old(self).n(),
            old(self).chunk.code@.len() <= 2 * old(self).cur_idx@,
        ensures
            progressed(*old(self), *final(self)),
            old(self).cur_idx@ < final(self).cur_idx@ <= old(self).n(),
            final(self).chunk.code@.len() <= old(self).chunk.code@.len() + 2 * (
            final(self).cur_idx@ - old(self).cur_idx@),
            !old(self).failed@ ==> compiled_as(
                *old(self),
                *final(self),
                p_expr(old(self).ts(), old(self).cur_idx@, 0u8),
            ),
        decreases old(self).n() - old(self).cur_idx@, 4int,
    {
        self.parse_precedence(Precedence::Equality);
    }

    /// Parse an expression whose operators bind at least as tightly as
    /// `prec`: a prefix action on the next token, then infix actions while
    /// the lookahead's precedence is at least `prec`.
    fn parse_precedence(&mut self, prec: Precedence)
        requires
            old(self).inv(),
            0 <= old(self).cur_idx@ < old(self).n(),
            old(self).chunk.code@.len() <= 2 * old(self).cur_idx@,
            prec != Precedence::Lowest,
        ensures
            progressed(*old(self), *final(self)),
            old(self).cur_idx@ < final(self).cur_idx@ <= old(self).n(),
            final(self).chunk.code@.len() <= old(self).chunk.code@.len() + 2 * (
            final(self).cur_idx@ - old(self).cur_idx@),
            !old(self).failed@ ==> compiled_as(
                *old(self),
                *final(self),
                p_expr(old(self).ts(), old(self).cur_idx@, min_power(prec)),
            ),
        decreases old(self).n() - old(self).cur_idx@, 3int,
    {
        let ghost a = *self;
        let ghost ts = self.ts();
        let ghost evs = self.evs();
        let ghost n = self.n();
        let ghost c0 = self.cur_idx@;
        let ghost min = min_power(prec);
        proof {
            lemma_p_expr_split(ts, c0, min);
            lemma_rule_table(prec, ts[c0].ttype);
        }
        self.advance();
        let ghost m1 = *self;
        let prefix = rule_for(self.previous_token().ttype).prefix;
        match prefix {
            ParseFn::Nothing => {
                self.error_at_previous("Expect expression.");
                proof {
                    if !a.failed@ {
                        assert(p_atom(ts, c0) == Err::<(Node, int), (int, Seq<char>)>(
                            (c0, expect_expression_msg()),
                        ));
                        assert(front(c0, expect_expression_msg()) == c0 + 1);
                    }
                }
                return;
            },
            _ => {},
        }
        proof {
            if c0 >= n - 1 {
                assert(ts[c0] == ts.last());
            }
        }
        self.run_parse_fn(prefix);
        let ghost mut node: Node = Node::Atom(0);
        proof {
            if !a.failed@ && !self.failed@ {
                node = prefix_part(ts, c0)->Ok_0.0;
            }
        }
        while prec.level() <= rule_for(self.current_token().ttype).precedence.level()
            invariant
                self.inv(),
                a.inv(),
                self.scanner.source() == a.scanner.source(),
                ts == self.ts(),
                ts == a.ts(),
                evs == self.evs(),
                n == self.n(),
                parsable(ts),
                prec != Precedence::Lowest,
                min == min_power(prec),
                0 <= c0 < self.cur_idx@ <= n,
                a.cur_idx@ == c0,
                old(self).cur_idx@ == c0,
                old(self).n() == n,
                a.chunk.code@.len() <= 2 * c0,
                self.chunk.code@.len() <= a.chunk.code@.len() + 2 * (self.cur_idx@ - c0),
                a.failed@ ==> self.failed@ && self.errors@ == a.errors@,
                !a.failed@ && !self.failed@ ==> {
                    &&& p_expr(ts, c0, min) == p_loop(ts, node, self.cur_idx@, min)
                    &&& last_tok(node) == self.cur_idx@ - 1
                    &&& appended(a, *self, emit(ts, node, a.chunk.constants@.len(), a.heap@.len()))
                },
                !a.failed@ && self.failed@ ==> {
                    &&& p_expr(ts, c0, min) is Err
                    &&& errors_view(self.errors@) == failure(
                        evs,
                        p_expr(ts, c0, min)->Err_0.0,
                        p_expr(ts, c0, min)->Err_0.1,
                    )
                },
            decreases n - self.cur_idx@,
        {
            let ghost b = *self;
            let ghost j = self.cur_idx@;
            proof {
                lemma_rule_table(prec, self.tok(j).ttype);
                if j >= n - 1 {
                    assert(self.tok(j) == ts.last());
                }
                if !a.failed@ && !b.failed@ {
                    lemma_p_loop(ts, node, j, min);
                }
            }
            self.advance();
            let infix = rule_for(self.previous_token().ttype).infix;
            self.run_parse_fn(infix);
            proof {
                if !a.failed@ && !b.failed@ {
                    let r = infix_power(ts[j].ttype)->Some_0.1;
                    lemma_p_expr(ts, j + 1, r);
                    if !self.failed@ {
                        let (rn, k) = p_expr(ts, j + 1, r)->Ok_0;
                        let el = emit(ts, node, a.chunk.constants@.len(), a.heap@.len());
                        let er = emit(ts, rn, b.chunk.constants@.len(), b.heap@.len());
                        let ops = ops_emission(binary_ops(ts[j].ttype), ts[last_tok(rn)].line as usize);
                        lemma_appended_same(a, b, el);
                        lemma_appended_trans(a, b, *self, el, cat(er, ops));
                        lemma_cat_assoc(el, er, ops);
                        node = Node::Infix(Box::new(node), j, Box::new(rn));
                    }
                }
            }
        }
        proof {
            if !a.failed@ && !self.failed@ {
                let ci = self.cur_idx@;
                lemma_rule_table(prec, self.tok(ci).ttype);
                if ci < n {
                    assert(self.tok(ci) == ts[ci]);
                }
            }
        }
    }

    /// Run the grammar action `f` selected by the token just consumed.
    fn run_parse_fn(&mut self, f: ParseFn)
        requires
            can_dispatch(*old(self)),
            f != ParseFn::Nothing,
            f == ParseFn::Binary ==> rule_spec(old(self).tok(old(self).cur_idx@ - 1).ttype).infix
                == ParseFn::Binary,
            f != ParseFn::Binary ==> f == rule_spec(
                old(self).tok(old(self).cur_idx@ - 1).ttype,
            ).prefix,
        ensures
            dispatched(*old(self), *final(self)),
            !old(self).failed@ && f != ParseFn::Binary ==> compiled_as(
                *old(self),
                *final(self),
                prefix_part(old(self).ts(), old(self).cur_idx@ - 1),
            ),
            !old(self).failed@ && f == ParseFn::Binary ==> compiled_infix(
                *old(self),
                *final(self),
                p_expr(
                    old(self).ts(),
                    old(self).cur_idx@,
                    infix_power(old(self).ts()[old(self).cur_idx@ - 1].ttype)->Some_0.1,
                ),
                old(self).cur_idx@ - 1,
            ),
        decreases old(self).n() - old(self).cur_idx@, 6int,
    {
        proof {
            let t = old(self).tok(old(self).cur_idx@ - 1).ttype;
            lemma_rule_table(Precedence::Equality, t);
        }
        match f {
            ParseFn::Nothing => {},
            ParseFn::Grouping => self.grouping(),
            ParseFn::Unary => self.unary(),
            ParseFn::Binary => self.binary(),
            ParseFn::Number => self.number(),
            ParseFn::Literal => self.literal(),
            ParseFn::String => self.string(),
        }
    }

    /// `nil`, `true` or `false`.
    fn literal(&mut self)
        requires
            can_dispatch(*old(self)),
            is_atom(old(self).tok(old(self).cur_idx@ - 1).ttype),
            old(self).tok(old(self).cur_idx@ - 1).ttype != TokenType::Number,
            old(self).tok(old(self).cur_idx@ - 1).ttype != TokenType::String,
        ensures
            dispatched(*old(self), *final(self)),
            !old(self).failed@ ==> compiled_as(
                *old(self),
                *final(self),
                prefix_part(old(self).ts(), old(self).cur_idx@ - 1),
            ),
        decreases old(self).n() - old(self).cur_idx@, 5int,
    {
        let ghost a = *self;
        let op = match self.previous_token().ttype {
            TokenType::Nil => OpCode::Nil,
            TokenType::True => OpCode::True,
            _ => OpCode::False,
        };
        self.emit_op(op);
        proof {
            let ts = a.ts();
            let i = a.cur_idx@ - 1;
            assert(a.tok(i) == ts[i]);
            assert(self.chunk.code@ =~= a.chunk.code@ + seq![opcode_byte(op)]);
            assert(self.chunk.lines@ =~= a.chunk.lines@ + Seq::new(1, |k: int| a.line_now()));
            lemma_ops_appended(a, *self, seq![opcode_byte(op)], a.line_now());
            lemma_lits_before_mono(ts, i);
        }
    }

    /// A number literal: its text becomes a constant.
    fn number(&mut self)
        requires
            can_dispatch(*old(self)),
            old(self).tok(old(self).cur_idx@ - 1).ttype == TokenType::Number,
        ensures
            dispatched(*old(self), *final(self)),
            !old(self).failed@ ==> compiled_as(
                *old(self),
                *final(self),
                prefix_part(old(self).ts(), old(self).cur_idx@ - 1),
            ),
        decreases old(self).n() - old(self).cur_idx@, 5int,
    {
        let ghost a = *self;
        let ghost ts = a.ts();
        let ghost i = a.cur_idx@ - 1;
        proof {
            assert(a.tok(i) == ts[i]);
            assert(literal_fits(ts[i]));
            lemma_lits_before_step(ts, i);
        }
        let value = match &self.previous_token().literal {
            Some(Literal::Number(text)) => Value::Number(text.clone()),
            _ => {
                proof {
                    assert(false);
                }
                Value::Nil
            },
        };
        self.emit_constant(value);
        proof {
            lemma_consts_view_push(a.chunk.constants@, value);
            let em = atom_emission(ts[i], a.chunk.constants@.len(), a.heap@.len());
            assert(self.chunk.lines@ =~= a.chunk.lines@ + em.lines);
            assert(consts_view(self.chunk.constants@) =~= consts_view(a.chunk.constants@)
                + em.consts);
            assert(self.heap@ =~= a.heap@ + em.strs);
        }
    }

    /// A string literal: its body is allocated on the heap and the object
    /// becomes a constant.
    fn string(&mut self)
        requires
            can_dispatch(*old(self)),
            old(self).tok(old(self).cur_idx@ - 1).ttype == TokenType::String,
        ensures
            dispatched(*old(self), *final(self)),
            !old(self).failed@ ==> compiled_as(
                *old(self),
                *final(self),
                prefix_part(old(self).ts(), old(self).cur_idx@ - 1),
            ),
        decreases old(self).n() - old(self).cur_idx@, 5int,
    {
        let ghost a = *self;
        let ghost ts = a.ts();
        let ghost i = a.cur_idx@ - 1;
        proof {
            assert(a.tok(i) == ts[i]);
            assert(literal_fits(ts[i]));
            lemma_lits_before_step(ts, i);
        }
        let text = match &self.previous_token().literal {
            Some(Literal::String(body)) => body.clone(),
            _ => {
                proof {
                    assert(false);
                }
                String::new()
            },
        };
        let handle = self.heap.alloc_string(text.as_str());
        proof {
            lemma_handle_index(handle, a.heap@.len());
        }
        self.emit_constant(Value::Obj(handle));
        proof {
            lemma_consts_view_push(a.chunk.constants@, Value::Obj(handle));
            let em = atom_emission(ts[i], a.chunk.constants@.len(), a.heap@.len());
            assert(self.chunk.lines@ =~= a.chunk.lines@ + em.lines);
            assert(consts_view(self.chunk.constants@) =~= consts_view(a.chunk.constants@)
                + em.consts);
            assert(self.heap@ =~= a.heap@ + em.strs);
        }
    }

    /// A parenthesised expression; the `(` has been consumed.
    fn grouping(&mut self)
        requires
            can_dispatch(*old(self)),
            old(self).tok(old(self).cur_idx@ - 1).ttype == TokenType::LeftParen,
        ensures
            dispatched(*old(self), *final(self)),
            !old(self).failed@ ==> compiled_as(
                *old(self),
                *final(self),
                prefix_part(old(self).ts(), old(self).cur_idx@ - 1),
            ),
        decreases old(self).n() - old(self).cur_idx@, 5int,
    {
        let ghost a = *self;
        let ghost ts = a.ts();
        proof {
            lemma_messages_differ();
            assert(a.tok(a.cur_idx@ - 1) == ts[a.cur_idx@ - 1]);
        }
        self.expression();
        let ghost m = *self;
        self.consume(TokenType::RightParen, "Expect ')' after expression.");
        proof {
            if !a.failed@ && !m.failed@ {
                let j = m.cur_idx@;
                lemma_p_expr(ts, a.cur_idx@, 0u8);
                assert(m.tok(j) == ts[j]);
            }
        }
    }

    /// A prefix operator and its operand; the operator has been consumed.
    fn unary(&mut self)
        requires
            can_dispatch(*old(self)),
            prefix_power(old(self).tok(old(self).cur_idx@ - 1).ttype) is Some,
        ensures
            dispatched(*old(self), *final(self)),
            !old(self).failed@ ==> compiled_as(
                *old(self),
                *final(self),
                prefix_part(old(self).ts(), old(self).cur_idx@ - 1),
            ),
        decreases old(self).n() - old(self).cur_idx@, 5int,
    {
        let ghost a = *self;
        let ghost ts = a.ts();
        let op_kind = self.previous_token().ttype;
        proof {
            assert(a.tok(a.cur_idx@ - 1) == ts[a.cur_idx@ - 1]);
        }
        self.parse_precedence(Precedence::Unary);
        let ghost m = *self;
        let op = match op_kind {
            TokenType::Minus => OpCode::Negate,
            _ => OpCode::Not,
        };
        self.emit_op(op);
        proof {
            assert(self.chunk.code@ =~= m.chunk.code@ + seq![opcode_byte(op)]);
            assert(self.chunk.lines@ =~= m.chunk.lines@ + Seq::new(1, |k: int| m.line_now()));
            lemma_ops_appended(m, *self, seq![opcode_byte(op)], m.line_now());
            if !a.failed@ && !m.failed@ {
                lemma_p_expr(ts, a.cur_idx@, 10u8);
                let (r, j) = p_expr(ts, a.cur_idx@, 10u8)->Ok_0;
                assert(m.tok(j - 1) == ts[last_tok(r)]);
                lemma_appended_trans(
                    a,
                    m,
                    *self,
                    emit(ts, r, a.chunk.constants@.len(), a.heap@.len()),
                    ops_emission(seq![opcode_byte(op)], m.line_now()),
                );
            }
        }
    }

    /// A binary operator and its right operand; the left operand's code
    /// is already emitted and the operator has been consumed.
    fn binary(&mut self)
        requires
            can_dispatch(*old(self)),
            rule_spec(old(self).tok(old(self).cur_idx@ - 1).ttype).infix == ParseFn::Binary,
        ensures
            dispatched(*old(self), *final(self)),
            !old(self).failed@ ==> compiled_infix(
                *old(self),
                *final(self),
                p_expr(
                    old(self).ts(),
                    old(self).cur_idx@,
                    infix_power(old(self).ts()[old(self).cur_idx@ - 1].ttype)->Some_0.1,
                ),
                old(self).cur_idx@ - 1,
            ),
        decreases old(self).n() - old(self).cur_idx@, 5int,
    {
        let ghost a = *self;
        let ghost ts = a.ts();
        let op_kind = self.previous_token().ttype;
        proof {
            assert(a.tok(a.cur_idx@ - 1) == ts[a.cur_idx@ - 1]);
            lemma_rule_table(Precedence::Equality, op_kind);
        }
        let rule_prec = rule_for(op_kind).precedence;
        self.parse_precedence(rule_prec.next_higher());
        let ghost m = *self;
        let first = match op_kind {
            TokenType::Plus => OpCode::Add,
            TokenType::Minus => OpCode::Subtract,
            TokenType::Star => OpCode::Multiply,
            TokenType::Slash => OpCode::Divide,
            TokenType::EqualEqual | TokenType::BangEqual => OpCode::Equal,
            TokenType::Greater | TokenType::LessEqual => OpCode::Greater,
            _ => OpCode::Less,
        };
        self.emit_op(first);
        let negate = match op_kind {
            TokenType::BangEqual | TokenType::GreaterEqual | TokenType::LessEqual => true,
            _ => false,
        };
        if negate {
            self.emit_op(OpCode::Not);
        }
        proof {
            let ops = binary_ops(op_kind);
            assert(self.chunk.code@ =~= m.chunk.code@ + ops);
            assert(self.chunk.lines@ =~= m.chunk.lines@ + Seq::new(ops.len(), |k: int| m.line_now()));
            lemma_ops_appended(m, *self, ops, m.line_now());
            if !a.failed@ && !m.failed@ {
                let r = infix_power(op_kind)->Some_0.1;
                lemma_p_expr(ts, a.cur_idx@, r);
                let (rn, j) = p_expr(ts, a.cur_idx@, r)->Ok_0;
                assert(m.tok(j - 1) == ts[last_tok(rn)]);
                lemma_appended_trans(
                    a,
                    m,
                    *self,
                    emit(ts, rn, a.chunk.constants@.len(), a.heap@.len()),
                    ops_emission(ops, m.line_now()),
                );
            }
        }
    }
}

/// Compile a Lox expression into a chunk ending in `OP_RETURN`, with the
/// heap that holds its string constants.
///
/// The chunk holds the postfix code of the expression as [`parse_tree`]
/// reads it (see [`compile_result`]). On failure, the first error is
/// returned: a lexical error met before the first syntax error, or that
/// syntax error; later errors are suppressed.
pub fn compile(source: &str) -> (r: Result<(Chunk<Value<String>>, Heap), Vec<LoxError>>)
    requires
        source@.len() <= usize::MAX / 4,
        literal_count(scanned_tokens(source@)) <= 256,
    ensures
        match compile_result(source@) {
            Ok(em) => r matches Ok((chunk, heap)) && chunk.code@ == em.code && chunk.lines@
                == em.lines && consts_view(chunk.constants@) == em.consts && heap@ == em.strs,
            Err(es) => r matches Err(errs) && errors_view(errs@) == es,
        },
        r matches Ok((chunk, heap)) ==> {
            &&& chunk.constants@.len() <= 256
            &&& heap@.len() <= chunk.constants@.len()
            &&& chunk.code@.len() <= 2 * scanned_tokens(source@).len() + 2
        },
{
    proof {
        lemma_stream_facts(source@);
        lemma_messages_differ();
        lemma_parse_tree(scanned_tokens(source@));
    }
    let mut c = Compiler::new(source);
    c.advance();
    let ghost c1 = c;
    c.expression();
    let ghost c2 = c;
    c.consume(TokenType::Eof, "Expect end of expression.");
    let ghost c3 = c;
    c.emit_op(OpCode::Return);
    proof {
        let evs = c1.evs();
        let ts = c1.ts();
        let n = c1.n();
        if !c2.failed@ {
            let (tree, j) = p_expr(ts, 0, 0u8)->Ok_0;
            lemma_p_expr(ts, 0, 0u8);
            assert(c2.tok(j) == ts[j]);
            if ts[j].ttype == TokenType::Eof {
                if j < n - 1 {
                    assert(ts.drop_last()[j] == ts[j]);
                }
                assert(j == n - 1);
                let em = emit(ts, tree, 0, 0);
                let ret = ops_emission(seq![opcode_byte(OpCode::Return)], ts[j].line as usize);
                assert(c3.tok(j) == ts[j]);
                assert(c.chunk.code@ =~= cat(em, ret).code);
                assert(c.chunk.lines@ =~= cat(em, ret).lines);
                assert(consts_view(c1.chunk.constants@) =~= Seq::<Value<Seq<char>>>::empty());
                assert(consts_view(c.chunk.constants@) =~= cat(em, ret).consts);
                assert(c.heap@ =~= cat(em, ret).strs);
            }
        }
        assert(errors_view(c.errors@).len() == c.errors@.len());
        lemma_literal_count_take(c1.ts(), 0);
        assert(lits_before(c1.ts(), c.cur_idx@) <= literal_count(c1.ts())) by {
            let ts = c1.ts();
            let ci = c.cur_idx@;
            if 0 < ci < ts.len() {
                lemma_literal_count_take(ts, ci);
            }
        }
    }
    if c.errors.len() == 0 {
        Ok((c.chunk, c.heap))
    } else {
        Err(c.errors)
    }
}

// ---------------------------------------------------------------------
// Agreement with the tree parser
// ---------------------------------------------------------------------

proof fn lemma_first_err_none(s: Seq<ScanEventV>)
    ensures
        (first_err(s) is None) == (err_events(s).len() == 0),
    decreases s.len(),
{
    if s.len() > 0 {
        lemma_first_err_none(s.drop_last());
    }
}

proof fn lemma_err_before_none(evs: Seq<ScanEventV>, k: int)
    requires
        err_events(evs).len() == 0,
    ensures
        err_before(evs, k) is None,
    decreases evs.len(),
{
    if evs.len() > 0 {
        let rest = evs.drop_first();
        assert(evs =~= seq![evs[0]] + rest);
        lemma_ok_events_concat(seq![evs[0]], rest);
        let h = seq![evs[0]];
        assert(h.drop_last() =~= Seq::<ScanEventV>::empty());
        assert(h.last() == evs[0]);
        if evs[0] is Err {
            assert(err_events(h).len() == 1);
        }
        lemma_err_before_none(rest, k - 1);
    }
}

/// The bytecode compiler accepts exactly the sources that scan without a
/// lexical error and whose tokens the tree parser accepts; on a source
/// without lexical errors that the parser rejects, the compiler reports
/// the very syntax error the parser returns.
pub proof fn lemma_compile_agrees_with_parse(src: Seq<char>)
    ensures
        compile_result(src) is Ok <==> (spec_parse(scanned_tokens(src)) is Ok && scanned_errors(
            src,
        ).len() == 0),
        scanned_errors(src).len() == 0 ==> (spec_parse(scanned_tokens(src)) matches Err(e)
            ==> compile_result(src) == Err::<Emission, Seq<LoxErrorV>>(seq![e])),
{
    let evs = scan_events(src);
    let ts = scanned_tokens(src);
    lemma_scan_from_shape(src, 0, 1);
    lemma_trailing_eof(src);
    lemma_scanned_tokens_parsable(src);
    lemma_parse_tree(ts);
    lemma_first_err_none(evs);
    assert(evs.take(evs.len() as int) =~= evs);
    lemma_first_err_prefix(evs, evs.len() as int, ts.len() as int);
    if err_events(evs).len() == 0 {
        lemma_err_before_none(evs, ts.len() as int);
        match parse_tree(ts) {
            Ok(_) => {},
            Err((at, m)) => {
                lemma_err_before_none(evs, front(at, m));
            },
        }
    }
}

// ---------------------------------------------------------------------
// Compiled code is well formed
// ---------------------------------------------------------------------

proof fn lemma_decodable_shift(p: Seq<u8>, b: Seq<u8>, n: nat, j: int)
    requires
        0 <= j,
    ensures
        decodable(p + b, n, p.len() + j) == decodable(b, n, j),
    decreases b.len() + 1 - j,
{
    let c = p + b;
    if j < b.len() {
        assert(c[p.len() + j] == b[j]);
        if j + 1 < b.len() {
            assert(c[p.len() + j + 1] == b[j + 1]);
        }
        lemma_decodable_shift(p, b, n, j + 1);
        lemma_decodable_shift(p, b, n, j + 2);
    }
}

proof fn lemma_decodable_concat(a: Seq<u8>, b: Seq<u8>, n: nat, i: int)
    requires
        0 <= i <= a.len(),
        decodable(a, n, i),
        decodable(b, n, 0),
    ensures
        decodable(a + b, n, i),
    decreases a.len() - i,
{
    let c = a + b;
    if i == a.len() {
        lemma_decodable_shift(a, b, n, 0);
    } else {
        assert(c[i] == a[i]);
        if a[i] == opcode_byte(OpCode::Constant) {
            assert(c[i + 1] == a[i + 1]);
            lemma_decodable_concat(a, b, n, i + 2);
        } else {
            lemma_decodable_concat(a, b, n, i + 1);
        }
    }
}

proof fn lemma_ops_decodable(ops: Seq<u8>, n: nat, i: int)
    requires
        0 <= i,
        forall|k: int| 0 <= k < ops.len() ==> ops[k] != opcode_byte(OpCode::Constant),
    ensures
        decodable(ops, n, i),
    decreases ops.len() - i,
{
    if i < ops.len() {
        lemma_ops_decodable(ops, n, i + 1);
    }
}

/// The code of a parse tree is decodable against any pool that holds the
/// constants it adds.
proof fn lemma_emit_decodable(ts: Seq<TokenV>, t: Node, k: nat, h: nat, n: nat)
    requires
        k + emit(ts, t, k, h).consts.len() <= n,
    ensures
        decodable(emit(ts, t, k, h).code, n, 0),
    decreases t,
{
    match t {
        Node::Atom(a) => {
            let em = atom_emission(ts[a], k, h);
            if em.code.len() == 2 {
                assert(em.code[1] == k as u8);
                assert((k as u8) < n) by {
                    if n < 256 {
                        assert(k < 256);
                    }
                }
                lemma_decodable_shift(em.code, seq![], n, 0);
            } else {
                lemma_ops_decodable(em.code, n, 0);
            }
        },
        Node::Group(inner, _) => {
            lemma_emit_decodable(ts, *inner, k, h, n);
        },
        Node::Prefix(op, r) => {
            let er = emit(ts, *r, k, h);
            lemma_emit_decodable(ts, *r, k, h, n);
            let ops = seq![unary_op(ts[op].ttype)];
            lemma_ops_decodable(ops, n, 0);
            lemma_decodable_concat(er.code, ops, n, 0);
        },
        Node::Infix(l, op, r) => {
            let el = emit(ts, *l, k, h);
            let er = emit(ts, *r, k + el.consts.len(), h + el.strs.len());
            lemma_emit_decodable(ts, *l, k, h, n);
            lemma_emit_decodable(ts, *r, k + el.consts.len(), h + el.strs.len(), n);
            lemma_decodable_concat(el.code, er.code, n, 0);
            let ops = binary_ops(ts[op].ttype);
            lemma_ops_decodable(ops, n, 0);
            lemma_decodable_concat(el.code + er.code, ops, n, 0);
        },
    }
}

/// Every chunk the compiler produces is well formed: each `OP_CONSTANT`
/// is followed by its operand, and the operand names a constant of the
/// chunk. So every compiled chunk can be listed by the disassembler and
/// read by the virtual machine without running off its code or its pool.
pub proof fn lemma_compiled_code_decodable(src: Seq<char>)
    ensures
        compile_result(src) matches Ok(em) ==> decodable(em.code, em.consts.len(), 0),
{
    let evs = scan_events(src);
    let ts = ok_events(evs);
    match parse_tree(ts) {
        Ok((tree, j)) => {
            let em = emit(ts, tree, 0, 0);
            let ret = seq![opcode_byte(OpCode::Return)];
            lemma_emit_decodable(ts, tree, 0, 0, em.consts.len());
            lemma_ops_decodable(ret, em.consts.len(), 0);
            lemma_decodable_concat(em.code, ret, em.consts.len(), 0);
        },
        Err(_) => {},
    }
}

} // verus!
