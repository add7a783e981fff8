//! Chunks the compiler produces are safe to run: the virtual machine never
//! meets malformed bytecode in them (an unknown opcode, a missing operand
//! or constant, a stale handle, stack underflow, or the end of the code
//! before `OP_RETURN`). Running one either returns or stops at a runtime
//! type error.

use vstd::prelude::*;

use crate::parser::{
    infix_power, is_atom, lemma_p_atom, lemma_p_expr, lemma_p_loop, p_atom, p_expr, p_loop,
    parsable, parse_tree, prefix_power, Node,
};
use crate::scanner::{
    lemma_scan_from_shape, literal_fits, literals_attached, ok_events, scan_events,
};
use crate::token::{LiteralV, TokenType, TokenV};
use crate::vm::chunk::{decode_opcode, opcode_byte, OpCode};
use crate::vm::compiler::{
    atom_emission, binary_ops, cat, compile_result, emit, ops_emission, unary_op, Emission,
};
use crate::vm::heap::{handle_of, lemma_handle_index, ObjV};
use crate::vm::machine::{
    consts_shapes, equal_shape, loaded, loaded_shapes, run_spec, shape_of, step_spec, MState, Outcome, Shape,
};
use crate::vm::value::{Number, Value};
use crate::interpreter::{binary_result, unary_result, Val};

verus! {

/// Every node of a parse tree sits on a token of the right kind: literals
/// (carrying their literal), prefix operators and infix operators.
pub open spec fn tree_ok(ts: Seq<TokenV>, n: Node) -> bool
    decreases n,
{
    match n {
        Node::Atom(a) => 0 <= a < ts.len() && is_atom(ts[a].ttype) && literal_fits(ts[a]),
        Node::Group(inner, _) => tree_ok(ts, *inner),
        Node::Prefix(op, r) => 0 <= op < ts.len() && prefix_power(ts[op].ttype) is Some && tree_ok(
            ts,
            *r,
        ),
        Node::Infix(l, op, r) => 0 <= op < ts.len() && infix_power(ts[op].ttype) is Some
            && tree_ok(ts, *l) && tree_ok(ts, *r),
    }
}

proof fn lemma_trees_ok_expr(ts: Seq<TokenV>, i: int, min: u8)
    requires
        parsable(ts),
        literals_attached(ts),
        0 <= i < ts.len(),
    ensures
        p_expr(ts, i, min) matches Ok((n, j)) ==> tree_ok(ts, n),
    decreases ts.len() - i, 2int,
{
    lemma_p_expr(ts, i, min);
    if prefix_power(ts[i].ttype) is Some {
        if i + 1 < ts.len() {
            lemma_trees_ok_expr(ts, i + 1, 10u8);
            lemma_p_expr(ts, i + 1, 10u8);
            match p_expr(ts, i + 1, 10u8) {
                Ok((r, j)) => {
                    lemma_trees_ok_loop(ts, Node::Prefix(i, Box::new(r)), j, min);
                },
                Err(_) => {},
            }
        }
    } else {
        lemma_trees_ok_atom(ts, i);
        lemma_p_atom(ts, i);
        match p_atom(ts, i) {
            Ok((a, j)) => {
                lemma_trees_ok_loop(ts, a, j, min);
            },
            Err(_) => {},
        }
    }
}

proof fn lemma_trees_ok_atom(ts: Seq<TokenV>, i: int)
    requires
        parsable(ts),
        literals_attached(ts),
        0 <= i < ts.len(),
    ensures
        p_atom(ts, i) matches Ok((n, j)) ==> tree_ok(ts, n),
    decreases ts.len() - i, 1int,
{
    if is_atom(ts[i].ttype) {
        assert(literal_fits(ts[i]));
    } else if ts[i].ttype == TokenType::LeftParen && i + 1 < ts.len() {
        lemma_trees_ok_expr(ts, i + 1, 0u8);
    }
}

proof fn lemma_trees_ok_loop(ts: Seq<TokenV>, lhs: Node, j: int, min: u8)
    requires
        parsable(ts),
        literals_attached(ts),
        0 <= j < ts.len(),
        tree_ok(ts, lhs),
    ensures
        p_loop(ts, lhs, j, min) matches Ok((n, k)) ==> tree_ok(ts, n),
    decreases ts.len() - j, 0int,
{
    match infix_power(ts[j].ttype) {
        Some((l, r)) => {
            if l >= min && j + 1 < ts.len() {
                lemma_trees_ok_expr(ts, j + 1, r);
                match p_expr(ts, j + 1, r) {
                    Ok((rhs, k)) => {
                        lemma_p_expr(ts, j + 1, r);
                        if j < k < ts.len() {
                            lemma_trees_ok_loop(
                                ts,
                                Node::Infix(Box::new(lhs), j, Box::new(rhs)),
                                k,
                                min,
                            );
                        }
                    },
                    Err(_) => {},
                }
            }
        },
        None => {},
    }
}

/// A handle in shape `sh` (if any) names one of the first `n` objects.
pub open spec fn live<N>(sh: Shape<N>, n: nat) -> bool {
    match sh {
        Shape::Obj(x) => x.index() < n,
        _ => true,
    }
}

/// A state reached while running compiled code over a heap that started
/// with `base` objects: live handles on the stack and in the pool, and at
/// most one new object per byte run so far.
pub open spec fn sound<N>(base: nat, consts: Seq<Shape<N>>, s: MState<N>) -> bool {
    &&& 0 <= s.ip
    &&& base <= s.heap.len() <= base + s.ip
    &&& forall|i: int| 0 <= i < s.stack.len() ==> live(#[trigger] s.stack[i], s.heap.len())
    &&& forall|i: int| 0 <= i < consts.len() ==> live(#[trigger] consts[i], base)
}

/// The code of `em` sits at `at` in `code`, and its constants at `k` in
/// the pool.
pub open spec fn placed<N: Number>(code: Seq<u8>, consts: Seq<Shape<N>>, em: Emission, at: int, k: nat) -> bool {
    &&& 0 <= at
    &&& at + em.code.len() <= code.len()
    &&& forall|i: int| 0 <= i < em.code.len() ==> code[at + i] == #[trigger] em.code[i]
    &&& k + em.consts.len() <= consts.len()
    &&& forall|j: int| 0 <= j < em.consts.len() ==> consts[k + j] == loaded::<N>(#[trigger] em.consts[j])
}

proof fn lemma_run_next<N: Number>(code: Seq<u8>, consts: Seq<Shape<N>>, lines: Seq<usize>, s: MState<N>)
    requires
        0 <= s.ip < code.len(),
        step_spec(code, consts, lines, s) matches Outcome::Next(t) && s.ip < t.ip <= s.ip + 2,
    ensures
        run_spec(code, consts, lines, s) == run_spec(
            code,
            consts,
            lines,
            step_spec(code, consts, lines, s)->Next_0,
        ),
{
}

proof fn lemma_run_stop<N: Number>(code: Seq<u8>, consts: Seq<Shape<N>>, lines: Seq<usize>, s: MState<N>)
    requires
        0 <= s.ip < code.len(),
        !(step_spec(code, consts, lines, s) is Next),
    ensures
        run_spec(code, consts, lines, s) == step_spec(code, consts, lines, s),
{
}

proof fn lemma_placed_cat<N: Number>(code: Seq<u8>, consts: Seq<Shape<N>>, a: Emission, b: Emission, at: int, k: nat)
    requires
        placed(code, consts, cat(a, b), at, k),
    ensures
        placed(code, consts, a, at, k),
        placed(code, consts, b, at + a.code.len(), k + a.consts.len()),
{
    let c = cat(a, b);
    assert forall|i: int| 0 <= i < a.code.len() implies code[at + i] == #[trigger] a.code[i] by {
        assert(c.code[i] == a.code[i]);
    }
    assert forall|i: int| 0 <= i < b.code.len() implies code[at + a.code.len() + i]
        == #[trigger] b.code[i] by {
        assert(c.code[a.code.len() + i] == b.code[i]);
    }
    assert forall|j: int| 0 <= j < a.consts.len() implies consts[k + j] == loaded::<N>(
        #[trigger] a.consts[j],
    ) by {
        assert(c.consts[j] == a.consts[j]);
    }
    assert forall|j: int| 0 <= j < b.consts.len() implies consts[k + a.consts.len() + j]
        == loaded::<N>(#[trigger] b.consts[j]) by {
        assert(c.consts[a.consts.len() + j] == b.consts[j]);
    }
}

/// Running one operator byte `op` on top of a stack that holds `below`
/// and one or two more values.
proof fn lemma_op_step<N: Number>(
    code: Seq<u8>,
    consts: Seq<Shape<N>>,
    lines: Seq<usize>,
    base: nat,
    s: MState<N>,
    below: Seq<Shape<N>>,
    operands: nat,
) -> (t: Option<MState<N>>)
    requires
        sound(base, consts, s),
        base + code.len() <= u32::MAX,
        s.ip < code.len(),
        operands == 1 || operands == 2,
        s.stack.len() == below.len() + operands,
        s.stack.take(below.len() as int) == below,
        operands == 1 ==> code[s.ip] == opcode_byte(OpCode::Negate) || code[s.ip] == opcode_byte(
            OpCode::Not,
        ),
        operands == 2 ==> {
            ||| code[s.ip] == opcode_byte(OpCode::Add)
            ||| code[s.ip] == opcode_byte(OpCode::Subtract)
            ||| code[s.ip] == opcode_byte(OpCode::Multiply)
            ||| code[s.ip] == opcode_byte(OpCode::Divide)
            ||| code[s.ip] == opcode_byte(OpCode::Equal)
            ||| code[s.ip] == opcode_byte(OpCode::Greater)
            ||| code[s.ip] == opcode_byte(OpCode::Less)
        },
    ensures
        match t {
            None => run_spec(code, consts, lines, s) is Failed,
            Some(t) => {
                &&& t.ip == s.ip + 1
                &&& t.stack.len() == below.len() + 1
                &&& t.stack.drop_last() == below
                &&& sound(base, consts, t)
                &&& run_spec(code, consts, lines, s) == run_spec(code, consts, lines, t)
            },
        },
{
    let n = s.stack.len();
    let st = step_spec(code, consts, lines, s);
    if st is Next {
        let t = st->Next_0;
        assert(t.stack.drop_last() =~= below) by {
            if operands == 2 {
                assert(s.stack.take(n - 2) =~= below);
            } else {
                assert(s.stack.drop_last() =~= below);
            }
        }
        if code[s.ip] == opcode_byte(OpCode::Add) && s.stack[n - 2] is Obj && s.stack[n - 1] is Obj {
            lemma_handle_index(handle_of(s.heap.len()), s.heap.len());
        }
        assert forall|i: int| 0 <= i < t.stack.len() implies live(#[trigger] t.stack[i], t.heap.len()) by {
            if i < t.stack.len() - 1 {
                assert(t.stack[i] == s.stack[i]);
                assert(live(s.stack[i], s.heap.len()));
            } else if code[s.ip] == opcode_byte(OpCode::Add) && s.stack[n - 2] is Obj
                && s.stack[n - 1] is Obj {
                lemma_handle_index(handle_of(s.heap.len()), s.heap.len());
            }
        }
        lemma_run_next(code, consts, lines, s);
        Some(t)
    } else {
        assert(live(s.stack[n - 1], s.heap.len()));
        if operands == 2 {
            assert(live(s.stack[n - 2], s.heap.len()));
        }
        lemma_run_stop(code, consts, lines, s);
        None
    }
}

/// Running the code of a parse tree: either the run fails with a runtime
/// error inside it, or it pushes exactly one value and carries on after
/// the tree's last byte.
proof fn lemma_segment<N: Number>(
    code: Seq<u8>,
    consts: Seq<Shape<N>>,
    lines: Seq<usize>,
    base: nat,
    ts: Seq<TokenV>,
    n: Node,
    k: nat,
    h: nat,
    s: MState<N>,
) -> (t: Option<MState<N>>)
    requires
        tree_ok(ts, n),
        sound(base, consts, s),
        base + code.len() <= u32::MAX,
        consts.len() <= 256,
        placed(code, consts, emit(ts, n, k, h), s.ip, k),
    ensures
        match t {
            None => run_spec(code, consts, lines, s) is Failed,
            Some(t) => {
                &&& t.ip == s.ip + emit(ts, n, k, h).code.len()
                &&& t.stack.len() == s.stack.len() + 1
                &&& t.stack.drop_last() == s.stack
                &&& sound(base, consts, t)
                &&& run_spec(code, consts, lines, s) == run_spec(code, consts, lines, t)
            },
        },
    decreases n,
{
    let em = emit(ts, n, k, h);
    match n {
        Node::Atom(a) => {
            let tok = ts[a];
            let st = step_spec(code, consts, lines, s);
            assert(code[s.ip + 0] == em.code[0]);
            if tok.ttype == TokenType::Number || tok.ttype == TokenType::String {
                assert(code[s.ip + 1] == em.code[1]);
                assert(em.code[1] == k as u8);
                assert(k < 256);
                assert(consts[k as int + 0] == loaded::<N>(em.consts[0]));
                assert(live(consts[k as int], base));
            }
            let t = st->Next_0;
            assert(t.stack.drop_last() =~= s.stack);
            assert forall|i: int| 0 <= i < t.stack.len() implies live(#[trigger] t.stack[i], t.heap.len()) by {
                if i < s.stack.len() {
                    assert(t.stack[i] == s.stack[i]);
                }
            }
            lemma_run_next(code, consts, lines, s);
            Some(t)
        },
        Node::Group(inner, _) => {
            lemma_segment(code, consts, lines, base, ts, *inner, k, h, s)
        },
        Node::Prefix(op, r) => {
            let er = emit(ts, *r, k, h);
            let ops = ops_emission(seq![unary_op(ts[op].ttype)], ts[crate::parser::last_tok(*r)].line as usize);
            lemma_placed_cat(code, consts, er, ops, s.ip, k);
            match lemma_segment(code, consts, lines, base, ts, *r, k, h, s) {
                None => None,
                Some(t1) => {
                    assert(code[t1.ip + 0] == ops.code[0]);
                    assert(t1.stack.take(s.stack.len() as int) =~= s.stack);
                    match lemma_op_step(code, consts, lines, base, t1, s.stack, 1) {
                        None => None,
                        Some(t2) => Some(t2),
                    }
                },
            }
        },
        Node::Infix(l, op, r) => {
            let el = emit(ts, *l, k, h);
            let er = emit(ts, *r, k + el.consts.len(), h + el.strs.len());
            let ops = ops_emission(binary_ops(ts[op].ttype), ts[crate::parser::last_tok(*r)].line as usize);
            lemma_placed_cat(code, consts, cat(el, er), ops, s.ip, k);
            lemma_placed_cat(code, consts, el, er, s.ip, k);
            match lemma_segment(code, consts, lines, base, ts, *l, k, h, s) {
                None => None,
                Some(t1) => {
                    match lemma_segment(
                        code,
                        consts,
                        lines,
                        base,
                        ts,
                        *r,
                        k + el.consts.len(),
                        h + el.strs.len(),
                        t1,
                    ) {
                        None => None,
                        Some(t2) => {
                            assert(code[t2.ip + 0] == ops.code[0]);
                            assert(t2.stack.take(s.stack.len() as int) =~= s.stack) by {
                                assert(t2.stack.drop_last() == t1.stack);
                                assert(t1.stack.drop_last() == s.stack);
                            }
                            match lemma_op_step(code, consts, lines, base, t2, s.stack, 2) {
                                None => None,
                                Some(t3) => {
                                    if ops.code.len() == 2 {
                                        assert(code[t2.ip + 1] == ops.code[1]);
                                        assert(t3.stack.take(s.stack.len() as int) =~= s.stack);
                                        lemma_op_step(code, consts, lines, base, t3, s.stack, 1)
                                    } else {
                                        Some(t3)
                                    }
                                },
                            }
                        },
                    }
                },
            }
        },
    }
}

/// Every object constant of a tree's code names one of the objects it
/// allocates.
proof fn lemma_emit_handles(ts: Seq<TokenV>, n: Node, k: nat, h: nat)
    requires
        h + emit(ts, n, k, h).strs.len() <= u32::MAX,
    ensures
        forall|j: int|
            0 <= j < emit(ts, n, k, h).consts.len() ==> live(
                shape_of(#[trigger] emit(ts, n, k, h).consts[j]),
                h + emit(ts, n, k, h).strs.len(),
            ),
    decreases n,
{
    let em = emit(ts, n, k, h);
    match n {
        Node::Atom(a) => {
            lemma_handle_index(handle_of(h), h);
        },
        Node::Group(inner, _) => {
            lemma_emit_handles(ts, *inner, k, h);
        },
        Node::Prefix(op, r) => {
            lemma_emit_handles(ts, *r, k, h);
            let er = emit(ts, *r, k, h);
            assert forall|j: int| 0 <= j < em.consts.len() implies live(
                shape_of(#[trigger] em.consts[j]),
                h + em.strs.len(),
            ) by {
                assert(em.consts[j] == er.consts[j]);
            }
        },
        Node::Infix(l, op, r) => {
            let el = emit(ts, *l, k, h);
            let er = emit(ts, *r, k + el.consts.len(), h + el.strs.len());
            lemma_emit_handles(ts, *l, k, h);
            lemma_emit_handles(ts, *r, k + el.consts.len(), h + el.strs.len());
            assert forall|j: int| 0 <= j < em.consts.len() implies live(
                shape_of(#[trigger] em.consts[j]),
                h + em.strs.len(),
            ) by {
                if j < el.consts.len() {
                    assert(em.consts[j] == el.consts[j]);
                } else {
                    assert(em.consts[j] == er.consts[j - el.consts.len()]);
                }
            }
        },
    }
}

/// Every chunk the compiler produces runs on the virtual machine without
/// meeting malformed bytecode: started on the compiled heap, the machine
/// either returns a value at `OP_RETURN` or stops at a runtime type error.
/// (Within the machine's limits: one-byte constant operands and 32-bit
/// object handles.)
pub proof fn lemma_compiled_chunks_run<N: Number>(src: Seq<char>)
    ensures
        compile_result(src) matches Ok(em) ==> (em.consts.len() <= 256 && em.strs.len()
            + em.code.len() <= u32::MAX ==> {
            let r = run_spec(
                em.code,
                loaded_shapes::<N>(em.consts),
                em.lines,
                MState { ip: 0, stack: seq![], heap: em.strs },
            );
            &&& r is Returned || r is Failed
            &&& r matches Outcome::Returned(v, h) ==> live(v, h.len())
        }),
{
    let evs = scan_events(src);
    let ts = ok_events(evs);
    match compile_result(src) {
        Ok(em) => {
            if em.consts.len() <= 256 && em.strs.len() + em.code.len() <= u32::MAX {
                let (tree, j) = parse_tree(ts)->Ok_0;
                lemma_scan_from_shape(src, 0, 1);
                crate::parser::lemma_scanned_tokens_parsable(src);
                lemma_trees_ok_expr(ts, 0, 0u8);
                let body = emit(ts, tree, 0, 0);
                let ret = ops_emission(seq![opcode_byte(OpCode::Return)], ts[j].line as usize);
                assert(em == cat(body, ret));
                let code = em.code;
                let consts = loaded_shapes::<N>(em.consts);
                let lines = em.lines;
                let base = em.strs.len();
                lemma_emit_handles(ts, tree, 0, 0);
                assert(em.strs =~= body.strs);
                let s0 = MState { ip: 0, stack: seq![], heap: em.strs };
                assert forall|i: int| 0 <= i < consts.len() implies live(#[trigger] consts[i], base) by {
                    assert(em.consts[i] == body.consts[i]);
                }
                assert(placed(code, consts, em, 0, 0)) by {
                    assert forall|i: int| 0 <= i < em.code.len() implies code[0 + i]
                        == #[trigger] em.code[i] by {}
                }
                lemma_placed_cat(code, consts, body, ret, 0, 0);
                match lemma_segment(code, consts, lines, base, ts, tree, 0, 0, s0) {
                    None => {},
                    Some(t) => {
                        assert(code[t.ip] == ret.code[0]);
                        lemma_run_stop(code, consts, lines, t);
                        assert(live(t.stack[t.stack.len() - 1], t.heap.len()));
                    },
                }
            }
        },
        Err(_) => {},
    }
}


/// The machine value of a tree-walk value that is a number or a boolean.
pub open spec fn as_shape<N>(v: Val<N>) -> Shape<N> {
    match v {
        Val::Number(x) => Shape::Num(x),
        Val::Bool(b) => Shape::Bool(b),
        _ => Shape::Nil,
    }
}

/// The two back ends agree on the binary operators: the code compiled for
/// `==`, `!=`, `+`, `-`, `*`, `/`, `<` and `>`, run on two numbers, returns
/// what the tree-walk evaluator computes for them. `>=` and `<=` are
/// compiled as the negation of `<` and `>`.
pub proof fn lemma_operators_agree<N: Number>(op: TokenV, x: N, y: N, consts: Seq<Shape<N>>, lines: Seq<usize>, heap: Seq<ObjV>)
    ensures
        ({
            let code = binary_ops(op.ttype) + seq![opcode_byte(OpCode::Return)];
            let out = run_spec(code, consts, lines, MState { ip: 0, stack: seq![Shape::Num(x), Shape::Num(y)], heap });
            let t = op.ttype;
            &&& (t == TokenType::EqualEqual || t == TokenType::BangEqual || t == TokenType::Plus || t
                == TokenType::Minus || t == TokenType::Star || t == TokenType::Slash || t == TokenType::Less
                || t == TokenType::Greater) ==> out == Outcome::Returned(
                as_shape(binary_result(op, Val::Number(x), Val::Number(y))->Ok_0),
                heap,
            )
            &&& t == TokenType::GreaterEqual ==> out == Outcome::<N>::Returned(Shape::Bool(!x.spec_less_than(y)), heap)
            &&& t == TokenType::LessEqual ==> out == Outcome::<N>::Returned(Shape::Bool(!x.spec_greater_than(y)), heap)
        }),
{
    let t = op.ttype;
    let code = binary_ops(t) + seq![opcode_byte(OpCode::Return)];
    let s0 = MState { ip: 0, stack: seq![Shape::<N>::Num(x), Shape::Num(y)], heap };
    let ops = binary_ops(t);
    assert(code[ops.len() as int] == 0u8);
    assert(ops.len() == 1 || ops.len() == 2);
    assert(code[0] == ops[0]);
    let s1 = step_spec(code, consts, lines, s0)->Next_0;
    assert(step_spec(code, consts, lines, s0) is Next);
    assert(s1.ip == 1);
    assert(s1.stack.len() == 1);
    assert(s1.stack =~= seq![s1.stack[0]]);
    assert(run_spec(code, consts, lines, s0) == run_spec(code, consts, lines, s1));
    if ops.len() == 1 {
        assert(step_spec(code, consts, lines, s1) == Outcome::Returned(s1.stack[0], heap));
        assert(run_spec(code, consts, lines, s1) == Outcome::Returned(s1.stack[0], heap));
    } else {
        assert(code[1] == ops[1]);
        let s2 = step_spec(code, consts, lines, s1)->Next_0;
        assert(step_spec(code, consts, lines, s1) is Next);
        assert(s2.ip == 2);
        assert(run_spec(code, consts, lines, s1) == run_spec(code, consts, lines, s2));
        assert(step_spec(code, consts, lines, s2) == Outcome::Returned(s2.stack.last(), heap));
        assert(run_spec(code, consts, lines, s2) == Outcome::Returned(s2.stack.last(), heap));
    }
}


/// The two back ends agree on the prefix operators: the code compiled for
/// `-` run on a number, and for `!` run on a number, a boolean or `nil`,
/// returns what the tree-walk evaluator computes.
pub proof fn lemma_prefix_operators_agree<N: Number>(op: TokenV, v: Val<N>, consts: Seq<Shape<N>>, lines: Seq<usize>, heap: Seq<ObjV>)
    requires
        op.ttype == TokenType::Minus || op.ttype == TokenType::Bang,
        v is Number || v is Bool || v is Nil,
        op.ttype == TokenType::Minus ==> v is Number,
    ensures
        run_spec(
            seq![unary_op(op.ttype), opcode_byte(OpCode::Return)],
            consts,
            lines,
            MState { ip: 0, stack: seq![as_shape(v)], heap },
        ) == Outcome::Returned(as_shape(unary_result(op, v)->Ok_0), heap),
{
    let code = seq![unary_op(op.ttype), opcode_byte(OpCode::Return)];
    let s0 = MState { ip: 0, stack: seq![as_shape(v)], heap };
    assert(s0.stack.last() == as_shape(v));
    let s1 = step_spec(code, consts, lines, s0)->Next_0;
    assert(step_spec(code, consts, lines, s0) is Next);
    assert(s1.ip == 1);
    assert(run_spec(code, consts, lines, s0) == run_spec(code, consts, lines, s1));
    assert(s1.stack.len() == 1);
    assert(s1.stack.last() == s1.stack[0]);
    assert(run_spec(code, consts, lines, s1) == Outcome::Returned(s1.stack[0], heap));
}

} // verus!
