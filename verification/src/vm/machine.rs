//! The virtual machine: an operand stack that runs a chunk of bytecode to
//! its `OP_RETURN`, and the errors it raises.
//!
//! The machine is generic over the number type; it only hands numbers to
//! the operations of [`Number`]. Its behaviour is specified by
//! [`run_spec`], an abstract machine over [`Shape`]s, which hold what a
//! runtime value holds; numbers are combined and compared by the spec
//! functions of [`Number`], so the specification fixes every result.

use vstd::prelude::*;
use vstd::utf8::encode_utf8;

use crate::error::{render_error, LoxError, LoxErrorV};
use crate::text::{decimal, decimal_string};
use crate::vm::chunk::{decode_opcode, Chunk, OpCode};
use crate::vm::heap::{handle_of, lemma_handle_index, Handle, Heap, Obj, ObjV};
use crate::vm::value::{truthy, Number, Value};
use crate::scanner::{errors_view, lemma_scan_from_shape, scanned_tokens};
use crate::vm::compiler::{compile, compile_result, const_view, consts_view, literal_count};
use crate::vm::safety::lemma_compiled_chunks_run;

verus! {

/// A runtime error raised by the virtual machine, tied to the source line
/// of the instruction that failed.
#[derive(Debug, PartialEq, Eq)]
pub enum VmError {
    Runtime { line: usize, message: String },
}

/// The text of a virtual-machine error: the message, then a `[line N]`
/// frame on the next line.
pub open spec fn vm_error_text(e: VmError) -> Seq<char> {
    match e {
        VmError::Runtime { line, message } => message@ + "\n[line "@ + decimal(line as nat) + "]"@,
    }
}

/// The shared runtime error a virtual-machine error stands for.
pub open spec fn vm_error_view(e: VmError) -> LoxErrorV {
    match e {
        VmError::Runtime { line, message } => LoxErrorV::Runtime {
            line: line as nat,
            message: message@,
        },
    }
}

impl Clone for VmError {
    fn clone(&self) -> (r: VmError)
        ensures
            r == *self,
    {
        match self {
            VmError::Runtime { line, message } => VmError::Runtime {
                line: *line,
                message: message.clone(),
            },
        }
    }
}

impl VmError {
    /// The user-facing text (see [`vm_error_text`]).
    pub fn render(&self) -> (s: String)
        ensures
            s@ == vm_error_text(*self),
    {
        match self {
            VmError::Runtime { line, message } => {
                let mut s = String::from_str(message.as_str());
                s.append("\n[line ");
                let d = decimal_string(*line);
                s.append(d.as_str());
                s.append("]");
                s
            },
        }
    }
}

/// The shared error type's form of a virtual-machine error: a runtime
/// error on the same line with the same message.
pub fn vm_to_lox(err: VmError) -> (e: LoxError)
    ensures
        e@ == vm_error_view(err),
{
    match err {
        VmError::Runtime { line, message } => LoxError::Runtime { line, message },
    }
}

/// A virtual-machine error renders exactly as the shared runtime error it
/// converts to, so both back ends report a failure the same way.
pub proof fn lemma_vm_error_renders_as_runtime(e: VmError)
    ensures
        vm_error_text(e) == render_error(vm_error_view(e)),
{
}

// ---------------------------------------------------------------------
// The abstract machine
// ---------------------------------------------------------------------

/// A value of the abstract machine: what a runtime value holds.
pub enum Shape<N> {
    Nil,
    Bool(bool),
    Num(N),
    Obj(Handle),
}

pub open spec fn shape_of<N>(v: Value<N>) -> Shape<N> {
    match v {
        Value::Nil => Shape::Nil,
        Value::Bool(b) => Shape::Bool(b),
        Value::Number(n) => Shape::Num(n),
        Value::Obj(h) => Shape::Obj(h),
    }
}

/// `v` is the runtime value of `s`.
pub open spec fn fits<N>(v: Value<N>, s: Shape<N>) -> bool {
    shape_of(v) == s
}

/// A state of the abstract machine.
pub struct MState<N> {
    pub ip: int,
    pub stack: Seq<Shape<N>>,
    pub heap: Seq<ObjV>,
}

/// The result of a step or of a whole run.
pub enum Outcome<N> {
    /// The instruction ran; the machine goes on from this state.
    Next(MState<N>),
    /// `OP_RETURN` ran with this value on top, leaving this heap.
    Returned(Shape<N>, Seq<ObjV>),
    /// A runtime error on this line with this message, leaving this heap.
    Failed(nat, Seq<char>, Seq<ObjV>),
    /// Malformed bytecode: an unknown opcode, a missing operand or
    /// constant, a stale handle, stack underflow, or running off the end.
    Stuck,
}

/// The source line of the byte at `ip` (0 when unknown).
pub open spec fn line_of(lines: Seq<usize>, ip: int) -> nat {
    if 0 <= ip < lines.len() {
        lines[ip] as nat
    } else {
        0
    }
}

/// `OP_NOT` on a value of shape `s`.
pub open spec fn not_shape<N>(s: Shape<N>) -> Shape<N> {
    match s {
        Shape::Nil => Shape::Bool(true),
        Shape::Bool(b) => Shape::Bool(!b),
        _ => Shape::Bool(false),
    }
}

/// `OP_EQUAL` on values `a` and `b`: mixed kinds are unequal, numbers
/// compare as the number type compares them, strings by contents; `None`
/// when a handle is stale.
pub open spec fn equal_shape<N: Number>(a: Shape<N>, b: Shape<N>, heap: Seq<ObjV>) -> Option<bool> {
    match (a, b) {
        (Shape::Nil, Shape::Nil) => Some(true),
        (Shape::Bool(x), Shape::Bool(y)) => Some(x == y),
        (Shape::Num(x), Shape::Num(y)) => Some(x.spec_equals(y)),
        (Shape::Obj(x), Shape::Obj(y)) => if x == y {
            Some(true)
        } else if x.index() < heap.len() && y.index() < heap.len() {
            Some(heap[x.index() as int] == heap[y.index() as int])
        } else {
            None
        },
        _ => Some(false),
    }
}

pub open spec fn obj_text(o: ObjV) -> Seq<char> {
    match o {
        ObjV::Str(s) => s,
    }
}

pub open spec fn numbers_msg() -> Seq<char> {
    "Operands must be numbers."@
}

pub open spec fn number_msg() -> Seq<char> {
    "Operand must be a number."@
}

pub open spec fn add_msg() -> Seq<char> {
    "Operands must be two numbers or two strings."@
}

/// Pop two operands; if both are numbers push `f(left, right)`, else fail.
pub open spec fn numeric_step<N>(s: MState<N>, f: spec_fn(N, N) -> Shape<N>, line: nat) -> Outcome<N> {
    let n = s.stack.len();
    if n < 2 {
        Outcome::Stuck
    } else {
        match (s.stack[n - 2], s.stack[n - 1]) {
            (Shape::Num(a), Shape::Num(b)) => Outcome::Next(
                MState { ip: s.ip + 1, stack: s.stack.take(n - 2).push(f(a, b)), heap: s.heap },
            ),
            _ => Outcome::Failed(line, numbers_msg(), s.heap),
        }
    }
}

/// One instruction of the abstract machine.
pub open spec fn step_spec<N: Number>(code: Seq<u8>, consts: Seq<Shape<N>>, lines: Seq<usize>, s: MState<N>) -> Outcome<N> {
    let ip = s.ip;
    let n = s.stack.len();
    let line = line_of(lines, ip);
    if !(0 <= ip < code.len()) {
        Outcome::Stuck
    } else {
        match decode_opcode(code[ip]) {
            None => Outcome::Stuck,
            Some(op) => match op {
                OpCode::Constant => if ip + 1 < code.len() && (code[ip + 1] as int) < consts.len() {
                    Outcome::Next(
                        MState {
                            ip: ip + 2,
                            stack: s.stack.push(consts[code[ip + 1] as int]),
                            heap: s.heap,
                        },
                    )
                } else {
                    Outcome::Stuck
                },
                OpCode::Nil => Outcome::Next(
                    MState { ip: ip + 1, stack: s.stack.push(Shape::Nil), heap: s.heap },
                ),
                OpCode::True => Outcome::Next(
                    MState { ip: ip + 1, stack: s.stack.push(Shape::Bool(true)), heap: s.heap },
                ),
                OpCode::False => Outcome::Next(
                    MState {
                        ip: ip + 1,
                        stack: s.stack.push(Shape::Bool(false)),
                        heap: s.heap,
                    },
                ),
                OpCode::Not => if n >= 1 {
                    Outcome::Next(
                        MState {
                            ip: ip + 1,
                            stack: s.stack.drop_last().push(not_shape(s.stack.last())),
                            heap: s.heap,
                        },
                    )
                } else {
                    Outcome::Stuck
                },
                OpCode::Equal => if n >= 2 {
                    match equal_shape(s.stack[n - 2], s.stack[n - 1], s.heap) {
                        Some(r) => Outcome::Next(
                            MState {
                                ip: ip + 1,
                                stack: s.stack.take(n - 2).push(Shape::Bool(r)),
                                heap: s.heap,
                            },
                        ),
                        None => Outcome::Stuck,
                    }
                } else {
                    Outcome::Stuck
                },
                OpCode::Greater => numeric_step(
                    s,
                    |a: N, b: N| Shape::Bool(a.spec_greater_than(b)),
                    line,
                ),
                OpCode::Less => numeric_step(s, |a: N, b: N| Shape::Bool(a.spec_less_than(b)), line),
                OpCode::Negate => if n >= 1 {
                    match s.stack.last() {
                        Shape::Num(x) => Outcome::Next(
                            MState {
                                ip: ip + 1,
                                stack: s.stack.drop_last().push(Shape::Num(x.spec_negated())),
                                heap: s.heap,
                            },
                        ),
                        _ => Outcome::Failed(line, number_msg(), s.heap),
                    }
                } else {
                    Outcome::Stuck
                },
                OpCode::Add => if n < 2 {
                    Outcome::Stuck
                } else {
                    match (s.stack[n - 2], s.stack[n - 1]) {
                        (Shape::Num(a), Shape::Num(b)) => Outcome::Next(
                            MState {
                                ip: ip + 1,
                                stack: s.stack.take(n - 2).push(Shape::Num(a.spec_plus(b))),
                                heap: s.heap,
                            },
                        ),
                        (Shape::Obj(x), Shape::Obj(y)) => if x.index() < s.heap.len()
                            && y.index() < s.heap.len() && s.heap.len() <= u32::MAX {
                            Outcome::Next(
                                MState {
                                    ip: ip + 1,
                                    stack: s.stack.take(n - 2).push(
                                        Shape::Obj(handle_of(s.heap.len())),
                                    ),
                                    heap: s.heap.push(
                                        ObjV::Str(
                                            obj_text(s.heap[x.index() as int]) + obj_text(
                                                s.heap[y.index() as int],
                                            ),
                                        ),
                                    ),
                                },
                            )
                        } else {
                            Outcome::Stuck
                        },
                        _ => Outcome::Failed(line, add_msg(), s.heap),
                    }
                },
                OpCode::Subtract => numeric_step(s, |a: N, b: N| Shape::Num(a.spec_minus(b)), line),
                OpCode::Multiply => numeric_step(s, |a: N, b: N| Shape::Num(a.spec_times(b)), line),
                OpCode::Divide => numeric_step(
                    s,
                    |a: N, b: N| Shape::Num(a.spec_divided_by(b)),
                    line,
                ),
                OpCode::Return => if n >= 1 {
                    Outcome::Returned(s.stack.last(), s.heap)
                } else {
                    Outcome::Stuck
                },
            },
        }
    }
}

// ---------------------------------------------------------------------
// Laws of the instructions
// ---------------------------------------------------------------------

/// `OP_EQUAL` compares two values of one kind by what they hold and finds
/// values of different kinds unequal: `nil` equals `nil`; two booleans are
/// equal exactly when they are the same boolean, two strings exactly when
/// they have the same characters, two numbers as the number type's
/// equality says. Every value other than a number equals itself, and the
/// answer does not depend on the order of the operands unless both are
/// numbers.
pub proof fn lemma_vm_equality_laws<N: Number>(a: Shape<N>, b: Shape<N>, heap: Seq<ObjV>)
    ensures
        equal_shape(Shape::<N>::Nil, Shape::<N>::Nil, heap) == Some(true),
        forall|x: bool, y: bool|
            #[trigger] equal_shape(Shape::<N>::Bool(x), Shape::<N>::Bool(y), heap) == Some(x == y),
        forall|x: N, y: N| #[trigger] equal_shape(Shape::Num(x), Shape::Num(y), heap) == Some(x.spec_equals(y)),
        forall|x: Handle, y: Handle|
            x.index() < heap.len() && y.index() < heap.len() ==> #[trigger] equal_shape(
                Shape::<N>::Obj(x),
                Shape::<N>::Obj(y),
                heap,
            ) == Some(obj_text(heap[x.index() as int]) == obj_text(heap[y.index() as int])),
        !(a is Num) ==> equal_shape(a, a, heap) == Some(true),
        ((a is Nil) != (b is Nil) || (a is Bool) != (b is Bool) || (a is Num) != (b is Num))
            ==> equal_shape(a, b, heap) == Some(false),
        !(a is Num) ==> equal_shape(a, b, heap) == equal_shape(b, a, heap),
{
    assert forall|x: Handle, y: Handle|
        x.index() < heap.len() && y.index() < heap.len() implies #[trigger] equal_shape(
            Shape::<N>::Obj(x),
            Shape::<N>::Obj(y),
            heap,
        ) == Some(obj_text(heap[x.index() as int]) == obj_text(heap[y.index() as int])) by {
        let p = heap[x.index() as int];
        let q = heap[y.index() as int];
        assert(p == ObjV::Str(obj_text(p)));
        assert(q == ObjV::Str(obj_text(q)));
    }
}

/// The state after an instruction that pops two operands and pushes `v`.
pub open spec fn replaced_two<N>(s: MState<N>, v: Shape<N>) -> MState<N> {
    MState { ip: s.ip + 1, stack: s.stack.take(s.stack.len() - 2).push(v), heap: s.heap }
}

/// The state after an instruction that replaces the top operand with `v`.
pub open spec fn replaced_top<N>(s: MState<N>, v: Shape<N>) -> MState<N> {
    MState { ip: s.ip + 1, stack: s.stack.drop_last().push(v), heap: s.heap }
}

/// The arithmetic and comparison instructions on two numbers apply the
/// number type's operation with the operand pushed first on the left;
/// `OP_EQUAL` pushes whether the two operands are equal; `OP_NOT` pushes
/// `true` exactly for `nil` and `false`; `OP_NEGATE` negates a number; and
/// a comparison or arithmetic instruction other than `OP_ADD` fails with
/// "Operands must be numbers." when an operand is not a number.
pub proof fn lemma_vm_arithmetic_laws<N: Number>(
    code: Seq<u8>,
    consts: Seq<Shape<N>>,
    lines: Seq<usize>,
    s: MState<N>,
    x: N,
    y: N,
)
    requires
        0 <= s.ip < code.len(),
        s.stack.len() >= 2,
    ensures
        s.stack[s.stack.len() - 2] == Shape::Num(x) && s.stack.last() == Shape::Num(y) ==> {
            &&& code[s.ip] == 8 ==> step_spec(code, consts, lines, s) == Outcome::Next(
                replaced_two(s, Shape::Num(x.spec_plus(y))),
            )
            &&& code[s.ip] == 9 ==> step_spec(code, consts, lines, s) == Outcome::Next(
                replaced_two(s, Shape::Num(x.spec_minus(y))),
            )
            &&& code[s.ip] == 10 ==> step_spec(code, consts, lines, s) == Outcome::Next(
                replaced_two(s, Shape::Num(x.spec_times(y))),
            )
            &&& code[s.ip] == 11 ==> step_spec(code, consts, lines, s) == Outcome::Next(
                replaced_two(s, Shape::Num(x.spec_divided_by(y))),
            )
            &&& code[s.ip] == 6 ==> step_spec(code, consts, lines, s) == Outcome::Next(
                replaced_two(s, Shape::<N>::Bool(x.spec_greater_than(y))),
            )
            &&& code[s.ip] == 7 ==> step_spec(code, consts, lines, s) == Outcome::Next(
                replaced_two(s, Shape::<N>::Bool(x.spec_less_than(y))),
            )
        },
        code[s.ip] == 5 ==> (equal_shape(s.stack[s.stack.len() - 2], s.stack.last(), s.heap) matches Some(e)
            ==> step_spec(code, consts, lines, s) == Outcome::Next(replaced_two(s, Shape::<N>::Bool(e)))),
        code[s.ip] == 12 ==> step_spec(code, consts, lines, s) == Outcome::Next(
            replaced_top(
                s,
                Shape::<N>::Bool(s.stack.last() == Shape::<N>::Nil || s.stack.last() == Shape::<N>::Bool(false)),
            ),
        ),
        code[s.ip] == 13 && s.stack.last() == Shape::Num(y) ==> step_spec(code, consts, lines, s)
            == Outcome::Next(replaced_top(s, Shape::Num(y.spec_negated()))),
        (code[s.ip] == 6 || code[s.ip] == 7 || code[s.ip] == 9 || code[s.ip] == 10 || code[s.ip] == 11)
            && !(s.stack[s.stack.len() - 2] is Num && s.stack.last() is Num) ==> step_spec(
            code,
            consts,
            lines,
            s,
        ) == Outcome::<N>::Failed(line_of(lines, s.ip), "Operands must be numbers."@, s.heap),
{
    let n = s.stack.len();
    assert(s.stack.last() == s.stack[n - 1]);
    assert(numbers_msg() == "Operands must be numbers."@);
}

/// `OP_ADD` on two strings allocates one new string object holding the
/// left operand's characters followed by the right's, and pushes its
/// handle; every object already on the heap stays as it was.
pub proof fn lemma_vm_concatenation_law<N: Number>(
    code: Seq<u8>,
    consts: Seq<Shape<N>>,
    lines: Seq<usize>,
    s: MState<N>,
    x: Handle,
    y: Handle,
)
    requires
        0 <= s.ip < code.len(),
        code[s.ip] == 8,
        s.stack.len() >= 2,
        s.stack[s.stack.len() - 2] == Shape::<N>::Obj(x),
        s.stack.last() == Shape::<N>::Obj(y),
        x.index() < s.heap.len(),
        y.index() < s.heap.len(),
        s.heap.len() <= u32::MAX,
    ensures
        step_spec(code, consts, lines, s) matches Outcome::Next(t) && {
            &&& t.ip == s.ip + 1
            &&& t.heap.len() == s.heap.len() + 1
            &&& t.heap.take(s.heap.len() as int) == s.heap
            &&& t.heap.last() == ObjV::Str(obj_text(s.heap[x.index() as int]) + obj_text(s.heap[y.index() as int]))
            &&& t.stack == s.stack.take(s.stack.len() - 2).push(Shape::Obj(handle_of(s.heap.len())))
            &&& handle_of(s.heap.len()).index() == s.heap.len()
        },
{
    let n = s.stack.len();
    assert(s.stack.last() == s.stack[n - 1]);
    lemma_handle_index(handle_of(s.heap.len()), s.heap.len());
    let t = step_spec(code, consts, lines, s)->Next_0;
    assert(t.heap.take(s.heap.len() as int) =~= s.heap);
}

/// `OP_RETURN` gives back the value on top of the stack, and
/// `OP_CONSTANT i` pushes constant `i` and moves past its operand.
pub proof fn lemma_vm_return_and_constant<N: Number>(
    code: Seq<u8>,
    consts: Seq<Shape<N>>,
    lines: Seq<usize>,
    s: MState<N>,
)
    requires
        0 <= s.ip < code.len(),
    ensures
        code[s.ip] == 0 && s.stack.len() >= 1 ==> step_spec(code, consts, lines, s) == Outcome::Returned(
            s.stack[s.stack.len() - 1],
            s.heap,
        ),
        code[s.ip] == 1 && s.ip + 1 < code.len() && (code[s.ip + 1] as int) < consts.len() ==> step_spec(
            code,
            consts,
            lines,
            s,
        ) == Outcome::Next(
            MState { ip: s.ip + 2, stack: s.stack.push(consts[code[s.ip + 1] as int]), heap: s.heap },
        ),
{
    if s.stack.len() >= 1 {
        assert(s.stack.last() == s.stack[s.stack.len() - 1]);
    }
}

/// Run the abstract machine from `s` until it returns, fails or gets
/// stuck.
pub open spec fn run_spec<N: Number>(code: Seq<u8>, consts: Seq<Shape<N>>, lines: Seq<usize>, s: MState<N>) -> Outcome<N>
    decreases code.len() + 2 - s.ip,
{
    if !(0 <= s.ip < code.len()) {
        Outcome::Stuck
    } else {
        match step_spec(code, consts, lines, s) {
            Outcome::Next(t) => if s.ip < t.ip <= s.ip + 2 {
                run_spec(code, consts, lines, t)
            } else {
                Outcome::Stuck
            },
            other => other,
        }
    }
}

pub open spec fn consts_shapes<N>(consts: Seq<Value<N>>) -> Seq<Shape<N>> {
    consts.map_values(|v: Value<N>| shape_of(v))
}

/// Running `chunk` from the start with `heap`.
pub open spec fn chunk_run<N: Number>(chunk: Chunk<Value<N>>, heap: Seq<ObjV>) -> Outcome<N> {
    run_spec(
        chunk.code@,
        consts_shapes(chunk.constants@),
        chunk.lines@,
        MState { ip: 0, stack: seq![], heap },
    )
}

/// The states a run passes through, each taken before its instruction
/// executes: the instruction's offset and the stack, bottom first.
pub open spec fn run_states<N: Number>(
    code: Seq<u8>,
    consts: Seq<Shape<N>>,
    lines: Seq<usize>,
    s: MState<N>,
) -> Seq<(int, Seq<Shape<N>>)>
    decreases code.len() + 2 - s.ip,
{
    if !(0 <= s.ip < code.len()) {
        Seq::empty()
    } else {
        let here = seq![(s.ip, s.stack)];
        match step_spec(code, consts, lines, s) {
            Outcome::Next(t) => if s.ip < t.ip <= s.ip + 2 {
                here + run_states(code, consts, lines, t)
            } else {
                here
            },
            _ => here,
        }
    }
}

/// The states of running `chunk` from the start with `heap`.
pub open spec fn chunk_states<N: Number>(chunk: Chunk<Value<N>>, heap: Seq<ObjV>) -> Seq<(int, Seq<Shape<N>>)> {
    run_states(
        chunk.code@,
        consts_shapes(chunk.constants@),
        chunk.lines@,
        MState { ip: 0, stack: seq![], heap },
    )
}

/// A recorded trace matches the states, one entry for each.
pub open spec fn trace_fits<N>(tr: Seq<(usize, Vec<Value<N>>)>, states: Seq<(int, Seq<Shape<N>>)>) -> bool {
    &&& tr.len() == states.len()
    &&& forall|i: int|
        #![trigger tr[i]]
        0 <= i < tr.len() ==> tr[i].0 == states[i].0 && stack_fits(tr[i].1@, states[i].1)
}

/// The stack of values has the shapes of the abstract stack.
pub open spec fn stack_fits<N>(st: Seq<Value<N>>, sh: Seq<Shape<N>>) -> bool {
    &&& st.len() == sh.len()
    &&& forall|i: int| 0 <= i < st.len() ==> fits(#[trigger] st[i], sh[i])
}

// ---------------------------------------------------------------------
// The machine
// ---------------------------------------------------------------------

/// The operand-stack machine. One machine can run many chunks in turn.
pub struct Vm<N> {
    stack: Vec<Value<N>>,
}

impl<N: Number> Vm<N> {
    /// A machine with an empty stack.
    pub fn new() -> (vm: Self)
        ensures
            vm.stack_view().len() == 0,
    {
        Vm { stack: Vec::new() }
    }

    /// The values on the operand stack, bottom first.
    pub closed spec fn stack_view(&self) -> Seq<Value<N>> {
        self.stack@
    }

    /// The values on the operand stack, bottom first.
    pub fn stack(&self) -> (s: &Vec<Value<N>>)
        ensures
            s@ == self.stack_view(),
    {
        &self.stack
    }

    /// Run `chunk` to completion, giving the value on top of the stack
    /// when `OP_RETURN` runs, or the runtime error that stopped it.
    pub fn interpret(&mut self, chunk: &Chunk<Value<N>>, heap: &mut Heap) -> (r: Result<
        Value<N>,
        VmError,
    >)
        requires
            !(chunk_run(*chunk, old(heap)@) is Stuck),
        ensures
            match chunk_run(*chunk, old(heap)@) {
                Outcome::Returned(v, h) => r matches Ok(x) && fits(x, v) && final(heap)@ == h,
                Outcome::Failed(line, msg, h) => r matches Err(e) && vm_error_view(e) == (
                LoxErrorV::Runtime { line, message: msg }) && final(heap)@ == h,
                _ => false,
            },
    {
        let mut trace: Vec<(usize, Vec<Value<N>>)> = Vec::new();
        self.run(chunk, heap, false, &mut trace)
    }

    /// As [`Vm::interpret`], also recording before each instruction its
    /// offset and the stack, bottom first.
    pub fn interpret_with_trace(&mut self, chunk: &Chunk<Value<N>>, heap: &mut Heap) -> (r: (
        Result<Value<N>, VmError>,
        Vec<(usize, Vec<Value<N>>)>,
    ))
        requires
            !(chunk_run(*chunk, old(heap)@) is Stuck),
        ensures
            match chunk_run(*chunk, old(heap)@) {
                Outcome::Returned(v, h) => r.0 matches Ok(x) && fits(x, v) && final(heap)@ == h,
                Outcome::Failed(line, msg, h) => r.0 matches Err(e) && vm_error_view(e) == (
                LoxErrorV::Runtime { line, message: msg }) && final(heap)@ == h,
                _ => false,
            },
            trace_fits(r.1@, chunk_states(*chunk, old(heap)@)),
    {
        let mut trace: Vec<(usize, Vec<Value<N>>)> = Vec::new();
        let r = self.run(chunk, heap, true, &mut trace);
        (r, trace)
    }

    fn run(
        &mut self,
        chunk: &Chunk<Value<N>>,
        heap: &mut Heap,
        tracing: bool,
        trace: &mut Vec<(usize, Vec<Value<N>>)>,
    ) -> (r: Result<Value<N>, VmError>)
        requires
            !(chunk_run(*chunk, old(heap)@) is Stuck),
            old(trace)@.len() == 0,
        ensures
            match chunk_run(*chunk, old(heap)@) {
                Outcome::Returned(v, h) => r matches Ok(x) && fits(x, v) && final(heap)@ == h,
                Outcome::Failed(line, msg, h) => r matches Err(e) && vm_error_view(e) == (
                LoxErrorV::Runtime { line, message: msg }) && final(heap)@ == h,
                _ => false,
            },
            tracing ==> trace_fits(final(trace)@, chunk_states(*chunk, old(heap)@)),
    {
        self.stack.clear();
        let ghost code = chunk.code@;
        let ghost consts = consts_shapes(chunk.constants@);
        let ghost lines = chunk.lines@;
        let ghost goal = chunk_run(*chunk, old(heap)@);
        let ghost mut st = MState { ip: 0, stack: seq![], heap: heap@ };
        let ghost all_states = chunk_states(*chunk, old(heap)@);
        let ghost mut done = Seq::<(int, Seq<Shape<N>>)>::empty();
        let mut ip: usize = 0;
        assert(all_states =~= done + run_states(code, consts, lines, st));
        loop
            invariant
                code == chunk.code@,
                consts == consts_shapes(chunk.constants@),
                lines == chunk.lines@,
                goal == chunk_run(*chunk, old(heap)@),
                !(goal is Stuck),
                run_spec(code, consts, lines, st) == goal,
                st.ip == ip,
                st.heap == heap@,
                stack_fits(self.stack@, st.stack),
                all_states == chunk_states(*chunk, old(heap)@),
                all_states == done + run_states(code, consts, lines, st),
                tracing ==> trace_fits(trace@, done),
            decreases code.len() + 2 - ip,
        {
            proof {
                lemma_run_unfold(code, consts, lines, st);
                lemma_states_unfold(code, consts, lines, st);
            }
            if tracing {
                let mut snapshot: Vec<Value<N>> = Vec::new();
                let mut k: usize = 0;
                while k < self.stack.len()
                    invariant
                        k <= self.stack@.len(),
                        snapshot@ == self.stack@.take(k as int),
                    decreases self.stack@.len() - k,
                {
                    snapshot.push(self.stack[k]);
                    k = k + 1;
                    assert(snapshot@ =~= self.stack@.take(k as int));
                }
                assert(snapshot@ =~= self.stack@);
                let ghost before = trace@;
                trace.push((ip, snapshot));
                proof {
                    let ghost d2 = done.push((st.ip, st.stack));
                    assert forall|i: int| #![trigger trace@[i]] 0 <= i < trace@.len() implies trace@[i].0
                        == d2[i].0 && stack_fits(trace@[i].1@, d2[i].1) by {
                        if i < before.len() {
                            assert(trace@[i] == before[i]);
                            assert(done.push((st.ip, st.stack))[i] == done[i]);
                            assert(before[i].0 == done[i].0 && stack_fits(before[i].1@, done[i].1));
                        } else {
                            assert(trace@[i] == (ip, snapshot));
                            assert(done.push((st.ip, st.stack))[i] == (st.ip, st.stack));
                        }
                    }
                }
            }
            proof {
                done = done.push((st.ip, st.stack));
                match step_spec(code, consts, lines, st) {
                    Outcome::Next(t) => {
                        assert(all_states =~= done + run_states(code, consts, lines, t));
                    },
                    _ => {
                        assert(all_states =~= done);
                    },
                }
            }
            let op_ip = ip;
            let len = chunk.code.len();
            assert(op_ip < len);
            let byte = chunk.code[op_ip];
            let op = match OpCode::from_byte(byte) {
                Some(op) => op,
                None => {
                    proof {
                        assert(false);
                    }
                    OpCode::Return
                },
            };
            ip = op_ip + 1;
            let ghost next = step_spec(code, consts, lines, st);
            match op {
                OpCode::Constant => {
                    let idx = chunk.code[ip] as usize;
                    ip = ip + 1;
                    let v = chunk.constants[idx];
                    proof {
                        assert(consts[idx as int] == shape_of(chunk.constants@[idx as int]));
                    }
                    self.stack.push(v);
                },
                OpCode::Nil => self.stack.push(Value::Nil),
                OpCode::True => self.stack.push(Value::Bool(true)),
                OpCode::False => self.stack.push(Value::Bool(false)),
                OpCode::Not => {
                    let v = self.pop();
                    let t = v.is_truthy();
                    self.stack.push(Value::Bool(!t));
                },
                OpCode::Equal => {
                    let b = self.pop();
                    let a = self.pop();
                    let e = values_equal(a, b, heap);
                    self.stack.push(Value::Bool(e));
                },
                OpCode::Greater | OpCode::Less => {
                    let b = self.pop();
                    let a = self.pop();
                    match (a, b) {
                        (Value::Number(x), Value::Number(y)) => {
                            let c = match op {
                                OpCode::Greater => x.greater_than(y),
                                _ => x.less_than(y),
                            };
                            self.stack.push(Value::Bool(c));
                        },
                        _ => {
                            return Err(runtime_error(chunk, op_ip, "Operands must be numbers."));
                        },
                    }
                },
                OpCode::Negate => {
                    let v = self.pop();
                    match v {
                        Value::Number(x) => self.stack.push(Value::Number(x.negated())),
                        _ => {
                            return Err(runtime_error(chunk, op_ip, "Operand must be a number."));
                        },
                    }
                },
                OpCode::Add => {
                    let b = self.pop();
                    let a = self.pop();
                    match (a, b) {
                        (Value::Number(x), Value::Number(y)) => {
                            self.stack.push(Value::Number(x.plus(y)));
                        },
                        (Value::Obj(ah), Value::Obj(bh)) => {
                            let h = concat_strings(heap, ah, bh);
                            self.stack.push(Value::Obj(h));
                        },
                        _ => {
                            return Err(
                                runtime_error(
                                    chunk,
                                    op_ip,
                                    "Operands must be two numbers or two strings.",
                                ),
                            );
                        },
                    }
                },
                OpCode::Subtract | OpCode::Multiply | OpCode::Divide => {
                    let b = self.pop();
                    let a = self.pop();
                    match (a, b) {
                        (Value::Number(x), Value::Number(y)) => {
                            let c = match op {
                                OpCode::Subtract => x.minus(y),
                                OpCode::Multiply => x.times(y),
                                _ => x.divided_by(y),
                            };
                            self.stack.push(Value::Number(c));
                        },
                        _ => {
                            return Err(runtime_error(chunk, op_ip, "Operands must be numbers."));
                        },
                    }
                },
                OpCode::Return => {
                    let v = self.pop();
                    return Ok(v);
                },
            }
            proof {
                st = next->Next_0;
            }
        }
    }

    /// Pop the top of the stack.
    fn pop(&mut self) -> (v: Value<N>)
        requires
            old(self).stack@.len() >= 1,
        ensures
            v == old(self).stack@.last(),
            final(self).stack@ == old(self).stack@.drop_last(),
    {
        self.stack.pop().unwrap()
    }
}

proof fn lemma_states_unfold<N: Number>(code: Seq<u8>, consts: Seq<Shape<N>>, lines: Seq<usize>, s: MState<N>)
    requires
        !(run_spec(code, consts, lines, s) is Stuck),
    ensures
        run_states(code, consts, lines, s) == seq![(s.ip, s.stack)] + match step_spec(
            code,
            consts,
            lines,
            s,
        ) {
            Outcome::Next(t) => run_states(code, consts, lines, t),
            _ => Seq::empty(),
        },
{
    lemma_run_unfold(code, consts, lines, s);
    assert(seq![(s.ip, s.stack)] + Seq::<(int, Seq<Shape<N>>)>::empty() =~= seq![(s.ip, s.stack)]);
}

proof fn lemma_run_unfold<N: Number>(code: Seq<u8>, consts: Seq<Shape<N>>, lines: Seq<usize>, s: MState<N>)
    requires
        !(run_spec(code, consts, lines, s) is Stuck),
    ensures
        0 <= s.ip < code.len(),
        !(step_spec(code, consts, lines, s) is Stuck),
        step_spec(code, consts, lines, s) matches Outcome::Next(t) ==> s.ip < t.ip <= s.ip + 2
            && run_spec(code, consts, lines, t) == run_spec(code, consts, lines, s),
        !(step_spec(code, consts, lines, s) is Next) ==> step_spec(code, consts, lines, s)
            == run_spec(code, consts, lines, s),
{
}

/// A runtime error on the source line of the instruction at `op_ip`.
fn runtime_error<N>(chunk: &Chunk<Value<N>>, op_ip: usize, message: &str) -> (e: VmError)
    ensures
        vm_error_view(e) == (LoxErrorV::Runtime { line: line_of(chunk.lines@, op_ip as int), message: message@ }),
{
    let line = match chunk.lines.line_at(op_ip) {
        Some(l) => l,
        None => 0,
    };
    VmError::Runtime { line, message: message.to_string() }
}

/// Allocate the concatenation of the strings `a` and `b`.
fn concat_strings(heap: &mut Heap, a: Handle, b: Handle) -> (h: Handle)
    requires
        a.index() < old(heap)@.len(),
        b.index() < old(heap)@.len(),
        old(heap)@.len() <= u32::MAX,
    ensures
        final(heap)@ == old(heap)@.push(
            ObjV::Str(obj_text(old(heap)@[a.index() as int]) + obj_text(old(heap)@[b.index() as int])),
        ),
        h == handle_of(old(heap)@.len()),
{
    let mut s = match heap.get(a) {
        Obj::Str(x) => String::from_str(x.as_str()),
    };
    match heap.get(b) {
        Obj::Str(y) => s.append(y.as_str()),
    }
    let h = heap.alloc_string(s.as_str());
    proof {
        lemma_handle_index(h, old(heap)@.len());
    }
    h
}

/// `OP_EQUAL`: mixed kinds are unequal, numbers compare through
/// [`Number::equals`], strings by contents.
pub fn values_equal<N: Number>(a: Value<N>, b: Value<N>, heap: &Heap) -> (r: bool)
    requires
        equal_shape(shape_of(a), shape_of(b), heap@) is Some,
    ensures
        r == equal_shape(shape_of(a), shape_of(b), heap@)->Some_0,
{
    match (a, b) {
        (Value::Nil, Value::Nil) => true,
        (Value::Bool(x), Value::Bool(y)) => x == y,
        (Value::Number(x), Value::Number(y)) => x.equals(y),
        (Value::Obj(x), Value::Obj(y)) => {
            if x == y {
                return true;
            }
            match (heap.get(x), heap.get(y)) {
                (Obj::Str(p), Obj::Str(q)) => *p == *q,
            }
        },
        _ => false,
    }
}

// ---------------------------------------------------------------------
// Compiling and running an expression
// ---------------------------------------------------------------------

/// `text` is what the value `shape` prints as over `heap`, with a trailing
/// newline; a number prints as the number type renders it.
pub open spec fn shown<N: Number>(shape: Shape<N>, heap: Seq<ObjV>, text: Seq<char>) -> bool {
    &&& text.len() >= 1
    &&& text.last() == '\n'
    &&& match shape {
        Shape::Nil => text.drop_last() == "nil"@,
        Shape::Bool(b) => text.drop_last() == if b {
            "true"@
        } else {
            "false"@
        },
        Shape::Obj(h) => ObjV::Str(text.drop_last()) == heap[h.index() as int],
        Shape::Num(n) => text.drop_last() == n.spec_render(),
    }
}

/// The machine value of a compiled constant once loaded: a number literal
/// becomes the number its text denotes.
pub open spec fn loaded<N: Number>(c: Value<Seq<char>>) -> Shape<N> {
    match c {
        Value::Nil => Shape::Nil,
        Value::Bool(b) => Shape::Bool(b),
        Value::Number(t) => Shape::Num(N::spec_from_literal(t)),
        Value::Obj(h) => Shape::Obj(h),
    }
}

/// The machine values of a compiled constant pool once loaded.
pub open spec fn loaded_shapes<N: Number>(cs: Seq<Value<Seq<char>>>) -> Seq<Shape<N>> {
    cs.map_values(|c: Value<Seq<char>>| loaded::<N>(c))
}

/// A compiled chunk with its number constants converted from their
/// literal text by [`Number::from_literal`].
pub fn load<N: Number>(chunk: Chunk<Value<String>>) -> (c: Chunk<Value<N>>)
    ensures
        c.code == chunk.code,
        c.lines == chunk.lines,
        consts_shapes(c.constants@) == loaded_shapes::<N>(consts_view(chunk.constants@)),
{
    let Chunk { code, constants, lines } = chunk;
    let mut out: Vec<Value<N>> = Vec::new();
    let mut i: usize = 0;
    while i < constants.len()
        invariant
            i <= constants@.len(),
            out@.len() == i,
            forall|j: int|
                0 <= j < i ==> shape_of(#[trigger] out@[j]) == loaded::<N>(const_view(constants@[j])),
        decreases constants@.len() - i,
    {
        let v = match &constants[i] {
            Value::Nil => Value::Nil,
            Value::Bool(b) => Value::Bool(*b),
            Value::Number(text) => Value::Number(N::from_literal(text.as_str())),
            Value::Obj(h) => Value::Obj(*h),
        };
        out.push(v);
        i = i + 1;
    }
    let c = Chunk { code, constants: out, lines };
    assert(consts_shapes(c.constants@) =~= loaded_shapes::<N>(consts_view(constants@)));
    c
}

/// The compiled form of `source`, if it compiles, fits the heap's 32-bit
/// object handles however it runs: its string constants and one object
/// for each instruction (the most a straight-line run can allocate)
/// number at most `u32::MAX`.
pub open spec fn fits_heap(source: Seq<char>) -> bool {
    compile_result(source) matches Ok(em) ==> em.strs.len() + em.code.len() <= u32::MAX
}

/// Compile one Lox expression and run it on a fresh machine, giving what
/// it prints (its value and a newline), the compile errors, or the
/// runtime error as the shared error type.
pub fn run_text<N: Number>(source: &str) -> (r: Result<String, Vec<LoxError>>)
    requires
        source@.len() <= usize::MAX / 4,
        literal_count(scanned_tokens(source@)) <= 256,
        fits_heap(source@),
    ensures
        match compile_result(source@) {
            Err(es) => r matches Err(errs) && errors_view(errs@) == es,
            Ok(em) => match run_spec(
                em.code,
                loaded_shapes::<N>(em.consts),
                em.lines,
                MState { ip: 0, stack: seq![], heap: em.strs },
            ) {
                Outcome::Failed(line, msg, _) => r matches Err(errs) && errors_view(errs@)
                    == seq![LoxErrorV::Runtime { line, message: msg }],
                Outcome::Returned(v, h) => r matches Ok(text) && shown(v, h, text@),
                _ => false,
            },
        },
{
    proof {
        lemma_compiled_chunks_run::<N>(source@);
        lemma_scan_from_shape(source@, 0, 1);
    }
    let (chunk, mut heap) = match compile(source) {
        Ok(p) => p,
        Err(errs) => {
            return Err(errs);
        },
    };
    let ghost em = compile_result(source@)->Ok_0;
    let chunk = load::<N>(chunk);
    let mut vm: Vm<N> = Vm::new();
    match vm.interpret(&chunk, &mut heap) {
        Ok(v) => {
            let mut text = v.display(&heap);
            let ghost shown_text = text@;
            text.append("\n");
            proof {
                reveal_strlit("\n");
                assert(text@.drop_last() =~= shown_text);
                assert(text@.last() == '\n');
            }
            Ok(text)
        },
        Err(e) => {
            let mut errs: Vec<LoxError> = Vec::new();
            errs.push(vm_to_lox(e));
            assert(errors_view(errs@) =~= seq![vm_error_view(e)]);
            Err(errs)
        },
    }
}

/// What the value `shape` prints as over `heap`: its text and a newline.
pub open spec fn printed<N: Number>(shape: Shape<N>, heap: Seq<ObjV>) -> Seq<char> {
    let body = match shape {
        Shape::Nil => "nil"@,
        Shape::Bool(b) => if b {
            "true"@
        } else {
            "false"@
        },
        Shape::Obj(h) => obj_text(heap[h.index() as int]),
        Shape::Num(n) => n.spec_render(),
    };
    body + "\n"@
}

/// Compile one Lox expression and run it on a fresh machine, writing what
/// it prints (its value and a newline) as UTF-8 to `out`. On a compile or
/// runtime error nothing is written and the errors are returned.
pub fn run_to<N: Number>(source: &str, out: &mut Vec<u8>) -> (r: Result<(), Vec<LoxError>>)
    requires
        source@.len() <= usize::MAX / 4,
        literal_count(scanned_tokens(source@)) <= 256,
        fits_heap(source@),
    ensures
        match compile_result(source@) {
            Err(es) => r matches Err(errs) && errors_view(errs@) == es && final(out)@ == old(out)@,
            Ok(em) => match run_spec(
                em.code,
                loaded_shapes::<N>(em.consts),
                em.lines,
                MState { ip: 0, stack: seq![], heap: em.strs },
            ) {
                Outcome::Failed(line, msg, _) => r matches Err(errs) && errors_view(errs@)
                    == seq![LoxErrorV::Runtime { line, message: msg }] && final(out)@ == old(out)@,
                Outcome::Returned(v, h) => r is Ok && final(out)@ == old(out)@ + encode_utf8(
                    printed(v, h),
                ),
                _ => false,
            },
        },
{
    proof {
        lemma_compiled_chunks_run::<N>(source@);
    }
    match run_text::<N>(source) {
        Ok(text) => {
            let ghost res = compile_result(source@);
            proof {
                reveal_strlit("\n");
                reveal_strlit("nil");
                reveal_strlit("true");
                reveal_strlit("false");
                let em = res->Ok_0;
                let o = run_spec(
                    em.code,
                    loaded_shapes::<N>(em.consts),
                    em.lines,
                    MState { ip: 0, stack: seq![], heap: em.strs },
                );
                let v = o->Returned_0;
                let h = o->Returned_1;
                assert(text@ =~= text@.drop_last() + "\n"@);
                match v {
                    Shape::Obj(x) => {
                        assert(obj_text(h[x.index() as int]) == text@.drop_last());
                    },
                    _ => {},
                }
                assert(text@ == printed(v, h));
            }
            let bytes = text.as_str().as_bytes();
            let ghost start = out@;
            let mut i: usize = 0;
            while i < bytes.len()
                invariant
                    i <= bytes@.len(),
                    out@ == start + bytes@.take(i as int),
                decreases bytes@.len() - i,
            {
                out.push(bytes[i]);
                assert(bytes@.take(i + 1) =~= bytes@.take(i as int).push(bytes@[i as int]));
                i = i + 1;
            }
            assert(bytes@.take(i as int) =~= bytes@);
            Ok(())
        },
        Err(errs) => Err(errs),
    }
}

} // verus!
