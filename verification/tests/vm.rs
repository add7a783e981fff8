//! The virtual machine, run with `f64` numbers, on hand-built and on
//! compiled chunks.

use rlox::vm::disassembler::trace_entry;
use rlox::vm::{
    compile, values_equal, Chunk, Heap, Number, Obj, OpCode, Value, Vm,
    VmError,
};

#[derive(Debug, Clone, Copy, PartialEq)]
struct F(f64);

impl Number for F {
    fn spec_plus(self, other: Self) -> Self {
        self.plus(other)
    }
    fn spec_minus(self, other: Self) -> Self {
        self.minus(other)
    }
    fn spec_times(self, other: Self) -> Self {
        self.times(other)
    }
    fn spec_divided_by(self, other: Self) -> Self {
        self.divided_by(other)
    }
    fn spec_negated(self) -> Self {
        self.negated()
    }
    fn spec_less_than(self, other: Self) -> bool {
        self.less_than(other)
    }
    fn spec_greater_than(self, other: Self) -> bool {
        self.greater_than(other)
    }
    fn spec_at_most(self, other: Self) -> bool {
        self.at_most(other)
    }
    fn spec_at_least(self, other: Self) -> bool {
        self.at_least(other)
    }
    fn spec_equals(self, other: Self) -> bool {
        self.equals(other)
    }
    fn spec_from_literal(_text: rlox::number::Chars) -> Self {
        unreachable!("specification only")
    }
    fn spec_render(self) -> rlox::number::Chars {
        unreachable!("specification only")
    }
    fn spec_show(self) -> rlox::number::Chars {
        unreachable!("specification only")
    }
    fn plus(self, other: Self) -> Self {
        F(self.0 + other.0)
    }
    fn minus(self, other: Self) -> Self {
        F(self.0 - other.0)
    }
    fn times(self, other: Self) -> Self {
        F(self.0 * other.0)
    }
    fn divided_by(self, other: Self) -> Self {
        F(self.0 / other.0)
    }
    fn negated(self) -> Self {
        F(-self.0)
    }
    fn less_than(self, other: Self) -> bool {
        self.0 < other.0
    }
    fn greater_than(self, other: Self) -> bool {
        self.0 > other.0
    }
    fn at_most(self, other: Self) -> bool {
        self.0 <= other.0
    }
    fn at_least(self, other: Self) -> bool {
        self.0 >= other.0
    }
    fn equals(self, other: Self) -> bool {
        self.0 == other.0
    }
    fn from_literal(text: &str) -> Self {
        F(text.parse().unwrap())
    }
    fn render(self) -> String {
        format!("{}", self.0)
    }
    fn show(self) -> String {
        if self.0.fract() == 0.0 && self.0.is_finite() {
            format!("{:.1}", self.0)
        } else {
            format!("{}", self.0)
        }
    }
}

fn num(n: f64) -> Value<F> {
    Value::Number(F(n))
}

fn load(chunk: Chunk<Value<String>>) -> Chunk<Value<F>> {
    rlox::vm::machine::load::<F>(chunk)
}

fn run(src: &str) -> (Value<F>, Heap) {
    let (chunk, mut heap) = compile(src).expect("compile clean");
    let chunk = load(chunk);
    let v = Vm::new().interpret(&chunk, &mut heap).expect("runs clean");
    (v, heap)
}

fn eval(src: &str) -> Value<F> {
    run(src).0
}

fn run_err(src: &str) -> VmError {
    let (chunk, mut heap) = compile(src).expect("compile clean");
    let chunk = load(chunk);
    Vm::new().interpret(&chunk, &mut heap).expect_err("expected runtime error")
}

fn return_constant(n: f64) -> Chunk<Value<F>> {
    let mut c = Chunk::new();
    let idx = c.add_constant(num(n));
    c.write_op(OpCode::Constant, 1);
    c.write_byte(idx, 1);
    c.write_op(OpCode::Return, 1);
    c
}

// ---- hand-built chunks ----

#[test]
fn return_pops_top_of_stack() {
    let c = return_constant(42.0);
    let mut heap = Heap::new();
    assert_eq!(Vm::new().interpret(&c, &mut heap).unwrap(), num(42.0));
}

#[test]
fn negate_flips_sign_of_top() {
    let mut c = Chunk::new();
    let idx = c.add_constant(num(1.2));
    c.write_op(OpCode::Constant, 1);
    c.write_byte(idx, 1);
    c.write_op(OpCode::Negate, 1);
    c.write_op(OpCode::Return, 1);
    let mut heap = Heap::new();
    assert_eq!(Vm::new().interpret(&c, &mut heap).unwrap(), num(-1.2));
}

#[test]
fn add_two_constants() {
    let mut c = Chunk::new();
    let one = c.add_constant(num(1.0));
    let two = c.add_constant(num(2.0));
    c.write_op(OpCode::Constant, 1);
    c.write_byte(one, 1);
    c.write_op(OpCode::Constant, 1);
    c.write_byte(two, 1);
    c.write_op(OpCode::Add, 1);
    c.write_op(OpCode::Return, 1);
    let mut heap = Heap::new();
    assert_eq!(Vm::new().interpret(&c, &mut heap).unwrap(), num(3.0));
}

#[test]
fn arithmetic_precedence_via_stack_ordering() {
    let mut c = Chunk::new();
    let one = c.add_constant(num(1.0));
    let two = c.add_constant(num(2.0));
    let three = c.add_constant(num(3.0));
    let four = c.add_constant(num(4.0));
    c.write_op(OpCode::Constant, 1);
    c.write_byte(one, 1);
    c.write_op(OpCode::Constant, 1);
    c.write_byte(two, 1);
    c.write_op(OpCode::Add, 1);
    c.write_op(OpCode::Constant, 1);
    c.write_byte(three, 1);
    c.write_op(OpCode::Multiply, 1);
    c.write_op(OpCode::Constant, 1);
    c.write_byte(four, 1);
    c.write_op(OpCode::Negate, 1);
    c.write_op(OpCode::Subtract, 1);
    c.write_op(OpCode::Return, 1);
    let mut heap = Heap::new();
    assert_eq!(Vm::new().interpret(&c, &mut heap).unwrap(), num(13.0));
}

#[test]
fn divide_by_zero_yields_ieee_infinity() {
    let mut c = Chunk::new();
    let one = c.add_constant(num(1.0));
    let zero = c.add_constant(num(0.0));
    c.write_op(OpCode::Constant, 1);
    c.write_byte(one, 1);
    c.write_op(OpCode::Constant, 1);
    c.write_byte(zero, 1);
    c.write_op(OpCode::Divide, 1);
    c.write_op(OpCode::Return, 1);
    let mut heap = Heap::new();
    let Value::Number(F(n)) = Vm::new().interpret(&c, &mut heap).unwrap() else {
        panic!("expected Number");
    };
    assert!(n.is_infinite() && n.is_sign_positive(), "got {n}");
}

#[test]
fn debug_trace_emits_clox_format() {
    let c = return_constant(1.2);
    let mut heap = Heap::new();
    let (r, steps) = Vm::new().interpret_with_trace(&c, &mut heap);
    assert_eq!(r.unwrap(), num(1.2));
    let texts: Vec<String> = vec!["1.2".to_string()];
    let mut trace = String::new();
    for (ip, stack) in &steps {
        trace.push_str(&trace_entry(&c, &texts, *ip, stack));
    }
    let expected = [
        "          \n",
        "0000    1 OP_CONSTANT         0 '1.2'\n",
        "          [ 1.2 ]\n",
        "0002    | OP_RETURN\n",
    ]
    .join("");
    assert_eq!(trace, expected);
}

#[test]
fn vm_can_be_reused_across_chunks() {
    let mut vm = Vm::new();
    let mut heap = Heap::new();
    assert_eq!(vm.interpret(&return_constant(1.0), &mut heap).unwrap(), num(1.0));
    assert_eq!(vm.interpret(&return_constant(2.0), &mut heap).unwrap(), num(2.0));
    assert!(vm.stack().is_empty());
}

// ---- values ----

#[test]
fn is_truthy_matches_lox_rules() {
    assert!(!Value::<F>::Nil.is_truthy());
    assert!(!Value::<F>::Bool(false).is_truthy());
    assert!(Value::<F>::Bool(true).is_truthy());
    assert!(num(0.0).is_truthy());
    assert!(num(-1.0).is_truthy());
}

#[test]
fn obj_strings_are_truthy() {
    let mut heap = Heap::new();
    let h = heap.alloc_string("");
    assert!(Value::<F>::Obj(h).is_truthy());
}

#[test]
fn values_equal_compares_string_contents() {
    let mut heap = Heap::new();
    let a = heap.alloc_string("abc");
    let b = heap.alloc_string("abc");
    let c = heap.alloc_string("xyz");
    assert!(values_equal::<F>(Value::Obj(a), Value::Obj(b), &heap));
    assert!(!values_equal::<F>(Value::Obj(a), Value::Obj(c), &heap));
    assert!(!values_equal(Value::Obj(a), num(1.0), &heap));
}

// ---- compiled expressions ----

#[test]
fn compiles_and_runs_a_single_number() {
    assert_eq!(eval("42"), num(42.0));
}

#[test]
fn precedence_term_lower_than_factor() {
    assert_eq!(eval("1 + 2 * 3"), num(7.0));
}

#[test]
fn grouping_overrides_precedence() {
    assert_eq!(eval("(1 + 2) * 3"), num(9.0));
}

#[test]
fn unary_minus_binds_tighter_than_factor() {
    assert_eq!(eval("-2 * 3"), num(-6.0));
}

#[test]
fn left_associative_subtraction() {
    assert_eq!(eval("1 - 2 - 3"), num(-4.0));
}

#[test]
fn left_associative_division() {
    assert_eq!(eval("8 / 4 / 2"), num(1.0));
}

#[test]
fn nested_grouping() {
    assert_eq!(eval("(5 - (3 - 1)) + -1"), num(2.0));
}

#[test]
fn whitespace_and_comments_are_ignored() {
    assert_eq!(eval("// preamble\n  1 + 2  // tail\n"), num(3.0));
}

#[test]
fn nil_true_false_literals_evaluate() {
    assert_eq!(eval("nil"), Value::Nil);
    assert_eq!(eval("true"), Value::Bool(true));
    assert_eq!(eval("false"), Value::Bool(false));
}

#[test]
fn logical_not_uses_lox_truthiness() {
    assert_eq!(eval("!nil"), Value::Bool(true));
    assert_eq!(eval("!false"), Value::Bool(true));
    assert_eq!(eval("!true"), Value::Bool(false));
    assert_eq!(eval("!0"), Value::Bool(false));
    assert_eq!(eval("!!nil"), Value::Bool(false));
}

#[test]
fn equality_is_polymorphic() {
    assert_eq!(eval("1 == 1"), Value::Bool(true));
    assert_eq!(eval("1 == 2"), Value::Bool(false));
    assert_eq!(eval("nil == nil"), Value::Bool(true));
    assert_eq!(eval("true == true"), Value::Bool(true));
    assert_eq!(eval("1 == true"), Value::Bool(false));
    assert_eq!(eval("nil == false"), Value::Bool(false));
}

#[test]
fn bang_equal_synthesizes_via_equal_plus_not() {
    assert_eq!(eval("1 != 2"), Value::Bool(true));
    assert_eq!(eval("1 != 1"), Value::Bool(false));
    assert_eq!(eval("nil != true"), Value::Bool(true));
}

#[test]
fn comparison_operators_on_numbers() {
    assert_eq!(eval("1 < 2"), Value::Bool(true));
    assert_eq!(eval("2 < 1"), Value::Bool(false));
    assert_eq!(eval("1 > 2"), Value::Bool(false));
    assert_eq!(eval("3 > 1"), Value::Bool(true));
    assert_eq!(eval("2 <= 2"), Value::Bool(true));
    assert_eq!(eval("2 <= 1"), Value::Bool(false));
    assert_eq!(eval("2 >= 2"), Value::Bool(true));
    assert_eq!(eval("1 >= 2"), Value::Bool(false));
}

#[test]
fn precedence_equality_below_comparison_below_term() {
    assert_eq!(eval("1 + 2 < 4 == false"), Value::Bool(false));
}

#[test]
fn negate_non_number_is_runtime_error_with_line() {
    let VmError::Runtime { line, message } = run_err("-true");
    assert_eq!(message, "Operand must be a number.");
    assert_eq!(line, 1);
}

#[test]
fn arithmetic_on_non_numbers_is_runtime_error() {
    let VmError::Runtime { message, .. } = run_err("1 - nil");
    assert_eq!(message, "Operands must be numbers.");
}

#[test]
fn comparison_on_non_numbers_is_runtime_error() {
    let VmError::Runtime { message, .. } = run_err("nil < 1");
    assert_eq!(message, "Operands must be numbers.");
}

#[test]
fn equality_does_not_raise_for_mixed_types() {
    assert_eq!(eval("nil == 1"), Value::Bool(false));
    assert_eq!(eval("true != 1"), Value::Bool(true));
}

#[test]
fn runtime_error_line_attribution_is_correct() {
    let VmError::Runtime { line, message } = run_err("1\n - \nnil");
    assert_eq!(message, "Operands must be numbers.");
    assert_eq!(line, 3);
}

#[test]
fn string_literal_evaluates_to_obj_string() {
    let (v, heap) = run("\"hello\"");
    let Value::Obj(h) = v else {
        panic!("expected Obj, got {v:?}");
    };
    assert_eq!(heap.as_str(h), Some("hello"));
}

#[test]
fn empty_string_literal_works() {
    let (v, heap) = run("\"\"");
    let Value::Obj(h) = v else {
        panic!("expected Obj");
    };
    assert_eq!(heap.as_str(h), Some(""));
}

#[test]
fn string_concatenation_via_plus() {
    let (v, heap) = run("\"foo\" + \"bar\"");
    let Value::Obj(h) = v else {
        panic!("expected Obj");
    };
    assert_eq!(heap.as_str(h), Some("foobar"));
}

#[test]
fn three_way_concatenation_is_left_associative() {
    let (v, heap) = run("\"a\" + \"b\" + \"c\"");
    let Value::Obj(h) = v else {
        panic!("expected Obj");
    };
    assert_eq!(heap.as_str(h), Some("abc"));
}

#[test]
fn equal_operator_compares_string_contents() {
    assert_eq!(eval("\"abc\" == \"abc\""), Value::Bool(true));
    assert_eq!(eval("\"abc\" == \"xyz\""), Value::Bool(false));
}

#[test]
fn bang_equal_on_strings_negates_content_equality() {
    assert_eq!(eval("\"abc\" != \"abc\""), Value::Bool(false));
    assert_eq!(eval("\"abc\" != \"xyz\""), Value::Bool(true));
}

#[test]
fn equal_across_different_types_is_false_not_an_error() {
    assert_eq!(eval("\"1\" == 1"), Value::Bool(false));
    assert_eq!(eval("\"true\" == true"), Value::Bool(false));
    assert_eq!(eval("\"\" == nil"), Value::Bool(false));
}

#[test]
fn plus_on_string_and_number_is_runtime_error() {
    let VmError::Runtime { message, .. } = run_err("\"foo\" + 1");
    assert_eq!(message, "Operands must be two numbers or two strings.");
}

#[test]
fn plus_on_two_nils_is_runtime_error() {
    let VmError::Runtime { message, .. } = run_err("nil + nil");
    assert_eq!(message, "Operands must be two numbers or two strings.");
}

#[test]
fn ordering_op_on_strings_remains_a_runtime_error() {
    let VmError::Runtime { message, .. } = run_err("\"a\" < \"b\"");
    assert_eq!(message, "Operands must be numbers.");
}

#[test]
fn concatenation_allocates_a_new_object() {
    let (chunk, mut heap) = compile("\"a\" + \"b\"").expect("compile");
    let chunk = load(chunk);
    let pre_objs = heap.len();
    let v = Vm::new().interpret(&chunk, &mut heap).expect("runs");
    assert_eq!(heap.len(), pre_objs + 1);
    let Value::Obj(h) = v else {
        panic!("expected Obj");
    };
    assert_eq!(heap.as_str(h), Some("ab"));
}

#[test]
fn strings_are_truthy_via_bang() {
    assert_eq!(eval("!\"\""), Value::Bool(false));
    assert_eq!(eval("!\"x\""), Value::Bool(false));
}

#[test]
fn runtime_error_heap_keeps_earlier_allocations() {
    let (chunk, mut heap) = compile("\"a\" + \"b\" - 1").expect("compile");
    let chunk = load(chunk);
    let err = Vm::new().interpret(&chunk, &mut heap).expect_err("type error");
    assert_eq!(err, VmError::Runtime { line: 1, message: "Operands must be numbers.".into() });
    assert_eq!(heap.len(), 3);
    assert_eq!(*heap.get(heap_handle(&chunk)), Obj::Str("a".into()));
}

#[test]
fn display_shows_values_as_print_does() {
    let mut heap = Heap::new();
    let h = heap.alloc_string("hi");
    assert_eq!(Value::<F>::Nil.display(&heap), "nil");
    assert_eq!(Value::<F>::Bool(true).display(&heap), "true");
    assert_eq!(Value::<F>::Bool(false).display(&heap), "false");
    assert_eq!(num(2.5).display(&heap), "2.5");
    assert_eq!(Value::<F>::Obj(h).display(&heap), "hi");
}

#[test]
fn load_converts_number_text() {
    let (chunk, _) = compile("1.5 + \"s\"").expect("compiles");
    let loaded = load(chunk);
    assert_eq!(loaded.constants[0], num(1.5));
    assert!(matches!(loaded.constants[1], Value::Obj(_)));
}

fn heap_handle(chunk: &Chunk<Value<F>>) -> rlox::vm::Handle {
    let Value::Obj(h) = chunk.constants[0] else {
        panic!("expected an object constant");
    };
    h
}

#[test]
fn display_renders_whole_numbers_without_decimal() {
    assert_eq!(num(42.0).render(), "42");
}

#[test]
fn display_renders_fractions_naturally() {
    assert_eq!(num(1.2).render(), "1.2");
}

#[test]
fn display_renders_nil_and_bools() {
    assert_eq!(Value::<F>::Nil.render(), "nil");
    assert_eq!(Value::<F>::Bool(true).render(), "true");
    assert_eq!(Value::<F>::Bool(false).render(), "false");
}

#[test]
fn display_with_heap_renders_strings() {
    let mut heap = Heap::new();
    let h = heap.alloc_string("hello");
    assert_eq!(Value::<F>::Obj(h).display(&heap), "hello");
    assert_eq!(Value::<F>::Obj(h).render(), "<obj#0>");
}
