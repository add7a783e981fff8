//! The tree-walk evaluator, with `f64` numbers.

use rlox::interpreter::Value;
use rlox::{
    evaluate, evaluate_in, parse, run, scan, stringify_value, Environment, Expr, LoxError, Number,
    Token, TokenType,
};

#[derive(Debug, Clone, Copy, PartialEq)]
struct F(f64);

impl Number for F {
    fn spec_plus(self, other: Self) -> Self {
        self.plus(other)
    }
    fn spec_minus(self, other: Self) -> Self {
        self.minus(other)
    }
    fn spec_times(self, other: Self) -> Self {
        self.times(other)
    }
    fn spec_divided_by(self, other: Self) -> Self {
        self.divided_by(other)
    }
    fn spec_negated(self) -> Self {
        self.negated()
    }
    fn spec_less_than(self, other: Self) -> bool {
        self.less_than(other)
    }
    fn spec_greater_than(self, other: Self) -> bool {
        self.greater_than(other)
    }
    fn spec_at_most(self, other: Self) -> bool {
        self.at_most(other)
    }
    fn spec_at_least(self, other: Self) -> bool {
        self.at_least(other)
    }
    fn spec_equals(self, other: Self) -> bool {
        self.equals(other)
    }
    fn spec_from_literal(_text: rlox::number::Chars) -> Self {
        unreachable!("specification only")
    }
    fn spec_render(self) -> rlox::number::Chars {
        unreachable!("specification only")
    }
    fn spec_show(self) -> rlox::number::Chars {
        unreachable!("specification only")
    }
    fn plus(self, other: Self) -> Self {
        F(self.0 + other.0)
    }
    fn minus(self, other: Self) -> Self {
        F(self.0 - other.0)
    }
    fn times(self, other: Self) -> Self {
        F(self.0 * other.0)
    }
    fn divided_by(self, other: Self) -> Self {
        F(self.0 / other.0)
    }
    fn negated(self) -> Self {
        F(-self.0)
    }
    fn less_than(self, other: Self) -> bool {
        self.0 < other.0
    }
    fn greater_than(self, other: Self) -> bool {
        self.0 > other.0
    }
    fn at_most(self, other: Self) -> bool {
        self.0 <= other.0
    }
    fn at_least(self, other: Self) -> bool {
        self.0 >= other.0
    }
    fn equals(self, other: Self) -> bool {
        self.0 == other.0
    }
    fn from_literal(text: &str) -> Self {
        F(text.parse().unwrap())
    }
    fn render(self) -> String {
        format!("{}", self.0)
    }
    fn show(self) -> String {
        if self.0.fract() == 0.0 && self.0.is_finite() {
            format!("{:.1}", self.0)
        } else {
            format!("{}", self.0)
        }
    }
}

fn parsed(src: &str) -> Expr {
    let (tokens, scan_errors) = scan(src);
    assert!(scan_errors.is_empty(), "scan errors: {scan_errors:?}");
    parse(&tokens).expect("parse should succeed in eval_str")
}

fn eval_str(src: &str) -> Result<Value<F>, LoxError> {
    evaluate::<F>(&parsed(src))
}

fn number(n: f64) -> Value<F> {
    Value::Number(F(n))
}

fn stringify(v: &Value<F>) -> String {
    stringify_value(v)
}

// ---- literals & grouping ----

#[test]
fn evaluates_number_string_bool_nil_literals() {
    assert_eq!(eval_str("123").unwrap(), number(123.0));
    assert_eq!(eval_str(r#""hi""#).unwrap(), Value::String("hi".into()));
    assert_eq!(eval_str("true").unwrap(), Value::Bool(true));
    assert_eq!(eval_str("false").unwrap(), Value::Bool(false));
    assert_eq!(eval_str("nil").unwrap(), Value::Nil);
}

#[test]
fn evaluates_grouping() {
    assert_eq!(eval_str("(1 + 2) * 3").unwrap(), number(9.0));
}

// ---- unary ----

#[test]
fn unary_minus_negates_number() {
    assert_eq!(eval_str("-1").unwrap(), number(-1.0));
    assert_eq!(eval_str("--1").unwrap(), number(1.0));
}

#[test]
fn unary_minus_on_non_number_is_runtime_error() {
    let err = eval_str(r#"-"hi""#).unwrap_err();
    let LoxError::Runtime { line, message } = err else {
        panic!("expected Runtime, got {err:?}");
    };
    assert_eq!(line, 1);
    assert_eq!(message, "Operand must be a number.");
}

#[test]
fn bang_uses_lox_truthiness() {
    assert_eq!(eval_str("!true").unwrap(), Value::Bool(false));
    assert_eq!(eval_str("!false").unwrap(), Value::Bool(true));
    assert_eq!(eval_str("!nil").unwrap(), Value::Bool(true));
    assert_eq!(eval_str("!0").unwrap(), Value::Bool(false));
    assert_eq!(eval_str(r#"!"""#).unwrap(), Value::Bool(false));
    assert_eq!(eval_str(r#"!"hi""#).unwrap(), Value::Bool(false));
}

// ---- binary arithmetic ----

#[test]
fn arithmetic_on_numbers() {
    assert_eq!(eval_str("1 + 2").unwrap(), number(3.0));
    assert_eq!(eval_str("5 - 2").unwrap(), number(3.0));
    assert_eq!(eval_str("3 * 4").unwrap(), number(12.0));
    assert_eq!(eval_str("8 / 2").unwrap(), number(4.0));
}

#[test]
fn plus_concatenates_two_strings() {
    assert_eq!(eval_str(r#""foo" + "bar""#).unwrap(), Value::String("foobar".into()));
}

#[test]
fn plus_with_mixed_operand_types_is_runtime_error() {
    let err = eval_str(r#"1 + "x""#).unwrap_err();
    let LoxError::Runtime { line, message } = err else {
        panic!("expected Runtime, got {err:?}");
    };
    assert_eq!(line, 1);
    assert_eq!(message, "Operands must be two numbers or two strings.");
}

#[test]
fn arithmetic_on_non_number_is_runtime_error() {
    for src in [r#""a" - 1"#, r#"1 * "b""#, r#""a" / 2"#] {
        let err = eval_str(src).unwrap_err();
        let LoxError::Runtime { line, message } = err else {
            panic!("expected Runtime for {src:?}, got {err:?}");
        };
        assert_eq!(line, 1);
        assert_eq!(message, "Operands must be numbers.");
    }
}

// ---- comparison & equality ----

#[test]
fn comparison_on_numbers() {
    assert_eq!(eval_str("1 < 2").unwrap(), Value::Bool(true));
    assert_eq!(eval_str("2 < 2").unwrap(), Value::Bool(false));
    assert_eq!(eval_str("2 <= 2").unwrap(), Value::Bool(true));
    assert_eq!(eval_str("3 > 2").unwrap(), Value::Bool(true));
    assert_eq!(eval_str("2 >= 3").unwrap(), Value::Bool(false));
}

#[test]
fn comparison_on_non_number_is_runtime_error() {
    let err = eval_str(r#""a" < "b""#).unwrap_err();
    let LoxError::Runtime { message, .. } = err else {
        panic!("expected Runtime");
    };
    assert_eq!(message, "Operands must be numbers.");
}

#[test]
fn equality_compares_across_types() {
    assert_eq!(eval_str("nil == nil").unwrap(), Value::Bool(true));
    assert_eq!(eval_str("nil == false").unwrap(), Value::Bool(false));
    assert_eq!(eval_str("1 == 1").unwrap(), Value::Bool(true));
    assert_eq!(eval_str("1 == 2").unwrap(), Value::Bool(false));
    assert_eq!(eval_str(r#"1 == "1""#).unwrap(), Value::Bool(false));
    assert_eq!(eval_str(r#""a" == "a""#).unwrap(), Value::Bool(true));
    assert_eq!(eval_str("true != false").unwrap(), Value::Bool(true));
}

// ---- chap07 reference ----

#[test]
fn evaluates_chap07_reference_case() {
    let value = eval_str("(5 - (3 - 1)) + -1").unwrap();
    assert_eq!(value, number(2.0));
    assert_eq!(stringify(&value), "2");
}

// ---- stringify ----

#[test]
fn stringify_strips_trailing_zero_on_whole_numbers() {
    assert_eq!(stringify(&number(1.0)), "1");
    assert_eq!(stringify(&number(0.0)), "0");
    assert_eq!(stringify(&number(-3.0)), "-3");
}

#[test]
fn stringify_keeps_fractional_part() {
    assert_eq!(stringify(&number(1.5)), "1.5");
    assert_eq!(stringify(&number(2.5)), "2.5");
    assert_eq!(stringify(&number(-0.25)), "-0.25");
}

#[test]
fn stringify_other_atoms() {
    assert_eq!(stringify(&Value::Nil), "nil");
    assert_eq!(stringify(&Value::Bool(true)), "true");
    assert_eq!(stringify(&Value::Bool(false)), "false");
    assert_eq!(stringify(&Value::String("hi".into())), "hi");
}

// ---- variables, assignment and logical operators ----

fn tok(ttype: TokenType, lexeme: &str) -> Token {
    Token::new(ttype, lexeme, None, 3)
}

fn lit(v: rlox::Value) -> Box<Expr> {
    Box::new(Expr::Literal(v))
}

fn var(name: &str) -> Expr {
    Expr::Variable(tok(TokenType::Identifier, name))
}

fn logical(left: Expr, op: TokenType, lexeme: &str, right: Expr) -> Expr {
    Expr::Logical { left: Box::new(left), op: tok(op, lexeme), right: Box::new(right) }
}

fn failing_sum() -> Expr {
    Expr::Binary {
        left: lit(rlox::Value::Number("1".into())),
        op: tok(TokenType::Plus, "+"),
        right: lit(rlox::Value::String("x".into())),
    }
}

#[test]
fn variable_reads_the_innermost_binding() {
    let mut env: Environment<Value<F>> = Environment::new();
    env.define("a", Value::String("global".into()));
    env.push();
    env.define("a", Value::String("block".into()));
    assert_eq!(evaluate_in(&var("a"), &mut env).unwrap(), Value::String("block".into()));
    env.pop();
    assert_eq!(evaluate_in(&var("a"), &mut env).unwrap(), Value::String("global".into()));
}

#[test]
fn reading_an_unbound_variable_reports_its_name_and_line() {
    let err = evaluate::<F>(&var("missing")).unwrap_err();
    assert_eq!(
        err,
        LoxError::Runtime { line: 3, message: "Undefined variable 'missing'.".into() }
    );
}

#[test]
fn assignment_yields_the_value_and_updates_the_outer_binding() {
    let mut env: Environment<Value<F>> = Environment::new();
    env.define("a", number(1.0));
    env.push();
    let assign = Expr::Assign {
        name: tok(TokenType::Identifier, "a"),
        value: lit(rlox::Value::Number("2".into())),
    };
    assert_eq!(evaluate_in(&assign, &mut env).unwrap(), number(2.0));
    env.pop();
    assert_eq!(evaluate_in(&var("a"), &mut env).unwrap(), number(2.0));
}

#[test]
fn assigning_an_unbound_variable_is_an_error_and_binds_nothing() {
    let mut env: Environment<Value<F>> = Environment::new();
    let assign =
        Expr::Assign { name: tok(TokenType::Identifier, "b"), value: lit(rlox::Value::Nil) };
    let err = evaluate_in(&assign, &mut env).unwrap_err();
    assert_eq!(err, LoxError::Runtime { line: 3, message: "Undefined variable 'b'.".into() });
    assert!(evaluate_in(&var("b"), &mut env).is_err());
}

#[test]
fn or_yields_the_first_truthy_operand_without_evaluating_the_rest() {
    let e = logical(
        logical(Expr::Literal(rlox::Value::Nil), TokenType::Or, "or", Expr::Literal(rlox::Value::Number("1".into()))),
        TokenType::Or,
        "or",
        failing_sum(),
    );
    assert_eq!(evaluate::<F>(&e).unwrap(), number(1.0));
    let e = logical(
        Expr::Literal(rlox::Value::Nil),
        TokenType::Or,
        "or",
        Expr::Literal(rlox::Value::Bool(false)),
    );
    assert_eq!(evaluate::<F>(&e).unwrap(), Value::Bool(false));
}

#[test]
fn and_yields_the_first_falsy_operand_or_the_last() {
    let e = logical(Expr::Literal(rlox::Value::Bool(false)), TokenType::And, "and", failing_sum());
    assert_eq!(evaluate::<F>(&e).unwrap(), Value::Bool(false));
    let e = logical(
        Expr::Literal(rlox::Value::Number("1".into())),
        TokenType::And,
        "and",
        Expr::Literal(rlox::Value::Number("2".into())),
    );
    assert_eq!(evaluate::<F>(&e).unwrap(), number(2.0));
    let e = logical(Expr::Literal(rlox::Value::Bool(true)), TokenType::And, "and", failing_sum());
    assert_eq!(
        evaluate::<F>(&e).unwrap_err(),
        LoxError::Runtime { line: 3, message: "Operands must be two numbers or two strings.".into() }
    );
}

#[test]
fn left_operand_error_comes_before_the_right_one() {
    let err = eval_str(r#"(-"a") + (1 < "b")"#).unwrap_err();
    let LoxError::Runtime { message, .. } = err else {
        panic!("expected Runtime");
    };
    assert_eq!(message, "Operand must be a number.");
}

#[test]
fn at_least_and_at_most_follow_floating_point_order() {
    assert_eq!(eval_str("0/0 >= 0").unwrap(), Value::Bool(false));
    assert_eq!(eval_str("0/0 <= 0").unwrap(), Value::Bool(false));
    assert_eq!(eval_str("!(0/0 < 0)").unwrap(), Value::Bool(true));
    assert_eq!(eval_str("-0 == 0").unwrap(), Value::Bool(true));
}

#[test]
fn comparisons_feed_equality_and_negation() {
    assert_eq!(eval_str("(1 < 2) == !(2 <= 1)").unwrap(), Value::Bool(true));
    assert_eq!(eval_str(r#""ab" + "c" == "a" + "bc""#).unwrap(), Value::Bool(true));
}

// ---- the whole pipeline ----

#[test]
fn run_prints_the_value_of_an_expression() {
    assert_eq!(run::<F>("(5 - (3 - 1)) + -1").unwrap(), "2");
    assert_eq!(run::<F>(r#""foo" + "bar""#).unwrap(), "foobar");
    assert_eq!(run::<F>("1 == 1").unwrap(), "true");
    assert_eq!(run::<F>("nil").unwrap(), "nil");
    assert_eq!(run::<F>("1 / 4").unwrap(), "0.25");
}

#[test]
fn run_reports_every_scan_error() {
    let errs = run::<F>("@ 1 #").unwrap_err();
    assert_eq!(errs.len(), 2);
    assert!(errs.iter().all(|e| matches!(e, LoxError::Scan { .. })));
}

#[test]
fn run_reports_the_syntax_error() {
    let errs = run::<F>("1 +").unwrap_err();
    assert_eq!(errs.len(), 1);
    assert_eq!(errs[0].render(), "[line 1] Error at end: Expect expression.");
}

#[test]
fn run_reports_the_runtime_error() {
    let errs = run::<F>("\n1 - nil").unwrap_err();
    assert_eq!(
        errs,
        vec![LoxError::Runtime { line: 2, message: "Operands must be numbers.".into() }]
    );
}

// ---- statements ----

use rlox::interpreter::{check_program, Action, Interpreter};
use rlox::Stmt;

fn num_lit(text: &str) -> Expr {
    Expr::Literal(rlox::Value::Number(text.into()))
}

fn str_lit(text: &str) -> Expr {
    Expr::Literal(rlox::Value::String(text.into()))
}

fn binary(left: Expr, op: TokenType, lexeme: &str, right: Expr) -> Expr {
    Expr::Binary { left: Box::new(left), op: tok(op, lexeme), right: Box::new(right) }
}

fn assign(name: &str, value: Expr) -> Expr {
    Expr::Assign { name: tok(TokenType::Identifier, name), value: Box::new(value) }
}

fn declare(name: &str, init: Option<Expr>) -> Stmt {
    Stmt::Var { name: tok(TokenType::Identifier, name), initializer: init }
}

/// Run `program` on `interp`, collecting what it prints, until it ends.
fn run_on(interp: Interpreter<F>, program: &[Stmt]) -> (String, Option<LoxError>, Interpreter<F>) {
    assert!(check_program(program));
    let mut exec = interp.start(program);
    let mut out = String::new();
    loop {
        match exec.step() {
            Action::Print(text) => {
                out.push_str(&text);
                out.push('\n');
            }
            Action::Continue => {}
            Action::Done => return (out, None, exec.finish()),
            Action::Fail(e) => return (out, Some(e), exec.finish()),
        }
    }
}

fn run_program(program: &[Stmt]) -> Result<String, LoxError> {
    let (out, err, _) = run_on(Interpreter::new(), program);
    match err {
        None => Ok(out),
        Some(e) => Err(e),
    }
}

fn nil() -> Expr {
    Expr::Literal(rlox::Value::Nil)
}

fn boolean(b: bool) -> Expr {
    Expr::Literal(rlox::Value::Bool(b))
}

fn print_i_then_increment() -> Stmt {
    Stmt::Block(vec![
        Stmt::Print(var("i")),
        Stmt::Expression(assign("i", binary(var("i"), TokenType::Plus, "+", num_lit("1")))),
    ])
}

/// `for (init; i < limit; i = i + 1) print i;` as the parser desugars it:
/// the increment runs after the body, inside the loop.
fn counting_for(init: Option<Stmt>, limit: &str) -> Stmt {
    let looped = Stmt::While {
        condition: binary(var("i"), TokenType::Less, "<", num_lit(limit)),
        body: Box::new(Stmt::Block(vec![
            Stmt::Print(var("i")),
            Stmt::Expression(assign("i", binary(var("i"), TokenType::Plus, "+", num_lit("1")))),
        ])),
    };
    match init {
        Some(s) => Stmt::Block(vec![s, looped]),
        None => looped,
    }
}

fn runtime_message(err: LoxError) -> String {
    let LoxError::Runtime { message, .. } = err else {
        panic!("expected Runtime error, got {err:?}");
    };
    message
}

#[test]
fn print_emits_one_line_per_call() {
    let program = vec![Stmt::Print(num_lit("1")), Stmt::Print(num_lit("2"))];
    assert_eq!(run_program(&program).unwrap(), "1\n2\n");
}

#[test]
fn expression_statement_runs_for_side_effects_only() {
    let program = vec![
        Stmt::Expression(binary(num_lit("1"), TokenType::Plus, "+", num_lit("2"))),
        Stmt::Print(num_lit("7")),
    ];
    assert_eq!(run_program(&program).unwrap(), "7\n");
}

#[test]
fn var_with_initializer_can_be_read() {
    let program = vec![declare("a", Some(num_lit("9"))), Stmt::Print(var("a"))];
    assert_eq!(run_program(&program).unwrap(), "9\n");
}

#[test]
fn var_without_initializer_defaults_to_nil() {
    let program = vec![declare("a", None), Stmt::Print(var("a"))];
    assert_eq!(run_program(&program).unwrap(), "nil\n");
}

#[test]
fn assignment_returns_value_and_can_chain() {
    let program = vec![
        declare("a", None),
        declare("b", None),
        Stmt::Expression(assign("a", assign("b", num_lit("5")))),
        Stmt::Print(var("a")),
        Stmt::Print(var("b")),
    ];
    assert_eq!(run_program(&program).unwrap(), "5\n5\n");
}

#[test]
fn block_introduces_a_nested_scope() {
    let program = vec![
        declare("a", Some(str_lit("global"))),
        Stmt::Block(vec![declare("a", Some(str_lit("block"))), Stmt::Print(var("a"))]),
        Stmt::Print(var("a")),
    ];
    assert_eq!(run_program(&program).unwrap(), "block\nglobal\n");
}

#[test]
fn assignment_inside_block_updates_outer_binding() {
    let program = vec![
        declare("a", Some(num_lit("1"))),
        Stmt::Block(vec![Stmt::Expression(assign("a", num_lit("2")))]),
        Stmt::Print(var("a")),
    ];
    assert_eq!(run_program(&program).unwrap(), "2\n");
}

#[test]
fn reading_undefined_variable_is_runtime_error() {
    let err = run_program(&[Stmt::Print(var("a"))]).unwrap_err();
    assert_eq!(runtime_message(err), "Undefined variable 'a'.");
}

#[test]
fn assigning_undefined_variable_is_runtime_error() {
    let err = run_program(&[Stmt::Expression(assign("a", num_lit("1")))]).unwrap_err();
    assert_eq!(runtime_message(err), "Undefined variable 'a'.");
}

#[test]
fn runtime_error_inside_block_still_pops_the_scope() {
    let program = vec![Stmt::Block(vec![
        declare("inner", Some(num_lit("1"))),
        Stmt::Expression(failing_sum()),
    ])];
    let (out, err, interp) = run_on(Interpreter::new(), &program);
    assert_eq!(out, "");
    assert!(matches!(err, Some(LoxError::Runtime { .. })));
    let (_, err, _) = run_on(interp, &[Stmt::Print(var("inner"))]);
    assert_eq!(runtime_message(err.unwrap()), "Undefined variable 'inner'.");
}

#[test]
fn globals_persist_from_one_program_to_the_next() {
    let (_, err, interp) = run_on(Interpreter::new(), &[declare("g", Some(num_lit("1")))]);
    assert!(err.is_none());
    let (out, err, _) = run_on(interp, &[Stmt::Print(var("g"))]);
    assert!(err.is_none());
    assert_eq!(out, "1\n");
}

fn if_stmt(cond: Expr, with_else: bool) -> Stmt {
    Stmt::If {
        condition: cond,
        then_branch: Box::new(Stmt::Print(num_lit("1"))),
        else_branch: if with_else { Some(Box::new(Stmt::Print(num_lit("2")))) } else { None },
    }
}

#[test]
fn if_executes_then_branch_when_truthy() {
    assert_eq!(run_program(&[if_stmt(boolean(true), false)]).unwrap(), "1\n");
}

#[test]
fn if_executes_else_branch_when_falsy() {
    assert_eq!(run_program(&[if_stmt(boolean(false), true)]).unwrap(), "2\n");
}

#[test]
fn if_with_no_else_is_a_no_op_when_falsy() {
    let program = vec![if_stmt(boolean(false), false), Stmt::Print(num_lit("2"))];
    assert_eq!(run_program(&program).unwrap(), "2\n");
}

#[test]
fn if_uses_lox_truthiness_for_non_bool_conditions() {
    assert_eq!(run_program(&[if_stmt(nil(), true)]).unwrap(), "2\n");
    assert_eq!(run_program(&[if_stmt(num_lit("0"), true)]).unwrap(), "1\n");
    assert_eq!(run_program(&[if_stmt(str_lit(""), true)]).unwrap(), "1\n");
}

#[test]
fn while_loop_iterates_until_condition_is_false() {
    let program = vec![
        declare("i", Some(num_lit("0"))),
        Stmt::While {
            condition: binary(var("i"), TokenType::Less, "<", num_lit("3")),
            body: Box::new(print_i_then_increment()),
        },
    ];
    assert_eq!(run_program(&program).unwrap(), "0\n1\n2\n");
}

#[test]
fn while_loop_does_not_execute_when_condition_starts_false() {
    let program = vec![
        Stmt::While { condition: boolean(false), body: Box::new(Stmt::Print(num_lit("1"))) },
        Stmt::Print(num_lit("2")),
    ];
    assert_eq!(run_program(&program).unwrap(), "2\n");
}

#[test]
fn for_loop_runs_classic_counter() {
    let program = vec![counting_for(Some(declare("i", Some(num_lit("0")))), "3")];
    assert_eq!(run_program(&program).unwrap(), "0\n1\n2\n");
}

#[test]
fn for_loop_with_external_initializer() {
    let program = vec![declare("i", Some(num_lit("1"))), counting_for(None, "4")];
    assert_eq!(run_program(&program).unwrap(), "1\n2\n3\n");
}

#[test]
fn for_loop_init_variable_does_not_leak_to_outer_scope() {
    let program = vec![
        counting_for(Some(declare("i", Some(num_lit("0")))), "1"),
        Stmt::Print(var("i")),
    ];
    let (out, err, _) = run_on(Interpreter::new(), &program);
    assert_eq!(out, "0\n");
    assert_eq!(runtime_message(err.unwrap()), "Undefined variable 'i'.");
}

#[test]
fn or_returns_first_truthy_operand_without_evaluating_the_rest() {
    let e = logical(logical(nil(), TokenType::Or, "or", num_lit("1")), TokenType::Or, "or", failing_sum());
    assert_eq!(run_program(&[Stmt::Print(e)]).unwrap(), "1\n");
}

#[test]
fn or_returns_first_operand_when_truthy() {
    let e = logical(str_lit("hi"), TokenType::Or, "or", num_lit("2"));
    assert_eq!(run_program(&[Stmt::Print(e)]).unwrap(), "hi\n");
}

#[test]
fn or_falls_through_to_last_operand_when_all_falsy() {
    let e = logical(nil(), TokenType::Or, "or", boolean(false));
    assert_eq!(run_program(&[Stmt::Print(e)]).unwrap(), "false\n");
}

#[test]
fn and_returns_first_falsy_operand_without_evaluating_the_rest() {
    let e = logical(boolean(false), TokenType::And, "and", failing_sum());
    assert_eq!(run_program(&[Stmt::Print(e)]).unwrap(), "false\n");
}

#[test]
fn and_returns_last_operand_when_all_truthy() {
    let e = logical(num_lit("1"), TokenType::And, "and", num_lit("2"));
    assert_eq!(run_program(&[Stmt::Print(e)]).unwrap(), "2\n");
}

#[test]
fn while_uses_lox_truthiness_for_condition() {
    let program = vec![
        declare("i", Some(num_lit("1"))),
        Stmt::While {
            condition: var("i"),
            body: Box::new(Stmt::Block(vec![
                Stmt::Print(var("i")),
                Stmt::Expression(assign("i", nil())),
            ])),
        },
    ];
    assert_eq!(run_program(&program).unwrap(), "1\n");
}

#[test]
fn a_program_with_a_misplaced_operator_is_rejected_by_the_check() {
    let bad = Expr::Unary { op: tok(TokenType::Plus, "+"), right: Box::new(num_lit("1")) };
    assert!(!check_program(&[Stmt::Print(bad)]));
}

#[test]
fn quick_start_pipeline_and_repl_examples() {
    assert_eq!(run::<F>("(1 + 2) * 3").unwrap(), "9");
    let (tokens, scan_errors) = scan("1 + 2");
    assert!(scan_errors.is_empty());
    let expr = parse(&tokens).unwrap();
    let value = evaluate::<F>(&expr).unwrap();
    assert_eq!(stringify(&value), "3");
    assert_eq!(run::<F>("1 + 2 * 3").unwrap(), "7");
    assert_eq!(run::<F>(r#""hello, " + "world""#).unwrap(), "hello, world");
    assert_eq!(run::<F>("(5 - (3 - 1)) + -1").unwrap(), "2");
}

#[test]
fn run_returns_stringified_value_for_valid_expression() {
    assert_eq!(run::<F>("1 + 2").unwrap(), "3");
    assert_eq!(run::<F>("(5 - (3 - 1)) + -1").unwrap(), "2");
    assert_eq!(run::<F>(r#""foo" + "bar""#).unwrap(), "foobar");
    assert_eq!(run::<F>("nil").unwrap(), "nil");
    assert_eq!(run::<F>("!false").unwrap(), "true");
}

#[test]
fn cli_run_surfaces_scan_errors() {
    let errs = run::<F>("@1").unwrap_err();
    assert!(errs.iter().any(|e| matches!(e, LoxError::Scan { .. })));
}

#[test]
fn cli_run_surfaces_parse_errors() {
    let errs = run::<F>("(1 + 2").unwrap_err();
    assert_eq!(errs.len(), 1);
    assert!(matches!(errs[0], LoxError::Parse { .. }));
}

#[test]
fn cli_run_surfaces_runtime_errors() {
    let errs = run::<F>(r#"1 + "x""#).unwrap_err();
    assert_eq!(errs.len(), 1);
    let LoxError::Runtime { message, .. } = &errs[0] else {
        panic!("expected Runtime, got {:?}", errs[0]);
    };
    assert_eq!(message, "Operands must be two numbers or two strings.");
}

#[test]
fn two_programs_in_turn_match_one_combined_program() {
    let first = || {
        vec![
            declare("a", Some(num_lit("1"))),
            Stmt::Block(vec![declare("a", Some(num_lit("5"))), Stmt::Print(var("a"))]),
            Stmt::Print(var("a")),
        ]
    };
    let second = || {
        vec![
            Stmt::Expression(assign("a", binary(var("a"), TokenType::Plus, "+", num_lit("2")))),
            Stmt::Print(var("a")),
        ]
    };
    let (out1, err1, interp) = run_on(Interpreter::new(), &first());
    assert!(err1.is_none());
    let (out2, err2, _) = run_on(interp, &second());
    assert!(err2.is_none());
    let mut both = first();
    both.extend(second());
    let combined = run_program(&both).unwrap();
    assert_eq!(format!("{}{}", out1, out2), combined);
    assert_eq!(combined, "5\n1\n3\n");
}
