//! Compiling and running one expression on the virtual machine, with
//! `f64` numbers that print as clox prints them.

use rlox::vm::machine::run_to;
use rlox::vm::Number;
use rlox::LoxError;

#[derive(Debug, Clone, Copy, PartialEq)]
struct F(f64);

impl Number for F {
    fn spec_plus(self, other: Self) -> Self {
        self.plus(other)
    }
    fn spec_minus(self, other: Self) -> Self {
        self.minus(other)
    }
    fn spec_times(self, other: Self) -> Self {
        self.times(other)
    }
    fn spec_divided_by(self, other: Self) -> Self {
        self.divided_by(other)
    }
    fn spec_negated(self) -> Self {
        self.negated()
    }
    fn spec_less_than(self, other: Self) -> bool {
        self.less_than(other)
    }
    fn spec_greater_than(self, other: Self) -> bool {
        self.greater_than(other)
    }
    fn spec_at_most(self, other: Self) -> bool {
        self.at_most(other)
    }
    fn spec_at_least(self, other: Self) -> bool {
        self.at_least(other)
    }
    fn spec_equals(self, other: Self) -> bool {
        self.equals(other)
    }
    fn spec_from_literal(_text: rlox::number::Chars) -> Self {
        unreachable!("specification only")
    }
    fn spec_render(self) -> rlox::number::Chars {
        unreachable!("specification only")
    }
    fn spec_show(self) -> rlox::number::Chars {
        unreachable!("specification only")
    }
    fn plus(self, other: Self) -> Self {
        F(self.0 + other.0)
    }
    fn minus(self, other: Self) -> Self {
        F(self.0 - other.0)
    }
    fn times(self, other: Self) -> Self {
        F(self.0 * other.0)
    }
    fn divided_by(self, other: Self) -> Self {
        F(self.0 / other.0)
    }
    fn negated(self) -> Self {
        F(-self.0)
    }
    fn less_than(self, other: Self) -> bool {
        self.0 < other.0
    }
    fn greater_than(self, other: Self) -> bool {
        self.0 > other.0
    }
    fn at_most(self, other: Self) -> bool {
        self.0 <= other.0
    }
    fn at_least(self, other: Self) -> bool {
        self.0 >= other.0
    }
    fn equals(self, other: Self) -> bool {
        self.0 == other.0
    }
    fn from_literal(text: &str) -> Self {
        F(text.parse().unwrap())
    }
    fn render(self) -> String {
        format!("{}", self.0)
    }
    fn show(self) -> String {
        if self.0.fract() == 0.0 && self.0.is_finite() {
            format!("{:.1}", self.0)
        } else {
            format!("{}", self.0)
        }
    }
}

fn run(src: &str) -> Result<String, Vec<LoxError>> {
    let mut buf: Vec<u8> = Vec::new();
    run_to::<F>(src, &mut buf)?;
    Ok(String::from_utf8(buf).expect("the machine writes UTF-8"))
}

#[test]
fn run_to_writes_value_with_trailing_newline() {
    assert_eq!(run("1 + 2 * 3").unwrap(), "7\n");
}

#[test]
fn run_to_handles_grouping_and_unary() {
    assert_eq!(run("-(1 + 2)").unwrap(), "-3\n");
}

#[test]
fn run_to_renders_whole_numbers_without_decimal() {
    assert_eq!(run("42").unwrap(), "42\n");
    assert_eq!(run("1.5 + 0.25").unwrap(), "1.75\n");
}

#[test]
fn run_to_propagates_parse_errors() {
    let errs = run("(1 + 2").expect_err("expected parse error");
    assert!(
        errs.iter().any(|e| matches!(
            e,
            LoxError::Parse { message, .. } if message == "Expect ')' after expression."
        )),
        "errors were: {errs:?}"
    );
}

#[test]
fn run_to_propagates_scan_errors() {
    let errs = run("1 + @").expect_err("expected scan error");
    assert!(errs.iter().any(|e| matches!(e, LoxError::Scan { .. })), "errors were: {errs:?}");
}

#[test]
fn run_to_propagates_compile_error_for_empty_input() {
    let errs = run("").expect_err("expected parse error");
    assert!(
        errs.iter().any(|e| matches!(
            e,
            LoxError::Parse { message, .. } if message == "Expect expression."
        )),
        "errors were: {errs:?}"
    );
}

#[test]
fn run_to_propagates_compile_error_for_trailing_garbage() {
    let errs = run("1 2").expect_err("expected parse error");
    assert!(
        errs.iter().any(|e| matches!(
            e,
            LoxError::Parse { message, .. } if message == "Expect end of expression."
        )),
        "errors were: {errs:?}"
    );
}

#[test]
fn run_to_reports_runtime_errors_as_shared_errors() {
    let errs = run("1 +\n\n nil").expect_err("runtime error");
    assert_eq!(
        errs,
        vec![LoxError::Runtime {
            line: 3,
            message: "Operands must be two numbers or two strings.".into()
        }]
    );
}

#[test]
fn run_to_prints_strings_booleans_and_nil() {
    assert_eq!(run("\"ab\" + \"cd\"").unwrap(), "abcd\n");
    assert_eq!(run("1 < 2").unwrap(), "true\n");
    assert_eq!(run("!1").unwrap(), "false\n");
    assert_eq!(run("nil").unwrap(), "nil\n");
}

#[test]
fn run_to_appends_on_success_and_leaves_output_alone_on_failure() {
    let mut out: Vec<u8> = b"before\n".to_vec();
    run_to::<F>("\"é\" + \"!\"", &mut out).unwrap();
    assert_eq!(out, "before\né!\n".as_bytes().to_vec());
    let errs = run_to::<F>("1 + nil", &mut out).unwrap_err();
    assert_eq!(errs.len(), 1);
    let errs = run_to::<F>("(1", &mut out).unwrap_err();
    assert_eq!(errs.len(), 1);
    assert_eq!(out, "before\né!\n".as_bytes().to_vec());
}
