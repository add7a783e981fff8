//! The single-pass bytecode compiler.

use rlox::vm::{compile, Chunk, Heap, Obj, OpCode, Value};
use rlox::LoxError;

fn ok(src: &str) -> (Chunk<Value<String>>, Heap) {
    compile(src).expect("compile clean")
}

fn n(text: &str) -> Value<String> {
    Value::Number(text.to_string())
}

fn b(op: OpCode) -> u8 {
    op.to_byte()
}

#[test]
fn missing_close_paren_reports_parse_error() {
    let errs = compile("(1 + 2").expect_err("expected error");
    assert!(
        errs.iter().any(|e| matches!(
            e,
            LoxError::Parse { message, .. } if message == "Expect ')' after expression."
        )),
        "errors were: {errs:?}"
    );
}

#[test]
fn empty_source_reports_parse_error() {
    let errs = compile("").expect_err("expected error");
    assert!(
        errs.iter().any(|e| matches!(
            e,
            LoxError::Parse { message, .. } if message == "Expect expression."
        )),
        "errors were: {errs:?}"
    );
}

#[test]
fn extra_tokens_after_expression_report_parse_error() {
    let errs = compile("1 2").expect_err("expected error");
    assert!(
        errs.iter().any(|e| matches!(
            e,
            LoxError::Parse { message, .. } if message == "Expect end of expression."
        )),
        "errors were: {errs:?}"
    );
}

#[test]
fn scan_error_surfaces_through_compiler() {
    let errs = compile("1 + @").expect_err("expected error");
    assert!(errs.iter().any(|e| matches!(e, LoxError::Scan { .. })), "errors were: {errs:?}");
}

#[test]
fn panic_mode_suppresses_cascade() {
    let errs = compile("(((").expect_err("expected error");
    assert!(
        errs.len() <= 2,
        "expected at most 2 errors with panic-mode suppression, got {}: {errs:?}",
        errs.len()
    );
}

#[test]
fn compile_emits_string_constant_with_obj_payload() {
    let (chunk, heap) = compile("\"hi\"").expect("compile");
    assert_eq!(heap.len(), 1);
    assert_eq!(chunk.constants.len(), 1);
    let Value::Obj(h) = chunk.constants[0] else {
        panic!("expected Obj constant");
    };
    match heap.get(h) {
        Obj::Str(s) => assert_eq!(s, "hi"),
    }
}

// ---- exact code ----

#[test]
fn factor_is_emitted_before_term() {
    let (chunk, heap) = ok("1 + 2 * 3");
    assert_eq!(
        chunk.code,
        vec![
            b(OpCode::Constant),
            0,
            b(OpCode::Constant),
            1,
            b(OpCode::Constant),
            2,
            b(OpCode::Multiply),
            b(OpCode::Add),
            b(OpCode::Return),
        ]
    );
    assert_eq!(chunk.constants, vec![n("1"), n("2"), n("3")]);
    assert!(heap.is_empty());
}

#[test]
fn subtraction_associates_to_the_left() {
    let (chunk, _) = ok("1 - 2 - 3");
    assert_eq!(
        chunk.code,
        vec![
            b(OpCode::Constant),
            0,
            b(OpCode::Constant),
            1,
            b(OpCode::Subtract),
            b(OpCode::Constant),
            2,
            b(OpCode::Subtract),
            b(OpCode::Return),
        ]
    );
}

#[test]
fn grouping_changes_the_order() {
    let (chunk, _) = ok("(1 + 2) * 3");
    assert_eq!(
        chunk.code,
        vec![
            b(OpCode::Constant),
            0,
            b(OpCode::Constant),
            1,
            b(OpCode::Add),
            b(OpCode::Constant),
            2,
            b(OpCode::Multiply),
            b(OpCode::Return),
        ]
    );
}

#[test]
fn unary_minus_code_precedes_the_factor() {
    let (chunk, _) = ok("-2 * 3");
    assert_eq!(
        chunk.code,
        vec![
            b(OpCode::Constant),
            0,
            b(OpCode::Negate),
            b(OpCode::Constant),
            1,
            b(OpCode::Multiply),
            b(OpCode::Return),
        ]
    );
}

#[test]
fn negated_comparisons_use_not() {
    let (c, _) = ok("1 != 2");
    assert_eq!(
        c.code,
        vec![b(OpCode::Constant), 0, b(OpCode::Constant), 1, b(OpCode::Equal), b(OpCode::Not), b(OpCode::Return)]
    );
    let (c, _) = ok("1 >= 2");
    assert_eq!(
        c.code,
        vec![b(OpCode::Constant), 0, b(OpCode::Constant), 1, b(OpCode::Less), b(OpCode::Not), b(OpCode::Return)]
    );
    let (c, _) = ok("1 <= 2");
    assert_eq!(
        c.code,
        vec![b(OpCode::Constant), 0, b(OpCode::Constant), 1, b(OpCode::Greater), b(OpCode::Not), b(OpCode::Return)]
    );
    let (c, _) = ok("1 < 2 == 3 > 4");
    assert_eq!(
        c.code,
        vec![
            b(OpCode::Constant),
            0,
            b(OpCode::Constant),
            1,
            b(OpCode::Less),
            b(OpCode::Constant),
            2,
            b(OpCode::Constant),
            3,
            b(OpCode::Greater),
            b(OpCode::Equal),
            b(OpCode::Return),
        ]
    );
}

#[test]
fn literals_and_bang() {
    let (c, _) = ok("!nil");
    assert_eq!(c.code, vec![b(OpCode::Nil), b(OpCode::Not), b(OpCode::Return)]);
    let (c, _) = ok("!!true == false");
    assert_eq!(
        c.code,
        vec![b(OpCode::True), b(OpCode::Not), b(OpCode::Not), b(OpCode::False), b(OpCode::Equal), b(OpCode::Return)]
    );
    assert!(c.constants.is_empty());
}

#[test]
fn each_byte_is_tagged_with_its_line() {
    let (chunk, _) = ok("1\n - \nnil");
    assert_eq!(
        chunk.code,
        vec![b(OpCode::Constant), 0, b(OpCode::Nil), b(OpCode::Subtract), b(OpCode::Return)]
    );
    let lines: Vec<Option<usize>> = (0..5).map(|i| chunk.lines.line_at(i)).collect();
    assert_eq!(lines, vec![Some(1), Some(1), Some(3), Some(3), Some(3)]);
}

#[test]
fn return_is_tagged_with_the_eof_line() {
    let (chunk, _) = ok("1\n\n");
    assert_eq!(chunk.lines.line_at(2), Some(3));
}

#[test]
fn strings_are_allocated_in_order() {
    let (chunk, heap) = ok("\"a\" + \"b\"");
    assert_eq!(heap.len(), 2);
    assert_eq!(chunk.constants.len(), 2);
    let (Value::Obj(x), Value::Obj(y)) = (&chunk.constants[0], &chunk.constants[1]) else {
        panic!("expected object constants");
    };
    assert_eq!(heap.as_str(*x), Some("a"));
    assert_eq!(heap.as_str(*y), Some("b"));
    assert_eq!(chunk.code, vec![b(OpCode::Constant), 0, b(OpCode::Constant), 1, b(OpCode::Add), b(OpCode::Return)]);
}

#[test]
fn comments_and_whitespace_are_ignored() {
    let (chunk, _) = ok("// preamble\n  1 + 2  // tail\n");
    assert_eq!(chunk.constants, vec![n("1"), n("2")]);
}

// ---- errors ----

#[test]
fn only_the_first_error_is_reported() {
    let errs = compile("1 + ) + 2 + 3").expect_err("error");
    assert_eq!(
        errs,
        vec![LoxError::Parse { line: 1, location: " at ')'".into(), message: "Expect expression.".into() }]
    );
}

#[test]
fn lexical_error_before_syntax_error_wins() {
    let errs = compile("# )").expect_err("error");
    assert_eq!(errs, vec![LoxError::Scan { line: 1, message: "Unexpected character.".into() }]);
}

#[test]
fn lexical_error_after_a_complete_expression_is_reported() {
    let errs = compile("1 + 2 #").expect_err("error");
    assert_eq!(errs, vec![LoxError::Scan { line: 1, message: "Unexpected character.".into() }]);
}

#[test]
fn missing_operand_at_end_points_at_end() {
    let errs = compile("1 +").expect_err("error");
    assert_eq!(
        errs,
        vec![LoxError::Parse { line: 1, location: " at end".into(), message: "Expect expression.".into() }]
    );
}

#[test]
fn unclosed_group_points_at_the_lookahead() {
    let errs = compile("(1 2").expect_err("error");
    assert_eq!(
        errs,
        vec![LoxError::Parse {
            line: 1,
            location: " at '2'".into(),
            message: "Expect ')' after expression.".into()
        }]
    );
}

#[test]
fn parser_and_compiler_accept_the_same_sources() {
    let sources = ["1 + 2", "(1", "1 2", "", "-(-1) * !nil", "\"s\" == \"t\"", "1 +", ") ", "1 < 2 < 3"];
    for src in sources {
        let (tokens, errors) = rlox::scan(src);
        assert!(errors.is_empty());
        let parsed = rlox::parse(&tokens);
        let compiled = compile(src);
        assert_eq!(parsed.is_ok(), compiled.is_ok(), "source {src:?}");
        if let (Err(p), Err(c)) = (parsed, compiled) {
            assert_eq!(c, vec![p], "source {src:?}");
        }
    }
}
