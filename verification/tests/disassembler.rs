//! The chunk disassembler. Constants are shown through the text each
//! test supplies for them.

use rlox::vm::{compile, disassemble_chunk, disassemble_instruction, Chunk, OpCode, Value};

fn texts(items: &[&str]) -> Vec<String> {
    items.iter().map(|s| s.to_string()).collect()
}

#[test]
fn disassembles_book_chapter_14_example() {
    let mut chunk: Chunk<Value<String>> = Chunk::new();
    let idx = chunk.add_constant(Value::Number("1.2".to_string()));
    chunk.write_op(OpCode::Constant, 123);
    chunk.write_byte(idx, 123);
    chunk.write_op(OpCode::Return, 123);

    let out = disassemble_chunk(&chunk, &texts(&["1.2"]), "test chunk");
    let expected = "\
== test chunk ==
0000  123 OP_CONSTANT         0 '1.2'
0002    | OP_RETURN
";
    assert_eq!(out, expected);
}

#[test]
fn line_column_marks_repeats_with_pipe() {
    let mut chunk: Chunk<Value<String>> = Chunk::new();
    chunk.write_op(OpCode::Return, 5);
    chunk.write_op(OpCode::Return, 5);
    chunk.write_op(OpCode::Return, 6);

    let out = disassemble_chunk(&chunk, &texts(&[]), "lines");
    let expected = "\
== lines ==
0000    5 OP_RETURN
0001    | OP_RETURN
0002    6 OP_RETURN
";
    assert_eq!(out, expected);
}

#[test]
fn unknown_opcode_renders_with_hex_byte_and_advances_one() {
    let mut chunk: Chunk<Value<String>> = Chunk::new();
    chunk.write_byte(0xab, 1);
    chunk.write_op(OpCode::Return, 1);

    let out = disassemble_chunk(&chunk, &texts(&[]), "bad");
    assert!(out.contains("?? 0xab"), "stdout was: {out}");
    assert!(out.contains("OP_RETURN"));
}

#[test]
fn disassemble_instruction_returns_next_offset() {
    let mut chunk: Chunk<Value<String>> = Chunk::new();
    let idx = chunk.add_constant(Value::Number("42".to_string()));
    chunk.write_op(OpCode::Constant, 1);
    chunk.write_byte(idx, 1);
    chunk.write_op(OpCode::Return, 2);

    let t = texts(&["42"]);
    let (_, next) = disassemble_instruction(&chunk, &t, 0);
    assert_eq!(next, 2);
    let (_, next) = disassemble_instruction(&chunk, &t, 2);
    assert_eq!(next, 3);
}

#[test]
fn small_unknown_bytes_are_zero_padded_in_hex() {
    let mut chunk: Chunk<Value<String>> = Chunk::new();
    chunk.write_byte(0x0f, 12);
    let (line, next) = disassemble_instruction(&chunk, &texts(&[]), 0);
    assert_eq!(line, "0000   12 ?? 0x0f\n");
    assert_eq!(next, 1);
}

#[test]
fn listing_of_compiled_expression() {
    let (chunk, _heap) = compile("-1 + 2\n* 3").expect("compiles");
    let out = disassemble_chunk(&chunk, &texts(&["1", "2", "3"]), "expr");
    let expected = "\
== expr ==
0000    1 OP_CONSTANT         0 '1'
0002    | OP_NEGATE
0003    | OP_CONSTANT         1 '2'
0005    2 OP_CONSTANT         2 '3'
0007    | OP_MULTIPLY
0008    | OP_ADD
0009    | OP_RETURN
";
    assert_eq!(out, expected);
}

#[test]
fn wide_offsets_and_lines_keep_their_digits() {
    let mut chunk: Chunk<Value<String>> = Chunk::new();
    for _ in 0..10_001 {
        chunk.write_op(OpCode::Nil, 12_345);
    }
    let (line, _) = disassemble_instruction(&chunk, &texts(&[]), 10_000);
    assert_eq!(line, "10000    | OP_NIL\n");
    let (first, _) = disassemble_instruction(&chunk, &texts(&[]), 0);
    assert_eq!(first, "0000 12345 OP_NIL\n");
}
