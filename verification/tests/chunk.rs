//! Opcodes, the run-length line table, and chunks.

use rlox::vm::{Chunk, LineRle, OpCode, Value};

const ALL_OPS: [OpCode; 14] = [
    OpCode::Return,
    OpCode::Constant,
    OpCode::Nil,
    OpCode::True,
    OpCode::False,
    OpCode::Equal,
    OpCode::Greater,
    OpCode::Less,
    OpCode::Add,
    OpCode::Subtract,
    OpCode::Multiply,
    OpCode::Divide,
    OpCode::Not,
    OpCode::Negate,
];

#[test]
fn opcode_round_trips_through_byte() {
    for op in ALL_OPS {
        assert_eq!(OpCode::from_byte(op as u8), Some(op));
        assert_eq!(OpCode::from_byte(op.to_byte()), Some(op));
        assert_eq!(op.to_byte(), op as u8);
    }
}

#[test]
fn opcode_from_byte_rejects_unknown() {
    assert_eq!(OpCode::from_byte(0xff), None);
    assert_eq!(OpCode::from_byte(14), None);
}

#[test]
fn return_is_opcode_zero() {
    assert_eq!(OpCode::Return.to_byte(), 0);
    assert_eq!(OpCode::from_byte(0), Some(OpCode::Return));
}

#[test]
fn write_op_appends_one_byte_and_records_line() {
    let mut c: Chunk<Value<String>> = Chunk::new();
    c.write_op(OpCode::Return, 7);
    assert_eq!(c.code, vec![OpCode::Return as u8]);
    assert_eq!(c.lines.line_at(0), Some(7));
}

#[test]
fn write_byte_extends_an_existing_line_run() {
    let mut c: Chunk<Value<String>> = Chunk::new();
    let idx = c.add_constant(Value::Number("1.2".to_string()));
    c.write_op(OpCode::Constant, 123);
    c.write_byte(idx, 123);
    assert_eq!(c.lines.line_at(0), Some(123));
    assert_eq!(c.lines.line_at(1), Some(123));
    assert_eq!(*c.lines.runs(), vec![(123, 2)]);
}

#[test]
fn line_rle_distinguishes_runs() {
    let mut t = LineRle::default();
    t.push(1);
    t.push(1);
    t.push(2);
    t.push(3);
    t.push(3);
    assert_eq!(*t.runs(), vec![(1, 2), (2, 1), (3, 2)]);
    assert_eq!(t.line_at(0), Some(1));
    assert_eq!(t.line_at(1), Some(1));
    assert_eq!(t.line_at(2), Some(2));
    assert_eq!(t.line_at(3), Some(3));
    assert_eq!(t.line_at(4), Some(3));
    assert_eq!(t.line_at(5), None);
}

#[test]
fn add_constant_returns_increasing_indices() {
    let mut c: Chunk<Value<String>> = Chunk::new();
    assert_eq!(c.add_constant(Value::Number("1".to_string())), 0);
    assert_eq!(c.add_constant(Value::Number("2".to_string())), 1);
    assert_eq!(c.add_constant(Value::Number("3".to_string())), 2);
    assert_eq!(c.constants.len(), 3);
}

#[test]
fn opcode_mnemonic_matches_clox() {
    assert_eq!(OpCode::Constant.mnemonic(), "OP_CONSTANT");
    assert_eq!(OpCode::Return.mnemonic(), "OP_RETURN");
    assert_eq!(OpCode::Negate.mnemonic(), "OP_NEGATE");
    assert_eq!(OpCode::Add.mnemonic(), "OP_ADD");
    assert_eq!(OpCode::Subtract.mnemonic(), "OP_SUBTRACT");
    assert_eq!(OpCode::Multiply.mnemonic(), "OP_MULTIPLY");
    assert_eq!(OpCode::Divide.mnemonic(), "OP_DIVIDE");
    assert_eq!(OpCode::Nil.mnemonic(), "OP_NIL");
    assert_eq!(OpCode::True.mnemonic(), "OP_TRUE");
    assert_eq!(OpCode::False.mnemonic(), "OP_FALSE");
    assert_eq!(OpCode::Not.mnemonic(), "OP_NOT");
    assert_eq!(OpCode::Equal.mnemonic(), "OP_EQUAL");
    assert_eq!(OpCode::Greater.mnemonic(), "OP_GREATER");
    assert_eq!(OpCode::Less.mnemonic(), "OP_LESS");
}

#[test]
fn line_table_len_and_emptiness_track_pushes() {
    let mut t = LineRle::new();
    assert!(t.is_empty());
    assert_eq!(t.len(), 0);
    assert_eq!(t.line_at(0), None);
    t.push(4);
    t.push(5);
    t.push(4);
    assert!(!t.is_empty());
    assert_eq!(t.len(), 3);
    assert_eq!(*t.runs(), vec![(4, 1), (5, 1), (4, 1)]);
    assert_eq!(t.line_at(2), Some(4));
}

#[test]
fn chunk_len_counts_code_bytes() {
    let mut c: Chunk<Value<String>> = Chunk::new();
    assert!(c.is_empty());
    c.write_op(OpCode::Nil, 1);
    c.write_op(OpCode::Not, 1);
    assert_eq!(c.len(), 2);
    assert!(!c.is_empty());
    assert_eq!(c.lines.len(), 2);
}
