//! Chunks of bytecode: the instruction stream, the constant pool, and a
//! run-length-encoded table from byte offset to source line.

use vstd::prelude::*;

use crate::token::{dump_name, TokenType};

verus! {

/// Bytecode operations recognised by the VM. The byte encoding of an
/// opcode is its position in this list: `OP_RETURN` is opcode `0`, so a
/// zeroed instruction stream halts.
#[derive(Debug, Clone, Copy, PartialEq, Eq, Structural)]
pub enum OpCode {
    /// `OP_RETURN` — end the program, yielding the value on top of the stack.
    Return,
    /// `OP_CONSTANT <idx>` — push `chunk.constants[idx]`.
    Constant,
    /// `OP_NIL` — push `nil`.
    Nil,
    /// `OP_TRUE` — push `true`.
    True,
    /// `OP_FALSE` — push `false`.
    False,
    /// `OP_EQUAL` — pop two values, push whether they are equal.
    Equal,
    /// `OP_GREATER` — pop two numbers, push `a > b`.
    Greater,
    /// `OP_LESS` — pop two numbers, push `a < b`.
    Less,
    /// `OP_ADD` — pop two numbers (sum) or two strings (concatenation).
    Add,
    /// `OP_SUBTRACT` — pop two numbers, push `a - b`.
    Subtract,
    /// `OP_MULTIPLY` — pop two numbers, push `a * b`.
    Multiply,
    /// `OP_DIVIDE` — pop two numbers, push `a / b`.
    Divide,
    /// `OP_NOT` — pop a value, push its logical negation.
    Not,
    /// `OP_NEGATE` — pop a number, push its negation.
    Negate,
}

/// The byte that encodes `op`.
pub open spec fn opcode_byte(op: OpCode) -> u8 {
    match op {
        OpCode::Return => 0,
        OpCode::Constant => 1,
        OpCode::Nil => 2,
        OpCode::True => 3,
        OpCode::False => 4,
        OpCode::Equal => 5,
        OpCode::Greater => 6,
        OpCode::Less => 7,
        OpCode::Add => 8,
        OpCode::Subtract => 9,
        OpCode::Multiply => 10,
        OpCode::Divide => 11,
        OpCode::Not => 12,
        OpCode::Negate => 13,
    }
}

/// The opcode a byte encodes, if any.
pub open spec fn decode_opcode(b: u8) -> Option<OpCode> {
    if b == 0 {
        Some(OpCode::Return)
    } else if b == 1 {
        Some(OpCode::Constant)
    } else if b == 2 {
        Some(OpCode::Nil)
    } else if b == 3 {
        Some(OpCode::True)
    } else if b == 4 {
        Some(OpCode::False)
    } else if b == 5 {
        Some(OpCode::Equal)
    } else if b == 6 {
        Some(OpCode::Greater)
    } else if b == 7 {
        Some(OpCode::Less)
    } else if b == 8 {
        Some(OpCode::Add)
    } else if b == 9 {
        Some(OpCode::Subtract)
    } else if b == 10 {
        Some(OpCode::Multiply)
    } else if b == 11 {
        Some(OpCode::Divide)
    } else if b == 12 {
        Some(OpCode::Not)
    } else if b == 13 {
        Some(OpCode::Negate)
    } else {
        None
    }
}

/// The clox disassembler mnemonic of an opcode.
pub open spec fn opcode_mnemonic(op: OpCode) -> Seq<char> {
    match op {
        OpCode::Return => "OP_RETURN"@,
        OpCode::Constant => "OP_CONSTANT"@,
        OpCode::Nil => "OP_NIL"@,
        OpCode::True => "OP_TRUE"@,
        OpCode::False => "OP_FALSE"@,
        OpCode::Equal => "OP_EQUAL"@,
        OpCode::Greater => "OP_GREATER"@,
        OpCode::Less => "OP_LESS"@,
        OpCode::Add => "OP_ADD"@,
        OpCode::Subtract => "OP_SUBTRACT"@,
        OpCode::Multiply => "OP_MULTIPLY"@,
        OpCode::Divide => "OP_DIVIDE"@,
        OpCode::Not => "OP_NOT"@,
        OpCode::Negate => "OP_NEGATE"@,
    }
}

impl OpCode {
    /// Decode a raw opcode byte; `None` for bytes that encode no opcode.
    pub fn from_byte(b: u8) -> (r: Option<OpCode>)
        ensures
            r == decode_opcode(b),
    {
        match b {
            0 => Some(OpCode::Return),
            1 => Some(OpCode::Constant),
            2 => Some(OpCode::Nil),
            3 => Some(OpCode::True),
            4 => Some(OpCode::False),
            5 => Some(OpCode::Equal),
            6 => Some(OpCode::Greater),
            7 => Some(OpCode::Less),
            8 => Some(OpCode::Add),
            9 => Some(OpCode::Subtract),
            10 => Some(OpCode::Multiply),
            11 => Some(OpCode::Divide),
            12 => Some(OpCode::Not),
            13 => Some(OpCode::Negate),
            _ => None,
        }
    }

    /// The byte that encodes this opcode.
    pub fn to_byte(self) -> (b: u8)
        ensures
            b == opcode_byte(self),
    {
        match self {
            OpCode::Return => 0,
            OpCode::Constant => 1,
            OpCode::Nil => 2,
            OpCode::True => 3,
            OpCode::False => 4,
            OpCode::Equal => 5,
            OpCode::Greater => 6,
            OpCode::Less => 7,
            OpCode::Add => 8,
            OpCode::Subtract => 9,
            OpCode::Multiply => 10,
            OpCode::Divide => 11,
            OpCode::Not => 12,
            OpCode::Negate => 13,
        }
    }

    /// Human-readable mnemonic, matching clox's `disassembleInstruction`.
    pub fn mnemonic(self) -> (r: &'static str)
        ensures
            r@ == opcode_mnemonic(self),
    {
        match self {
            OpCode::Return => "OP_RETURN",
            OpCode::Constant => "OP_CONSTANT",
            OpCode::Nil => "OP_NIL",
            OpCode::True => "OP_TRUE",
            OpCode::False => "OP_FALSE",
            OpCode::Equal => "OP_EQUAL",
            OpCode::Greater => "OP_GREATER",
            OpCode::Less => "OP_LESS",
            OpCode::Add => "OP_ADD",
            OpCode::Subtract => "OP_SUBTRACT",
            OpCode::Multiply => "OP_MULTIPLY",
            OpCode::Divide => "OP_DIVIDE",
            OpCode::Not => "OP_NOT",
            OpCode::Negate => "OP_NEGATE",
        }
    }
}

/// Decoding inverts encoding: every opcode survives a round trip through
/// its byte, and every byte that decodes re-encodes to itself.
pub proof fn lemma_opcode_round_trip(op: OpCode, b: u8)
    ensures
        decode_opcode(opcode_byte(op)) == Some(op),
        decode_opcode(b) matches Some(o) ==> opcode_byte(o) == b,
        decode_opcode(b) is None <==> b >= 14,
{
}

/// The per-byte line table described by a list of `(line, run_length)`
/// runs.
pub open spec fn expand_runs(runs: Seq<(usize, usize)>) -> Seq<usize>
    decreases runs.len(),
{
    if runs.len() == 0 {
        seq![]
    } else {
        expand_runs(runs.drop_last()) + Seq::new(
            runs.last().1 as nat,
            |i: int| runs.last().0,
        )
    }
}

pub proof fn lemma_expand_runs_concat(a: Seq<(usize, usize)>, b: Seq<(usize, usize)>)
    ensures
        expand_runs(a + b) == expand_runs(a) + expand_runs(b),
    decreases b.len(),
{
    if b.len() == 0 {
        assert(a + b =~= a);
        assert(expand_runs(a) + expand_runs(b) =~= expand_runs(a));
    } else {
        assert((a + b).drop_last() =~= a + b.drop_last());
        lemma_expand_runs_concat(a, b.drop_last());
        assert(expand_runs(a + b) =~= expand_runs(a) + expand_runs(b));
    }
}

/// Runs of a line table in canonical form: no run is empty and two
/// neighbouring runs never have the same line.
pub open spec fn canonical_runs(runs: Seq<(usize, usize)>) -> bool {
    &&& forall|i: int| 0 <= i < runs.len() ==> #[trigger] runs[i].1 >= 1
    &&& forall|i: int| 0 <= i < runs.len() - 1 ==> #[trigger] runs[i].0 != runs[i + 1].0
}

/// Line-number table compressed with run-length encoding: each run
/// `(line, len)` covers `len` consecutive bytecode bytes from `line`.
/// Runs are never empty and two adjacent runs never share a line.
#[derive(Debug, PartialEq, Eq)]
pub struct LineRle {
    runs: Vec<(usize, usize)>,
}

impl View for LineRle {
    type V = Seq<usize>;

    /// The source line of each recorded byte, in order.
    closed spec fn view(&self) -> Seq<usize> {
        expand_runs(self.runs@)
    }
}

impl Default for LineRle {
    /// An empty table.
    fn default() -> (t: LineRle)
        ensures
            t@ == Seq::<usize>::empty(),
            t.runs_view() == Seq::<(usize, usize)>::empty(),
    {
        LineRle::new()
    }
}

impl Clone for LineRle {
    fn clone(&self) -> (r: LineRle)
        ensures
            r@ == self@,
    {
        proof {
            use_type_invariant(self);
        }
        let mut runs: Vec<(usize, usize)> = Vec::new();
        let mut i: usize = 0;
        while i < self.runs.len()
            invariant
                i <= self.runs@.len(),
                runs@ == self.runs@.take(i as int),
            decreases self.runs@.len() - i,
        {
            runs.push(self.runs[i]);
            i = i + 1;
            assert(runs@ =~= self.runs@.take(i as int));
        }
        assert(runs@ =~= self.runs@);
        LineRle { runs }
    }
}

pub proof fn lemma_expand_single(r: (usize, usize))
    ensures
        expand_runs(seq![r]) =~= Seq::new(r.1 as nat, |k: int| r.0),
{
    assert(seq![r].drop_last() =~= Seq::<(usize, usize)>::empty());
    assert(seq![r].last() == r);
    assert(expand_runs(Seq::<(usize, usize)>::empty()) =~= Seq::<usize>::empty());
}

impl LineRle {
    #[verifier::type_invariant]
    closed spec fn canonical(&self) -> bool {
        &&& canonical_runs(self.runs@)
        &&& expand_runs(self.runs@).len() <= usize::MAX
    }

    /// The runs, as `(line, run_length)` pairs.
    pub closed spec fn runs_view(&self) -> Seq<(usize, usize)> {
        self.runs@
    }

    /// An empty table.
    pub fn new() -> (t: LineRle)
        ensures
            t@ == Seq::<usize>::empty(),
            t.runs_view() == Seq::<(usize, usize)>::empty(),
    {
        LineRle { runs: Vec::new() }
    }

    /// The runs of the table, as `(line, run_length)` pairs; their
    /// expansion is the per-byte line table.
    pub fn runs(&self) -> (r: &Vec<(usize, usize)>)
        ensures
            r@ == self.runs_view(),
            expand_runs(r@) == self@,
            canonical_runs(r@),
    {
        proof {
            use_type_invariant(self);
        }
        &self.runs
    }

    /// Record one more byte at `line`, extending the last run when it has
    /// the same line and starting a new run otherwise.
    pub fn push(&mut self, line: usize)
        requires
            old(self)@.len() < usize::MAX,
        ensures
            final(self)@ == old(self)@.push(line),
            old(self).runs_view().len() > 0 && old(self).runs_view().last().0 == line
                ==> final(self).runs_view() == old(self).runs_view().update(
                old(self).runs_view().len() - 1,
                (line, (old(self).runs_view().last().1 + 1) as usize),
            ),
            !(old(self).runs_view().len() > 0 && old(self).runs_view().last().0 == line)
                ==> final(self).runs_view() == old(self).runs_view().push((line, 1usize)),
            canonical_runs(final(self).runs_view()),
    {
        proof {
            use_type_invariant(&*self);
        }
        let n = self.runs.len();
        let ghost old_runs = self.runs@;
        if n > 0 && self.runs[n - 1].0 == line {
            let len = self.runs[n - 1].1;
            proof {
                assert(old_runs =~= old_runs.drop_last() + seq![old_runs.last()]);
                lemma_expand_runs_concat(old_runs.drop_last(), seq![old_runs.last()]);
                lemma_expand_single(old_runs.last());
            }
            let mut runs: Vec<(usize, usize)> = Vec::new();
            std::mem::swap(&mut runs, &mut self.runs);
            runs.set(n - 1, (line, len + 1));
            proof {
                let new_runs = runs@;
                assert(new_runs.drop_last() =~= old_runs.drop_last());
                assert(expand_runs(new_runs) =~= expand_runs(old_runs).push(line));
            }
            self.runs = runs;
        } else {
            let mut runs: Vec<(usize, usize)> = Vec::new();
            std::mem::swap(&mut runs, &mut self.runs);
            runs.push((line, 1));
            proof {
                let new_runs = runs@;
                assert(new_runs.drop_last() =~= old_runs);
                assert(expand_runs(new_runs) =~= expand_runs(old_runs).push(line));
            }
            self.runs = runs;
        }
    }

    /// The source line of the byte at `byte_offset`, or `None` past the
    /// recorded length.
    pub fn line_at(&self, byte_offset: usize) -> (r: Option<usize>)
        ensures
            r == if byte_offset < self@.len() {
                Some(self@[byte_offset as int])
            } else {
                None::<usize>
            },
    {
        proof {
            use_type_invariant(self);
        }
        let ghost runs = self.runs@;
        let mut cursor: usize = 0;
        let mut i: usize = 0;
        while i < self.runs.len()
            invariant
                runs == self.runs@,
                i <= runs.len(),
                cursor == expand_runs(runs.take(i as int)).len(),
                byte_offset >= cursor,
                expand_runs(runs).len() <= usize::MAX,
            decreases runs.len() - i,
        {
            let (line, len) = self.runs[i];
            proof {
                assert(runs =~= runs.take(i as int) + seq![runs[i as int]] + runs.skip(i + 1));
                assert(runs.take(i + 1) =~= runs.take(i as int) + seq![runs[i as int]]);
                lemma_expand_runs_concat(runs.take(i as int), seq![runs[i as int]]);
                lemma_expand_runs_concat(runs.take(i + 1), runs.skip(i + 1));
                assert(runs.take(i + 1) + runs.skip(i + 1) =~= runs);
                lemma_expand_single(runs[i as int]);
            }
            if byte_offset - cursor < len {
                proof {
                    let pre = expand_runs(runs.take(i as int));
                    assert(expand_runs(runs) == pre + Seq::new(len as nat, |k: int| line)
                        + expand_runs(runs.skip(i + 1)));
                    assert(expand_runs(runs)[byte_offset as int] == line);
                }
                return Some(line);
            }
            cursor = cursor + len;
            i = i + 1;
        }
        assert(runs.take(i as int) =~= runs);
        None
    }

    /// Total number of bytes covered by the table.
    pub fn len(&self) -> (n: usize)
        ensures
            n == self@.len(),
    {
        proof {
            use_type_invariant(self);
        }
        let ghost runs = self.runs@;
        let mut total: usize = 0;
        let mut i: usize = 0;
        while i < self.runs.len()
            invariant
                runs == self.runs@,
                i <= runs.len(),
                total == expand_runs(runs.take(i as int)).len(),
                expand_runs(runs).len() <= usize::MAX,
            decreases runs.len() - i,
        {
            proof {
                assert(runs.take(i + 1) =~= runs.take(i as int) + seq![runs[i as int]]);
                lemma_expand_runs_concat(runs.take(i as int), seq![runs[i as int]]);
                lemma_expand_runs_concat(runs.take(i + 1), runs.skip(i + 1));
                assert(runs.take(i + 1) + runs.skip(i + 1) =~= runs);
                lemma_expand_single(runs[i as int]);
            }
            total = total + self.runs[i].1;
            i = i + 1;
        }
        assert(runs.take(i as int) =~= runs);
        total
    }

    /// `true` when no bytes have been recorded.
    pub fn is_empty(&self) -> (b: bool)
        ensures
            b == (self@.len() == 0),
    {
        proof {
            use_type_invariant(self);
            let runs = self.runs@;
            if runs.len() > 0 {
                lemma_expand_runs_concat(runs.drop_last(), seq![runs.last()]);
                assert(runs.drop_last() + seq![runs.last()] =~= runs);
                lemma_expand_single(runs.last());
                assert(runs.last() == runs[runs.len() - 1]);
            }
        }
        self.runs.len() == 0
    }
}

/// A compiled unit of bytecode: the instruction stream, the constant pool
/// (addressed by a one-byte operand, so at most 256 entries), and the
/// source line of every byte.
#[derive(Debug, Clone)]
pub struct Chunk<C> {
    pub code: Vec<u8>,
    pub constants: Vec<C>,
    pub lines: LineRle,
}

impl<C> Chunk<C> {
    /// Every byte of code has a recorded line.
    pub open spec fn wf(&self) -> bool {
        self.code@.len() == self.lines@.len()
    }

    /// A new, empty chunk.
    pub fn new() -> (c: Chunk<C>)
        ensures
            c.wf(),
            c.code@.len() == 0,
            c.constants@.len() == 0,
            c.lines@.len() == 0,
    {
        Chunk { code: Vec::new(), constants: Vec::new(), lines: LineRle::new() }
    }

    /// Append a raw byte to the instruction stream, tagged with `line`.
    pub fn write_byte(&mut self, byte: u8, line: usize)
        requires
            old(self).wf(),
            old(self).code@.len() < usize::MAX,
        ensures
            final(self).wf(),
            final(self).code@ == old(self).code@.push(byte),
            final(self).lines@ == old(self).lines@.push(line),
            final(self).constants == old(self).constants,
    {
        self.code.push(byte);
        self.lines.push(line);
    }

    /// Append an opcode to the instruction stream, tagged with `line`.
    pub fn write_op(&mut self, op: OpCode, line: usize)
        requires
            old(self).wf(),
            old(self).code@.len() < usize::MAX,
        ensures
            final(self).wf(),
            final(self).code@ == old(self).code@.push(opcode_byte(op)),
            final(self).lines@ == old(self).lines@.push(line),
            final(self).constants == old(self).constants,
    {
        self.write_byte(op.to_byte(), line);
    }

    /// Append `value` to the constant pool and return its index.
    pub fn add_constant(&mut self, value: C) -> (idx: u8)
        requires
            old(self).constants@.len() < 256,
        ensures
            final(self).constants@ == old(self).constants@.push(value),
            idx as nat == old(self).constants@.len(),
            final(self).code == old(self).code,
            final(self).lines == old(self).lines,
    {
        let idx = self.constants.len();
        self.constants.push(value);
        idx as u8
    }

    /// Number of bytes in the instruction stream.
    pub fn len(&self) -> (n: usize)
        ensures
            n == self.code@.len(),
    {
        self.code.len()
    }

    /// `true` when no bytecode has been written.
    pub fn is_empty(&self) -> (b: bool)
        ensures
            b == (self.code@.len() == 0),
    {
        self.code.len() == 0
    }
}


/// Every mnemonic starts with `OP_`, and an instruction that shares its
/// name with a token type (`OP_RETURN`, `OP_NIL`, `OP_TRUE`, `OP_FALSE`,
/// `OP_EQUAL`, `OP_GREATER`, `OP_LESS`) is named `OP_` followed by that
/// token type's dump name.
pub proof fn lemma_mnemonic_names(op: OpCode)
    ensures
        opcode_mnemonic(op).len() > 3 && opcode_mnemonic(op).take(3) == "OP_"@,
        opcode_mnemonic(OpCode::Return) == "OP_"@ + dump_name(TokenType::Return),
        opcode_mnemonic(OpCode::Nil) == "OP_"@ + dump_name(TokenType::Nil),
        opcode_mnemonic(OpCode::True) == "OP_"@ + dump_name(TokenType::True),
        opcode_mnemonic(OpCode::False) == "OP_"@ + dump_name(TokenType::False),
        opcode_mnemonic(OpCode::Equal) == "OP_"@ + dump_name(TokenType::Equal),
        opcode_mnemonic(OpCode::Greater) == "OP_"@ + dump_name(TokenType::Greater),
        opcode_mnemonic(OpCode::Less) == "OP_"@ + dump_name(TokenType::Less),
{
    reveal_strlit("OP_");
    reveal_strlit("OP_RETURN");
    reveal_strlit("OP_CONSTANT");
    reveal_strlit("OP_NIL");
    reveal_strlit("OP_TRUE");
    reveal_strlit("OP_FALSE");
    reveal_strlit("OP_EQUAL");
    reveal_strlit("OP_GREATER");
    reveal_strlit("OP_LESS");
    reveal_strlit("OP_ADD");
    reveal_strlit("OP_SUBTRACT");
    reveal_strlit("OP_MULTIPLY");
    reveal_strlit("OP_DIVIDE");
    reveal_strlit("OP_NOT");
    reveal_strlit("OP_NEGATE");
    reveal_strlit("RETURN");
    reveal_strlit("NIL");
    reveal_strlit("TRUE");
    reveal_strlit("FALSE");
    reveal_strlit("EQUAL");
    reveal_strlit("GREATER");
    reveal_strlit("LESS");
    assert(opcode_mnemonic(op).take(3) =~= "OP_"@);
    assert("OP_RETURN"@ =~= "OP_"@ + "RETURN"@);
    assert("OP_NIL"@ =~= "OP_"@ + "NIL"@);
    assert("OP_TRUE"@ =~= "OP_"@ + "TRUE"@);
    assert("OP_FALSE"@ =~= "OP_"@ + "FALSE"@);
    assert("OP_EQUAL"@ =~= "OP_"@ + "EQUAL"@);
    assert("OP_GREATER"@ =~= "OP_"@ + "GREATER"@);
    assert("OP_LESS"@ =~= "OP_"@ + "LESS"@);
}

} // verus!
