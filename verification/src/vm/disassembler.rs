//! Text listing of a chunk in the book's disassembler format:
//!
//! ```text
//! == test chunk ==
//! 0000  123 OP_CONSTANT         0 '1.2'
//! 0002    | OP_RETURN
//! ```
//!
//! Column 1 is the byte offset, zero-padded to four digits; column 2 the
//! source line right-aligned in four characters, or `   |` when it repeats
//! the previous byte's line; then the mnemonic and the operands. Unknown
//! bytes show as `?? 0x..` and take one byte. Constants are shown through
//! the caller's rendering of each pool entry.

use vstd::prelude::*;

use crate::text::{decimal, decimal_string, digits_value, lemma_decimal_round_trip, string_from_chars};
use crate::vm::chunk::{decode_opcode, opcode_byte, opcode_mnemonic, Chunk, OpCode};
use crate::vm::value::{rendered, Number, Value};

verus! {

/// `n` copies of `c`.
pub open spec fn fill(c: char, n: nat) -> Seq<char> {
    Seq::new(n, |i: int| c)
}

/// `s` right-aligned in `w` characters.
pub open spec fn pad_left(s: Seq<char>, w: nat) -> Seq<char> {
    if s.len() < w {
        fill(' ', (w - s.len()) as nat) + s
    } else {
        s
    }
}

/// `s` left-aligned in `w` characters.
pub open spec fn pad_right(s: Seq<char>, w: nat) -> Seq<char> {
    if s.len() < w {
        s + fill(' ', (w - s.len()) as nat)
    } else {
        s
    }
}

/// `s` zero-padded on the left to `w` characters.
pub open spec fn pad_zeros(s: Seq<char>, w: nat) -> Seq<char> {
    if s.len() < w {
        fill('0', (w - s.len()) as nat) + s
    } else {
        s
    }
}

/// The lowercase hexadecimal digit for `d` (`0 <= d < 16`).
pub open spec fn hex_digit(d: nat) -> char {
    if d < 10 {
        ((48 + d) as u32) as char
    } else {
        ((87 + d) as u32) as char
    }
}

/// The source-line column for the byte at `offset`.
pub open spec fn line_column(lines: Seq<usize>, offset: int) -> Seq<char> {
    let line = if 0 <= offset < lines.len() {
        Some(lines[offset])
    } else {
        None::<usize>
    };
    let prev = if 0 < offset && offset - 1 < lines.len() {
        Some(lines[offset - 1])
    } else {
        None::<usize>
    };
    if offset > 0 && line == prev {
        "   | "@
    } else {
        match line {
            Some(n) => pad_left(decimal(n as nat), 4) + " "@,
            None => "   ? "@,
        }
    }
}

/// The listing line of the instruction at `offset` and the offset of the
/// next instruction.
pub open spec fn instruction_text(
    code: Seq<u8>,
    lines: Seq<usize>,
    texts: Seq<Seq<char>>,
    offset: int,
) -> (Seq<char>, int) {
    let head = pad_zeros(decimal(offset as nat), 4) + " "@ + line_column(lines, offset);
    let byte = code[offset];
    match decode_opcode(byte) {
        Some(OpCode::Constant) => {
            let idx = code[offset + 1];
            (
                head + pad_right(opcode_mnemonic(OpCode::Constant), 16) + " "@ + pad_left(
                    decimal(idx as nat),
                    4,
                ) + " '"@ + texts[idx as int] + "'\n"@,
                offset + 2,
            )
        },
        Some(op) => (head + opcode_mnemonic(op) + "\n"@, offset + 1),
        None => (
            head + "?? 0x"@ + seq![hex_digit(byte as nat / 16), hex_digit(byte as nat % 16)]
                + "\n"@,
            offset + 1,
        ),
    }
}

/// Every `OP_CONSTANT` from `offset` on has its operand, and the operand
/// names a constant.
pub open spec fn decodable(code: Seq<u8>, n_consts: nat, offset: int) -> bool
    decreases code.len() - offset,
{
    if offset < 0 || offset >= code.len() {
        true
    } else if code[offset] == opcode_byte(OpCode::Constant) {
        offset + 1 < code.len() && code[offset + 1] < n_consts && decodable(
            code,
            n_consts,
            offset + 2,
        )
    } else {
        decodable(code, n_consts, offset + 1)
    }
}

/// The listing of the instructions from `offset` on.
pub open spec fn listing(code: Seq<u8>, lines: Seq<usize>, texts: Seq<Seq<char>>, offset: int) -> Seq<
    char,
>
    decreases code.len() + 1 - offset,
{
    if offset < 0 || offset >= code.len() {
        seq![]
    } else {
        let next = if decode_opcode(code[offset]) == Some(OpCode::Constant) {
            offset + 2
        } else {
            offset + 1
        };
        instruction_text(code, lines, texts, offset).0 + listing(code, lines, texts, next)
    }
}

pub open spec fn texts_view(texts: Seq<String>) -> Seq<Seq<char>> {
    texts.map_values(|t: String| t@)
}

/// Append `n` copies of the one-character string `c`.
fn push_fill(s: &mut String, c: &str, n: usize)
    requires
        c@.len() == 1,
    ensures
        final(s)@ == old(s)@ + fill(c@[0], n as nat),
{
    let mut k: usize = 0;
    while k < n
        invariant
            k <= n,
            c@.len() == 1,
            s@ == old(s)@ + fill(c@[0], k as nat),
        decreases n - k,
    {
        s.append(c);
        k = k + 1;
        assert(s@ =~= old(s)@ + fill(c@[0], k as nat));
    }
}

/// Append `t` right-aligned (`right == true`) or left-aligned in `w`
/// characters, padding with `c`.
fn push_padded(s: &mut String, t: &str, w: usize, c: &str, right: bool)
    requires
        c@.len() == 1,
    ensures
        final(s)@ == old(s)@ + if t@.len() < w {
            if right {
                fill(c@[0], (w - t@.len()) as nat) + t@
            } else {
                t@ + fill(c@[0], (w - t@.len()) as nat)
            }
        } else {
            t@
        },
{
    let len = t.unicode_len();
    if len < w {
        if right {
            push_fill(s, c, w - len);
            s.append(t);
        } else {
            s.append(t);
            push_fill(s, c, w - len);
        }
    } else {
        s.append(t);
    }
}

/// The hexadecimal digit of `d` (`d < 16`) as a one-character string.
fn hex_digit_string(d: u8) -> (s: String)
    requires
        d < 16,
    ensures
        s@ == seq![hex_digit(d as nat)],
{
    let c: char = if d < 10 {
        (48u8 + d) as char
    } else {
        (87u8 + d) as char
    };
    let mut v: Vec<char> = Vec::new();
    v.push(c);
    string_from_chars(&v, 0, 1)
}

/// List the instruction at `offset`, with `texts[i]` the rendering of
/// constant `i`; also gives the offset of the next instruction.
pub fn disassemble_instruction<C>(chunk: &Chunk<C>, texts: &Vec<String>, offset: usize) -> (r: (
    String,
    usize,
))
    requires
        offset < chunk.code@.len(),
        chunk.code@[offset as int] == opcode_byte(OpCode::Constant) ==> offset + 1
            < chunk.code@.len() && chunk.code@[offset + 1] < texts@.len(),
    ensures
        (r.0@, r.1 as int) == instruction_text(
            chunk.code@,
            chunk.lines@,
            texts_view(texts@),
            offset as int,
        ),
{
    proof {
        reveal_strlit(" ");
        reveal_strlit("0");
        reveal_strlit("   | ");
        reveal_strlit("   ? ");
        reveal_strlit(" '");
        reveal_strlit("'\n");
        reveal_strlit("\n");
        reveal_strlit("?? 0x");
    }
    let mut s = String::new();
    let off = decimal_string(offset);
    push_padded(&mut s, off.as_str(), 4, "0", true);
    s.append(" ");
    let line = chunk.lines.line_at(offset);
    let prev = if offset > 0 {
        chunk.lines.line_at(offset - 1)
    } else {
        None
    };
    if offset > 0 && line == prev {
        s.append("   | ");
    } else {
        match line {
            Some(n) => {
                let d = decimal_string(n);
                push_padded(&mut s, d.as_str(), 4, " ", true);
                s.append(" ");
            },
            None => {
                s.append("   ? ");
            },
        }
    }
    let ghost head = s@;
    proof {
        let lines = chunk.lines@;
        assert(head =~= pad_zeros(decimal(offset as nat), 4) + " "@ + line_column(lines, offset as int));
    }
    let n = chunk.code.len();
    assert(offset < n);
    let byte = chunk.code[offset];
    match OpCode::from_byte(byte) {
        Some(OpCode::Constant) => {
            let idx = chunk.code[offset + 1];
            push_padded(&mut s, OpCode::Constant.mnemonic(), 16, " ", false);
            s.append(" ");
            let d = decimal_string(idx as usize);
            push_padded(&mut s, d.as_str(), 4, " ", true);
            s.append(" '");
            s.append(texts[idx as usize].as_str());
            s.append("'\n");
            proof {
                let tv = texts_view(texts@);
                assert(tv[idx as int] == texts@[idx as int]@);
            }
            (s, offset + 2)
        },
        Some(op) => {
            s.append(op.mnemonic());
            s.append("\n");
            (s, offset + 1)
        },
        None => {
            s.append("?? 0x");
            let hi = hex_digit_string(byte / 16);
            let lo = hex_digit_string(byte % 16);
            s.append(hi.as_str());
            s.append(lo.as_str());
            s.append("\n");
            (s, offset + 1)
        },
    }
}

/// The listing of a whole chunk under a `== name ==` header, with
/// `texts[i]` the rendering of constant `i`.
pub fn disassemble_chunk<C>(chunk: &Chunk<C>, texts: &Vec<String>, name: &str) -> (s: String)
    requires
        decodable(chunk.code@, texts@.len(), 0),
    ensures
        s@ == "== "@ + name@ + " ==\n"@ + listing(chunk.code@, chunk.lines@, texts_view(texts@), 0),
{
    let mut s = String::from_str("== ");
    s.append(name);
    s.append(" ==\n");
    let ghost header = s@;
    let ghost code = chunk.code@;
    let ghost lines = chunk.lines@;
    let ghost tv = texts_view(texts@);
    let mut offset: usize = 0;
    assert(s@ == header);
    while offset < chunk.code.len()
        invariant
            code == chunk.code@,
            lines == chunk.lines@,
            tv == texts_view(texts@),
            offset <= code.len(),
            decodable(code, texts@.len(), offset as int),
            header + listing(code, lines, tv, 0) == s@ + listing(code, lines, tv, offset as int),
        decreases code.len() - offset,
    {
        let ghost before = s@;
        let (text, next) = disassemble_instruction(chunk, texts, offset);
        s.append(text.as_str());
        proof {
            assert(listing(code, lines, tv, offset as int) == text@ + listing(
                code,
                lines,
                tv,
                next as int,
            ));
            assert(s@ + listing(code, lines, tv, next as int) =~= before + listing(
                code,
                lines,
                tv,
                offset as int,
            ));
        }
        offset = next;
    }
    assert(s@ + listing(code, lines, tv, offset as int) =~= s@);
    s
}


/// How the disassembler shows each constant of a chunk, in order:
/// [`Value::render`] of each.
pub fn constant_texts<N: Number>(chunk: &Chunk<Value<N>>) -> (texts: Vec<String>)
    ensures
        texts@.len() == chunk.constants@.len(),
        forall|i: int|
            0 <= i < texts@.len() ==> rendered(chunk.constants@[i], #[trigger] texts@[i]@),
{
    let mut texts: Vec<String> = Vec::new();
    let mut i: usize = 0;
    while i < chunk.constants.len()
        invariant
            i <= chunk.constants@.len(),
            texts@.len() == i,
            forall|k: int| 0 <= k < i ==> rendered(chunk.constants@[k], #[trigger] texts@[k]@),
        decreases chunk.constants@.len() - i,
    {
        texts.push(chunk.constants[i].render());
        i = i + 1;
    }
    texts
}

/// How a value on the machine's stack shows in a trace: as
/// [`Value::render`] gives it.
pub open spec fn value_text<N: Number>(v: Value<N>) -> Seq<char> {
    match v {
        Value::Nil => "nil"@,
        Value::Bool(b) => if b {
            "true"@
        } else {
            "false"@
        },
        Value::Obj(h) => "<obj#"@ + decimal(h.index()) + ">"@,
        Value::Number(n) => n.spec_render(),
    }
}

/// A stack as a trace shows it, bottom first: `[ v ]` for each value.
pub open spec fn stack_text<N: Number>(st: Seq<Value<N>>) -> Seq<char>
    decreases st.len(),
{
    if st.len() == 0 {
        seq![]
    } else {
        stack_text(st.drop_last()) + "[ "@ + value_text(st.last()) + " ]"@
    }
}

/// One entry of an execution trace: the stack on a line indented to the
/// offset column, then the instruction at `ip` as the disassembler shows
/// it.
pub fn trace_entry<N: Number>(
    chunk: &Chunk<Value<N>>,
    texts: &Vec<String>,
    ip: usize,
    stack: &Vec<Value<N>>,
) -> (s: String)
    requires
        ip < chunk.code@.len(),
        chunk.code@[ip as int] == opcode_byte(OpCode::Constant) ==> ip + 1 < chunk.code@.len()
            && chunk.code@[ip + 1] < texts@.len(),
    ensures
        s@ == "          "@ + stack_text(stack@) + "\n"@ + instruction_text(
            chunk.code@,
            chunk.lines@,
            texts_view(texts@),
            ip as int,
        ).0,
{
    proof {
        reveal_strlit("          ");
        reveal_strlit("[ ");
        reveal_strlit(" ]");
        reveal_strlit("\n");
    }
    let mut s = String::from_str("          ");
    let mut i: usize = 0;
    assert(stack@.take(0) =~= Seq::<Value<N>>::empty());
    while i < stack.len()
        invariant
            i <= stack@.len(),
            s@ == "          "@ + stack_text(stack@.take(i as int)),
        decreases stack@.len() - i,
    {
        let v = stack[i].render();
        s.append("[ ");
        s.append(v.as_str());
        s.append(" ]");
        proof {
            let t = stack@.take(i + 1);
            assert(t.drop_last() =~= stack@.take(i as int));
            assert(t.last() == stack@[i as int]);
            assert(v@ == value_text(stack@[i as int]));
            assert(s@ =~= "          "@ + stack_text(t));
        }
        i = i + 1;
    }
    assert(stack@.take(i as int) =~= stack@);
    s.append("\n");
    let (line, _) = disassemble_instruction(chunk, texts, ip);
    s.append(line.as_str());
    s
}


proof fn lemma_zero_digits(k: nat)
    ensures
        digits_value(fill('0', k)) == 0,
    decreases k,
{
    if k > 0 {
        assert(fill('0', k).drop_last() =~= fill('0', (k - 1) as nat));
        lemma_zero_digits((k - 1) as nat);
    }
}

proof fn lemma_leading_zeros(k: nat, s: Seq<char>)
    ensures
        digits_value(fill('0', k) + s) == digits_value(s),
    decreases s.len(),
{
    if s.len() == 0 {
        assert(fill('0', k) + s =~= fill('0', k));
        lemma_zero_digits(k);
    } else {
        assert((fill('0', k) + s).drop_last() =~= fill('0', k) + s.drop_last());
        assert((fill('0', k) + s).last() == s.last());
        lemma_leading_zeros(k, s.drop_last());
    }
}

/// How a listing line reads: it starts with the instruction's offset in
/// decimal, zero-padded to at least four digits, then a space, then the
/// source line (right-aligned in four characters) or `   |` when the byte
/// is on the same line as the byte before it, then a space; it ends with
/// a newline; and the next instruction starts two bytes on after
/// `OP_CONSTANT` and one byte on after anything else.
pub proof fn lemma_listing_line(code: Seq<u8>, lines: Seq<usize>, texts: Seq<Seq<char>>, offset: int)
    requires
        0 <= offset < code.len(),
        offset < lines.len(),
        code[offset] == opcode_byte(OpCode::Constant) ==> offset + 1 < code.len() && code[offset + 1] < texts.len(),
    ensures
        ({
            let (t, next) = instruction_text(code, lines, texts, offset);
            let w = if decimal(offset as nat).len() < 4 {
                4int
            } else {
                decimal(offset as nat).len() as int
            };
            &&& next == offset + if code[offset] == opcode_byte(OpCode::Constant) {
                2int
            } else {
                1int
            }
            &&& digits_value(t.take(w)) == offset
            &&& forall|i: int| 0 <= i < w ==> '0' <= #[trigger] t[i] && t[i] <= '9'
            &&& t[w] == ' '
            &&& (offset > 0 && lines[offset] == lines[offset - 1]) ==> t.subrange(w + 1, w + 6) == "   | "@
            &&& !(offset > 0 && lines[offset] == lines[offset - 1]) ==> t.subrange(w + 1, w + 6)
                == pad_left(decimal(lines[offset] as nat), 4) + " "@ || decimal(lines[offset] as nat).len() > 4
            &&& t.last() == '\n'
        }),
{
    reveal_strlit(" ");
    reveal_strlit("   | ");
    reveal_strlit("\n");
    reveal_strlit("'\n");
    lemma_decimal_round_trip(offset as nat);
    let d = decimal(offset as nat);
    let z = pad_zeros(d, 4);
    let w = z.len() as int;
    if d.len() < 4 {
        lemma_leading_zeros((4 - d.len()) as nat, d);
        assert forall|i: int| 0 <= i < w implies '0' <= #[trigger] z[i] && z[i] <= '9' by {
            if i >= 4 - d.len() {
                assert(z[i] == d[i - (4 - d.len())]);
            }
        }
    }
    let head = z + " "@ + line_column(lines, offset);
    let (t, next) = instruction_text(code, lines, texts, offset);
    assert(t.take(w) =~= z);
    assert(forall|i: int| 0 <= i < w ==> t[i] == z[i]);
    assert(t[w] == ' ');
    let lc = line_column(lines, offset);
    assert(t.subrange(w + 1, w + 1 + lc.len() as int) =~= lc);
    if !(offset > 0 && lines[offset] == lines[offset - 1]) && decimal(lines[offset] as nat).len() <= 4 {
        assert(lc == pad_left(decimal(lines[offset] as nat), 4) + " "@);
        assert(lc.len() == 5);
    }
}

} // verus!
