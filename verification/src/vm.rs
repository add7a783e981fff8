//! The bytecode side: chunks of bytecode, the object heap, runtime values,
//! the single-pass compiler from Lox expressions to bytecode, the
//! disassembler, and the virtual machine that runs chunks.

pub mod chunk;
pub mod heap;
pub mod value;
pub mod compiler;
pub mod disassembler;
pub mod machine;
pub mod safety;

pub use chunk::{Chunk, LineRle, OpCode};
pub use compiler::compile;
pub use disassembler::{constant_texts, disassemble_chunk, disassemble_instruction};
pub use heap::{Handle, Heap, Obj};
pub use machine::{values_equal, vm_to_lox, Vm, VmError};
pub use value::{Number, Value};
