//! `rlox` — the Lox language from *Crafting Interpreters*: a scanner that
//! works eagerly or one event at a time, a Pratt parser from tokens to an
//! expression tree and its printed prefix form, a tree-walk evaluator
//! with lexically scoped variables and statements run one step at a time,
//! and a single-pass compiler from expressions to bytecode with the virtual
//! machine that runs it, together with the chunk, heap and error types
//! they share.
//!
//! Every function here is verified: the scanner against a character-level
//! specification of the token stream, the parser and the compiler against
//! one grammar, so that both back ends read a source the same way, and the
//! evaluator and the machine against specifications in which numbers stay
//! abstract ([`Number`]).

pub mod ast;
pub mod environment;
pub mod error;
pub mod interpreter;
pub mod number;
pub mod parser;
pub mod printer;
pub mod resolver;
pub mod scanner;
pub mod text;
pub mod token;
pub mod vm;

pub use ast::{Expr, Stmt, Value};
pub use environment::Environment;
pub use error::LoxError;
pub use interpreter::{evaluate, evaluate_in, run, stringify_value, Interpreter};
pub use number::Number;
pub use parser::parse;
pub use scanner::{scan, Scanner};
pub use text::decimal_string;
pub use token::{Literal, Token, TokenType};
