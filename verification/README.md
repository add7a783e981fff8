# rlox

The Lox language from *Crafting Interpreters*, as a verified Rust library
with a small command-line front end.

- `src/` — the library, written in Verus; its functions carry contracts that
  Verus proves, with one trusted exception: `text::string_from_chars`, which
  builds a `String` from characters through the standard library.
  - `scanner.rs`, `token.rs`, `error.rs`, `text.rs`: the scanner (eager and
    one event at a time) against a character-level specification of the
    token stream, and the diagnostics it produces.
  - `parser.rs`, `ast.rs`, `printer.rs`: the Pratt parser against a grammar
    given by binding powers, the syntax trees, and their prefix form.
  - `resolver.rs`: the static resolution pass over statements: the scope
    depth of every variable reference, and the errors for reading a local
    in its own initializer and for declaring a name twice in one block.
  - `interpreter.rs`, `interpreter/statements.rs`, `environment.rs`,
    `number.rs`: tree-walk evaluation of expressions, statements run one
    step at a time, and lexically scoped variables. Numbers are abstract:
    the `Number` trait names each operation's result by a specification
    function, and the contracts are stated over those functions.
  - `vm/`: chunks, the object heap, the single-pass compiler (specified by
    the parser's grammar), the disassembler and the virtual machine, with
    the proof that compiled chunks always run to a result or a runtime
    error.
- `tests/` — tests of the library, with IEEE-754 doubles as numbers.
- `app/` — the command line (`clap`): script runner and REPL, token dump,
  disassembly and tracing; it supplies `f64` numbers and performs I/O.
