//! Errors produced by the scanner, the parsers and the runtimes.
//!
//! The rendered text follows the book's jlox conventions so output stays
//! compatible with the Crafting Interpreters test corpus.

use vstd::prelude::*;

use crate::text::{decimal, decimal_string, digits_value, lemma_decimal_round_trip};
use crate::token::{Token, TokenType, TokenV};

verus! {

/// Errors produced by the scanner, parser, or interpreter.
#[derive(Debug, PartialEq)]
pub enum LoxError {
    /// Lexical error. Rendered as `[line N] Error: <message>`.
    Scan { line: usize, message: String },
    /// Syntactic error. Rendered as `[line N] Error at '<lexeme>': <message>`,
    /// or `[line N] Error at end: <message>` when the offending token is EOF.
    Parse { line: usize, location: String, message: String },
    /// Runtime error. Rendered as the message, then a `[line N]` frame on
    /// the next line.
    Runtime { line: usize, message: String },
}

/// Mathematical view of a [`LoxError`].
pub enum LoxErrorV {
    Scan { line: nat, message: Seq<char> },
    Parse { line: nat, location: Seq<char>, message: Seq<char> },
    Runtime { line: nat, message: Seq<char> },
}

impl View for LoxError {
    type V = LoxErrorV;

    open spec fn view(&self) -> LoxErrorV {
        match self {
            LoxError::Scan { line, message } => LoxErrorV::Scan {
                line: *line as nat,
                message: message@,
            },
            LoxError::Parse { line, location, message } => LoxErrorV::Parse {
                line: *line as nat,
                location: location@,
                message: message@,
            },
            LoxError::Runtime { line, message } => LoxErrorV::Runtime {
                line: *line as nat,
                message: message@,
            },
        }
    }
}

/// Where a parse error points: ` at end` for the EOF token, otherwise
/// ` at '<lexeme>'`.
pub open spec fn location_of(t: TokenV) -> Seq<char> {
    if t.ttype == TokenType::Eof {
        " at end"@
    } else {
        " at '"@ + t.lexeme + "'"@
    }
}

/// The parse error reported against token `t` with `message`.
pub open spec fn parse_error_v(t: TokenV, message: Seq<char>) -> LoxErrorV {
    LoxErrorV::Parse { line: t.line, location: location_of(t), message }
}

/// The source line of an error view.
pub open spec fn error_line(e: LoxErrorV) -> nat {
    match e {
        LoxErrorV::Scan { line, .. } => line,
        LoxErrorV::Parse { line, .. } => line,
        LoxErrorV::Runtime { line, .. } => line,
    }
}

/// The user-facing rendering of an error (the jlox diagnostic format).
pub open spec fn render_error(e: LoxErrorV) -> Seq<char> {
    match e {
        LoxErrorV::Scan { line, message } => "[line "@ + decimal(line) + "] Error: "@ + message,
        LoxErrorV::Parse { line, location, message } => "[line "@ + decimal(line) + "] Error"@
            + location + ": "@ + message,
        LoxErrorV::Runtime { line, message } => message + "\n[line "@ + decimal(line) + "]"@,
    }
}

impl Clone for LoxError {
    fn clone(&self) -> (r: LoxError)
        ensures
            r == *self,
    {
        match self {
            LoxError::Scan { line, message } => LoxError::Scan { line: *line, message: message.clone() },
            LoxError::Parse { line, location, message } => LoxError::Parse {
                line: *line,
                location: location.clone(),
                message: message.clone(),
            },
            LoxError::Runtime { line, message } => LoxError::Runtime {
                line: *line,
                message: message.clone(),
            },
        }
    }
}

impl LoxError {
    /// A lexical error at `line`.
    pub fn scan(line: usize, message: &str) -> (e: LoxError)
        ensures
            e@ == (LoxErrorV::Scan { line: line as nat, message: message@ }),
    {
        LoxError::Scan { line, message: message.to_owned() }
    }

    /// A syntax error reported against `token`.
    pub fn parse(token: &Token, message: &str) -> (e: LoxError)
        ensures
            e@ == parse_error_v(token@, message@),
    {
        let location = if token.ttype == TokenType::Eof {
            String::from_str(" at end")
        } else {
            let mut loc = String::from_str(" at '");
            loc.append(token.lexeme.as_str());
            loc.append("'");
            loc
        };
        LoxError::Parse { line: token.line, location, message: message.to_owned() }
    }

    /// A runtime error reported against `token`.
    pub fn runtime(token: &Token, message: &str) -> (e: LoxError)
        ensures
            e@ == (LoxErrorV::Runtime { line: token.line as nat, message: message@ }),
    {
        LoxError::Runtime { line: token.line, message: message.to_owned() }
    }

    /// Source line at which the error was detected.
    pub fn line(&self) -> (n: usize)
        ensures
            n as nat == error_line(self@),
    {
        match self {
            LoxError::Scan { line, .. } => *line,
            LoxError::Parse { line, .. } => *line,
            LoxError::Runtime { line, .. } => *line,
        }
    }

    /// The user-facing rendering of this error, in the jlox diagnostic
    /// format.
    pub fn render(&self) -> (s: String)
        ensures
            s@ == render_error(self@),
    {
        match self {
            LoxError::Scan { line, message } => {
                let mut s = String::from_str("[line ");
                let d = decimal_string(*line);
                s.append(d.as_str());
                s.append("] Error: ");
                s.append(message.as_str());
                s
            },
            LoxError::Parse { line, location, message } => {
                let mut s = String::from_str("[line ");
                let d = decimal_string(*line);
                s.append(d.as_str());
                s.append("] Error");
                s.append(location.as_str());
                s.append(": ");
                s.append(message.as_str());
                s
            },
            LoxError::Runtime { line, message } => {
                let mut s = String::from_str(message.as_str());
                s.append("\n[line ");
                let d = decimal_string(*line);
                s.append(d.as_str());
                s.append("]");
                s
            },
        }
    }
}


/// The process exit status for a batch of errors, after `sysexits.h`:
/// `70` (software error) when any of them is a runtime error, otherwise
/// `65` (data error: the source did not compile).
pub fn exit_code_for(errors: &[LoxError]) -> (code: u8)
    ensures
        code == if exists|i: int| 0 <= i < errors@.len() && #[trigger] errors@[i] is Runtime {
            70u8
        } else {
            65u8
        },
{
    let mut i: usize = 0;
    while i < errors.len()
        invariant
            i <= errors@.len(),
            forall|k: int| 0 <= k < i ==> !(#[trigger] errors@[k] is Runtime),
        decreases errors@.len() - i,
    {
        match &errors[i] {
            LoxError::Runtime { .. } => {
                return 70;
            },
            _ => {},
        }
        i = i + 1;
    }
    65
}


/// How a diagnostic reads: a lexical or syntax error as `[line N] Error`,
/// then (for a syntax error) where it was found, then `: ` and the
/// message; a runtime error as the message, then `[line N]` on the next
/// line. `N` is the line in decimal and spells the line back.
pub proof fn lemma_render_error_law(line: nat, location: Seq<char>, message: Seq<char>)
    ensures
        render_error(LoxErrorV::Scan { line, message }) == "[line "@ + decimal(line) + "] Error: "@ + message,
        render_error(LoxErrorV::Parse { line, location, message }) == "[line "@ + decimal(line)
            + "] Error"@ + location + ": "@ + message,
        render_error(LoxErrorV::Runtime { line, message }) == message + "\n[line "@ + decimal(line) + "]"@,
        digits_value(decimal(line)) == line,
{
    lemma_decimal_round_trip(line);
}

} // verus!
