//! Runtime values of the bytecode VM.
//!
//! The number payload is a type parameter: the compiler produces constants
//! whose numbers are the exact decimal text of their literals, and the
//! runtime instantiates it with its floating-point representation.

use vstd::prelude::*;

pub use crate::number::Number;
use crate::vm::heap::{Handle, Heap, Obj, ObjV};

verus! {

/// A Lox runtime value of the VM.
#[derive(Debug, Clone, Copy, PartialEq)]
pub enum Value<N> {
    /// The singleton `nil`.
    Nil,
    /// A boolean.
    Bool(bool),
    /// A number.
    Number(N),
    /// A heap-allocated object.
    Obj(Handle),
}

/// Lox truthiness: `nil` and `false` are falsy, everything else is truthy.
pub open spec fn truthy<N>(v: Value<N>) -> bool {
    !(v is Nil || v == Value::<N>::Bool(false))
}

impl<N: Number> Value<N> {
    /// The value as `print` shows it: `nil`, `true`, `false`, the number
    /// as [`Number::render`] gives it, a string's contents.
    pub fn display(&self, heap: &Heap) -> (s: String)
        requires
            *self matches Value::Obj(h) ==> h.index() < heap@.len(),
        ensures
            match *self {
                Value::Nil => s@ == "nil"@,
                Value::Bool(b) => s@ == if b {
                    "true"@
                } else {
                    "false"@
                },
                Value::Obj(h) => ObjV::Str(s@) == heap@[h.index() as int],
                Value::Number(n) => s@ == n.spec_render(),
            },
    {
        match self {
            Value::Nil => String::from_str("nil"),
            Value::Bool(b) => if *b {
                String::from_str("true")
            } else {
                String::from_str("false")
            },
            Value::Number(n) => n.render(),
            Value::Obj(h) => match heap.get(*h) {
                Obj::Str(text) => text.clone(),
            },
        }
    }
}

/// `s` is how [`Value::render`] shows `v`: `nil`, `true`, `false`, an
/// object as `<obj#N>`; a number as the number type renders it.
pub open spec fn rendered<N: Number>(v: Value<N>, s: Seq<char>) -> bool {
    match v {
        Value::Nil => s == "nil"@,
        Value::Bool(b) => s == if b {
            "true"@
        } else {
            "false"@
        },
        Value::Obj(h) => s == "<obj#"@ + crate::text::decimal(h.index()) + ">"@,
        Value::Number(n) => s == n.spec_render(),
    }
}

impl<N: Number> Value<N> {
    /// The value without its heap, as a stack trace shows it: `nil`,
    /// `true`, `false`, the number as [`Number::render`] gives it, and an
    /// object as its handle, `<obj#N>`.
    pub fn render(&self) -> (s: String)
        ensures
            rendered(*self, s@),
    {
        match self {
            Value::Nil => String::from_str("nil"),
            Value::Bool(b) => if *b {
                String::from_str("true")
            } else {
                String::from_str("false")
            },
            Value::Number(n) => n.render(),
            Value::Obj(h) => {
                let mut s = String::from_str("<");
                let inner = h.render();
                s.append(inner.as_str());
                s.append(">");
                proof {
                    reveal_strlit("<");
                    reveal_strlit("<obj#");
                    reveal_strlit("obj#");
                    assert(s@ =~= "<obj#"@ + crate::text::decimal(h.index()) + ">"@);
                }
                s
            },
        }
    }
}

impl<N> Value<N> {
    /// Lox truthiness: `nil` and `false` are falsy; everything else
    /// (including `0`, the empty string and every object) is truthy.
    pub fn is_truthy(&self) -> (b: bool)
        ensures
            b == truthy(*self),
    {
        match self {
            Value::Nil => false,
            Value::Bool(b) => *b,
            _ => true,
        }
    }
}

} // verus!
