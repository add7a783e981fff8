//! The numbers Lox computes with.
//!
//! Both runtimes keep numbers abstract: they only combine, compare and
//! negate them through this trait, and turn the decimal text of a literal
//! into one. A program instantiates it with its floating-point type.
//!
//! Each operation is a function of its arguments: the trait names it with a
//! spec function (`spec_plus`, ...) and every method returns that function's
//! value. The contracts of the runtimes speak of these names, so they say
//! exactly which operation is applied to which operands, in which order.

use vstd::prelude::*;

verus! {

/// Text as the specifications see it: a sequence of characters.
pub type Chars = Seq<char>;

/// Arithmetic on the numbers the runtimes compute with.
///
/// The runtimes never look inside a number: they only combine two with
/// these operations, compare them, and negate one.
pub trait Number: Copy {
    /// `self + other`.
    spec fn spec_plus(self, other: Self) -> Self;

    /// `self - other`.
    spec fn spec_minus(self, other: Self) -> Self;

    /// `self * other`.
    spec fn spec_times(self, other: Self) -> Self;

    /// `self / other`.
    spec fn spec_divided_by(self, other: Self) -> Self;

    /// `-self`.
    spec fn spec_negated(self) -> Self;

    /// `self < other`.
    spec fn spec_less_than(self, other: Self) -> bool;

    /// `self > other`.
    spec fn spec_greater_than(self, other: Self) -> bool;

    /// `self <= other`.
    spec fn spec_at_most(self, other: Self) -> bool;

    /// `self >= other`.
    spec fn spec_at_least(self, other: Self) -> bool;

    /// `self == other`.
    spec fn spec_equals(self, other: Self) -> bool;

    /// The number the decimal text of a literal denotes.
    spec fn spec_from_literal(text: Chars) -> Self;

    /// The text a value prints for the number.
    spec fn spec_render(self) -> Chars;

    /// The text a number literal shows in a token dump or a syntax tree.
    spec fn spec_show(self) -> Chars;

    fn plus(self, other: Self) -> (r: Self)
        ensures
            r == self.spec_plus(other),
    ;

    fn minus(self, other: Self) -> (r: Self)
        ensures
            r == self.spec_minus(other),
    ;

    fn times(self, other: Self) -> (r: Self)
        ensures
            r == self.spec_times(other),
    ;

    fn divided_by(self, other: Self) -> (r: Self)
        ensures
            r == self.spec_divided_by(other),
    ;

    fn negated(self) -> (r: Self)
        ensures
            r == self.spec_negated(),
    ;

    fn less_than(self, other: Self) -> (r: bool)
        ensures
            r == self.spec_less_than(other),
    ;

    fn greater_than(self, other: Self) -> (r: bool)
        ensures
            r == self.spec_greater_than(other),
    ;

    /// `self <= other`.
    fn at_most(self, other: Self) -> (r: bool)
        ensures
            r == self.spec_at_most(other),
    ;

    /// `self >= other`.
    fn at_least(self, other: Self) -> (r: bool)
        ensures
            r == self.spec_at_least(other),
    ;

    fn equals(self, other: Self) -> (r: bool)
        ensures
            r == self.spec_equals(other),
    ;

    /// The number the decimal text of a literal denotes.
    fn from_literal(text: &str) -> (r: Self)
        ensures
            r == Self::spec_from_literal(text@),
    ;

    /// How a value prints the number.
    fn render(self) -> (s: String)
        ensures
            s@ == self.spec_render(),
    ;

    /// How a number literal shows in a token dump or a syntax tree.
    fn show(self) -> (s: String)
        ensures
            s@ == self.spec_show(),
    ;
}

} // verus!
