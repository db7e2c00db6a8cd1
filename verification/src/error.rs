//! The ways in which a text can be refused.

use vstd::prelude::*;

verus! {

/// Why a token stream was refused. Building is all-or-nothing: the first
/// token that cannot be accepted ends it with one of these.
#[derive(Debug, Clone, Copy, PartialEq, Eq, Structural)]
pub enum ParseError {
    /// Operator punctuation other than `+ - * / = ;`.
    UnknownOperator,
    /// An operand arrived where the expression under construction has no
    /// open hole to take it, as in two numbers in a row.
    UnexpectedOperand,
    /// An arithmetic operator arrived where an operand was awaited, so it
    /// has no left-hand side.
    EmptyLeadingOperator,
    /// The `if` keyword, which is recognised but not supported.
    UnsupportedConstruct,
    /// Anything else that leaves the program malformed: a `)` without its
    /// `(`, a group still open when a statement ends, or a statement that
    /// ends while operands are still missing.
    StructuralInvariantViolation,
}

} // verus!
