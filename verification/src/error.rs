//! The ways in which an expression can be refused.

use vstd::prelude::*;

verus! {

/// Why a text could not be turned into postfix terms.
#[derive(Clone, Copy, Debug, PartialEq, Eq, Structural)]
pub enum ParseError {
    /// A byte that is neither whitespace, a parenthesis, an operator nor a digit.
    UnexpectedCharacter,
    /// A run of digits whose value is above `i32::MAX`.
    LiteralTooLarge,
    /// A frame of operators was needed while none was open.
    UnbalancedParentheses,
}

/// Why a sequence of postfix terms has no value.
#[derive(Clone, Copy, Debug, PartialEq, Eq, Structural)]
pub enum EvalError {
    /// The divisor of a division was zero.
    DivisionByZero,
    /// An operator found fewer than two operands, or no value was left at the end.
    MalformedExpression,
    /// The result of an operation does not fit in an `i32`.
    Overflow,
}

/// Why a text has no value: it could not be parsed, or its terms could not be evaluated.
#[derive(Clone, Copy, Debug, PartialEq, Eq, Structural)]
pub enum ExprError {
    Parse(ParseError),
    Eval(EvalError),
}

} // verus!
