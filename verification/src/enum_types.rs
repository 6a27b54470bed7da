use vstd::prelude::*;

verus! {

/// The five binary operators the pipeline understands.
#[derive(Debug, Copy, Clone, PartialEq, Eq, Structural)]
pub enum Operator {
    Add,
    Subtract,
    Multiply,
    Divide,
    Exp,
}

/// A single token of a prefix expression: an operator or an integer literal.
#[derive(Debug, Copy, Clone, PartialEq, Eq, Structural)]
pub enum Token {
    Op(Operator),
    Digit(i32),
}

/// Every way a scan, a conversion, a tokenization or a reduction can fail.
#[derive(Debug, Copy, Clone, PartialEq, Eq, Structural)]
pub enum EvalError {
    /// A scanner was asked to advance with no characters remaining.
    EndOfInput,
    /// A lookahead was requested past the available characters.
    AtEnd,
    /// A character outside digits, `+ - * / ^` and space was met.
    UnexpectedCharacter,
    /// The right-hand operand of a division is zero.
    DivisionByZero,
    /// The token sequence cannot be reduced to exactly one literal.
    MalformedExpression,
    /// A literal or an intermediate result does not fit in an `i32`.
    Overflow,
}

} // verus!
