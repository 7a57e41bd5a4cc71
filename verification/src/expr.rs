use vstd::prelude::*;

verus! {

/// One lexical unit of a reverse-Polish expression: a signed integer
/// operand, or one of the four binary arithmetic operators.
#[derive(Debug, Clone, Copy, PartialEq, Eq, PartialOrd, Structural)]
pub enum Expr {
    Num(i32),
    Add,
    Sub,
    Mul,
    Div,
}

/// Failure of the tokenizer: the input held a word that is neither an
/// operator symbol nor a signed decimal integer literal in `i32` range.
#[derive(Debug)]
pub enum ParseError {
    MalformedToken { word: String },
}

/// Failure of the evaluator.
#[derive(Debug, Clone, Copy, PartialEq, Eq, Structural)]
pub enum EvalError {
    /// An operator found fewer than two values on the operand stack.
    StackUnderflow,
    /// A division met a zero right operand.
    DivisionByZero,
    /// After the last token the stack did not hold exactly one value.
    MalformedExpression,
}

} // verus!
