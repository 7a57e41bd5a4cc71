//! A verified reverse-Polish-notation calculator.
//!
//! [`parse`] turns a whitespace-separated string into a sequence of
//! [`Expr`] tokens, and [`eval`] runs such a sequence through a stack
//! machine to a single `i32` result.  Both report malformed input
//! through explicit error values rather than panicking.

pub mod evaluator;
pub mod expr;
pub mod tokenizer;

pub use evaluator::eval;
pub use expr::{EvalError, Expr, ParseError};
pub use tokenizer::parse;
