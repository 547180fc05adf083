//! What holds of the lexer, the converter and the evaluator on every input.

pub mod arithmetic;
pub mod conversion;
pub mod evaluation;
pub mod expression;
pub mod lexing;
pub mod pipeline;
