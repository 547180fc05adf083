//! Evaluation of infix arithmetic expressions over `i32`, in three stages: a lexer, a
//! converter to postfix notation, and a stack evaluator. What each stage computes is stated
//! as a function of its input, and each stage is proved to compute it.
//!
//! Each stage comes twice. The function with the plain name asks of its caller that the
//! input can be handled, and gives the result; the one whose name begins with `checked_`
//! takes any input, and gives the result or the reason why there is none.
//! [`evaluate_expression`] runs the three stages on a text.

pub mod error;
pub mod eval;
pub mod laws;
pub mod lexer;
pub mod op;
pub mod postfix;

use vstd::prelude::*;
use vstd::string::StringSliceAdditionalSpecFns;
use crate::error::ExprError;
use crate::eval::{checked_eval, eval_spec};
use crate::lexer::{checked_lex, lex_spec};
use crate::postfix::{checked_to_post_fix, postfix_spec};

verus! {

/// The value of the expression that the bytes `text` spell: the value of the postfix form
/// of its tokens. Where a stage refuses, so does the whole, for the same reason.
pub open spec fn evaluate_spec(text: Seq<u8>) -> Result<i32, ExprError> {
    match lex_spec(text) {
        Err(e) => Err(ExprError::Parse(e)),
        Ok(tokens) => match postfix_spec(tokens) {
            Err(e) => Err(ExprError::Parse(e)),
            Ok(terms) => match eval_spec(terms) {
                Err(e) => Err(ExprError::Eval(e)),
                Ok(value) => Ok(value),
            },
        },
    }
}

/// Evaluates the infix expression `text`.
pub fn evaluate_expression(text: &str) -> (r: Result<i32, ExprError>)
    ensures
        r == evaluate_spec(text.spec_bytes()),
{
    let tokens = match checked_lex(text.as_bytes()) {
        Ok(tokens) => tokens,
        Err(e) => {
            return Err(ExprError::Parse(e));
        },
    };
    let terms = match checked_to_post_fix(tokens.as_slice()) {
        Ok(terms) => terms,
        Err(e) => {
            return Err(ExprError::Parse(e));
        },
    };
    match checked_eval(terms.as_slice()) {
        Ok(value) => Ok(value),
        Err(e) => Err(ExprError::Eval(e)),
    }
}

} // verus!
