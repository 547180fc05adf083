//! What holds of every evaluation of postfix terms.

use vstd::prelude::*;
use crate::error::EvalError;
use crate::eval::{eval_spec, lemma_failure_stays, stack_after};
use crate::op::Op;
use crate::postfix::{operands, operators, PostFixTerm};

verus! {

/// Each integer adds one operand to the stack and each operator takes one away: after
/// terms that did not fail, the stack holds one operand for each integer that no operator
/// has used up.
pub proof fn lemma_operands_counted(terms: Seq<PostFixTerm>)
    ensures
        stack_after(terms) matches Ok(stack) ==> stack.len() == operands(terms).len() - operators(
            terms,
        ).len(),
    decreases terms.len(),
{
    if terms.len() > 0 {
        lemma_operands_counted(terms.drop_last());
    }
}

/// Terms with at least as many operators as integers have no value: some operator finds
/// too few operands, unless an operation fails before.
pub proof fn lemma_operator_heavy(terms: Seq<PostFixTerm>)
    requires
        operators(terms).len() >= operands(terms).len(),
    ensures
        eval_spec(terms) is Err,
{
    lemma_operands_counted(terms);
}

/// A division whose divisor is zero is never passed over: where the terms before index
/// `i` leave a zero on top of at least two operands and the term at `i` is a division,
/// the terms have no value, and the reason given is the division by zero.
pub proof fn lemma_division_by_zero(terms: Seq<PostFixTerm>, i: int)
    requires
        0 <= i < terms.len(),
        terms[i] == PostFixTerm::Op(Op::Div),
        stack_after(terms.take(i)) matches Ok(stack) && stack.len() >= 2 && stack.last() == 0,
    ensures
        eval_spec(terms) == Err::<i32, EvalError>(EvalError::DivisionByZero),
{
    assert(terms.take(i + 1).drop_last() == terms.take(i));
    lemma_failure_stays(terms, i + 1);
}

} // verus!
