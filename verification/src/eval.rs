//! The evaluator: the value of a sequence of postfix terms, by a stack of operands.

use vstd::prelude::*;
use crate::error::EvalError;
use crate::op::Op;
use crate::postfix::PostFixTerm;

verus! {

/// The operand stack after `term`: an integer is pushed, an operator replaces the two
/// topmost operands by its result.
pub open spec fn step(stack: Seq<i32>, term: PostFixTerm) -> Result<Seq<i32>, EvalError> {
    match term {
        PostFixTerm::Int(n) => Ok(stack.push(n)),
        PostFixTerm::Op(op) => op.on_stack(stack),
    }
}

/// The operand stack after all of `terms`, taken in order from an empty stack; or the
/// failure of the first term that fails.
pub open spec fn stack_after(terms: Seq<PostFixTerm>) -> Result<Seq<i32>, EvalError>
    decreases terms.len(),
{
    if terms.len() == 0 {
        Ok(Seq::empty())
    } else {
        match stack_after(terms.drop_last()) {
            Ok(stack) => step(stack, terms.last()),
            Err(e) => Err(e),
        }
    }
}

/// The value of `terms`: the top of the operand stack after the last term.
pub open spec fn eval_spec(terms: Seq<PostFixTerm>) -> Result<i32, EvalError> {
    match stack_after(terms) {
        Ok(stack) => if stack.len() == 0 {
            Err(EvalError::MalformedExpression)
        } else {
            Ok(stack.last())
        },
        Err(e) => Err(e),
    }
}

/// Evaluates postfix terms with a stack of operands, and gives the top of the stack at
/// the end.
pub fn eval(post_fix_terms: &[PostFixTerm]) -> (r: i32)
    requires
        eval_spec(post_fix_terms@) is Ok,
    ensures
        Ok::<i32, EvalError>(r) == eval_spec(post_fix_terms@),
{
    let mut stack: Vec<i32> = Vec::new();
    let mut i: usize = 0;
    while i < post_fix_terms.len()
        invariant
            i <= post_fix_terms@.len(),
            stack_after(post_fix_terms@) is Ok,
            stack_after(post_fix_terms@.take(i as int)) == Ok::<Seq<i32>, EvalError>(stack@),
        decreases post_fix_terms@.len() - i,
    {
        proof {
            lemma_failure_stays(post_fix_terms@, i + 1);
            assert(post_fix_terms@.take(i + 1).drop_last() == post_fix_terms@.take(i as int));
        }
        match post_fix_terms[i] {
            PostFixTerm::Int(n) => stack.push(n),
            PostFixTerm::Op(op) => op.cal(&mut stack),
        }
        i += 1;
    }
    assert(post_fix_terms@.take(i as int) == post_fix_terms@);
    stack.pop().unwrap()
}

/// Like [`eval`], for any terms: where they have no value, says why.
pub fn checked_eval(post_fix_terms: &[PostFixTerm]) -> (r: Result<i32, EvalError>)
    ensures
        r == eval_spec(post_fix_terms@),
{
    let mut stack: Vec<i32> = Vec::new();
    let mut i: usize = 0;
    while i < post_fix_terms.len()
        invariant
            i <= post_fix_terms@.len(),
            stack_after(post_fix_terms@.take(i as int)) == Ok::<Seq<i32>, EvalError>(stack@),
        decreases post_fix_terms@.len() - i,
    {
        proof {
            lemma_failure_stays(post_fix_terms@, i + 1);
            assert(post_fix_terms@.take(i + 1).drop_last() == post_fix_terms@.take(i as int));
        }
        match post_fix_terms[i] {
            PostFixTerm::Int(n) => stack.push(n),
            PostFixTerm::Op(op) => match op.checked_cal(&mut stack) {
                Ok(_) => {},
                Err(e) => {
                    return Err(e);
                },
            },
        }
        i += 1;
    }
    assert(post_fix_terms@.take(i as int) == post_fix_terms@);
    match stack.pop() {
        Some(v) => Ok(v),
        None => Err(EvalError::MalformedExpression),
    }
}

/// A failure is final: where the first `n` terms fail, all the terms fail in the same way.
pub proof fn lemma_failure_stays(terms: Seq<PostFixTerm>, n: int)
    requires
        0 <= n <= terms.len(),
    ensures
        stack_after(terms.take(n)) matches Err(e) ==> stack_after(terms) == Err::<Seq<i32>, EvalError>(e),
    decreases terms.len(),
{
    if n == terms.len() {
        assert(terms.take(n) == terms);
    } else {
        lemma_failure_stays(terms.drop_last(), n);
        assert(terms.drop_last().take(n) == terms.take(n));
    }
}

} // verus!
