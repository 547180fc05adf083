//! What holds of the conversion and the evaluation of every infix expression.

use vstd::prelude::*;
use crate::error::EvalError;
use crate::eval::{eval_spec, stack_after};
use crate::laws::conversion::held;
use crate::lexer::Token;
use crate::op::Op;
use crate::postfix::{
    emitted, flattened, lemma_looser_run, postfix_spec, Conversion, PostFixTerm,
};

verus! {

/// How far a reader has come in an infix expression.
pub struct Reading {
    /// The number of `(` that no `)` has closed yet.
    pub open: nat,
    /// Whether an operand has just ended: an integer, or an expression in parentheses.
    pub after_operand: bool,
}

impl Reading {
    /// Before the first token.
    pub open spec fn start() -> Reading {
        Reading { open: 0, after_operand: false }
    }

    /// The reading after `token`, where the token is in place: an integer or a `(` where
    /// an operand is due, an operator or a `)` that closes a `(` after an operand.
    pub open spec fn step(self, token: Token) -> Option<Reading> {
        match token {
            Token::Int(_) => if self.after_operand {
                None
            } else {
                Some(Reading { open: self.open, after_operand: true })
            },
            Token::Op(_) => if self.after_operand {
                Some(Reading { open: self.open, after_operand: false })
            } else {
                None
            },
            Token::Lp => if self.after_operand {
                None
            } else {
                Some(Reading { open: self.open + 1, after_operand: false })
            },
            Token::Rp => if self.after_operand && self.open > 0 {
                Some(Reading { open: (self.open - 1) as nat, after_operand: true })
            } else {
                None
            },
        }
    }

    /// The reading after all of `tokens`, where each of them is in place.
    pub open spec fn after(tokens: Seq<Token>) -> Option<Reading>
        decreases tokens.len(),
    {
        if tokens.len() == 0 {
            Some(Reading::start())
        } else {
            match Reading::after(tokens.drop_last()) {
                Some(reading) => reading.step(tokens.last()),
                None => None,
            }
        }
    }
}

/// Whether `tokens` are an infix expression: operands and operators in turn, from an
/// operand to an operand, where an operand is an integer or an infix expression in
/// parentheses.
pub open spec fn well_formed(tokens: Seq<Token>) -> bool {
    Reading::after(tokens) == Some(Reading { open: 0, after_operand: true })
}

/// The number of operands that `terms` leave on the stack, where none of their operators
/// finds fewer than two.
spec fn height_after(terms: Seq<PostFixTerm>) -> Option<nat>
    decreases terms.len(),
{
    if terms.len() == 0 {
        Some(0)
    } else {
        match (height_after(terms.drop_last()), terms.last()) {
            (Some(h), PostFixTerm::Int(_)) => Some(h + 1),
            (Some(h), PostFixTerm::Op(_)) => if h >= 2 {
                Some((h - 1) as nat)
            } else {
                None
            },
            (None, _) => None,
        }
    }
}

/// An infix expression can be converted, and no operator of its postfix form lacks an
/// operand: the terms have a value unless a division by zero or an overflow occurs, and
/// the value is the one operand that they leave on the stack.
pub proof fn lemma_well_formed_has_value(tokens: Seq<Token>)
    requires
        well_formed(tokens),
    ensures
        postfix_spec(tokens) matches Ok(terms) && match stack_after(terms) {
            Ok(stack) => stack.len() == 1 && eval_spec(terms) == Ok::<i32, EvalError>(stack[0]),
            Err(e) => e == EvalError::DivisionByZero || e == EvalError::Overflow,
        },
{
    lemma_reading_and_conversion(tokens);
    let state = Conversion::after(tokens)->Some_0;
    let frame = state.frames[0];
    assert(held(state.frames.drop_last()) == 0);
    assert(flattened(state.frames.drop_last()) == Seq::<PostFixTerm>::empty());
    lemma_height_after_frame(state.output, frame);
    lemma_height_and_stack(state.output + emitted(frame));
}

/// While an infix expression is read, a frame is open for each `(` that is open and one
/// more, and the terms emitted so far leave an operand for each operator that waits in a
/// frame, and one more after an operand.
proof fn lemma_reading_and_conversion(tokens: Seq<Token>)
    ensures
        Reading::after(tokens) matches Some(reading) ==> (Conversion::after(tokens) matches Some(
            state,
        ) && state.frames.len() == reading.open + 1 && height_after(state.output) == Some(
            held(state.frames) + if reading.after_operand {
                1nat
            } else {
                0nat
            },
        )),
    decreases tokens.len(),
{
    if tokens.len() == 0 {
        let frames = Conversion::start().frames;
        assert(held(frames) == held(frames.drop_last()) + frames.last().len());
    } else {
        lemma_reading_and_conversion(tokens.drop_last());
        if Reading::after(tokens) is Some {
            let before = Conversion::after(tokens.drop_last())->Some_0;
            let state = Conversion::after(tokens)->Some_0;
            match tokens.last() {
                Token::Int(n) => {
                    assert(state.output.drop_last() == before.output);
                },
                Token::Op(op) => {
                    lemma_looser_run(before.frames.last(), op);
                    assert(state.frames.drop_last() == before.frames.drop_last());
                },
                Token::Lp => {
                    assert(state.frames.drop_last() == before.frames);
                },
                Token::Rp => {
                    lemma_height_after_frame(before.output, before.frames.last());
                },
            }
        }
    }
}

/// Where the terms `a` leave more operands than the frame holds operators, the frame can
/// be emitted after them, and each of its operators leaves one operand less.
proof fn lemma_height_after_frame(a: Seq<PostFixTerm>, frame: Seq<Op>)
    requires
        height_after(a) matches Some(h) && h >= frame.len() + 1,
    ensures
        height_after(a + emitted(frame)) == Some((height_after(a)->Some_0 - frame.len()) as nat),
    decreases frame.len(),
{
    if frame.len() == 0 {
        assert(a + emitted(frame) == a);
    } else {
        lemma_height_after_frame(a, frame.drop_last());
        assert((a + emitted(frame)).drop_last() == a + emitted(frame.drop_last()));
    }
}

/// Terms of which no operator lacks an operand fail only by a division by zero or an
/// overflow, and otherwise leave as many operands as `height_after` counts.
proof fn lemma_height_and_stack(terms: Seq<PostFixTerm>)
    requires
        height_after(terms) is Some,
    ensures
        match stack_after(terms) {
            Ok(stack) => stack.len() == height_after(terms)->Some_0,
            Err(e) => e == EvalError::DivisionByZero || e == EvalError::Overflow,
        },
    decreases terms.len(),
{
    if terms.len() > 0 {
        lemma_height_and_stack(terms.drop_last());
    }
}

} // verus!
