//! The converter: from infix tokens to postfix terms, by operator precedence.

use vstd::prelude::*;
use crate::error::ParseError;
use crate::lexer::Token;
use crate::op::Op;

verus! {

/// One term of an expression in postfix notation.
#[derive(Clone, Copy, Debug, PartialEq, Eq, Structural)]
pub enum PostFixTerm {
    Int(i32),
    Op(Op),
}

/// The integers among `terms`, in their order.
pub open spec fn operands(terms: Seq<PostFixTerm>) -> Seq<i32>
    decreases terms.len(),
{
    if terms.len() == 0 {
        Seq::empty()
    } else {
        match terms.last() {
            PostFixTerm::Int(n) => operands(terms.drop_last()).push(n),
            PostFixTerm::Op(_) => operands(terms.drop_last()),
        }
    }
}

/// The operators among `terms`, in their order.
pub open spec fn operators(terms: Seq<PostFixTerm>) -> Seq<Op>
    decreases terms.len(),
{
    if terms.len() == 0 {
        Seq::empty()
    } else {
        match terms.last() {
            PostFixTerm::Int(_) => operators(terms.drop_last()),
            PostFixTerm::Op(op) => operators(terms.drop_last()).push(op),
        }
    }
}

/// A frame holds the operators of one parenthesis depth that are not yet emitted. It is
/// kept ordered: no operator stands above one that binds looser than itself.
pub open spec fn ordered(frame: Seq<Op>) -> bool {
    forall|i: int, j: int|
        0 <= i <= j < frame.len() ==> (#[trigger] frame[i]).precedence() >= (
        #[trigger] frame[j]).precedence()
}

/// The number of operators at the top of `frame`, its end, that bind strictly looser
/// than `op`.
pub open spec fn looser_run(frame: Seq<Op>, op: Op) -> nat
    decreases frame.len(),
{
    if frame.len() > 0 && frame.last().precedence() < op.precedence() {
        1 + looser_run(frame.drop_last(), op)
    } else {
        0
    }
}

/// `frame` with `op` put directly beneath the operators at its top that bind strictly
/// looser than `op`.
pub open spec fn insert_spec(frame: Seq<Op>, op: Op) -> Seq<Op> {
    frame.insert(frame.len() - looser_run(frame, op), op)
}

/// The terms that a frame is emitted as: its operators from the bottom to the top.
pub open spec fn emitted(frame: Seq<Op>) -> Seq<PostFixTerm> {
    Seq::new(frame.len(), |i: int| PostFixTerm::Op(frame[i]))
}

/// The terms that a stack of frames is emitted as: the topmost frame first.
pub open spec fn flattened(frames: Seq<Seq<Op>>) -> Seq<PostFixTerm>
    decreases frames.len(),
{
    if frames.len() == 0 {
        Seq::empty()
    } else {
        emitted(frames.last()) + flattened(frames.drop_last())
    }
}

/// The state of a conversion: the frames that are open, the innermost last, and the
/// terms emitted so far.
pub struct Conversion {
    pub frames: Seq<Seq<Op>>,
    pub output: Seq<PostFixTerm>,
}

impl Conversion {
    /// Before the first token: one empty frame, nothing emitted.
    pub open spec fn start() -> Conversion {
        Conversion { frames: seq![Seq::empty()], output: Seq::empty() }
    }

    /// The state after `token`. There is none where the token needs a frame and none is
    /// open.
    pub open spec fn step(self, token: Token) -> Option<Conversion> {
        match token {
            Token::Int(n) => Some(
                Conversion { frames: self.frames, output: self.output.push(PostFixTerm::Int(n)) },
            ),
            Token::Op(op) => if self.frames.len() == 0 {
                None
            } else {
                Some(
                    Conversion {
                        frames: self.frames.drop_last().push(insert_spec(self.frames.last(), op)),
                        output: self.output,
                    },
                )
            },
            Token::Lp => Some(
                Conversion { frames: self.frames.push(Seq::empty()), output: self.output },
            ),
            Token::Rp => if self.frames.len() == 0 {
                None
            } else {
                Some(
                    Conversion {
                        frames: self.frames.drop_last(),
                        output: self.output + emitted(self.frames.last()),
                    },
                )
            },
        }
    }

    /// The terms once the tokens are used up: what was emitted, then every frame that is
    /// still open. There are none where no frame is open.
    pub open spec fn finish(self) -> Option<Seq<PostFixTerm>> {
        if self.frames.len() == 0 {
            None
        } else {
            Some(self.output + flattened(self.frames))
        }
    }

    /// The state after all of `tokens`, taken in order from the start.
    pub open spec fn after(tokens: Seq<Token>) -> Option<Conversion>
        decreases tokens.len(),
    {
        if tokens.len() == 0 {
            Some(Conversion::start())
        } else {
            match Conversion::after(tokens.drop_last()) {
                Some(state) => state.step(tokens.last()),
                None => None,
            }
        }
    }
}

/// How often `token` occurs in `tokens`.
pub open spec fn count_of(tokens: Seq<Token>, token: Token) -> nat
    decreases tokens.len(),
{
    if tokens.len() == 0 {
        0
    } else {
        count_of(tokens.drop_last(), token) + if tokens.last() == token {
            1nat
        } else {
            0nat
        }
    }
}

/// The number of frames that are open after `tokens`, where each `)` found one to close:
/// the base frame, and one more for each `(` than there are `)`.
pub open spec fn open_frames(tokens: Seq<Token>) -> int {
    1 + count_of(tokens, Token::Lp) - count_of(tokens, Token::Rp)
}

/// The frames that a stack of vectors holds.
pub open spec fn frames_of(stack: Seq<Vec<Op>>) -> Seq<Seq<Op>> {
    Seq::new(stack.len(), |i: int| stack[i]@)
}

/// The state that the converter's two stacks stand for.
pub open spec fn state_of(stack: Seq<Vec<Op>>, output: Seq<PostFixTerm>) -> Conversion {
    Conversion { frames: frames_of(stack), output }
}

/// The postfix form of `tokens`, or the refusal of a token sequence that asks for a frame
/// where none is open.
pub open spec fn postfix_spec(tokens: Seq<Token>) -> Result<Seq<PostFixTerm>, ParseError> {
    match Conversion::after(tokens) {
        Some(state) => match state.finish() {
            Some(terms) => Ok(terms),
            None => Err(ParseError::UnbalancedParentheses),
        },
        None => Err(ParseError::UnbalancedParentheses),
    }
}

/// Puts `op` into the frame `op_stack`, whose top is its end: beneath the operators at
/// the top that bind strictly looser, above all others.
pub fn insert_op(op_stack: &mut Vec<Op>, op: Op)
    ensures
        final(op_stack)@ == insert_spec(old(op_stack)@, op),
        ordered(old(op_stack)@) ==> ordered(final(op_stack)@),
    decreases old(op_stack)@.len(),
{
    proof {
        lemma_insert_rule(op_stack@, op);
        if ordered(op_stack@) {
            lemma_insert_keeps_order(op_stack@, op);
        }
    }
    match op_stack.pop() {
        Some(pre_op) => {
            if pre_op.order() < op.order() {
                insert_op(op_stack, op);
                op_stack.push(pre_op);
            } else {
                op_stack.push(pre_op);
                op_stack.push(op);
            }
        },
        None => op_stack.push(op),
    }
}

/// Appends the operators of `frame` to `out`, from the bottom of the frame to its top.
pub fn flush(frame: &Vec<Op>, out: &mut Vec<PostFixTerm>)
    ensures
        final(out)@ == old(out)@ + emitted(frame@),
{
    let mut i: usize = 0;
    while i < frame.len()
        invariant
            i <= frame@.len(),
            out@ == old(out)@ + emitted(frame@).take(i as int),
        decreases frame@.len() - i,
    {
        out.push(PostFixTerm::Op(frame[i]));
        i += 1;
    }
}

/// Converts infix `tokens` to postfix terms. An integer is emitted at once; an operator
/// waits in the frame of its parenthesis depth; `(` opens a frame; `)` emits the innermost
/// frame and closes it; at the end the frames still open are emitted, the innermost first.
pub fn to_post_fix(tokens: &[Token]) -> (ret: Vec<PostFixTerm>)
    requires
        postfix_spec(tokens@) is Ok,
    ensures
        Ok::<Seq<PostFixTerm>, ParseError>(ret@) == postfix_spec(tokens@),
{
    let mut ret: Vec<PostFixTerm> = Vec::new();
    let mut op_stack: Vec<Vec<Op>> = Vec::new();
    op_stack.push(Vec::new());
    assert(frames_of(op_stack@) == Conversion::start().frames);
    let mut i: usize = 0;
    while i < tokens.len()
        invariant
            i <= tokens@.len(),
            Conversion::after(tokens@) is Some,
            Conversion::after(tokens@.take(i as int)) == Some(state_of(op_stack@, ret@)),
        decreases tokens@.len() - i,
    {
        proof {
            lemma_after_prefix(tokens@, i + 1);
            assert(tokens@.take(i + 1).drop_last() == tokens@.take(i as int));
        }
        let ghost before = state_of(op_stack@, ret@);
        match tokens[i] {
            Token::Int(num) => ret.push(PostFixTerm::Int(num)),
            Token::Op(op) => {
                let mut frame = op_stack.pop().unwrap();
                insert_op(&mut frame, op);
                op_stack.push(frame);
                assert(frames_of(op_stack@) == before.frames.drop_last().push(
                    insert_spec(before.frames.last(), op),
                ));
            },
            Token::Lp => {
                op_stack.push(Vec::new());
                assert(frames_of(op_stack@) == before.frames.push(Seq::empty()));
            },
            Token::Rp => {
                let frame = op_stack.pop().unwrap();
                flush(&frame, &mut ret);
                assert(frames_of(op_stack@) == before.frames.drop_last());
            },
        }
        i += 1;
    }
    assert(tokens@.take(i as int) == tokens@);
    let ghost done = state_of(op_stack@, ret@);
    while op_stack.len() > 0
        invariant
            ret@ + flattened(frames_of(op_stack@)) == done.output + flattened(done.frames),
        decreases op_stack@.len(),
    {
        let ghost frames = frames_of(op_stack@);
        let frame = op_stack.pop().unwrap();
        flush(&frame, &mut ret);
        assert(frames_of(op_stack@) == frames.drop_last());
    }
    ret
}

/// Whether `tokens` can be converted: whether every operator and every `)` finds a frame
/// open, and one is open at the end.
pub fn is_balanced(tokens: &[Token]) -> (r: bool)
    ensures
        r == (postfix_spec(tokens@) is Ok),
{
    let mut depth: u128 = 1;
    let mut i: usize = 0;
    while i < tokens.len()
        invariant
            i <= tokens@.len(),
            Conversion::after(tokens@.take(i as int)) is Some,
            depth == open_frames(tokens@.take(i as int)),
            depth <= i + 1,
        decreases tokens@.len() - i,
    {
        proof {
            assert(tokens@.take(i + 1).drop_last() == tokens@.take(i as int));
            lemma_frames_counted(tokens@.take(i as int));
            lemma_frames_counted(tokens@.take(i + 1));
            if Conversion::after(tokens@.take(i + 1)) is None && Conversion::after(tokens@) is Some {
                lemma_after_prefix(tokens@, i + 1);
            }
        }
        match tokens[i] {
            Token::Int(_) => {},
            Token::Op(_) => {
                if depth == 0 {
                    return false;
                }
            },
            Token::Lp => {
                depth += 1;
            },
            Token::Rp => {
                if depth == 0 {
                    return false;
                }
                depth -= 1;
            },
        }
        i += 1;
    }
    proof {
        assert(tokens@.take(i as int) == tokens@);
        lemma_frames_counted(tokens@);
    }
    depth > 0
}

/// Like [`to_post_fix`], for any tokens: where they cannot be converted, says so.
pub fn checked_to_post_fix(tokens: &[Token]) -> (r: Result<Vec<PostFixTerm>, ParseError>)
    ensures
        match r {
            Ok(ret) => Ok::<Seq<PostFixTerm>, ParseError>(ret@) == postfix_spec(tokens@),
            Err(e) => Err::<Seq<PostFixTerm>, ParseError>(e) == postfix_spec(tokens@),
        },
{
    if is_balanced(tokens) {
        Ok(to_post_fix(tokens))
    } else {
        Err(ParseError::UnbalancedParentheses)
    }
}

/// A conversion that gets through `tokens` gets through each of their prefixes.
pub proof fn lemma_after_prefix(tokens: Seq<Token>, n: int)
    requires
        0 <= n <= tokens.len(),
        Conversion::after(tokens) is Some,
    ensures
        Conversion::after(tokens.take(n)) is Some,
    decreases tokens.len(),
{
    if n == tokens.len() {
        assert(tokens.take(n) == tokens);
    } else {
        lemma_after_prefix(tokens.drop_last(), n);
        assert(tokens.drop_last().take(n) == tokens.take(n));
    }
}

/// After `tokens` there are as many frames open as `open_frames` counts.
pub proof fn lemma_frames_counted(tokens: Seq<Token>)
    ensures
        Conversion::after(tokens) matches Some(state) ==> state.frames.len() == open_frames(tokens),
    decreases tokens.len(),
{
    if tokens.len() > 0 {
        lemma_frames_counted(tokens.drop_last());
    }
}

/// Inserting an operator keeps a frame ordered.
pub proof fn lemma_insert_keeps_order(frame: Seq<Op>, op: Op)
    requires
        ordered(frame),
    ensures
        ordered(insert_spec(frame, op)),
{
    lemma_looser_run(frame, op);
}

/// `looser_run(frame, op)` is the length of the longest run of operators at the top of
/// `frame` that bind strictly looser than `op`.
pub proof fn lemma_looser_run(frame: Seq<Op>, op: Op)
    ensures
        looser_run(frame, op) <= frame.len(),
        forall|i: int|
            frame.len() - looser_run(frame, op) <= i < frame.len() ==> (#[trigger] frame[i]).precedence()
                < op.precedence(),
        looser_run(frame, op) < frame.len() ==> frame[frame.len() - looser_run(frame, op) - 1].precedence()
            >= op.precedence(),
    decreases frame.len(),
{
    if frame.len() > 0 && frame.last().precedence() < op.precedence() {
        let below = frame.drop_last();
        lemma_looser_run(below, op);
        assert forall|i: int| frame.len() - looser_run(frame, op) <= i < frame.len() implies (
        #[trigger] frame[i]).precedence() < op.precedence() by {
            if i < below.len() {
                assert(frame[i] == below[i]);
            }
        }
    }
}

/// The rule by which an operator is inserted, one operator of the frame at a time: into
/// an empty frame it is pushed; where the top binds strictly looser, it is inserted
/// beneath the top; otherwise it is pushed on the top.
pub proof fn lemma_insert_rule(frame: Seq<Op>, op: Op)
    ensures
        frame.len() == 0 ==> insert_spec(frame, op) == seq![op],
        frame.len() > 0 && frame.last().precedence() < op.precedence() ==> insert_spec(frame, op)
            == insert_spec(frame.drop_last(), op).push(frame.last()),
        frame.len() > 0 && frame.last().precedence() >= op.precedence() ==> insert_spec(frame, op)
            == frame.push(op),
{
    if frame.len() > 0 && frame.last().precedence() < op.precedence() {
        lemma_looser_run(frame.drop_last(), op);
    }
}

} // verus!
