//! What holds of every conversion to postfix notation.

use vstd::prelude::*;
use crate::error::ParseError;
use crate::lexer::Token;
use crate::op::Op;
use crate::postfix::{
    count_of, emitted, flattened, insert_spec, lemma_frames_counted, lemma_insert_keeps_order,
    lemma_looser_run, looser_run, open_frames, operands, operators, ordered, postfix_spec,
    Conversion, PostFixTerm,
};

verus! {

/// Whether `token` works on the innermost frame: an operator is put into it, a `)`
/// closes it.
pub open spec fn needs_frame(token: Token) -> bool {
    token is Op || token is Rp
}

/// Whether the token at index `i` finds a frame open, if it needs one.
pub open spec fn finds_frame(tokens: Seq<Token>, i: int) -> bool {
    needs_frame(tokens[i]) ==> open_frames(tokens.take(i)) >= 1
}

/// Whether every operator and every `)` of `tokens` finds a frame open, and a frame is
/// open at the end.
pub open spec fn balanced(tokens: Seq<Token>) -> bool {
    &&& forall|i: int| 0 <= i < tokens.len() ==> #[trigger] finds_frame(tokens, i)
    &&& open_frames(tokens) >= 1
}

/// Whether `tokens` hold no parenthesis.
pub open spec fn flat(tokens: Seq<Token>) -> bool {
    forall|i: int| 0 <= i < tokens.len() ==> !((#[trigger] tokens[i]) is Lp) && !(tokens[i] is Rp)
}

/// The integers among `tokens`, in their order.
pub open spec fn integers_of(tokens: Seq<Token>) -> Seq<i32>
    decreases tokens.len(),
{
    if tokens.len() == 0 {
        Seq::empty()
    } else {
        match tokens.last() {
            Token::Int(n) => integers_of(tokens.drop_last()).push(n),
            _ => integers_of(tokens.drop_last()),
        }
    }
}

/// The operators among `tokens`, in their order.
pub open spec fn operators_of(tokens: Seq<Token>) -> Seq<Op>
    decreases tokens.len(),
{
    if tokens.len() == 0 {
        Seq::empty()
    } else {
        match tokens.last() {
            Token::Op(op) => operators_of(tokens.drop_last()).push(op),
            _ => operators_of(tokens.drop_last()),
        }
    }
}

/// The operators of `ops` whose precedence class is `class`, in their order.
pub open spec fn of_class(ops: Seq<Op>, class: nat) -> Seq<Op>
    decreases ops.len(),
{
    if ops.len() == 0 {
        Seq::empty()
    } else if ops.last().precedence() == class {
        of_class(ops.drop_last(), class).push(ops.last())
    } else {
        of_class(ops.drop_last(), class)
    }
}

/// The terms that integers are emitted as.
pub open spec fn integer_terms(integers: Seq<i32>) -> Seq<PostFixTerm> {
    Seq::new(integers.len(), |i: int| PostFixTerm::Int(integers[i]))
}

/// The number of operators that wait in `frames`.
pub open spec fn held(frames: Seq<Seq<Op>>) -> nat
    decreases frames.len(),
{
    if frames.len() == 0 {
        0
    } else {
        held(frames.drop_last()) + frames.last().len()
    }
}

/// A conversion gets through `tokens` exactly where each of them that needs a frame
/// finds one open.
pub proof fn lemma_after_defined(tokens: Seq<Token>)
    ensures
        Conversion::after(tokens) is Some <==> forall|i: int|
            0 <= i < tokens.len() ==> #[trigger] finds_frame(tokens, i),
    decreases tokens.len(),
{
    if tokens.len() > 0 {
        let front = tokens.drop_last();
        lemma_after_defined(front);
        lemma_frames_counted(front);
        assert forall|i: int| 0 <= i < front.len() implies finds_frame(front, i) == finds_frame(
            tokens,
            i,
        ) by {
            assert(front.take(i) == tokens.take(i));
        }
        assert(finds_frame(tokens, front.len() as int) == (needs_frame(tokens.last())
            ==> open_frames(front) >= 1));
    }
}

/// Tokens can be converted exactly where they are balanced.
pub proof fn lemma_balanced(tokens: Seq<Token>)
    ensures
        postfix_spec(tokens) is Ok <==> balanced(tokens),
{
    lemma_after_defined(tokens);
    lemma_frames_counted(tokens);
}

/// Tokens with more `)` than `(` cannot be converted: some `)` closes the base frame, and
/// a frame is missed by a later token or at the end.
pub proof fn lemma_unmatched_close(tokens: Seq<Token>)
    requires
        count_of(tokens, Token::Rp) > count_of(tokens, Token::Lp),
    ensures
        postfix_spec(tokens) == Err::<Seq<PostFixTerm>, ParseError>(ParseError::UnbalancedParentheses),
{
    lemma_frames_counted(tokens);
}

/// A `(` that is left open counts as closed at the end: to close one frame of several
/// that are open after the last token changes nothing.
pub proof fn lemma_closing_at_the_end(tokens: Seq<Token>)
    requires
        postfix_spec(tokens) is Ok,
        open_frames(tokens) >= 2,
    ensures
        postfix_spec(tokens.push(Token::Rp)) == postfix_spec(tokens),
{
    lemma_frames_counted(tokens);
    let state = Conversion::after(tokens)->Some_0;
    assert(tokens.push(Token::Rp).drop_last() == tokens);
    assert((state.output + emitted(state.frames.last())) + flattened(state.frames.drop_last())
        == state.output + flattened(state.frames));
}

/// Every frame of a conversion is ordered, whatever the tokens were.
pub proof fn lemma_frames_ordered(tokens: Seq<Token>)
    ensures
        Conversion::after(tokens) matches Some(state) ==> forall|i: int|
            0 <= i < state.frames.len() ==> ordered(#[trigger] state.frames[i]),
    decreases tokens.len(),
{
    if tokens.len() > 0 {
        lemma_frames_ordered(tokens.drop_last());
        if Conversion::after(tokens) is Some {
            let before = Conversion::after(tokens.drop_last())->Some_0;
            let state = Conversion::after(tokens)->Some_0;
            if let Token::Op(op) = tokens.last() {
                lemma_insert_keeps_order(before.frames.last(), op);
            }
            assert forall|i: int| 0 <= i < state.frames.len() implies ordered(
                #[trigger] state.frames[i],
            ) by {
                if i < before.frames.len() {
                    assert(ordered(before.frames[i]));
                }
            }
        }
    }
}

/// Conversion moves operators only: the postfix form holds the integers of the tokens in
/// their order, and as many operators as the tokens do.
pub proof fn lemma_terms_of_tokens(tokens: Seq<Token>)
    ensures
        postfix_spec(tokens) matches Ok(terms) ==> operands(terms) == integers_of(tokens)
            && operators(terms).len() == operators_of(tokens).len(),
{
    lemma_state_of_tokens(tokens);
    if postfix_spec(tokens) is Ok {
        let state = Conversion::after(tokens)->Some_0;
        lemma_flattened_terms(state.frames);
        lemma_terms_split(state.output, flattened(state.frames));
    }
}

/// Without parentheses, the postfix form is the integers in their order, then the
/// operators of the tighter class in their order, then those of the looser class in their
/// order. So the first product or quotient takes the last two integers, and each operator
/// after it takes the integer before those and the value so far.
pub proof fn lemma_flat_expression(tokens: Seq<Token>)
    requires
        flat(tokens),
    ensures
        postfix_spec(tokens) == Ok::<Seq<PostFixTerm>, ParseError>(
            integer_terms(integers_of(tokens)) + emitted(
                of_class(operators_of(tokens), 1) + of_class(operators_of(tokens), 0),
            ),
        ),
{
    lemma_flat_state(tokens);
    let frame = of_class(operators_of(tokens), 1) + of_class(operators_of(tokens), 0);
    assert(flattened(seq![frame].drop_last()) == Seq::<PostFixTerm>::empty());
}

/// After tokens without parentheses, the base frame holds their operators, the tighter
/// class beneath the looser, and their integers are emitted.
proof fn lemma_flat_state(tokens: Seq<Token>)
    requires
        flat(tokens),
    ensures
        Conversion::after(tokens) == Some(
            Conversion {
                frames: seq![of_class(operators_of(tokens), 1) + of_class(operators_of(tokens), 0)],
                output: integer_terms(integers_of(tokens)),
            },
        ),
    decreases tokens.len(),
{
    if tokens.len() == 0 {
        assert(Conversion::start().output == integer_terms(Seq::empty()));
    } else {
        let front = tokens.drop_last();
        assert(flat(front)) by {
            assert forall|i: int| 0 <= i < front.len() implies !((#[trigger] front[i]) is Lp) && !(
            front[i] is Rp) by {
                assert(front[i] == tokens[i]);
            }
        }
        lemma_flat_state(front);
        let before = Conversion::after(front)->Some_0;
        let state = before.step(tokens.last())->Some_0;
        let tight = of_class(operators_of(front), 1);
        let loose = of_class(operators_of(front), 0);
        match tokens.last() {
            Token::Int(n) => {
                assert(state.output == integer_terms(integers_of(front).push(n)));
            },
            Token::Op(op) => {
                let ops = operators_of(tokens);
                assert(ops.drop_last() == operators_of(front));
                lemma_class_is_class(operators_of(front), 1);
                lemma_class_is_class(operators_of(front), 0);
                lemma_looser_run_of_classes(tight, loose, op);
                assert(insert_spec(tight + loose, op) == of_class(ops, 1) + of_class(ops, 0));
                assert(state.frames == seq![of_class(ops, 1) + of_class(ops, 0)]);
            },
            Token::Lp => {},
            Token::Rp => {},
        }
    }
}

/// Each operator of `of_class(ops, class)` is of that class.
proof fn lemma_class_is_class(ops: Seq<Op>, class: nat)
    ensures
        forall|i: int|
            0 <= i < of_class(ops, class).len() ==> (#[trigger] of_class(ops, class)[i]).precedence()
                == class,
    decreases ops.len(),
{
    if ops.len() > 0 {
        let front = of_class(ops.drop_last(), class);
        lemma_class_is_class(ops.drop_last(), class);
        assert forall|i: int| 0 <= i < of_class(ops, class).len() implies (#[trigger] of_class(
            ops,
            class,
        )[i]).precedence() == class by {
            if i < front.len() {
                assert(of_class(ops, class)[i] == front[i]);
            }
        }
    }
}

/// Above operators of the tighter class, the run of operators that bind looser than one
/// of the tighter class is all of the looser class; none binds looser than one of the
/// looser class.
proof fn lemma_looser_run_of_classes(tight: Seq<Op>, loose: Seq<Op>, op: Op)
    requires
        forall|i: int| 0 <= i < tight.len() ==> (#[trigger] tight[i]).precedence() == 1,
        forall|i: int| 0 <= i < loose.len() ==> (#[trigger] loose[i]).precedence() == 0,
    ensures
        op.precedence() == 1 ==> looser_run(tight + loose, op) == loose.len(),
        op.precedence() == 0 ==> looser_run(tight + loose, op) == 0,
    decreases loose.len(),
{
    if loose.len() > 0 {
        assert((tight + loose).drop_last() == tight + loose.drop_last());
        lemma_looser_run_of_classes(tight, loose.drop_last(), op);
    } else {
        assert(tight + loose == tight);
    }
}

/// After `tokens`, their integers are emitted in their order, and each of their
/// operators is emitted or waits in a frame.
proof fn lemma_state_of_tokens(tokens: Seq<Token>)
    ensures
        Conversion::after(tokens) matches Some(state) ==> operands(state.output) == integers_of(
            tokens,
        ) && operators(state.output).len() + held(state.frames) == operators_of(tokens).len(),
    decreases tokens.len(),
{
    if tokens.len() == 0 {
        let frames = Conversion::start().frames;
        assert(held(frames) == held(frames.drop_last()) + frames.last().len());
    } else {
        lemma_state_of_tokens(tokens.drop_last());
        if Conversion::after(tokens) is Some {
            let before = Conversion::after(tokens.drop_last())->Some_0;
            let state = Conversion::after(tokens)->Some_0;
            match tokens.last() {
                Token::Int(n) => {
                    assert(state.output.drop_last() == before.output);
                },
                Token::Op(op) => {
                    lemma_looser_run(before.frames.last(), op);
                    assert(state.frames.drop_last() == before.frames.drop_last());
                },
                Token::Lp => {
                    assert(state.frames.drop_last() == before.frames);
                },
                Token::Rp => {
                    lemma_emitted_terms(before.frames.last());
                    lemma_terms_split(before.output, emitted(before.frames.last()));
                },
            }
        }
    }
}

/// The integers and the operators of a concatenation are those of its parts.
pub proof fn lemma_terms_split(a: Seq<PostFixTerm>, b: Seq<PostFixTerm>)
    ensures
        operands(a + b) == operands(a) + operands(b),
        operators(a + b) == operators(a) + operators(b),
    decreases b.len(),
{
    if b.len() == 0 {
        assert(a + b == a);
    } else {
        lemma_terms_split(a, b.drop_last());
        assert((a + b).drop_last() == a + b.drop_last());
    }
}

/// A frame is emitted as its operators and nothing else.
proof fn lemma_emitted_terms(frame: Seq<Op>)
    ensures
        operands(emitted(frame)) == Seq::<i32>::empty(),
        operators(emitted(frame)) == frame,
    decreases frame.len(),
{
    if frame.len() > 0 {
        lemma_emitted_terms(frame.drop_last());
        assert(emitted(frame).drop_last() == emitted(frame.drop_last()));
    }
}

/// Frames are emitted as one operator for each that waits in them.
proof fn lemma_flattened_terms(frames: Seq<Seq<Op>>)
    ensures
        operands(flattened(frames)) == Seq::<i32>::empty(),
        operators(flattened(frames)).len() == held(frames),
    decreases frames.len(),
{
    if frames.len() > 0 {
        lemma_flattened_terms(frames.drop_last());
        lemma_emitted_terms(frames.last());
        lemma_terms_split(emitted(frames.last()), flattened(frames.drop_last()));
    }
}

} // verus!
