//! What holds of every run of the three stages on a text.

use vstd::prelude::*;
use crate::error::{EvalError, ExprError, ParseError};
use crate::eval::eval_spec;
use crate::evaluate_spec;
use crate::laws::conversion::{
    integers_of, lemma_terms_of_tokens, lemma_unmatched_close, operators_of,
};
use crate::laws::evaluation::lemma_operator_heavy;
use crate::lexer::{lex_spec, Token};
use crate::postfix::{count_of, postfix_spec, PostFixTerm};

verus! {

/// What the three stages make of a text that they all accept.
pub struct Run {
    pub tokens: Seq<Token>,
    pub terms: Seq<PostFixTerm>,
    pub value: i32,
}

impl Run {
    /// Whether these are the tokens of `text`, the postfix form of the tokens, and the
    /// value of the terms.
    pub open spec fn of(self, text: Seq<u8>) -> bool {
        &&& lex_spec(text) == Ok::<Seq<Token>, ParseError>(self.tokens)
        &&& postfix_spec(self.tokens) == Ok::<Seq<PostFixTerm>, ParseError>(self.terms)
        &&& eval_spec(self.terms) == Ok::<i32, EvalError>(self.value)
    }
}

/// Lexing, converting and evaluating depend on the text alone: two runs on the same text
/// give the same tokens, the same terms and the same value, which is the value of the
/// text.
pub proof fn lemma_runs_agree(text: Seq<u8>, first: Run, second: Run)
    requires
        first.of(text),
        second.of(text),
    ensures
        first == second,
        evaluate_spec(text) == Ok::<i32, ExprError>(first.value),
{
}

/// No number comes out of tokens that hold more `)` than `(`, or at least as many
/// operators as integers: the converter or the evaluator refuses them.
pub proof fn lemma_malformed_tokens_refused(text: Seq<u8>, tokens: Seq<Token>)
    requires
        lex_spec(text) == Ok::<Seq<Token>, ParseError>(tokens),
        count_of(tokens, Token::Rp) > count_of(tokens, Token::Lp) || operators_of(tokens).len()
            >= integers_of(tokens).len(),
    ensures
        evaluate_spec(text) is Err,
{
    if count_of(tokens, Token::Rp) > count_of(tokens, Token::Lp) {
        lemma_unmatched_close(tokens);
    } else if postfix_spec(tokens) is Ok {
        lemma_terms_of_tokens(tokens);
        lemma_operator_heavy(postfix_spec(tokens)->Ok_0);
    }
}

} // verus!
