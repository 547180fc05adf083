//! What holds of the tokens of every text.

use vstd::prelude::*;
use crate::error::ParseError;
use crate::lexer::{
    decimal_value, digit_prefix, first_token, is_digit, is_whitespace, lemma_digit_prefix,
    lemma_whitespace_prefix, lex_spec, whitespace_prefix, LEFT_PAREN, RIGHT_PAREN,
};
use crate::op::Op;

verus! {

/// Whether `b` is a token by itself: a parenthesis or an operator.
pub open spec fn is_symbol(b: u8) -> bool {
    b == LEFT_PAREN || b == RIGHT_PAREN || Op::from_byte(b) is Some
}

/// Whether `s` is made of digits, symbols and whitespace only.
pub open spec fn over_alphabet(s: Seq<u8>) -> bool {
    forall|i: int|
        0 <= i < s.len() ==> is_whitespace(#[trigger] s[i]) || is_digit(s[i]) || is_symbol(s[i])
}

/// Whether a lexeme starts at index `i` of `s`: a symbol, or a digit that no digit
/// precedes.
pub open spec fn starts_lexeme(s: Seq<u8>, i: int) -> bool {
    0 <= i < s.len() && (is_symbol(s[i]) || (is_digit(s[i]) && (i == 0 || !is_digit(s[i - 1]))))
}

/// The number of lexemes of `s` that start at an index below `n`.
pub open spec fn lexemes_before(s: Seq<u8>, n: int) -> nat
    decreases n,
{
    if n <= 0 {
        0
    } else {
        lexemes_before(s, n - 1) + if starts_lexeme(s, n - 1) {
            1nat
        } else {
            0nat
        }
    }
}

/// The number of symbols and maximal runs of digits in `s`.
pub open spec fn lexeme_count(s: Seq<u8>) -> nat {
    lexemes_before(s, s.len() as int)
}

/// The number that the run of digits from index `i` of `s` on denotes.
pub open spec fn literal_at(s: Seq<u8>, i: int) -> int {
    decimal_value(s.skip(i).take(digit_prefix(s.skip(i)) as int))
}

/// Whether the lexer can accept the byte at index `i` of `s`: it is a digit, a symbol or
/// whitespace, and where a run of digits starts at it, the run denotes at most `i32::MAX`.
pub open spec fn acceptable_at(s: Seq<u8>, i: int) -> bool {
    &&& is_whitespace(s[i]) || is_digit(s[i]) || is_symbol(s[i])
    &&& starts_lexeme(s, i) && is_digit(s[i]) ==> literal_at(s, i) <= i32::MAX
}

/// Whether `s` is made of digits, symbols and whitespace only, and each of its maximal
/// runs of digits denotes at most `i32::MAX`.
pub open spec fn acceptable(s: Seq<u8>) -> bool {
    forall|i: int| 0 <= i < s.len() ==> #[trigger] acceptable_at(s, i)
}

/// The lexer accepts a text exactly where each of its bytes is a digit, a symbol or
/// whitespace, and each of its maximal runs of digits denotes at most `i32::MAX`.
pub proof fn lemma_lexable(s: Seq<u8>)
    ensures
        lex_spec(s) is Ok <==> acceptable(s),
{
    assert(s.skip(0) == s);
    lemma_lexable_from(s, 0);
}

/// A text made of digits, parentheses, operators and whitespace only has one token for
/// each symbol and each maximal run of digits. The lexer refuses such a text only for a
/// run of digits that denotes more than `i32::MAX`.
pub proof fn lemma_token_count(s: Seq<u8>)
    requires
        over_alphabet(s),
    ensures
        match lex_spec(s) {
            Ok(tokens) => tokens.len() == lexeme_count(s),
            Err(e) => e == ParseError::LiteralTooLarge,
        },
{
    assert(s.skip(0) == s);
    lemma_tokens_from(s, 0);
}

/// Whatever the bytes of a text are, the tokens that the lexer finds in it are as many
/// as its symbols and maximal runs of digits.
pub proof fn lemma_token_count_of_lexed(s: Seq<u8>)
    ensures
        lex_spec(s) matches Ok(tokens) ==> tokens.len() == lexeme_count(s),
{
    assert(s.skip(0) == s);
    lemma_tokens_from(s, 0);
}

/// The tokens of the text from index `k` on, where no run of digits spans `k`, are as
/// many as the lexemes that start at `k` or later.
proof fn lemma_tokens_from(s: Seq<u8>, k: int)
    requires
        0 <= k <= s.len(),
        k == 0 || k == s.len() || !(is_digit(s[k - 1]) && is_digit(s[k])),
    ensures
        lex_spec(s.skip(k)) matches Ok(tokens) ==> tokens.len() == lexeme_count(s) - lexemes_before(
            s,
            k,
        ),
        over_alphabet(s) ==> (lex_spec(s.skip(k)) matches Err(e) ==> e == ParseError::LiteralTooLarge),
    decreases s.len() - k,
{
    let here = s.skip(k);
    let w = whitespace_prefix(here) as int;
    lemma_whitespace_prefix(here);
    let rest = here.skip(w);
    assert forall|j: int| k <= j < k + w implies !starts_lexeme(s, j) by {
        assert(s[j] == here[j - k]);
    }
    lemma_lexemes_between(s, k, k + w, 0);
    if rest.len() > 0 {
        let c = rest[0];
        if w > 0 {
            assert(s[k + w - 1] == here[w - 1]);
        }
        lemma_digit_prefix(rest);
        let n = digit_prefix(rest) as int;
        let used = if is_symbol(c) {
            1
        } else {
            n
        };
        if first_token(rest) is Ok {
            assert forall|j: int| k + w < j < k + w + used implies !starts_lexeme(s, j) by {
                assert(s[j] == rest[j - k - w]);
                assert(s[j - 1] == rest[j - 1 - k - w]);
            }
            lemma_lexemes_between(s, k + w, k + w + used, 1);
            assert(rest.skip(used) == s.skip(k + w + used));
            lemma_tokens_from(s, k + w + used);
        }
    }
}

/// The lexer accepts the text from index `k` on, where no run of digits spans `k`,
/// exactly where it can accept each byte from `k` on.
proof fn lemma_lexable_from(s: Seq<u8>, k: int)
    requires
        0 <= k <= s.len(),
        k == 0 || k == s.len() || !(is_digit(s[k - 1]) && is_digit(s[k])),
    ensures
        lex_spec(s.skip(k)) is Ok <==> forall|i: int| k <= i < s.len() ==> #[trigger] acceptable_at(s, i),
    decreases s.len() - k,
{
    let here = s.skip(k);
    let w = whitespace_prefix(here) as int;
    lemma_whitespace_prefix(here);
    let rest = here.skip(w);
    let at = k + w;
    assert(rest == s.skip(at));
    assert forall|j: int| k <= j < at implies acceptable_at(s, j) by {
        assert(s[j] == here[j - k]);
    }
    if rest.len() > 0 {
        let c = rest[0];
        if w > 0 {
            assert(s[at - 1] == here[w - 1]);
        }
        lemma_digit_prefix(rest);
        let n = digit_prefix(rest) as int;
        let used = if is_symbol(c) {
            1
        } else {
            n
        };
        if first_token(rest) is Ok {
            let next = at + used;
            assert forall|j: int| at < j < next implies acceptable_at(s, j) by {
                assert(s[j] == rest[j - at]);
                assert(s[j - 1] == rest[j - 1 - at]);
            }
            assert(rest.skip(used) == s.skip(next));
            lemma_lexable_from(s, next);
        } else {
            assert(!acceptable_at(s, at));
        }
    }
}

/// Where exactly `count` of the indices from `a` up to `b` start a lexeme, and that many
/// is none or only the first, `lexemes_before` grows by `count` from `a` to `b`.
proof fn lemma_lexemes_between(s: Seq<u8>, a: int, b: int, count: nat)
    requires
        0 <= a <= b <= s.len(),
        count <= 1,
        count == 1 ==> a < b && starts_lexeme(s, a),
        count == 0 ==> a == b || !starts_lexeme(s, a),
        forall|j: int| a < j < b ==> !starts_lexeme(s, j),
    ensures
        lexemes_before(s, b) == lexemes_before(s, a) + count,
    decreases b - a,
{
    if a < b {
        if b - 1 > a {
            lemma_lexemes_between(s, a, b - 1, count);
        }
    }
}

} // verus!
