//! The lexer: from bytes to tokens.

use vstd::prelude::*;
use crate::error::ParseError;
use crate::op::Op;

verus! {

/// The byte `(`.
pub const LEFT_PAREN: u8 = 0x28;

/// The byte `)`.
pub const RIGHT_PAREN: u8 = 0x29;

/// The byte `0`.
pub const ZERO: u8 = 0x30;

/// One lexical unit of an infix expression.
#[derive(Clone, Copy, Debug, PartialEq, Eq, Structural)]
pub enum Token {
    Int(i32),
    Op(Op),
    Lp,
    Rp,
}

/// ASCII whitespace: space, tab, line feed, form feed and carriage return.
pub open spec fn is_whitespace(b: u8) -> bool {
    b == 0x20 || b == 0x09 || b == 0x0a || b == 0x0c || b == 0x0d
}

/// The ASCII decimal digits.
pub open spec fn is_digit(b: u8) -> bool {
    0x30 <= b <= 0x39
}

/// The number of whitespace bytes that `s` begins with.
pub open spec fn whitespace_prefix(s: Seq<u8>) -> nat
    decreases s.len(),
{
    if s.len() > 0 && is_whitespace(s[0]) {
        1 + whitespace_prefix(s.skip(1))
    } else {
        0
    }
}

/// The number of digits that `s` begins with.
pub open spec fn digit_prefix(s: Seq<u8>) -> nat
    decreases s.len(),
{
    if s.len() > 0 && is_digit(s[0]) {
        1 + digit_prefix(s.skip(1))
    } else {
        0
    }
}

/// The number that a sequence of digits denotes in base ten; the empty sequence denotes 0.
pub open spec fn decimal_value(digits: Seq<u8>) -> int
    decreases digits.len(),
{
    if digits.len() == 0 {
        0
    } else {
        10 * decimal_value(digits.drop_last()) + (digits.last() - ZERO)
    }
}

/// The integer literal that `s` begins with, and its length. There is none where `s` does
/// not begin with a digit, or where the whole run of digits denotes more than `i32::MAX`.
pub open spec fn leading_int(s: Seq<u8>) -> Result<(i32, nat), ParseError> {
    let n = digit_prefix(s);
    let v = decimal_value(s.take(n as int));
    if n == 0 {
        Err(ParseError::UnexpectedCharacter)
    } else if v > i32::MAX {
        Err(ParseError::LiteralTooLarge)
    } else {
        Ok((v as i32, n))
    }
}

/// The token that `s` begins with, and its length, for an `s` that begins with a byte
/// other than whitespace.
pub open spec fn first_token(s: Seq<u8>) -> Result<(Token, nat), ParseError>
    recommends
        s.len() > 0,
        !is_whitespace(s[0]),
{
    if s[0] == LEFT_PAREN {
        Ok((Token::Lp, 1))
    } else if s[0] == RIGHT_PAREN {
        Ok((Token::Rp, 1))
    } else {
        match Op::from_byte(s[0]) {
            Some(op) => Ok((Token::Op(op), 1)),
            None => match leading_int(s) {
                Ok((v, n)) => Ok((Token::Int(v), n)),
                Err(e) => Err(e),
            },
        }
    }
}

/// The tokens of `s`, in the order of the text. They are found from the left: whitespace
/// is passed over, then one token is taken, and so on to the end. Where what follows is no
/// token, there are no tokens at all, and the reason is that of the first such place.
pub open spec fn lex_spec(s: Seq<u8>) -> Result<Seq<Token>, ParseError>
    decreases s.len(),
{
    let rest = s.skip(whitespace_prefix(s) as int);
    if rest.len() == 0 {
        Ok(Seq::empty())
    } else {
        match first_token(rest) {
            Err(e) => Err(e),
            Ok((token, used)) => {
                proof {
                    lemma_whitespace_prefix(s);
                    lemma_digit_prefix(rest);
                }
                match lex_spec(rest.skip(used as int)) {
                    Err(e) => Err(e),
                    Ok(tail) => Ok(seq![token] + tail),
                }
            },
        }
    }
}

/// What `parse_decimal` makes of `digits`: their value, where there is at least one byte,
/// every byte is a digit, and the value is at most `i32::MAX`.
pub open spec fn decimal_i32(digits: Seq<u8>) -> Option<i32> {
    if digits.len() > 0 && (forall|i: int| 0 <= i < digits.len() ==> is_digit(#[trigger] digits[i]))
        && decimal_value(digits) <= i32::MAX {
        Some(decimal_value(digits) as i32)
    } else {
        None
    }
}

/// The tokens `head` and then those of `tail`, where there is a `tail`.
spec fn joined(head: Seq<Token>, tail: Result<Seq<Token>, ParseError>) -> Result<
    Seq<Token>,
    ParseError,
> {
    match tail {
        Ok(t) => Ok(head + t),
        Err(e) => Err(e),
    }
}

/// Whether `b` is ASCII whitespace.
pub fn is_ascii_space(b: u8) -> (r: bool)
    ensures
        r == is_whitespace(b),
{
    b == 0x20 || b == 0x09 || b == 0x0a || b == 0x0c || b == 0x0d
}

/// Whether `b` is an ASCII decimal digit.
pub fn is_ascii_digit(b: u8) -> (r: bool)
    ensures
        r == is_digit(b),
{
    0x30 <= b && b <= 0x39
}

/// The number of whitespace bytes at the start of `input`.
pub fn skip_ws(input: &[u8]) -> (cur: usize)
    ensures
        cur == whitespace_prefix(input@),
{
    let mut cur: usize = 0;
    assert(input@.skip(0) == input@);
    while input.len() > cur && is_ascii_space(input[cur])
        invariant
            cur <= input@.len(),
            whitespace_prefix(input@) == cur + whitespace_prefix(input@.skip(cur as int)),
        decreases input@.len() - cur,
    {
        assert(input@.skip(cur as int).skip(1) == input@.skip(cur + 1));
        cur += 1;
    }
    cur
}

/// The number of digits at the start of `input`.
pub fn count_digits(input: &[u8]) -> (cur: usize)
    ensures
        cur == digit_prefix(input@),
{
    let mut cur: usize = 0;
    assert(input@.skip(0) == input@);
    while input.len() > cur && is_ascii_digit(input[cur])
        invariant
            cur <= input@.len(),
            digit_prefix(input@) == cur + digit_prefix(input@.skip(cur as int)),
        decreases input@.len() - cur,
    {
        assert(input@.skip(cur as int).skip(1) == input@.skip(cur + 1));
        cur += 1;
    }
    cur
}

/// Reads `digits` as a number in base ten. There is no result where `digits` is empty,
/// holds a byte that is no digit, or denotes more than `i32::MAX`.
pub fn parse_decimal(digits: &[u8]) -> (r: Option<i32>)
    ensures
        r == decimal_i32(digits@),
{
    if digits.len() == 0 {
        return None;
    }
    let mut value: i32 = 0;
    let mut i: usize = 0;
    while i < digits.len()
        invariant
            i <= digits@.len(),
            forall|j: int| 0 <= j < i ==> is_digit(#[trigger] digits@[j]),
            value == decimal_value(digits@.take(i as int)),
        decreases digits@.len() - i,
    {
        let b: u8 = digits[i];
        if !is_ascii_digit(b) {
            return None;
        }
        assert(digits@.take(i + 1).drop_last() == digits@.take(i as int));
        proof {
            if forall|j: int| 0 <= j < digits@.len() ==> is_digit(#[trigger] digits@[j]) {
                lemma_decimal_value_grows(digits@, i + 1);
            }
        }
        let digit: i32 = (b - ZERO) as i32;
        value = match value.checked_mul(10) {
            Some(tens) => match tens.checked_add(digit) {
                Some(v) => v,
                None => { return None; },
            },
            None => { return None; },
        };
        i += 1;
    }
    assert(digits@.take(i as int) == digits@);
    Some(value)
}

/// Reads the integer literal at the start of `input`: its value and its length.
pub fn read_int(input: &[u8]) -> (r: (i32, usize))
    requires
        leading_int(input@) is Ok,
    ensures
        Ok::<(i32, nat), ParseError>((r.0, r.1 as nat)) == leading_int(input@),
{
    let cur: usize = count_digits(input);
    proof {
        lemma_digit_prefix(input@);
    }
    (parse_decimal(&input[0..cur]).unwrap(), cur)
}

/// Like [`read_int`], for any input: where `input` does not begin with a literal that
/// fits, says why.
pub fn checked_read_int(input: &[u8]) -> (r: Result<(i32, usize), ParseError>)
    ensures
        match r {
            Ok((v, n)) => Ok::<(i32, nat), ParseError>((v, n as nat)) == leading_int(input@),
            Err(e) => Err::<(i32, nat), ParseError>(e) == leading_int(input@),
        },
{
    let cur: usize = count_digits(input);
    proof {
        lemma_digit_prefix(input@);
    }
    if cur == 0 {
        return Err(ParseError::UnexpectedCharacter);
    }
    match parse_decimal(&input[0..cur]) {
        Some(v) => Ok((v, cur)),
        None => Err(ParseError::LiteralTooLarge),
    }
}

/// Splits `input` into tokens: parentheses, operators and integer literals, with any
/// whitespace between them left out.
pub fn lex(input: &[u8]) -> (ret: Vec<Token>)
    requires
        lex_spec(input@) is Ok,
    ensures
        Ok::<Seq<Token>, ParseError>(ret@) == lex_spec(input@),
{
    let mut ret: Vec<Token> = Vec::new();
    let mut cur: usize = 0;
    assert(input@.skip(0) == input@);
    while input.len() > cur
        invariant
            cur <= input@.len(),
            lex_spec(input@) is Ok,
            lex_spec(input@) == joined(ret@, lex_spec(input@.skip(cur as int))),
        decreases input@.len() - cur,
    {
        let ghost here = input@.skip(cur as int);
        proof {
            lemma_whitespace_prefix(here);
        }
        cur += skip_ws(&input[cur..input.len()]);
        let ghost rest = input@.skip(cur as int);
        assert(rest == here.skip(whitespace_prefix(here) as int));
        if input.len() > cur {
            proof {
                lemma_digit_prefix(rest);
            }
            let c: u8 = input[cur];
            let ghost start = cur;
            let token = if c == LEFT_PAREN {
                cur += 1;
                Token::Lp
            } else if c == RIGHT_PAREN {
                cur += 1;
                Token::Rp
            } else {
                match Op::parse(c) {
                    Some(op) => {
                        cur += 1;
                        Token::Op(op)
                    },
                    None => {
                        let (num, read) = read_int(&input[cur..input.len()]);
                        cur += read;
                        Token::Int(num)
                    },
                }
            };
            assert(input@.skip(cur as int) == rest.skip(cur - start));
            let ghost tail = lex_spec(input@.skip(cur as int))->Ok_0;
            assert(ret@ + (seq![token] + tail) == ret@.push(token) + tail);
            ret.push(token);
        }
    }
    ret
}

/// Like [`lex`], for any input: where some run of bytes is no token, says why.
pub fn checked_lex(input: &[u8]) -> (r: Result<Vec<Token>, ParseError>)
    ensures
        match r {
            Ok(ret) => Ok::<Seq<Token>, ParseError>(ret@) == lex_spec(input@),
            Err(e) => Err::<Seq<Token>, ParseError>(e) == lex_spec(input@),
        },
{
    let mut ret: Vec<Token> = Vec::new();
    let mut cur: usize = 0;
    assert(input@.skip(0) == input@);
    while input.len() > cur
        invariant
            cur <= input@.len(),
            lex_spec(input@) == joined(ret@, lex_spec(input@.skip(cur as int))),
        decreases input@.len() - cur,
    {
        let ghost here = input@.skip(cur as int);
        proof {
            lemma_whitespace_prefix(here);
        }
        cur += skip_ws(&input[cur..input.len()]);
        let ghost rest = input@.skip(cur as int);
        assert(rest == here.skip(whitespace_prefix(here) as int));
        if input.len() > cur {
            proof {
                lemma_digit_prefix(rest);
            }
            let c: u8 = input[cur];
            let ghost start = cur;
            let token = if c == LEFT_PAREN {
                cur += 1;
                Token::Lp
            } else if c == RIGHT_PAREN {
                cur += 1;
                Token::Rp
            } else {
                match Op::parse(c) {
                    Some(op) => {
                        cur += 1;
                        Token::Op(op)
                    },
                    None => match checked_read_int(&input[cur..input.len()]) {
                        Ok((num, read)) => {
                            cur += read;
                            Token::Int(num)
                        },
                        Err(e) => {
                            return Err(e);
                        },
                    },
                }
            };
            assert(input@.skip(cur as int) == rest.skip(cur - start));
            assert(lex_spec(input@.skip(cur as int)) matches Ok(tail) ==> ret@ + (seq![token] + tail)
                == ret@.push(token) + tail);
            ret.push(token);
        }
    }
    Ok(ret)
}

/// The value of a sequence of digits is at least that of each of its prefixes.
pub proof fn lemma_decimal_value_grows(digits: Seq<u8>, n: int)
    requires
        0 <= n <= digits.len(),
        forall|i: int| 0 <= i < digits.len() ==> is_digit(#[trigger] digits[i]),
    ensures
        0 <= decimal_value(digits.take(n)) <= decimal_value(digits),
    decreases digits.len(),
{
    if n == digits.len() {
        assert(digits.take(n) == digits);
        if n > 0 {
            lemma_decimal_value_grows(digits.drop_last(), n - 1);
        }
    } else {
        lemma_decimal_value_grows(digits.drop_last(), n);
        assert(digits.drop_last().take(n) == digits.take(n));
    }
}

/// `whitespace_prefix(s)` is the length of the longest prefix of `s` made of whitespace.
pub proof fn lemma_whitespace_prefix(s: Seq<u8>)
    ensures
        whitespace_prefix(s) <= s.len(),
        forall|i: int| 0 <= i < whitespace_prefix(s) ==> is_whitespace(#[trigger] s[i]),
        whitespace_prefix(s) < s.len() ==> !is_whitespace(s[whitespace_prefix(s) as int]),
    decreases s.len(),
{
    if s.len() > 0 && is_whitespace(s[0]) {
        lemma_whitespace_prefix(s.skip(1));
        assert forall|i: int| 0 <= i < whitespace_prefix(s) implies is_whitespace(
            #[trigger] s[i],
        ) by {
            if i > 0 {
                assert(s[i] == s.skip(1)[i - 1]);
            }
        }
    }
}

/// `digit_prefix(s)` is the length of the longest prefix of `s` made of digits.
pub proof fn lemma_digit_prefix(s: Seq<u8>)
    ensures
        digit_prefix(s) <= s.len(),
        forall|i: int| 0 <= i < digit_prefix(s) ==> is_digit(#[trigger] s[i]),
        digit_prefix(s) < s.len() ==> !is_digit(s[digit_prefix(s) as int]),
    decreases s.len(),
{
    if s.len() > 0 && is_digit(s[0]) {
        lemma_digit_prefix(s.skip(1));
        assert forall|i: int| 0 <= i < digit_prefix(s) implies is_digit(#[trigger] s[i]) by {
            if i > 0 {
                assert(s[i] == s.skip(1)[i - 1]);
            }
        }
    }
}

} // verus!
