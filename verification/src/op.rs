//! The four binary operators: how they are written, how tightly they bind, and what they compute.

use vstd::prelude::*;
use crate::error::EvalError;

verus! {

/// A binary arithmetic operator.
#[derive(Clone, Copy, Debug, PartialEq, Eq, Structural)]
pub enum Op {
    Plus,
    Minus,
    Div,
    Mul,
}

/// The byte `+`.
pub const PLUS: u8 = 0x2b;

/// The byte `-`.
pub const MINUS: u8 = 0x2d;

/// The byte `/`.
pub const SLASH: u8 = 0x2f;

/// The byte `*`.
pub const STAR: u8 = 0x2a;

/// The absolute value of `x`.
pub open spec fn magnitude(x: int) -> int {
    if x < 0 {
        -x
    } else {
        x
    }
}

/// The quotient of `a` by `b` rounded toward zero: its magnitude is the whole part of
/// `|a| / |b|`, and it is negative exactly when `a` and `b` have opposite signs.
pub open spec fn div_toward_zero(a: int, b: int) -> int
    recommends
        b != 0,
{
    let q = magnitude(a) / magnitude(b);
    if (a < 0) != (b < 0) {
        -q
    } else {
        q
    }
}

/// Whether `x` is the value of some `i32`.
pub open spec fn fits_i32(x: int) -> bool {
    i32::MIN <= x <= i32::MAX
}

impl Op {
    /// The operator that the byte `b` denotes, if any.
    pub open spec fn from_byte(b: u8) -> Option<Op> {
        if b == PLUS {
            Some(Op::Plus)
        } else if b == MINUS {
            Some(Op::Minus)
        } else if b == SLASH {
            Some(Op::Div)
        } else if b == STAR {
            Some(Op::Mul)
        } else {
            None
        }
    }

    /// The precedence class: a larger class binds tighter.
    pub open spec fn precedence(self) -> nat {
        match self {
            Op::Plus | Op::Minus => 0,
            Op::Mul | Op::Div => 1,
        }
    }

    /// The mathematical value of `lhs <op> rhs`; a division rounds toward zero.
    pub open spec fn value(self, lhs: int, rhs: int) -> int
        recommends
            !(self == Op::Div && rhs == 0),
    {
        match self {
            Op::Plus => lhs + rhs,
            Op::Minus => lhs - rhs,
            Op::Mul => lhs * rhs,
            Op::Div => div_toward_zero(lhs, rhs),
        }
    }

    /// What applying the operator to two machine integers gives: the value where it is
    /// defined and fits, and otherwise the reason why there is none.
    pub open spec fn outcome(self, lhs: i32, rhs: i32) -> Result<i32, EvalError> {
        if self == Op::Div && rhs == 0 {
            Err(EvalError::DivisionByZero)
        } else if !fits_i32(self.value(lhs as int, rhs as int)) {
            Err(EvalError::Overflow)
        } else {
            Ok(self.value(lhs as int, rhs as int) as i32)
        }
    }

    /// What applying the operator does to an operand stack whose top is its last element:
    /// the two topmost operands are replaced by the result.
    pub open spec fn on_stack(self, stack: Seq<i32>) -> Result<Seq<i32>, EvalError> {
        if stack.len() < 2 {
            Err(EvalError::MalformedExpression)
        } else {
            match self.outcome(stack[stack.len() - 2], stack[stack.len() - 1]) {
                Ok(v) => Ok(stack.take(stack.len() - 2).push(v)),
                Err(e) => Err(e),
            }
        }
    }

    /// Classifies a byte: `+`, `-`, `/` and `*` are operators, no other byte is.
    pub fn parse(b: u8) -> (r: Option<Op>)
        ensures
            r == Op::from_byte(b),
    {
        if b == PLUS {
            Some(Op::Plus)
        } else if b == MINUS {
            Some(Op::Minus)
        } else if b == SLASH {
            Some(Op::Div)
        } else if b == STAR {
            Some(Op::Mul)
        } else {
            None
        }
    }

    /// The precedence class of the operator.
    pub fn order(&self) -> (r: usize)
        ensures
            r == self.precedence(),
    {
        match self {
            Op::Plus | Op::Minus => 0,
            Op::Mul | Op::Div => 1,
        }
    }

    /// Computes `lhs <op> rhs`, or says why it has no value: the divisor is zero, or the
    /// result is out of the range of `i32`.
    pub fn apply(&self, lhs: i32, rhs: i32) -> (r: Result<i32, EvalError>)
        ensures
            r == self.outcome(lhs, rhs),
    {
        let value = match self {
            Op::Plus => lhs.checked_add(rhs),
            Op::Minus => lhs.checked_sub(rhs),
            Op::Mul => lhs.checked_mul(rhs),
            Op::Div => {
                if rhs == 0 {
                    return Err(EvalError::DivisionByZero);
                }
                proof {
                    lemma_quotient_bound(lhs as int, rhs as int);
                }
                lhs.checked_div(rhs)
            },
        };
        match value {
            Some(v) => Ok(v),
            None => Err(EvalError::Overflow),
        }
    }

    /// Replaces the two topmost operands of `stack` by the result of the operation; the
    /// topmost operand is the right-hand side.
    pub fn cal(&self, stack: &mut Vec<i32>)
        requires
            self.on_stack(old(stack)@) is Ok,
        ensures
            Ok::<Seq<i32>, EvalError>(final(stack)@) == self.on_stack(old(stack)@),
    {
        let rhs: i32 = stack.pop().unwrap();
        let lhs: i32 = stack.pop().unwrap();
        assert(stack@ == old(stack)@.take(old(stack)@.len() - 2));
        let ret: i32 = match self {
            Op::Plus => lhs + rhs,
            Op::Minus => lhs - rhs,
            Op::Mul => lhs * rhs,
            Op::Div => {
                proof {
                    lemma_machine_division(lhs as int, rhs as int);
                }
                lhs / rhs
            },
        };
        stack.push(ret);
    }

    /// Like [`Op::cal`], for any stack: where the operation cannot be done, says why and
    /// leaves `stack` as it was.
    pub fn checked_cal(&self, stack: &mut Vec<i32>) -> (r: Result<(), EvalError>)
        ensures
            match r {
                Ok(_) => Ok::<Seq<i32>, EvalError>(final(stack)@) == self.on_stack(old(stack)@),
                Err(e) => Err::<Seq<i32>, EvalError>(e) == self.on_stack(old(stack)@)
                    && final(stack)@ == old(stack)@,
            },
    {
        let n: usize = stack.len();
        if n < 2 {
            return Err(EvalError::MalformedExpression);
        }
        match self.apply(stack[n - 2], stack[n - 1]) {
            Ok(v) => {
                stack.truncate(n - 2);
                stack.push(v);
                Ok(())
            },
            Err(e) => Err(e),
        }
    }
}

/// The division of `i32`, as the verifier states it over the division of `int`, gives the
/// quotient rounded toward zero.
proof fn lemma_machine_division(a: int, b: int)
    requires
        b != 0,
    ensures
        (if a >= 0 {
            a / b
        } else {
            -((-a) / b)
        }) == div_toward_zero(a, b),
{
    if b < 0 {
        lemma_div_by_negative(magnitude(a), -b);
    }
}

/// A quotient rounded toward zero is no larger in magnitude than the dividend, and the
/// case analysis by which the standard library states it agrees with `div_toward_zero`.
proof fn lemma_quotient_bound(a: int, b: int)
    requires
        b != 0,
    ensures
        magnitude(div_toward_zero(a, b)) <= magnitude(a),
        magnitude(b) > 1 && a != 0 ==> magnitude(div_toward_zero(a, b)) < magnitude(a),
        a > 0 && b > 0 ==> div_toward_zero(a, b) == a / b,
        a < 0 && b < 0 ==> div_toward_zero(a, b) == (a * -1) / (b * -1),
        a < 0 && b > 0 ==> div_toward_zero(a, b) == ((a * -1) / b) * -1,
        a > 0 && b < 0 ==> div_toward_zero(a, b) == (a / (b * -1)) * -1,
        a == 0 ==> div_toward_zero(a, b) == 0,
{
    let x = magnitude(a);
    let d = magnitude(b);
    assert(0 <= x / d <= x && (d > 1 && x > 0 ==> x / d < x)) by (nonlinear_arith)
        requires
            x >= 0,
            d > 0,
    ;
}

/// Dividing a natural number by `-d` gives the negated quotient by `d`.
proof fn lemma_div_by_negative(x: int, d: int)
    by (nonlinear_arith)
    requires
        x >= 0,
        d > 0,
    ensures
        x / (-d) == -(x / d),
{
}

} // verus!
