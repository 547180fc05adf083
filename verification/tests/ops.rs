use infix_calc::error::EvalError;
use infix_calc::op::Op;

#[test]
fn parse_knows_the_four_operators() {
    assert_eq!(Op::parse(b'+'), Some(Op::Plus));
    assert_eq!(Op::parse(b'-'), Some(Op::Minus));
    assert_eq!(Op::parse(b'/'), Some(Op::Div));
    assert_eq!(Op::parse(b'*'), Some(Op::Mul));
}

#[test]
fn parse_refuses_every_other_byte() {
    for b in 0..=255u8 {
        if b != b'+' && b != b'-' && b != b'/' && b != b'*' {
            assert_eq!(Op::parse(b), None);
        }
    }
}

#[test]
fn order_puts_product_above_sum() {
    assert_eq!(Op::Plus.order(), 0);
    assert_eq!(Op::Minus.order(), 0);
    assert_eq!(Op::Mul.order(), 1);
    assert_eq!(Op::Div.order(), 1);
}

#[test]
fn cal_takes_the_top_as_right_hand_side() {
    let mut stack = vec![100, 8, 3];
    Op::Minus.cal(&mut stack);
    assert_eq!(stack, vec![100, 5]);

    let mut stack = vec![100, 8, 3];
    Op::Div.cal(&mut stack);
    assert_eq!(stack, vec![100, 2]);
}

#[test]
fn cal_computes_each_operator() {
    let mut stack = vec![6, 7];
    Op::Plus.cal(&mut stack);
    assert_eq!(stack, vec![13]);

    let mut stack = vec![6, 7];
    Op::Mul.cal(&mut stack);
    assert_eq!(stack, vec![42]);

    let mut stack = vec![6, 7];
    Op::Minus.cal(&mut stack);
    assert_eq!(stack, vec![-1]);

    let mut stack = vec![42, 7];
    Op::Div.cal(&mut stack);
    assert_eq!(stack, vec![6]);
}

#[test]
fn division_rounds_toward_zero() {
    assert_eq!(Op::Div.apply(7, 2), Ok(3));
    assert_eq!(Op::Div.apply(-7, 2), Ok(-3));
    assert_eq!(Op::Div.apply(7, -2), Ok(-3));
    assert_eq!(Op::Div.apply(-7, -2), Ok(3));
    assert_eq!(Op::Div.apply(0, -5), Ok(0));
    assert_eq!(Op::Div.apply(1, 2), Ok(0));
    assert_eq!(Op::Div.apply(-1, 2), Ok(0));
    assert_eq!(Op::Div.apply(i32::MIN, 1), Ok(i32::MIN));
    assert_eq!(Op::Div.apply(i32::MIN, 2), Ok(-1073741824));
    assert_eq!(Op::Div.apply(i32::MAX, -1), Ok(-2147483647));
}

#[test]
fn apply_reports_division_by_zero() {
    assert_eq!(Op::Div.apply(1, 0), Err(EvalError::DivisionByZero));
    assert_eq!(Op::Div.apply(0, 0), Err(EvalError::DivisionByZero));
    assert_eq!(Op::Div.apply(i32::MIN, 0), Err(EvalError::DivisionByZero));
}

#[test]
fn apply_reports_overflow() {
    assert_eq!(Op::Plus.apply(i32::MAX, 1), Err(EvalError::Overflow));
    assert_eq!(Op::Plus.apply(i32::MIN, -1), Err(EvalError::Overflow));
    assert_eq!(Op::Minus.apply(i32::MIN, 1), Err(EvalError::Overflow));
    assert_eq!(Op::Minus.apply(0, i32::MIN), Err(EvalError::Overflow));
    assert_eq!(Op::Mul.apply(65536, 32768), Err(EvalError::Overflow));
    assert_eq!(Op::Mul.apply(i32::MIN, -1), Err(EvalError::Overflow));
    assert_eq!(Op::Div.apply(i32::MIN, -1), Err(EvalError::Overflow));
}

#[test]
fn apply_reaches_the_ends_of_the_range() {
    assert_eq!(Op::Plus.apply(i32::MAX - 1, 1), Ok(i32::MAX));
    assert_eq!(Op::Minus.apply(i32::MIN + 1, 1), Ok(i32::MIN));
    assert_eq!(Op::Mul.apply(65536, -32768), Ok(i32::MIN));
    assert_eq!(Op::Mul.apply(46340, 46340), Ok(2147395600));
}

#[test]
fn checked_cal_replaces_two_operands() {
    let mut stack = vec![1, 2, 3];
    assert_eq!(Op::Mul.checked_cal(&mut stack), Ok(()));
    assert_eq!(stack, vec![1, 6]);
}

#[test]
fn checked_cal_needs_two_operands() {
    let mut stack: Vec<i32> = Vec::new();
    assert_eq!(Op::Plus.checked_cal(&mut stack), Err(EvalError::MalformedExpression));
    assert_eq!(stack, Vec::<i32>::new());

    let mut stack = vec![5];
    assert_eq!(Op::Plus.checked_cal(&mut stack), Err(EvalError::MalformedExpression));
    assert_eq!(stack, vec![5]);
}

#[test]
fn checked_cal_leaves_the_stack_on_failure() {
    let mut stack = vec![9, 4, 0];
    assert_eq!(Op::Div.checked_cal(&mut stack), Err(EvalError::DivisionByZero));
    assert_eq!(stack, vec![9, 4, 0]);

    let mut stack = vec![9, i32::MAX, 1];
    assert_eq!(Op::Plus.checked_cal(&mut stack), Err(EvalError::Overflow));
    assert_eq!(stack, vec![9, i32::MAX, 1]);
}
