use infix_calc::error::{EvalError, ExprError, ParseError};
use infix_calc::eval::checked_eval;
use infix_calc::evaluate_expression;
use infix_calc::lexer::checked_lex;
use infix_calc::postfix::checked_to_post_fix;

#[test]
fn precedence() {
    assert_eq!(evaluate_expression("2 + 3 * 4"), Ok(14));
    assert_ne!(evaluate_expression("2 + 3 * 4"), Ok(20));
}

#[test]
fn grouping_overrides_precedence() {
    assert_eq!(evaluate_expression("(2 + 3) * 4"), Ok(20));
}

#[test]
fn nesting() {
    assert_eq!(evaluate_expression("2 + 1 * (1 * 2 + 1)"), Ok(5));
}

#[test]
fn equal_precedence_groups_to_the_right() {
    // 8 3 2 - - : the later subtraction is done first, so this is 8 - (3 - 2), not the
    // 3 that grouping to the left would give.
    assert_eq!(evaluate_expression("8 - 3 - 2"), Ok(7));
    assert_eq!(evaluate_expression("(8 - 3) - 2"), Ok(3));
    assert_eq!(evaluate_expression("1 - 2 + 3"), Ok(0));
    assert_eq!(evaluate_expression("100 / 10 / 5"), Ok(50));
}

#[test]
fn a_product_takes_the_sum_that_follows_it() {
    // 2 3 4 * + : within a frame the products come out before the sums, in the order in
    // which they were written.
    assert_eq!(evaluate_expression("2 * 3 + 4"), Ok(14));
    assert_eq!(evaluate_expression("(2 * 3) + 4"), Ok(10));
}

#[test]
fn division_truncation() {
    assert_eq!(evaluate_expression("7 / 2"), Ok(3));
    assert_eq!(evaluate_expression("(0 - 7) / 2"), Ok(-3));
    assert_eq!(evaluate_expression("7 / (0 - 2)"), Ok(-3));
    assert_eq!(evaluate_expression("(0 - 7) / (0 - 2)"), Ok(3));
}

#[test]
fn a_single_integer_is_its_value() {
    assert_eq!(evaluate_expression("42"), Ok(42));
    assert_eq!(evaluate_expression("  ((42))  "), Ok(42));
    assert_eq!(evaluate_expression("2147483647"), Ok(i32::MAX));
}

#[test]
fn the_same_text_gives_the_same_run() {
    let text = "2 + 1 * (1 * 2 + 1)";
    let tokens_a = checked_lex(text.as_bytes()).unwrap();
    let tokens_b = checked_lex(text.as_bytes()).unwrap();
    assert_eq!(tokens_a, tokens_b);
    let terms_a = checked_to_post_fix(&tokens_a).unwrap();
    let terms_b = checked_to_post_fix(&tokens_b).unwrap();
    assert_eq!(terms_a, terms_b);
    assert_eq!(checked_eval(&terms_a), checked_eval(&terms_b));
    assert_eq!(evaluate_expression(text), evaluate_expression(text));
    assert_eq!(evaluate_expression(text), Ok(checked_eval(&terms_a).unwrap()));
}

#[test]
fn the_same_bad_text_gives_the_same_refusal() {
    for text in ["1 +", ")", "1 / 0", "2 $ 3"] {
        assert_eq!(evaluate_expression(text), evaluate_expression(text));
        assert!(evaluate_expression(text).is_err());
    }
}

#[test]
fn unmatched_right_parenthesis_is_refused() {
    assert_eq!(
        evaluate_expression(")"),
        Err(ExprError::Parse(ParseError::UnbalancedParentheses))
    );
    assert_eq!(
        evaluate_expression("(1 + 2))"),
        Err(ExprError::Parse(ParseError::UnbalancedParentheses))
    );
    assert_eq!(
        evaluate_expression("1 + 2) * 3"),
        Err(ExprError::Parse(ParseError::UnbalancedParentheses))
    );
}

#[test]
fn trailing_operator_is_refused() {
    assert_eq!(
        evaluate_expression("1 +"),
        Err(ExprError::Eval(EvalError::MalformedExpression))
    );
    assert_eq!(
        evaluate_expression("2 * (3 + 4) -"),
        Err(ExprError::Eval(EvalError::MalformedExpression))
    );
    assert_eq!(
        evaluate_expression("(1 +"),
        Err(ExprError::Eval(EvalError::MalformedExpression))
    );
}

#[test]
fn division_by_zero_is_refused() {
    assert_eq!(
        evaluate_expression("1 / 0"),
        Err(ExprError::Eval(EvalError::DivisionByZero))
    );
    assert_eq!(
        evaluate_expression("4 / (2 - 2)"),
        Err(ExprError::Eval(EvalError::DivisionByZero))
    );
    assert_eq!(
        evaluate_expression("0 / 0"),
        Err(ExprError::Eval(EvalError::DivisionByZero))
    );
}

#[test]
fn unknown_character_is_refused() {
    assert_eq!(
        evaluate_expression("2 ^ 3"),
        Err(ExprError::Parse(ParseError::UnexpectedCharacter))
    );
    assert_eq!(
        evaluate_expression("1.5 + 1"),
        Err(ExprError::Parse(ParseError::UnexpectedCharacter))
    );
    assert_eq!(
        evaluate_expression("two"),
        Err(ExprError::Parse(ParseError::UnexpectedCharacter))
    );
    assert_eq!(
        evaluate_expression("1 + é"),
        Err(ExprError::Parse(ParseError::UnexpectedCharacter))
    );
}

#[test]
fn literal_out_of_range_is_refused() {
    assert_eq!(
        evaluate_expression("2147483648"),
        Err(ExprError::Parse(ParseError::LiteralTooLarge))
    );
}

#[test]
fn result_out_of_range_is_refused() {
    assert_eq!(
        evaluate_expression("2147483647 + 1"),
        Err(ExprError::Eval(EvalError::Overflow))
    );
    assert_eq!(
        evaluate_expression("65536 * 65536"),
        Err(ExprError::Eval(EvalError::Overflow))
    );
    assert_eq!(
        evaluate_expression("((0 - 2147483647) - 1) / (0 - 1)"),
        Err(ExprError::Eval(EvalError::Overflow))
    );
}

#[test]
fn empty_text_has_no_value() {
    assert_eq!(
        evaluate_expression(""),
        Err(ExprError::Eval(EvalError::MalformedExpression))
    );
    assert_eq!(
        evaluate_expression("   "),
        Err(ExprError::Eval(EvalError::MalformedExpression))
    );
    assert_eq!(
        evaluate_expression("()"),
        Err(ExprError::Eval(EvalError::MalformedExpression))
    );
}

#[test]
fn unmatched_left_parenthesis_is_closed_at_the_end() {
    assert_eq!(evaluate_expression("1 + (2 * 3"), Ok(7));
    assert_eq!(evaluate_expression("((5"), Ok(5));
}

#[test]
fn stray_operands_stay_beneath_the_result() {
    assert_eq!(evaluate_expression("1 2"), Ok(2));
    assert_eq!(evaluate_expression("1 2 +"), Ok(3));
}

#[test]
fn without_parentheses_the_last_integers_meet_first() {
    // 1 2 3 4 5 * / - + : 4 * 5, then 3 / 20, then 2 - 0, then 1 + 2
    assert_eq!(evaluate_expression("1 - 2 * 3 + 4 / 5"), Ok(3));
}

#[test]
fn well_formed_expressions_have_a_value() {
    let cases = [
        ("1", 1),
        ("(1)", 1),
        ("1 + 2", 3),
        ("(1 + 2) * (3 + 4)", 21),
        // 1 2 + 3 4 * - 5 / : 3 - 3 * 4, then -9 / 5
        ("((1 + 2) * 3 - 4) / 5", -1),
        // 7 1 - 2 30 4 / + 5 * - : 6 - 9 * 5
        ("(7 - 1) * (2 + 30 / 4) - 5", -39),
        ("10 - (2 + 3)", 5),
    ];
    for (text, value) in cases {
        assert_eq!(evaluate_expression(text), Ok(value));
    }
}

#[test]
fn well_formed_expressions_fail_only_in_arithmetic() {
    assert_eq!(
        evaluate_expression("(1 + 2) / (3 - 3)"),
        Err(ExprError::Eval(EvalError::DivisionByZero))
    );
    assert_eq!(
        evaluate_expression("(46341 * 46341) - 1"),
        Err(ExprError::Eval(EvalError::Overflow))
    );
}
