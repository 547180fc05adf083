use infix_calc::error::ParseError;
use infix_calc::lexer::{
    checked_lex, checked_read_int, count_digits, is_ascii_digit, is_ascii_space, lex,
    parse_decimal, read_int, skip_ws, Token,
};
use infix_calc::op::Op;

#[test]
fn whitespace_is_the_five_ascii_bytes() {
    for b in 0..=255u8 {
        let expected = b == b' ' || b == b'\t' || b == b'\n' || b == 0x0c || b == b'\r';
        assert_eq!(is_ascii_space(b), expected);
        assert_eq!(is_ascii_space(b), b.is_ascii_whitespace());
    }
}

#[test]
fn digits_are_zero_to_nine() {
    for b in 0..=255u8 {
        assert_eq!(is_ascii_digit(b), b.is_ascii_digit());
    }
}

#[test]
fn skip_ws_counts_leading_whitespace() {
    assert_eq!(skip_ws(b""), 0);
    assert_eq!(skip_ws(b"1 "), 0);
    assert_eq!(skip_ws(b" \t\n\x0c\r1 "), 5);
    assert_eq!(skip_ws(b"   "), 3);
}

#[test]
fn skip_ws_stops_at_a_vertical_tab() {
    assert_eq!(skip_ws(b"\x0b"), 0);
    assert_eq!(skip_ws(b" \x0b "), 1);
}

#[test]
fn count_digits_counts_the_leading_run() {
    assert_eq!(count_digits(b""), 0);
    assert_eq!(count_digits(b"+1"), 0);
    assert_eq!(count_digits(b"123+45"), 3);
    assert_eq!(count_digits(b"0099"), 4);
}

#[test]
fn parse_decimal_reads_base_ten() {
    assert_eq!(parse_decimal(b"0"), Some(0));
    assert_eq!(parse_decimal(b"7"), Some(7));
    assert_eq!(parse_decimal(b"007"), Some(7));
    assert_eq!(parse_decimal(b"1234567890"), Some(1234567890));
    assert_eq!(parse_decimal(b"2147483647"), Some(i32::MAX));
    assert_eq!(parse_decimal(b"00000000002147483647"), Some(i32::MAX));
}

#[test]
fn parse_decimal_refuses_what_is_no_number() {
    assert_eq!(parse_decimal(b""), None);
    assert_eq!(parse_decimal(b"12a"), None);
    assert_eq!(parse_decimal(b"-1"), None);
    assert_eq!(parse_decimal(b"+1"), None);
    assert_eq!(parse_decimal(b" 1"), None);
}

#[test]
fn parse_decimal_refuses_what_does_not_fit() {
    assert_eq!(parse_decimal(b"2147483648"), None);
    assert_eq!(parse_decimal(b"2147483650"), None);
    assert_eq!(parse_decimal(b"3000000000"), None);
    assert_eq!(parse_decimal(b"99999999999999999999"), None);
}

#[test]
fn parse_decimal_agrees_with_the_standard_parser() {
    let mut texts: Vec<String> = Vec::new();
    for n in 0..2000i64 {
        texts.push(format!("{}", n));
        texts.push(format!("{:07}", n));
        texts.push(format!("{}", 2147482648 + n));
        texts.push(format!("000{}", 2147482648 + n));
        texts.push(format!("{}", n * 1000003));
        texts.push(format!("{}", n * 1000000007));
    }
    for text in texts {
        let expected: Option<i32> = text.parse().ok();
        assert_eq!(parse_decimal(text.as_bytes()), expected);
    }
}

#[test]
fn read_int_reads_value_and_length() {
    assert_eq!(read_int(b"123+4"), (123, 3));
    assert_eq!(read_int(b"5"), (5, 1));
    assert_eq!(read_int(b"042 "), (42, 3));
    assert_eq!(read_int(b"2147483647)"), (i32::MAX, 10));
}

#[test]
fn checked_read_int_agrees_with_read_int() {
    assert_eq!(checked_read_int(b"123+4"), Ok((123, 3)));
    assert_eq!(checked_read_int(b"042 "), Ok((42, 3)));
}

#[test]
fn checked_read_int_reports_a_missing_digit() {
    assert_eq!(checked_read_int(b""), Err(ParseError::UnexpectedCharacter));
    assert_eq!(checked_read_int(b"x1"), Err(ParseError::UnexpectedCharacter));
    assert_eq!(checked_read_int(b".5"), Err(ParseError::UnexpectedCharacter));
}

#[test]
fn checked_read_int_reports_a_literal_too_large() {
    assert_eq!(checked_read_int(b"2147483648"), Err(ParseError::LiteralTooLarge));
    assert_eq!(checked_read_int(b"99999999999+1"), Err(ParseError::LiteralTooLarge));
}

#[test]
fn lex_gives_the_tokens_in_order() {
    assert_eq!(
        lex(b"2 + 1 * (1 * 2 + 1)"),
        vec![
            Token::Int(2),
            Token::Op(Op::Plus),
            Token::Int(1),
            Token::Op(Op::Mul),
            Token::Lp,
            Token::Int(1),
            Token::Op(Op::Mul),
            Token::Int(2),
            Token::Op(Op::Plus),
            Token::Int(1),
            Token::Rp,
        ]
    );
}

#[test]
fn lex_needs_no_whitespace() {
    assert_eq!(
        lex(b"12+(3)/45-6"),
        vec![
            Token::Int(12),
            Token::Op(Op::Plus),
            Token::Lp,
            Token::Int(3),
            Token::Rp,
            Token::Op(Op::Div),
            Token::Int(45),
            Token::Op(Op::Minus),
            Token::Int(6),
        ]
    );
}

#[test]
fn lex_of_nothing_is_nothing() {
    assert_eq!(lex(b""), Vec::<Token>::new());
    assert_eq!(lex(b" \t\r\n"), Vec::<Token>::new());
}

#[test]
fn lex_splits_digit_runs_at_whitespace() {
    assert_eq!(lex(b"1 23  4"), vec![Token::Int(1), Token::Int(23), Token::Int(4)]);
}

#[test]
fn lex_does_not_judge_the_order_of_tokens() {
    assert_eq!(
        lex(b")+*("),
        vec![Token::Rp, Token::Op(Op::Plus), Token::Op(Op::Mul), Token::Lp]
    );
}

#[test]
fn lex_reads_a_minus_as_an_operator() {
    assert_eq!(lex(b"-7"), vec![Token::Op(Op::Minus), Token::Int(7)]);
}

#[test]
fn checked_lex_agrees_with_lex() {
    let text = b"  (10 - 2) * 3 / 4  ";
    assert_eq!(checked_lex(text), Ok(lex(text)));
    assert_eq!(checked_lex(b""), Ok(Vec::new()));
}

#[test]
fn checked_lex_reports_an_unexpected_character() {
    assert_eq!(checked_lex(b"2 $ 3"), Err(ParseError::UnexpectedCharacter));
    assert_eq!(checked_lex(b"2.5"), Err(ParseError::UnexpectedCharacter));
    assert_eq!(checked_lex(b"x"), Err(ParseError::UnexpectedCharacter));
    assert_eq!(checked_lex(b"1 \x0b 2"), Err(ParseError::UnexpectedCharacter));
}

#[test]
fn checked_lex_reports_a_literal_too_large() {
    assert_eq!(checked_lex(b"1 + 2147483648"), Err(ParseError::LiteralTooLarge));
    assert_eq!(checked_lex(b"99999999999"), Err(ParseError::LiteralTooLarge));
}

#[test]
fn checked_lex_reports_the_first_failure() {
    assert_eq!(checked_lex(b"99999999999 $"), Err(ParseError::LiteralTooLarge));
    assert_eq!(checked_lex(b"$ 99999999999"), Err(ParseError::UnexpectedCharacter));
}

#[test]
fn token_count_is_the_number_of_symbols_and_digit_runs() {
    // three digit runs, two parentheses, three operators
    assert_eq!(lex(b" 12 +(345*6)- 7").len(), 9);
    assert_eq!(lex(b"((()))").len(), 6);
    assert_eq!(lex(b"1 1 1").len(), 3);
    assert_eq!(lex(b"111").len(), 1);
}
