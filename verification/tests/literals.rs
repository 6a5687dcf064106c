use arith_lexer::{is_int, lex, lex_fragment, to_int, Token, TokenizeError};

#[test]
fn digits_are_an_int() {
    assert!(is_int("0"));
    assert!(is_int("7"));
    assert!(is_int("0123456789"));
    assert!(is_int("99999999999999999999999999999999"));
}

#[test]
fn the_empty_string_is_made_of_digits_alone() {
    assert!(is_int(""));
}

#[test]
fn a_sign_a_letter_or_a_blank_is_no_digit() {
    assert!(!is_int("-5"));
    assert!(!is_int("+5"));
    assert!(!is_int("12a"));
    assert!(!is_int("a12"));
    assert!(!is_int("1 2"));
    assert!(!is_int(" 1"));
    assert!(!is_int("1.5"));
    assert!(!is_int("1_000"));
    assert!(!is_int("/"));
    assert!(!is_int(":"));
}

#[test]
fn digits_of_other_scripts_are_no_digits() {
    assert!(!is_int("\u{0663}"));
    assert!(!is_int("\u{ff12}"));
    assert!(!is_int("1\u{0663}"));
    assert!(!is_int("\u{00b2}"));
    assert_eq!(lex("\u{0663}"), Ok(vec![Token::UnknownToken]));
    assert_eq!(lex("\u{ff12}"), Ok(vec![Token::UnknownToken]));
}

#[test]
fn to_int_reads_base_ten() {
    assert_eq!(to_int("0"), Ok(Token::Int { value: 0 }));
    assert_eq!(to_int("9"), Ok(Token::Int { value: 9 }));
    assert_eq!(to_int("10"), Ok(Token::Int { value: 10 }));
    assert_eq!(to_int("1234567890"), Ok(Token::Int { value: 1234567890 }));
    assert_eq!(to_int("907"), Ok(Token::Int { value: 907 }));
}

#[test]
fn leading_zeros_do_not_change_the_value() {
    assert_eq!(to_int("0002"), Ok(Token::Int { value: 2 }));
    assert_eq!(to_int("00"), Ok(Token::Int { value: 0 }));
    assert_eq!(
        to_int("000000000000000000000000000002147483647"),
        Ok(Token::Int { value: 2147483647 })
    );
    assert_eq!(
        to_int("000000000000000000000000000002147483648"),
        Err(TokenizeError::IntegerOverflow)
    );
}

#[test]
fn the_largest_literal_is_i32_max() {
    assert_eq!(to_int("2147483647"), Ok(Token::Int { value: i32::MAX }));
    assert_eq!(lex("2147483647"), Ok(vec![Token::Int { value: 2147483647 }]));
}

#[test]
fn one_past_i32_max_overflows() {
    assert_eq!(lex("2147483648"), Err(TokenizeError::IntegerOverflow));
    assert_eq!(to_int("2147483648"), Err(TokenizeError::IntegerOverflow));
    assert_eq!(lex_fragment("2147483648"), Err(TokenizeError::IntegerOverflow));
}

#[test]
fn large_literals_overflow() {
    assert_eq!(to_int("2147483650"), Err(TokenizeError::IntegerOverflow));
    assert_eq!(to_int("4294967296"), Err(TokenizeError::IntegerOverflow));
    assert_eq!(to_int("4294967298"), Err(TokenizeError::IntegerOverflow));
    assert_eq!(to_int("9999999999"), Err(TokenizeError::IntegerOverflow));
    assert_eq!(to_int("18446744073709551616"), Err(TokenizeError::IntegerOverflow));
    assert_eq!(to_int("18446744073709551618"), Err(TokenizeError::IntegerOverflow));
    assert_eq!(
        to_int("99999999999999999999999999999999999999999999"),
        Err(TokenizeError::IntegerOverflow)
    );
    assert_eq!(
        to_int("21474836470000000000000000000000000000000000"),
        Err(TokenizeError::IntegerOverflow)
    );
}

#[test]
fn an_empty_literal_has_no_value() {
    assert_eq!(to_int(""), Err(TokenizeError::EmptyLiteral));
    assert_eq!(lex_fragment(""), Err(TokenizeError::EmptyLiteral));
}

#[test]
fn a_signed_number_is_unknown() {
    assert_eq!(lex("-5"), Ok(vec![Token::UnknownToken]));
    assert_eq!(lex("+5"), Ok(vec![Token::UnknownToken]));
    assert_eq!(lex("- 5"), Ok(vec![Token::Subtraction, Token::Int { value: 5 }]));
    assert_eq!(lex("1.5"), Ok(vec![Token::UnknownToken]));
    assert_eq!(lex("0x10"), Ok(vec![Token::UnknownToken]));
}

#[test]
fn to_int_reads_what_parse_reads() {
    let mut numbers: Vec<u64> = (0..2000).collect();
    numbers.extend(2147482648..2147484648u64);
    numbers.extend([
        u32::MAX as u64,
        u32::MAX as u64 + 1,
        1 << 33,
        10_000_000_000,
        u64::MAX,
    ]);
    for n in numbers {
        for zeros in ["", "0", "000"] {
            let text = format!("{}{}", zeros, n);
            let expected = match text.parse::<i32>() {
                Ok(value) => Ok(Token::Int { value }),
                Err(_) => Err(TokenizeError::IntegerOverflow),
            };
            assert_eq!(to_int(&text), expected, "{:?}", text);
        }
    }
}
