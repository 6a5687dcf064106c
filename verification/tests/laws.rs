use arith_lexer::{lex, lex_fragment, split_at_space, Token, TokenizeError};

const INPUTS: [&str; 14] = [
    "2",
    "( 2 )",
    "( * 2 2 )",
    "( + ( / 8 4 ) ( - 7 x ) )",
    "hello",
    "hello world",
    "a b c d e f g h i j",
    "1 1 1 1",
    "+ + +",
    "\u{e9} \u{1f600} \u{4e2d}\u{6587}",
    "2147483647 0",
    "2\t2 3",
    ")(",
    "0 00 000",
];

fn spaces(s: &str) -> usize {
    s.chars().filter(|c| *c == ' ').count()
}

#[test]
fn one_token_for_each_fragment() {
    for input in INPUTS {
        let tokens = lex(input).unwrap();
        assert_eq!(tokens.len(), spaces(input) + 1);
        assert_eq!(tokens.len(), input.split(' ').count());
    }
}

#[test]
fn each_token_is_that_of_its_fragment() {
    for input in INPUTS {
        let tokens = lex(input).unwrap();
        for (token, fragment) in tokens.iter().zip(input.split(' ')) {
            assert_eq!(Ok(*token), lex_fragment(fragment));
        }
    }
}

#[test]
fn lexing_twice_gives_the_same() {
    for input in INPUTS {
        assert_eq!(lex(input), lex(input));
    }
    assert_eq!(lex(""), lex(""));
    assert_eq!(lex("2147483648"), lex("2147483648"));
    assert_eq!(lex("3 3 3"), Ok(vec![Token::Int { value: 3 }; 3]));
}

#[test]
fn equal_fragments_are_not_merged() {
    assert_eq!(
        lex("( ( 2 2 ) )"),
        Ok(vec![
            Token::OpenBracket,
            Token::OpenBracket,
            Token::Int { value: 2 },
            Token::Int { value: 2 },
            Token::CloseBracket,
            Token::CloseBracket,
        ])
    );
    assert_eq!(lex("x x"), Ok(vec![Token::UnknownToken, Token::UnknownToken]));
}

#[test]
fn order_follows_the_input() {
    assert_eq!(lex("1 2 3"), Ok(vec![
        Token::Int { value: 1 },
        Token::Int { value: 2 },
        Token::Int { value: 3 },
    ]));
    assert_eq!(lex("3 2 1"), Ok(vec![
        Token::Int { value: 3 },
        Token::Int { value: 2 },
        Token::Int { value: 1 },
    ]));
    assert_eq!(lex(") ("), Ok(vec![Token::CloseBracket, Token::OpenBracket]));
}

#[test]
fn two_inputs_with_a_space_between_them() {
    for a in INPUTS {
        for b in INPUTS {
            let mut expected = lex(a).unwrap();
            expected.extend(lex(b).unwrap());
            let both = format!("{} {}", a, b);
            assert_eq!(lex(&both), Ok(expected));
        }
    }
    assert_eq!(lex("2147483648 "), Err(TokenizeError::IntegerOverflow));
    assert_eq!(lex("2 2147483648"), Err(TokenizeError::IntegerOverflow));
}

#[test]
fn joining_what_was_split_gives_the_input() {
    for input in INPUTS {
        let mut rest: &str = input;
        let mut joined = String::new();
        while let Some((head, tail)) = split_at_space(rest) {
            assert!(!head.contains(' '));
            joined.push_str(head);
            joined.push(' ');
            rest = tail;
        }
        assert!(!rest.contains(' '));
        joined.push_str(rest);
        assert_eq!(joined, input);
    }
}

#[test]
fn tokens_compare_by_variant_and_value() {
    assert_eq!(Token::Int { value: 2 }, Token::Int { value: 2 });
    assert_ne!(Token::Int { value: 2 }, Token::Int { value: 3 });
    assert_ne!(Token::Addition, Token::Subtraction);
    assert!(Token::Int { value: 2 } < Token::Int { value: 3 });
    assert!(Token::Int { value: 2147483647 } < Token::OpenBracket);
    assert!(Token::OpenBracket < Token::CloseBracket);
    assert!(Token::CloseBracket < Token::Multiplication);
    assert!(Token::Multiplication < Token::Division);
    assert!(Token::Division < Token::Addition);
    assert!(Token::Addition < Token::Subtraction);
    assert!(Token::Subtraction < Token::UnknownToken);
    assert_ne!(TokenizeError::IntegerOverflow, TokenizeError::EmptyLiteral);
}
