use gyard::op::Math;
use gyard::validate::{validate, Error, InvalidTokenError, Token};
use gyard::InputToken;

fn mostly_eq<'a, V, F, O>(e1: &Error<'a, V, F, O>, e2: &Error<'a, V, F, O>) -> bool
where
    V: std::cmp::PartialEq,
    F: std::cmp::PartialEq,
    O: std::cmp::PartialEq,
{
    match (e1, e2) {
        (Error::InvalidToken(e1), Error::InvalidToken(e2))
            if e1.found == e2.found && e1.pos == e2.pos =>
        {
            true
        }
        (Error::ParenMissMatch(e1), Error::ParenMissMatch(e2)) if e1 == e2 => true,
        _ => false,
    }
}

#[test]
fn validate_expressions() {
    let inputs: &[&[InputToken<_, &str, Math>]] = &[
        // 1
        &[InputToken::Value(1)],
        // 1 + 1
        &[
            InputToken::Value(1),
            InputToken::Operator(Math::Add),
            InputToken::Value(1),
        ],
        // 1 + 1 + 1
        &[
            InputToken::Value(1),
            InputToken::Operator(Math::Add),
            InputToken::Value(1),
            InputToken::Operator(Math::Add),
            InputToken::Value(1),
        ],
        // 1 + ( 1 + 1 )
        &[
            InputToken::Value(1),
            InputToken::Operator(Math::Add),
            InputToken::LeftParen,
            InputToken::Value(1),
            InputToken::Operator(Math::Add),
            InputToken::Value(1),
            InputToken::RightParen,
        ],
        // 1 + sin ( 1 + 1 )
        &[
            InputToken::Value(1),
            InputToken::Operator(Math::Add),
            InputToken::Function("sin"),
            InputToken::LeftParen,
            InputToken::Value(1),
            InputToken::Operator(Math::Add),
            InputToken::Value(1),
            InputToken::RightParen,
        ],
        // 1 + f ( 1 , 1 )
        &[
            InputToken::Value(1),
            InputToken::Operator(Math::Add),
            InputToken::Function("f"),
            InputToken::LeftParen,
            InputToken::Value(1),
            InputToken::ArgSeperator,
            InputToken::Value(1),
            InputToken::RightParen,
        ],
    ];
    inputs
        .into_iter()
        .enumerate()
        .for_each(|(id, infix)| assert_eq!(validate(infix), Ok(()), "Test {id} failed"));
}

#[test]
fn invalidate_expressions() {
    let inputs: &[(&[InputToken<_, &str, Math>], Error<_, _, _>)] = &[
        (
            // +
            &[InputToken::Operator(Math::Add)],
            InvalidTokenError {
                found: &InputToken::Operator(Math::Add),
                expected: &[],
                pos: 0,
            }
            .into(),
        ),
        (
            // 12 13
            &[InputToken::Value(12), InputToken::Value(13)],
            InvalidTokenError {
                found: &InputToken::Value(13),
                expected: &[],
                pos: 1,
            }
            .into(),
        ),
        (
            // )
            &[InputToken::RightParen],
            InvalidTokenError {
                found: &InputToken::RightParen,
                expected: &[],
                pos: 0,
            }
            .into(),
        ),
        (
            // (
            &[InputToken::LeftParen],
            Error::ParenMissMatch(1),
        ),
        (
            // (((1)
            &[
                InputToken::LeftParen,
                InputToken::LeftParen,
                InputToken::LeftParen,
                InputToken::Value(1),
                InputToken::RightParen,
            ],
            Error::ParenMissMatch(2),
        ),
        (
            // f ( ( 1 , 2 ) )
            &[
                InputToken::Function("f"),
                InputToken::LeftParen,
                InputToken::LeftParen,
                InputToken::Value(1),
                InputToken::ArgSeperator,
                InputToken::Value(2),
                InputToken::RightParen,
                InputToken::RightParen,
            ],
            Error::InvalidToken(InvalidTokenError {
                found: &InputToken::ArgSeperator,
                expected: &[],
                pos: 4,
            }),
        ),
    ];
    inputs.into_iter().enumerate().for_each(|(id, (infix, e))| {
        let res = validate(infix);
        assert!(res.is_err(), "Test {id} failed successfully");
        let res = res.unwrap_err();
        // I dont care about `InvalidTokenError::expected`
        assert!(mostly_eq(&res, e), "Test {id} failed {:?} {e:?}", res)
    });
}

#[test]
fn token_kinds() {
    let tokens: [InputToken<i32, &str, Math>; 6] = [
        InputToken::Value(1),
        InputToken::LeftParen,
        InputToken::RightParen,
        InputToken::Function("f"),
        InputToken::ArgSeperator,
        InputToken::Operator(Math::Add),
    ];
    let kinds: Vec<Token> = tokens.iter().map(Token::from).collect();
    assert_eq!(
        kinds,
        vec![
            Token::Value,
            Token::LeftParen,
            Token::RightParen,
            Token::Function,
            Token::ArgSeperator,
            Token::Operator,
        ]
    );
}

#[test]
fn validate_empty_input() {
    let tokens: [InputToken<i32, &str, Math>; 0] = [];
    assert_eq!(validate(&tokens), Ok(()));
}

#[test]
fn validate_twice_gives_the_same() {
    let valid: [InputToken<i32, &str, Math>; 3] = [
        InputToken::Value(1),
        InputToken::Operator(Math::Add),
        InputToken::Value(1),
    ];
    assert_eq!(validate(&valid), validate(&valid));
    assert_eq!(validate(&valid), Ok(()));

    let invalid: [InputToken<i32, &str, Math>; 2] = [InputToken::Value(12), InputToken::Value(13)];
    assert_eq!(validate(&invalid), validate(&invalid));
    assert!(validate(&invalid).is_err());

    let open: [InputToken<i32, &str, Math>; 2] = [InputToken::LeftParen, InputToken::Value(13)];
    assert_eq!(validate(&open), validate(&open));
    assert_eq!(validate(&open), Err(Error::ParenMissMatch(1)));
}

#[test]
fn unmatched_closing_paren_is_refused_where_it_stands() {
    let tokens: [InputToken<bool, (), Math>; 5] = [
        InputToken::Value(false),
        InputToken::RightParen,
        InputToken::Operator(Math::Add),
        InputToken::Operator(Math::Sub),
        InputToken::Value(true),
    ];
    assert_eq!(
        validate(&tokens),
        Err(Error::InvalidToken(InvalidTokenError {
            found: &InputToken::RightParen,
            expected: &[Token::Operator, Token::RightParen, Token::ArgSeperator],
            pos: 1,
        }))
    );
}

#[test]
fn closing_paren_after_the_last_open_one_is_refused() {
    // ( 1 ) )
    let tokens: [InputToken<i32, (), Math>; 4] = [
        InputToken::LeftParen,
        InputToken::Value(1),
        InputToken::RightParen,
        InputToken::RightParen,
    ];
    assert_eq!(
        validate(&tokens),
        Err(Error::InvalidToken(InvalidTokenError {
            found: &InputToken::RightParen,
            expected: &[Token::Operator, Token::RightParen, Token::ArgSeperator],
            pos: 3,
        }))
    );
}

#[test]
fn separator_nested_too_deep_is_refused() {
    // f ( ( 1 , 2 ) )
    let tokens: [InputToken<i32, &str, Math>; 8] = [
        InputToken::Function("f"),
        InputToken::LeftParen,
        InputToken::LeftParen,
        InputToken::Value(1),
        InputToken::ArgSeperator,
        InputToken::Value(2),
        InputToken::RightParen,
        InputToken::RightParen,
    ];
    assert_eq!(
        validate(&tokens),
        Err(Error::InvalidToken(InvalidTokenError {
            found: &InputToken::ArgSeperator,
            expected: &[Token::Operator, Token::RightParen, Token::ArgSeperator],
            pos: 4,
        }))
    );
}

#[test]
fn separator_outside_of_a_function_is_refused() {
    // 1 , 2
    let bare: [InputToken<i32, &str, Math>; 3] = [
        InputToken::Value(1),
        InputToken::ArgSeperator,
        InputToken::Value(2),
    ];
    assert_eq!(
        validate(&bare),
        Err(Error::InvalidToken(InvalidTokenError {
            found: &InputToken::ArgSeperator,
            expected: &[Token::Operator, Token::RightParen, Token::ArgSeperator],
            pos: 1,
        }))
    );
    // ( f ( 1 ) , 2 )
    let behind: [InputToken<i32, &str, Math>; 8] = [
        InputToken::LeftParen,
        InputToken::Function("f"),
        InputToken::LeftParen,
        InputToken::Value(1),
        InputToken::RightParen,
        InputToken::ArgSeperator,
        InputToken::Value(2),
        InputToken::RightParen,
    ];
    assert_eq!(
        validate(&behind),
        Err(Error::InvalidToken(InvalidTokenError {
            found: &InputToken::ArgSeperator,
            expected: &[Token::Operator, Token::RightParen, Token::ArgSeperator],
            pos: 5,
        }))
    );
}

#[test]
fn separators_at_the_argument_level_pass() {
    // f ( ( g ( 1 , 2 ) ) , ( 3 ) , 4 )
    let tokens: [InputToken<i32, &str, Math>; 17] = [
        InputToken::Function("f"),
        InputToken::LeftParen,
        InputToken::LeftParen,
        InputToken::Function("g"),
        InputToken::LeftParen,
        InputToken::Value(1),
        InputToken::ArgSeperator,
        InputToken::Value(2),
        InputToken::RightParen,
        InputToken::RightParen,
        InputToken::ArgSeperator,
        InputToken::LeftParen,
        InputToken::Value(3),
        InputToken::RightParen,
        InputToken::ArgSeperator,
        InputToken::Value(4),
        InputToken::RightParen,
    ];
    assert_eq!(validate(&tokens), Ok(()));
}

#[test]
fn groups_side_by_side_pass() {
    // ( 1 ) + ( 2 )
    let tokens: [InputToken<i32, &str, Math>; 7] = [
        InputToken::LeftParen,
        InputToken::Value(1),
        InputToken::RightParen,
        InputToken::Operator(Math::Add),
        InputToken::LeftParen,
        InputToken::Value(2),
        InputToken::RightParen,
    ];
    assert_eq!(validate(&tokens), Ok(()));
}

#[test]
fn function_without_paren_is_refused() {
    // f 1
    let tokens: [InputToken<i32, &str, Math>; 2] =
        [InputToken::Function("f"), InputToken::Value(1)];
    assert_eq!(
        validate(&tokens),
        Err(Error::InvalidToken(InvalidTokenError {
            found: &InputToken::Value(1),
            expected: &[Token::LeftParen],
            pos: 1,
        }))
    );
}

#[test]
fn expression_start_expects_value_paren_or_function() {
    let tokens: [InputToken<i32, &str, Math>; 3] = [
        InputToken::Value(1),
        InputToken::Operator(Math::Mul),
        InputToken::Operator(Math::Add),
    ];
    assert_eq!(
        validate(&tokens),
        Err(Error::InvalidToken(InvalidTokenError {
            found: &InputToken::Operator(Math::Add),
            expected: &[Token::Value, Token::LeftParen, Token::Function],
            pos: 2,
        }))
    );
}

#[test]
fn state_at_the_end_is_not_looked_at() {
    // 1 +
    let operator: [InputToken<i32, &str, Math>; 2] =
        [InputToken::Value(1), InputToken::Operator(Math::Add)];
    assert_eq!(validate(&operator), Ok(()));
    // f
    let function: [InputToken<i32, &str, Math>; 1] = [InputToken::Function("f")];
    assert_eq!(validate(&function), Ok(()));
}

#[test]
fn open_parens_are_counted() {
    // f ( ( 1 + ( 2
    let tokens: [InputToken<i32, &str, Math>; 7] = [
        InputToken::Function("f"),
        InputToken::LeftParen,
        InputToken::LeftParen,
        InputToken::Value(1),
        InputToken::Operator(Math::Add),
        InputToken::LeftParen,
        InputToken::Value(2),
    ];
    assert_eq!(validate(&tokens), Err(Error::ParenMissMatch(3)));
}

#[test]
fn error_from_invalid_token() {
    let token: InputToken<i32, &str, Math> = InputToken::Value(13);
    let error: Error<_, _, _> = InvalidTokenError {
        found: &token,
        expected: &[Token::LeftParen],
        pos: 1,
    }
    .into();
    assert_eq!(
        error,
        Error::InvalidToken(InvalidTokenError {
            found: &token,
            expected: &[Token::LeftParen],
            pos: 1,
        })
    );
}

#[test]
fn valid_expressions_convert() {
    let inputs: Vec<Vec<InputToken<i32, &str, Math>>> = vec![
        vec![],
        vec![InputToken::Value(1)],
        vec![
            InputToken::LeftParen,
            InputToken::Value(1),
            InputToken::RightParen,
            InputToken::Operator(Math::Add),
            InputToken::LeftParen,
            InputToken::Value(2),
            InputToken::RightParen,
        ],
        vec![
            InputToken::Function("f"),
            InputToken::LeftParen,
            InputToken::LeftParen,
            InputToken::Function("g"),
            InputToken::LeftParen,
            InputToken::Value(1),
            InputToken::ArgSeperator,
            InputToken::Value(2),
            InputToken::RightParen,
            InputToken::RightParen,
            InputToken::ArgSeperator,
            InputToken::Value(4),
            InputToken::RightParen,
        ],
    ];
    for infix in inputs {
        assert_eq!(validate(&infix), Ok(()));
        let length = infix.len();
        let postfix = gyard::to_postfix(infix).unwrap();
        assert!(postfix.len() <= length);
    }
}

#[test]
fn left_paren_behind_a_value_is_refused() {
    let tokens: [InputToken<bool, (), Math>; 5] = [
        InputToken::Value(false),
        InputToken::LeftParen,
        InputToken::Operator(Math::Add),
        InputToken::Operator(Math::Sub),
        InputToken::Value(true),
    ];
    assert_eq!(
        validate(&tokens),
        Err(Error::InvalidToken(InvalidTokenError {
            found: &InputToken::LeftParen,
            expected: &[Token::Operator, Token::RightParen, Token::ArgSeperator],
            pos: 1,
        }))
    );
}
