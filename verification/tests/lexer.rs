use calc_parser::lexer::{tokenize, LexError};
use calc_parser::token::{Decimal, Token};

fn number(mantissa: u64, scale: usize) -> Token {
    Token::Number(Decimal { mantissa, scale })
}

#[test]
fn test_basic_operators() {
    let result = tokenize("+ - * /").unwrap();
    assert_eq!(
        result,
        vec![Token::Plus, Token::Minus, Token::Multiply, Token::Divide]
    );
}

#[test]
fn test_parentheses() {
    let result = tokenize("()").unwrap();
    assert_eq!(result, vec![Token::LParen, Token::RParen]);
}

#[test]
fn test_whitespace_handling() {
    let result = tokenize("   +\t*\n/  ").unwrap();
    assert_eq!(result, vec![Token::Plus, Token::Multiply, Token::Divide]);
}

#[test]
fn test_complex_expression() {
    let result = tokenize("(+ * /)").unwrap();
    assert_eq!(
        result,
        vec![
            Token::LParen,
            Token::Plus,
            Token::Multiply,
            Token::Divide,
            Token::RParen
        ]
    );
}

#[test]
fn test_empty_input() {
    let result = tokenize("").unwrap();
    assert_eq!(result, vec![]);
}

#[test]
fn test_only_whitespace() {
    let result = tokenize("   \t\n   ").unwrap();
    assert_eq!(result, vec![]);
}

#[test]
fn test_invalid_character() {
    let result = tokenize("+ a *");
    assert!(result.is_err());
}

#[test]
fn test_multiple_invalid_characters() {
    let result = tokenize("@#$");
    assert!(result.is_err());
}

#[test]
fn whitespace_between_tabs_and_newlines_yields_nothing() {
    assert_eq!(tokenize("   \t\n  "), Ok(vec![]));
}

#[test]
fn operators_map_one_to_one_in_order() {
    let result = tokenize(")(\n/ *\t- +)(").unwrap();
    assert_eq!(
        result,
        vec![
            Token::RParen,
            Token::LParen,
            Token::Divide,
            Token::Multiply,
            Token::Minus,
            Token::Plus,
            Token::RParen,
            Token::LParen,
        ]
    );
}

#[test]
fn repeated_operators_are_kept() {
    assert_eq!(
        tokenize("+++"),
        Ok(vec![Token::Plus, Token::Plus, Token::Plus])
    );
}

#[test]
fn integer_literal() {
    assert_eq!(tokenize("42"), Ok(vec![number(42, 0)]));
}

#[test]
fn literal_with_fraction_keeps_every_digit() {
    assert_eq!(tokenize("12.50"), Ok(vec![number(1250, 2)]));
}

#[test]
fn leading_zeros_do_not_change_the_mantissa() {
    assert_eq!(tokenize("007"), Ok(vec![number(7, 0)]));
    assert_eq!(tokenize("0.001"), Ok(vec![number(1, 3)]));
}

#[test]
fn zero_is_a_literal() {
    assert_eq!(tokenize("0"), Ok(vec![number(0, 0)]));
    assert_eq!(tokenize("0.0"), Ok(vec![number(0, 1)]));
}

#[test]
fn literals_need_no_whitespace_around_them() {
    assert_eq!(
        tokenize("(3.14+2)*10"),
        Ok(vec![
            Token::LParen,
            number(314, 2),
            Token::Plus,
            number(2, 0),
            Token::RParen,
            Token::Multiply,
            number(10, 0),
        ])
    );
}

#[test]
fn whitespace_parts_two_literals() {
    assert_eq!(tokenize("1 2"), Ok(vec![number(1, 0), number(2, 0)]));
}

#[test]
fn minus_before_a_literal_is_a_token_of_its_own() {
    assert_eq!(tokenize("-5"), Ok(vec![Token::Minus, number(5, 0)]));
}

#[test]
fn largest_mantissa_fits() {
    assert_eq!(
        tokenize("18446744073709551615"),
        Ok(vec![number(u64::MAX, 0)])
    );
    assert_eq!(
        tokenize("0.18446744073709551615"),
        Ok(vec![number(u64::MAX, 20)])
    );
}

#[test]
fn mantissa_beyond_u64_is_too_large() {
    assert_eq!(
        tokenize("18446744073709551616"),
        Err(LexError::NumberTooLarge { pos: 0 })
    );
    assert_eq!(
        tokenize("1 + 1844674407370955161.6"),
        Err(LexError::NumberTooLarge { pos: 4 })
    );
    assert_eq!(
        tokenize("100000000000000000000000000000000000000000"),
        Err(LexError::NumberTooLarge { pos: 0 })
    );
}

#[test]
fn literal_ending_in_a_point_is_malformed() {
    assert_eq!(tokenize("1."), Err(LexError::MalformedNumber { pos: 0 }));
    assert_eq!(tokenize("1. 5"), Err(LexError::MalformedNumber { pos: 0 }));
}

#[test]
fn literal_beginning_with_a_point_is_malformed() {
    assert_eq!(tokenize(".5"), Err(LexError::MalformedNumber { pos: 0 }));
    assert_eq!(tokenize("2 * ."), Err(LexError::MalformedNumber { pos: 4 }));
}

#[test]
fn two_points_are_malformed_not_cut_short() {
    assert_eq!(tokenize("1.2.3"), Err(LexError::MalformedNumber { pos: 0 }));
    assert_eq!(
        tokenize("2 + 1..5"),
        Err(LexError::MalformedNumber { pos: 4 })
    );
    assert_eq!(tokenize("1.2."), Err(LexError::MalformedNumber { pos: 0 }));
}

#[test]
fn malformed_wins_over_too_large() {
    assert_eq!(
        tokenize("99999999999999999999999.5.5"),
        Err(LexError::MalformedNumber { pos: 0 })
    );
}

#[test]
fn unexpected_character_is_named_with_its_position() {
    assert_eq!(
        tokenize("+ a *"),
        Err(LexError::UnexpectedChar { ch: 'a', pos: 2 })
    );
    assert_eq!(
        tokenize("@#$"),
        Err(LexError::UnexpectedChar { ch: '@', pos: 0 })
    );
    assert_eq!(
        tokenize("12x"),
        Err(LexError::UnexpectedChar { ch: 'x', pos: 2 })
    );
}

#[test]
fn positions_count_characters_not_bytes() {
    assert_eq!(
        tokenize("(\u{e9}\u{e9}) + \u{20ac}"),
        Err(LexError::UnexpectedChar { ch: '\u{e9}', pos: 1 })
    );
    assert_eq!(
        tokenize("1 \u{20ac}"),
        Err(LexError::UnexpectedChar { ch: '\u{20ac}', pos: 2 })
    );
}

#[test]
fn carriage_return_is_no_whitespace() {
    assert_eq!(
        tokenize("1 +\r\n2"),
        Err(LexError::UnexpectedChar { ch: '\r', pos: 3 })
    );
}

#[test]
fn first_error_wins() {
    assert_eq!(
        tokenize("1. + a"),
        Err(LexError::MalformedNumber { pos: 0 })
    );
    assert_eq!(
        tokenize("a + 1."),
        Err(LexError::UnexpectedChar { ch: 'a', pos: 0 })
    );
}

#[test]
fn unbalanced_parentheses_are_no_lexical_error() {
    assert_eq!(
        tokenize("((1"),
        Ok(vec![Token::LParen, Token::LParen, number(1, 0)])
    );
}

#[test]
fn long_text_is_scanned_to_the_end() {
    let text = "1 + ".repeat(20_000) + "1";
    let tokens = tokenize(&text).unwrap();
    assert_eq!(tokens.len(), 40_001);
    assert_eq!(tokens[40_000], number(1, 0));
    assert_eq!(tokens[39_999], Token::Plus);
}
