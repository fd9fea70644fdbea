use calc_parser::expr::{Expr, Op};
use calc_parser::lexer::tokenize;
use calc_parser::parser::{parse, parse_expression, parse_factor, parse_term, ParseError};
use calc_parser::token::{Decimal, Token};

fn whole(n: u64) -> Decimal {
    Decimal { mantissa: n, scale: 0 }
}

fn leaf(n: u64) -> Expr {
    Expr::Number(whole(n))
}

fn node(op: Op, left: Expr, right: Expr) -> Expr {
    Expr::BinaryOp { op, left: Box::new(left), right: Box::new(right) }
}

fn parse_text(text: &str) -> Result<Expr, ParseError> {
    parse(&tokenize(text).unwrap())
}

#[test]
fn single_number() {
    assert_eq!(parse_text("7"), Ok(leaf(7)));
    assert_eq!(
        parse_text("2.75"),
        Ok(Expr::Number(Decimal { mantissa: 275, scale: 2 }))
    );
}

#[test]
fn subtraction_groups_from_the_left() {
    assert_eq!(
        parse_text("8 - 3 - 2"),
        Ok(node(Op::Sub, node(Op::Sub, leaf(8), leaf(3)), leaf(2)))
    );
    assert_ne!(
        parse_text("8 - 3 - 2"),
        Ok(node(Op::Sub, leaf(8), node(Op::Sub, leaf(3), leaf(2))))
    );
}

#[test]
fn division_groups_from_the_left() {
    assert_eq!(
        parse_text("8 / 4 / 2"),
        Ok(node(Op::Div, node(Op::Div, leaf(8), leaf(4)), leaf(2)))
    );
}

#[test]
fn multiplication_binds_tighter_than_addition() {
    assert_eq!(
        parse_text("2 + 3 * 4"),
        Ok(node(Op::Add, leaf(2), node(Op::Mul, leaf(3), leaf(4))))
    );
    assert_eq!(
        parse_text("2 * 3 + 4"),
        Ok(node(Op::Add, node(Op::Mul, leaf(2), leaf(3)), leaf(4)))
    );
}

#[test]
fn parentheses_override_precedence() {
    assert_eq!(
        parse_text("(2 + 3) * 4"),
        Ok(node(Op::Mul, node(Op::Add, leaf(2), leaf(3)), leaf(4)))
    );
    assert_eq!(
        parse_text("8 - (3 - 2)"),
        Ok(node(Op::Sub, leaf(8), node(Op::Sub, leaf(3), leaf(2))))
    );
}

#[test]
fn mixed_operators_of_one_level_group_from_the_left() {
    assert_eq!(
        parse_text("1 - 2 + 3"),
        Ok(node(Op::Add, node(Op::Sub, leaf(1), leaf(2)), leaf(3)))
    );
    assert_eq!(
        parse_text("1 * 2 / 3 * 4"),
        Ok(node(
            Op::Mul,
            node(Op::Div, node(Op::Mul, leaf(1), leaf(2)), leaf(3)),
            leaf(4)
        ))
    );
}

#[test]
fn redundant_parentheses_leave_no_trace() {
    assert_eq!(parse_text("((1))"), Ok(leaf(1)));
    assert_eq!(
        parse_text("((1) + (2))"),
        Ok(node(Op::Add, leaf(1), leaf(2)))
    );
}

#[test]
fn unclosed_parenthesis_is_missing_its_close() {
    assert_eq!(
        parse_text("(1 + 2"),
        Err(ParseError::MissingClosingParen { found: None, pos: 4 })
    );
}

#[test]
fn wrong_token_in_place_of_the_close_is_reported() {
    assert_eq!(
        parse_text("(1 2"),
        Err(ParseError::MissingClosingParen { found: Some(Token::Number(whole(2))), pos: 2 })
    );
    assert_eq!(
        parse_text("(1 ( 2"),
        Err(ParseError::MissingClosingParen { found: Some(Token::LParen), pos: 2 })
    );
}

#[test]
fn dangling_operator_meets_the_end() {
    assert_eq!(parse_text("1 +"), Err(ParseError::UnexpectedEnd));
    assert_eq!(parse_text("1 *"), Err(ParseError::UnexpectedEnd));
    assert_eq!(parse_text("("), Err(ParseError::UnexpectedEnd));
}

#[test]
fn no_tokens_are_no_expression() {
    assert_eq!(parse(&[]), Err(ParseError::UnexpectedEnd));
    assert_eq!(parse_text("  \n "), Err(ParseError::UnexpectedEnd));
}

#[test]
fn adjacent_operands_leave_trailing_input() {
    assert_eq!(
        parse_text("1 2"),
        Err(ParseError::TrailingInput { token: Token::Number(whole(2)), pos: 1 })
    );
}

#[test]
fn stray_close_after_an_expression_is_trailing_input() {
    assert_eq!(
        parse_text("1 + 2 )"),
        Err(ParseError::TrailingInput { token: Token::RParen, pos: 3 })
    );
    assert_eq!(
        parse_text("(1)(2)"),
        Err(ParseError::TrailingInput { token: Token::LParen, pos: 3 })
    );
}

#[test]
fn operator_in_place_of_an_operand_is_unexpected() {
    assert_eq!(
        parse_text("1 + * 2"),
        Err(ParseError::UnexpectedToken { token: Token::Multiply, pos: 2 })
    );
    assert_eq!(
        parse_text("- 5"),
        Err(ParseError::UnexpectedToken { token: Token::Minus, pos: 0 })
    );
    assert_eq!(
        parse_text(")"),
        Err(ParseError::UnexpectedToken { token: Token::RParen, pos: 0 })
    );
    assert_eq!(
        parse_text("()"),
        Err(ParseError::UnexpectedToken { token: Token::RParen, pos: 1 })
    );
}

#[test]
fn first_error_ends_the_parse() {
    assert_eq!(
        parse_text("(1 + ) 2 3"),
        Err(ParseError::UnexpectedToken { token: Token::RParen, pos: 3 })
    );
}

#[test]
fn valid_expressions_parse_to_the_end() {
    let texts = [
        "1",
        "1+2",
        "1 + 2 * 3 - 4 / 5",
        "(1)",
        "((1 + 2) * (3 - 4)) / 5",
        "1.5 * (2.25 + 0.125)",
        "1 - (2 - (3 - (4 - 5)))",
        "\t( 7 )\n",
    ];
    for text in texts {
        assert!(parse_text(text).is_ok());
    }
}

#[test]
fn expression_level_stops_before_what_it_cannot_use() {
    let tokens = tokenize("1 + 2 ) 3").unwrap();
    assert_eq!(
        parse_expression(&tokens, 0),
        Ok((node(Op::Add, leaf(1), leaf(2)), 3))
    );
    assert_eq!(parse_expression(&tokens, 2), Ok((leaf(2), 3)));
    assert_eq!(parse_expression(&tokens, 4), Ok((leaf(3), 5)));
}

#[test]
fn term_level_stops_before_an_additive_operator() {
    let tokens = tokenize("2 * 3 + 4").unwrap();
    assert_eq!(
        parse_term(&tokens, 0),
        Ok((node(Op::Mul, leaf(2), leaf(3)), 3))
    );
    assert_eq!(parse_term(&tokens, 4), Ok((leaf(4), 5)));
    assert_eq!(
        parse_term(&tokens, 3),
        Err(ParseError::UnexpectedToken { token: Token::Plus, pos: 3 })
    );
}

#[test]
fn factor_level_reads_one_operand() {
    let tokens = tokenize("(1 + 2) * 3").unwrap();
    assert_eq!(
        parse_factor(&tokens, 0),
        Ok((node(Op::Add, leaf(1), leaf(2)), 5))
    );
    assert_eq!(parse_factor(&tokens, 1), Ok((leaf(1), 2)));
    assert_eq!(parse_factor(&tokens, 6), Ok((leaf(3), 7)));
}

#[test]
fn position_at_or_past_the_end_is_the_end() {
    let tokens = tokenize("1 + 2").unwrap();
    assert_eq!(parse_expression(&tokens, 3), Err(ParseError::UnexpectedEnd));
    assert_eq!(parse_term(&tokens, 9), Err(ParseError::UnexpectedEnd));
    assert_eq!(parse_factor(&tokens, usize::MAX), Err(ParseError::UnexpectedEnd));
}

#[test]
fn nesting_of_a_few_hundred_levels_parses() {
    let depth = 300;
    let text = "(".repeat(depth) + "1" + &")".repeat(depth);
    assert_eq!(parse_text(&text), Ok(leaf(1)));
}

#[test]
fn long_row_of_operators_groups_from_the_left() {
    let text = "1".to_string() + &" - 1".repeat(2_000);
    let mut tree = parse_text(&text).unwrap();
    let mut operators = 0;
    while let Expr::BinaryOp { op, left, right } = tree {
        assert_eq!(op, Op::Sub);
        assert_eq!(*right, leaf(1));
        operators += 1;
        tree = *left;
    }
    assert_eq!(operators, 2_000);
    assert_eq!(tree, leaf(1));
}
