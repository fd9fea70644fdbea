use calc_parser::expr::{Expr, Op};
use calc_parser::token::Decimal;

#[test]
fn it_works() {
    let result = calc_parser::add(2, 2);
    assert_eq!(result, 4);
}

#[test]
fn add_reaches_the_largest_sum() {
    assert_eq!(calc_parser::add(u64::MAX, 0), u64::MAX);
    assert_eq!(calc_parser::add(u64::MAX - 7, 7), u64::MAX);
    assert_eq!(calc_parser::add(0, 0), 0);
}

#[test]
fn binary_node_owns_both_operands() {
    let one = Decimal { mantissa: 1, scale: 0 };
    let half = Decimal { mantissa: 5, scale: 1 };
    let node = Expr::binary(Op::Div, Expr::Number(one), Expr::Number(half));
    assert_eq!(
        node,
        Expr::BinaryOp {
            op: Op::Div,
            left: Box::new(Expr::Number(one)),
            right: Box::new(Expr::Number(half)),
        }
    );
}

#[test]
fn binary_node_keeps_the_order_of_its_operands() {
    let one = Decimal { mantissa: 1, scale: 0 };
    let two = Decimal { mantissa: 2, scale: 0 };
    assert_ne!(
        Expr::binary(Op::Sub, Expr::Number(one), Expr::Number(two)),
        Expr::binary(Op::Sub, Expr::Number(two), Expr::Number(one))
    );
}
