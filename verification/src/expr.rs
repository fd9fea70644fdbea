//! The abstract syntax tree of an arithmetic expression.

use vstd::prelude::*;
use crate::token::Decimal;

verus! {

/// A binary operator.
#[derive(Debug, Clone, Copy, PartialEq, Eq, Structural)]
pub enum Op {
    Add,
    Sub,
    Mul,
    Div,
}

/// An expression tree. A binary node owns both of its operands, so a tree is
/// finite and nothing in it is shared.
#[derive(Debug, PartialEq, Eq)]
pub enum Expr {
    Number(Decimal),
    BinaryOp { op: Op, left: Box<Expr>, right: Box<Expr> },
}

/// The binary node with operator `op` over the operands `left` and `right`.
pub open spec fn binary_node(op: Op, left: Expr, right: Expr) -> Expr {
    Expr::BinaryOp { op, left: Box::new(left), right: Box::new(right) }
}

impl Expr {
    /// A binary node over two finished operands: no node is ever seen with
    /// an operand missing.
    pub fn binary(op: Op, left: Expr, right: Expr) -> (node: Expr)
        ensures
            node == binary_node(op, left, right),
    {
        Expr::BinaryOp { op, left: Box::new(left), right: Box::new(right) }
    }
}

} // verus!
