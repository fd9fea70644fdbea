//! The lexical units of an arithmetic expression.

use vstd::prelude::*;

verus! {

/// A numeric literal, held exactly: the literal's digits read as one
/// integer (`mantissa`), and the number of those digits that stood after
/// the decimal point (`scale`). The literal `12.50` is
/// `Decimal { mantissa: 1250, scale: 2 }`; its value is
/// `mantissa / 10^scale`.
#[derive(Debug, Clone, Copy, PartialEq, Eq, Structural)]
pub struct Decimal {
    pub mantissa: u64,
    pub scale: usize,
}

/// One lexical unit. Tokens are plain values: a token sequence is an ordered
/// list in which position matters and repeats are meaningful.
#[derive(Debug, Clone, Copy, PartialEq, Eq, Structural)]
pub enum Token {
    Number(Decimal),
    Plus,
    Minus,
    Multiply,
    Divide,
    LParen,
    RParen,
}

} // verus!
