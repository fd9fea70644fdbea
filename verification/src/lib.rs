//! A front end for arithmetic expressions: a lexer that turns text into
//! tokens, and a recursive-descent parser that turns tokens into a tree that
//! respects operator precedence and left associativity.
//!
//! - [`token`]: the lexical units; a number is held exactly, as digits and
//!   a scale.
//! - [`lexer`]: `tokenize`, from text to tokens.
//! - [`expr`]: the expression tree.
//! - [`parser`]: `parse`, from tokens to a tree, and the three levels of
//!   the grammar that it is made of.
//! - [`grammar`]: the grammar as derivations, and the proofs that the
//!   parser accepts its sentences and nothing else.
//!
//! Every function carries a contract over the mathematical model of its
//! input: `Seq<char>` for text, `Seq<Token>` for token sequences.

use vstd::prelude::*;

pub mod expr;
pub mod grammar;
pub mod lexer;
pub mod parser;
pub mod token;

verus! {

/// The sum of two unsigned integers, for sums that fit in a `u64`.
pub fn add(left: u64, right: u64) -> (sum: u64)
    requires
        left + right <= u64::MAX,
    ensures
        sum == left + right,
{
    left + right
}

} // verus!
