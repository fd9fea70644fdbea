//! The parser: recursive descent over a token sequence.
//!
//! ```text
//! Expression = Term (('+' | '-') Term)*
//! Term       = Factor (('*' | '/') Factor)*
//! Factor     = Number | '(' Expression ')'
//! ```
//!
//! Precedence lies in the call hierarchy: each level parses operands of the
//! level below. Operators of one level associate to the left: the tree built
//! so far becomes the left operand of the next operator.

use vstd::prelude::*;
use crate::expr::{binary_node, Expr, Op};
use crate::grammar::{lemma_parsed_is_sentence, lemma_sentence_parses, ExpressionTree};
use crate::token::Token;

verus! {

/// Why a token sequence is no expression. Positions index the sequence.
#[derive(Debug, Clone, Copy, PartialEq, Eq, Structural)]
pub enum ParseError {
    /// The tokens ended where an operand was expected.
    UnexpectedEnd,
    /// `token`, at `pos`, cannot begin an operand.
    UnexpectedToken { token: Token, pos: usize },
    /// A parenthesised expression ended at `pos` without `)`: `found` is
    /// what stands there, `None` at the end of the tokens.
    MissingClosingParen { found: Option<Token>, pos: usize },
    /// A complete expression ended at `pos`, where `token` follows it.
    TrailingInput { token: Token, pos: usize },
}

/// A parsed expression and the number of tokens that it spans.
pub type Parsed = Result<(Expr, nat), ParseError>;

/// The operator of the Expression level that `token` stands for.
pub open spec fn additive_op(token: Token) -> Option<Op> {
    match token {
        Token::Plus => Some(Op::Add),
        Token::Minus => Some(Op::Sub),
        _ => None,
    }
}

/// The operator of the Term level that `token` stands for.
pub open spec fn multiplicative_op(token: Token) -> Option<Op> {
    match token {
        Token::Multiply => Some(Op::Mul),
        Token::Divide => Some(Op::Div),
        _ => None,
    }
}

/// The number of tokens from `pos` on.
pub open spec fn tokens_left(tokens: Seq<Token>, pos: nat) -> nat {
    if pos < tokens.len() {
        (tokens.len() - pos) as nat
    } else {
        0
    }
}

/// `more`, read after `read` tokens, counted from where those began.
pub open spec fn after(read: nat, more: Parsed) -> Parsed {
    match more {
        Ok((expr, n)) => Ok((expr, read + n)),
        Err(e) => Err(e),
    }
}

/// `Factor = Number | '(' Expression ')'`, read at `pos`.
pub open spec fn factor_at(tokens: Seq<Token>, pos: nat) -> Parsed
    decreases tokens_left(tokens, pos), 0int,
{
    if pos >= tokens.len() {
        Err(ParseError::UnexpectedEnd)
    } else {
        match tokens[pos as int] {
            Token::Number(n) => Ok((Expr::Number(n), 1)),
            Token::LParen => match expression_at(tokens, pos + 1) {
                Ok((inner, n)) => {
                    let close = pos + 1 + n;
                    if close >= tokens.len() {
                        Err(ParseError::MissingClosingParen { found: None, pos: close as usize })
                    } else if tokens[close as int] != Token::RParen {
                        Err(
                            ParseError::MissingClosingParen {
                                found: Some(tokens[close as int]),
                                pos: close as usize,
                            },
                        )
                    } else {
                        Ok((inner, n + 2))
                    }
                },
                Err(e) => Err(e),
            },
            other => Err(ParseError::UnexpectedToken { token: other, pos: pos as usize }),
        }
    }
}

/// The `(('*' | '/') Factor)*` that follows the term `left`, which ended
/// at `pos`: each operator makes the tree so far its left operand.
pub open spec fn term_rest(tokens: Seq<Token>, pos: nat, left: Expr) -> Parsed
    decreases tokens_left(tokens, pos), 1int,
{
    if pos < tokens.len() && multiplicative_op(tokens[pos as int]) is Some {
        match factor_at(tokens, pos + 1) {
            Ok((right, n)) => after(
                1 + n,
                term_rest(
                    tokens,
                    pos + 1 + n,
                    binary_node(multiplicative_op(tokens[pos as int])->0, left, right),
                ),
            ),
            Err(e) => Err(e),
        }
    } else {
        Ok((left, 0))
    }
}

/// `Term = Factor (('*' | '/') Factor)*`, read at `pos`.
pub open spec fn term_at(tokens: Seq<Token>, pos: nat) -> Parsed
    decreases tokens_left(tokens, pos), 2int,
{
    match factor_at(tokens, pos) {
        Ok((first, n)) => after(n, term_rest(tokens, pos + n, first)),
        Err(e) => Err(e),
    }
}

/// The `(('+' | '-') Term)*` that follows the expression `left`, which
/// ended at `pos`.
pub open spec fn expression_rest(tokens: Seq<Token>, pos: nat, left: Expr) -> Parsed
    decreases tokens_left(tokens, pos), 3int,
{
    if pos < tokens.len() && additive_op(tokens[pos as int]) is Some {
        match term_at(tokens, pos + 1) {
            Ok((right, n)) => after(
                1 + n,
                expression_rest(
                    tokens,
                    pos + 1 + n,
                    binary_node(additive_op(tokens[pos as int])->0, left, right),
                ),
            ),
            Err(e) => Err(e),
        }
    } else {
        Ok((left, 0))
    }
}

/// `Expression = Term (('+' | '-') Term)*`, read at `pos`.
pub open spec fn expression_at(tokens: Seq<Token>, pos: nat) -> Parsed
    decreases tokens_left(tokens, pos), 4int,
{
    match term_at(tokens, pos) {
        Ok((first, n)) => after(n, expression_rest(tokens, pos + n, first)),
        Err(e) => Err(e),
    }
}

/// The tree of a whole token sequence: one expression, and nothing after
/// it.
pub open spec fn parse_tokens(tokens: Seq<Token>) -> Result<Expr, ParseError> {
    match expression_at(tokens, 0) {
        Ok((expr, n)) => if n < tokens.len() {
            Err(ParseError::TrailingInput { token: tokens[n as int], pos: n as usize })
        } else {
            Ok(expr)
        },
        Err(e) => Err(e),
    }
}

/// A factor spans at least one token, and none beyond the last.
pub proof fn lemma_factor_span(tokens: Seq<Token>, pos: nat)
    ensures
        factor_at(tokens, pos) matches Ok((_, n)) ==> 1 <= n && pos + n <= tokens.len(),
    decreases tokens_left(tokens, pos), 0int,
{
    if pos < tokens.len() && tokens[pos as int] == Token::LParen {
        lemma_expression_span(tokens, pos + 1);
    }
}

/// What follows a term spans no token beyond the last.
pub proof fn lemma_term_rest_span(tokens: Seq<Token>, pos: nat, left: Expr)
    requires
        pos <= tokens.len(),
    ensures
        term_rest(tokens, pos, left) matches Ok((_, n)) ==> pos + n <= tokens.len(),
    decreases tokens_left(tokens, pos), 1int,
{
    if pos < tokens.len() && multiplicative_op(tokens[pos as int]) is Some {
        lemma_factor_span(tokens, pos + 1);
        if let Ok((right, n)) = factor_at(tokens, pos + 1) {
            lemma_term_rest_span(
                tokens,
                pos + 1 + n,
                binary_node(multiplicative_op(tokens[pos as int])->0, left, right),
            );
        }
    }
}

/// A term spans at least one token, and none beyond the last.
pub proof fn lemma_term_span(tokens: Seq<Token>, pos: nat)
    ensures
        term_at(tokens, pos) matches Ok((_, n)) ==> 1 <= n && pos + n <= tokens.len(),
    decreases tokens_left(tokens, pos), 2int,
{
    lemma_factor_span(tokens, pos);
    if let Ok((first, n)) = factor_at(tokens, pos) {
        lemma_term_rest_span(tokens, pos + n, first);
    }
}

/// What follows an expression spans no token beyond the last.
pub proof fn lemma_expression_rest_span(tokens: Seq<Token>, pos: nat, left: Expr)
    requires
        pos <= tokens.len(),
    ensures
        expression_rest(tokens, pos, left) matches Ok((_, n)) ==> pos + n <= tokens.len(),
    decreases tokens_left(tokens, pos), 3int,
{
    if pos < tokens.len() && additive_op(tokens[pos as int]) is Some {
        lemma_term_span(tokens, pos + 1);
        if let Ok((right, n)) = term_at(tokens, pos + 1) {
            lemma_expression_rest_span(
                tokens,
                pos + 1 + n,
                binary_node(additive_op(tokens[pos as int])->0, left, right),
            );
        }
    }
}

/// An expression spans at least one token, and none beyond the last.
pub proof fn lemma_expression_span(tokens: Seq<Token>, pos: nat)
    ensures
        expression_at(tokens, pos) matches Ok((_, n)) ==> 1 <= n && pos + n <= tokens.len(),
    decreases tokens_left(tokens, pos), 4int,
{
    lemma_term_span(tokens, pos);
    if let Ok((first, n)) = term_at(tokens, pos) {
        lemma_expression_rest_span(tokens, pos + n, first);
    }
}

/// What a parsing function that began at `pos` returns, as a value of the
/// model.
pub open spec fn parsed_view(r: Result<(Expr, usize), ParseError>, pos: usize) -> Parsed {
    match r {
        Ok((expr, next)) => Ok((expr, (next - pos) as nat)),
        Err(e) => Err(e),
    }
}

fn additive_of(token: Token) -> (op: Option<Op>)
    ensures
        op == additive_op(token),
{
    match token {
        Token::Plus => Some(Op::Add),
        Token::Minus => Some(Op::Sub),
        _ => None,
    }
}

fn multiplicative_of(token: Token) -> (op: Option<Op>)
    ensures
        op == multiplicative_op(token),
{
    match token {
        Token::Multiply => Some(Op::Mul),
        Token::Divide => Some(Op::Div),
        _ => None,
    }
}

/// Parses one Factor at `pos`: a number, or an Expression in parentheses.
/// Returns the tree and the position after it.
///
/// The call stack grows with the depth of nested parentheses, and with
/// nothing else.
pub fn parse_factor(tokens: &[Token], pos: usize) -> (r: Result<(Expr, usize), ParseError>)
    ensures
        parsed_view(r, pos) == factor_at(tokens@, pos as nat),
        r matches Ok((_, next)) ==> pos < next <= tokens.len(),
    decreases tokens_left(tokens@, pos as nat), 0int,
{
    proof {
        lemma_factor_span(tokens@, pos as nat);
    }
    if pos >= tokens.len() {
        return Err(ParseError::UnexpectedEnd);
    }
    match tokens[pos] {
        Token::Number(n) => Ok((Expr::Number(n), pos + 1)),
        Token::LParen => match parse_expression(tokens, pos + 1) {
            Ok((inner, close)) => {
                if close >= tokens.len() {
                    Err(ParseError::MissingClosingParen { found: None, pos: close })
                } else {
                    match tokens[close] {
                        Token::RParen => Ok((inner, close + 1)),
                        other => Err(
                            ParseError::MissingClosingParen { found: Some(other), pos: close },
                        ),
                    }
                }
            },
            Err(e) => Err(e),
        },
        other => Err(ParseError::UnexpectedToken { token: other, pos }),
    }
}

/// Parses one Term at `pos`: Factors joined by `*` and `/`, grouped from
/// the left. Returns the tree and the position after it.
pub fn parse_term(tokens: &[Token], pos: usize) -> (r: Result<(Expr, usize), ParseError>)
    ensures
        parsed_view(r, pos) == term_at(tokens@, pos as nat),
        r matches Ok((_, next)) ==> pos < next <= tokens.len(),
    decreases tokens_left(tokens@, pos as nat), 2int,
{
    let (first, after_first) = match parse_factor(tokens, pos) {
        Ok(parsed) => parsed,
        Err(e) => {
            return Err(e);
        },
    };
    let mut term: Expr = first;
    let mut p: usize = after_first;
    loop
        invariant
            pos < p <= tokens.len(),
            term_at(tokens@, pos as nat) == after(
                (p - pos) as nat,
                term_rest(tokens@, p as nat, term),
            ),
        ensures
            term_at(tokens@, pos as nat) == Ok::<(Expr, nat), ParseError>(
                (term, (p - pos) as nat),
            ),
        decreases tokens.len() - p,
    {
        if p >= tokens.len() {
            break ;
        }
        match multiplicative_of(tokens[p]) {
            None => {
                break ;
            },
            Some(op) => match parse_factor(tokens, p + 1) {
                Ok((right, next)) => {
                    term = Expr::binary(op, term, right);
                    p = next;
                },
                Err(e) => {
                    return Err(e);
                },
            },
        }
    }
    Ok((term, p))
}

/// Parses one Expression at `pos`: Terms joined by `+` and `-`, grouped
/// from the left. Returns the tree and the position after it; what follows
/// the expression is not looked at.
pub fn parse_expression(tokens: &[Token], pos: usize) -> (r: Result<(Expr, usize), ParseError>)
    ensures
        parsed_view(r, pos) == expression_at(tokens@, pos as nat),
        r matches Ok((_, next)) ==> pos < next <= tokens.len(),
    decreases tokens_left(tokens@, pos as nat), 4int,
{
    let (first, after_first) = match parse_term(tokens, pos) {
        Ok(parsed) => parsed,
        Err(e) => {
            return Err(e);
        },
    };
    let mut expr: Expr = first;
    let mut p: usize = after_first;
    loop
        invariant
            pos < p <= tokens.len(),
            expression_at(tokens@, pos as nat) == after(
                (p - pos) as nat,
                expression_rest(tokens@, p as nat, expr),
            ),
        ensures
            expression_at(tokens@, pos as nat) == Ok::<(Expr, nat), ParseError>(
                (expr, (p - pos) as nat),
            ),
        decreases tokens.len() - p,
    {
        if p >= tokens.len() {
            break ;
        }
        match additive_of(tokens[p]) {
            None => {
                break ;
            },
            Some(op) => match parse_term(tokens, p + 1) {
                Ok((right, next)) => {
                    expr = Expr::binary(op, expr, right);
                    p = next;
                },
                Err(e) => {
                    return Err(e);
                },
            },
        }
    }
    Ok((expr, p))
}

/// Parses a whole token sequence: one Expression, after which no token may
/// remain.
///
/// The parse succeeds on the sentences of the grammar and on nothing else,
/// and the tree is the one that the sentence's derivation means.
pub fn parse(tokens: &[Token]) -> (r: Result<Expr, ParseError>)
    ensures
        r == parse_tokens(tokens@),
        r is Ok <==> exists|e: ExpressionTree| e.wf() && #[trigger] e.tokens() == tokens@,
        forall|e: ExpressionTree|
            e.wf() && #[trigger] e.tokens() == tokens@ ==> r == Ok::<Expr, ParseError>(e.expr()),
{
    proof {
        if parse_tokens(tokens@) is Ok {
            let e = lemma_parsed_is_sentence(tokens@);
            assert(e.wf() && e.tokens() == tokens@);
        }
        assert forall|e: ExpressionTree| e.wf() && #[trigger] e.tokens() == tokens@ implies
            parse_tokens(tokens@) == Ok::<Expr, ParseError>(e.expr()) by {
            lemma_sentence_parses(e);
        }
    }
    match parse_expression(tokens, 0) {
        Ok((expr, next)) => {
            if next < tokens.len() {
                Err(ParseError::TrailingInput { token: tokens[next], pos: next })
            } else {
                Ok(expr)
            }
        },
        Err(e) => Err(e),
    }
}

} // verus!
