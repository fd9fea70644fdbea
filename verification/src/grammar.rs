//! The grammar as derivations, and what the parser makes of its sentences.
//!
//! A derivation here is written in left-recursive form,
//!
//! ```text
//! Expression = Term   | Expression ('+' | '-') Term
//! Term       = Factor | Term ('*' | '/') Factor
//! Factor     = Number | '(' Expression ')'
//! ```
//!
//! which has the same sentences as `Term (('+' | '-') Term)*` and
//! `Factor (('*' | '/') Factor)*`, and shows how a row of operators of one
//! level groups: from the left.

use vstd::prelude::*;
use crate::expr::{binary_node, Expr, Op};
use crate::lexer::{lex, LexError};
use crate::parser::{
    additive_op,
    after,
    expression_at,
    expression_rest,
    factor_at,
    lemma_expression_rest_span,
    lemma_expression_span,
    lemma_factor_span,
    lemma_term_rest_span,
    lemma_term_span,
    multiplicative_op,
    parse_tokens,
    term_at,
    term_rest,
    ParseError,
};
use crate::token::{Decimal, Token};

verus! {

/// A derivation of an Expression.
pub enum ExpressionTree {
    Term(TermTree),
    Joined(Box<ExpressionTree>, Op, TermTree),
}

/// A derivation of a Term.
pub enum TermTree {
    Factor(FactorTree),
    Joined(Box<TermTree>, Op, FactorTree),
}

/// A derivation of a Factor.
pub enum FactorTree {
    Number(Decimal),
    Parenthesised(Box<ExpressionTree>),
}

/// The token that writes an operator.
pub open spec fn op_token(op: Op) -> Token {
    match op {
        Op::Add => Token::Plus,
        Op::Sub => Token::Minus,
        Op::Mul => Token::Multiply,
        Op::Div => Token::Divide,
    }
}

pub open spec fn is_additive(op: Op) -> bool {
    op == Op::Add || op == Op::Sub
}

impl ExpressionTree {
    /// Each operator stands at the level of the rule that it joins.
    pub open spec fn wf(self) -> bool
        decreases self,
    {
        match self {
            ExpressionTree::Term(t) => t.wf(),
            ExpressionTree::Joined(left, op, right) => left.wf() && is_additive(op) && right.wf(),
        }
    }

    /// The sentence that this derivation derives.
    pub open spec fn tokens(self) -> Seq<Token>
        decreases self,
    {
        match self {
            ExpressionTree::Term(t) => t.tokens(),
            ExpressionTree::Joined(left, op, right) => left.tokens().push(op_token(op))
                + right.tokens(),
        }
    }

    /// The tree that this derivation means: operators as nodes,
    /// parentheses gone.
    pub open spec fn expr(self) -> Expr
        decreases self,
    {
        match self {
            ExpressionTree::Term(t) => t.expr(),
            ExpressionTree::Joined(left, op, right) => binary_node(op, left.expr(), right.expr()),
        }
    }
}

impl TermTree {
    /// Each operator stands at the level of the rule that it joins.
    pub open spec fn wf(self) -> bool
        decreases self,
    {
        match self {
            TermTree::Factor(f) => f.wf(),
            TermTree::Joined(left, op, right) => left.wf() && !is_additive(op) && right.wf(),
        }
    }

    /// The sentence that this derivation derives.
    pub open spec fn tokens(self) -> Seq<Token>
        decreases self,
    {
        match self {
            TermTree::Factor(f) => f.tokens(),
            TermTree::Joined(left, op, right) => left.tokens().push(op_token(op))
                + right.tokens(),
        }
    }

    /// The tree that this derivation means.
    pub open spec fn expr(self) -> Expr
        decreases self,
    {
        match self {
            TermTree::Factor(f) => f.expr(),
            TermTree::Joined(left, op, right) => binary_node(op, left.expr(), right.expr()),
        }
    }
}

impl FactorTree {
    /// Each operator stands at the level of the rule that it joins.
    pub open spec fn wf(self) -> bool
        decreases self,
    {
        match self {
            FactorTree::Number(_) => true,
            FactorTree::Parenthesised(inner) => inner.wf(),
        }
    }

    /// The sentence that this derivation derives.
    pub open spec fn tokens(self) -> Seq<Token>
        decreases self,
    {
        match self {
            FactorTree::Number(n) => seq![Token::Number(n)],
            FactorTree::Parenthesised(inner) => (seq![Token::LParen] + inner.tokens()).push(
                Token::RParen,
            ),
        }
    }

    /// The tree that this derivation means.
    pub open spec fn expr(self) -> Expr
        decreases self,
    {
        match self {
            FactorTree::Number(n) => Expr::Number(n),
            FactorTree::Parenthesised(inner) => inner.expr(),
        }
    }
}

/// `part` stands in `tokens` from `pos` on.
pub open spec fn stands_at(tokens: Seq<Token>, pos: nat, part: Seq<Token>) -> bool {
    pos + part.len() <= tokens.len() && tokens.subrange(pos as int, (pos + part.len()) as int) == part
}

/// No operator of the Term level stands at `pos`.
pub open spec fn term_ends_at(tokens: Seq<Token>, pos: nat) -> bool {
    pos >= tokens.len() || multiplicative_op(tokens[pos as int]) is None
}

/// Where two parts stand one after the other, each of them stands.
proof fn lemma_stands_split(tokens: Seq<Token>, pos: nat, a: Seq<Token>, b: Seq<Token>)
    requires
        stands_at(tokens, pos, a + b),
    ensures
        stands_at(tokens, pos, a),
        stands_at(tokens, pos + a.len(), b),
{
    let whole = tokens.subrange(pos as int, (pos + (a + b).len()) as int);
    assert(tokens.subrange(pos as int, (pos + a.len()) as int) =~= whole.subrange(
        0,
        a.len() as int,
    ));
    assert(whole.subrange(0, a.len() as int) =~= a);
    assert(tokens.subrange((pos + a.len()) as int, (pos + a.len() + b.len()) as int)
        =~= whole.subrange(
        a.len() as int,
        whole.len() as int,
    ));
    assert(whole.subrange(a.len() as int, whole.len() as int) =~= b);
}

/// Where a part and a token after it stand, the token is in its place.
proof fn lemma_stands_push(tokens: Seq<Token>, pos: nat, a: Seq<Token>, last: Token)
    requires
        stands_at(tokens, pos, a.push(last)),
    ensures
        stands_at(tokens, pos, a),
        pos + a.len() < tokens.len(),
        tokens[(pos + a.len()) as int] == last,
{
    assert(a.push(last) =~= a + seq![last]);
    lemma_stands_split(tokens, pos, a, seq![last]);
    assert(tokens.subrange((pos + a.len()) as int, (pos + a.len() + 1) as int)[0] == last);
}

/// A Factor's sentence, wherever it stands, is read as that factor, whole.
pub proof fn lemma_factor_read(f: FactorTree, tokens: Seq<Token>, pos: nat)
    requires
        f.wf(),
        stands_at(tokens, pos, f.tokens()),
    ensures
        factor_at(tokens, pos) == Ok::<(Expr, nat), ParseError>((f.expr(), f.tokens().len())),
    decreases f,
{
    match f {
        FactorTree::Number(n) => {
            assert(tokens.subrange(pos as int, (pos + 1) as int)[0] == Token::Number(n));
        },
        FactorTree::Parenthesised(inner) => {
            let body = seq![Token::LParen] + inner.tokens();
            lemma_stands_push(tokens, pos, body, Token::RParen);
            lemma_stands_split(tokens, pos, seq![Token::LParen], inner.tokens());
            assert(tokens.subrange(pos as int, (pos + 1) as int)[0] == Token::LParen);
            lemma_expression_read(*inner, tokens, pos + 1);
        },
    }
}

/// A Term's sentence is read as that term; the reading then goes on with
/// what follows it.
pub proof fn lemma_term_read(t: TermTree, tokens: Seq<Token>, pos: nat)
    requires
        t.wf(),
        stands_at(tokens, pos, t.tokens()),
    ensures
        term_at(tokens, pos) == after(
            t.tokens().len(),
            term_rest(tokens, pos + t.tokens().len(), t.expr()),
        ),
    decreases t,
{
    match t {
        TermTree::Factor(f) => {
            lemma_factor_read(f, tokens, pos);
        },
        TermTree::Joined(left, op, right) => {
            let head = left.tokens().push(op_token(op));
            lemma_stands_split(tokens, pos, head, right.tokens());
            lemma_stands_push(tokens, pos, left.tokens(), op_token(op));
            lemma_term_read(*left, tokens, pos);
            lemma_factor_read(right, tokens, pos + head.len());
        },
    }
}

/// An Expression's sentence, where no operator of the Term level follows
/// it, is read as that expression; the reading then goes on with what
/// follows it.
pub proof fn lemma_expression_read(e: ExpressionTree, tokens: Seq<Token>, pos: nat)
    requires
        e.wf(),
        stands_at(tokens, pos, e.tokens()),
        term_ends_at(tokens, pos + e.tokens().len()),
    ensures
        expression_at(tokens, pos) == after(
            e.tokens().len(),
            expression_rest(tokens, pos + e.tokens().len(), e.expr()),
        ),
    decreases e,
{
    match e {
        ExpressionTree::Term(t) => {
            lemma_term_read(t, tokens, pos);
        },
        ExpressionTree::Joined(left, op, right) => {
            let head = left.tokens().push(op_token(op));
            lemma_stands_split(tokens, pos, head, right.tokens());
            lemma_stands_push(tokens, pos, left.tokens(), op_token(op));
            lemma_expression_read(*left, tokens, pos);
            lemma_term_read(right, tokens, pos + head.len());
        },
    }
}

/// Every sentence of the grammar parses, to the end and to the tree that
/// its derivation means: operators of one level grouped from the left,
/// `*` and `/` below `+` and `-`, parentheses above both.
pub proof fn lemma_sentence_parses(e: ExpressionTree)
    requires
        e.wf(),
    ensures
        parse_tokens(e.tokens()) == Ok::<Expr, ParseError>(e.expr()),
{
    let tokens = e.tokens();
    assert(tokens.subrange(0, tokens.len() as int) =~= tokens);
    lemma_expression_read(e, tokens, 0);
}

/// A text whose tokens are a sentence of the grammar goes through both
/// stages: it has a token sequence, and that sequence parses, to the end, to
/// the tree that the derivation means.
pub proof fn lemma_valid_text_parses(s: Seq<char>, e: ExpressionTree)
    requires
        e.wf(),
        lex(s) == Ok::<Seq<Token>, LexError>(e.tokens()),
    ensures
        lex(s) matches Ok(tokens) && parse_tokens(tokens) == Ok::<Expr, ParseError>(e.expr()),
{
    lemma_sentence_parses(e);
}

/// What is read as a Factor is the sentence of a Factor: the result is its
/// derivation.
pub proof fn lemma_factor_derivation(tokens: Seq<Token>, pos: nat) -> (f: FactorTree)
    requires
        factor_at(tokens, pos) is Ok,
    ensures
        f.wf(),
        factor_at(tokens, pos) == Ok::<(Expr, nat), ParseError>((f.expr(), f.tokens().len())),
        stands_at(tokens, pos, f.tokens()),
    decreases tokens.len() - pos, 0int,
{
    lemma_factor_span(tokens, pos);
    match tokens[pos as int] {
        Token::Number(n) => {
            let f = FactorTree::Number(n);
            assert(tokens.subrange(pos as int, (pos + 1) as int) =~= f.tokens());
            f
        },
        _ => {
            lemma_expression_span(tokens, pos + 1);
            let inner = lemma_expression_derivation(tokens, pos + 1);
            let f = FactorTree::Parenthesised(Box::new(inner));
            assert(tokens.subrange(pos as int, (pos + f.tokens().len()) as int) =~= f.tokens());
            f
        },
    }
}

/// What is read after a Term, together with that Term, is the sentence of
/// a Term.
pub proof fn lemma_term_rest_derivation(
    tokens: Seq<Token>,
    start: nat,
    left: TermTree,
) -> (t: TermTree)
    requires
        left.wf(),
        stands_at(tokens, start, left.tokens()),
        term_rest(tokens, start + left.tokens().len(), left.expr()) is Ok,
    ensures
        t.wf(),
        stands_at(tokens, start, t.tokens()),
        t.tokens().len() >= left.tokens().len(),
        term_rest(tokens, start + left.tokens().len(), left.expr()) == Ok::<
            (Expr, nat),
            ParseError,
        >((t.expr(), (t.tokens().len() - left.tokens().len()) as nat)),
    decreases tokens.len() - (start + left.tokens().len()), 1int,
{
    let pos = start + left.tokens().len();
    if pos < tokens.len() && multiplicative_op(tokens[pos as int]) is Some {
        let op = multiplicative_op(tokens[pos as int])->0;
        lemma_factor_span(tokens, pos + 1);
        let right = lemma_factor_derivation(tokens, pos + 1);
        let joined = TermTree::Joined(Box::new(left), op, right);
        assert(tokens.subrange(start as int, (start + joined.tokens().len()) as int)
            =~= joined.tokens());
        lemma_term_rest_derivation(tokens, start, joined)
    } else {
        left
    }
}

/// What is read as a Term is the sentence of a Term: the result is its
/// derivation.
pub proof fn lemma_term_derivation(tokens: Seq<Token>, pos: nat) -> (t: TermTree)
    requires
        term_at(tokens, pos) is Ok,
    ensures
        t.wf(),
        term_at(tokens, pos) == Ok::<(Expr, nat), ParseError>((t.expr(), t.tokens().len())),
        stands_at(tokens, pos, t.tokens()),
    decreases tokens.len() - pos, 2int,
{
    lemma_factor_span(tokens, pos);
    let first = lemma_factor_derivation(tokens, pos);
    lemma_term_rest_derivation(tokens, pos, TermTree::Factor(first))
}

/// What is read after an Expression, together with that Expression, is the
/// sentence of an Expression.
pub proof fn lemma_expression_rest_derivation(
    tokens: Seq<Token>,
    start: nat,
    left: ExpressionTree,
) -> (e: ExpressionTree)
    requires
        left.wf(),
        stands_at(tokens, start, left.tokens()),
        expression_rest(tokens, start + left.tokens().len(), left.expr()) is Ok,
    ensures
        e.wf(),
        stands_at(tokens, start, e.tokens()),
        e.tokens().len() >= left.tokens().len(),
        expression_rest(tokens, start + left.tokens().len(), left.expr()) == Ok::<
            (Expr, nat),
            ParseError,
        >((e.expr(), (e.tokens().len() - left.tokens().len()) as nat)),
    decreases tokens.len() - (start + left.tokens().len()), 3int,
{
    let pos = start + left.tokens().len();
    if pos < tokens.len() && additive_op(tokens[pos as int]) is Some {
        let op = additive_op(tokens[pos as int])->0;
        lemma_term_span(tokens, pos + 1);
        let right = lemma_term_derivation(tokens, pos + 1);
        let joined = ExpressionTree::Joined(Box::new(left), op, right);
        assert(tokens.subrange(start as int, (start + joined.tokens().len()) as int)
            =~= joined.tokens());
        lemma_expression_rest_derivation(tokens, start, joined)
    } else {
        left
    }
}

/// What is read as an Expression is the sentence of an Expression: the
/// result is its derivation.
pub proof fn lemma_expression_derivation(tokens: Seq<Token>, pos: nat) -> (e: ExpressionTree)
    requires
        expression_at(tokens, pos) is Ok,
    ensures
        e.wf(),
        expression_at(tokens, pos) == Ok::<(Expr, nat), ParseError>(
            (e.expr(), e.tokens().len()),
        ),
        stands_at(tokens, pos, e.tokens()),
    decreases tokens.len() - pos, 4int,
{
    lemma_term_span(tokens, pos);
    let first = lemma_term_derivation(tokens, pos);
    lemma_expression_rest_derivation(tokens, pos, ExpressionTree::Term(first))
}

/// Only sentences of the grammar parse: a token sequence with a tree has a
/// derivation that derives just these tokens and means just that tree.
pub proof fn lemma_parsed_is_sentence(tokens: Seq<Token>) -> (e: ExpressionTree)
    requires
        parse_tokens(tokens) is Ok,
    ensures
        e.wf(),
        e.tokens() == tokens,
        parse_tokens(tokens) == Ok::<Expr, ParseError>(e.expr()),
{
    let e = lemma_expression_derivation(tokens, 0);
    assert(tokens.subrange(0, tokens.len() as int) =~= tokens);
    e
}

} // verus!
