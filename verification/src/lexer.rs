//! The lexer: one left-to-right scan from text to tokens.
//!
//! Whitespace separates tokens and yields none. Each of `+ - * / ( )` is a
//! token of its own. A numeric literal is `digits` or `digits.digits`; a run
//! of digits and points of any other shape is rejected, never cut short. The
//! first offending character ends the scan with an error.

use vstd::prelude::*;
use vstd::std_specs::iter::IteratorSpec;
use crate::token::{Decimal, Token};

verus! {

broadcast use vstd::string::group_string_axioms;

/// Why a text has no token sequence. Positions count characters from zero.
#[derive(Debug, Clone, Copy, PartialEq, Eq, Structural)]
pub enum LexError {
    /// A character that can stand in no token.
    UnexpectedChar { ch: char, pos: usize },
    /// At `pos` starts a run of digits and points that is no literal: it
    /// begins or ends with a point, or holds two of them.
    MalformedNumber { pos: usize },
    /// The literal at `pos` is well formed, but its digits, read as one
    /// integer, exceed `u64::MAX`.
    NumberTooLarge { pos: usize },
}

/// Space, tab and newline separate tokens.
pub open spec fn is_space(c: char) -> bool {
    c == ' ' || c == '\t' || c == '\n'
}

pub open spec fn is_digit(c: char) -> bool {
    '0' <= c <= '9'
}

/// The token of a one-character operator or parenthesis.
pub open spec fn operator_token(c: char) -> Option<Token> {
    if c == '+' {
        Some(Token::Plus)
    } else if c == '-' {
        Some(Token::Minus)
    } else if c == '*' {
        Some(Token::Multiply)
    } else if c == '/' {
        Some(Token::Divide)
    } else if c == '(' {
        Some(Token::LParen)
    } else if c == ')' {
        Some(Token::RParen)
    } else {
        None
    }
}

/// A character that may stand in some text with a token sequence.
pub open spec fn in_alphabet(c: char) -> bool {
    is_space(c) || is_digit(c) || c == '.' || operator_token(c) is Some
}

pub open spec fn digit_value(c: char) -> nat {
    (c as int - '0' as int) as nat
}

/// The first position from `i` on that holds no digit.
pub open spec fn digits_end(s: Seq<char>, i: int) -> int
    decreases s.len() - i,
{
    if 0 <= i < s.len() && is_digit(s[i]) {
        digits_end(s, i + 1)
    } else {
        i
    }
}

/// The integer written by `acc` followed by the digits `s[from..to]`.
pub open spec fn append_digits(acc: nat, s: Seq<char>, from: int, to: int) -> nat
    decreases to - from,
{
    if from >= to {
        acc
    } else {
        append_digits(acc, s, from, to - 1) * 10 + digit_value(s[to - 1])
    }
}

/// Where the literal that starts at `i` ends, if the run of digits and
/// points that starts there is a literal: `(point, end)`, with
/// `point == end` for a literal without a fraction.
pub open spec fn literal_span(s: Seq<char>, i: int) -> Option<(int, int)> {
    let point = digits_end(s, i);
    if point == i {
        None
    } else if point < s.len() && s[point] == '.' {
        let end = digits_end(s, point + 1);
        if end == point + 1 || (end < s.len() && s[end] == '.') {
            None
        } else {
            Some((point, end))
        }
    } else {
        Some((point, point))
    }
}

/// The digits of the literal `s[i..end]` with a point at `point` (or none,
/// where `point == end`), read as one integer.
pub open spec fn literal_mantissa(s: Seq<char>, i: int, point: int, end: int) -> nat {
    append_digits(append_digits(0, s, i, point), s, point + 1, end)
}

pub open spec fn literal_scale(point: int, end: int) -> nat {
    if point < end {
        (end - point - 1) as nat
    } else {
        0
    }
}

/// The literal that starts at `i`, and the position after it.
pub open spec fn literal_at(s: Seq<char>, i: int) -> Result<(Decimal, int), LexError> {
    match literal_span(s, i) {
        None => Err(LexError::MalformedNumber { pos: i as usize }),
        Some((point, end)) => {
            let mantissa = literal_mantissa(s, i, point, end);
            if mantissa > u64::MAX {
                Err(LexError::NumberTooLarge { pos: i as usize })
            } else {
                Ok(
                    (
                        Decimal {
                            mantissa: mantissa as u64,
                            scale: literal_scale(point, end) as usize,
                        },
                        end,
                    ),
                )
            }
        },
    }
}

/// The tokens `done` before the tokens of `rest`, or the error of `rest`.
pub open spec fn tokens_then(done: Seq<Token>, rest: Result<Seq<Token>, LexError>) -> Result<
    Seq<Token>,
    LexError,
> {
    match rest {
        Ok(tokens) => Ok(done + tokens),
        Err(e) => Err(e),
    }
}

/// The tokens of `s[i..]`, or the first error met from `i` on.
pub open spec fn lex_from(s: Seq<char>, i: int) -> Result<Seq<Token>, LexError>
    decreases s.len() - i,
{
    if i < 0 || i >= s.len() {
        Ok(Seq::empty())
    } else if is_space(s[i]) {
        lex_from(s, i + 1)
    } else if operator_token(s[i]) is Some {
        tokens_then(seq![operator_token(s[i])->0], lex_from(s, i + 1))
    } else if is_digit(s[i]) || s[i] == '.' {
        match literal_at(s, i) {
            Ok((number, end)) => {
                proof {
                    lemma_literal_span(s, i);
                }
                tokens_then(seq![Token::Number(number)], lex_from(s, end))
            },
            Err(e) => Err(e),
        }
    } else {
        Err(LexError::UnexpectedChar { ch: s[i], pos: i as usize })
    }
}

/// The token sequence of a text, or the first lexical error in it.
pub open spec fn lex(s: Seq<char>) -> Result<Seq<Token>, LexError> {
    lex_from(s, 0)
}

/// The end of a run of digits lies between its start and the end of the
/// text, and only digits stand before it.
pub proof fn lemma_digits_end(s: Seq<char>, i: int)
    requires
        0 <= i <= s.len(),
    ensures
        i <= digits_end(s, i) <= s.len(),
        forall|k: int| i <= k < digits_end(s, i) ==> is_digit(#[trigger] s[k]),
        digits_end(s, i) < s.len() ==> !is_digit(s[digits_end(s, i)]),
        digits_end(s, i) > i <==> (i < s.len() && is_digit(s[i])),
    decreases s.len() - i,
{
    if i < s.len() && is_digit(s[i]) {
        lemma_digits_end(s, i + 1);
    }
}

/// A literal is not empty, and ends within the text.
pub proof fn lemma_literal_span(s: Seq<char>, i: int)
    requires
        0 <= i <= s.len(),
    ensures
        literal_span(s, i) matches Some((point, end)) ==> i < point <= end <= s.len() && (point
            == end || point + 1 < end),
{
    lemma_digits_end(s, i);
    let point = digits_end(s, i);
    if point < s.len() {
        lemma_digits_end(s, point + 1);
    }
}

/// `s[i..end]` is a literal, `digits` or `digits.digits`, with its point at
/// `point` (`point == end` where it has none), and neither a digit nor a
/// point follows it.
pub open spec fn is_literal(s: Seq<char>, i: int, point: int, end: int) -> bool {
    &&& 0 <= i < point <= end <= s.len()
    &&& forall|k: int| i <= k < point ==> is_digit(#[trigger] s[k])
    &&& point < end ==> s[point] == '.' && point + 1 < end
    &&& forall|k: int| point < k < end ==> is_digit(#[trigger] s[k])
    &&& end < s.len() ==> !is_digit(s[end]) && s[end] != '.'
}

/// A run of digits that ends at `j` is the one that `digits_end` finds.
proof fn lemma_digits_end_is(s: Seq<char>, i: int, j: int)
    requires
        0 <= i <= j <= s.len(),
        forall|k: int| i <= k < j ==> is_digit(#[trigger] s[k]),
        j < s.len() ==> !is_digit(s[j]),
    ensures
        digits_end(s, i) == j,
    decreases j - i,
{
    if i < j {
        lemma_digits_end_is(s, i + 1, j);
    }
}

/// The literal that the scan finds at `i` is the one literal that stands
/// there; where none stands there, it finds none.
pub proof fn lemma_literal_span_is_literal(s: Seq<char>, i: int, point: int, end: int)
    requires
        0 <= i <= s.len(),
    ensures
        literal_span(s, i) == Some((point, end)) <==> is_literal(s, i, point, end),
{
    lemma_digits_end(s, i);
    let p = digits_end(s, i);
    if p < s.len() {
        lemma_digits_end(s, p + 1);
    }
    if is_literal(s, i, point, end) {
        lemma_digits_end_is(s, i, point);
        if point < end {
            lemma_digits_end_is(s, point + 1, end);
        }
    }
}

/// Digits written after `acc` never make the integer smaller.
pub proof fn lemma_append_digits_grows(acc: nat, s: Seq<char>, from: int, to: int)
    ensures
        append_digits(acc, s, from, to) >= acc,
    decreases to - from,
{
    if from < to {
        lemma_append_digits_grows(acc, s, from, to - 1);
    }
}

/// The text holds operators, parentheses and whitespace only.
pub open spec fn operators_only(s: Seq<char>) -> bool {
    forall|i: int| 0 <= i < s.len() ==> is_space(#[trigger] s[i]) || operator_token(s[i]) is Some
}

/// The token of each operator and parenthesis of a text, in order; every
/// other character is passed over.
pub open spec fn operator_tokens(s: Seq<char>) -> Seq<Token> {
    s.filter_map(|c: char| operator_token(c))
}

proof fn lemma_operators_from(s: Seq<char>, i: int)
    requires
        operators_only(s),
        0 <= i <= s.len(),
    ensures
        tokens_then(operator_tokens(s.take(i)), lex_from(s, i)) == Ok::<Seq<Token>, LexError>(
            operator_tokens(s),
        ),
    decreases s.len() - i,
{
    if i == s.len() {
        assert(s.take(i) =~= s);
        assert(operator_tokens(s) + Seq::<Token>::empty() =~= operator_tokens(s));
    } else {
        lemma_operators_from(s, i + 1);
        s.lemma_filter_map_take_succ(|c: char| operator_token(c), i);
        let done = operator_tokens(s.take(i));
        if let Ok(more) = lex_from(s, i + 1) {
            if operator_token(s[i]) is Some {
                let t = operator_token(s[i])->0;
                assert(done + (seq![t] + more) =~= (done + seq![t]) + more);
            }
        }
    }
}

/// A text of operators, parentheses and whitespace has a token sequence:
/// its characters other than whitespace, one token each, in their order.
pub proof fn lemma_operators_lex(s: Seq<char>)
    requires
        operators_only(s),
    ensures
        lex(s) == Ok::<Seq<Token>, LexError>(operator_tokens(s)),
{
    lemma_operators_from(s, 0);
    assert(s.take(0) =~= Seq::<char>::empty());
    assert(operator_tokens(Seq::<char>::empty()) =~= Seq::<Token>::empty());
    if let Ok(tokens) = lex_from(s, 0) {
        assert(Seq::<Token>::empty() + tokens =~= tokens);
    }
}

proof fn lemma_digits_end_of_prefix(s: Seq<char>, k: int, i: int)
    requires
        0 <= i <= k < s.len(),
        !is_digit(s[k]),
    ensures
        digits_end(s.take(k), i) == digits_end(s, i),
        digits_end(s, i) <= k,
    decreases k - i,
{
    if i < k && is_digit(s[i]) {
        lemma_digits_end_of_prefix(s, k, i + 1);
    }
}

proof fn lemma_append_digits_of_prefix(acc: nat, s: Seq<char>, k: int, from: int, to: int)
    requires
        0 <= from,
        to <= k <= s.len(),
    ensures
        append_digits(acc, s.take(k), from, to) == append_digits(acc, s, from, to),
    decreases to - from,
{
    if from < to {
        lemma_append_digits_of_prefix(acc, s, k, from, to - 1);
    }
}

proof fn lemma_literal_of_prefix(s: Seq<char>, k: int, i: int)
    requires
        0 <= i < k < s.len(),
        !in_alphabet(s[k]),
    ensures
        literal_at(s.take(k), i) == literal_at(s, i),
        literal_at(s, i) matches Ok((_, end)) ==> i < end <= k,
{
    let p = s.take(k);
    lemma_digits_end(s, i);
    lemma_digits_end_of_prefix(s, k, i);
    lemma_literal_span(s, i);
    let point = digits_end(s, i);
    assert(p.len() == k);
    if point < k {
        assert(p[point] == s[point]);
        if s[point] == '.' {
            lemma_digits_end(s, point + 1);
            lemma_digits_end_of_prefix(s, k, point + 1);
            let end = digits_end(s, point + 1);
            if end < k {
                assert(p[end] == s[end]);
            }
        }
    }
    assert(literal_span(p, i) == literal_span(s, i));
    if let Some((point, end)) = literal_span(s, i) {
        lemma_append_digits_of_prefix(0, s, k, i, point);
        lemma_append_digits_of_prefix(append_digits(0, s, i, point), s, k, point + 1, end);
    }
}

/// The scan of a text up to a character outside the alphabet, held against
/// the scan of the text before that character.
pub open spec fn stopped_at(
    before: Result<Seq<Token>, LexError>,
    ch: char,
    pos: int,
) -> Result<Seq<Token>, LexError> {
    match before {
        Ok(_) => Err(LexError::UnexpectedChar { ch, pos: pos as usize }),
        Err(e) => Err(e),
    }
}

proof fn lemma_foreign_char_from(s: Seq<char>, k: int, i: int)
    requires
        0 <= i <= k < s.len(),
        !in_alphabet(s[k]),
    ensures
        lex_from(s, i) == stopped_at(lex_from(s.take(k), i), s[k], k),
    decreases k - i,
{
    let p = s.take(k);
    if i < k {
        assert(p[i] == s[i]);
        if is_space(s[i]) || operator_token(s[i]) is Some {
            lemma_foreign_char_from(s, k, i + 1);
        } else if is_digit(s[i]) || s[i] == '.' {
            lemma_literal_of_prefix(s, k, i);
            if let Ok((_, end)) = literal_at(s, i) {
                lemma_foreign_char_from(s, k, end);
            }
        }
    }
}

/// A text that holds a character outside the alphabet has no token
/// sequence. Where the text before that character has one, the error names
/// the character and its position; where it has none, the error is that of
/// the text before it.
pub proof fn lemma_foreign_char(s: Seq<char>, k: int)
    requires
        0 <= k < s.len(),
        !in_alphabet(s[k]),
    ensures
        lex(s) == stopped_at(lex(s.take(k)), s[k], k),
        lex(s) is Err,
{
    lemma_foreign_char_from(s, k, 0);
}

/// What `tokenize` returns, as a value of the model.
pub open spec fn outcome_view(r: Result<Vec<Token>, LexError>) -> Result<Seq<Token>, LexError> {
    match r {
        Ok(tokens) => Ok(tokens@),
        Err(e) => Err(e),
    }
}

/// The characters of a text, in order.
fn chars_of(text: &str) -> (chars: Vec<char>)
    ensures
        chars@ == text@,
{
    let mut chars: Vec<char> = Vec::new();
    let mut it = text.chars();
    loop
        invariant_except_break
            chars@ + it.remaining() == text@,
            it.decrease() is Some,
        ensures
            chars@ == text@,
        decreases it.decrease()->0,
    {
        match it.next() {
            Some(c) => {
                chars.push(c);
            },
            None => {
                break ;
            },
        }
    }
    chars
}

fn is_space_char(c: char) -> (b: bool)
    ensures
        b == is_space(c),
{
    c == ' ' || c == '\t' || c == '\n'
}

fn is_digit_char(c: char) -> (b: bool)
    ensures
        b == is_digit(c),
{
    '0' <= c && c <= '9'
}

fn digit_of(c: char) -> (d: u64)
    requires
        is_digit(c),
    ensures
        d == digit_value(c),
{
    (c as u32 - '0' as u32) as u64
}

fn operator_of(c: char) -> (t: Option<Token>)
    ensures
        t == operator_token(c),
{
    if c == '+' {
        Some(Token::Plus)
    } else if c == '-' {
        Some(Token::Minus)
    } else if c == '*' {
        Some(Token::Multiply)
    } else if c == '/' {
        Some(Token::Divide)
    } else if c == '(' {
        Some(Token::LParen)
    } else if c == ')' {
        Some(Token::RParen)
    } else {
        None
    }
}

/// Skips the digits from `i` on.
fn scan_digits(s: &[char], i: usize) -> (j: usize)
    requires
        i <= s.len(),
    ensures
        j == digits_end(s@, i as int),
        i <= j <= s.len(),
{
    let mut j: usize = i;
    while j < s.len() && is_digit_char(s[j])
        invariant
            i <= j <= s.len(),
            digits_end(s@, i as int) == digits_end(s@, j as int),
        decreases s.len() - j,
    {
        j += 1;
    }
    j
}

/// Writes the digits `s[from..to]` after `acc`. `None` stands for an
/// integer beyond `u64::MAX`, which no further digit brings back.
fn read_digits(acc: Option<u64>, s: &[char], from: usize, to: usize) -> (r: Option<u64>)
    requires
        from <= to <= s.len(),
        forall|k: int| from <= k < to ==> is_digit(#[trigger] s@[k]),
    ensures
        acc is None ==> r is None,
        acc matches Some(a) ==> (r matches Some(v) ==> v == append_digits(
            a as nat,
            s@,
            from as int,
            to as int,
        )),
        acc matches Some(a) ==> (r is None ==> append_digits(a as nat, s@, from as int, to as int)
            > u64::MAX),
{
    let mut cur: Option<u64> = acc;
    let mut k: usize = from;
    while k < to
        invariant
            from <= k <= to <= s.len(),
            forall|k: int| from <= k < to ==> is_digit(#[trigger] s@[k]),
            acc is None ==> cur is None,
            acc matches Some(a) ==> (cur matches Some(v) ==> v == append_digits(
                a as nat,
                s@,
                from as int,
                k as int,
            )),
            acc matches Some(a) ==> (cur is None ==> append_digits(
                a as nat,
                s@,
                from as int,
                k as int,
            ) > u64::MAX),
        decreases to - k,
    {
        let d: u64 = digit_of(s[k]);
        cur =
        match cur {
            Some(v) => if v <= (u64::MAX - d) / 10 {
                Some(v * 10 + d)
            } else {
                None
            },
            None => None,
        };
        k += 1;
    }
    cur
}

/// Reads the literal that starts at `i`.
fn scan_number(s: &[char], i: usize) -> (r: Result<(Decimal, usize), LexError>)
    requires
        i <= s.len(),
    ensures
        match r {
            Ok((number, end)) => literal_at(s@, i as int) == Ok::<(Decimal, int), LexError>(
                (number, end as int),
            ) && i < end <= s.len(),
            Err(e) => literal_at(s@, i as int) == Err::<(Decimal, int), LexError>(e),
        },
{
    proof {
        lemma_digits_end(s@, i as int);
        lemma_literal_span(s@, i as int);
    }
    let point: usize = scan_digits(s, i);
    if point == i {
        return Err(LexError::MalformedNumber { pos: i });
    }
    let mut end: usize = point;
    if point < s.len() && s[point] == '.' {
        end = scan_digits(s, point + 1);
        proof {
            lemma_digits_end(s@, point + 1);
        }
        if end == point + 1 || (end < s.len() && s[end] == '.') {
            return Err(LexError::MalformedNumber { pos: i });
        }
    }
    let whole: Option<u64> = read_digits(Some(0), s, i, point);
    let digits: Option<u64> = if point < end {
        read_digits(whole, s, point + 1, end)
    } else {
        whole
    };
    proof {
        lemma_append_digits_grows(
            append_digits(0, s@, i as int, point as int),
            s@,
            point + 1,
            end as int,
        );
    }
    match digits {
        Some(mantissa) => {
            let scale: usize = if point < end {
                end - point - 1
            } else {
                0
            };
            Ok((Decimal { mantissa, scale }, end))
        },
        None => Err(LexError::NumberTooLarge { pos: i }),
    }
}

/// Scans characters into tokens, up to the first error.
fn scan_tokens(s: &[char]) -> (r: Result<Vec<Token>, LexError>)
    ensures
        outcome_view(r) == lex(s@),
{
    let mut tokens: Vec<Token> = Vec::new();
    let mut i: usize = 0;
    while i < s.len()
        invariant
            i <= s.len(),
            lex(s@) == tokens_then(tokens@, lex_from(s@, i as int)),
        decreases s.len() - i,
    {
        let c: char = s[i];
        let ghost before = tokens@;
        if is_space_char(c) {
            i += 1;
        } else if let Some(t) = operator_of(c) {
            tokens.push(t);
            i += 1;
            proof {
                if let Ok(more) = lex_from(s@, i as int) {
                    assert(before + (seq![t] + more) =~= tokens@ + more);
                }
            }
        } else if is_digit_char(c) || c == '.' {
            match scan_number(s, i) {
                Ok((number, end)) => {
                    tokens.push(Token::Number(number));
                    i = end;
                    proof {
                        if let Ok(more) = lex_from(s@, i as int) {
                            assert(before + (seq![Token::Number(number)] + more) =~= tokens@
                                + more);
                        }
                    }
                },
                Err(e) => {
                    return Err(e);
                },
            }
        } else {
            return Err(LexError::UnexpectedChar { ch: c, pos: i });
        }
    }
    proof {
        assert(tokens@ + Seq::<Token>::empty() =~= tokens@);
    }
    Ok(tokens)
}

/// Scans a text into its tokens, or stops at the first lexical error.
///
/// A text of operators, parentheses and whitespace always has tokens: one
/// for each character that is no whitespace, in order. A text that holds a
/// character outside the alphabet never has: the error names that
/// character and its position, unless a malformed or oversized literal
/// stands before it.
pub fn tokenize(expr: &str) -> (r: Result<Vec<Token>, LexError>)
    ensures
        outcome_view(r) == lex(expr@),
        operators_only(expr@) ==> outcome_view(r) == Ok::<Seq<Token>, LexError>(
            operator_tokens(expr@),
        ),
        forall|k: int|
            0 <= k < expr@.len() && !in_alphabet(#[trigger] expr@[k]) ==> r is Err
                && outcome_view(r) == stopped_at(lex(expr@.take(k)), expr@[k], k),
{
    let chars: Vec<char> = chars_of(expr);
    let r = scan_tokens(chars.as_slice());
    proof {
        if operators_only(expr@) {
            lemma_operators_lex(expr@);
        }
        assert forall|k: int| 0 <= k < expr@.len() && !in_alphabet(#[trigger] expr@[k]) implies lex(
            expr@,
        ) is Err && lex(expr@) == stopped_at(lex(expr@.take(k)), expr@[k], k) by {
            lemma_foreign_char(expr@, k);
        }
    }
    r
}

} // verus!
