use vstd::prelude::*;

verus! {

/// One element of a postfix token sequence: a literal character, or one of the
/// operators of the pattern language. `Concat` is the synthetic concatenation
/// operator, written `·` in the textual rendering.
#[derive(Debug, Clone, Copy, PartialEq, Eq)]
pub enum Token {
    Char(char),
    Union,
    Concat,
    Star,
    Plus,
    Question,
    LParen,
    RParen,
}

/// An ASCII alphanumeric character: the only characters that count as literals.
pub open spec fn is_literal(c: char) -> bool {
    ('a' <= c && c <= 'z') || ('A' <= c && c <= 'Z') || ('0' <= c && c <= '9')
}

/// A postfix unary operator: `*`, `+` or `?`.
pub open spec fn is_postfix_op(c: char) -> bool {
    c == '*' || c == '+' || c == '?'
}

/// A binary operator: union `|` or the concatenation marker `·`.
pub open spec fn is_binary_op(c: char) -> bool {
    c == '|' || c == '·'
}

/// Any operator character the converter recognizes besides parentheses.
pub open spec fn is_operator(c: char) -> bool {
    is_binary_op(c) || is_postfix_op(c)
}

/// A character that can terminate a sub-expression: a literal, a closing
/// parenthesis, or a postfix operator.
pub open spec fn ends_expr(c: char) -> bool {
    is_literal(c) || c == ')' || is_postfix_op(c)
}

/// A character that can begin a sub-expression: a literal or an opening
/// parenthesis.
pub open spec fn begins_expr(c: char) -> bool {
    is_literal(c) || c == '('
}

/// Operator precedence: postfix unary operators bind tightest, then
/// concatenation, then union. Characters that are not operators get 0,
/// below every operator.
pub open spec fn prec(c: char) -> int {
    if is_postfix_op(c) {
        3
    } else if c == '·' {
        2
    } else if c == '|' {
        1
    } else {
        0
    }
}

/// The token that an operator character stands for. Characters that are not
/// operator or parenthesis characters map to literal tokens; the converter
/// never applies this mapping to them.
pub open spec fn op_token(c: char) -> Token {
    if c == '|' {
        Token::Union
    } else if c == '·' {
        Token::Concat
    } else if c == '*' {
        Token::Star
    } else if c == '+' {
        Token::Plus
    } else if c == '?' {
        Token::Question
    } else if c == '(' {
        Token::LParen
    } else if c == ')' {
        Token::RParen
    } else {
        Token::Char(c)
    }
}

/// The literal token for a character.
pub open spec fn lit_token(c: char) -> Token {
    Token::Char(c)
}

/// The single character that renders a token in the textual output.
pub open spec fn token_char(t: Token) -> char {
    match t {
        Token::Char(c) => c,
        Token::Union => '|',
        Token::Concat => '·',
        Token::Star => '*',
        Token::Plus => '+',
        Token::Question => '?',
        Token::LParen => '(',
        Token::RParen => ')',
    }
}

pub(crate) fn literal_char(c: char) -> (r: bool)
    ensures
        r == is_literal(c),
{
    ('a' <= c && c <= 'z') || ('A' <= c && c <= 'Z') || ('0' <= c && c <= '9')
}

pub(crate) fn ends_expr_char(c: char) -> (r: bool)
    ensures
        r == ends_expr(c),
{
    literal_char(c) || c == ')' || c == '*' || c == '+' || c == '?'
}

pub(crate) fn begins_expr_char(c: char) -> (r: bool)
    ensures
        r == begins_expr(c),
{
    literal_char(c) || c == '('
}

pub(crate) fn operator_char(c: char) -> (r: bool)
    ensures
        r == is_operator(c),
{
    c == '|' || c == '·' || c == '*' || c == '+' || c == '?'
}

pub(crate) fn precedence(c: char) -> (p: u32)
    ensures
        p as int == prec(c),
{
    if c == '*' || c == '+' || c == '?' {
        3
    } else if c == '·' {
        2
    } else if c == '|' {
        1
    } else {
        0
    }
}

pub(crate) fn char_token(c: char) -> (t: Token)
    ensures
        t == op_token(c),
{
    if c == '|' {
        Token::Union
    } else if c == '·' {
        Token::Concat
    } else if c == '*' {
        Token::Star
    } else if c == '+' {
        Token::Plus
    } else if c == '?' {
        Token::Question
    } else if c == '(' {
        Token::LParen
    } else if c == ')' {
        Token::RParen
    } else {
        Token::Char(c)
    }
}

pub(crate) fn render_char(t: Token) -> (c: char)
    ensures
        c == token_char(t),
{
    match t {
        Token::Char(c) => c,
        Token::Union => '|',
        Token::Concat => '·',
        Token::Star => '*',
        Token::Plus => '+',
        Token::Question => '?',
        Token::LParen => '(',
        Token::RParen => ')',
    }
}

} // verus!
