use postfix::{insert_concat_ops, to_postfix, to_postfix_tokens, Token};

#[test]
fn simple_concat() {
    assert_eq!(to_postfix("ab"), "a b ·");
}

#[test]
fn simple_union() {
    assert_eq!(to_postfix("a|b"), "a b |");
}

#[test]
fn paren_and_star() {
    assert_eq!(to_postfix("a(b|c)*"), "a b c | * ·");
}

#[test]
fn pure_concat_three() {
    assert_eq!(to_postfix("abc"), "a b · c ·");
}

#[test]
fn single_literal() {
    assert_eq!(to_postfix("a"), "a");
}

#[test]
fn empty_pattern() {
    assert_eq!(to_postfix(""), "");
}

#[test]
fn union_after_concat() {
    assert_eq!(to_postfix("ab|c"), "a b · c |");
}

#[test]
fn group_overrides_precedence() {
    assert_eq!(to_postfix("a(b|c)"), "a b c | ·");
}

#[test]
fn star_binds_tighter_than_concat() {
    assert_eq!(to_postfix("ab*"), "a b * ·");
}

#[test]
fn union_chain_left_associative() {
    assert_eq!(to_postfix("a|b|c"), "a b | c |");
}

#[test]
fn concat_chain_left_associative() {
    assert_eq!(to_postfix("abcd"), "a b · c · d ·");
}

#[test]
fn plus_and_question_postfix() {
    assert_eq!(to_postfix("a+b?"), "a + b ? ·");
}

#[test]
fn redundant_parens_collapse() {
    assert_eq!(to_postfix("((a))"), "a");
}

#[test]
fn unknown_characters_dropped() {
    assert_eq!(to_postfix("a#b"), "a b");
}

#[test]
fn unmatched_close_paren_ignored() {
    assert_eq!(to_postfix("a)b"), "a b ·");
}

#[test]
fn leftover_open_paren_flushed() {
    assert_eq!(to_postfix("(a"), "a (");
}

#[test]
fn token_sequence_structured() {
    let toks = to_postfix_tokens("a(b|c)*");
    assert_eq!(
        toks,
        vec![
            Token::Char('a'),
            Token::Char('b'),
            Token::Char('c'),
            Token::Union,
            Token::Star,
            Token::Concat,
        ]
    );
}

#[test]
fn token_sequence_digits_and_upper() {
    let toks = to_postfix_tokens("A0");
    assert_eq!(
        toks,
        vec![Token::Char('A'), Token::Char('0'), Token::Concat]
    );
}

#[test]
fn expand_after_star() {
    assert_eq!(insert_concat_ops("a*b"), "a*·b");
}

#[test]
fn expand_between_groups() {
    assert_eq!(insert_concat_ops("(a)(b)"), "(a)·(b)");
}

#[test]
fn expand_before_group() {
    assert_eq!(insert_concat_ops("a(b|c)"), "a·(b|c)");
}

#[test]
fn expand_adjacent_literals() {
    assert_eq!(insert_concat_ops("ab"), "a·b");
}

#[test]
fn expand_no_marker_around_union() {
    assert_eq!(insert_concat_ops("a|b"), "a|b");
}
