use vstd::prelude::*;

use crate::expand::expand_spec;
use crate::shunt::{
    flush_tokens, pop_ge, pop_paren, postfix_spec, shunt, tokens_of,
};
use crate::token::{
    begins_expr, ends_expr, is_binary_op, is_literal, is_operator, is_postfix_op, op_token, prec,
    Token,
};

verus! {

/// The number of values on an evaluation stack after running a postfix token
/// sequence from a stack holding `k` values: a literal pushes one value, a
/// postfix unary operator rewrites the top value, a binary operator replaces
/// the top two values with one. `None` when an operator finds too few
/// operands, or a parenthesis token appears.
pub open spec fn run_from(ts: Seq<Token>, k: int) -> Option<int>
    decreases ts.len(),
{
    if ts.len() == 0 {
        Some(k)
    } else {
        match ts[0] {
            Token::Char(_) => run_from(ts.skip(1), k + 1),
            Token::Star => if k >= 1 { run_from(ts.skip(1), k) } else { None },
            Token::Plus => if k >= 1 { run_from(ts.skip(1), k) } else { None },
            Token::Question => if k >= 1 { run_from(ts.skip(1), k) } else { None },
            Token::Union => if k >= 2 { run_from(ts.skip(1), k - 1) } else { None },
            Token::Concat => if k >= 2 { run_from(ts.skip(1), k - 1) } else { None },
            Token::LParen => None,
            Token::RParen => None,
        }
    }
}

/// Whether a suffix of a raw pattern is well formed. The scan carries the
/// open-parenthesis depth and a flag that says whether it is expecting a new
/// sub-expression to start. A literal or `(` may follow anything
/// (concatenation is implicit in raw patterns); `)`, `|` and the postfix
/// operators demand a completed sub-expression; at the end, the last
/// sub-expression is complete and every parenthesis is closed.
pub open spec fn wf_raw_from(s: Seq<char>, expect: bool, depth: nat) -> bool
    decreases s.len(),
{
    if s.len() == 0 {
        !expect && depth == 0
    } else {
        let c = s[0];
        let r = s.skip(1);
        if is_literal(c) {
            wf_raw_from(r, false, depth)
        } else if c == '(' {
            wf_raw_from(r, true, (depth + 1) as nat)
        } else if c == ')' {
            !expect && depth >= 1 && wf_raw_from(r, false, (depth - 1) as nat)
        } else if c == '|' {
            !expect && wf_raw_from(r, true, depth)
        } else if is_postfix_op(c) {
            !expect && wf_raw_from(r, false, depth)
        } else {
            false
        }
    }
}

/// A well-formed pattern: nonempty, parentheses balanced, every operator
/// given its operands, and only the pattern alphabet used.
pub open spec fn wf_pattern(s: Seq<char>) -> bool {
    wf_raw_from(s, true, 0)
}

/// Well-formedness of an expanded pattern, where concatenation is explicit:
/// as `wf_raw_from`, except that a literal or `(` may only start a new
/// sub-expression, and the binary `·` is an operator like `|`.
pub open spec fn wf_expanded_from(s: Seq<char>, expect: bool, depth: nat) -> bool
    decreases s.len(),
{
    if s.len() == 0 {
        !expect && depth == 0
    } else {
        let c = s[0];
        let r = s.skip(1);
        if is_literal(c) {
            expect && wf_expanded_from(r, false, depth)
        } else if c == '(' {
            expect && wf_expanded_from(r, true, (depth + 1) as nat)
        } else if c == ')' {
            !expect && depth >= 1 && wf_expanded_from(r, false, (depth - 1) as nat)
        } else if is_binary_op(c) {
            !expect && wf_expanded_from(r, true, depth)
        } else if is_postfix_op(c) {
            !expect && wf_expanded_from(r, false, depth)
        } else {
            false
        }
    }
}

/// The expansion of a pattern suffix as the scan sees it: when the previous
/// character ended a sub-expression (the scan is not expecting one) and the
/// next character begins one, the marker that the expander put between the
/// two still precedes the suffix.
pub open spec fn expand_from(s: Seq<char>, expect: bool) -> Seq<char> {
    if !expect && s.len() > 0 && begins_expr(s[0]) {
        seq!['·'] + expand_spec(s)
    } else {
        expand_spec(s)
    }
}

/// Every character on the operator stack is an operator or `(`.
pub open spec fn stack_ok(st: Seq<char>) -> bool
    decreases st.len(),
{
    st.len() == 0 || ((st.last() == '(' || is_operator(st.last())) && stack_ok(st.drop_last()))
}

/// How many binary operators the stack holds.
pub open spec fn bin_count(st: Seq<char>) -> nat
    decreases st.len(),
{
    if st.len() == 0 {
        0
    } else {
        bin_count(st.drop_last()) + if is_binary_op(st.last()) {
            1nat
        } else {
            0nat
        }
    }
}

/// How many opening parentheses the stack holds.
pub open spec fn paren_count(st: Seq<char>) -> nat
    decreases st.len(),
{
    if st.len() == 0 {
        0
    } else {
        paren_count(st.drop_last()) + if st.last() == '(' {
            1nat
        } else {
            0nat
        }
    }
}

/// Running a concatenation of token sequences runs the two parts in turn.
proof fn lemma_run_from_append(a: Seq<Token>, b: Seq<Token>, k: int)
    ensures
        run_from(a + b, k) == (match run_from(a, k) {
            Some(m) => run_from(b, m),
            None => None,
        }),
    decreases a.len(),
{
    if a.len() == 0 {
        assert(a + b =~= b);
    } else {
        assert((a + b)[0] == a[0]);
        assert((a + b).skip(1) =~= a.skip(1) + b);
        match a[0] {
            Token::Char(_) => {
                lemma_run_from_append(a.skip(1), b, k + 1);
            },
            Token::Star => {
                lemma_run_from_append(a.skip(1), b, k);
            },
            Token::Plus => {
                lemma_run_from_append(a.skip(1), b, k);
            },
            Token::Question => {
                lemma_run_from_append(a.skip(1), b, k);
            },
            Token::Union => {
                lemma_run_from_append(a.skip(1), b, k - 1);
            },
            Token::Concat => {
                lemma_run_from_append(a.skip(1), b, k - 1);
            },
            Token::LParen => {},
            Token::RParen => {},
        }
    }
}

/// The operators popped by an incoming operator run without underflow, taking
/// the value count from one above the stack's binary-operator count to one
/// above the remaining stack's.
proof fn lemma_pop_ge_run(st: Seq<char>, p: int)
    requires
        stack_ok(st),
    ensures
        stack_ok(pop_ge(st, p).1),
        paren_count(pop_ge(st, p).1) == paren_count(st),
        run_from(tokens_of(pop_ge(st, p).0), bin_count(st) as int + 1) == Some(
            bin_count(pop_ge(st, p).1) as int + 1,
        ),
    decreases st.len(),
{
    if st.len() == 0 {
    } else if st.last() == '(' || prec(st.last()) < p {
    } else {
        let top = st.last();
        let rest = st.drop_last();
        lemma_pop_ge_run(rest, p);
        let popped = pop_ge(st, p).0;
        assert(popped == seq![top] + pop_ge(rest, p).0);
        assert(popped[0] == top);
        assert(popped.skip(1) =~= pop_ge(rest, p).0);
        let ts = tokens_of(popped);
        assert(ts == seq![op_token(top)] + tokens_of(pop_ge(rest, p).0));
        assert(ts[0] == op_token(top));
        assert(ts.skip(1) =~= tokens_of(pop_ge(rest, p).0));
    }
}

/// The operators popped by a closing parenthesis run without underflow; the
/// matching `(` is removed from the stack.
proof fn lemma_pop_paren_run(st: Seq<char>)
    requires
        stack_ok(st),
        paren_count(st) >= 1,
    ensures
        stack_ok(pop_paren(st).1),
        paren_count(pop_paren(st).1) == paren_count(st) - 1,
        run_from(tokens_of(pop_paren(st).0), bin_count(st) as int + 1) == Some(
            bin_count(pop_paren(st).1) as int + 1,
        ),
    decreases st.len(),
{
    if st.len() == 0 {
    } else if st.last() == '(' {
    } else {
        let top = st.last();
        let rest = st.drop_last();
        lemma_pop_paren_run(rest);
        let popped = pop_paren(st).0;
        assert(popped == seq![top] + pop_paren(rest).0);
        assert(popped[0] == top);
        assert(popped.skip(1) =~= pop_paren(rest).0);
        let ts = tokens_of(popped);
        assert(ts == seq![op_token(top)] + tokens_of(pop_paren(rest).0));
        assert(ts[0] == op_token(top));
        assert(ts.skip(1) =~= tokens_of(pop_paren(rest).0));
    }
}

/// Flushing a stack without parentheses runs its binary operators down to a
/// single value.
proof fn lemma_flush_run(st: Seq<char>)
    requires
        stack_ok(st),
        paren_count(st) == 0,
    ensures
        run_from(flush_tokens(st), bin_count(st) as int + 1) == Some(1int),
    decreases st.len(),
{
    if st.len() == 0 {
    } else {
        let top = st.last();
        let rest = st.drop_last();
        assert(top != '(');
        lemma_flush_run(rest);
        let ts = flush_tokens(st);
        assert(ts == seq![op_token(top)] + flush_tokens(rest));
        assert(ts[0] == op_token(top));
        assert(ts.skip(1) =~= flush_tokens(rest));
    }
}

/// The expander turns a well-formed raw pattern into a well-formed expanded
/// pattern: the inserted `·` markers are exactly the explicit concatenations
/// that `wf_expanded_from` demands between adjacent sub-expressions.
proof fn lemma_expand_wf(s: Seq<char>, expect: bool, depth: nat)
    requires
        wf_raw_from(s, expect, depth),
    ensures
        wf_expanded_from(expand_from(s, expect), expect, depth),
    decreases s.len(), (if expect { 0int } else { 1int }),
{
    if s.len() == 0 {
    } else {
        let c = s[0];
        let r = s.skip(1);
        if !expect && begins_expr(c) {
            // The marker the expander put before this suffix is consumed
            // first; the rest is the suffix's expansion as seen from a
            // position that expects a sub-expression.
            assert(wf_raw_from(s, true, depth));
            lemma_expand_wf(s, true, depth);
            let e = seq!['·'] + expand_spec(s);
            assert(expand_from(s, expect) == e);
            assert(e[0] == '·');
            assert(e.skip(1) =~= expand_spec(s));
            assert(expand_from(s, true) == expand_spec(s));
            assert(wf_expanded_from(e, false, depth));
        } else if s.len() == 1 {
            assert(expand_spec(s) == s);
            assert(r.len() == 0);
            if is_literal(c) {
                assert(wf_raw_from(r, false, depth));
                assert(!false && depth == 0);
                assert(wf_expanded_from(r, false, depth));
            } else if c == '(' {
                assert(wf_raw_from(r, true, (depth + 1) as nat));
                assert(false);
            } else if c == ')' {
                assert(wf_raw_from(r, false, (depth - 1) as nat));
                assert(depth - 1 == 0);
                assert(wf_expanded_from(r, false, (depth - 1) as nat));
            } else if c == '|' {
                assert(wf_raw_from(r, true, depth));
                assert(false);
            } else {
                assert(wf_raw_from(r, false, depth));
                assert(depth == 0);
                assert(wf_expanded_from(r, false, depth));
            }
            assert(wf_expanded_from(s, expect, depth));
        } else {
            // The next raw state after consuming c; c ends a sub-expression
            // exactly when the scan is then not expecting a new one.
            let e1 = if is_literal(c) {
                false
            } else if c == '(' {
                true
            } else if c == ')' {
                false
            } else if c == '|' {
                true
            } else {
                false
            };
            let d1 = if c == '(' {
                (depth + 1) as nat
            } else if c == ')' {
                (depth - 1) as nat
            } else {
                depth
            };
            assert(wf_raw_from(r, e1, d1));
            lemma_expand_wf(r, e1, d1);
            assert(ends_expr(c) == !e1);
            assert(r[0] == s[1]);
            let tail = expand_from(r, e1);
            if ends_expr(c) && begins_expr(s[1]) {
                assert(expand_spec(s) == seq![c, '·'] + expand_spec(r));
                assert(tail == seq!['·'] + expand_spec(r));
            } else {
                assert(expand_spec(s) == seq![c] + expand_spec(r));
                assert(tail == expand_spec(r));
            }
            let e = expand_spec(s);
            assert(e[0] == c);
            assert(e.skip(1) =~= tail);
            assert(wf_expanded_from(tail, e1, d1));
            assert(wf_expanded_from(e, expect, depth));
        }
    }
}

/// The shunting-yard scan of a well-formed expanded suffix, from a stack
/// whose parentheses match the suffix's depth, emits tokens that run from
/// the pending-value count down to exactly one value. When the scan expects
/// a sub-expression, one value per binary operator on the stack is pending;
/// after a completed sub-expression there is one more.
proof fn lemma_shunt_run(s: Seq<char>, st: Seq<char>, expect: bool, depth: nat)
    requires
        wf_expanded_from(s, expect, depth),
        stack_ok(st),
        paren_count(st) == depth,
    ensures
        run_from(shunt(s, st), bin_count(st) as int + (if expect { 0int } else { 1int })) == Some(
            1int,
        ),
    decreases s.len(),
{
    let k = bin_count(st) as int + (if expect { 0int } else { 1int });
    if s.len() == 0 {
        lemma_flush_run(st);
    } else {
        let c = s[0];
        let rest = s.skip(1);
        if is_literal(c) {
            lemma_shunt_run(rest, st, false, depth);
            let x = shunt(s, st);
            assert(x == seq![Token::Char(c)] + shunt(rest, st));
            assert(x[0] == Token::Char(c));
            assert(x.skip(1) =~= shunt(rest, st));
        } else if c == '(' {
            let st2 = st.push(c);
            assert(st2.drop_last() =~= st);
            assert(st2.last() == '(');
            assert(stack_ok(st2));
            assert(paren_count(st2) == depth + 1);
            assert(bin_count(st2) == bin_count(st));
            lemma_shunt_run(rest, st2, true, (depth + 1) as nat);
        } else if c == ')' {
            lemma_pop_paren_run(st);
            let popped = pop_paren(st).0;
            let st2 = pop_paren(st).1;
            lemma_shunt_run(rest, st2, false, (depth - 1) as nat);
            lemma_run_from_append(tokens_of(popped), shunt(rest, st2), bin_count(st) as int + 1);
        } else if is_binary_op(c) {
            lemma_pop_ge_run(st, prec(c));
            let popped = pop_ge(st, prec(c)).0;
            let st2 = pop_ge(st, prec(c)).1;
            let st3 = st2.push(c);
            assert(st3.drop_last() =~= st2);
            assert(st3.last() == c);
            assert(stack_ok(st3));
            assert(paren_count(st3) == depth);
            assert(bin_count(st3) == bin_count(st2) + 1);
            lemma_shunt_run(rest, st3, true, depth);
            lemma_run_from_append(tokens_of(popped), shunt(rest, st3), bin_count(st) as int + 1);
        } else if is_postfix_op(c) {
            lemma_pop_ge_run(st, prec(c));
            let popped = pop_ge(st, prec(c)).0;
            let st2 = pop_ge(st, prec(c)).1;
            let st3 = st2.push(c);
            assert(st3.drop_last() =~= st2);
            assert(st3.last() == c);
            assert(stack_ok(st3));
            assert(paren_count(st3) == depth);
            assert(bin_count(st3) == bin_count(st2));
            lemma_shunt_run(rest, st3, false, depth);
            lemma_run_from_append(tokens_of(popped), shunt(rest, st3), bin_count(st) as int + 1);
        } else {
            assert(false);
        }
    }
}

/// For every well-formed pattern, the converted output is a valid postfix
/// expression for a single expression tree: a stack machine that pushes one
/// value per literal, rewrites the top value for each postfix operator and
/// replaces the top two values with one for each binary operator ends with
/// exactly one value, never underflowing and never meeting a parenthesis
/// token.
pub proof fn lemma_postfix_single_tree(s: Seq<char>)
    requires
        wf_pattern(s),
    ensures
        run_from(postfix_spec(s), 0) == Some(1int),
{
    lemma_expand_wf(s, true, 0);
    assert(expand_from(s, true) == expand_spec(s));
    let st0 = Seq::<char>::empty();
    assert(stack_ok(st0));
    assert(paren_count(st0) == 0);
    assert(bin_count(st0) == 0);
    lemma_shunt_run(expand_spec(s), st0, true, 0);
}

/// A token sequence that runs to completion holds no parenthesis token.
proof fn lemma_run_from_no_parens(ts: Seq<Token>, k: int, i: int)
    requires
        run_from(ts, k) is Some,
        0 <= i < ts.len(),
    ensures
        ts[i] != Token::LParen,
        ts[i] != Token::RParen,
    decreases i,
{
    if i == 0 {
    } else {
        assert(ts.skip(1)[i - 1] == ts[i]);
        match ts[0] {
            Token::Char(_) => {
                lemma_run_from_no_parens(ts.skip(1), k + 1, i - 1);
            },
            Token::Star => {
                lemma_run_from_no_parens(ts.skip(1), k, i - 1);
            },
            Token::Plus => {
                lemma_run_from_no_parens(ts.skip(1), k, i - 1);
            },
            Token::Question => {
                lemma_run_from_no_parens(ts.skip(1), k, i - 1);
            },
            Token::Union => {
                lemma_run_from_no_parens(ts.skip(1), k - 1, i - 1);
            },
            Token::Concat => {
                lemma_run_from_no_parens(ts.skip(1), k - 1, i - 1);
            },
            Token::LParen => {},
            Token::RParen => {},
        }
    }
}

/// For every well-formed pattern the parentheses are fully consumed during
/// conversion: no parenthesis token appears in the postfix output.
pub proof fn lemma_postfix_no_parens(s: Seq<char>, i: int)
    requires
        wf_pattern(s),
        0 <= i < postfix_spec(s).len(),
    ensures
        postfix_spec(s)[i] != Token::LParen,
        postfix_spec(s)[i] != Token::RParen,
{
    lemma_postfix_single_tree(s);
    lemma_run_from_no_parens(postfix_spec(s), 0, i);
}

} // verus!
