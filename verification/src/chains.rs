use vstd::prelude::*;

use crate::expand::expand_spec;
use crate::shunt::{flush_tokens, pop_ge, postfix_spec, shunt, tokens_of};
use crate::token::{begins_expr, ends_expr, is_literal, lit_token, op_token, prec, Token};

verus! {

/// Every character of the pattern is a literal.
pub open spec fn all_literals(s: Seq<char>) -> bool {
    forall|i: int| 0 <= i < s.len() ==> is_literal(#[trigger] s[i])
}

/// The postfix form of the left-associative concatenation of the literals of
/// `s`, as in `(((a·b)·c)·d)`: the first literal alone, then every further
/// literal followed by one `Concat` token.
pub open spec fn concat_chain_tokens(s: Seq<char>) -> Seq<Token> {
    if s.len() == 0 {
        Seq::empty()
    } else {
        seq![lit_token(s[0])] + concat_tail(s.skip(1))
    }
}

/// One literal token and one `Concat` token for each remaining literal.
pub open spec fn concat_tail(s: Seq<char>) -> Seq<Token>
    decreases s.len(),
{
    if s.len() == 0 {
        Seq::empty()
    } else {
        seq![lit_token(s[0]), Token::Concat] + concat_tail(s.skip(1))
    }
}

/// The expanded form of an all-literal pattern: the same literals with `·`
/// between each adjacent pair.
pub open spec fn interleave_concat(s: Seq<char>) -> Seq<char>
    decreases s.len(),
{
    if s.len() <= 1 {
        s
    } else {
        seq![s[0], '·'] + interleave_concat(s.skip(1))
    }
}

proof fn lemma_expand_all_literals(s: Seq<char>)
    requires
        all_literals(s),
    ensures
        expand_spec(s) == interleave_concat(s),
    decreases s.len(),
{
    if s.len() <= 1 {
    } else {
        assert(is_literal(s[0]));
        assert(is_literal(s[1]));
        assert forall|i: int| 0 <= i < s.skip(1).len() implies is_literal(#[trigger] s.skip(1)[i]) by {
            assert(s.skip(1)[i] == s[i + 1]);
        }
        lemma_expand_all_literals(s.skip(1));
    }
}

/// Scanning the interleaved tail of an all-literal pattern with one `·` on
/// the stack emits each literal followed by one `Concat`.
proof fn lemma_shunt_concat_chain(s: Seq<char>)
    requires
        all_literals(s),
        s.len() >= 1,
    ensures
        shunt(interleave_concat(s), seq!['·']) == concat_tail(s),
    decreases s.len(),
{
    let st = seq!['·'];
    let e = interleave_concat(s);
    assert(st.last() == '·');
    assert(st.drop_last() =~= Seq::<char>::empty());
    if s.len() == 1 {
        assert(e == s);
        assert(e[0] == s[0]);
        assert(e.skip(1) =~= Seq::<char>::empty());
        assert(flush_tokens(Seq::<char>::empty()) =~= Seq::<Token>::empty());
        assert(flush_tokens(st) =~= seq![Token::Concat]);
        assert(shunt(e.skip(1), st) == flush_tokens(st));
        assert(shunt(e, st) == seq![Token::Char(e[0])] + shunt(e.skip(1), st));
        assert(shunt(e, st) =~= seq![Token::Char(s[0]), Token::Concat]);
        assert(concat_tail(s.skip(1)) =~= Seq::<Token>::empty());
        assert(concat_tail(s) =~= seq![Token::Char(s[0]), Token::Concat]);
    } else {
        assert(e == seq![s[0], '·'] + interleave_concat(s.skip(1)));
        assert(e[0] == s[0]);
        assert(e.skip(1)[0] == '·');
        assert(e.skip(1).skip(1) =~= e.skip(2));
        assert(e.skip(2) =~= interleave_concat(s.skip(1)));
        assert(is_literal(s[0]));
        assert(prec('·') == 2);
        assert(pop_ge(Seq::<char>::empty(), 2).0 =~= Seq::<char>::empty());
        assert(pop_ge(Seq::<char>::empty(), 2).1 =~= Seq::<char>::empty());
        assert(pop_ge(st, 2).0 =~= seq!['·']);
        assert(pop_ge(st, 2).1 =~= Seq::<char>::empty());
        assert(seq!['·'].skip(1) =~= Seq::<char>::empty());
        assert(tokens_of(Seq::<char>::empty()) =~= Seq::<Token>::empty());
        assert(tokens_of(seq!['·']) =~= seq![Token::Concat]);
        assert(Seq::<char>::empty().push('·') =~= st);
        assert forall|i: int| 0 <= i < s.skip(1).len() implies is_literal(#[trigger] s.skip(1)[i]) by {
            assert(s.skip(1)[i] == s[i + 1]);
        }
        lemma_shunt_concat_chain(s.skip(1));
        assert(shunt(e.skip(1), st) =~= seq![Token::Concat] + concat_tail(s.skip(1)));
        assert(shunt(e, st) =~= seq![Token::Char(s[0]), Token::Concat] + concat_tail(s.skip(1)));
        assert(concat_tail(s) =~= seq![Token::Char(s[0]), Token::Concat] + concat_tail(s.skip(1)));
    }
}

/// A pattern of literals alone converts to the literals in their original
/// left-to-right order with exactly one `Concat` token after each literal but
/// the first — n−1 `Concat` tokens for n literals, the postfix form of the
/// left-associative chain `(((a·b)·c)·d)`.
pub proof fn lemma_pure_concat(s: Seq<char>)
    requires
        all_literals(s),
    ensures
        postfix_spec(s) == concat_chain_tokens(s),
{
    lemma_expand_all_literals(s);
    let e = interleave_concat(s);
    let st0 = Seq::<char>::empty();
    if s.len() == 0 {
        assert(e.len() == 0);
        assert(flush_tokens(st0) =~= Seq::<Token>::empty());
        assert(postfix_spec(s) =~= concat_chain_tokens(s));
    } else if s.len() == 1 {
        assert(e == s);
        assert(e[0] == s[0]);
        assert(e.skip(1) =~= Seq::<char>::empty());
        assert(flush_tokens(st0) =~= Seq::<Token>::empty());
        assert(concat_tail(s.skip(1)) =~= Seq::<Token>::empty());
        assert(shunt(e.skip(1), st0) == flush_tokens(st0));
        assert(shunt(e, st0) == seq![Token::Char(e[0])] + shunt(e.skip(1), st0));
        assert(shunt(e, st0) =~= seq![Token::Char(s[0])]);
        assert(postfix_spec(s) =~= concat_chain_tokens(s));
    } else {
        assert(e == seq![s[0], '·'] + interleave_concat(s.skip(1)));
        assert(e[0] == s[0]);
        assert(e.skip(1)[0] == '·');
        assert(e.skip(1).skip(1) =~= e.skip(2));
        assert(e.skip(2) =~= interleave_concat(s.skip(1)));
        assert(is_literal(s[0]));
        assert(prec('·') == 2);
        assert(pop_ge(st0, 2).0 =~= Seq::<char>::empty());
        assert(pop_ge(st0, 2).1 =~= st0);
        assert(tokens_of(Seq::<char>::empty()) =~= Seq::<Token>::empty());
        assert(st0.push('·') =~= seq!['·']);
        assert forall|i: int| 0 <= i < s.skip(1).len() implies is_literal(#[trigger] s.skip(1)[i]) by {
            assert(s.skip(1)[i] == s[i + 1]);
        }
        lemma_shunt_concat_chain(s.skip(1));
        assert(shunt(e.skip(1), st0) =~= concat_tail(s.skip(1)));
        assert(shunt(e, st0) =~= seq![Token::Char(s[0])] + concat_tail(s.skip(1)));
        assert(postfix_spec(s) =~= concat_chain_tokens(s));
    }
}

/// In the chain form, the literal of index `j` stands at token position
/// `2j − 1` (position 0 for the first) and each literal after the first is
/// followed directly by its `Concat`: order is preserved and there are
/// exactly n−1 `Concat` tokens.
pub proof fn lemma_concat_chain_shape(s: Seq<char>, j: int)
    requires
        s.len() >= 1,
        1 <= j < s.len(),
    ensures
        concat_chain_tokens(s).len() == 2 * s.len() - 1,
        concat_chain_tokens(s)[0] == Token::Char(s[0]),
        concat_chain_tokens(s)[2 * j - 1] == Token::Char(s[j]),
        concat_chain_tokens(s)[2 * j] == Token::Concat,
{
    lemma_concat_tail_len(s.skip(1));
    lemma_concat_tail_index(s.skip(1), j - 1);
    assert(s.skip(1)[j - 1] == s[j]);
}

proof fn lemma_concat_tail_len(t: Seq<char>)
    ensures
        concat_tail(t).len() == 2 * t.len(),
    decreases t.len(),
{
    if t.len() == 0 {
    } else {
        lemma_concat_tail_len(t.skip(1));
        assert(concat_tail(t) == seq![lit_token(t[0]), Token::Concat] + concat_tail(t.skip(1)));
        assert(concat_tail(t).len() == 2 + concat_tail(t.skip(1)).len());
    }
}

proof fn lemma_concat_tail_index(t: Seq<char>, j: int)
    requires
        0 <= j < t.len(),
    ensures
        concat_tail(t)[2 * j] == Token::Char(t[j]),
        concat_tail(t)[2 * j + 1] == Token::Concat,
    decreases j,
{
    lemma_concat_tail_len(t);
    assert(concat_tail(t) == seq![lit_token(t[0]), Token::Concat] + concat_tail(t.skip(1)));
    if j == 0 {
    } else {
        lemma_concat_tail_index(t.skip(1), j - 1);
        lemma_concat_tail_len(t.skip(1));
        assert(t.skip(1)[j - 1] == t[j]);
    }
}

/// A union chain: single literals joined by `|`, as in `a|b|c`.
pub open spec fn union_chain(s: Seq<char>) -> bool
    decreases s.len(),
{
    s.len() >= 1 && is_literal(s[0]) && (s.len() == 1 || (s.len() >= 3 && s[1] == '|'
        && union_chain(s.skip(2))))
}

/// The postfix form of the left-associative union of a chain's literals, as
/// in `((a|b)|c)`: the first literal alone, then every further literal
/// followed by one `Union` token.
pub open spec fn union_chain_tokens(s: Seq<char>) -> Seq<Token> {
    if s.len() == 0 {
        Seq::empty()
    } else if s.len() == 1 {
        seq![lit_token(s[0])]
    } else {
        seq![lit_token(s[0])] + union_tail(s.skip(2))
    }
}

/// One literal token and one `Union` token for each remaining chain link.
pub open spec fn union_tail(s: Seq<char>) -> Seq<Token>
    decreases s.len(),
{
    if s.len() == 0 {
        Seq::empty()
    } else if s.len() == 1 {
        seq![lit_token(s[0]), Token::Union]
    } else {
        seq![lit_token(s[0]), Token::Union] + union_tail(s.skip(2))
    }
}

/// A union chain gains no markers from the expander: `|` neither ends nor
/// begins a sub-expression.
proof fn lemma_expand_union_chain(s: Seq<char>)
    requires
        union_chain(s),
    ensures
        expand_spec(s) == s,
    decreases s.len(),
{
    if s.len() == 1 {
    } else {
        lemma_expand_union_chain(s.skip(2));
        assert(s.skip(1)[0] == s[1]);
        assert(s.skip(1)[1] == s[2]);
        assert(s.skip(1).skip(1) =~= s.skip(2));
        assert(union_chain(s.skip(2)));
        assert(is_literal(s.skip(2)[0]));
        assert(s.skip(2)[0] == s[2]);
        assert(!begins_expr('|'));
        assert(expand_spec(s) == seq![s[0]] + expand_spec(s.skip(1)));
        assert(!ends_expr('|'));
        assert(expand_spec(s.skip(1)) == seq![s.skip(1)[0]] + expand_spec(s.skip(1).skip(1)));
        assert(expand_spec(s) =~= s);
    }
}

/// Scanning the tail of a union chain with one `|` on the stack pops that
/// `|` at each further `|` (equal precedence) before pushing the new one:
/// each literal is followed by one `Union`.
proof fn lemma_shunt_union_chain(s: Seq<char>)
    requires
        union_chain(s),
    ensures
        shunt(s, seq!['|']) == union_tail(s),
    decreases s.len(),
{
    let st = seq!['|'];
    assert(st.last() == '|');
    assert(st.drop_last() =~= Seq::<char>::empty());
    assert(is_literal(s[0]));
    assert(shunt(s, st) == seq![Token::Char(s[0])] + shunt(s.skip(1), st));
    if s.len() == 1 {
        assert(s.skip(1) =~= Seq::<char>::empty());
        assert(flush_tokens(Seq::<char>::empty()) =~= Seq::<Token>::empty());
        assert(flush_tokens(st) == seq![op_token(st.last())] + flush_tokens(st.drop_last()));
        assert(flush_tokens(st) =~= seq![Token::Union]);
        assert(shunt(s.skip(1), st) == flush_tokens(st));
        assert(shunt(s, st) =~= seq![lit_token(s[0]), Token::Union]);
        assert(union_tail(s) =~= seq![lit_token(s[0]), Token::Union]);
    } else {
        lemma_shunt_union_chain(s.skip(2));
        assert(s.skip(1)[0] == s[1]);
        assert(!is_literal('|'));
        assert(prec('|') == 1);
        assert(pop_ge(st, 1).0 == seq![st.last()] + pop_ge(st.drop_last(), 1).0);
        assert(pop_ge(Seq::<char>::empty(), 1).0 =~= Seq::<char>::empty());
        assert(pop_ge(Seq::<char>::empty(), 1).1 =~= Seq::<char>::empty());
        assert(pop_ge(st, 1).0 =~= seq!['|']);
        assert(pop_ge(st, 1).1 =~= Seq::<char>::empty());
        assert(seq!['|'][0] == '|');
        assert(seq!['|'].skip(1) =~= Seq::<char>::empty());
        assert(tokens_of(Seq::<char>::empty()) =~= Seq::<Token>::empty());
        assert(tokens_of(seq!['|']) =~= seq![Token::Union]);
        assert(Seq::<char>::empty().push('|') =~= st);
        assert(s.skip(1).skip(1) =~= s.skip(2));
        assert(shunt(s.skip(1), st) =~= seq![Token::Union] + shunt(s.skip(2), st));
        assert(shunt(s, st) =~= seq![lit_token(s[0]), Token::Union] + union_tail(s.skip(2)));
        assert(union_tail(s) =~= seq![lit_token(s[0]), Token::Union] + union_tail(s.skip(2)));
    }
}

/// Two or more literals joined by `|` reduce left-associatively: equal
/// precedence pops the pending `Union` before the next one is pushed, so the
/// output is the first literal, then each further literal followed by one
/// `Union` — `((a|b)|c)` for `a|b|c`.
pub proof fn lemma_union_chain(s: Seq<char>)
    requires
        union_chain(s),
    ensures
        postfix_spec(s) == union_chain_tokens(s),
{
    lemma_expand_union_chain(s);
    let st0 = Seq::<char>::empty();
    assert(is_literal(s[0]));
    assert(shunt(s, st0) == seq![Token::Char(s[0])] + shunt(s.skip(1), st0));
    if s.len() == 1 {
        assert(s.skip(1) =~= Seq::<char>::empty());
        assert(flush_tokens(st0) =~= Seq::<Token>::empty());
        assert(shunt(s.skip(1), st0) == flush_tokens(st0));
        assert(postfix_spec(s) =~= union_chain_tokens(s));
    } else {
        lemma_shunt_union_chain(s.skip(2));
        assert(s.skip(1)[0] == s[1]);
        assert(!is_literal('|'));
        assert(prec('|') == 1);
        assert(pop_ge(st0, 1).0 =~= Seq::<char>::empty());
        assert(pop_ge(st0, 1).1 =~= st0);
        assert(tokens_of(Seq::<char>::empty()) =~= Seq::<Token>::empty());
        assert(st0.push('|') =~= seq!['|']);
        assert(s.skip(1).skip(1) =~= s.skip(2));
        assert(shunt(s.skip(1), st0) =~= shunt(s.skip(2), seq!['|']));
        assert(postfix_spec(s) =~= seq![lit_token(s[0])] + union_tail(s.skip(2)));
        assert(postfix_spec(s) =~= union_chain_tokens(s));
    }
}

} // verus!
