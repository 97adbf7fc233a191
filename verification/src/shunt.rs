use vstd::prelude::*;
use vstd::string::StrSliceExecFns;

use crate::expand::{expand_chars, expand_spec};
use crate::token::{
    char_token, is_literal, is_operator, literal_char, op_token, operator_char, prec, precedence,
    render_char, token_char, Token,
};

verus! {

/// The operators popped off the stack (top first) by an incoming operator of
/// precedence `p`, paired with the stack that remains: popping stops at an
/// opening parenthesis or at an operator of strictly lower precedence.
pub open spec fn pop_ge(st: Seq<char>, p: int) -> (Seq<char>, Seq<char>)
    decreases st.len(),
{
    if st.len() == 0 {
        (Seq::empty(), Seq::empty())
    } else if st.last() == '(' || prec(st.last()) < p {
        (Seq::empty(), st)
    } else {
        let r = pop_ge(st.drop_last(), p);
        (seq![st.last()] + r.0, r.1)
    }
}

/// The operators popped off the stack (top first) by a closing parenthesis,
/// paired with the stack that remains: everything above the topmost `(` is
/// popped, and the `(` itself is discarded.
pub open spec fn pop_paren(st: Seq<char>) -> (Seq<char>, Seq<char>)
    decreases st.len(),
{
    if st.len() == 0 {
        (Seq::empty(), Seq::empty())
    } else if st.last() == '(' {
        (Seq::empty(), st.drop_last())
    } else {
        let r = pop_paren(st.drop_last());
        (seq![st.last()] + r.0, r.1)
    }
}

/// The tokens that a sequence of popped operator characters turns into, in
/// the same order.
pub open spec fn tokens_of(ops: Seq<char>) -> Seq<Token>
    decreases ops.len(),
{
    if ops.len() == 0 {
        Seq::empty()
    } else {
        seq![op_token(ops[0])] + tokens_of(ops.skip(1))
    }
}

/// The tokens appended to the output when the whole stack is flushed at the
/// end of the scan, in pop (top first) order.
pub open spec fn flush_tokens(st: Seq<char>) -> Seq<Token>
    decreases st.len(),
{
    if st.len() == 0 {
        Seq::empty()
    } else {
        seq![op_token(st.last())] + flush_tokens(st.drop_last())
    }
}

/// The postfix tokens still to be emitted by the shunting-yard scan, given
/// the input characters not yet read and the current operator stack
/// (bottom first). Literals go straight to the output; `(` is pushed;
/// `)` pops to the matching `(`; an operator pops all operators of equal or
/// higher precedence and is pushed; any other character is ignored; at the
/// end of the input the stack is flushed.
pub open spec fn shunt(s: Seq<char>, st: Seq<char>) -> Seq<Token>
    decreases s.len(),
{
    if s.len() == 0 {
        flush_tokens(st)
    } else {
        let c = s[0];
        let rest = s.skip(1);
        if is_literal(c) {
            seq![Token::Char(c)] + shunt(rest, st)
        } else if c == '(' {
            shunt(rest, st.push(c))
        } else if c == ')' {
            tokens_of(pop_paren(st).0) + shunt(rest, pop_paren(st).1)
        } else if is_operator(c) {
            tokens_of(pop_ge(st, prec(c)).0) + shunt(rest, pop_ge(st, prec(c)).1.push(c))
        } else {
            shunt(rest, st)
        }
    }
}

/// The postfix token sequence of a raw pattern: the shunting-yard conversion
/// of its expanded form, starting from an empty operator stack.
pub open spec fn postfix_spec(s: Seq<char>) -> Seq<Token> {
    shunt(expand_spec(s), Seq::empty())
}

/// The canonical textual rendering of a token sequence: one character per
/// token, separated by single spaces, with no leading or trailing space.
pub open spec fn render_spec(ts: Seq<Token>) -> Seq<char> {
    if ts.len() == 0 {
        Seq::empty()
    } else {
        seq![token_char(ts[0])] + render_tail(ts.skip(1))
    }
}

/// The rendering of every token after the first: a space before each.
pub open spec fn render_tail(ts: Seq<Token>) -> Seq<char>
    decreases ts.len(),
{
    if ts.len() == 0 {
        Seq::empty()
    } else {
        seq![' ', token_char(ts[0])] + render_tail(ts.skip(1))
    }
}

fn char_at(v: &Vec<char>, i: usize) -> (c: char)
    requires
        i < v@.len(),
    ensures
        c == v@[i as int],
{
    v[i]
}

fn top_char(v: &Vec<char>) -> (c: char)
    requires
        v@.len() > 0,
    ensures
        c == v@.last(),
{
    v[v.len() - 1]
}

fn token_at(v: &Vec<Token>, i: usize) -> (t: Token)
    requires
        i < v@.len(),
    ensures
        t == v@[i as int],
{
    v[i]
}

/// The characters of a string slice, in order.
pub(crate) fn chars_of(s: &str) -> (v: Vec<char>)
    ensures
        v@ == s@,
{
    let n = s.unicode_len();
    let mut v: Vec<char> = Vec::new();
    let mut i: usize = 0;
    while i < n
        invariant
            i <= n,
            n == s@.len(),
            v@ == s@.subrange(0, i as int),
        decreases n - i,
    {
        let c = s.get_char(i);
        v.push(c);
        proof {
            assert(v@ =~= s@.subrange(0, i as int + 1));
        }
        i = i + 1;
    }
    proof {
        assert(v@ =~= s@);
    }
    v
}

/// Relies on `String`'s `FromIterator<char>` implementation: collecting an
/// iterator of characters yields the string holding exactly those characters
/// in order.
#[verifier::external_body]
pub(crate) fn string_from_chars(cs: &Vec<char>) -> (r: String)
    ensures
        r@ == cs@,
{
    cs.iter().collect()
}

/// Runs the shunting-yard scan over an expanded pattern.
pub(crate) fn convert(e: &Vec<char>) -> (out: Vec<Token>)
    ensures
        out@ == shunt(e@, Seq::<char>::empty()),
{
    let ghost goal = shunt(e@, Seq::<char>::empty());
    let n = e.len();
    let mut out: Vec<Token> = Vec::new();
    let mut stack: Vec<char> = Vec::new();
    let mut i: usize = 0;
    proof {
        assert(e@.skip(0) =~= e@);
    }
    while i < n
        invariant
            i <= n,
            n == e@.len(),
            goal == out@ + shunt(e@.skip(i as int), stack@),
        decreases n - i,
    {
        let ghost suffix = e@.skip(i as int);
        let ghost rest = e@.skip(i as int + 1);
        proof {
            assert(suffix[0] == e@[i as int]);
            assert(suffix.skip(1) =~= rest);
        }
        let c = char_at(e, i);
        if literal_char(c) {
            let ghost out0 = out@;
            out.push(Token::Char(c));
            proof {
                assert(out@ =~= out0 + seq![Token::Char(c)]);
                assert(goal =~= out@ + shunt(rest, stack@));
            }
        } else if c == '(' {
            let ghost st0 = stack@;
            stack.push(c);
            proof {
                assert(stack@ == st0.push('('));
                assert(goal =~= out@ + shunt(rest, stack@));
            }
        } else if c == ')' {
            proof {
                assert(goal =~= out@ + tokens_of(pop_paren(stack@).0) + shunt(
                    rest,
                    pop_paren(stack@).1,
                ));
            }
            loop
                invariant_except_break
                    goal == out@ + tokens_of(pop_paren(stack@).0) + shunt(
                        rest,
                        pop_paren(stack@).1,
                    ),
                ensures
                    goal == out@ + shunt(rest, stack@),
                decreases stack@.len(),
            {
                if stack.len() == 0 {
                    proof {
                        assert(stack@ =~= Seq::<char>::empty());
                        assert(tokens_of(pop_paren(stack@).0) =~= Seq::<Token>::empty());
                        assert(pop_paren(stack@).1 =~= stack@);
                        assert(goal =~= out@ + shunt(rest, stack@));
                    }
                    break;
                }
                let ghost st0 = stack@;
                let top = stack.pop().unwrap();
                proof {
                    assert(top == st0.last());
                    assert(stack@ =~= st0.drop_last());
                }
                if top == '(' {
                    proof {
                        assert(pop_paren(st0).0 =~= Seq::<char>::empty());
                        assert(tokens_of(pop_paren(st0).0) =~= Seq::<Token>::empty());
                        assert(goal =~= out@ + shunt(rest, stack@));
                    }
                    break;
                }
                let ghost out0 = out@;
                out.push(char_token(top));
                proof {
                    assert(out@ =~= out0 + seq![op_token(top)]);
                    assert(pop_paren(st0).0 == seq![top] + pop_paren(stack@).0);
                    assert((seq![top] + pop_paren(stack@).0).skip(1) =~= pop_paren(stack@).0);
                    assert(tokens_of(pop_paren(st0).0) =~= seq![op_token(top)] + tokens_of(
                        pop_paren(stack@).0,
                    ));
                    assert(goal =~= out@ + tokens_of(pop_paren(stack@).0) + shunt(
                        rest,
                        pop_paren(stack@).1,
                    ));
                }
            }
        } else if operator_char(c) {
            let p = precedence(c);
            proof {
                assert(goal =~= out@ + tokens_of(pop_ge(stack@, prec(c)).0) + shunt(
                    rest,
                    pop_ge(stack@, prec(c)).1.push(c),
                ));
            }
            loop
                invariant_except_break
                    p as int == prec(c),
                    goal == out@ + tokens_of(pop_ge(stack@, prec(c)).0) + shunt(
                        rest,
                        pop_ge(stack@, prec(c)).1.push(c),
                    ),
                ensures
                    goal == out@ + shunt(rest, stack@.push(c)),
                decreases stack@.len(),
            {
                if stack.len() == 0 {
                    proof {
                        assert(stack@ =~= Seq::<char>::empty());
                        assert(tokens_of(pop_ge(stack@, prec(c)).0) =~= Seq::<Token>::empty());
                        assert(pop_ge(stack@, prec(c)).1 =~= stack@);
                        assert(goal =~= out@ + shunt(rest, stack@.push(c)));
                    }
                    break;
                }
                let top = top_char(&stack);
                proof {
                    assert(top == stack@.last());
                }
                if top == '(' {
                    proof {
                        assert(pop_ge(stack@, prec(c)).1 == stack@);
                        assert(tokens_of(pop_ge(stack@, prec(c)).0) =~= Seq::<Token>::empty());
                        assert(goal =~= out@ + shunt(rest, stack@.push(c)));
                    }
                    break;
                }
                let p2 = precedence(top);
                if p2 >= p {
                    let ghost st0 = stack@;
                    let popped = stack.pop().unwrap();
                    let ghost out0 = out@;
                    out.push(char_token(popped));
                    proof {
                        assert(popped == st0.last());
                        assert(stack@ =~= st0.drop_last());
                        assert(out@ =~= out0 + seq![op_token(popped)]);
                        assert(pop_ge(st0, prec(c)).0 == seq![popped] + pop_ge(
                            stack@,
                            prec(c),
                        ).0);
                        assert((seq![popped] + pop_ge(stack@, prec(c)).0).skip(1) =~= pop_ge(
                            stack@,
                            prec(c),
                        ).0);
                        assert(tokens_of(pop_ge(st0, prec(c)).0) =~= seq![op_token(popped)]
                            + tokens_of(pop_ge(stack@, prec(c)).0));
                        assert(goal =~= out@ + tokens_of(pop_ge(stack@, prec(c)).0) + shunt(
                            rest,
                            pop_ge(stack@, prec(c)).1.push(c),
                        ));
                    }
                } else {
                    proof {
                        assert(pop_ge(stack@, prec(c)).1 == stack@);
                        assert(tokens_of(pop_ge(stack@, prec(c)).0) =~= Seq::<Token>::empty());
                        assert(goal =~= out@ + shunt(rest, stack@.push(c)));
                    }
                    break;
                }
            }
            let ghost st1 = stack@;
            stack.push(c);
            proof {
                assert(stack@ == st1.push(c));
            }
        } else {
            proof {
                assert(goal =~= out@ + shunt(rest, stack@));
            }
        }
        i = i + 1;
    }
    proof {
        assert(e@.skip(n as int) =~= Seq::<char>::empty());
        assert(goal =~= out@ + flush_tokens(stack@));
    }
    loop
        invariant_except_break
            goal == out@ + flush_tokens(stack@),
        ensures
            goal == out@,
        decreases stack@.len(),
    {
        if stack.len() == 0 {
            proof {
                assert(stack@ =~= Seq::<char>::empty());
                assert(flush_tokens(stack@) =~= Seq::<Token>::empty());
                assert(goal =~= out@);
            }
            break;
        }
        let ghost st0 = stack@;
        let top = stack.pop().unwrap();
        let ghost out0 = out@;
        out.push(char_token(top));
        proof {
            assert(top == st0.last());
            assert(stack@ =~= st0.drop_last());
            assert(out@ =~= out0 + seq![op_token(top)]);
            assert(goal =~= out@ + flush_tokens(stack@));
        }
    }
    out
}

/// The characters of the rendering of a token sequence.
pub(crate) fn render_tokens(ts: &Vec<Token>) -> (r: Vec<char>)
    ensures
        r@ == render_spec(ts@),
{
    let mut r: Vec<char> = Vec::new();
    let n = ts.len();
    if n == 0 {
        proof {
            assert(render_spec(ts@) =~= Seq::<char>::empty());
        }
        return r;
    }
    r.push(render_char(ts[0]));
    let mut i: usize = 1;
    proof {
        assert(r@ =~= seq![token_char(ts@[0])]);
        assert(ts@.skip(0).skip(1) =~= ts@.skip(1));
        assert(render_spec(ts@) =~= r@ + render_tail(ts@.skip(1)));
    }
    while i < n
        invariant
            1 <= i <= n,
            n == ts@.len(),
            render_spec(ts@) == r@ + render_tail(ts@.skip(i as int)),
        decreases n - i,
    {
        let ghost r0 = r@;
        let ghost suffix = ts@.skip(i as int);
        proof {
            assert(suffix[0] == ts@[i as int]);
            assert(suffix.skip(1) =~= ts@.skip(i as int + 1));
        }
        r.push(' ');
        r.push(render_char(token_at(ts, i)));
        proof {
            assert(r@ =~= r0 + seq![' ', token_char(ts@[i as int])]);
            assert(render_spec(ts@) =~= r@ + render_tail(ts@.skip(i as int + 1)));
        }
        i = i + 1;
    }
    proof {
        assert(ts@.skip(n as int) =~= Seq::<Token>::empty());
        assert(render_spec(ts@) =~= r@);
    }
    r
}

/// Converts an infix pattern to its postfix token sequence: implicit
/// concatenation is first made explicit, then operators are reordered by
/// precedence with the shunting-yard algorithm.
///
/// Malformed input is deliberately passed through rather than rejected:
/// characters outside the pattern alphabet are dropped, an unmatched `)`
/// pops nothing, and a leftover `(` is flushed into the output. For
/// well-formed patterns (`wf_pattern`), the output is a valid postfix
/// expression of a single tree and holds no parenthesis token
/// (`lemma_postfix_single_tree`, `lemma_postfix_no_parens`).
pub fn to_postfix_tokens(regex: &str) -> (r: Vec<Token>)
    ensures
        r@ == postfix_spec(regex@),
{
    let cs = chars_of(regex);
    let expanded = expand_chars(&cs);
    convert(&expanded)
}

/// Converts an infix pattern to postfix notation, rendered as one character
/// per token with single spaces between tokens and none at the ends.
pub fn to_postfix(regex: &str) -> (r: String)
    ensures
        r@ == render_spec(postfix_spec(regex@)),
{
    let ts = to_postfix_tokens(regex);
    let cs = render_tokens(&ts);
    string_from_chars(&cs)
}

} // verus!
