use vstd::prelude::*;

use crate::shunt::{chars_of, string_from_chars};
use crate::token::{begins_expr, begins_expr_char, ends_expr, ends_expr_char};

verus! {

/// The expanded form of a pattern: the same characters, with the
/// concatenation marker `·` inserted between every adjacent pair
/// `(prev, next)` where `prev` can terminate a sub-expression and `next` can
/// begin one. Nothing is inserted at the string boundaries.
pub open spec fn expand_spec(s: Seq<char>) -> Seq<char>
    decreases s.len(),
{
    if s.len() <= 1 {
        s
    } else if ends_expr(s[0]) && begins_expr(s[1]) {
        seq![s[0], '·'] + expand_spec(s.skip(1))
    } else {
        seq![s[0]] + expand_spec(s.skip(1))
    }
}

/// Inserts the implicit-concatenation markers of `expand_spec` into a
/// character sequence.
pub(crate) fn expand_chars(s: &Vec<char>) -> (r: Vec<char>)
    ensures
        r@ == expand_spec(s@),
{
    let n = s.len();
    let mut r: Vec<char> = Vec::new();
    let mut i: usize = 0;
    proof {
        assert(s@.skip(0) =~= s@);
    }
    while i < n
        invariant
            i <= n,
            n == s@.len(),
            expand_spec(s@) == r@ + expand_spec(s@.skip(i as int)),
        decreases n - i,
    {
        let ghost suffix = s@.skip(i as int);
        let ghost r0 = r@;
        proof {
            assert(suffix[0] == s@[i as int]);
            assert(suffix.skip(1) =~= s@.skip(i as int + 1));
            if i + 1 < n {
                assert(suffix[1] == s@[i as int + 1]);
            }
        }
        r.push(s[i]);
        if i + 1 < n && ends_expr_char(s[i]) && begins_expr_char(s[i + 1]) {
            r.push('·');
            proof {
                assert(r@ =~= r0 + seq![suffix[0], '·']);
            }
        } else {
            proof {
                assert(r@ =~= r0 + seq![suffix[0]]);
            }
        }
        proof {
            if i + 1 == n {
                assert(suffix =~= seq![suffix[0]]);
                assert(s@.skip(i as int + 1) =~= Seq::<char>::empty());
            }
            assert(expand_spec(s@) =~= r@ + expand_spec(s@.skip(i as int + 1)));
        }
        i = i + 1;
    }
    proof {
        assert(s@.skip(n as int) =~= Seq::<char>::empty());
        assert(expand_spec(s@) =~= r@);
    }
    r
}

/// Rewrites a raw pattern into its expanded form, with an explicit `·`
/// wherever concatenation was implicit: `a*b` becomes `a*·b`, `(a)(b)`
/// becomes `(a)·(b)`, and `a(b` becomes `a·(b`.
pub fn insert_concat_ops(regex: &str) -> (r: String)
    ensures
        r@ == expand_spec(regex@),
{
    let cs = chars_of(regex);
    let expanded = expand_chars(&cs);
    string_from_chars(&expanded)
}

} // verus!
