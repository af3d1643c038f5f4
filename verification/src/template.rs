//! Placeholder substitution in output templates.
//!
//! A template is a literal text with `{name}` tokens. Substitution is
//! one deterministic left-to-right pass per token: every occurrence of
//! the token's exact text is replaced with the same tick's value, and
//! text that matches no known token passes through verbatim.

use crate::strutil::{contains_spec, is_match, match_at, push_char};
use vstd::prelude::*;

verus! {

/// `s` with every occurrence of `pat` replaced by `to`, scanning left
/// to right without revisiting replaced text. An empty `pat` replaces
/// nothing.
pub open spec fn replace_all_spec(s: Seq<char>, pat: Seq<char>, to: Seq<char>) -> Seq<char>
    decreases s.len(),
{
    if pat.len() == 0 || pat.len() > s.len() {
        s
    } else if s.take(pat.len() as int) == pat {
        to + replace_all_spec(s.skip(pat.len() as int), pat, to)
    } else {
        seq![s[0]] + replace_all_spec(s.skip(1), pat, to)
    }
}

/// The placeholder token of a name: the name between braces.
pub open spec fn token_of(name: Seq<char>) -> Seq<char> {
    seq!['{'] + name + seq!['}']
}

/// Builds the placeholder token of a name.
pub fn make_token(name: &str) -> (r: String)
    ensures
        r@ == token_of(name@),
{
    let mut t = String::new();
    push_char(&mut t, '{');
    t.append(name);
    push_char(&mut t, '}');
    proof {
        assert(t@ =~= token_of(name@));
    }
    t
}

/// Replaces every occurrence of `pat` in `s` with `to`, in one pass.
pub fn replace_all(s: &str, pat: &str, to: &str) -> (r: String)
    ensures
        r@ == replace_all_spec(s@, pat@, to@),
{
    let n = s.unicode_len();
    let m = pat.unicode_len();
    if m == 0 {
        return s.to_owned();
    }
    let mut out = String::new();
    let mut i: usize = 0;
    proof {
        assert(s@.skip(0) =~= s@);
        assert(out@ + replace_all_spec(s@, pat@, to@) =~= replace_all_spec(s@, pat@, to@));
    }
    while i < n
        invariant
            i <= n,
            1 <= m,
            n == s@.len(),
            m == pat@.len(),
            out@ + replace_all_spec(s@.skip(i as int), pat@, to@) == replace_all_spec(
                s@,
                pat@,
                to@,
            ),
        decreases n - i,
    {
        let ghost rest = s@.skip(i as int);
        if match_at(s, i, pat) {
            proof {
                assert(rest.take(m as int) =~= s@.subrange(i as int, i as int + m));
                assert(rest.skip(m as int) =~= s@.skip(i as int + m));
            }
            out.append(to);
            i = i + m;
        } else {
            let c = s.get_char(i);
            proof {
                assert(rest[0] == c);
                assert(rest.skip(1) =~= s@.skip(i as int + 1));
                if m <= rest.len() {
                    assert(rest.take(m as int) != pat@) by {
                        assert(rest.take(m as int) =~= s@.subrange(i as int, i as int + m));
                    }
                    assert(replace_all_spec(rest, pat@, to@) == seq![rest[0]]
                        + replace_all_spec(rest.skip(1), pat@, to@));
                } else {
                    assert(replace_all_spec(rest, pat@, to@) == rest);
                    assert(replace_all_spec(rest.skip(1), pat@, to@) == rest.skip(1));
                    assert(rest =~= seq![rest[0]] + rest.skip(1));
                }
            }
            push_char(&mut out, c);
            i = i + 1;
            proof {
                assert(out@ =~= (out@.drop_last()) + seq![c]);
                assert(out@ + replace_all_spec(s@.skip(i as int), pat@, to@) =~= out@.drop_last()
                    + (seq![c] + replace_all_spec(s@.skip(i as int), pat@, to@)));
            }
        }
    }
    proof {
        assert(s@.skip(n as int) =~= Seq::<char>::empty());
        assert(replace_all_spec(Seq::<char>::empty(), pat@, to@) == Seq::<char>::empty());
        assert(out@ + Seq::<char>::empty() =~= out@);
    }
    out
}

/// Whether `s` is free of opening braces, so that no token can begin
/// inside it.
pub open spec fn brace_free(s: Seq<char>) -> bool {
    forall|i: int| 0 <= i < s.len() ==> s[i] != '{'
}

proof fn lemma_replace_skip_clean(x: Seq<char>, r: Seq<char>, pat: Seq<char>, to: Seq<char>)
    requires
        brace_free(x),
        pat.len() > 0,
        pat[0] == '{',
    ensures
        replace_all_spec(x + r, pat, to) == x + replace_all_spec(r, pat, to),
    decreases x.len(),
{
    let s = x + r;
    if x.len() == 0 {
        assert(s =~= r);
        assert(x + replace_all_spec(r, pat, to) =~= replace_all_spec(r, pat, to));
    } else {
        assert(s[0] == x[0]);
        assert(x[0] != '{');
        if pat.len() > s.len() {
            assert(replace_all_spec(s, pat, to) == s);
            assert(pat.len() > r.len());
            assert(replace_all_spec(r, pat, to) == r);
        } else {
            assert(s.take(pat.len() as int) != pat) by {
                assert(s.take(pat.len() as int)[0] == s[0]);
            }
            assert(replace_all_spec(s, pat, to) == seq![s[0]] + replace_all_spec(
                s.skip(1),
                pat,
                to,
            ));
            assert(forall|k: int| 0 <= k < x.skip(1).len() ==> #[trigger] x.skip(1)[k] == x[k + 1]);
            assert(brace_free(x.skip(1)));
            lemma_replace_skip_clean(x.skip(1), r, pat, to);
            assert(s.skip(1) =~= x.skip(1) + r);
            assert(seq![s[0]] + (x.skip(1) + replace_all_spec(r, pat, to)) =~= x
                + replace_all_spec(r, pat, to));
        }
    }
}

/// The token's replacement never re-scans what it produced: a text
/// whose filler holds no opening brace has both occurrences of the
/// token, and nothing else, replaced — each with the same value.
pub proof fn lemma_replace_two_occurrences(
    x: Seq<char>,
    y: Seq<char>,
    z: Seq<char>,
    pat: Seq<char>,
    to: Seq<char>,
)
    requires
        brace_free(x),
        brace_free(y),
        brace_free(z),
        pat.len() > 0,
        pat[0] == '{',
    ensures
        replace_all_spec(x + pat + y + pat + z, pat, to) == x + to + y + to + z,
{
    let w2 = pat + z;
    let w1 = pat + (y + w2);
    assert(x + pat + y + pat + z =~= x + w1);
    lemma_replace_skip_clean(x, w1, pat, to);
    assert(replace_all_spec(w1, pat, to) == to + replace_all_spec(y + w2, pat, to)) by {
        assert(w1.take(pat.len() as int) =~= pat);
        assert(w1.skip(pat.len() as int) =~= y + w2);
    }
    lemma_replace_skip_clean(y, w2, pat, to);
    assert(replace_all_spec(w2, pat, to) == to + replace_all_spec(z, pat, to)) by {
        assert(w2.take(pat.len() as int) =~= pat);
        assert(w2.skip(pat.len() as int) =~= z);
    }
    assert(replace_all_spec(z, pat, to) == z) by {
        lemma_replace_skip_clean(z, Seq::<char>::empty(), pat, to);
        assert(z + Seq::<char>::empty() =~= z);
        assert(replace_all_spec(Seq::<char>::empty(), pat, to) == Seq::<char>::empty());
        assert(z + replace_all_spec(Seq::<char>::empty(), pat, to) =~= z);
    }
    assert(replace_all_spec(x + pat + y + pat + z, pat, to) =~= x + to + y + to + z);
}

/// An unknown placeholder passes through unchanged: replacing a token
/// that occurs nowhere in the text leaves the text as it was.
pub proof fn lemma_replace_absent(s: Seq<char>, pat: Seq<char>, to: Seq<char>)
    requires
        !contains_spec(s, pat),
        pat.len() > 0,
    ensures
        replace_all_spec(s, pat, to) == s,
    decreases s.len(),
{
    if pat.len() > s.len() {
    } else {
        assert(s.take(pat.len() as int) != pat) by {
            if s.take(pat.len() as int) == pat {
                assert(is_match(s, 0, pat)) by {
                    assert(s.subrange(0, pat.len() as int) =~= s.take(pat.len() as int));
                }
            }
        }
        assert(!contains_spec(s.skip(1), pat)) by {
            if contains_spec(s.skip(1), pat) {
                let i = choose|i: int| is_match(s.skip(1), i, pat);
                assert(is_match(s, i + 1, pat)) by {
                    assert(s.subrange(i + 1, i + 1 + pat.len()) =~= s.skip(1).subrange(
                        i,
                        i + pat.len(),
                    ));
                }
            }
        }
        lemma_replace_absent(s.skip(1), pat, to);
        assert(seq![s[0]] + s.skip(1) =~= s);
    }
}

} // verus!
