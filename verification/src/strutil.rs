//! Small verified helpers over strings and character vectors, shared by
//! the parsing, formatting and templating modules.

use vstd::prelude::*;

verus! {

/// Relies on `String::push`: appends exactly one character at the end.
#[verifier::external_body]
pub fn push_char(s: &mut String, c: char)
    ensures
        final(s)@ == old(s)@.push(c),
{
    s.push(c);
}

/// Appends every character of `v`, in order, to `out`.
pub fn append_chars(out: &mut String, v: &Vec<char>)
    ensures
        final(out)@ == old(out)@ + v@,
{
    let mut i: usize = 0;
    while i < v.len()
        invariant
            i <= v.len(),
            out@ == old(out)@ + v@.take(i as int),
        decreases v.len() - i,
    {
        let c = v[i];
        push_char(out, c);
        i = i + 1;
        proof {
            assert(out@ =~= old(out)@ + v@.take(i as int));
        }
    }
    proof {
        assert(v@.take(v@.len() as int) =~= v@);
    }
}

/// Whether `pat` occurs in `s` starting at position `i`.
pub open spec fn is_match(s: Seq<char>, i: int, pat: Seq<char>) -> bool {
    0 <= i && i + pat.len() <= s.len() && s.subrange(i, i + pat.len()) == pat
}

/// Whether `pat` occurs somewhere in `s`.
pub open spec fn contains_spec(s: Seq<char>, pat: Seq<char>) -> bool {
    exists|i: int| is_match(s, i, pat)
}

/// Whether `pat` occurs in `s` starting at position `i`.
pub fn match_at(s: &str, i: usize, pat: &str) -> (r: bool)
    ensures
        r == is_match(s@, i as int, pat@),
{
    let n = s.unicode_len();
    let m = pat.unicode_len();
    if i > n || m > n - i {
        return false;
    }
    let mut j: usize = 0;
    while j < m
        invariant
            j <= m,
            m == pat@.len(),
            n == s@.len(),
            i + m <= n,
            forall|k: int| 0 <= k < j ==> s@[i + k] == pat@[k],
        decreases m - j,
    {
        if s.get_char(i + j) != pat.get_char(j) {
            proof {
                assert(s@.subrange(i as int, i as int + m) != pat@) by {
                    assert(s@.subrange(i as int, i as int + m)[j as int] != pat@[j as int]);
                }
            }
            return false;
        }
        j = j + 1;
    }
    proof {
        assert(s@.subrange(i as int, i as int + m) =~= pat@);
    }
    true
}

/// Whether `pat` occurs somewhere in `s`.
pub fn contains_str(s: &str, pat: &str) -> (r: bool)
    ensures
        r == contains_spec(s@, pat@),
{
    let n = s.unicode_len();
    let m = pat.unicode_len();
    if m > n {
        proof {
            assert(forall|i: int| !is_match(s@, i, pat@));
        }
        return false;
    }
    if m == 0 {
        proof {
            assert(is_match(s@, 0, pat@)) by {
                assert(s@.subrange(0, 0) =~= pat@);
            }
        }
        return true;
    }
    let mut i: usize = 0;
    while i <= n - m
        invariant
            1 <= m,
            0 <= i <= n + 1 - m,
            m <= n,
            m == pat@.len(),
            n == s@.len(),
            forall|k: int| 0 <= k < i ==> !is_match(s@, k, pat@),
        decreases n + 1 - m - i,
    {
        if match_at(s, i, pat) {
            return true;
        }
        i = i + 1;
    }
    proof {
        assert(forall|k: int| !is_match(s@, k, pat@)) by {
            assert(forall|k: int| k > n - m ==> !is_match(s@, k, pat@));
        }
    }
    false
}

/// Whether two texts hold the same characters.
pub fn str_eq(a: &str, b: &str) -> (r: bool)
    ensures
        r == (a@ == b@),
{
    let n = a.unicode_len();
    if n != b.unicode_len() {
        return false;
    }
    if match_at(a, 0, b) {
        proof {
            assert(a@.subrange(0, n as int) =~= a@);
        }
        true
    } else {
        proof {
            assert(a@.subrange(0, n as int) =~= a@);
        }
        false
    }
}

/// `s` cut at every occurrence of `sep`: the pieces between separators,
/// in order, empty pieces kept.
pub open spec fn split_spec(s: Seq<char>, sep: char) -> Seq<Seq<char>>
    decreases s.len(),
{
    if s.len() == 0 {
        seq![Seq::<char>::empty()]
    } else {
        let r = split_spec(s.skip(1), sep);
        if s[0] == sep {
            seq![Seq::<char>::empty()] + r
        } else {
            seq![seq![s[0]] + r[0]] + r.skip(1)
        }
    }
}

proof fn lemma_split_nonempty(s: Seq<char>, sep: char)
    ensures
        split_spec(s, sep).len() >= 1,
    decreases s.len(),
{
    if s.len() > 0 {
        lemma_split_nonempty(s.skip(1), sep);
    }
}

proof fn lemma_split_push(s: Seq<char>, sep: char, c: char)
    ensures
        split_spec(s.push(c), sep) == if c == sep {
            split_spec(s, sep).push(Seq::<char>::empty())
        } else {
            split_spec(s, sep).drop_last().push(split_spec(s, sep).last() + seq![c])
        },
    decreases s.len(),
{
    lemma_split_nonempty(s, sep);
    if s.len() == 0 {
        assert(s.push(c) =~= seq![c]);
        assert(seq![c].skip(1) =~= Seq::<char>::empty());
        let r0 = split_spec(Seq::<char>::empty(), sep);
        if c == sep {
            assert(split_spec(s.push(c), sep) =~= split_spec(s, sep).push(Seq::<char>::empty()));
        } else {
            assert(seq![c] + r0[0] =~= seq![c]);
            assert(split_spec(s, sep).last() + seq![c] =~= seq![c]);
            assert(split_spec(s.push(c), sep) =~= split_spec(s, sep).drop_last().push(
                split_spec(s, sep).last() + seq![c],
            ));
        }
    } else {
        let r = split_spec(s.skip(1), sep);
        lemma_split_nonempty(s.skip(1), sep);
        assert(s.push(c).skip(1) =~= s.skip(1).push(c));
        lemma_split_push(s.skip(1), sep, c);
        let rp = split_spec(s.skip(1).push(c), sep);
        if s[0] == sep {
            if c == sep {
                assert(seq![Seq::<char>::empty()] + r.push(Seq::<char>::empty()) =~= (seq![
                    Seq::<char>::empty(),
                ] + r).push(Seq::<char>::empty()));
            } else {
                assert((seq![Seq::<char>::empty()] + r).last() == r.last());
                assert(seq![Seq::<char>::empty()] + r.drop_last().push(r.last() + seq![c]) =~= (
                seq![Seq::<char>::empty()] + r).drop_last().push(r.last() + seq![c]));
            }
        } else {
            if c == sep {
                assert(rp == r.push(Seq::<char>::empty()));
                assert(rp[0] == r[0]);
                assert(rp.skip(1) =~= r.skip(1).push(Seq::<char>::empty()));
                assert(seq![seq![s[0]] + r[0]] + r.skip(1).push(Seq::<char>::empty()) =~= (seq![
                    seq![s[0]] + r[0],
                ] + r.skip(1)).push(Seq::<char>::empty()));
            } else {
                assert(rp == r.drop_last().push(r.last() + seq![c]));
                if r.len() == 1 {
                    assert(rp[0] == r[0] + seq![c]);
                    assert(rp.skip(1) =~= Seq::<Seq<char>>::empty());
                    assert(seq![s[0]] + (r[0] + seq![c]) =~= (seq![s[0]] + r[0]) + seq![c]);
                    let lhs = split_spec(s.push(c), sep);
                    assert(lhs =~= seq![(seq![s[0]] + r[0]) + seq![c]]);
                    let tgt = split_spec(s, sep);
                    assert(tgt =~= seq![seq![s[0]] + r[0]]);
                    assert(tgt.last() == seq![s[0]] + r[0]);
                    assert(lhs =~= tgt.drop_last().push(tgt.last() + seq![c]));
                } else {
                    assert(rp[0] == r[0]);
                    assert(rp.skip(1) =~= r.skip(1).drop_last().push(r.last() + seq![c]));
                    let tgt = split_spec(s, sep);
                    assert(tgt.last() == r.last());
                    assert(tgt.drop_last() =~= seq![seq![s[0]] + r[0]] + r.skip(1).drop_last());
                    assert(seq![seq![s[0]] + r[0]] + r.skip(1).drop_last().push(
                        r.last() + seq![c],
                    ) =~= tgt.drop_last().push(tgt.last() + seq![c]));
                }
            }
        }
    }
}

/// The views of a vector of strings.
pub open spec fn views_of(v: Seq<String>) -> Seq<Seq<char>> {
    v.map_values(|t: String| t@)
}

/// Cuts `s` at every occurrence of `sep`, keeping empty pieces.
pub fn split_str(s: &str, sep: char) -> (r: Vec<String>)
    ensures
        views_of(r@) == split_spec(s@, sep),
        r@.len() >= 1,
{
    let n = s.unicode_len();
    let mut parts: Vec<String> = Vec::new();
    let mut cur = String::new();
    let mut i: usize = 0;
    while i < n
        invariant
            i <= n,
            n == s@.len(),
            views_of(parts@).push(cur@) == split_spec(s@.take(i as int), sep),
        decreases n - i,
    {
        let c = s.get_char(i);
        proof {
            lemma_split_push(s@.take(i as int), sep, c);
            assert(s@.take(i as int + 1) =~= s@.take(i as int).push(c));
            lemma_split_nonempty(s@.take(i as int), sep);
        }
        if c == sep {
            let ghost old_parts = parts@;
            let ghost old_cur = cur@;
            parts.push(cur);
            cur = String::new();
            proof {
                assert(views_of(parts@) =~= views_of(old_parts).push(old_cur));
                assert(views_of(parts@).push(cur@) =~= views_of(old_parts).push(old_cur).push(
                    Seq::<char>::empty(),
                ));
            }
        } else {
            let ghost old_cur = cur@;
            push_char(&mut cur, c);
            proof {
                let prev = views_of(parts@).push(old_cur);
                assert(cur@ =~= old_cur + seq![c]);
                assert(views_of(parts@).push(cur@) =~= prev.drop_last().push(
                    prev.last() + seq![c],
                ));
            }
        }
        i = i + 1;
    }
    let ghost old_parts = parts@;
    let ghost old_cur = cur@;
    parts.push(cur);
    proof {
        assert(s@.take(n as int) =~= s@);
        assert(views_of(parts@) =~= views_of(old_parts).push(old_cur));
    }
    parts
}

/// The characters counted as blank when readings are trimmed.
pub open spec fn is_space(c: char) -> bool {
    c == ' ' || c == '\t' || c == '\n' || c == '\r'
}

/// Whether `c` counts as blank.
pub fn is_space_exec(c: char) -> (r: bool)
    ensures
        r == is_space(c),
{
    c == ' ' || c == '\t' || c == '\n' || c == '\r'
}

/// `s` without its leading blanks.
pub open spec fn trim_left(s: Seq<char>) -> Seq<char>
    decreases s.len(),
{
    if s.len() > 0 && is_space(s[0]) {
        trim_left(s.skip(1))
    } else {
        s
    }
}

/// `s` without its trailing blanks.
pub open spec fn trim_right(s: Seq<char>) -> Seq<char>
    decreases s.len(),
{
    if s.len() > 0 && is_space(s.last()) {
        trim_right(s.drop_last())
    } else {
        s
    }
}

/// `s` without leading and trailing blanks.
pub open spec fn trim_spec(s: Seq<char>) -> Seq<char> {
    trim_right(trim_left(s))
}

proof fn lemma_trim_left_step(s: Seq<char>, i: int)
    requires
        0 <= i < s.len(),
        forall|j: int| 0 <= j < i ==> is_space(s[j]),
    ensures
        trim_left(s) == if is_space(s[i]) {
            trim_left(s.skip(i + 1))
        } else {
            s.skip(i)
        },
    decreases i,
{
    if i == 0 {
        assert(s.skip(0) =~= s);
    } else {
        assert(is_space(s[0]));
        assert(trim_left(s) == trim_left(s.skip(1)));
        lemma_trim_left_step(s.skip(1), i - 1);
        assert(s.skip(1).skip(i) =~= s.skip(i + 1));
        assert(s.skip(1).skip(i - 1) =~= s.skip(i));
    }
}

proof fn lemma_trim_right_step(s: Seq<char>, i: int)
    requires
        0 <= i <= s.len(),
        forall|j: int| i <= j < s.len() ==> is_space(s[j]),
    ensures
        trim_right(s) == trim_right(s.take(i)),
    decreases s.len() - i,
{
    if i == s.len() {
        assert(s.take(i) =~= s);
    } else {
        assert(is_space(s.last()));
        assert(s.drop_last() =~= s.take(s.len() - 1));
        lemma_trim_right_step(s.take(s.len() - 1), i);
        assert(s.take(s.len() - 1).take(i) =~= s.take(i));
    }
}

/// Trims blanks from both ends of `s`.
pub fn trim(s: &str) -> (r: &str)
    ensures
        r@ == trim_spec(s@),
{
    let n = s.unicode_len();
    let mut lo: usize = 0;
    while lo < n && is_space_exec(s.get_char(lo))
        invariant
            lo <= n,
            n == s@.len(),
            forall|j: int| 0 <= j < lo ==> is_space(s@[j]),
        decreases n - lo,
    {
        lo = lo + 1;
    }
    if lo == n {
        proof {
            if n > 0 {
                lemma_trim_left_step(s@, n - 1);
                assert(s@.skip(n as int) =~= Seq::<char>::empty());
            }
            assert(trim_left(s@) =~= Seq::<char>::empty());
            assert(trim_spec(s@) =~= Seq::<char>::empty());
        }
        let r = s.substring_char(0, 0);
        proof {
            assert(r@ =~= Seq::<char>::empty());
        }
        return r;
    }
    proof {
        lemma_trim_left_step(s@, lo as int);
        assert(trim_left(s@) == s@.skip(lo as int));
    }
    let mut hi: usize = n;
    while hi > lo && is_space_exec(s.get_char(hi - 1))
        invariant
            lo <= hi <= n,
            n == s@.len(),
            !is_space(s@[lo as int]),
            forall|j: int| hi <= j < n ==> is_space(s@[j]),
        decreases hi,
    {
        hi = hi - 1;
    }
    proof {
        let t = trim_left(s@);
        assert(t == s@.skip(lo as int));
        assert(forall|j: int| hi - lo <= j < t.len() ==> is_space(#[trigger] t[j]));
        lemma_trim_right_step(t, hi - lo);
        assert(hi > lo);
        assert(!is_space(t[(hi - lo) as int - 1])) by {
            assert(t[(hi - lo) as int - 1] == s@[hi as int - 1]);
        }
        let u = t.take(hi - lo);
        assert(trim_right(u) == u) by {
            if u.len() > 0 && is_space(u.last()) {
                assert(u.last() == t[(hi - lo) as int - 1]);
            }
        }
        assert(trim_spec(s@) == t.take(hi - lo));
        assert(t.take(hi - lo) =~= s@.subrange(lo as int, hi as int));
    }
    s.substring_char(lo, hi)
}

} // verus!
