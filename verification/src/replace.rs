use vstd::prelude::*;
use vstd::string::StringExecFns;

use crate::text::{chars_of, push_char};

verus! {

broadcast use vstd::string::group_string_axioms;

/// `s` with every match of `pat` replaced by `rep`, as `str::replace` does:
/// matches are taken from left to right without overlapping, and an empty
/// pattern matches before every character and at the end.
pub open spec fn replace_all(s: Seq<char>, pat: Seq<char>, rep: Seq<char>) -> Seq<char>
    decreases s.len(),
{
    if pat.len() == 0 {
        if s.len() == 0 {
            rep
        } else {
            rep + seq![s[0]] + replace_all(s.drop_first(), pat, rep)
        }
    } else if s.len() == 0 {
        Seq::empty()
    } else if pat.is_prefix_of(s) {
        rep + replace_all(s.skip(pat.len() as int), pat, rep)
    } else {
        seq![s[0]] + replace_all(s.drop_first(), pat, rep)
    }
}

/// `pat` occurs somewhere in `s`.
pub open spec fn occurs(s: Seq<char>, pat: Seq<char>) -> bool {
    exists|i: int| 0 <= i <= s.len() && #[trigger] pat.is_prefix_of(s.skip(i))
}

/// A piece occurs in any text it is part of.
pub proof fn lemma_occurs_in(a: Seq<char>, w: Seq<char>, c: Seq<char>)
    ensures
        occurs(a + w + c, w),
{
    let s = a + w + c;
    assert(s.skip(a.len() as int).subrange(0, w.len() as int) =~= w);
    assert(w.is_prefix_of(s.skip(a.len() as int)));
}

/// What occurs in a part of a text occurs in the text.
pub proof fn lemma_occurs_trans(s: Seq<char>, m: Seq<char>, w: Seq<char>)
    requires
        occurs(s, m),
        occurs(m, w),
    ensures
        occurs(s, w),
{
    let i = choose|i: int| 0 <= i <= s.len() && #[trigger] m.is_prefix_of(s.skip(i));
    let j = choose|j: int| 0 <= j <= m.len() && #[trigger] w.is_prefix_of(m.skip(j));
    assert forall|x: int| 0 <= x < w.len() implies #[trigger] s.skip(i + j)[x] == w[x] by {
        assert(m.skip(j)[x] == w[x]);
        assert(s.skip(i)[j + x] == m[j + x]);
    }
    assert(s.skip(i + j).subrange(0, w.len() as int) =~= w);
    assert(w.is_prefix_of(s.skip(i + j)));
}

/// Replacing a pattern by itself changes nothing.
pub proof fn lemma_replace_identity(s: Seq<char>, pat: Seq<char>)
    ensures
        replace_all(s, pat, pat) == s,
    decreases s.len(),
{
    if pat.len() == 0 {
        if s.len() > 0 {
            lemma_replace_identity(s.drop_first(), pat);
            assert(s =~= pat + seq![s[0]] + s.drop_first());
        } else {
            assert(s =~= pat);
        }
    } else if s.len() > 0 {
        if pat.is_prefix_of(s) {
            lemma_replace_identity(s.skip(pat.len() as int), pat);
            assert(s =~= pat + s.skip(pat.len() as int));
        } else {
            lemma_replace_identity(s.drop_first(), pat);
            assert(s =~= seq![s[0]] + s.drop_first());
        }
    }
}

/// Text in which a non-empty pattern does not occur is left as it is.
pub proof fn lemma_replace_absent(s: Seq<char>, pat: Seq<char>, rep: Seq<char>)
    requires
        pat.len() > 0,
        !occurs(s, pat),
    ensures
        replace_all(s, pat, rep) == s,
    decreases s.len(),
{
    if s.len() > 0 {
        assert(s.skip(0) =~= s);
        assert(!pat.is_prefix_of(s.skip(0)));
        let t = s.drop_first();
        assert(!occurs(t, pat)) by {
            if occurs(t, pat) {
                let i = choose|i: int| 0 <= i <= t.len() && #[trigger] pat.is_prefix_of(t.skip(i));
                assert(t.skip(i) =~= s.skip(i + 1));
                assert(pat.is_prefix_of(s.skip(i + 1)));
            }
        }
        lemma_replace_absent(t, pat, rep);
        assert(s =~= seq![s[0]] + t);
    }
}

/// Whether `p` occurs in `s` at position `i`.
fn matches_at(s: &Vec<char>, p: &Vec<char>, i: usize) -> (r: bool)
    requires
        i <= s.len(),
    ensures
        r == p@.is_prefix_of(s@.skip(i as int)),
{
    if p.len() > s.len() - i {
        return false;
    }
    let mut k: usize = 0;
    while k < p.len()
        invariant
            i + p.len() <= s.len(),
            k <= p.len(),
            forall|j: int| 0 <= j < k ==> p@[j] == s@[i + j],
        decreases p.len() - k,
    {
        if p[k] != s[i + k] {
            assert(s@.skip(i as int)[k as int] == s@[i + k]);
            return false;
        }
        k = k + 1;
    }
    assert(p@ =~= s@.skip(i as int).subrange(0, p@.len() as int));
    true
}

/// `s` with every match of `pat` replaced by `rep` (`str::replace`).
pub fn replace_str(s: &str, pat: &str, rep: &str) -> (r: String)
    ensures
        r@ == replace_all(s@, pat@, rep@),
{
    let sc = chars_of(s);
    let pc = chars_of(pat);
    let mut out = String::new();
    let mut i: usize = 0;
    assert(sc@.skip(0) =~= sc@);
    if pc.len() == 0 {
        while i < sc.len()
            invariant
                i <= sc.len(),
                pc@.len() == 0,
                out@ + replace_all(sc@.skip(i as int), pc@, rep@) == replace_all(sc@, pc@, rep@),
            decreases sc.len() - i,
        {
            let ghost before = out@;
            assert(sc@.skip(i as int).drop_first() =~= sc@.skip(i + 1));
            out.append(rep);
            push_char(&mut out, sc[i]);
            assert(out@ =~= before + rep@ + seq![sc@[i as int]]);
            i = i + 1;
        }
        out.append(rep);
    } else {
        while i < sc.len()
            invariant
                i <= sc.len(),
                pc@.len() > 0,
                out@ + replace_all(sc@.skip(i as int), pc@, rep@) == replace_all(sc@, pc@, rep@),
            decreases sc.len() - i,
        {
            let ghost before = out@;
            if matches_at(&sc, &pc, i) {
                assert(sc@.skip(i as int).skip(pc@.len() as int) =~= sc@.skip(i + pc@.len()));
                out.append(rep);
                i = i + pc.len();
            } else {
                assert(sc@.skip(i as int).drop_first() =~= sc@.skip(i + 1));
                push_char(&mut out, sc[i]);
                i = i + 1;
            }
        }
    }
    assert(sc@.skip(i as int).len() == 0);
    out
}

} // verus!
