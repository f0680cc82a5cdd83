use vstd::prelude::*;

use crate::order::{lemma_insert_keeps_sorted, lemma_sorted_unique, lemma_str_order_strict, str_order, strictly_sorted, views};
use crate::text::{chars_of, compare_str, lemma_str_lt_total, push_char, str_lt, Order};

verus! {

broadcast use vstd::string::group_string_axioms;

/// The characters with the Unicode `White_Space` property, which is what
/// `char::is_whitespace` tests.
pub open spec fn is_space(c: char) -> bool {
    ||| '\u{9}' <= c <= '\u{d}'
    ||| c == ' '
    ||| c == '\u{85}'
    ||| c == '\u{a0}'
    ||| c == '\u{1680}'
    ||| '\u{2000}' <= c <= '\u{200a}'
    ||| c == '\u{2028}'
    ||| c == '\u{2029}'
    ||| c == '\u{202f}'
    ||| c == '\u{205f}'
    ||| c == '\u{3000}'
}

/// Whether `c` is white space (`char::is_whitespace`).
pub fn is_space_char(c: char) -> (r: bool)
    ensures
        r == is_space(c),
{
    ('\u{9}' <= c && c <= '\u{d}') || c == ' ' || c == '\u{85}' || c == '\u{a0}' || c == '\u{1680}'
        || ('\u{2000}' <= c && c <= '\u{200a}') || c == '\u{2028}' || c == '\u{2029}' || c
        == '\u{202f}' || c == '\u{205f}' || c == '\u{3000}'
}

/// `s[i..j]` is a word: a maximal non-empty run of characters that are not
/// white space.
pub open spec fn word_at(s: Seq<char>, i: int, j: int) -> bool {
    &&& 0 <= i < j <= s.len()
    &&& forall|k: int| i <= k < j ==> !is_space(#[trigger] s[k])
    &&& i == 0 || is_space(s[i - 1])
    &&& j == s.len() || is_space(s[j])
}

/// `t` is one of the words of `s`, ending before position `n`.
pub open spec fn word_before(s: Seq<char>, t: Seq<char>, n: int) -> bool {
    exists|i: int, j: int| word_at(s, i, j) && j < n && #[trigger] s.subrange(i, j) == t
}

/// `t` is one of the words of `s` (what `str::split_whitespace` yields).
pub open spec fn is_word(s: Seq<char>, t: Seq<char>) -> bool {
    exists|i: int, j: int| word_at(s, i, j) && #[trigger] s.subrange(i, j) == t
}

/// No visible ASCII character is white space: letters, digits and
/// punctuation such as `-`, `_` or `.` stay inside a tag.
pub proof fn lemma_visible_ascii_not_space(c: char)
    requires
        '!' <= c <= '~',
    ensures
        !is_space(c),
{
}

/// The ASCII white space characters separate tags.
pub proof fn lemma_ascii_white_space()
    ensures
        is_space(' '),
        is_space('\t'),
        is_space('\n'),
        is_space('\r'),
        is_space('\u{b}'),
        is_space('\u{c}'),
{
}

/// A non-empty text without white space is a single word: itself.
pub proof fn lemma_single_word(s: Seq<char>, t: Seq<char>)
    requires
        s.len() > 0,
        forall|k: int| 0 <= k < s.len() ==> !is_space(#[trigger] s[k]),
    ensures
        is_word(s, t) == (t == s),
{
    assert(word_at(s, 0, s.len() as int));
    assert(s.subrange(0, s.len() as int) =~= s);
    if is_word(s, t) {
        let (i, j) = choose|i: int, j: int| word_at(s, i, j) && #[trigger] s.subrange(i, j) == t;
        if i > 0 {
            assert(!is_space(s[i - 1]));
        }
        if j < s.len() {
            assert(!is_space(s[j]));
        }
    }
}

/// A tags file holding one run of visible ASCII characters, such as
/// `black-and-white`, has exactly that one tag.
pub proof fn lemma_visible_ascii_one_tag(s: Seq<char>, tags: Seq<Seq<char>>)
    requires
        s.len() > 0,
        forall|k: int| 0 <= k < s.len() ==> '!' <= #[trigger] s[k] <= '~',
        strictly_sorted(tags, str_order()),
        forall|t: Seq<char>| #[trigger] tags.contains(t) == is_word(s, t),
    ensures
        tags == seq![s],
{
    assert forall|t: Seq<char>| tags.contains(t) == seq![s].contains(t) by {
        lemma_single_word(s, t);
        if t == s {
            assert(seq![s][0] == t);
        }
    }
    lemma_str_order_strict();
    lemma_sorted_unique(tags, seq![s], str_order());
}

/// Adds `t` to a strictly sorted list of strings, unless it is already there.
pub fn insert_sorted(set: &mut Vec<String>, t: String)
    requires
        strictly_sorted(views(old(set)@), str_order()),
    ensures
        strictly_sorted(views(final(set)@), str_order()),
        forall|x: Seq<char>|
            #[trigger] views(final(set)@).contains(x) == (views(old(set)@).contains(x) || x == t@),
{
    let ghost old_v = views(set@);
    let mut p: usize = 0;
    while p < set.len() && compare_str(set[p].as_str(), t.as_str()) == Order::Less
        invariant
            views(set@) == old_v,
            p <= set@.len(),
            forall|q: int| 0 <= q < p ==> str_lt(#[trigger] old_v[q], t@),
        decreases set@.len() - p,
    {
        p = p + 1;
    }
    proof {
        lemma_str_order_strict();
        assert(old_v.len() == set@.len());
    }
    if p < set.len() && compare_str(set[p].as_str(), t.as_str()) == Order::Equal {
        proof {
            assert(old_v[p as int] == t@);
            assert forall|x: Seq<char>| #[trigger] views(set@).contains(x) == (old_v.contains(x) || x == t@) by {
                if x == t@ {
                    assert(old_v[p as int] == x);
                }
            }
        }
        return;
    }
    proof {
        if p < old_v.len() {
            lemma_str_lt_total(old_v[p as int], t@);
        }
    }
    set.insert(p, t);
    proof {
        let nv = views(set@);
        assert(nv =~= old_v.insert(p as int, t@));
        lemma_insert_keeps_sorted(old_v, p as int, t@);
        assert forall|x: Seq<char>| #[trigger] nv.contains(x) == (old_v.contains(x) || x == t@) by {
            if x == t@ {
                assert(nv[p as int] == x);
            }
            if old_v.contains(x) {
                let k = choose|k: int| 0 <= k < old_v.len() && old_v[k] == x;
                if k < p {
                    assert(nv[k] == x);
                } else {
                    assert(nv[k + 1] == x);
                }
            }
            if nv.contains(x) {
                let k = choose|k: int| 0 <= k < nv.len() && nv[k] == x;
                if k < p {
                    assert(old_v[k] == x);
                } else if k > p {
                    assert(old_v[k - 1] == x);
                }
            }
        }
    }
}

/// A word that ends at `end` starts at the one place after the last white
/// space before it.
proof fn lemma_word_start(s: Seq<char>, start: int, end: int, a: int)
    requires
        0 <= start <= end <= s.len(),
        start == 0 || is_space(s[start - 1]),
        forall|k: int| start <= k < end ==> !is_space(#[trigger] s[k]),
        word_at(s, a, end),
    ensures
        a == start,
{
    if a < start {
        assert(!is_space(s[start - 1]));
    } else if a > start {
        assert(!is_space(s[a - 1]));
    }
}

/// The distinct tags of a tags file: its whitespace-separated words, in
/// sorted order without repeats (as a `BTreeSet<String>` holds them).
pub fn get_tags(content: &str) -> (tags: Vec<String>)
    ensures
        strictly_sorted(views(tags@), str_order()),
        forall|t: Seq<char>| #[trigger] views(tags@).contains(t) == is_word(content@, t),
{
    let cs = chars_of(content);
    let ghost s = content@;
    let mut tags: Vec<String> = Vec::new();
    let mut cur = String::new();
    let ghost mut start: int = 0;
    let mut i: usize = 0;
    proof {
        assert(views(tags@) =~= Seq::<Seq<char>>::empty());
        assert(s.subrange(0, 0) =~= cur@);
    }
    while i < cs.len()
        invariant
            cs@ == s,
            i <= cs@.len(),
            0 <= start <= i,
            start == 0 || is_space(s[start - 1]),
            forall|k: int| start <= k < i ==> !is_space(#[trigger] s[k]),
            cur@ == s.subrange(start, i as int),
            strictly_sorted(views(tags@), str_order()),
            forall|t: Seq<char>| #[trigger] views(tags@).contains(t) == word_before(s, t, i as int),
        decreases cs@.len() - i,
    {
        let c = cs[i];
        let ghost old_tags = views(tags@);
        if is_space_char(c) {
            if !cur.as_str().is_empty() {
                proof {
                    assert(word_at(s, start, i as int));
                }
                let word = cur;
                insert_sorted(&mut tags, word);
                cur = String::new();
            }
            proof {
                assert forall|t: Seq<char>| #[trigger] views(tags@).contains(t) == word_before(s, t, i + 1) by {
                    if word_before(s, t, i + 1) && !word_before(s, t, i as int) {
                        let (a, b) = choose|a: int, b: int| word_at(s, a, b) && b < i + 1 && #[trigger] s.subrange(a, b) == t;
                        assert(b == i);
                        lemma_word_start(s, start, i as int, a);
                        assert(start < i);
                    }
                    if start < i && t == s.subrange(start, i as int) {
                        assert(word_at(s, start, i as int));
                    }
                }
                start = i + 1;
                assert(s.subrange(start, i + 1) =~= cur@);
            }
        } else {
            let ghost before = cur@;
            push_char(&mut cur, c);
            proof {
                assert(cur@ =~= s.subrange(start, i + 1));
                assert forall|t: Seq<char>| #[trigger] views(tags@).contains(t) == word_before(s, t, i + 1) by {
                    if word_before(s, t, i + 1) {
                        let (a, b) = choose|a: int, b: int| word_at(s, a, b) && b < i + 1 && #[trigger] s.subrange(a, b) == t;
                        assert(b != i);
                    }
                }
            }
        }
        i = i + 1;
    }
    if !cur.as_str().is_empty() {
        proof {
            assert(word_at(s, start, s.len() as int));
        }
        let word = cur;
        insert_sorted(&mut tags, word);
    }
    proof {
        assert forall|t: Seq<char>| #[trigger] views(tags@).contains(t) == is_word(s, t) by {
            if is_word(s, t) && !word_before(s, t, s.len() as int) {
                let (a, b) = choose|a: int, b: int| word_at(s, a, b) && #[trigger] s.subrange(a, b) == t;
                assert(b == s.len());
                lemma_word_start(s, start, s.len() as int, a);
            }
            if word_before(s, t, s.len() as int) {
                let (a, b) = choose|a: int, b: int| word_at(s, a, b) && b < s.len() && #[trigger] s.subrange(a, b) == t;
                assert(s.subrange(a, b) == t);
            }
            if start < s.len() && t == s.subrange(start, s.len() as int) {
                assert(word_at(s, start, s.len() as int));
            }
        }
    }
    tags
}

} // verus!
