use vstd::prelude::*;

use crate::index::{find_key, first_keys};
use crate::order::{lemma_insert_keeps_sorted, lemma_sorted_unique, lemma_str_order_strict, str_order, strictly_sorted};
use crate::replace::{lemma_replace_absent, occurs, replace_all, replace_str};
use crate::text::lemma_str_lt_irreflexive;

verus! {

/// The keys of an association list, in order.
pub open spec fn keys_of(p: Seq<(Seq<char>, Seq<char>)>) -> Seq<Seq<char>> {
    p.map_values(|e: (Seq<char>, Seq<char>)| e.0)
}

/// An association list whose keys strictly increase: the listing of an
/// ordered map, smallest key first.
pub open spec fn sorted_pairs(p: Seq<(Seq<char>, Seq<char>)>) -> bool {
    strictly_sorted(keys_of(p), str_order())
}

/// The value that `p` lists for `key`, if any.
pub open spec fn lookup(p: Seq<(Seq<char>, Seq<char>)>, key: Seq<char>) -> Option<Seq<char>> {
    if exists|i: int| 0 <= i < p.len() && p[i].0 == key {
        Some(p[choose|i: int| 0 <= i < p.len() && p[i].0 == key].1)
    } else {
        None
    }
}

/// `s` after replacing, in turn, every key of `p` by its value, in the order
/// in which `p` lists them.
pub open spec fn apply_all(s: Seq<char>, p: Seq<(Seq<char>, Seq<char>)>) -> Seq<char>
    decreases p.len(),
{
    if p.len() == 0 {
        s
    } else {
        apply_all(replace_all(s, p[0].0, p[0].1), p.drop_first())
    }
}

/// A text in which no placeholder occurs comes out unchanged.
pub proof fn lemma_apply_all_absent(s: Seq<char>, p: Seq<(Seq<char>, Seq<char>)>)
    requires
        forall|i: int| 0 <= i < p.len() ==> (#[trigger] p[i]).0.len() > 0 && !occurs(s, p[i].0),
    ensures
        apply_all(s, p) == s,
    decreases p.len(),
{
    if p.len() > 0 {
        assert(p[0].0.len() > 0 && !occurs(s, p[0].0));
        lemma_replace_absent(s, p[0].0, p[0].1);
        assert forall|i: int| 0 <= i < p.drop_first().len() implies (#[trigger] p.drop_first()[i]).0.len() > 0
            && !occurs(s, p.drop_first()[i].0) by {
            assert(p.drop_first()[i] == p[i + 1]);
        }
        lemma_apply_all_absent(s, p.drop_first());
    }
}

/// In a sorted association list the key at `i` is listed only there.
pub proof fn lemma_lookup_at(p: Seq<(Seq<char>, Seq<char>)>, i: int)
    requires
        sorted_pairs(p),
        0 <= i < p.len(),
    ensures
        lookup(p, p[i].0) == Some(p[i].1),
{
    let k = p[i].0;
    assert(keys_of(p)[i] == k);
    assert forall|j: int| 0 <= j < p.len() && #[trigger] p[j].0 == k implies j == i by {
        assert(keys_of(p)[j] == p[j].0);
        if j != i {
            lemma_str_lt_irreflexive(k);
            if j < i {
                assert(str_order()(keys_of(p)[j], keys_of(p)[i]));
            } else {
                assert(str_order()(keys_of(p)[i], keys_of(p)[j]));
            }
        }
    }
    assert(exists|j: int| 0 <= j < p.len() && p[j].0 == k);
}

/// An ordered map is determined by what it maps: two sorted association
/// lists that give the same value for every key are equal.
pub proof fn lemma_sorted_pairs_unique(p: Seq<(Seq<char>, Seq<char>)>, q: Seq<(Seq<char>, Seq<char>)>)
    requires
        sorted_pairs(p),
        sorted_pairs(q),
        forall|k: Seq<char>| lookup(p, k) == lookup(q, k),
    ensures
        p == q,
{
    lemma_str_order_strict();
    assert forall|k: Seq<char>| keys_of(p).contains(k) == keys_of(q).contains(k) by {
        if keys_of(p).contains(k) {
            let i = choose|i: int| 0 <= i < keys_of(p).len() && keys_of(p)[i] == k;
            lemma_lookup_at(p, i);
            assert(lookup(q, k) is Some);
            let j = choose|j: int| 0 <= j < q.len() && q[j].0 == k;
            assert(keys_of(q)[j] == k);
        }
        if keys_of(q).contains(k) {
            let i = choose|i: int| 0 <= i < keys_of(q).len() && keys_of(q)[i] == k;
            lemma_lookup_at(q, i);
            assert(lookup(p, k) is Some);
            let j = choose|j: int| 0 <= j < p.len() && p[j].0 == k;
            assert(keys_of(p)[j] == k);
        }
    }
    lemma_sorted_unique(keys_of(p), keys_of(q), str_order());
    assert forall|i: int| 0 <= i < p.len() implies p[i] == q[i] by {
        assert(keys_of(p)[i] == keys_of(q)[i]);
        lemma_lookup_at(p, i);
        lemma_lookup_at(q, i);
    }
    assert(p =~= q);
}

/// Placeholders and their replacements, kept in the order of their keys, as
/// a `BTreeMap<String, String>` keeps them.
pub struct Placeholders {
    entries: Vec<(String, String)>,
}

impl View for Placeholders {
    type V = Seq<(Seq<char>, Seq<char>)>;

    closed spec fn view(&self) -> Seq<(Seq<char>, Seq<char>)> {
        self.entries@.map_values(|e: (String, String)| (e.0@, e.1@))
    }
}

impl Placeholders {
    /// The listing is sorted by key.
    pub open spec fn wf(&self) -> bool {
        sorted_pairs(self@)
    }

    /// A map with no placeholders.
    pub fn new() -> (m: Self)
        ensures
            m.wf(),
            m@ == Seq::<(Seq<char>, Seq<char>)>::empty(),
    {
        let m = Placeholders { entries: Vec::new() };
        assert(m@ =~= Seq::<(Seq<char>, Seq<char>)>::empty());
        m
    }

    /// Sets the replacement of `key` to `value`, replacing an earlier one.
    pub fn insert(&mut self, key: String, value: String)
        requires
            old(self).wf(),
        ensures
            final(self).wf(),
            forall|k: Seq<char>|
                #[trigger] lookup(final(self)@, k) == if k == key@ {
                    Some(value@)
                } else {
                    lookup(old(self)@, k)
                },
    {
        let ghost old_v = self@;
        let ghost keys = keys_of(old_v);
        proof {
            assert(first_keys(self.entries@) =~= keys);
        }
        let (found, p) = find_key(&self.entries, key.as_str());
        proof {
            lemma_str_order_strict();
            assert(forall|i: int| 0 <= i < old_v.len() ==> #[trigger] keys[i] == old_v[i].0);
            assert(forall|i: int| 0 <= i < old_v.len() ==> #[trigger] old_v[i] == (self.entries@[i].0@, self.entries@[i].1@));
        }
        if found {
            self.entries.set(p, (key, value));
            proof {
                let nv = self@;
                assert(nv =~= old_v.update(p as int, (key@, value@)));
                assert(keys_of(nv) =~= keys);
                assert forall|k: Seq<char>| #[trigger] lookup(nv, k) == if k == key@ {
                    Some(value@)
                } else {
                    lookup(old_v, k)
                } by {
                    if k == key@ {
                        lemma_lookup_at(nv, p as int);
                    } else {
                        if exists|i: int| 0 <= i < old_v.len() && old_v[i].0 == k {
                            let i = choose|i: int| 0 <= i < old_v.len() && old_v[i].0 == k;
                            lemma_lookup_at(old_v, i);
                            lemma_lookup_at(nv, i);
                        } else {
                            assert forall|i: int| 0 <= i < nv.len() implies nv[i].0 != k by {
                                if i != p {
                                    assert(nv[i] == old_v[i]);
                                }
                            }
                        }
                    }
                }
            }
        } else {
            self.entries.insert(p, (key, value));
            proof {
                let nv = self@;
                assert(nv =~= old_v.insert(p as int, (key@, value@)));
                let nk = keys_of(nv);
                assert(nk =~= keys.insert(p as int, key@));
                lemma_insert_keeps_sorted(keys, p as int, key@);
                assert forall|k: Seq<char>| #[trigger] lookup(nv, k) == if k == key@ {
                    Some(value@)
                } else {
                    lookup(old_v, k)
                } by {
                    if k == key@ {
                        lemma_lookup_at(nv, p as int);
                    } else {
                        if exists|i: int| 0 <= i < old_v.len() && old_v[i].0 == k {
                            let i = choose|i: int| 0 <= i < old_v.len() && old_v[i].0 == k;
                            lemma_lookup_at(old_v, i);
                            if i < p {
                                lemma_lookup_at(nv, i);
                            } else {
                                assert(nv[i + 1] == old_v[i]);
                                lemma_lookup_at(nv, i + 1);
                            }
                        } else {
                            assert forall|i: int| 0 <= i < nv.len() implies nv[i].0 != k by {
                                if i < p {
                                    assert(nv[i] == old_v[i]);
                                } else if i > p {
                                    assert(nv[i] == old_v[i - 1]);
                                }
                            }
                        }
                    }
                }
            }
        }
    }
}

/// `html_content` with each placeholder replaced by its value, in the order
/// of the keys.
pub fn replace_placeholders(html_content: &str, placeholders: &Placeholders) -> (r: String)
    ensures
        r@ == apply_all(html_content@, placeholders@),
{
    let mut result = String::from_str(html_content);
    let n = placeholders.entries.len();
    let mut k: usize = 0;
    proof {
        assert(placeholders@.skip(0) =~= placeholders@);
    }
    while k < n
        invariant
            n == placeholders.entries@.len(),
            k <= n,
            apply_all(result@, placeholders@.skip(k as int)) == apply_all(html_content@, placeholders@),
        decreases n - k,
    {
        let entry = &placeholders.entries[k];
        proof {
            assert(placeholders@.skip(k as int)[0] == (entry.0@, entry.1@));
            assert(placeholders@.skip(k as int).drop_first() =~= placeholders@.skip(k + 1));
        }
        result = replace_str(result.as_str(), entry.0.as_str(), entry.1.as_str());
        k = k + 1;
    }
    result
}

} // verus!
