use vstd::prelude::*;

use crate::order::{lemma_insert_keeps_sorted, lemma_str_order_strict, str_order, strictly_sorted, views};
use crate::text::{compare_str, lemma_str_lt_irreflexive, lemma_str_lt_total, str_lt, Order};

verus! {

/// The keys of a list of `(key, value)` pairs, in order.
pub open spec fn first_keys<V>(s: Seq<(String, V)>) -> Seq<Seq<char>> {
    s.map_values(|e: (String, V)| e.0@)
}

/// Where `key` is, or belongs, in a list sorted by key: the keys before
/// position `p` are smaller, and `found` says whether the key at `p` is `key`.
pub fn find_key<V>(entries: &Vec<(String, V)>, key: &str) -> (r: (bool, usize))
    requires
        strictly_sorted(first_keys(entries@), str_order()),
    ensures
        r.1 <= entries@.len(),
        forall|q: int| 0 <= q < r.1 ==> str_lt(#[trigger] first_keys(entries@)[q], key@),
        r.0 ==> r.1 < entries@.len() && first_keys(entries@)[r.1 as int] == key@,
        !r.0 ==> r.1 == entries@.len() || str_lt(key@, first_keys(entries@)[r.1 as int]),
        !r.0 ==> !first_keys(entries@).contains(key@),
{
    let ghost keys = first_keys(entries@);
    let mut p: usize = 0;
    while p < entries.len() && compare_str(entries[p].0.as_str(), key) == Order::Less
        invariant
            keys == first_keys(entries@),
            p <= entries@.len(),
            forall|q: int| 0 <= q < p ==> str_lt(#[trigger] keys[q], key@),
        decreases entries@.len() - p,
    {
        p = p + 1;
    }
    let found = p < entries.len() && compare_str(entries[p].0.as_str(), key) == Order::Equal;
    proof {
        lemma_str_order_strict();
        assert(keys.len() == entries@.len());
        if p < entries.len() {
            assert(keys[p as int] == entries@[p as int].0@);
            lemma_str_lt_total(keys[p as int], key@);
        }
        if !found && keys.contains(key@) {
            let k = choose|k: int| 0 <= k < keys.len() && keys[k] == key@;
            lemma_str_lt_irreflexive(key@);
            if k >= p {
                if k > p {
                    assert(str_order()(keys[p as int], keys[k]));
                }
            }
        }
    }
    (found, p)
}


/// An entry directory and its tags: the path and the characters of each tag.
pub open spec fn entry_view(e: (String, Vec<String>)) -> (Seq<char>, Seq<Seq<char>>) {
    (e.0@, views(e.1@))
}

/// The entries as paths and tags.
pub open spec fn entries_view(es: Seq<(String, Vec<String>)>) -> Seq<(Seq<char>, Seq<Seq<char>>)> {
    es.map_values(|e: (String, Vec<String>)| entry_view(e))
}

/// The paths of the entries tagged `t`, in the order of the entries.
pub open spec fn paths_with_tag(es: Seq<(Seq<char>, Seq<Seq<char>>)>, t: Seq<char>) -> Seq<Seq<char>>
    decreases es.len(),
{
    if es.len() == 0 {
        Seq::empty()
    } else if es.last().1.contains(t) {
        paths_with_tag(es.drop_last(), t).push(es.last().0)
    } else {
        paths_with_tag(es.drop_last(), t)
    }
}

/// Some entry is tagged `t`.
pub open spec fn has_tag(es: Seq<(Seq<char>, Seq<Seq<char>>)>, t: Seq<char>) -> bool {
    exists|j: int| 0 <= j < es.len() && #[trigger] es[j].1.contains(t)
}

/// The tag index as tags and paths.
pub open spec fn index_view(idx: Seq<(String, Vec<String>)>) -> Seq<(Seq<char>, Seq<Seq<char>>)> {
    idx.map_values(|e: (String, Vec<String>)| (e.0@, views(e.1@)))
}

/// The tags of an index, in order.
pub open spec fn tags_of(idx: Seq<(Seq<char>, Seq<Seq<char>>)>) -> Seq<Seq<char>> {
    idx.map_values(|e: (Seq<char>, Seq<Seq<char>>)| e.0)
}

/// `idx` maps each tag of the entries `es`, in sorted order, to the paths of
/// the entries that carry it, in the order of the entries.
pub open spec fn indexes(idx: Seq<(Seq<char>, Seq<Seq<char>>)>, es: Seq<(Seq<char>, Seq<Seq<char>>)>) -> bool {
    &&& strictly_sorted(tags_of(idx), str_order())
    &&& forall|t: Seq<char>|
        #[trigger] tags_of(idx).contains(t) == has_tag(es, t)
    &&& forall|k: int| 0 <= k < idx.len() ==> #[trigger] idx[k].1 == paths_with_tag(es, idx[k].0)
}

proof fn lemma_paths_without_tag(es: Seq<(Seq<char>, Seq<Seq<char>>)>, t: Seq<char>)
    requires
        !has_tag(es, t),
    ensures
        paths_with_tag(es, t) == Seq::<Seq<char>>::empty(),
    decreases es.len(),
{
    if es.len() > 0 {
        assert(!es[es.len() - 1].1.contains(t));
        assert forall|j: int| 0 <= j < es.drop_last().len() implies !#[trigger] es.drop_last()[j].1.contains(t) by {
            assert(es.drop_last()[j] == es[j]);
        }
        lemma_paths_without_tag(es.drop_last(), t);
    }
}

/// An entry is listed under each of its tags, and every path listed under
/// a tag is that of an entry that carries the tag.
pub proof fn lemma_paths_with_tag_members(es: Seq<(Seq<char>, Seq<Seq<char>>)>, t: Seq<char>)
    ensures
        forall|j: int| 0 <= j < es.len() && (#[trigger] es[j]).1.contains(t) ==> paths_with_tag(es, t).contains(es[j].0),
        forall|p: Seq<char>| #[trigger] paths_with_tag(es, t).contains(p) ==> exists|j: int|
            0 <= j < es.len() && (#[trigger] es[j]).1.contains(t) && es[j].0 == p,
    decreases es.len(),
{
    if es.len() > 0 {
        let init = es.drop_last();
        let last = es.len() - 1;
        lemma_paths_with_tag_members(init, t);
        let prev = paths_with_tag(init, t);
        let cur = paths_with_tag(es, t);
        assert forall|j: int| 0 <= j < es.len() && (#[trigger] es[j]).1.contains(t) implies cur.contains(es[j].0) by {
            if j < last {
                assert(init[j] == es[j]);
                assert(prev.contains(es[j].0));
                let k = choose|k: int| 0 <= k < prev.len() && prev[k] == es[j].0;
                if es.last().1.contains(t) {
                    assert(cur[k] == prev[k]);
                } else {
                    assert(cur[k] == prev[k]);
                }
            } else {
                assert(cur[prev.len() as int] == es[j].0);
            }
        }
        assert forall|p: Seq<char>| #[trigger] cur.contains(p) implies exists|j: int|
            0 <= j < es.len() && (#[trigger] es[j]).1.contains(t) && es[j].0 == p by {
            let k = choose|k: int| 0 <= k < cur.len() && cur[k] == p;
            if k < prev.len() {
                assert(prev[k] == p);
                assert(prev.contains(p));
                let j = choose|j: int| 0 <= j < init.len() && (#[trigger] init[j]).1.contains(t) && init[j].0 == p;
                assert(es[j] == init[j]);
            } else {
                assert(es[last].1.contains(t));
            }
        }
    }
}

/// Groups entries by tag (a `BTreeMap` from tag to paths): every tag of an
/// entry lists the entry's path, tags in sorted order, paths in entry order.
pub fn filter_entries_by_tag(entries: &Vec<(String, Vec<String>)>) -> (idx: Vec<(String, Vec<String>)>)
    requires
        forall|j: int| 0 <= j < entries@.len() ==> strictly_sorted(#[trigger] views(entries@[j].1@), str_order()),
    ensures
        indexes(index_view(idx@), entries_view(entries@)),
{
    let ghost es = entries_view(entries@);
    let mut idx: Vec<(String, Vec<String>)> = Vec::new();
    let mut i: usize = 0;
    proof {
        lemma_str_order_strict();
        assert(es.take(0) =~= Seq::<(Seq<char>, Seq<Seq<char>>)>::empty());
        assert(index_view(idx@) =~= Seq::<(Seq<char>, Seq<Seq<char>>)>::empty());
        assert(first_keys(idx@) =~= Seq::<Seq<char>>::empty());
    }
    while i < entries.len()
        invariant
            es == entries_view(entries@),
            i <= entries@.len(),
            forall|j: int| 0 <= j < entries@.len() ==> strictly_sorted(#[trigger] views(entries@[j].1@), str_order()),
            strict_order_holds(),
            indexes(index_view(idx@), es.take(i as int)),
            first_keys(idx@) == tags_of(index_view(idx@)),
        decreases entries@.len() - i,
    {
        let path = &entries[i].0;
        let tags = &entries[i].1;
        let ghost pre = es.take(i as int);
        let ghost post = es.take(i + 1);
        let ghost tv = views(tags@);
        proof {
            assert(post.drop_last() =~= pre);
            assert(post.last() == es[i as int]);
            assert(es[i as int] == (path@, tv));
            assert forall|t: Seq<char>| has_tag(post, t) == (has_tag(pre, t) || tv.contains(t)) by {
                if has_tag(post, t) {
                    let j = choose|j: int| 0 <= j < post.len() && #[trigger] post[j].1.contains(t);
                    if j < i {
                        assert(pre[j] == post[j]);
                    }
                }
                if has_tag(pre, t) {
                    let j = choose|j: int| 0 <= j < pre.len() && #[trigger] pre[j].1.contains(t);
                    assert(post[j] == pre[j]);
                }
                if tv.contains(t) {
                    assert(post[i as int].1.contains(t));
                }
            }
        }
        proof {
            assert(tv.take(0) =~= Seq::<Seq<char>>::empty());
            assert forall|k: int| 0 <= k < idx@.len() implies #[trigger] views(idx@[k].1@) == paths_with_tag(pre, idx@[k].0@) by {
                assert(index_view(idx@)[k] == (idx@[k].0@, views(idx@[k].1@)));
                assert(index_view(idx@)[k].1 == paths_with_tag(pre, index_view(idx@)[k].0));
            }
        }
        let mut m: usize = 0;
        while m < tags.len()
            invariant
                es == entries_view(entries@),
                i < entries@.len(),
                *tags == entries@[i as int].1,
                tv == views(tags@),
                strictly_sorted(tv, str_order()),
                strict_order_holds(),
                pre == es.take(i as int),
                post == es.take(i + 1),
                m <= tags@.len(),
                forall|t: Seq<char>| has_tag(post, t) == (has_tag(pre, t) || tv.contains(t)),
                forall|t: Seq<char>| paths_with_tag(post, t) == if tv.contains(t) {
                    paths_with_tag(pre, t).push(path@)
                } else {
                    paths_with_tag(pre, t)
                },
                strictly_sorted(first_keys(idx@), str_order()),
                first_keys(idx@) == tags_of(index_view(idx@)),
                forall|t: Seq<char>|
                    #[trigger] first_keys(idx@).contains(t) == (has_tag(pre, t) || tv.take(m as int).contains(t)),
                forall|k: int| 0 <= k < idx@.len() ==> #[trigger] views(idx@[k].1@) == if tv.take(m as int).contains(idx@[k].0@) {
                    paths_with_tag(post, idx@[k].0@)
                } else {
                    paths_with_tag(pre, idx@[k].0@)
                },
            decreases tags@.len() - m,
        {
            let tag = &tags[m];
            let ghost t = tag@;
            let ghost old_idx = idx@;
            let ghost old_keys = first_keys(old_idx);
            proof {
                assert(tv[m as int] == t);
                assert(!tv.take(m as int).contains(t)) by {
                    if tv.take(m as int).contains(t) {
                        let q = choose|q: int| 0 <= q < m && tv.take(m as int)[q] == t;
                        assert(str_order()(tv[q], tv[m as int]));
                        lemma_str_lt_irreflexive(t);
                    }
                }
                assert(tv.take(m + 1) =~= tv.take(m as int).push(t));
                assert(tv.contains(t));
                assert forall|x: Seq<char>| tv.take(m + 1).contains(x) == (tv.take(m as int).contains(x) || x == t) by {
                    if tv.take(m + 1).contains(x) {
                        let q = choose|q: int| 0 <= q < m + 1 && #[trigger] tv.take(m + 1)[q] == x;
                        if q < m {
                            assert(tv.take(m as int)[q] == x);
                        }
                    }
                    if tv.take(m as int).contains(x) {
                        let q = choose|q: int| 0 <= q < m && #[trigger] tv.take(m as int)[q] == x;
                        assert(tv.take(m + 1)[q] == x);
                    }
                    if x == t {
                        assert(tv.take(m + 1)[m as int] == x);
                    }
                }
                assert forall|k: int| 0 <= k < old_idx.len() implies #[trigger] old_keys[k] == old_idx[k].0@ by {}
            }
            let (found, p) = find_key(&idx, tag.as_str());
            if found {
                idx[p].1.push(path.clone());
                proof {
                    assert(first_keys(idx@) =~= old_keys);
                    assert forall|k: int| 0 <= k < idx@.len() implies #[trigger] views(idx@[k].1@) == if tv.take(m + 1).contains(idx@[k].0@) {
                        paths_with_tag(post, idx@[k].0@)
                    } else {
                        paths_with_tag(pre, idx@[k].0@)
                    } by {
                        if k == p {
                            assert(old_keys[k] == t);
                            assert(idx@[k].0 == old_idx[k].0);
                            assert(views(idx@[k].1@) =~= views(old_idx[k].1@).push(path@));
                        } else {
                            assert(idx@[k] == old_idx[k]);
                            assert(old_keys[k] == old_idx[k].0@);
                            assert(old_keys[p as int] == t);
                            lemma_str_lt_irreflexive(t);
                            if old_keys[k] == t {
                                if k < p {
                                    assert(str_order()(old_keys[k], old_keys[p as int]));
                                } else {
                                    assert(str_order()(old_keys[p as int], old_keys[k]));
                                }
                            }
                        }
                    }
                    assert(tags_of(index_view(idx@)) =~= first_keys(idx@));
                }
            } else {
                let mut list: Vec<String> = Vec::new();
                list.push(path.clone());
                idx.insert(p, (tag.clone(), list));
                proof {
                    assert(!has_tag(pre, t));
                    lemma_paths_without_tag(pre, t);
                    assert(first_keys(idx@) =~= old_keys.insert(p as int, t));
                    lemma_insert_keeps_sorted(old_keys, p as int, t);
                    assert forall|x: Seq<char>| #[trigger] first_keys(idx@).contains(x) == (has_tag(pre, x) || tv.take(m + 1).contains(x)) by {
                        let nk = first_keys(idx@);
                        if x == t {
                            assert(nk[p as int] == t);
                        }
                        if old_keys.contains(x) {
                            let k = choose|k: int| 0 <= k < old_keys.len() && old_keys[k] == x;
                            if k < p {
                                assert(nk[k] == x);
                            } else {
                                assert(nk[k + 1] == x);
                            }
                        }
                        if nk.contains(x) {
                            let k = choose|k: int| 0 <= k < nk.len() && nk[k] == x;
                            if k < p {
                                assert(old_keys[k] == x);
                            } else if k > p {
                                assert(old_keys[k - 1] == x);
                            }
                        }
                    }
                    assert forall|k: int| 0 <= k < idx@.len() implies #[trigger] views(idx@[k].1@) == if tv.take(m + 1).contains(idx@[k].0@) {
                        paths_with_tag(post, idx@[k].0@)
                    } else {
                        paths_with_tag(pre, idx@[k].0@)
                    } by {
                        if k == p {
                            assert(views(idx@[k].1@) =~= Seq::<Seq<char>>::empty().push(path@));
                        } else {
                            let ok = if k < p { k } else { k - 1 };
                            assert(idx@[k] == old_idx[ok]);
                            assert(old_keys[ok] == old_idx[ok].0@);
                            if old_keys[ok] == t {
                                assert(old_keys.contains(t));
                            }
                        }
                    }
                    assert(tags_of(index_view(idx@)) =~= first_keys(idx@));
                }
            }
            m = m + 1;
        }
        proof {
            assert(tv.take(tags@.len() as int) =~= tv);
            let iv = index_view(idx@);
            assert forall|k: int| 0 <= k < iv.len() implies #[trigger] iv[k].1 == paths_with_tag(post, iv[k].0) by {
                assert(iv[k] == (idx@[k].0@, views(idx@[k].1@)));
            }
        }
        i = i + 1;
    }
    proof {
        assert(es.take(entries@.len() as int) =~= es);
    }
    idx
}

/// The relation `str_lt` is a strict order.
pub open spec fn strict_order_holds() -> bool {
    crate::order::strict_order(str_order())
}

} // verus!
