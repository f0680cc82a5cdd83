use vstd::prelude::*;

use crate::text::{
    chars_of, compare_chars, lemma_str_lt_irreflexive, lemma_str_lt_total,
    lemma_str_lt_transitive, str_lt, Order,
};

verus! {

/// Every earlier element is below every later one.
pub open spec fn strictly_sorted<K>(s: Seq<K>, lt: spec_fn(K, K) -> bool) -> bool {
    forall|i: int, j: int| 0 <= i < j < s.len() ==> #[trigger] lt(s[i], s[j])
}

/// `lt` is irreflexive and transitive.
pub open spec fn strict_order<K>(lt: spec_fn(K, K) -> bool) -> bool {
    &&& forall|x: K| !#[trigger] lt(x, x)
    &&& forall|x: K, y: K, z: K| #[trigger] lt(x, y) && #[trigger] lt(y, z) ==> lt(x, z)
}

/// Two strictly sorted sequences that hold the same elements are equal.
pub proof fn lemma_sorted_unique<K>(a: Seq<K>, b: Seq<K>, lt: spec_fn(K, K) -> bool)
    requires
        strict_order(lt),
        strictly_sorted(a, lt),
        strictly_sorted(b, lt),
        forall|x: K| a.contains(x) == b.contains(x),
    ensures
        a == b,
    decreases a.len(),
{
    if a.len() == 0 {
        if b.len() > 0 {
            assert(b.contains(b[0]));
        }
        assert(a =~= b);
    } else {
        assert(a.contains(a[0]));
        let k = choose|k: int| 0 <= k < b.len() && b[k] == a[0];
        assert(b.contains(b[0]));
        let j = choose|j: int| 0 <= j < a.len() && a[j] == b[0];
        if a[0] != b[0] {
            assert(k > 0 && j > 0);
            assert(lt(b[0], b[k]));
            assert(lt(a[0], a[j]));
            assert(lt(a[0], a[0]));
        }
        let a1 = a.drop_first();
        let b1 = b.drop_first();
        assert forall|x: K| a1.contains(x) == b1.contains(x) by {
            if a1.contains(x) {
                let i = choose|i: int| 0 <= i < a1.len() && a1[i] == x;
                assert(lt(a[0], a[i + 1]));
                assert(b.contains(x));
                let m = choose|m: int| 0 <= m < b.len() && b[m] == x;
                assert(m != 0);
                assert(b1[m - 1] == x);
            }
            if b1.contains(x) {
                let i = choose|i: int| 0 <= i < b1.len() && b1[i] == x;
                assert(lt(b[0], b[i + 1]));
                assert(a.contains(x));
                let m = choose|m: int| 0 <= m < a.len() && a[m] == x;
                assert(m != 0);
                assert(a1[m - 1] == x);
            }
        }
        assert(strictly_sorted(a1, lt)) by {
            assert forall|i: int, j: int| 0 <= i < j < a1.len() implies #[trigger] lt(a1[i], a1[j]) by {
                assert(lt(a[i + 1], a[j + 1]));
            }
        }
        assert(strictly_sorted(b1, lt)) by {
            assert forall|i: int, j: int| 0 <= i < j < b1.len() implies #[trigger] lt(b1[i], b1[j]) by {
                assert(lt(b[i + 1], b[j + 1]));
            }
        }
        lemma_sorted_unique(a1, b1, lt);
        assert(a =~= seq![a[0]] + a1);
        assert(b =~= seq![b[0]] + b1);
    }
}

/// Inserting `t` where it belongs keeps a sequence of strings sorted.
pub proof fn lemma_insert_keeps_sorted(keys: Seq<Seq<char>>, p: int, t: Seq<char>)
    requires
        strictly_sorted(keys, str_order()),
        0 <= p <= keys.len(),
        forall|q: int| 0 <= q < p ==> str_lt(#[trigger] keys[q], t),
        p < keys.len() ==> str_lt(t, keys[p]),
    ensures
        strictly_sorted(keys.insert(p, t), str_order()),
{
    let nk = keys.insert(p, t);
    assert forall|a: int, b: int| 0 <= a < b < nk.len() implies #[trigger] str_order()(nk[a], nk[b]) by {
        if b < p {
            assert(str_order()(keys[a], keys[b]));
        } else if b == p {
            assert(str_lt(keys[a], t));
        } else if a == p {
            if b - 1 > p {
                assert(str_order()(keys[p], keys[b - 1]));
                lemma_str_lt_transitive(t, keys[p], keys[b - 1]);
            }
        } else if a < p {
            assert(str_order()(keys[a], keys[b - 1]));
        } else {
            assert(str_order()(keys[a - 1], keys[b - 1]));
        }
    }
}

/// `str_lt` as a relation value.
pub open spec fn str_order() -> spec_fn(Seq<char>, Seq<char>) -> bool {
    |a: Seq<char>, b: Seq<char>| str_lt(a, b)
}

pub proof fn lemma_str_order_strict()
    ensures
        strict_order(str_order()),
{
    assert forall|x: Seq<char>| !#[trigger] str_order()(x, x) by {
        lemma_str_lt_irreflexive(x);
    }
    assert forall|x: Seq<char>, y: Seq<char>, z: Seq<char>|
        #[trigger] str_order()(x, y) && #[trigger] str_order()(y, z) implies str_order()(x, z) by {
        lemma_str_lt_transitive(x, y, z);
    }
}

/// The characters of each string.
pub open spec fn views(v: Seq<String>) -> Seq<Seq<char>> {
    v.map_values(|s: String| s@)
}

/// Entry `i` comes before entry `j` when sorted by name; entries with equal
/// names keep their relative order (a stable sort).
pub open spec fn name_before(names: Seq<Seq<char>>, i: int, j: int) -> bool {
    str_lt(names[i], names[j]) || (names[i] == names[j] && i < j)
}

/// `ord` lists the indices of `names` in the order of a stable sort by name.
pub open spec fn is_name_order(names: Seq<Seq<char>>, ord: Seq<usize>) -> bool {
    &&& ord.len() == names.len()
    &&& forall|k: int| 0 <= k < ord.len() ==> #[trigger] ord[k] < names.len()
    &&& forall|i: usize| i < names.len() ==> ord.contains(i)
    &&& forall|a: int, b: int|
        0 <= a < b < ord.len() ==> name_before(names, #[trigger] ord[a] as int, #[trigger] ord[b] as int)
}

/// The order in which a stable sort by name lists the indices of `names`.
pub open spec fn name_order(names: Seq<Seq<char>>) -> Seq<usize> {
    choose|ord: Seq<usize>| is_name_order(names, ord)
}

proof fn lemma_name_before_transitive(names: Seq<Seq<char>>, i: int, j: int, k: int)
    requires
        name_before(names, i, j),
        name_before(names, j, k),
    ensures
        name_before(names, i, k),
{
    if str_lt(names[i], names[j]) && str_lt(names[j], names[k]) {
        lemma_str_lt_transitive(names[i], names[j], names[k]);
    }
}

/// There is one stable order by name: any two are equal.
pub proof fn lemma_name_order_unique(names: Seq<Seq<char>>, o1: Seq<usize>, o2: Seq<usize>)
    requires
        is_name_order(names, o1),
        is_name_order(names, o2),
    ensures
        o1 == o2,
{
    let lt = |i: usize, j: usize|
        i < names.len() && j < names.len() && name_before(names, i as int, j as int);
    assert forall|x: usize| !#[trigger] lt(x, x) by {
        if x < names.len() {
            lemma_str_lt_irreflexive(names[x as int]);
        }
    }
    assert forall|x: usize, y: usize, z: usize| #[trigger] lt(x, y) && #[trigger] lt(y, z) implies lt(x, z) by {
        lemma_name_before_transitive(names, x as int, y as int, z as int);
    }
    assert(strictly_sorted(o1, lt)) by {
        assert forall|a: int, b: int| 0 <= a < b < o1.len() implies #[trigger] lt(o1[a], o1[b]) by {
            assert(name_before(names, o1[a] as int, o1[b] as int));
        }
    }
    assert(strictly_sorted(o2, lt)) by {
        assert forall|a: int, b: int| 0 <= a < b < o2.len() implies #[trigger] lt(o2[a], o2[b]) by {
            assert(name_before(names, o2[a] as int, o2[b] as int));
        }
    }
    assert forall|x: usize| o1.contains(x) == o2.contains(x) by {
        if o1.contains(x) {
            let k = choose|k: int| 0 <= k < o1.len() && o1[k] == x;
            assert(o1[k] < names.len());
        }
        if o2.contains(x) {
            let k = choose|k: int| 0 <= k < o2.len() && o2[k] == x;
            assert(o2[k] < names.len());
        }
    }
    lemma_sorted_unique(o1, o2, lt);
}

/// The characters of every string in `v`.
pub(crate) fn all_chars(v: &Vec<String>) -> (r: Vec<Vec<char>>)
    ensures
        r@.len() == v@.len(),
        forall|k: int| 0 <= k < v@.len() ==> #[trigger] r@[k]@ == v@[k]@,
{
    let mut r: Vec<Vec<char>> = Vec::new();
    let mut k: usize = 0;
    while k < v.len()
        invariant
            k <= v.len(),
            r@.len() == k,
            forall|j: int| 0 <= j < k ==> #[trigger] r@[j]@ == v@[j]@,
        decreases v.len() - k,
    {
        r.push(chars_of(v[k].as_str()));
        k = k + 1;
    }
    r
}

/// The indices of `names` in the order of a stable sort by name
/// (`sort_by_key` on the names).
pub fn order_by_name(names: &Vec<String>) -> (ord: Vec<usize>)
    ensures
        is_name_order(views(names@), ord@),
        ord@ == name_order(views(names@)),
{
    let ghost nv = views(names@);
    let cs = all_chars(names);
    let n = names.len();
    let mut ord: Vec<usize> = Vec::new();
    let mut i: usize = 0;
    while i < n
        invariant
            n == names@.len(),
            nv == views(names@),
            cs@.len() == n,
            forall|k: int| 0 <= k < n ==> #[trigger] cs@[k]@ == nv[k],
            i <= n,
            ord@.len() == i,
            forall|k: int| 0 <= k < ord@.len() ==> #[trigger] ord@[k] < i,
            forall|j: usize| j < i ==> ord@.contains(j),
            forall|a: int, b: int|
                0 <= a < b < ord@.len() ==> name_before(nv, #[trigger] ord@[a] as int, #[trigger] ord@[b] as int),
        decreases n - i,
    {
        let mut p: usize = ord.len();
        while p > 0 && compare_chars(&cs[ord[p - 1]], &cs[i]) == Order::Greater
            invariant
                n == names@.len(),
                cs@.len() == n,
                forall|k: int| 0 <= k < n ==> #[trigger] cs@[k]@ == nv[k],
                i < n,
                ord@.len() == i,
                forall|k: int| 0 <= k < ord@.len() ==> #[trigger] ord@[k] < i,
                p <= ord@.len(),
                forall|q: int| p <= q < ord@.len() ==> str_lt(nv[i as int], nv[#[trigger] ord@[q] as int]),
            decreases p,
        {
            p = p - 1;
        }
        proof {
            if p > 0 {
                let prev = ord@[p - 1] as int;
                lemma_str_lt_total(nv[prev], nv[i as int]);
                assert(name_before(nv, prev, i as int));
            }
        }
        let ghost old_ord = ord@;
        ord.insert(p, i);
        proof {
            assert(ord@ == old_ord.insert(p as int, i));
            assert forall|a: int, b: int| 0 <= a < b < ord@.len() implies name_before(
                nv,
                #[trigger] ord@[a] as int,
                #[trigger] ord@[b] as int,
            ) by {
                if b < p {
                    assert(ord@[a] == old_ord[a] && ord@[b] == old_ord[b]);
                } else if b == p {
                    if a < p - 1 {
                        assert(name_before(nv, old_ord[a] as int, old_ord[p - 1] as int));
                        lemma_name_before_transitive(nv, old_ord[a] as int, old_ord[p - 1] as int, i as int);
                    }
                } else if a == p {
                    assert(ord@[b] == old_ord[b - 1]);
                    assert(str_lt(nv[i as int], nv[old_ord[b - 1] as int]));
                } else if a < p {
                    assert(ord@[b] == old_ord[b - 1]);
                    assert(name_before(nv, old_ord[a] as int, old_ord[b - 1] as int));
                } else {
                    assert(ord@[a] == old_ord[a - 1] && ord@[b] == old_ord[b - 1]);
                    assert(name_before(nv, old_ord[a - 1] as int, old_ord[b - 1] as int));
                }
            }
            assert forall|j: usize| j < i + 1 implies ord@.contains(j) by {
                if j == i {
                    assert(ord@[p as int] == i);
                } else {
                    assert(old_ord.contains(j));
                    let k = choose|k: int| 0 <= k < old_ord.len() && old_ord[k] == j;
                    if k < p {
                        assert(ord@[k] == j);
                    } else {
                        assert(ord@[k + 1] == j);
                    }
                }
            }
            assert forall|k: int| 0 <= k < ord@.len() implies #[trigger] ord@[k] < i + 1 by {
                if k < p {
                    assert(ord@[k] == old_ord[k]);
                } else if k > p {
                    assert(ord@[k] == old_ord[k - 1]);
                }
            }
        }
        i = i + 1;
    }
    proof {
        let o = name_order(nv);
        assert(is_name_order(nv, ord@));
        assert(is_name_order(nv, o));
        lemma_name_order_unique(nv, ord@, o);
    }
    ord
}

} // verus!
