//! Association lists: sequences of pairs in which a key stands for the value
//! of the first pair that holds it.

use vstd::prelude::*;

verus! {

/// The value of the first pair of `s` whose key is `k`.
pub open spec fn find<K, V>(s: Seq<(K, V)>, k: K) -> Option<V>
    decreases s.len(),
{
    if s.len() == 0 {
        None
    } else if s[0].0 == k {
        Some(s[0].1)
    } else {
        find(s.skip(1), k)
    }
}

/// The pair at the first index that holds `k` is what `find` gives.
pub proof fn lemma_find_at<K, V>(s: Seq<(K, V)>, k: K, i: int)
    requires
        0 <= i < s.len(),
        s[i].0 == k,
        forall|j: int| 0 <= j < i ==> s[j].0 != k,
    ensures
        find(s, k) == Some(s[i].1),
    decreases i,
{
    if i > 0 {
        let rest = s.skip(1);
        assert forall|j: int| 0 <= j < i - 1 implies rest[j].0 != k by {
            assert(rest[j] == s[j + 1]);
        }
        lemma_find_at(rest, k, i - 1);
    }
}

/// Where no pair holds `k`, `find` gives nothing.
pub proof fn lemma_find_none<K, V>(s: Seq<(K, V)>, k: K)
    requires
        forall|j: int| 0 <= j < s.len() ==> s[j].0 != k,
    ensures
        find(s, k) is None,
    decreases s.len(),
{
    if s.len() > 0 {
        let rest = s.skip(1);
        assert forall|j: int| 0 <= j < rest.len() implies rest[j].0 != k by {
            assert(rest[j] == s[j + 1]);
        }
        lemma_find_none(rest, k);
    }
}

/// What `find` gives stands at some index, and no earlier pair holds the key.
pub proof fn lemma_find_index<K, V>(s: Seq<(K, V)>, k: K) -> (i: int)
    ensures
        match find(s, k) {
            Some(v) => 0 <= i < s.len() && s[i].0 == k && s[i].1 == v && forall|j: int|
                0 <= j < i ==> s[j].0 != k,
            None => forall|j: int| 0 <= j < s.len() ==> s[j].0 != k,
        },
    decreases s.len(),
{
    if s.len() == 0 {
        0
    } else if s[0].0 == k {
        0
    } else {
        let rest = s.skip(1);
        let i = lemma_find_index(rest, k);
        assert forall|j: int| 0 < j < s.len() implies s[j] == rest[j - 1] by {}
        i + 1
    }
}

/// A pair added at the end is found by its key only where no pair held it.
pub proof fn lemma_find_push<K, V>(s: Seq<(K, V)>, k: K, v: V, q: K)
    ensures
        find(s.push((k, v)), q) == (match find(s, q) {
            Some(x) => Some(x),
            None => if q == k {
                Some(v)
            } else {
                None
            },
        }),
{
    let t = s.push((k, v));
    let i = lemma_find_index(s, q);
    match find(s, q) {
        Some(x) => {
            assert(t[i] == s[i]);
            assert forall|j: int| 0 <= j < i implies t[j].0 != q by {
                assert(t[j] == s[j]);
            }
            lemma_find_at(t, q, i);
        },
        None => {
            assert forall|j: int| 0 <= j < s.len() implies t[j].0 != q by {
                assert(t[j] == s[j]);
            }
            if q == k {
                lemma_find_at(t, q, s.len() as int);
            } else {
                lemma_find_none(t, q);
            }
        },
    }
}

/// A new value written at the first pair that holds `k` is what `k` then
/// stands for; every other key stands for what it stood for.
pub proof fn lemma_find_update<K, V>(s: Seq<(K, V)>, i: int, k: K, v: V, q: K)
    requires
        0 <= i < s.len(),
        s[i].0 == k,
        forall|j: int| 0 <= j < i ==> s[j].0 != k,
    ensures
        find(s.update(i, (k, v)), q) == (if q == k {
            Some(v)
        } else {
            find(s, q)
        }),
{
    let t = s.update(i, (k, v));
    if q == k {
        assert forall|j: int| 0 <= j < i implies t[j].0 != k by {
            assert(t[j] == s[j]);
        }
        lemma_find_at(t, k, i);
    } else {
        let m = lemma_find_index(s, q);
        match find(s, q) {
            Some(x) => {
                assert(t[m] == s[m]);
                assert forall|j: int| 0 <= j < m implies t[j].0 != q by {
                    if j != i {
                        assert(t[j] == s[j]);
                    }
                }
                lemma_find_at(t, q, m);
            },
            None => {
                assert forall|j: int| 0 <= j < t.len() implies t[j].0 != q by {
                    if j != i {
                        assert(t[j] == s[j]);
                    }
                }
                lemma_find_none(t, q);
            },
        }
    }
}

} // verus!
