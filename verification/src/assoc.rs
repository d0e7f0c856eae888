//! Association lists: finite maps kept as sequences of `(key, value)` pairs
//! with distinct keys, and how lookups change as entries are added, replaced
//! and removed.
use vstd::prelude::*;

verus! {

/// The value stored under `k` in a list of `(key, value)` pairs, if any.
pub open spec fn lookup<K, V>(s: Seq<(K, V)>, k: K) -> Option<V> {
    if exists|i: int| 0 <= i < s.len() && #[trigger] s[i].0 == k {
        Some(s[choose|i: int| 0 <= i < s.len() && #[trigger] s[i].0 == k].1)
    } else {
        None
    }
}

/// No key occurs twice.
pub open spec fn unique_keys<K, V>(s: Seq<(K, V)>) -> bool {
    forall|i: int, j: int| 0 <= i < j < s.len() ==> #[trigger] s[i].0 != #[trigger] s[j].0
}

pub proof fn lemma_lookup_at<K, V>(s: Seq<(K, V)>, i: int)
    requires
        unique_keys(s),
        0 <= i < s.len(),
    ensures
        lookup(s, s[i].0) == Some(s[i].1),
{
    let k = s[i].0;
    assert(exists|j: int| 0 <= j < s.len() && #[trigger] s[j].0 == k);
    let j = choose|j: int| 0 <= j < s.len() && #[trigger] s[j].0 == k;
    if j < i {
        assert(s[j].0 != s[i].0);
    } else if i < j {
        assert(s[i].0 != s[j].0);
    }
}

pub proof fn lemma_lookup_absent<K, V>(s: Seq<(K, V)>, k: K)
    requires
        forall|i: int| 0 <= i < s.len() ==> #[trigger] s[i].0 != k,
    ensures
        lookup(s, k) is None,
{
}

pub proof fn lemma_lookup_update<K, V>(s: Seq<(K, V)>, i: int, v: V, t: K)
    requires
        unique_keys(s),
        0 <= i < s.len(),
    ensures
        unique_keys(s.update(i, (s[i].0, v))),
        lookup(s.update(i, (s[i].0, v)), s[i].0) == Some(v),
        t != s[i].0 ==> lookup(s.update(i, (s[i].0, v)), t) == lookup(s, t),
{
    let u = s.update(i, (s[i].0, v));
    assert forall|a: int, b: int| 0 <= a < b < u.len() implies #[trigger] u[a].0 != #[trigger] u[b].0 by {
        assert(u[a].0 == s[a].0 && u[b].0 == s[b].0);
    }
    lemma_lookup_at(u, i);
    if t != s[i].0 {
        if exists|j: int| 0 <= j < s.len() && #[trigger] s[j].0 == t {
            let j = choose|j: int| 0 <= j < s.len() && #[trigger] s[j].0 == t;
            lemma_lookup_at(s, j);
            lemma_lookup_at(u, j);
        } else {
            assert forall|j: int| 0 <= j < u.len() implies #[trigger] u[j].0 != t by {
                assert(u[j].0 == s[j].0);
            }
        }
    }
}

pub proof fn lemma_lookup_insert<K, V>(s: Seq<(K, V)>, i: int, t: K, v: V, u: K)
    requires
        unique_keys(s),
        0 <= i <= s.len(),
        forall|j: int| 0 <= j < s.len() ==> #[trigger] s[j].0 != t,
    ensures
        unique_keys(s.insert(i, (t, v))),
        lookup(s.insert(i, (t, v)), t) == Some(v),
        u != t ==> lookup(s.insert(i, (t, v)), u) == lookup(s, u),
{
    let w = s.insert(i, (t, v));
    assert forall|a: int, b: int| 0 <= a < b < w.len() implies #[trigger] w[a].0 != #[trigger] w[b].0 by {
        if a < i && b < i {
        } else if a < i && b == i {
        } else if a < i {
            assert(w[b].0 == s[b - 1].0);
        } else if a == i {
            assert(w[b].0 == s[b - 1].0);
        } else {
            assert(w[a].0 == s[a - 1].0 && w[b].0 == s[b - 1].0);
        }
    }
    assert(w[i].0 == t);
    lemma_lookup_at(w, i);
    if u != t {
        if exists|j: int| 0 <= j < s.len() && #[trigger] s[j].0 == u {
            let j = choose|j: int| 0 <= j < s.len() && #[trigger] s[j].0 == u;
            lemma_lookup_at(s, j);
            if j < i {
                assert(w[j] == s[j]);
                lemma_lookup_at(w, j);
            } else {
                assert(w[j + 1] == s[j]);
                lemma_lookup_at(w, j + 1);
            }
        } else {
            assert forall|j: int| 0 <= j < w.len() implies #[trigger] w[j].0 != u by {
                if j < i {
                    assert(w[j] == s[j]);
                } else if j > i {
                    assert(w[j] == s[j - 1]);
                }
            }
        }
    }
}

pub proof fn lemma_lookup_remove<K, V>(s: Seq<(K, V)>, i: int, u: K)
    requires
        unique_keys(s),
        0 <= i < s.len(),
    ensures
        unique_keys(s.remove(i)),
        lookup(s.remove(i), s[i].0) is None,
        u != s[i].0 ==> lookup(s.remove(i), u) == lookup(s, u),
{
    let w = s.remove(i);
    assert forall|a: int, b: int| 0 <= a < b < w.len() implies #[trigger] w[a].0 != #[trigger] w[b].0 by {
        if b < i {
        } else if a < i {
            assert(w[b] == s[b + 1]);
        } else {
            assert(w[a] == s[a + 1] && w[b] == s[b + 1]);
        }
    }
    assert forall|j: int| 0 <= j < w.len() implies #[trigger] w[j].0 != s[i].0 by {
        if j < i {
            assert(w[j] == s[j]);
        } else {
            assert(w[j] == s[j + 1]);
        }
    }
    if u != s[i].0 {
        if exists|j: int| 0 <= j < s.len() && #[trigger] s[j].0 == u {
            let j = choose|j: int| 0 <= j < s.len() && #[trigger] s[j].0 == u;
            lemma_lookup_at(s, j);
            if j < i {
                assert(w[j] == s[j]);
                lemma_lookup_at(w, j);
            } else {
                assert(w[j - 1] == s[j]);
                lemma_lookup_at(w, j - 1);
            }
        } else {
            assert forall|j: int| 0 <= j < w.len() implies #[trigger] w[j].0 != u by {
                if j < i {
                    assert(w[j] == s[j]);
                } else {
                    assert(w[j] == s[j + 1]);
                }
            }
        }
    }
}

pub proof fn lemma_lookup_update_keys<K, V>(s: Seq<(K, V)>, i: int, v: V)
    requires
        unique_keys(s),
        0 <= i < s.len(),
    ensures
        unique_keys(s.update(i, (s[i].0, v))),
        lookup(s.update(i, (s[i].0, v)), s[i].0) == Some(v),
        forall|k: K| k != s[i].0 ==> #[trigger] lookup(s.update(i, (s[i].0, v)), k) == lookup(s, k),
{
    lemma_lookup_update(s, i, v, s[i].0);
    assert forall|k: K| k != s[i].0 implies #[trigger] lookup(s.update(i, (s[i].0, v)), k) == lookup(s, k) by {
        lemma_lookup_update(s, i, v, k);
    }
}

pub proof fn lemma_lookup_update_any<K, V>(s: Seq<(K, V)>, i: int, v: V)
    requires
        unique_keys(s),
        0 <= i < s.len(),
    ensures
        unique_keys(s.update(i, (s[i].0, v))),
{
    lemma_lookup_update(s, i, v, s[i].0);
}

pub proof fn lemma_lookup_push<K, V>(s: Seq<(K, V)>, k: K, v: V)
    requires
        unique_keys(s),
        forall|j: int| 0 <= j < s.len() ==> #[trigger] s[j].0 != k,
    ensures
        unique_keys(s.push((k, v))),
        lookup(s.push((k, v)), k) == Some(v),
        forall|u: K| u != k ==> #[trigger] lookup(s.push((k, v)), u) == lookup(s, u),
{
    assert(s.push((k, v)) =~= s.insert(s.len() as int, (k, v)));
    lemma_lookup_insert(s, s.len() as int, k, v, k);
    assert forall|u: K| u != k implies #[trigger] lookup(s.push((k, v)), u) == lookup(s, u) by {
        lemma_lookup_insert(s, s.len() as int, k, v, u);
    }
}

} // verus!
