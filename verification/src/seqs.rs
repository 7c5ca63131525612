//! Small sequence toolkit: ordered filtering, first-match lookup, and
//! key-distinctness, with the lemmas the store invariants need.

use vstd::prelude::*;

verus! {

/// The elements of `s` that satisfy `p`, in their original order.
pub open spec fn keep<T>(s: Seq<T>, p: spec_fn(T) -> bool) -> Seq<T>
    decreases s.len(),
{
    if s.len() == 0 {
        Seq::empty()
    } else if p(s.first()) {
        seq![s.first()] + keep(s.drop_first(), p)
    } else {
        keep(s.drop_first(), p)
    }
}

/// No two elements of `s` share a key.
pub open spec fn distinct_by<T, K>(s: Seq<T>, key: spec_fn(T) -> K) -> bool {
    forall|i: int, j: int| #![trigger s[i], s[j]] 0 <= i < j < s.len() ==> key(s[i]) != key(s[j])
}

/// Index of the first element of `s` whose key is `k`.
pub open spec fn idx_by<T, K>(s: Seq<T>, key: spec_fn(T) -> K, k: K) -> Option<int>
    decreases s.len(),
{
    if s.len() == 0 {
        None
    } else if key(s.first()) == k {
        Some(0)
    } else {
        match idx_by(s.drop_first(), key, k) {
            Some(i) => Some(i + 1),
            None => None,
        }
    }
}

/// What a first-match lookup returns: a valid index bearing the key, with
/// no earlier match, or no index at all when the key is absent.
pub proof fn lemma_idx_by<T, K>(s: Seq<T>, key: spec_fn(T) -> K, k: K)
    ensures
        match idx_by(s, key, k) {
            Some(i) => 0 <= i < s.len() && key(s[i]) == k && (forall|j: int|
                0 <= j < i ==> key(#[trigger] s[j]) != k),
            None => forall|j: int| 0 <= j < s.len() ==> key(#[trigger] s[j]) != k,
        },
    decreases s.len(),
{
    if s.len() != 0 {
        lemma_idx_by(s.drop_first(), key, k);
        match idx_by(s, key, k) {
            Some(i) => {
                if key(s.first()) == k {
                    assert(s[0] == s.first());
                } else {
                    assert(s.drop_first()[i - 1] == s[i]);
                    assert forall|j: int| 0 <= j < i implies key(#[trigger] s[j]) != k by {
                        if j == 0 {
                            assert(s[0] == s.first());
                        } else {
                            assert(s.drop_first()[j - 1] == s[j]);
                        }
                    }
                }
            },
            None => {
                assert forall|j: int| 0 <= j < s.len() implies key(#[trigger] s[j]) != k by {
                    if j == 0 {
                        assert(s[0] == s.first());
                    } else {
                        assert(s.drop_first()[j - 1] == s[j]);
                    }
                }
            },
        }
    }
}

/// A lookup that matches at `i` after no earlier match is the first match.
pub proof fn lemma_idx_by_is<T, K>(s: Seq<T>, key: spec_fn(T) -> K, k: K, i: int)
    requires
        0 <= i < s.len(),
        key(s[i]) == k,
        forall|j: int| 0 <= j < i ==> key(#[trigger] s[j]) != k,
    ensures
        idx_by(s, key, k) == Some(i),
    decreases s.len(),
{
    if i == 0 {
        assert(s.first() == s[0]);
    } else {
        assert(key(s.first()) != k) by {
            assert(s[0] == s.first());
        }
        assert forall|j: int| 0 <= j < i - 1 implies key(#[trigger] s.drop_first()[j]) != k by {
            assert(s.drop_first()[j] == s[j + 1]);
        }
        assert(s.drop_first()[i - 1] == s[i]);
        lemma_idx_by_is(s.drop_first(), key, k, i - 1);
    }
}

/// Removing an element preserves key-distinctness.
pub proof fn lemma_remove_distinct<T, K>(s: Seq<T>, q: int, key: spec_fn(T) -> K)
    requires
        distinct_by(s, key),
        0 <= q < s.len(),
    ensures
        distinct_by(s.remove(q), key),
{
    let r = s.remove(q);
    assert forall|i: int, j: int| #![trigger r[i], r[j]] 0 <= i < j < r.len() implies key(r[i])
        != key(r[j]) by {
        if i < q {
            assert(r[i] == s[i]);
        } else {
            assert(r[i] == s[i + 1]);
        }
        if j < q {
            assert(r[j] == s[j]);
        } else {
            assert(r[j] == s[j + 1]);
        }
    }
}

/// Replacing an element without changing its key preserves key-distinctness.
pub proof fn lemma_update_distinct<T, K>(s: Seq<T>, q: int, x: T, key: spec_fn(T) -> K)
    requires
        distinct_by(s, key),
        0 <= q < s.len(),
        key(x) == key(s[q]),
    ensures
        distinct_by(s.update(q, x), key),
{
    let r = s.update(q, x);
    assert forall|i: int, j: int| #![trigger r[i], r[j]] 0 <= i < j < r.len() implies key(r[i])
        != key(r[j]) by {
        assert(i != q ==> r[i] == s[i]);
        assert(j != q ==> r[j] == s[j]);
    }
}

/// Appending an element with a fresh key preserves key-distinctness.
pub proof fn lemma_push_distinct<T, K>(s: Seq<T>, x: T, key: spec_fn(T) -> K)
    requires
        distinct_by(s, key),
        forall|i: int| 0 <= i < s.len() ==> key(#[trigger] s[i]) != key(x),
    ensures
        distinct_by(s.push(x), key),
{
    let r = s.push(x);
    assert forall|i: int, j: int| #![trigger r[i], r[j]] 0 <= i < j < r.len() implies key(r[i])
        != key(r[j]) by {
        assert(i < s.len() ==> r[i] == s[i]);
        assert(j < s.len() ==> r[j] == s[j]);
        assert(j == s.len() ==> r[j] == x);
    }
}

/// Everything kept was already present and satisfies the predicate.
pub proof fn lemma_keep_contains<T>(s: Seq<T>, p: spec_fn(T) -> bool)
    ensures
        forall|x: T| #[trigger] keep(s, p).contains(x) ==> s.contains(x) && p(x),
    decreases s.len(),
{
    if s.len() != 0 {
        lemma_keep_contains(s.drop_first(), p);
        assert forall|x: T| #[trigger] keep(s, p).contains(x) implies s.contains(x) && p(x) by {
            let kr = keep(s.drop_first(), p);
            if p(s.first()) {
                let i = choose|i: int| 0 <= i < keep(s, p).len() && keep(s, p)[i] == x;
                if i == 0 {
                    assert(x == s.first());
                    assert(s[0] == x);
                } else {
                    assert(kr[i - 1] == x);
                    assert(kr.contains(x));
                    let j = choose|j: int|
                        0 <= j < s.drop_first().len() && s.drop_first()[j] == x;
                    assert(s[j + 1] == x);
                }
            } else {
                assert(kr.contains(x));
                let j = choose|j: int| 0 <= j < s.drop_first().len() && s.drop_first()[j] == x;
                assert(s[j + 1] == x);
            }
        }
    }
}

/// Filtering preserves key-distinctness.
pub proof fn lemma_keep_distinct<T, K>(s: Seq<T>, p: spec_fn(T) -> bool, key: spec_fn(T) -> K)
    requires
        distinct_by(s, key),
    ensures
        distinct_by(keep(s, p), key),
    decreases s.len(),
{
    if s.len() != 0 {
        let rest = s.drop_first();
        assert forall|i: int, j: int| #![trigger rest[i], rest[j]]
            0 <= i < j < rest.len() implies key(rest[i]) != key(rest[j]) by {
            assert(rest[i] == s[i + 1]);
            assert(rest[j] == s[j + 1]);
        }
        lemma_keep_distinct(rest, p, key);
        lemma_keep_contains(rest, p);
        let kr = keep(rest, p);
        if p(s.first()) {
            assert forall|i: int, j: int| #![trigger keep(s, p)[i], keep(s, p)[j]]
                0 <= i < j < keep(s, p).len() implies key(keep(s, p)[i]) != key(keep(s, p)[j]) by {
                if i == 0 {
                    assert(keep(s, p)[j] == kr[j - 1]);
                    assert(kr.contains(kr[j - 1]));
                    let a = choose|a: int| 0 <= a < rest.len() && rest[a] == kr[j - 1];
                    assert(s[a + 1] == kr[j - 1]);
                    assert(s[0] == s.first());
                    assert(key(s[0]) != key(s[a + 1]));
                } else {
                    assert(keep(s, p)[i] == kr[i - 1]);
                    assert(keep(s, p)[j] == kr[j - 1]);
                }
            }
        }
    }
}

} // verus!
