use vstd::prelude::*;

verus! {

use crate::text::str_eq;

/// Whether a key occurs in a sequence of key-value pairs.
pub open spec fn kv_has<V>(s: Seq<(Seq<char>, V)>, k: Seq<char>) -> bool {
    exists|i: int| 0 <= i < s.len() && s[i].0 == k
}

/// The position of a key in a sequence of pairs; meaningful when the keys
/// are unique and the key occurs.
pub open spec fn kv_idx<V>(s: Seq<(Seq<char>, V)>, k: Seq<char>) -> int {
    choose|i: int| 0 <= i < s.len() && s[i].0 == k
}

/// The value paired with a key.
pub open spec fn kv_get<V>(s: Seq<(Seq<char>, V)>, k: Seq<char>) -> V
    recommends
        kv_has(s, k),
{
    s[kv_idx(s, k)].1
}

/// Pairwise distinct keys.
pub open spec fn kv_unique<V>(s: Seq<(Seq<char>, V)>) -> bool {
    forall|i: int, j: int| 0 <= i < j < s.len() ==> s[i].0 != s[j].0
}

/// Replaces the value under an existing key in place, or appends the pair.
pub open spec fn kv_upsert<V>(s: Seq<(Seq<char>, V)>, k: Seq<char>, v: V) -> Seq<(Seq<char>, V)> {
    if kv_has(s, k) {
        s.update(kv_idx(s, k), (k, v))
    } else {
        s.push((k, v))
    }
}

/// Removes the pair under a key, if present.
pub open spec fn kv_remove<V>(s: Seq<(Seq<char>, V)>, k: Seq<char>) -> Seq<(Seq<char>, V)> {
    if kv_has(s, k) {
        s.remove(kv_idx(s, k))
    } else {
        s
    }
}

/// With unique keys, any position holding the key is the position chosen by
/// `kv_idx`.
pub proof fn lemma_kv_idx_unique<V>(s: Seq<(Seq<char>, V)>, k: Seq<char>, i: int)
    requires
        kv_unique(s),
        0 <= i < s.len(),
        s[i].0 == k,
    ensures
        kv_has(s, k),
        kv_idx(s, k) == i,
{
    assert(kv_has(s, k));
    let j = kv_idx(s, k);
    if i < j {
        assert(s[i].0 != s[j].0);
    } else if j < i {
        assert(s[j].0 != s[i].0);
    }
}

/// What an upsert does to membership, lookup and uniqueness.
pub proof fn lemma_kv_upsert<V>(s: Seq<(Seq<char>, V)>, k: Seq<char>, v: V)
    requires
        kv_unique(s),
    ensures
        kv_unique(kv_upsert(s, k, v)),
        kv_has(kv_upsert(s, k, v), k),
        kv_get(kv_upsert(s, k, v), k) == v,
        forall|k2: Seq<char>|
            k2 != k ==> #[trigger] kv_has(kv_upsert(s, k, v), k2) == kv_has(s, k2),
        forall|k2: Seq<char>|
            k2 != k && kv_has(s, k2) ==> #[trigger] kv_get(kv_upsert(s, k, v), k2) == kv_get(s, k2),
{
    let t = kv_upsert(s, k, v);
    if kv_has(s, k) {
        let i = kv_idx(s, k);
        assert(0 <= i < s.len() && s[i].0 == k);
        assert(t == s.update(i, (k, v)));
        assert(kv_unique(t)) by {
            assert forall|a: int, b: int| 0 <= a < b < t.len() implies t[a].0 != t[b].0 by {
                assert(s[a].0 != s[b].0);
            }
        }
        lemma_kv_idx_unique(t, k, i);
        assert(kv_get(t, k) == v);
        assert forall|k2: Seq<char>| k2 != k implies #[trigger] kv_has(t, k2) == kv_has(s, k2) by {
            if kv_has(s, k2) {
                let j = kv_idx(s, k2);
                assert(j != i);
                assert(t[j].0 == k2);
            }
            if kv_has(t, k2) {
                let j = kv_idx(t, k2);
                assert(j != i);
                assert(s[j].0 == k2);
            }
        }
        assert forall|k2: Seq<char>| k2 != k && kv_has(s, k2) implies #[trigger] kv_get(t, k2)
            == kv_get(s, k2) by {
            let j = kv_idx(s, k2);
            lemma_kv_idx_unique(s, k2, j);
            assert(j != i);
            assert(t[j].0 == k2);
            lemma_kv_idx_unique(t, k2, j);
        }
    } else {
        assert(t == s.push((k, v)));
        assert(kv_unique(t)) by {
            assert forall|a: int, b: int| 0 <= a < b < t.len() implies t[a].0 != t[b].0 by {
                if b < s.len() {
                    assert(s[a].0 != s[b].0);
                } else {
                    assert(t[b].0 == k);
                    assert(t[a] == s[a]);
                    assert(!(s[a].0 == k)) by {
                        if s[a].0 == k {
                            assert(kv_has(s, k));
                        }
                    }
                }
            }
        }
        lemma_kv_idx_unique(t, k, s.len() as int);
        assert forall|k2: Seq<char>| k2 != k implies #[trigger] kv_has(t, k2) == kv_has(s, k2) by {
            if kv_has(s, k2) {
                let j = kv_idx(s, k2);
                assert(t[j].0 == k2);
            }
            if kv_has(t, k2) {
                let j = kv_idx(t, k2);
                assert(j < s.len());
                assert(s[j].0 == k2);
            }
        }
        assert forall|k2: Seq<char>| k2 != k && kv_has(s, k2) implies #[trigger] kv_get(t, k2)
            == kv_get(s, k2) by {
            let j = kv_idx(s, k2);
            lemma_kv_idx_unique(s, k2, j);
            assert(t[j].0 == k2);
            lemma_kv_idx_unique(t, k2, j);
        }
    }
}

/// What a removal does to membership, lookup and uniqueness.
pub proof fn lemma_kv_remove<V>(s: Seq<(Seq<char>, V)>, k: Seq<char>)
    requires
        kv_unique(s),
    ensures
        kv_unique(kv_remove(s, k)),
        !kv_has(kv_remove(s, k), k),
        forall|k2: Seq<char>|
            k2 != k ==> #[trigger] kv_has(kv_remove(s, k), k2) == kv_has(s, k2),
        forall|k2: Seq<char>|
            k2 != k && kv_has(s, k2) ==> #[trigger] kv_get(kv_remove(s, k), k2) == kv_get(s, k2),
{
    let t = kv_remove(s, k);
    if kv_has(s, k) {
        let i = kv_idx(s, k);
        assert(0 <= i < s.len() && s[i].0 == k);
        assert(t == s.remove(i));
        assert forall|a: int| 0 <= a < t.len() implies t[a] == (if a < i {
            s[a]
        } else {
            s[a + 1]
        }) by {}
        assert(kv_unique(t)) by {
            assert forall|a: int, b: int| 0 <= a < b < t.len() implies t[a].0 != t[b].0 by {
                let a2: int = if a < i { a } else { a + 1 };
                let b2: int = if b < i { b } else { b + 1 };
                assert(s[a2].0 != s[b2].0);
            }
        }
        assert(!kv_has(t, k)) by {
            if kv_has(t, k) {
                let j = kv_idx(t, k);
                let j2: int = if j < i { j } else { j + 1 };
                assert(s[j2].0 == k);
                lemma_kv_idx_unique(s, k, j2);
            }
        }
        assert forall|k2: Seq<char>| k2 != k implies #[trigger] kv_has(t, k2) == kv_has(s, k2) by {
            if kv_has(s, k2) {
                let j = kv_idx(s, k2);
                assert(j != i);
                let j2: int = if j < i { j } else { j - 1 };
                assert(t[j2].0 == k2);
            }
            if kv_has(t, k2) {
                let j = kv_idx(t, k2);
                let j2: int = if j < i { j } else { j + 1 };
                assert(s[j2].0 == k2);
            }
        }
        assert forall|k2: Seq<char>| k2 != k && kv_has(s, k2) implies #[trigger] kv_get(t, k2)
            == kv_get(s, k2) by {
            let j = kv_idx(s, k2);
            lemma_kv_idx_unique(s, k2, j);
            assert(j != i);
            let j2: int = if j < i { j } else { j - 1 };
            assert(t[j2].0 == k2);
            assert(t[j2].1 == s[j].1);
            lemma_kv_idx_unique(t, k2, j2);
        }
    } else {
        assert(!kv_has(t, k));
    }
}

/// Finds the position of a key among the first components of a vector of
/// pairs, scanning from the front.
pub fn assoc_position<V>(list: &Vec<(String, V)>, key: &str) -> (r: Option<usize>)
    ensures
        match r {
            Some(i) => 0 <= i < list@.len() && list@[i as int].0@ == key@,
            None => forall|j: int| 0 <= j < list@.len() ==> list@[j].0@ != key@,
        },
{
    let mut i: usize = 0;
    while i < list.len()
        invariant
            i <= list@.len(),
            forall|j: int| 0 <= j < i ==> list@[j].0@ != key@,
        decreases list@.len() - i,
    {
        if str_eq(list[i].0.as_str(), key) {
            return Some(i);
        }
        i += 1;
    }
    None
}


/// Writing a key twice keeps only the second value.
pub proof fn lemma_kv_upsert_twice<V>(s: Seq<(Seq<char>, V)>, k: Seq<char>, x: V, y: V)
    requires
        kv_unique(s),
    ensures
        kv_upsert(kv_upsert(s, k, x), k, y) == kv_upsert(s, k, y),
{
    lemma_kv_upsert(s, k, x);
    let t = kv_upsert(s, k, x);
    if kv_has(s, k) {
        let i = kv_idx(s, k);
        lemma_kv_idx_unique(s, k, i);
        assert(t[i].0 == k);
        lemma_kv_idx_unique(t, k, i);
        assert(kv_upsert(t, k, y) =~= kv_upsert(s, k, y));
    } else {
        assert(t == s.push((k, x)));
        assert(t[s.len() as int].0 == k);
        lemma_kv_idx_unique(t, k, s.len() as int);
        assert(kv_upsert(t, k, y) =~= kv_upsert(s, k, y));
    }
}

} // verus!
