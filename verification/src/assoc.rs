//! Maps as lists of entries, in the order in which the entries came.

use vstd::prelude::*;

verus! {

/// Entry `i` of `s` is the one for `key`.
pub open spec fn key_at<K, V>(s: Seq<(K, V)>, i: int, key: K) -> bool {
    0 <= i < s.len() && s[i].0 == key
}

/// `s` has an entry for `key`.
pub open spec fn has_key<K, V>(s: Seq<(K, V)>, key: K) -> bool {
    exists|i: int| key_at(s, i, key)
}

/// Where the entry for `key` stands, if there is one.
pub open spec fn index_of<K, V>(s: Seq<(K, V)>, key: K) -> int {
    choose|i: int| key_at(s, i, key)
}

/// No key has two entries.
pub open spec fn distinct_keys<K, V>(s: Seq<(K, V)>) -> bool {
    forall|i: int, j: int|
        0 <= i < j < s.len() ==> (#[trigger] s[i]).0 != (#[trigger] s[j]).0
}

/// The value under `key`, if there is one.
pub open spec fn lookup<K, V>(s: Seq<(K, V)>, key: K) -> Option<V> {
    if has_key(s, key) {
        Some(s[index_of(s, key)].1)
    } else {
        None
    }
}

/// The entry for `key` replaced, or one appended where there was none.
pub open spec fn inserted<K, V>(s: Seq<(K, V)>, key: K, v: V) -> Seq<(K, V)> {
    if has_key(s, key) {
        s.update(index_of(s, key), (key, v))
    } else {
        s.push((key, v))
    }
}

/// The entries without the one for `key`.
pub open spec fn removed<K, V>(s: Seq<(K, V)>, key: K) -> Seq<(K, V)> {
    if has_key(s, key) {
        s.remove(index_of(s, key))
    } else {
        s
    }
}

/// The entries of `new` inserted into `s` in turn.
pub open spec fn extended<K, V>(s: Seq<(K, V)>, new: Seq<(K, V)>) -> Seq<(K, V)>
    decreases new.len(),
{
    if new.len() == 0 {
        s
    } else {
        inserted(extended(s, new.drop_last()), new.last().0, new.last().1)
    }
}

/// With distinct keys, the entry found for a key is the only one.
pub proof fn lemma_index_unique<K, V>(s: Seq<(K, V)>, i: int, key: K)
    requires
        distinct_keys(s),
        key_at(s, i, key),
    ensures
        has_key(s, key),
        index_of(s, key) == i,
        lookup(s, key) == Some(s[i].1),
{
    let j = index_of(s, key);
    assert(key_at(s, j, key));
    if i < j {
        assert(s[i].0 != s[j].0);
    } else if j < i {
        assert(s[j].0 != s[i].0);
    }
}

/// The value under `key`, if there is one, become `f` of itself.
pub open spec fn changed<K, V>(s: Seq<(K, V)>, key: K, f: spec_fn(V) -> V) -> Seq<(K, V)> {
    if has_key(s, key) {
        let i = index_of(s, key);
        s.update(i, (key, f(s[i].1)))
    } else {
        s
    }
}

/// Two lists with the same keys find an entry at the same place.
pub proof fn lemma_same_keys<K, V, W>(s: Seq<(K, V)>, t: Seq<(K, W)>)
    requires
        s.len() == t.len(),
        forall|i: int| 0 <= i < s.len() ==> (#[trigger] s[i]).0 == (#[trigger] t[i]).0,
    ensures
        distinct_keys(s) == distinct_keys(t),
        forall|key: K| #[trigger] has_key(s, key) == has_key(t, key),
        distinct_keys(s) ==> forall|key: K|
            has_key(s, key) ==> #[trigger] index_of(s, key) == index_of(t, key),
{
    if distinct_keys(s) {
        assert forall|i: int, j: int| 0 <= i < j < t.len() implies (#[trigger] t[i]).0 != (
        #[trigger] t[j]).0 by {
            assert(s[i].0 != s[j].0);
        }
    }
    if distinct_keys(t) {
        assert forall|i: int, j: int| 0 <= i < j < s.len() implies (#[trigger] s[i]).0 != (
        #[trigger] s[j]).0 by {
            assert(t[i].0 != t[j].0);
        }
    }
    assert forall|key: K| #[trigger] has_key(s, key) == has_key(t, key) by {
        if has_key(s, key) {
            let i = index_of(s, key);
            assert(key_at(s, i, key));
            assert(s[i].0 == t[i].0);
            assert(key_at(t, i, key));
        }
        if has_key(t, key) {
            let i = index_of(t, key);
            assert(key_at(t, i, key));
            assert(s[i].0 == t[i].0);
            assert(key_at(s, i, key));
        }
    }
    if distinct_keys(s) {
        assert forall|key: K| has_key(s, key) implies #[trigger] index_of(s, key) == index_of(
            t,
            key,
        ) by {
            let i = index_of(s, key);
            assert(key_at(s, i, key));
            assert(s[i].0 == t[i].0);
            assert(key_at(t, i, key));
            lemma_index_unique(t, i, key);
        }
    }
}

/// Changing a value keeps the keys.
pub proof fn lemma_changed_keys<K, V>(s: Seq<(K, V)>, key: K, f: spec_fn(V) -> V)
    ensures
        changed(s, key, f).len() == s.len(),
        forall|i: int| 0 <= i < s.len() ==> (#[trigger] changed(s, key, f)[i]).0 == s[i].0,
        distinct_keys(s) ==> distinct_keys(changed(s, key, f)),
        forall|k: K| #[trigger] has_key(changed(s, key, f), k) == has_key(s, k),
{
    let t = changed(s, key, f);
    if has_key(s, key) {
        assert(key_at(s, index_of(s, key), key));
    }
    lemma_same_keys(s, t);
}

/// Inserting keeps the keys distinct.
pub proof fn lemma_inserted_keys<K, V>(s: Seq<(K, V)>, key: K, v: V)
    requires
        distinct_keys(s),
    ensures
        distinct_keys(inserted(s, key, v)),
{
    if has_key(s, key) {
        assert(key_at(s, index_of(s, key), key));
        lemma_same_keys(s, inserted(s, key, v));
    } else {
        assert forall|i: int| 0 <= i < s.len() implies (#[trigger] s[i]).0 != key by {
            assert(!key_at(s, i, key));
        }
    }
}

/// What was put under a key is found under it, and what stands under other keys
/// is what stood there before. A key that was taken out is gone.
pub proof fn law_lookup<K, V>(s: Seq<(K, V)>, key: K, v: V, other: K)
    requires
        distinct_keys(s),
    ensures
        lookup(inserted(s, key, v), key) == Some(v),
        other != key ==> lookup(inserted(s, key, v), other) == lookup(s, other),
        lookup(removed(s, key), key) is None,
        other != key ==> lookup(removed(s, key), other) == lookup(s, other),
{
    let put = inserted(s, key, v);
    let gone = removed(s, key);
    lemma_inserted_keys(s, key, v);
    if has_key(s, key) {
        let k = index_of(s, key);
        assert(key_at(s, k, key));
        assert(key_at(put, k, key));
        lemma_index_unique(put, k, key);
        assert(distinct_keys(gone)) by {
            assert forall|i: int, j: int| 0 <= i < j < gone.len() implies (#[trigger] gone[i]).0 != (
            #[trigger] gone[j]).0 by {
                let a = if i < k {
                    i
                } else {
                    i + 1
                };
                let b = if j < k {
                    j
                } else {
                    j + 1
                };
                assert(s[a].0 != s[b].0);
            }
        }
        assert(!has_key(gone, key)) by {
            if has_key(gone, key) {
                let i = index_of(gone, key);
                assert(key_at(gone, i, key));
                if i < k {
                    assert(s[i].0 != s[k].0);
                } else {
                    assert(s[k].0 != s[i + 1].0);
                }
            }
        }
        if other != key {
            if has_key(s, other) {
                let i = index_of(s, other);
                assert(key_at(s, i, other));
                assert(key_at(put, i, other));
                lemma_index_unique(put, i, other);
                let g = if i < k {
                    i
                } else {
                    i - 1
                };
                assert(key_at(gone, g, other));
                lemma_index_unique(gone, g, other);
            } else {
                assert(!has_key(put, other)) by {
                    if has_key(put, other) {
                        let i = index_of(put, other);
                        assert(key_at(put, i, other));
                        assert(key_at(s, i, other));
                    }
                }
                assert(!has_key(gone, other)) by {
                    if has_key(gone, other) {
                        let i = index_of(gone, other);
                        assert(key_at(gone, i, other));
                        assert(key_at(
                            s,
                            if i < k {
                                i
                            } else {
                                i + 1
                            },
                            other,
                        ));
                    }
                }
            }
        }
    } else {
        let k = s.len() as int;
        assert(key_at(put, k, key));
        lemma_index_unique(put, k, key);
        if other != key {
            if has_key(s, other) {
                let i = index_of(s, other);
                assert(key_at(s, i, other));
                assert(key_at(put, i, other));
                lemma_index_unique(put, i, other);
            } else {
                assert(!has_key(put, other)) by {
                    if has_key(put, other) {
                        let i = index_of(put, other);
                        assert(key_at(put, i, other));
                        assert(key_at(s, i, other));
                    }
                }
            }
        }
    }
}

} // verus!
