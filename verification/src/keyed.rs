//! Lists of entries read as maps from a key to the entry: the board keeps its tiles,
//! groups and edge links in vectors whose keys never repeat.
use vstd::prelude::*;

verus! {

/// The map from each key to the last entry with that key.
pub open spec fn keyed<T, K>(s: Seq<T>, key: spec_fn(T) -> K) -> Map<K, T>
    decreases s.len(),
{
    if s.len() == 0 {
        Map::<K, T>::empty()
    } else {
        keyed(s.drop_last(), key).insert(key(s.last()), s.last())
    }
}

/// No two entries share a key.
pub open spec fn distinct_keys<T, K>(s: Seq<T>, key: spec_fn(T) -> K) -> bool {
    forall|i: int, j: int| 0 <= i < j < s.len() ==> key(s[i]) != key(s[j])
}

/// The keys present are exactly the keys of the entries.
pub proof fn lemma_keyed_dom<T, K>(s: Seq<T>, key: spec_fn(T) -> K, k: K)
    ensures
        keyed(s, key).dom().contains(k) <==> exists|i: int| 0 <= i < s.len() && key(s[i]) == k,
    decreases s.len(),
{
    if s.len() > 0 {
        lemma_keyed_dom(s.drop_last(), key, k);
        if keyed(s, key).dom().contains(k) {
            if key(s.last()) == k {
                assert(key(s[s.len() - 1]) == k);
            } else {
                let i = choose|i: int| 0 <= i < s.drop_last().len() && key(s.drop_last()[i]) == k;
                assert(key(s[i]) == k);
            }
        }
        if exists|i: int| 0 <= i < s.len() && key(s[i]) == k {
            let i = choose|i: int| 0 <= i < s.len() && key(s[i]) == k;
            if i < s.len() - 1 {
                assert(key(s.drop_last()[i]) == k);
            }
        }
    }
}

/// The entry found for a key is the last one with that key.
pub proof fn lemma_keyed_at<T, K>(s: Seq<T>, key: spec_fn(T) -> K, i: int)
    requires
        0 <= i < s.len(),
        forall|j: int| i < j < s.len() ==> key(s[j]) != key(s[i]),
    ensures
        keyed(s, key).dom().contains(key(s[i])),
        keyed(s, key)[key(s[i])] == s[i],
    decreases s.len(),
{
    if i < s.len() - 1 {
        assert forall|j: int| i < j < s.drop_last().len() implies key(s.drop_last()[j]) != key(s.drop_last()[i]) by {
            assert(s.drop_last()[j] == s[j]);
        }
        lemma_keyed_at(s.drop_last(), key, i);
        assert(key(s.last()) != key(s[i]));
    }
}

/// With distinct keys, the entry found for a key is the unique entry with that key.
pub proof fn lemma_keyed_distinct_at<T, K>(s: Seq<T>, key: spec_fn(T) -> K, i: int)
    requires
        0 <= i < s.len(),
        distinct_keys(s, key),
    ensures
        keyed(s, key).dom().contains(key(s[i])),
        keyed(s, key)[key(s[i])] == s[i],
{
    lemma_keyed_at(s, key, i);
}

/// Replacing an entry by one with the same key replaces it in the map.
pub proof fn lemma_keyed_update<T, K>(s: Seq<T>, key: spec_fn(T) -> K, i: int, x: T)
    requires
        0 <= i < s.len(),
        distinct_keys(s, key),
        key(x) == key(s[i]),
    ensures
        keyed(s.update(i, x), key) == keyed(s, key).insert(key(x), x),
        distinct_keys(s.update(i, x), key),
    decreases s.len(),
{
    let t = s.update(i, x);
    if i == s.len() - 1 {
        assert(t.drop_last() =~= s.drop_last());
        assert(keyed(s, key).insert(key(x), x) =~= keyed(s.drop_last(), key).insert(key(x), x));
    } else {
        assert(t.drop_last() =~= s.drop_last().update(i, x));
        lemma_keyed_update(s.drop_last(), key, i, x);
        assert(key(s.last()) != key(x));
        assert(keyed(t, key) =~= keyed(s, key).insert(key(x), x));
    }
    assert forall|a: int, b: int| 0 <= a < b < t.len() implies key(t[a]) != key(t[b]) by {
        if a == i {
            assert(key(t[a]) == key(s[a]));
        }
        if b == i {
            assert(key(t[b]) == key(s[b]));
        }
    }
}

/// Removing an entry removes its key from the map.
pub proof fn lemma_keyed_remove<T, K>(s: Seq<T>, key: spec_fn(T) -> K, i: int)
    requires
        0 <= i < s.len(),
        distinct_keys(s, key),
    ensures
        keyed(s.remove(i), key) == keyed(s, key).remove(key(s[i])),
        distinct_keys(s.remove(i), key),
    decreases s.len(),
{
    let t = s.remove(i);
    if i == s.len() - 1 {
        assert(t =~= s.drop_last());
        assert forall|j: int| 0 <= j < s.drop_last().len() implies key(s.drop_last()[j]) != key(s[i]) by {
            assert(s.drop_last()[j] == s[j]);
        }
        lemma_keyed_dom(s.drop_last(), key, key(s[i]));
        assert(keyed(t, key) =~= keyed(s, key).remove(key(s[i])));
    } else {
        assert(t.drop_last() =~= s.drop_last().remove(i));
        assert(t.last() == s.last());
        assert forall|a: int, b: int| 0 <= a < b < s.drop_last().len() implies key(s.drop_last()[a]) != key(
            s.drop_last()[b],
        ) by {
            assert(s.drop_last()[a] == s[a]);
            assert(s.drop_last()[b] == s[b]);
        }
        lemma_keyed_remove(s.drop_last(), key, i);
        assert(key(s.last()) != key(s[i]));
        assert(keyed(t, key) =~= keyed(s, key).remove(key(s[i])));
    }
    assert forall|a: int, b: int| 0 <= a < b < t.len() implies key(t[a]) != key(t[b]) by {
        if a < i {
            if b < i {
            } else {
                assert(t[b] == s[b + 1]);
            }
        } else {
            assert(t[a] == s[a + 1]);
            assert(t[b] == s[b + 1]);
        }
    }
}

/// Appending an entry with a new key keeps the keys distinct.
pub proof fn lemma_keyed_push_distinct<T, K>(s: Seq<T>, key: spec_fn(T) -> K, x: T)
    requires
        distinct_keys(s, key),
        !keyed(s, key).dom().contains(key(x)),
    ensures
        distinct_keys(s.push(x), key),
        keyed(s.push(x), key) == keyed(s, key).insert(key(x), x),
{
    lemma_keyed_dom(s, key, key(x));
    let t = s.push(x);
    assert(t.drop_last() =~= s);
    assert forall|a: int, b: int| 0 <= a < b < t.len() implies key(t[a]) != key(t[b]) by {
        if b == s.len() {
            assert(t[a] == s[a]);
        } else {
            assert(t[a] == s[a]);
            assert(t[b] == s[b]);
        }
    }
}

/// Changing every entry without changing its key changes the map the same way.
pub proof fn lemma_keyed_map_values<T, K>(s: Seq<T>, key: spec_fn(T) -> K, f: spec_fn(T) -> T)
    requires
        forall|x: T| #[trigger] key(f(x)) == key(x),
    ensures
        keyed(s.map_values(f), key) == keyed(s, key).map_values(f),
        distinct_keys(s, key) ==> distinct_keys(s.map_values(f), key),
    decreases s.len(),
{
    if s.len() > 0 {
        assert(s.map_values(f).drop_last() =~= s.drop_last().map_values(f));
        lemma_keyed_map_values(s.drop_last(), key, f);
        assert(key(f(s.last())) == key(s.last()));
        assert(keyed(s.map_values(f), key) =~= keyed(s, key).map_values(f));
    } else {
        assert(keyed(s.map_values(f), key) =~= keyed(s, key).map_values(f));
    }
    if distinct_keys(s, key) {
        assert forall|a: int, b: int| 0 <= a < b < s.map_values(f).len() implies key(s.map_values(f)[a]) != key(
            s.map_values(f)[b],
        ) by {
            assert(key(f(s[a])) == key(s[a]));
            assert(key(f(s[b])) == key(s[b]));
        }
    }
}

/// The entry found for a key has that key.
pub proof fn lemma_keyed_value_key<T, K>(s: Seq<T>, key: spec_fn(T) -> K, k: K)
    requires
        keyed(s, key).dom().contains(k),
    ensures
        key(keyed(s, key)[k]) == k,
        exists|i: int| 0 <= i < s.len() && s[i] == keyed(s, key)[k],
    decreases s.len(),
{
    if key(s.last()) != k {
        lemma_keyed_value_key(s.drop_last(), key, k);
        let i = choose|i: int| 0 <= i < s.drop_last().len() && s.drop_last()[i] == keyed(s.drop_last(), key)[k];
        assert(s[i] == keyed(s, key)[k]);
    } else {
        assert(s[s.len() - 1] == keyed(s, key)[k]);
    }
}

/// With distinct keys the map has one key per entry.
pub proof fn lemma_keyed_len<T, K>(s: Seq<T>, key: spec_fn(T) -> K)
    requires
        distinct_keys(s, key),
    ensures
        keyed(s, key).dom().finite(),
        keyed(s, key).dom().len() == s.len(),
    decreases s.len(),
{
    if s.len() > 0 {
        assert(distinct_keys(s.drop_last(), key)) by {
            assert forall|a: int, b: int| 0 <= a < b < s.drop_last().len() implies key(s.drop_last()[a]) != key(
                s.drop_last()[b],
            ) by {
                assert(s.drop_last()[a] == s[a]);
                assert(s.drop_last()[b] == s[b]);
            }
        };
        lemma_keyed_len(s.drop_last(), key);
        lemma_keyed_dom(s.drop_last(), key, key(s.last()));
        assert(!keyed(s.drop_last(), key).dom().contains(key(s.last()))) by {
            if keyed(s.drop_last(), key).dom().contains(key(s.last())) {
                let i = choose|i: int| 0 <= i < s.drop_last().len() && key(s.drop_last()[i]) == key(s.last());
                assert(key(s[i]) == key(s[s.len() - 1]));
            }
        };
    }
}

} // verus!
