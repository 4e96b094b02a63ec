//! Lists of keys and values in which a key stands once at most.

use vstd::prelude::*;

verus! {

/// The place of a key, or the number of pairs.
pub open spec fn place<K, V>(pairs: Seq<(K, V)>, key: K) -> int
    decreases pairs.len(),
{
    if pairs.len() == 0 {
        0
    } else {
        let found = place(pairs.drop_last(), key);
        if found < pairs.len() - 1 {
            found
        } else if pairs.last().0 == key {
            pairs.len() - 1
        } else {
            pairs.len() as int
        }
    }
}

/// Whether a key has a value.
pub open spec fn has_key<K, V>(pairs: Seq<(K, V)>, key: K) -> bool {
    place(pairs, key) < pairs.len()
}

/// The value of a key.
pub open spec fn value_of<K, V>(pairs: Seq<(K, V)>, key: K) -> V {
    pairs[place(pairs, key)].1
}

/// Pairs with a value put under a key.
pub open spec fn put<K, V>(pairs: Seq<(K, V)>, key: K, value: V) -> Seq<(K, V)> {
    if has_key(pairs, key) {
        pairs.update(place(pairs, key), (key, value))
    } else {
        pairs.push((key, value))
    }
}

/// The pairs that meet a condition.
pub open spec fn filtered<K, V>(pairs: Seq<(K, V)>, condition: spec_fn((K, V)) -> bool) -> Seq<
    (K, V),
>
    decreases pairs.len(),
{
    if pairs.len() == 0 {
        Seq::empty()
    } else {
        let rest = filtered(pairs.drop_last(), condition);
        if condition(pairs.last()) {
            rest.push(pairs.last())
        } else {
            rest
        }
    }
}

/// Pairs without those of a key.
pub open spec fn drop_key<K, V>(pairs: Seq<(K, V)>, key: K) -> Seq<(K, V)> {
    filtered(pairs, |pair: (K, V)| pair.0 != key)
}

/// Whether no key stands twice.
pub open spec fn unique_keys<K, V>(pairs: Seq<(K, V)>) -> bool {
    forall|i: int, j: int|
        0 <= i < j < pairs.len() ==> (#[trigger] pairs[i]).0 != (#[trigger] pairs[j]).0
}

/// The place of a key is the first one that holds it.
pub proof fn lemma_place<K, V>(pairs: Seq<(K, V)>, key: K)
    ensures
        0 <= place(pairs, key) <= pairs.len(),
        forall|i: int| 0 <= i < place(pairs, key) ==> (#[trigger] pairs[i]).0 != key,
        place(pairs, key) < pairs.len() ==> pairs[place(pairs, key)].0 == key,
    decreases pairs.len(),
{
    if pairs.len() > 0 {
        let front = pairs.drop_last();
        lemma_place(front, key);
        assert forall|i: int| 0 <= i < place(pairs, key) implies (#[trigger] pairs[i]).0 != key by {
            if i < front.len() {
                assert(front[i] == pairs[i]);
            }
        }
    }
}

/// A place that holds a key, with none before it that does, is its place.
pub proof fn lemma_place_is<K, V>(pairs: Seq<(K, V)>, key: K, k: int)
    requires
        0 <= k <= pairs.len(),
        forall|i: int| 0 <= i < k ==> (#[trigger] pairs[i]).0 != key,
        k < pairs.len() ==> pairs[k].0 == key,
    ensures
        place(pairs, key) == k,
{
    lemma_place(pairs, key);
}

/// A value that was put is there, and all others are as they were.
pub proof fn lemma_put<K, V>(pairs: Seq<(K, V)>, key: K, value: V, other: K)
    ensures
        has_key(put(pairs, key, value), other) <==> other == key || has_key(pairs, other),
        value_of(put(pairs, key, value), key) == value,
        other != key && has_key(pairs, other) ==> value_of(put(pairs, key, value), other)
            == value_of(pairs, other),
        unique_keys(pairs) ==> unique_keys(put(pairs, key, value)),
{
    let after = put(pairs, key, value);
    lemma_place(pairs, key);
    lemma_place(pairs, other);
    lemma_place(after, key);
    lemma_place(after, other);
    let k = place(pairs, key);
    if other != key {
        let p = place(pairs, other);
        if p < pairs.len() {
            assert(after[p] == pairs[p]);
            assert forall|i: int| 0 <= i < p implies (#[trigger] after[i]).0 != other by {
                if i != k {
                    assert(after[i] == pairs[i]);
                }
            }
            lemma_place_is(after, other, p);
        } else {
            assert forall|i: int| 0 <= i < after.len() implies (#[trigger] after[i]).0 != other by {
                if i != k {
                    assert(after[i] == pairs[i]);
                }
            }
        }
    }
    assert(after[k] == (key, value));
    assert forall|i: int| 0 <= i < k implies (#[trigger] after[i]).0 != key by {
        assert(after[i] == pairs[i]);
    }
    lemma_place_is(after, key, k);
    if unique_keys(pairs) {
        assert forall|i: int, j: int| 0 <= i < j < after.len() implies (#[trigger] after[i]).0 != (
        #[trigger] after[j]).0 by {
            if i != k {
                assert(after[i] == pairs[i]);
            }
            if j != k {
                assert(after[j] == pairs[j]);
            }
            if k < pairs.len() {
                assert(pairs[i].0 != pairs[j].0);
                assert(pairs[k].0 == key);
            }
        }
    }
}

/// Where no key stands twice, a pair is there exactly when its key has its value.
pub proof fn lemma_contains<K, V>(pairs: Seq<(K, V)>, key: K, value: V)
    requires
        unique_keys(pairs),
    ensures
        pairs.contains((key, value)) <==> has_key(pairs, key) && value_of(pairs, key) == value,
{
    lemma_place(pairs, key);
    if pairs.contains((key, value)) {
        let i = choose|i: int| 0 <= i < pairs.len() && pairs[i] == (key, value);
        assert forall|j: int| 0 <= j < i implies (#[trigger] pairs[j]).0 != key by {
            assert(pairs[j].0 != pairs[i].0);
        }
        lemma_place_is(pairs, key, i);
    }
    if has_key(pairs, key) && value_of(pairs, key) == value {
        assert(pairs[place(pairs, key)] == (key, value));
    }
}

/// Exactly the pairs that meet the condition are left.
pub proof fn lemma_filtered<K, V>(
    pairs: Seq<(K, V)>,
    condition: spec_fn((K, V)) -> bool,
    pair: (K, V),
)
    ensures
        filtered(pairs, condition).contains(pair) <==> pairs.contains(pair) && condition(pair),
    decreases pairs.len(),
{
    if pairs.len() > 0 {
        let front = pairs.drop_last();
        let rest = filtered(front, condition);
        let all = filtered(pairs, condition);
        lemma_filtered(front, condition, pair);
        if pairs.contains(pair) {
            let i = choose|i: int| 0 <= i < pairs.len() && pairs[i] == pair;
            if i < front.len() {
                assert(front[i] == pair);
            }
        }
        if front.contains(pair) {
            let i = choose|i: int| 0 <= i < front.len() && front[i] == pair;
            assert(pairs[i] == pair);
        }
        assert(pairs[pairs.len() - 1] == pairs.last());
        if all.contains(pair) {
            let i = choose|i: int| 0 <= i < all.len() && all[i] == pair;
            if i < rest.len() {
                assert(rest[i] == pair);
            }
        }
        if rest.contains(pair) {
            let i = choose|i: int| 0 <= i < rest.len() && rest[i] == pair;
            assert(all[i] == pair);
        }
        if condition(pairs.last()) {
            assert(all[rest.len() as int] == pairs.last());
        }
    }
}

/// Exactly the pairs of other keys are left.
pub proof fn lemma_drop_key<K, V>(pairs: Seq<(K, V)>, key: K, pair: (K, V))
    ensures
        drop_key(pairs, key).contains(pair) <==> pairs.contains(pair) && pair.0 != key,
{
    lemma_filtered(pairs, |pair: (K, V)| pair.0 != key, pair);
}

/// What is left of pairs in which no key stands twice has no key twice.
pub proof fn lemma_filtered_unique<K, V>(pairs: Seq<(K, V)>, condition: spec_fn((K, V)) -> bool)
    requires
        unique_keys(pairs),
    ensures
        unique_keys(filtered(pairs, condition)),
    decreases pairs.len(),
{
    if pairs.len() > 0 {
        let front = pairs.drop_last();
        let rest = filtered(front, condition);
        let after = filtered(pairs, condition);
        assert(unique_keys(front)) by {
            assert forall|i: int, j: int| 0 <= i < j < front.len() implies (
            #[trigger] front[i]).0 != (#[trigger] front[j]).0 by {
                assert(front[i] == pairs[i] && front[j] == pairs[j]);
            }
        }
        lemma_filtered_unique(front, condition);
        if condition(pairs.last()) {
            assert forall|i: int, j: int| 0 <= i < j < after.len() implies (
            #[trigger] after[i]).0 != (#[trigger] after[j]).0 by {
                assert(after[i] == rest[i]);
                if j < rest.len() {
                    assert(after[j] == rest[j]);
                } else {
                    lemma_filtered(front, condition, rest[i]);
                    assert(rest.contains(rest[i]));
                    let p = choose|p: int| 0 <= p < front.len() && front[p] == rest[i];
                    assert(pairs[p] == front[p]);
                    assert(pairs[p].0 != pairs[pairs.len() - 1].0);
                }
            }
        }
    }
}

/// The pairs among entries, put one after the other.
pub open spec fn put_all<K, V>(entries: Seq<Option<(K, V)>>) -> Seq<(K, V)>
    decreases entries.len(),
{
    if entries.len() == 0 {
        Seq::empty()
    } else {
        match entries.last() {
            Some((key, value)) => put(put_all(entries.drop_last()), key, value),
            None => put_all(entries.drop_last()),
        }
    }
}

/// Whether an entry is a pair, and none after it has its key.
pub open spec fn is_last<K, V>(entries: Seq<Option<(K, V)>>, at: int, key: K, value: V) -> bool {
    &&& 0 <= at < entries.len()
    &&& entries[at] == Some((key, value))
    &&& forall|j: int|
        at < j < entries.len() && (#[trigger] entries[j]) is Some ==> (entries[j]->0).0 != key
}

/// Of pairs that are put one after the other, the last with each key is there, and no key twice.
pub proof fn lemma_put_all<K, V>(entries: Seq<Option<(K, V)>>, key: K, value: V)
    ensures
        unique_keys(put_all(entries)),
        put_all(entries).contains((key, value)) <==> exists|at: int| #[trigger]
            is_last(entries, at, key, value),
    decreases entries.len(),
{
    if entries.len() > 0 {
        let front = entries.drop_last();
        let rest = put_all(front);
        let all = put_all(entries);
        let n = entries.len() - 1;
        lemma_put_all(front, key, value);
        assert(entries[n] == entries.last());
        match entries.last() {
            Some((k, v)) => {
                lemma_put(rest, k, v, key);
                lemma_contains(rest, key, value);
                lemma_contains(all, key, value);
                if key == k {
                    if value == v {
                        assert(is_last(entries, n, key, value));
                    }
                    if exists|at: int| #[trigger] is_last(entries, at, key, value) {
                        let at = choose|at: int| #[trigger] is_last(entries, at, key, value);
                        assert(at == n);
                    }
                }
            },
            None => {},
        }
        if entries.last() is None || (entries.last()->0).0 != key {
            if exists|at: int| #[trigger] is_last(front, at, key, value) {
                let at = choose|at: int| #[trigger] is_last(front, at, key, value);
                assert forall|j: int|
                    at < j < entries.len() && (
                    #[trigger] entries[j]) is Some implies (entries[j]->0).0 != key by {
                    if j < n {
                        assert(front[j] == entries[j]);
                    }
                }
                assert(is_last(entries, at, key, value));
            }
            if exists|at: int| #[trigger] is_last(entries, at, key, value) {
                let at = choose|at: int| #[trigger] is_last(entries, at, key, value);
                assert(at < n);
                assert forall|j: int|
                    at < j < front.len() && (
                    #[trigger] front[j]) is Some implies (front[j]->0).0 != key by {
                    assert(front[j] == entries[j]);
                }
                assert(is_last(front, at, key, value));
            }
        }
    }
}

} // verus!
