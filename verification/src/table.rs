//! Lists of key-value pairs read as maps: of two pairs with one key, the
//! later one counts.

use vstd::prelude::*;

verus! {

/// The map that a list of pairs stands for.
pub open spec fn pairs_map<K, V>(pairs: Seq<(K, V)>) -> Map<K, V>
    decreases pairs.len(),
{
    if pairs.len() == 0 {
        Map::empty()
    } else {
        pairs_map(pairs.drop_last()).insert(pairs.last().0, pairs.last().1)
    }
}

/// No pair from position `from` on has the key `key`.
pub open spec fn absent_from<K, V>(pairs: Seq<(K, V)>, key: K, from: int) -> bool {
    forall|j: int| from <= j < pairs.len() ==> (#[trigger] pairs[j]).0 != key
}

/// A pair added at the end is an insertion into the map.
pub proof fn lemma_pairs_push<K, V>(pairs: Seq<(K, V)>, key: K, value: V)
    ensures
        pairs_map(pairs.push((key, value))) == pairs_map(pairs).insert(key, value),
{
    assert(pairs.push((key, value)).drop_last() =~= pairs);
}

/// The map has finitely many keys.
pub proof fn lemma_pairs_finite<K, V>(pairs: Seq<(K, V)>)
    ensures
        pairs_map(pairs).dom().finite(),
    decreases pairs.len(),
{
    if pairs.len() > 0 {
        lemma_pairs_finite(pairs.drop_last());
    }
}

/// A key that no pair has is not in the map.
pub proof fn lemma_pairs_absent<K, V>(pairs: Seq<(K, V)>, key: K)
    requires
        absent_from(pairs, key, 0),
    ensures
        !pairs_map(pairs).contains_key(key),
    decreases pairs.len(),
{
    if pairs.len() > 0 {
        let front = pairs.drop_last();
        lemma_pairs_absent(front, key);
    }
}

/// The last pair with a key gives the key's value.
pub proof fn lemma_pairs_found<K, V>(pairs: Seq<(K, V)>, at: int)
    requires
        0 <= at < pairs.len(),
        absent_from(pairs, pairs[at].0, at + 1),
    ensures
        pairs_map(pairs).contains_key(pairs[at].0),
        pairs_map(pairs)[pairs[at].0] == pairs[at].1,
    decreases pairs.len(),
{
    if at < pairs.len() - 1 {
        let front = pairs.drop_last();
        let key = pairs[at].0;
        lemma_pairs_found(front, at);
    }
}

/// Replacing the value in the last pair with a key is an insertion into the map.
pub proof fn lemma_pairs_update<K, V>(pairs: Seq<(K, V)>, at: int, value: V)
    requires
        0 <= at < pairs.len(),
        absent_from(pairs, pairs[at].0, at + 1),
    ensures
        pairs_map(pairs.update(at, (pairs[at].0, value))) == pairs_map(pairs).insert(
            pairs[at].0,
            value,
        ),
    decreases pairs.len(),
{
    let key = pairs[at].0;
    let updated = pairs.update(at, (key, value));
    let front = pairs.drop_last();
    if at == pairs.len() - 1 {
        assert(updated.drop_last() =~= front);
    } else {
        lemma_pairs_update(front, at, value);
        assert(updated.drop_last() =~= front.update(at, (key, value)));
    }
}

} // verus!
