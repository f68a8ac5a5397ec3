use vstd::prelude::*;

verus! {

/// The number of references that `map` counts for `key`: none where the key
/// is absent.
pub open spec fn rc_count<V>(map: Map<Seq<u8>, (nat, V)>, key: Seq<u8>) -> nat {
    if map.contains_key(key) {
        map[key].0
    } else {
        0
    }
}

/// What a store returns for `key`: the count and the payload, if it holds
/// the key.
pub open spec fn rc_get<V>(map: Map<Seq<u8>, (nat, V)>, key: Seq<u8>) -> Option<(nat, V)> {
    if map.contains_key(key) {
        Some(map[key])
    } else {
        None
    }
}

/// The store after one more reference to `payload` under `key`: a new record
/// with count one, or the count of the record raised by one.
pub open spec fn rc_insert<V>(map: Map<Seq<u8>, (nat, V)>, key: Seq<u8>, payload: V) -> Map<
    Seq<u8>,
    (nat, V),
> {
    map.insert(key, (rc_count(map, key) + 1, payload))
}

/// The store after one more reference to `key`, where a record keeps the
/// payload it has and a new record takes `fresh`.
pub open spec fn rc_insert_keeping<V>(map: Map<Seq<u8>, (nat, V)>, key: Seq<u8>, fresh: V) -> Map<
    Seq<u8>,
    (nat, V),
> {
    if map.contains_key(key) {
        map.insert(key, (map[key].0 + 1, map[key].1))
    } else {
        map.insert(key, (1, fresh))
    }
}

/// The store after one reference to `key` was given up: the record leaves
/// with its last reference.
pub open spec fn rc_remove<V>(map: Map<Seq<u8>, (nat, V)>, key: Seq<u8>) -> Map<Seq<u8>, (nat, V)> {
    if !map.contains_key(key) {
        map
    } else if map[key].0 <= 1 {
        map.remove(key)
    } else {
        map.insert(key, ((map[key].0 - 1) as nat, map[key].1))
    }
}

/// What giving up one reference to `key` returns: the count that is left,
/// zero for the last reference, and the payload; nothing for an absent key.
pub open spec fn rc_removed<V>(map: Map<Seq<u8>, (nat, V)>, key: Seq<u8>) -> Option<(nat, V)> {
    if !map.contains_key(key) {
        None
    } else if map[key].0 <= 1 {
        Some((0, map[key].1))
    } else {
        Some(((map[key].0 - 1) as nat, map[key].1))
    }
}

/// How often `key` stands in `keys`.
pub open spec fn occurrences(keys: Seq<Seq<u8>>, key: Seq<u8>) -> nat
    decreases keys.len(),
{
    if keys.len() == 0 {
        0
    } else {
        occurrences(keys.drop_last(), key) + if keys.last() == key {
            1nat
        } else {
            0nat
        }
    }
}

/// A key stands in a sequence at most as often as the sequence is long, and
/// at least once exactly if the sequence contains it.
pub proof fn lemma_occurrences(keys: Seq<Seq<u8>>, key: Seq<u8>)
    ensures
        occurrences(keys, key) <= keys.len(),
        occurrences(keys, key) > 0 <==> keys.contains(key),
    decreases keys.len(),
{
    if keys.len() > 0 {
        lemma_occurrences(keys.drop_last(), key);
        if keys.last() == key {
            assert(keys[keys.len() - 1] == key);
        } else if keys.contains(key) {
            let i = choose|i: int| 0 <= i < keys.len() && keys[i] == key;
            assert(keys.drop_last()[i] == key);
        }
        if keys.drop_last().contains(key) {
            let i = choose|i: int| 0 <= i < keys.drop_last().len() && keys.drop_last()[i] == key;
            assert(keys[i] == key);
        }
    }
}

/// One more key at the end of a sequence is one more occurrence of that key
/// and of no other.
pub proof fn lemma_occurrences_push(keys: Seq<Seq<u8>>, done: int, key: Seq<u8>)
    requires
        0 <= done < keys.len(),
    ensures
        occurrences(keys.take(done + 1), key) == occurrences(keys.take(done), key) + if keys[done]
            == key {
            1nat
        } else {
            0nat
        },
{
    assert(keys.take(done + 1).drop_last() =~= keys.take(done));
    assert(keys.take(done + 1).last() == keys[done]);
}

/// The store after `n` references to `payload` under `key`.
pub open spec fn rc_insert_times<V>(
    map: Map<Seq<u8>, (nat, V)>,
    key: Seq<u8>,
    payload: V,
    n: nat,
) -> Map<Seq<u8>, (nat, V)>
    decreases n,
{
    if n == 0 {
        map
    } else {
        rc_insert(rc_insert_times(map, key, payload, (n - 1) as nat), key, payload)
    }
}

/// The store after `n` references to `key` were given up.
pub open spec fn rc_remove_times<V>(map: Map<Seq<u8>, (nat, V)>, key: Seq<u8>, n: nat) -> Map<
    Seq<u8>,
    (nat, V),
>
    decreases n,
{
    if n == 0 {
        map
    } else {
        rc_remove(rc_remove_times(map, key, (n - 1) as nat), key)
    }
}

/// Inserting a payload `n` times raises its count by `n` and leaves every
/// other record as it was: into a store without the key, `n` inserts give
/// the count `n`.
pub proof fn lemma_insert_counts<V>(map: Map<Seq<u8>, (nat, V)>, key: Seq<u8>, payload: V, n: nat)
    requires
        n >= 1,
    ensures
        rc_get(rc_insert_times(map, key, payload, n), key) == Some(
            (rc_count(map, key) + n, payload),
        ),
        rc_insert_times(map, key, payload, n).remove(key) == map.remove(key),
    decreases n,
{
    if n > 1 {
        lemma_insert_counts(map, key, payload, (n - 1) as nat);
    }
    let before = rc_insert_times(map, key, payload, (n - 1) as nat);
    assert(rc_insert(before, key, payload).remove(key) =~= before.remove(key));
}

/// Giving up fewer references than a record counts lowers its count and
/// keeps the record.
pub proof fn lemma_remove_counts<V>(map: Map<Seq<u8>, (nat, V)>, key: Seq<u8>, n: nat)
    requires
        map.contains_key(key),
        n < map[key].0,
    ensures
        rc_get(rc_remove_times(map, key, n), key) == Some(((map[key].0 - n) as nat, map[key].1)),
        rc_remove_times(map, key, n).remove(key) == map.remove(key),
    decreases n,
{
    if n > 0 {
        lemma_remove_counts(map, key, (n - 1) as nat);
        let before = rc_remove_times(map, key, (n - 1) as nat);
        assert(rc_remove(before, key).remove(key) =~= before.remove(key));
    }
}

/// As many removes as inserts delete the record again: after `n` inserts
/// into a store without the key, the `n`-th remove returns the count zero,
/// and the store is what it was before.
pub proof fn lemma_insert_remove_symmetry<V>(
    map: Map<Seq<u8>, (nat, V)>,
    key: Seq<u8>,
    payload: V,
    n: nat,
)
    requires
        n >= 1,
        !map.contains_key(key),
    ensures
        rc_removed(
            rc_remove_times(rc_insert_times(map, key, payload, n), key, (n - 1) as nat),
            key,
        ) == Some((0nat, payload)),
        rc_remove_times(rc_insert_times(map, key, payload, n), key, n) == map,
{
    let full = rc_insert_times(map, key, payload, n);
    lemma_insert_counts(map, key, payload, n);
    lemma_remove_counts(full, key, (n - 1) as nat);
    let last = rc_remove_times(full, key, (n - 1) as nat);
    assert(last.contains_key(key) && last[key].0 == 1);
    assert(rc_remove(last, key) =~= last.remove(key));
    assert(map.remove(key) =~= map);
}

/// After a purge the store returns nothing for the key, whatever its count
/// was.
pub proof fn lemma_purge_forgets<V>(map: Map<Seq<u8>, (nat, V)>, key: Seq<u8>)
    ensures
        rc_get(map.remove(key), key) is None,
{
}

} // verus!
