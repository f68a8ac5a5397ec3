use crate::order::{bytes_lt, lemma_bytes_lt_irreflexive, lemma_bytes_lt_transitive};
use vstd::prelude::*;

verus! {

/// An ordered tree of the key-value backend: a map from byte strings to byte
/// strings, kept by the database behind it.
///
/// The contracts of this module take a tree as a value that changes through
/// the calls made here and through nothing else: a repository has one writer,
/// and a store is the only holder of its tree.
#[verifier::external_type_specification]
#[verifier::external_body]
pub struct ExTree(sled::Tree);

/// The records that a tree holds: its keys and the value under each.
pub uninterp spec fn tree_map(tree: sled::Tree) -> Map<Seq<u8>, Seq<u8>>;

/// Whether `entries` lists the records of `map`: every record once, in
/// ascending order of the keys.
pub open spec fn is_listing(entries: Seq<(Seq<u8>, Seq<u8>)>, map: Map<Seq<u8>, Seq<u8>>) -> bool {
    &&& forall|i: int|
        0 <= i < entries.len() ==> map.contains_key(#[trigger] entries[i].0) && map[entries[i].0]
            == entries[i].1
    &&& forall|i: int, j: int|
        0 <= i < j < entries.len() ==> bytes_lt(#[trigger] entries[i].0, #[trigger] entries[j].0)
    &&& forall|k: Seq<u8>|
        map.contains_key(k) ==> exists|i: int| 0 <= i < entries.len() && #[trigger] entries[i].0 == k
}

/// In a listing, a key of the map that is less than the key at `i` stands
/// before `i`.
pub proof fn lemma_listed_before(
    entries: Seq<(Seq<u8>, Seq<u8>)>,
    map: Map<Seq<u8>, Seq<u8>>,
    i: int,
    key: Seq<u8>,
) -> (m: int)
    requires
        is_listing(entries, map),
        0 <= i < entries.len(),
        map.contains_key(key),
        bytes_lt(key, entries[i].0),
    ensures
        0 <= m < i,
        entries[m].0 == key,
{
    let m = choose|m: int| 0 <= m < entries.len() && #[trigger] entries[m].0 == key;
    if m == i {
        lemma_bytes_lt_irreflexive(key);
    } else if m > i {
        assert(bytes_lt(entries[i].0, entries[m].0));
        lemma_bytes_lt_transitive(key, entries[i].0, key);
        lemma_bytes_lt_irreflexive(key);
    }
    m
}

/// A map holds as many records as a listing of it lists.
pub proof fn lemma_listing_counts(entries: Seq<(Seq<u8>, Seq<u8>)>, map: Map<Seq<u8>, Seq<u8>>)
    requires
        is_listing(entries, map),
    ensures
        holds_count(map, entries.len()),
{
    let keys = Seq::new(entries.len(), |i: int| entries[i].0);
    assert forall|i: int, j: int| 0 <= i < keys.len() && 0 <= j < keys.len() && i != j implies keys[i]
        != keys[j] by {
        lemma_bytes_lt_irreflexive(keys[i]);
        if i < j {
            assert(bytes_lt(entries[i].0, entries[j].0));
        } else {
            assert(bytes_lt(entries[j].0, entries[i].0));
        }
    }
    keys.unique_seq_to_set();
    assert forall|k: Seq<u8>| keys.to_set().contains(k) <==> map.dom().contains(k) by {
        if keys.to_set().contains(k) {
            let i = choose|i: int| 0 <= i < keys.len() && keys[i] == k;
            assert(map.contains_key(entries[i].0));
        }
        if map.contains_key(k) {
            let i = choose|i: int| 0 <= i < entries.len() && #[trigger] entries[i].0 == k;
            assert(keys[i] == k);
        }
    }
    assert(keys.to_set() =~= map.dom());
}

/// Whether `map` holds `n` records.
pub open spec fn holds_count(map: Map<Seq<u8>, Seq<u8>>, n: nat) -> bool {
    map.dom().finite() && map.dom().len() == n
}

/// `sled::Tree::get`: the value under `key`, if the tree holds the key.
#[verifier::external_body]
pub(crate) fn tree_get(tree: &sled::Tree, key: &[u8]) -> (r: Result<Option<Vec<u8>>, sled::Error>)
    ensures
        r matches Ok(found) ==> match found {
            Some(v) => tree_map(*tree).contains_key(key@) && tree_map(*tree)[key@] == v@,
            None => !tree_map(*tree).contains_key(key@),
        },
{
    match tree.get(key) {
        Ok(found) => Ok(found.map(|v| v.to_vec())),
        Err(e) => Err(e),
    }
}

/// `sled::Tree::insert`: puts `value` under `key` and returns the value that
/// stood there. After an error nothing is known of the tree.
#[verifier::external_body]
pub(crate) fn tree_insert(tree: &mut sled::Tree, key: &[u8], value: Vec<u8>) -> (r: Result<
    Option<Vec<u8>>,
    sled::Error,
>)
    ensures
        r matches Ok(previous) ==> tree_map(*final(tree)) == tree_map(*old(tree)).insert(
            key@,
            value@,
        ) && match previous {
            Some(v) => tree_map(*old(tree)).contains_key(key@) && tree_map(*old(tree))[key@] == v@,
            None => !tree_map(*old(tree)).contains_key(key@),
        },
{
    match tree.insert(key, value) {
        Ok(previous) => Ok(previous.map(|v| v.to_vec())),
        Err(e) => Err(e),
    }
}

/// `sled::Tree::remove`: takes `key` out and returns the value that stood
/// there. After an error nothing is known of the tree.
#[verifier::external_body]
pub(crate) fn tree_remove(tree: &mut sled::Tree, key: &[u8]) -> (r: Result<
    Option<Vec<u8>>,
    sled::Error,
>)
    ensures
        r matches Ok(previous) ==> tree_map(*final(tree)) == tree_map(*old(tree)).remove(key@)
            && match previous {
            Some(v) => tree_map(*old(tree)).contains_key(key@) && tree_map(*old(tree))[key@] == v@,
            None => !tree_map(*old(tree)).contains_key(key@),
        },
{
    match tree.remove(key) {
        Ok(previous) => Ok(previous.map(|v| v.to_vec())),
        Err(e) => Err(e),
    }
}

/// `sled::Tree::len`: what a full scan of the tree counts. The scan counts
/// the records it meets and the errors it meets, so nothing is promised of
/// the number: where the number is built on, the records are counted with
/// `tree_entries`.
#[verifier::external_body]
pub(crate) fn tree_len(tree: &sled::Tree) -> usize {
    tree.len()
}

/// `sled::Tree::iter`, run to its end: the records in ascending order of
/// their keys, or the first error that the scan met.
#[verifier::external_body]
pub(crate) fn tree_entries(tree: &sled::Tree) -> (r: Result<Vec<(Vec<u8>, Vec<u8>)>, sled::Error>)
    ensures
        r matches Ok(entries) ==> is_listing(entries.deep_view(), tree_map(*tree)),
{
    let mut entries: Vec<(Vec<u8>, Vec<u8>)> = Vec::new();
    for item in tree.iter() {
        let (key, value) = item?;
        entries.push((key.to_vec(), value.to_vec()));
    }
    Ok(entries)
}

} // verus!
