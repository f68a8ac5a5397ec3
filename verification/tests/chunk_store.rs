#![allow(non_snake_case)]

use backrub::db::{seal_chunk_entry, ChunkDb, ChunkDbEntry, ChunkDbState};
use backrub::error::{BackrubError, CorruptionKind, RepoError};
use backrub::structs::{FilePathGen, Hash256, Key256};
use backrub::traits::{encrypt_bytes, Encrypt};

fn temporary_db() -> sled::Db {
    sled::Config::new().temporary(true).open().unwrap()
}

fn hash_of(text: &[u8]) -> Hash256 {
    Hash256::from(*blake3::hash(text).as_bytes())
}

#[test]
fn test_ChunkDb() {
    let key = Key256::from(*blake3::hash(b"foobar").as_bytes());
    let config = sled::Config::new().temporary(true);
    let db = config.open().unwrap();

    let mut cs = ChunkDb::new(db.open_tree(b"test").unwrap(), key).unwrap();
    let h1 = Hash256::from(*blake3::hash(b"foo").as_bytes());
    let h2 = Hash256::from(*blake3::hash(b"bar").as_bytes());
    let h3 = Hash256::from(*blake3::hash(b"baz").as_bytes());
    let h4 = Hash256::from(*blake3::hash(b"foobar").as_bytes());

    assert_eq!(cs.insert(&h1).unwrap(), (1, String::from("1.bin")));
    assert_eq!(cs.insert(&h2).unwrap(), (1, String::from("2.bin")));
    assert_eq!(cs.insert(&h3).unwrap(), (1, String::from("3.bin")));

    assert_eq!(cs.insert(&h2).unwrap(), (2, String::from("2.bin")));
    assert_eq!(cs.insert(&h3).unwrap(), (2, String::from("3.bin")));

    assert_eq!(cs.remove(&h1).unwrap(), Some((0, String::from("1.bin"))));
    assert_eq!(cs.remove(&h1).unwrap(), None);

    assert_eq!(cs.insert(&h4).unwrap(), (1, String::from("1.bin")));
}

#[test]
fn chunk_store_counts_and_lists() {
    let key = Key256::from([3u8; 32]);
    let db = temporary_db();
    let mut cs = ChunkDb::new(db.open_tree(b"chunks").unwrap(), key).unwrap();
    assert_eq!(cs.len(), 0);
    let (a, b, c) = (hash_of(b"a"), hash_of(b"b"), hash_of(b"c"));
    cs.insert(&a).unwrap();
    cs.insert(&b).unwrap();
    cs.insert(&b).unwrap();
    cs.insert(&c).unwrap();
    assert_eq!(cs.len(), 3);
    assert_eq!(cs.get_entry(&a).unwrap(), Some((1, String::from("1.bin"))));
    assert_eq!(cs.get_ref_count(&b).unwrap(), Some(2));
    assert_eq!(cs.get_file_name(&c).unwrap(), Some(String::from("3.bin")));
    assert_eq!(cs.get_entry(&hash_of(b"d")).unwrap(), None);
    assert_eq!(cs.get_ref_count(&hash_of(b"d")).unwrap(), None);
    assert_eq!(cs.get_file_name(&hash_of(b"d")).unwrap(), None);
    cs.self_test().unwrap();

    let listed = cs.get_mappings().unwrap();
    assert_eq!(listed.len(), 3);
    let mut expected = vec![
        (a, (1usize, String::from("1.bin"))),
        (b, (2usize, String::from("2.bin"))),
        (c, (1usize, String::from("3.bin"))),
    ];
    expected.sort();
    assert_eq!(listed, expected);
    for pair in listed.windows(2) {
        assert!(pair[0].0 < pair[1].0);
    }

    assert_eq!(cs.remove(&b).unwrap(), Some((1, String::from("2.bin"))));
    assert_eq!(cs.remove(&b).unwrap(), Some((0, String::from("2.bin"))));
    assert_eq!(cs.len(), 2);
    assert_eq!(cs.state().unused_paths, vec![String::from("2.bin")]);
    assert_eq!(cs.state().path_gen, FilePathGen(3));
}

#[test]
fn stored_chunk_records_are_sealed() {
    let key = Key256::from([3u8; 32]);
    let db = temporary_db();
    let tree = db.open_tree(b"chunks").unwrap();
    let mut cs = ChunkDb::new(db.open_tree(b"chunks").unwrap(), key).unwrap();
    let h = hash_of(b"a");
    cs.insert(&h).unwrap();
    let stored = tree.get(h.0).unwrap().unwrap().to_vec();
    let entry = ChunkDbEntry::decrypt(&stored, &key).unwrap();
    assert_eq!(entry, ChunkDbEntry { ref_count: 1, file_name: String::from("1.bin") });
    // a count, the length of the name, the name: behind nonce, length and tag
    assert_eq!(stored.len(), 24 + 8 + (8 + 8 + 5) + 16);
    assert!(ChunkDbEntry::decrypt(&stored, &Key256::from([4u8; 32])).is_err());
}

#[test]
fn chunk_store_must_start_empty() {
    let db = temporary_db();
    let tree = db.open_tree(b"chunks").unwrap();
    tree.insert(b"key", b"value".to_vec()).unwrap();
    let r = ChunkDb::new(db.open_tree(b"chunks").unwrap(), Key256::from([0u8; 32]));
    assert!(matches!(r, Err(RepoError::BackrubError(BackrubError::SledTreeNotEmpty))));
}

#[test]
fn restored_chunk_store_goes_on_where_it_was() {
    let key = Key256::from([8u8; 32]);
    let db = temporary_db();
    let mut cs = ChunkDb::new(db.open_tree(b"chunks").unwrap(), key).unwrap();
    let (a, b) = (hash_of(b"a"), hash_of(b"b"));
    cs.insert(&a).unwrap();
    cs.insert(&b).unwrap();
    cs.remove(&a).unwrap();
    let state = cs.state().clone();
    assert_eq!(state, ChunkDbState { unused_paths: vec![String::from("1.bin")], path_gen: FilePathGen(2) });
    drop(cs);

    let mut again = ChunkDb::restore(db.open_tree(b"chunks").unwrap(), key, state).unwrap();
    assert_eq!(again.len(), 1);
    assert_eq!(again.get_entry(&b).unwrap(), Some((1, String::from("2.bin"))));
    assert_eq!(again.insert(&hash_of(b"c")).unwrap(), (1, String::from("1.bin")));
    assert_eq!(again.insert(&hash_of(b"d")).unwrap(), (1, String::from("3.bin")));
}

#[test]
fn restore_refuses_a_key_of_the_wrong_width() {
    let key = Key256::from([8u8; 32]);
    let db = temporary_db();
    let tree = db.open_tree(b"chunks").unwrap();
    let sealed = seal_chunk_entry(
        &ChunkDbEntry { ref_count: 1, file_name: String::from("1.bin") },
        &key,
    )
    .unwrap();
    tree.insert(b"short", sealed).unwrap();
    let r = ChunkDb::restore(db.open_tree(b"chunks").unwrap(), key, ChunkDbState::new());
    assert!(matches!(r, Err(RepoError::BackrubError(BackrubError::SledKeyLengthError))));
}

#[test]
fn restore_refuses_a_record_that_does_not_open() {
    let key = Key256::from([8u8; 32]);
    let db = temporary_db();
    let tree = db.open_tree(b"chunks").unwrap();
    let h = hash_of(b"a");
    tree.insert(h.0, vec![1u8, 2, 3]).unwrap();
    match ChunkDb::restore(db.open_tree(b"chunks").unwrap(), key, ChunkDbState::new()) {
        Err(RepoError::Corruption(CorruptionKind::Envelope, Some(k))) => assert_eq!(k, h.0.to_vec()),
        other => panic!("unexpected: {:?}", other.map(|_| ())),
    }
}

#[test]
fn unreadable_records_are_reported_and_left_alone() {
    let key = Key256::from([8u8; 32]);
    let db = temporary_db();
    let tree = db.open_tree(b"chunks").unwrap();
    let mut cs = ChunkDb::new(db.open_tree(b"chunks").unwrap(), key).unwrap();
    let (a, b) = (hash_of(b"a"), hash_of(b"b"));
    // sealed with another key
    let foreign = seal_chunk_entry(
        &ChunkDbEntry { ref_count: 1, file_name: String::from("9.bin") },
        &Key256::from([9u8; 32]),
    )
    .unwrap();
    tree.insert(a.0, foreign.clone()).unwrap();
    // opens, but holds no chunk record
    let no_record = encrypt_bytes(b"abc", &key).unwrap();
    tree.insert(b.0, no_record.clone()).unwrap();

    assert!(matches!(cs.insert(&a), Err(RepoError::Corruption(CorruptionKind::Envelope, Some(_)))));
    assert!(matches!(cs.remove(&a), Err(RepoError::Corruption(CorruptionKind::Envelope, Some(_)))));
    assert!(matches!(cs.get_entry(&a), Err(RepoError::Corruption(CorruptionKind::Envelope, Some(_)))));
    assert!(matches!(cs.insert(&b), Err(RepoError::Corruption(CorruptionKind::Record, Some(_)))));
    assert!(matches!(cs.get_ref_count(&b), Err(RepoError::Corruption(CorruptionKind::Record, Some(_)))));
    assert!(cs.self_test().is_err());
    assert!(cs.get_mappings().is_err());
    assert_eq!(tree.get(a.0).unwrap().unwrap().to_vec(), foreign);
    assert_eq!(tree.get(b.0).unwrap().unwrap().to_vec(), no_record);
    // no path was taken for the failed inserts
    assert_eq!(cs.state().path_gen, FilePathGen(0));
    assert_eq!(cs.insert(&hash_of(b"c")).unwrap(), (1, String::from("1.bin")));
}

#[test]
fn chunk_store_without_paths_is_exhausted() {
    let key = Key256::from([8u8; 32]);
    let db = temporary_db();
    let state = ChunkDbState { unused_paths: Vec::new(), path_gen: FilePathGen(u64::MAX - 1) };
    let mut cs = ChunkDb::restore(db.open_tree(b"chunks").unwrap(), key, state).unwrap();
    assert_eq!(
        cs.insert(&hash_of(b"a")).unwrap(),
        (1, String::from("ff/ff/ff/ff/ff/ff/ff/ff.bin"))
    );
    assert!(matches!(cs.insert(&hash_of(b"b")), Err(RepoError::Exhausted)));
    assert_eq!(cs.len(), 1);
    // a reference to a known chunk needs no path
    assert_eq!(cs.insert(&hash_of(b"a")).unwrap().0, 2);
    // and a path that comes back can be used
    cs.remove(&hash_of(b"a")).unwrap();
    cs.remove(&hash_of(b"a")).unwrap();
    assert_eq!(
        cs.insert(&hash_of(b"b")).unwrap(),
        (1, String::from("ff/ff/ff/ff/ff/ff/ff/ff.bin"))
    );
}

#[test]
fn count_at_the_limit_of_the_word_is_not_raised() {
    let key = Key256::from([8u8; 32]);
    let db = temporary_db();
    let tree = db.open_tree(b"chunks").unwrap();
    let mut cs = ChunkDb::new(db.open_tree(b"chunks").unwrap(), key).unwrap();
    let h = hash_of(b"a");
    let full = seal_chunk_entry(
        &ChunkDbEntry { ref_count: usize::MAX, file_name: String::from("1.bin") },
        &key,
    )
    .unwrap();
    tree.insert(h.0, full).unwrap();
    assert!(matches!(cs.insert(&h), Err(RepoError::RefCountOverflow)));
    assert_eq!(cs.get_ref_count(&h).unwrap(), Some(usize::MAX));
    assert_eq!(cs.remove(&h).unwrap(), Some((usize::MAX - 1, String::from("1.bin"))));
}

#[test]
fn record_with_count_zero_is_deleted_by_a_remove() {
    let key = Key256::from([8u8; 32]);
    let db = temporary_db();
    let tree = db.open_tree(b"chunks").unwrap();
    let mut cs = ChunkDb::new(db.open_tree(b"chunks").unwrap(), key).unwrap();
    let h = hash_of(b"a");
    let zero = seal_chunk_entry(
        &ChunkDbEntry { ref_count: 0, file_name: String::from("5.bin") },
        &key,
    )
    .unwrap();
    tree.insert(h.0, zero.clone()).unwrap();
    assert_eq!(cs.insert(&h).unwrap(), (1, String::from("5.bin")));
    tree.insert(h.0, zero).unwrap();
    assert_eq!(cs.remove(&h).unwrap(), Some((0, String::from("5.bin"))));
    assert_eq!(cs.len(), 0);
}

#[test]
fn chunks_are_counted_in_a_scan() {
    let db = temporary_db();
    let mut store = ChunkDb::new(db.open_tree(b"counted").unwrap(), Key256::from([5u8; 32])).unwrap();
    assert_eq!(store.count().unwrap(), 0);
    store.insert(&hash_of(b"one")).unwrap();
    store.insert(&hash_of(b"two")).unwrap();
    store.insert(&hash_of(b"one")).unwrap();
    assert_eq!(store.count().unwrap(), 2);
    assert_eq!(store.len(), 2);
    store.remove(&hash_of(b"two")).unwrap();
    assert_eq!(store.count().unwrap(), 1);
    assert_eq!(store.len(), 1);
}
