use backrub::db::{seal_rc_entry, InodeDb, RcDb, RcDbEntry};
use backrub::error::{BackrubError, CorruptionKind, RepoError};
use backrub::inode::{Directory, File, Inode, Metadata, Symlink};
use backrub::structs::{Backup, Chunk, Hash256, Key256};
use backrub::traits::{encrypt_bytes, keyed_hash, Encrypt, Hashable};

fn temporary_db() -> sled::Db {
    sled::Config::new().temporary(true).open().unwrap()
}

fn keys() -> (Key256, Key256) {
    (Key256::from([0x11u8; 32]), Key256::from([0x22u8; 32]))
}

fn chunk(text: &[u8]) -> Chunk {
    Chunk { data: text.to_vec() }
}

fn sample_file() -> Inode {
    Inode::File(File {
        relpath: b"dir/file.txt".to_vec(),
        chunk_ids: vec![Hash256::from([1u8; 32]), Hash256::from([2u8; 32])],
        metadata: Metadata { mode: 0o644, uid: 1000, gid: 100, mtime: 1, mtime_ns: 2, ctime: -3, ctime_ns: 4 },
        file_hash: Hash256::from([3u8; 32]),
    })
}

#[test]
fn n_inserts_give_count_n_and_the_same_key() {
    let (enc, hk) = keys();
    let db = temporary_db();
    let mut store = RcDb::<Chunk>::new(db.open_tree(b"t").unwrap(), enc, hk).unwrap();
    let value = chunk(b"value");
    let expected_key = value.keyed_hash(&hk).unwrap();
    for n in 1..=20usize {
        assert_eq!(store.insert(value.clone()).unwrap(), (n, expected_key));
    }
    assert_eq!(store.len(), 1);
    assert_eq!(store.get_ref_count(&expected_key).unwrap(), Some(20));
    assert_eq!(store.get_data(&expected_key).unwrap(), Some(value.clone()));
    assert_eq!(store.get_data_db_entry(&expected_key).unwrap(), Some((20, value)));
}

#[test]
fn key_is_the_keyed_hash_of_the_serialization() {
    let (enc, hk) = keys();
    let db = temporary_db();
    let mut store = RcDb::<Chunk>::new(db.open_tree(b"t").unwrap(), enc, hk).unwrap();
    let (_, key) = store.insert(chunk(b"abc")).unwrap();
    let mut serialized = 3u64.to_le_bytes().to_vec();
    serialized.extend_from_slice(b"abc");
    assert_eq!(key, keyed_hash(&serialized, &hk));
    assert_eq!(key, Hash256::from(*blake3::keyed_hash(&hk.0, &serialized).as_bytes()));
}

#[test]
fn as_many_removes_as_inserts_delete_the_record() {
    let (enc, hk) = keys();
    let db = temporary_db();
    let mut store = RcDb::<Chunk>::new(db.open_tree(b"t").unwrap(), enc, hk).unwrap();
    let value = chunk(b"value");
    let other = chunk(b"other");
    let (_, other_key) = store.insert(other.clone()).unwrap();
    let mut key = Hash256::from([0u8; 32]);
    for _ in 0..5 {
        key = store.insert(value.clone()).unwrap().1;
    }
    for left in (1..5usize).rev() {
        assert_eq!(store.remove(&key).unwrap(), Some((left, value.clone())));
        assert_eq!(store.get_ref_count(&key).unwrap(), Some(left));
    }
    assert_eq!(store.remove(&key).unwrap(), Some((0, value.clone())));
    assert_eq!(store.get_data_db_entry(&key).unwrap(), None);
    assert_eq!(store.remove(&key).unwrap(), None);
    assert_eq!(store.len(), 1);
    assert_eq!(store.get_data_db_entry(&other_key).unwrap(), Some((1, other)));
}

#[test]
fn purge_forgets_whatever_the_count() {
    let (enc, hk) = keys();
    let db = temporary_db();
    let mut store = RcDb::<Chunk>::new(db.open_tree(b"t").unwrap(), enc, hk).unwrap();
    let value = chunk(b"value");
    let mut key = Hash256::from([0u8; 32]);
    for _ in 0..7 {
        key = store.insert(value.clone()).unwrap().1;
    }
    assert_eq!(store.purge(&key).unwrap(), Some((7, value.clone())));
    assert_eq!(store.get_data_db_entry(&key).unwrap(), None);
    assert_eq!(store.get_data(&key).unwrap(), None);
    assert_eq!(store.get_ref_count(&key).unwrap(), None);
    assert_eq!(store.purge(&key).unwrap(), None);
    assert_eq!(store.len(), 0);
    assert_eq!(store.insert(value).unwrap(), (1, key));
}

#[test]
fn listing_is_in_ascending_order_of_the_keys() {
    let (enc, hk) = keys();
    let db = temporary_db();
    let mut store = RcDb::<Chunk>::new(db.open_tree(b"t").unwrap(), enc, hk).unwrap();
    let mut expected = Vec::new();
    for i in 0..50u8 {
        let value = chunk(&[i, i, i]);
        let (_, key) = store.insert(value.clone()).unwrap();
        let count = if i % 3 == 0 {
            store.insert(value.clone()).unwrap().0
        } else {
            1
        };
        expected.push((key, (count, value)));
    }
    expected.sort_by(|a, b| a.0.cmp(&b.0));
    let listed = store.get_mappings().unwrap();
    assert_eq!(listed.len(), 50);
    assert_eq!(listed, expected);
    for pair in listed.windows(2) {
        assert!(pair[0].0 .0 < pair[1].0 .0);
    }
}

#[test]
fn self_test_passes_on_what_the_store_wrote() {
    let (enc, hk) = keys();
    let db = temporary_db();
    let mut store = RcDb::<Chunk>::new(db.open_tree(b"t").unwrap(), enc, hk).unwrap();
    for i in 0..10u8 {
        store.insert(chunk(&[i])).unwrap();
    }
    store.self_test().unwrap();
    drop(store);
    let again = RcDb::<Chunk>::new(db.open_tree(b"t").unwrap(), enc, hk).unwrap();
    assert_eq!(again.len(), 10);
}

#[test]
fn self_test_fails_on_a_record_under_the_wrong_key() {
    let (enc, hk) = keys();
    let db = temporary_db();
    let tree = db.open_tree(b"t").unwrap();
    let mut store = RcDb::<Chunk>::new(db.open_tree(b"t").unwrap(), enc, hk).unwrap();
    let (_, key) = store.insert(chunk(b"value")).unwrap();
    store.self_test().unwrap();
    // the record of another value, moved under this key
    let moved = seal_rc_entry(&RcDbEntry { data: chunk(b"other"), ref_count: 1 }, &enc).unwrap();
    tree.insert(key.0, moved).unwrap();
    assert!(matches!(
        store.self_test(),
        Err(RepoError::BackrubError(BackrubError::SelfTestError))
    ));
    drop(store);
    assert!(matches!(
        RcDb::<Chunk>::new(db.open_tree(b"t").unwrap(), enc, hk),
        Err(RepoError::BackrubError(BackrubError::SelfTestError))
    ));
    // with another hash key no record stands under its key
    assert!(RcDb::<Chunk>::new(db.open_tree(b"t").unwrap(), enc, enc).is_err());
}

#[test]
fn self_test_fails_on_bad_keys_and_bad_records() {
    let (enc, hk) = keys();
    let db = temporary_db();
    let value = chunk(b"value");
    let sealed = seal_rc_entry(&RcDbEntry { data: value.clone(), ref_count: 1 }, &enc).unwrap();

    let tree = db.open_tree(b"short").unwrap();
    tree.insert(b"0123456789", sealed.clone()).unwrap();
    assert!(matches!(
        RcDb::<Chunk>::new(tree, enc, hk),
        Err(RepoError::BackrubError(BackrubError::SledKeyLengthError))
    ));

    let key = value.keyed_hash(&hk).unwrap();
    let tree = db.open_tree(b"garbage").unwrap();
    tree.insert(key.0, b"garbage".to_vec()).unwrap();
    assert!(matches!(
        RcDb::<Chunk>::new(tree, enc, hk),
        Err(RepoError::Corruption(CorruptionKind::Envelope, Some(_)))
    ));

    let tree = db.open_tree(b"foreign").unwrap();
    tree.insert(key.0, sealed.clone()).unwrap();
    assert!(matches!(
        RcDb::<Chunk>::new(tree, hk, hk),
        Err(RepoError::Corruption(CorruptionKind::Envelope, Some(_)))
    ));

    let tree = db.open_tree(b"norecord").unwrap();
    tree.insert(key.0, encrypt_bytes(b"abc", &enc).unwrap()).unwrap();
    assert!(matches!(
        RcDb::<Chunk>::new(tree, enc, hk),
        Err(RepoError::Corruption(CorruptionKind::Record, Some(_)))
    ));

    let tree = db.open_tree(b"good").unwrap();
    tree.insert(key.0, sealed).unwrap();
    let store = RcDb::<Chunk>::new(tree, enc, hk).unwrap();
    assert_eq!(store.get_data_db_entry(&key).unwrap(), Some((1, value)));
}

#[test]
fn stored_record_is_the_value_then_the_count() {
    let (enc, hk) = keys();
    let db = temporary_db();
    let tree = db.open_tree(b"t").unwrap();
    let mut store = RcDb::<Chunk>::new(db.open_tree(b"t").unwrap(), enc, hk).unwrap();
    let (_, key) = store.insert(chunk(b"abc")).unwrap();
    store.insert(chunk(b"abc")).unwrap();
    let stored = tree.get(key.0).unwrap().unwrap().to_vec();
    let plain = Vec::<u8>::decrypt(&stored, &enc).unwrap();
    let mut expected = 3u64.to_le_bytes().to_vec();
    expected.extend_from_slice(b"abc");
    expected.extend_from_slice(&2u64.to_le_bytes());
    assert_eq!(plain, expected);
    assert_eq!(plain, bincode::serialize(&(b"abc".to_vec(), 2usize)).unwrap());
}

#[test]
fn count_at_the_limit_of_the_word_is_not_raised_in_a_store() {
    let (enc, hk) = keys();
    let db = temporary_db();
    let tree = db.open_tree(b"t").unwrap();
    let value = chunk(b"value");
    let key = value.keyed_hash(&hk).unwrap();
    let full = seal_rc_entry(&RcDbEntry { data: value.clone(), ref_count: usize::MAX }, &enc).unwrap();
    tree.insert(key.0, full).unwrap();
    let mut store = RcDb::<Chunk>::new(db.open_tree(b"t").unwrap(), enc, hk).unwrap();
    assert!(matches!(store.insert(value.clone()), Err(RepoError::RefCountOverflow)));
    assert_eq!(store.remove(&key).unwrap(), Some((usize::MAX - 1, value)));
}

#[test]
fn inode_store_counts_equal_inodes_once() {
    let (enc, hk) = keys();
    let db = temporary_db();
    let mut store = InodeDb::new(db.open_tree(b"inodes").unwrap(), enc, hk).unwrap();
    let file = sample_file();
    let link = Inode::Symlink(Symlink {
        relpath: b"dir/link".to_vec(),
        target: b"file.txt".to_vec(),
        metadata: Metadata::default(),
    });
    let (c1, k1) = store.insert(file.clone()).unwrap();
    let (c2, k2) = store.insert(file.clone()).unwrap();
    let (c3, k3) = store.insert(link.clone()).unwrap();
    assert_eq!((c1, c2, c3), (1, 2, 1));
    assert_eq!(k1, k2);
    assert_ne!(k1, k3);
    assert_eq!(k1, file.keyed_hash(&hk).unwrap());
    let dir = Inode::Directory(Directory {
        relpath: b"dir".to_vec(),
        metadata: Metadata::default(),
        contents: vec![k1, k3],
    });
    let (_, k4) = store.insert(dir.clone()).unwrap();
    assert_eq!(store.len(), 3);
    store.self_test().unwrap();
    assert_eq!(store.get_inode(&k1).unwrap(), Some(file.clone()));
    assert_eq!(store.get_inode_db_entry(&k1).unwrap(), Some((2, file.clone())));
    assert_eq!(store.get_ref_count(&k3).unwrap(), Some(1));
    assert_eq!(store.get_inode(&k4).unwrap(), Some(dir));
    assert_eq!(store.get_inode(&Hash256::from([0u8; 32])).unwrap(), None);
    let listed = store.get_mappings().unwrap();
    assert_eq!(listed.len(), 3);
    for pair in listed.windows(2) {
        assert!(pair[0].0 < pair[1].0);
    }
    assert_eq!(store.remove(&k1).unwrap(), Some((1, file.clone())));
    assert_eq!(store.remove(&k1).unwrap(), Some((0, file)));
    assert_eq!(store.remove(&k1).unwrap(), None);
    assert_eq!(store.remove(&k3).unwrap(), Some((0, link)));
    assert_eq!(store.len(), 1);
}

#[test]
fn backup_records_are_stored_under_their_hash() {
    let (enc, hk) = keys();
    let db = temporary_db();
    let mut store = RcDb::<Backup>::new(db.open_tree(b"backups").unwrap(), enc, hk).unwrap();
    let backup = Backup {
        timestamp: String::from("2024-01-02T03:04:05.000000Z"),
        name: String::from("nightly \u{1F319}"),
        root: Hash256::from([9u8; 32]),
    };
    let (count, key) = store.insert(backup.clone()).unwrap();
    assert_eq!(count, 1);
    assert_eq!(key, backup.keyed_hash(&hk).unwrap());
    assert_eq!(store.get_data(&key).unwrap(), Some(backup));
}

#[test]
fn objects_are_counted_in_a_scan() {
    let (enc, hk) = keys();
    let db = temporary_db();
    let mut store = RcDb::<Chunk>::new(db.open_tree(b"counted").unwrap(), enc, hk).unwrap();
    assert_eq!(store.count().unwrap(), 0);
    store.insert(chunk(b"one")).unwrap();
    store.insert(chunk(b"two")).unwrap();
    store.insert(chunk(b"two")).unwrap();
    assert_eq!(store.count().unwrap(), 2);
    assert_eq!(store.len(), 2);
    let mut inodes = InodeDb::new(db.open_tree(b"inodes").unwrap(), enc, hk).unwrap();
    assert_eq!(inodes.count().unwrap(), 0);
    inodes.insert(sample_file()).unwrap();
    inodes.insert(sample_file()).unwrap();
    assert_eq!(inodes.count().unwrap(), 1);
    assert_eq!(inodes.len(), 1);
}
