use backrub::db::ChunkDbState;
use backrub::error::{BackrubError, CorruptionKind, RepoError};
use backrub::inode::{Directory, File, Inode, Metadata};
use backrub::keys::{Argon2Conf, ARGON2ID, ARGON2_VERSION_13};
use backrub::manager::{BackupManager, BackupManagerConf};
use backrub::manifest::SignedManifest;
use backrub::structs::{Backup, ChunkerConf, FilePathGen, Hash256};
use backrub::traits::{decrypt_bytes, keyed_hash, Hashable};
use backrub::utils::chunk_and_hash;
use std::collections::HashMap;

fn light_conf() -> Argon2Conf {
    Argon2Conf { threads: 1, mem_cost: 8, time_cost: 1, variant: ARGON2ID, version: ARGON2_VERSION_13 }
}

fn config(chunker_conf: ChunkerConf) -> BackupManagerConf {
    let mut conf = BackupManagerConf::new_in("/repo");
    conf.chunker_conf = chunker_conf;
    conf.argon2_conf = light_conf();
    conf
}

fn tiny() -> ChunkerConf {
    ChunkerConf { minimum_chunk_size: 4, average_chunk_size: 16, maximum_chunk_size: 64 }
}

fn temporary_db() -> sled::Db {
    sled::Config::new().temporary(true).open().unwrap()
}

fn create(db: &sled::Db, password: &str, chunker_conf: ChunkerConf) -> BackupManager {
    BackupManager::new(
        config(chunker_conf),
        password,
        String::from("0.1.0"),
        false,
        db.open_tree(b"inodes").unwrap(),
        db.open_tree(b"chunks").unwrap(),
        db.open_tree(b"backups").unwrap(),
    )
    .unwrap()
}

fn open(db: &sled::Db, signed: &SignedManifest, password: &str) -> Result<BackupManager, RepoError> {
    BackupManager::initialize_backup_manager(
        signed,
        password,
        true,
        db.open_tree(b"inodes").unwrap(),
        db.open_tree(b"chunks").unwrap(),
        db.open_tree(b"backups").unwrap(),
    )
}

fn pseudo_random(len: usize, seed: u64) -> Vec<u8> {
    let mut state = seed;
    let mut out = Vec::with_capacity(len);
    for _ in 0..len {
        state = state.wrapping_mul(6364136223846793005).wrapping_add(1442695040888963407);
        out.push((state >> 33) as u8);
    }
    out
}

#[test]
fn configuration_of_a_repository_in_a_directory() {
    let conf = BackupManagerConf::new_in("/srv/backup");
    assert_eq!(conf.chunk_root_dir, "/srv/backup/data");
    assert_eq!(conf.db_path, "/srv/backup/backrub.db");
    assert_eq!(conf.manifest_path, "/srv/backup/backrub.manifest");
    assert_eq!(
        conf.chunker_conf,
        ChunkerConf {
            minimum_chunk_size: 4 * 1024 * 1024,
            average_chunk_size: 16 * 1024 * 1024,
            maximum_chunk_size: 64 * 1024 * 1024,
        }
    );
    assert_eq!(
        conf.argon2_conf,
        Argon2Conf { threads: 4, mem_cost: 2147483648, time_cost: 2, variant: 2, version: 0x13 }
    );
}

#[test]
fn new_repository_starts_empty_and_signs_its_manifest() {
    let db = temporary_db();
    let manager = create(&db, "password", tiny());
    assert_eq!(manager.chunk_db().len(), 0);
    assert_eq!(manager.inode_db().len(), 0);
    assert_eq!(manager.backup_db().len(), 0);
    let manifest = manager.current_manifest();
    assert_eq!(manifest.chunk_root_dir, "/repo/data");
    assert_eq!(manifest.db_path, "/repo/backrub.db");
    assert_eq!(manifest.version, "0.1.0");
    assert_eq!(manifest.chunker_conf, tiny());
    assert_eq!(manifest.argon2_conf, light_conf());
    assert_eq!(manifest.chunk_db_state, ChunkDbState::new());
    // the manifest holds the data keys under their masks, not as they are
    let keys = manager.data_keys();
    assert_ne!(manifest.keys.enc_chunk_hash_key, keys.chunk_hash_key);
    assert_ne!(manifest.keys.enc_chunk_enc_key, keys.chunk_enc_key);
    assert_ne!(manifest.keys.enc_inode_hash_key, keys.inode_hash_key);
    assert_ne!(manifest.keys.enc_inode_enc_key, keys.inode_enc_key);

    let signed = manager.signed_manifest().unwrap();
    assert_eq!(&signed.manifest, manifest);
    let (sig_key, masks) =
        backrub::keys::derive_keys(b"password", &manifest.salt, &light_conf()).unwrap();
    assert_eq!(signed.signature, manifest.keyed_hash(&sig_key).unwrap().0);
    assert_eq!(manifest.keys.decrypt(masks), *keys);
}

#[test]
fn two_repositories_share_neither_salt_nor_keys() {
    let a = create(&temporary_db(), "password", tiny());
    let b = create(&temporary_db(), "password", tiny());
    assert_ne!(a.current_manifest().salt, b.current_manifest().salt);
    assert_ne!(a.data_keys(), b.data_keys());
}

#[test]
fn existing_database_is_not_taken_for_a_new_repository() {
    let db = temporary_db();
    let r = BackupManager::new(
        config(tiny()),
        "password",
        String::from("0.1.0"),
        true,
        db.open_tree(b"inodes").unwrap(),
        db.open_tree(b"chunks").unwrap(),
        db.open_tree(b"backups").unwrap(),
    );
    match r {
        Err(RepoError::BackrubError(BackrubError::SledDbAlreadyExists(path))) => {
            assert_eq!(path, "/repo/backrub.db")
        }
        other => panic!("unexpected: {:?}", other.map(|_| ())),
    }
}

#[test]
fn missing_database_is_not_opened() {
    let db = temporary_db();
    let signed = create(&db, "password", tiny()).signed_manifest().unwrap();
    let fresh = temporary_db();
    let r = BackupManager::initialize_backup_manager(
        &signed,
        "password",
        false,
        fresh.open_tree(b"inodes").unwrap(),
        fresh.open_tree(b"chunks").unwrap(),
        fresh.open_tree(b"backups").unwrap(),
    );
    match r {
        Err(RepoError::BackrubError(BackrubError::SledDbDidNotExist(path))) => {
            assert_eq!(path, "/repo/backrub.db")
        }
        other => panic!("unexpected: {:?}", other.map(|_| ())),
    }
}

#[test]
fn reopened_repository_has_its_keys_and_its_paths() {
    let db = temporary_db();
    let mut manager = create(&db, "correct horse", tiny());
    let stored = manager.backup_file(b"a.txt".to_vec(), Metadata::default(), &[0x41u8; 1024]).unwrap();
    let signed = manager.signed_manifest().unwrap();
    let keys = *manager.data_keys();
    let state = manager.chunk_db().state().clone();
    assert!(state.path_gen.0 >= 1);
    assert_eq!(signed.manifest.chunk_db_state, state);
    drop(manager);

    let again = open(&db, &signed, "correct horse").unwrap();
    assert_eq!(*again.data_keys(), keys);
    assert_eq!(again.chunk_db().state(), &state);
    assert_eq!(again.current_manifest(), &signed.manifest);
    assert!(again.inode_db().get_inode(&stored.inode).unwrap().is_some());
    assert_eq!(again.signed_manifest().unwrap().signature, signed.signature);
}

#[test]
fn wrong_password_fails_the_signature() {
    let db = temporary_db();
    let signed = create(&db, "right", tiny()).signed_manifest().unwrap();
    assert!(matches!(
        open(&db, &signed, "wrong"),
        Err(RepoError::BackrubError(BackrubError::InvalidSignature))
    ));
    assert!(open(&db, &signed, "right").is_ok());
}

#[test]
fn tampered_manifest_fails_the_signature() {
    let db = temporary_db();
    let signed = create(&db, "password", tiny()).signed_manifest().unwrap();
    let mut keys_changed = signed.clone();
    keys_changed.manifest.keys.enc_chunk_enc_key.0[3] ^= 0x10;
    assert!(matches!(
        open(&db, &keys_changed, "password"),
        Err(RepoError::BackrubError(BackrubError::InvalidSignature))
    ));
    let mut state_changed = signed.clone();
    state_changed.manifest.chunk_db_state.path_gen = FilePathGen(1);
    assert!(matches!(
        open(&db, &state_changed, "password"),
        Err(RepoError::BackrubError(BackrubError::InvalidSignature))
    ));
    let mut signature_changed = signed.clone();
    signature_changed.signature[7] ^= 1;
    assert!(matches!(
        open(&db, &signature_changed, "password"),
        Err(RepoError::BackrubError(BackrubError::InvalidSignature))
    ));
    // with the byte as it was the repository opens
    assert!(open(&db, &signed, "password").is_ok());
}

#[test]
fn manifest_with_unusable_parameters_is_refused_by_the_password_hash() {
    let db = temporary_db();
    let mut signed = create(&db, "password", tiny()).signed_manifest().unwrap();
    signed.manifest.argon2_conf.variant = 7;
    assert!(matches!(open(&db, &signed, "password"), Err(RepoError::Argon2Error(_))));
}

#[test]
fn damaged_store_is_not_opened() {
    let db = temporary_db();
    let mut manager = create(&db, "password", tiny());
    manager.backup_file(b"a.txt".to_vec(), Metadata::default(), b"some content").unwrap();
    let signed = manager.signed_manifest().unwrap();
    drop(manager);
    db.open_tree(b"inodes").unwrap().insert([0u8; 32], b"garbage".to_vec()).unwrap();
    assert!(matches!(
        open(&db, &signed, "password"),
        Err(RepoError::Corruption(CorruptionKind::Envelope, Some(_)))
    ));
    db.open_tree(b"inodes").unwrap().remove([0u8; 32]).unwrap();
    assert!(open(&db, &signed, "password").is_ok());
    db.open_tree(b"chunks").unwrap().insert(b"short", b"garbage".to_vec()).unwrap();
    assert!(matches!(
        open(&db, &signed, "password"),
        Err(RepoError::BackrubError(BackrubError::SledKeyLengthError))
    ));
}

#[test]
fn root_of_a_backup_must_be_a_directory() {
    assert!(BackupManager::check_backup_root("/home/me", true).is_ok());
    match BackupManager::check_backup_root("/home/me/file", false) {
        Err(RepoError::BackrubError(BackrubError::BackupRootMustBeDir(path))) => {
            assert_eq!(path, "/home/me/file")
        }
        other => panic!("unexpected: {:?}", other),
    }
}

#[test]
fn identical_files_share_their_chunks() {
    let db = temporary_db();
    let mut manager = create(&db, "password", tiny());
    let content = vec![0x41u8; 1024];
    let meta = Metadata { mode: 0o644, ..Metadata::default() };

    let first = manager.backup_file(b"one.txt".to_vec(), meta, &content).unwrap();
    let second = manager.backup_file(b"two.txt".to_vec(), meta, &content).unwrap();

    // the chunks of the two files are the same, in the same order
    let hashes: Vec<Hash256> = first.chunks.iter().map(|c| c.hash).collect();
    assert_eq!(hashes, second.chunks.iter().map(|c| c.hash).collect::<Vec<_>>());
    assert!(!hashes.is_empty());

    // every chunk was sealed for writing exactly once, at its first reference
    let mut written: HashMap<Hash256, String> = HashMap::new();
    for chunk in first.chunks.iter().chain(second.chunks.iter()) {
        assert_eq!(chunk.sealed.is_some(), chunk.ref_count == 1);
        if let Some(sealed) = &chunk.sealed {
            assert!(written.insert(chunk.hash, chunk.path.clone()).is_none());
            let plain = decrypt_bytes(sealed, &manager.data_keys().chunk_enc_key).unwrap();
            assert_eq!(keyed_hash(&plain, &manager.data_keys().chunk_hash_key), chunk.hash);
        } else {
            assert_eq!(written.get(&chunk.hash), Some(&chunk.path));
        }
    }
    assert!(second.chunks.iter().all(|c| c.sealed.is_none()));

    // the store knows each distinct chunk once, with at least two references
    assert!(manager.chunk_db().len() >= 1);
    assert_eq!(manager.chunk_db().len(), written.len());
    let total: usize = manager.chunk_db().get_mappings().unwrap().iter().map(|(_, (c, _))| *c).sum();
    assert_eq!(total, first.chunks.len() + second.chunks.len());
    for (_, (count, _)) in manager.chunk_db().get_mappings().unwrap() {
        assert!(count >= 2);
    }

    // the two files differ in their paths: two inodes, one reference each
    assert_ne!(first.inode, second.inode);
    assert_eq!((first.ref_count, second.ref_count), (1, 1));
    // the same file once more is the same inode, with two references
    let again = manager.backup_file(b"one.txt".to_vec(), meta, &content).unwrap();
    assert_eq!(again.inode, first.inode);
    assert_eq!(again.ref_count, 2);
    assert_eq!(manager.inode_db().len(), 2);
    assert_eq!(manager.inode_db().get_ref_count(&first.inode).unwrap(), Some(2));
    assert!(again.chunks.iter().all(|c| c.sealed.is_none()));
}

#[test]
fn inode_of_a_file_lists_its_chunks_in_order() {
    let db = temporary_db();
    let mut manager = create(&db, "password", tiny());
    let content = pseudo_random(5000, 3);
    let meta = Metadata { mode: 0o600, uid: 1, gid: 2, mtime: 3, mtime_ns: 4, ctime: 5, ctime_ns: 6 };
    let stored = manager.backup_file(b"dir/data.bin".to_vec(), meta, &content).unwrap();

    let keys = *manager.data_keys();
    let (chunks, file_hash) =
        chunk_and_hash(&content, &tiny(), &keys.chunk_hash_key, &keys.inode_hash_key).unwrap();
    let expected = Inode::File(File {
        relpath: b"dir/data.bin".to_vec(),
        chunk_ids: chunks.iter().map(|(_, h)| *h).collect(),
        metadata: meta,
        file_hash,
    });
    assert_eq!(file_hash, keyed_hash(&content, &keys.inode_hash_key));
    assert_eq!(stored.inode, expected.keyed_hash(&keys.inode_hash_key).unwrap());
    assert_eq!(manager.inode_db().get_inode(&stored.inode).unwrap(), Some(expected));
    assert_eq!(stored.chunks.len(), chunks.len());
    let mut rebuilt = Vec::new();
    for (stored_chunk, (bytes, hash)) in stored.chunks.iter().zip(chunks.iter()) {
        assert_eq!(stored_chunk.hash, *hash);
        if let Some(sealed) = &stored_chunk.sealed {
            assert_eq!(&decrypt_bytes(sealed, &keys.chunk_enc_key).unwrap(), bytes);
        }
        rebuilt.extend_from_slice(bytes);
    }
    assert_eq!(rebuilt, content);
}

#[test]
fn edit_of_one_byte_leaves_most_chunks_as_they_are() {
    let db = temporary_db();
    let conf = ChunkerConf { minimum_chunk_size: 2048, average_chunk_size: 8192, maximum_chunk_size: 65536 };
    let mut manager = create(&db, "password", conf);
    let mut content = pseudo_random(10 * 1024 * 1024, 11);
    let before = manager.backup_file(b"big".to_vec(), Metadata::default(), &content).unwrap();
    let middle = content.len() / 2;
    content[middle] ^= 0xff;
    let after = manager.backup_file(b"big".to_vec(), Metadata::default(), &content).unwrap();

    assert_ne!(before.inode, after.inode);
    assert!(before.chunks.len() > 100);
    let new_chunks = after.chunks.iter().filter(|c| c.sealed.is_some()).count();
    assert!(new_chunks >= 1);
    assert!(new_chunks <= 4);
    let shared = after.chunks.iter().filter(|c| c.ref_count == 2).count();
    assert!(shared + 4 >= before.chunks.len());
    for chunk in before.chunks.iter() {
        let count = manager.chunk_db().get_ref_count(&chunk.hash).unwrap().unwrap();
        assert!(count == 1 || count == 2);
    }
}

#[test]
fn tampered_chunk_file_is_rejected() {
    let db = temporary_db();
    let mut manager = create(&db, "password", tiny());
    let stored = manager.backup_file(b"f".to_vec(), Metadata::default(), b"the content of the file").unwrap();
    let key = manager.data_keys().chunk_enc_key;
    for chunk in stored.chunks {
        let sealed = chunk.sealed.unwrap();
        assert!(decrypt_bytes(&sealed, &key).is_ok());
        for i in [0, 24, 32, sealed.len() - 1] {
            let mut bad = sealed.clone();
            bad[i] ^= 1;
            assert!(matches!(decrypt_bytes(&bad, &key), Err(RepoError::InvalidCiphertext)));
        }
    }
}

#[test]
fn chunk_whose_file_was_not_written_is_given_up_again() {
    let db = temporary_db();
    let mut manager = create(&db, "password", tiny());
    let hash = Hash256::from([1u8; 32]);
    let stored = manager.store_chunk(b"bytes of a chunk", &hash).unwrap();
    assert_eq!((stored.ref_count, stored.path.as_str()), (1, "1.bin"));
    assert!(stored.sealed.is_some());
    assert_eq!(manager.rollback_chunk(&hash).unwrap(), Some((0, String::from("1.bin"))));
    assert_eq!(manager.chunk_db().len(), 0);
    // the path is free again
    let other = manager.store_chunk(b"bytes of another chunk", &Hash256::from([2u8; 32])).unwrap();
    assert_eq!(other.path, "1.bin");
    let again = manager.store_chunk(b"bytes of another chunk", &Hash256::from([2u8; 32])).unwrap();
    assert_eq!((again.ref_count, again.sealed), (2, None));
    assert_eq!(manager.rollback_chunk(&Hash256::from([2u8; 32])).unwrap(), Some((1, String::from("1.bin"))));
    assert_eq!(manager.rollback_chunk(&Hash256::from([9u8; 32])).unwrap(), None);
}

#[test]
fn tree_of_inodes_and_record_of_the_backup() {
    let db = temporary_db();
    let mut manager = create(&db, "password", tiny());
    let meta = Metadata::default();
    let file = manager.backup_file(b"root/a".to_vec(), meta, b"content of a").unwrap();
    let (_, link) = manager.backup_symlink(b"root/l".to_vec(), b"a".to_vec(), meta).unwrap();
    let (_, sub) = manager.backup_directory(b"root/sub".to_vec(), meta, Vec::new()).unwrap();
    let contents = vec![link, file.inode, sub];
    let (count, root) = manager.backup_directory(b"root".to_vec(), meta, contents.clone()).unwrap();
    assert_eq!(count, 1);
    assert_eq!(
        manager.inode_db().get_inode(&root).unwrap(),
        Some(Inode::Directory(Directory { relpath: b"root".to_vec(), metadata: meta, contents: contents.clone() }))
    );
    // every inode that the directory lists is in the store
    for hash in &contents {
        assert!(manager.inode_db().get_inode(hash).unwrap().is_some());
    }
    let (count, id) = manager
        .record_backup(String::from("2024-01-02T03:04:05.000000Z"), String::from("first"), root)
        .unwrap();
    assert_eq!(count, 1);
    let record = manager.backup_db().get_data(&id).unwrap().unwrap();
    assert_eq!(
        record,
        Backup { timestamp: String::from("2024-01-02T03:04:05.000000Z"), name: String::from("first"), root }
    );
    assert_eq!(id, record.keyed_hash(&manager.data_keys().inode_hash_key).unwrap());
    manager.inode_db().self_test().unwrap();
    manager.backup_db().self_test().unwrap();
    manager.chunk_db().self_test().unwrap();
}

#[test]
fn what_the_errors_say() {
    assert_eq!(
        BackrubError::InvalidSignature.message(),
        "InvalidSignature: a signature is invalid, this could be a sign of tampering"
    );
    assert_eq!(
        BackrubError::BackupRootMustBeDir(String::from("/a/file")).message(),
        "BackupRootMustBeDir: the root of any backup must be a directory, got \"/a/file\""
    );
    assert_eq!(
        BackrubError::SledDbAlreadyExists(String::from("/db")).message(),
        "SledDbAlreadyExists: a sled database is already existing at given path \"/db\""
    );
    assert_eq!(
        BackrubError::SledDbDidNotExist(String::from("/db")).message(),
        "SledDbDidNotExist: a sled database was NOT existing at given path \"/db\""
    );
    assert_eq!(
        BackrubError::SledTreeNotEmpty.message(),
        "SledTreeNotEmpty: a sled tree has a length bigger than 0"
    );
    assert_eq!(
        BackrubError::SledKeyLengthError.message(),
        "SledKeyLengthError: a sled key seems to be of wrong length"
    );
    assert_eq!(
        BackrubError::SelfTestError.message(),
        "SelfTestError: a sled key - value pair is corrupted"
    );
    assert_eq!(
        RepoError::BackrubError(BackrubError::SelfTestError).message(),
        "BackrubError: SelfTestError: a sled key - value pair is corrupted"
    );
    assert_eq!(RepoError::Exhausted.message(), "Exhausted: every path has been handed out");
    assert_eq!(
        RepoError::InvalidCiphertext.message(),
        "InvalidCiphertext: the cipher rejected a ciphertext"
    );
    assert_eq!(
        RepoError::Corruption(CorruptionKind::Record, None).message(),
        "Corruption: a stored record is malformed"
    );
    assert!(RepoError::Argon2Error(argon2::Error::SaltTooShort).message().starts_with("Argon2Error: "));
    assert!(RepoError::IoError(std::io::Error::new(std::io::ErrorKind::Other, "broken"))
        .message()
        .contains("broken"));
}

#[test]
fn backups_are_listed_and_chunks_are_read_back() {
    let db = temporary_db();
    let mut manager = create(&db, "password", tiny());
    let content = pseudo_random(3000, 17);
    let stored = manager.backup_file(b"root/f".to_vec(), Metadata::default(), &content).unwrap();
    let (_, root) =
        manager.backup_directory(b"root".to_vec(), Metadata::default(), vec![stored.inode]).unwrap();
    let (_, first) = manager
        .record_backup(String::from("2024-01-02T03:04:05.000000Z"), String::from("first"), root)
        .unwrap();
    let (_, second) = manager
        .record_backup(String::from("2024-02-02T03:04:05.000000Z"), String::from("second"), root)
        .unwrap();
    let listed = manager.list_backups().unwrap();
    assert_eq!(listed.len(), 2);
    assert!(listed[0].0 < listed[1].0);
    let mut names: Vec<(Hash256, String)> =
        listed.into_iter().map(|(id, (_, b))| (id, b.name)).collect();
    names.sort();
    let mut expected = vec![(first, String::from("first")), (second, String::from("second"))];
    expected.sort();
    assert_eq!(names, expected);

    // the content of the file from its chunk files
    let mut rebuilt = Vec::new();
    for chunk in &stored.chunks {
        let sealed = chunk.sealed.as_ref().unwrap();
        rebuilt.extend_from_slice(&manager.open_chunk(sealed, &chunk.hash).unwrap());
    }
    assert_eq!(rebuilt, content);

    let sealed = stored.chunks[0].sealed.as_ref().unwrap();
    let mut flipped = sealed.clone();
    flipped[40] ^= 1;
    assert!(matches!(
        manager.open_chunk(&flipped, &stored.chunks[0].hash),
        Err(RepoError::InvalidCiphertext)
    ));
    // the bytes of another chunk in the place of this one
    match manager.open_chunk(sealed, &stored.chunks[1].hash) {
        Err(RepoError::Corruption(CorruptionKind::Record, Some(k))) => {
            assert_eq!(k, stored.chunks[1].hash.0.to_vec())
        }
        other => panic!("unexpected: {:?}", other),
    }
}

#[test]
fn inode_of_a_file_is_given_up_again() {
    let db = temporary_db();
    let mut manager = create(&db, "password", tiny());
    let stored = manager.backup_file(b"f".to_vec(), Metadata::default(), b"content").unwrap();
    assert_eq!(manager.inode_db().len(), 1);
    let removed = manager.rollback_inode(&stored.inode).unwrap().unwrap();
    assert_eq!(removed.0, 0);
    assert_eq!(manager.inode_db().len(), 0);
    assert_eq!(manager.rollback_inode(&stored.inode).unwrap(), None);
}

#[test]
fn records_may_only_name_inodes_that_are_stored() {
    let db = temporary_db();
    let mut manager = create(&db, "password", tiny());
    let (_, link) =
        manager.backup_symlink(b"d/l".to_vec(), b"t".to_vec(), Metadata::default()).unwrap();
    let unknown = Hash256::from([0x99u8; 32]);
    assert!(manager.require_inode(&link).is_ok());
    match manager.backup_directory(b"d".to_vec(), Metadata::default(), vec![link, unknown]) {
        Err(RepoError::Corruption(CorruptionKind::Missing, Some(k))) => assert_eq!(k, vec![0x99u8; 32]),
        other => panic!("unexpected: {:?}", other),
    }
    assert_eq!(manager.inode_db().len(), 1);
    match manager.record_backup(String::from("t"), String::from("n"), unknown) {
        Err(RepoError::Corruption(CorruptionKind::Missing, Some(k))) => assert_eq!(k, vec![0x99u8; 32]),
        other => panic!("unexpected: {:?}", other),
    }
    assert_eq!(manager.backup_db().len(), 0);
    assert_eq!(
        RepoError::Corruption(CorruptionKind::Missing, None).message(),
        "Corruption: a record that another record names is missing"
    );
    let (_, dir) = manager.backup_directory(b"d".to_vec(), Metadata::default(), vec![link]).unwrap();
    assert!(manager.record_backup(String::from("t"), String::from("n"), dir).is_ok());
}

#[test]
fn file_with_an_unreadable_chunk_record_is_refused_and_leaves_no_references() {
    let db = temporary_db();
    let mut manager = create(&db, "password", tiny());
    let content = pseudo_random(2000, 23);
    let keys = *manager.data_keys();
    let (chunks, _) =
        chunk_and_hash(&content, &tiny(), &keys.chunk_hash_key, &keys.inode_hash_key).unwrap();
    assert!(chunks.len() > 3);
    let last = chunks[chunks.len() - 1].1;
    db.open_tree(b"chunks").unwrap().insert(last.0, b"garbage".to_vec()).unwrap();

    match manager.backup_file(b"f".to_vec(), Metadata::default(), &content) {
        Err(RepoError::Corruption(CorruptionKind::Envelope, Some(k))) => {
            assert_eq!(k, last.0.to_vec())
        }
        other => panic!("unexpected: {:?}", other.map(|s| s.inode)),
    }
    // the references to the chunks before it were given up again
    assert_eq!(manager.chunk_db().len(), 1);
    assert_eq!(manager.inode_db().len(), 0);
    for (_, hash) in &chunks[..chunks.len() - 1] {
        assert_eq!(db.open_tree(b"chunks").unwrap().get(hash.0).unwrap(), None);
    }
    // their paths wait to be used again, the first one last
    let state = manager.chunk_db().state().clone();
    assert_eq!(state.path_gen, FilePathGen(chunks.len() as u64 - 1));
    assert_eq!(state.unused_paths.len(), chunks.len() - 1);
    assert_eq!(state.unused_paths[chunks.len() - 2], "1.bin");

    db.open_tree(b"chunks").unwrap().remove(last.0).unwrap();
    let stored = manager.backup_file(b"f".to_vec(), Metadata::default(), &content).unwrap();
    assert_eq!(stored.chunks.len(), chunks.len());
    assert_eq!(stored.chunks[0].path, "1.bin");
    assert_eq!(manager.chunk_db().len(), chunks.len());
}

#[test]
fn file_that_needs_more_paths_than_are_left_is_refused() {
    let db = temporary_db();
    let signed = create(&db, "password", tiny()).signed_manifest().unwrap();
    // the same repository with one path left
    let mut manifest = signed.manifest.clone();
    manifest.chunk_db_state =
        ChunkDbState { unused_paths: Vec::new(), path_gen: FilePathGen(u64::MAX - 1) };
    let (sig_key, _) =
        backrub::keys::derive_keys(b"password", &manifest.salt, &manifest.argon2_conf).unwrap();
    let resigned = manifest.sign(&sig_key).unwrap();
    let mut manager = open(&db, &resigned, "password").unwrap();

    let content = pseudo_random(2000, 29);
    assert!(matches!(
        manager.backup_file(b"f".to_vec(), Metadata::default(), &content),
        Err(RepoError::Exhausted)
    ));
    assert_eq!(manager.chunk_db().len(), 0);
    assert_eq!(manager.inode_db().len(), 0);
    let state = manager.chunk_db().state().clone();
    assert_eq!(state.path_gen, FilePathGen(u64::MAX));
    assert_eq!(state.unused_paths, vec![String::from("ff/ff/ff/ff/ff/ff/ff/ff.bin")]);

    // a file of one chunk takes the path that is left
    let small = manager.backup_file(b"g".to_vec(), Metadata::default(), b"abc").unwrap();
    assert_eq!(small.chunks.len(), 1);
    assert_eq!(small.chunks[0].path, "ff/ff/ff/ff/ff/ff/ff/ff.bin");
}
