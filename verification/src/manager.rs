use crate::codec::Encode;
use crate::backend::tree_map;
use crate::db::{
    chunk_first_defect, chunks_sound, counted_so_far, counting_refused, counts_restored,
    lemma_counted_can_go_back, lemma_counted_one_more, lemma_counted_same,
    lemma_counting_refused,
    lemma_counts_restored, lemma_removed_one_more, lemma_removing_refused, rc_first_defect,
    rc_remove_back, rcs_sound, removed_so_far, removing_refused, reports_damage, ChunkDb, InodeDb,
    RcDb,
};
use crate::refcount::{occurrences, rc_count, rc_remove, rc_removed};
use crate::error::{BackrubError, CorruptionKind, RepoError};
use crate::inode::{Directory, File, Inode, Metadata, Symlink};
use crate::keys::{
    derive_keys, random_bytes, stretched, Argon2Conf, CryptoKeys, ARGON2ID, ARGON2_VERSION_13,
};
use crate::manifest::{Manifest, SignedManifest};
use crate::structs::{
    xor_bytes, Backup, ChunkerConf, Hash256, Key256, KEY_SIZE, SALT_SIZE, TOTAL_KEY_SIZE,
};
use crate::traits::{blake3_keyed_hash, open_envelope};
use crate::utils::{chunk_and_hash, chunks_of};
use vstd::prelude::*;
use vstd::string::*;

verus! {

/// The number of bytes in a MiB.
const MB: u64 = 1048576;

/// Where a repository lies and how it chunks and stretches.
#[derive(Debug, Clone, PartialEq, Eq, Hash)]
pub struct BackupManagerConf {
    pub chunk_root_dir: String,
    pub db_path: String,
    pub manifest_path: String,
    pub chunker_conf: ChunkerConf,
    pub argon2_conf: Argon2Conf,
}

impl BackupManagerConf {
    /// The configuration of a repository that lies in the directory `dir`:
    /// the chunks under `data`, the database in `backrub.db`, the manifest in
    /// `backrub.manifest`, chunks of 4 to 64 MiB around 16 MiB.
    pub fn new_in(dir: &str) -> (r: Self)
        ensures
            r.chunk_root_dir@ == dir@ + "/data"@,
            r.db_path@ == dir@ + "/backrub.db"@,
            r.manifest_path@ == dir@ + "/backrub.manifest"@,
            r.chunker_conf == (ChunkerConf {
                minimum_chunk_size: 4194304,
                average_chunk_size: 16777216,
                maximum_chunk_size: 67108864,
            }),
            r.argon2_conf == (Argon2Conf {
                threads: 4,
                mem_cost: 2147483648,
                time_cost: 2,
                variant: ARGON2ID,
                version: ARGON2_VERSION_13,
            }),
    {
        let chunk_root_dir = String::from_str(dir).concat("/data");
        let db_path = String::from_str(dir).concat("/backrub.db");
        let manifest_path = String::from_str(dir).concat("/backrub.manifest");
        let chunker_conf = ChunkerConf {
            minimum_chunk_size: 4 * MB,
            average_chunk_size: 16 * MB,
            maximum_chunk_size: 64 * MB,
        };
        let argon2_conf = Argon2Conf {
            threads: 4,
            mem_cost: 2 * 1024 * 1024 * 1024,
            time_cost: 2,
            variant: ARGON2ID,
            version: ARGON2_VERSION_13,
        };
        BackupManagerConf { chunk_root_dir, db_path, manifest_path, chunker_conf, argon2_conf }
    }
}

/// An open repository: its stores, its manifest and its keys.
#[derive(Debug)]
pub struct BackupManager {
    inode_db: InodeDb,
    chunk_db: ChunkDb,
    backup_db: RcDb<Backup>,
    manifest: Manifest,
    keys: CryptoKeys,
    sig_key: Key256,
}

/// What the password hash gives for a password: the bytes that are cut into
/// the signature key and the key encryption keys, or nothing where the hash
/// refuses the parameters.
pub open spec fn password_root(password: Seq<char>, salt: Seq<u8>, conf: Argon2Conf) -> Option<
    Seq<u8>,
> {
    stretched(vstd::utf8::encode_utf8(password), salt, conf)
}

/// The signature key that belongs to a password, where the password hash
/// gives one.
pub open spec fn password_sig_key(password: Seq<char>, salt: Seq<u8>, conf: Argon2Conf) -> Seq<u8> {
    match password_root(password, salt, conf) {
        Some(root) => root.subrange(0, KEY_SIZE as int),
        None => Seq::empty(),
    }
}

/// The key encryption keys that belong to a password, where the password
/// hash gives them.
pub open spec fn password_masks(password: Seq<char>, salt: Seq<u8>, conf: Argon2Conf) -> Seq<u8> {
    match password_root(password, salt, conf) {
        Some(root) => root.subrange(KEY_SIZE as int, TOTAL_KEY_SIZE as int),
        None => Seq::empty(),
    }
}

/// Whether `password` opens the signed manifest: the password hash gives a
/// root, and the manifest carries the signature of the signature key cut
/// from it.
pub open spec fn opens(signed: SignedManifest, password: Seq<char>) -> bool {
    password_root(password, signed.manifest.salt@, signed.manifest.argon2_conf) is Some
        && signed.is_signed_by(
        password_sig_key(password, signed.manifest.salt@, signed.manifest.argon2_conf),
    )
}

/// Whether `keys` are the data keys of the signed manifest, with the masks
/// of `password` taken off.
pub open spec fn unmasks(signed: SignedManifest, password: Seq<char>, keys: CryptoKeys) -> bool {
    keys@ == xor_bytes(
        signed.manifest.keys@,
        password_masks(password, signed.manifest.salt@, signed.manifest.argon2_conf),
    )
}

/// Whether `e` is what the tests of the two counting stores say of the
/// trees of the inodes and of the backups under `keys`: the error of the
/// first record of the inodes that is not sound, or, with the inodes sound,
/// that of the first such record of the backups.
pub open spec fn counting_stores_refused(
    keys: CryptoKeys,
    inodes: Map<Seq<u8>, Seq<u8>>,
    backups: Map<Seq<u8>, Seq<u8>>,
    e: RepoError,
) -> bool {
    ||| rc_first_defect::<Inode>(inodes, keys.inode_enc_key@, keys.inode_hash_key@, e)
    ||| (rcs_sound::<Inode>(inodes, keys.inode_enc_key@, keys.inode_hash_key@)
        && rc_first_defect::<Backup>(backups, keys.inode_enc_key@, keys.inode_hash_key@, e))
}

/// Whether both counting stores are sound under `keys`.
pub open spec fn counting_stores_sound(
    keys: CryptoKeys,
    inodes: Map<Seq<u8>, Seq<u8>>,
    backups: Map<Seq<u8>, Seq<u8>>,
) -> bool {
    rcs_sound::<Inode>(inodes, keys.inode_enc_key@, keys.inode_hash_key@) && rcs_sound::<Backup>(
        backups,
        keys.inode_enc_key@,
        keys.inode_hash_key@,
    )
}

/// Why the stores of a repository are refused when it is opened, other than
/// by an error of the backend: `e` is the error of the first record that is
/// not sound, the inodes taken first, then the backups, then the chunks.
pub open spec fn opening_refused(
    keys: CryptoKeys,
    inodes: Map<Seq<u8>, Seq<u8>>,
    backups: Map<Seq<u8>, Seq<u8>>,
    chunks: Map<Seq<u8>, Seq<u8>>,
    e: RepoError,
) -> bool {
    ||| counting_stores_refused(keys, inodes, backups, e)
    ||| (counting_stores_sound(keys, inodes, backups) && chunk_first_defect(
        chunks,
        keys.chunk_enc_key@,
        e,
    ))
}

/// Why a repository is not created in a database that did not exist before:
/// the password hash refuses the parameters; or the backend fails; or a
/// record of the inodes or of the backups is not sound; or, with these
/// sound, the tree of the chunks holds a record.
pub open spec fn creating_refused(
    conf: Argon2Conf,
    password: Seq<char>,
    salt: Seq<u8>,
    keys: CryptoKeys,
    inodes: Map<Seq<u8>, Seq<u8>>,
    backups: Map<Seq<u8>, Seq<u8>>,
    chunks: Map<Seq<u8>, Seq<u8>>,
    e: RepoError,
) -> bool {
    if password_root(password, salt, conf) is None {
        e is Argon2Error
    } else {
        ||| e is SledError
        ||| counting_stores_refused(keys, inodes, backups, e)
        ||| (counting_stores_sound(keys, inodes, backups) && chunks != Map::<
            Seq<u8>,
            Seq<u8>,
        >::empty() && e matches RepoError::BackrubError(BackrubError::SledTreeNotEmpty))
    }
}

/// What holds of a repository that was created with the salt `salt` and
/// the data keys `keys`.
pub open spec fn created(
    manager: BackupManager,
    config: BackupManagerConf,
    password: Seq<char>,
    version: Seq<char>,
    salt: Seq<u8>,
    keys: CryptoKeys,
) -> bool {
    let m = manager.manifest();
    &&& password_root(password, salt, config.argon2_conf) is Some
    &&& m.salt@ == salt
    &&& m.chunk_root_dir@ == config.chunk_root_dir@
    &&& m.db_path@ == config.db_path@
    &&& m.version@ == version
    &&& m.chunker_conf == config.chunker_conf
    &&& m.argon2_conf == config.argon2_conf
    &&& manager.keys() == keys
    &&& manager.sig_key() == password_sig_key(password, salt, config.argon2_conf)
    &&& m.keys@ == xor_bytes(keys@, password_masks(password, salt, config.argon2_conf))
    &&& m.chunk_db_state.free() == Seq::<Seq<char>>::empty()
    &&& m.chunk_db_state.counter() == 0
    &&& manager.is_keyed()
    &&& manager.chunks()@ == Map::<Seq<u8>, (nat, Seq<char>)>::empty()
    &&& manager.chunks().records() == Map::<Seq<u8>, Seq<u8>>::empty()
    &&& manager.chunks().paths().free() == Seq::<Seq<char>>::empty()
    &&& manager.chunks().paths().counter() == 0
    &&& manager.chunks().is_sound()
    &&& manager.inodes().is_sound()
    &&& manager.backups().is_sound()
}

/// What a password has opened of a signed manifest: the manifest, whose
/// signature was found good, the data keys without their masks, and the key
/// that signs.
#[derive(Debug)]
pub struct Unlocked {
    manifest: Manifest,
    keys: CryptoKeys,
    sig_key: Key256,
}

impl Unlocked {
    /// The manifest whose signature was found good.
    pub closed spec fn manifest(&self) -> Manifest {
        self.manifest
    }

    /// The data keys.
    pub closed spec fn keys(&self) -> CryptoKeys {
        self.keys
    }

    /// The key that signs the manifest.
    pub closed spec fn sig_key(&self) -> Seq<u8> {
        self.sig_key@
    }

    /// The manifest whose signature was found good.
    pub fn verified_manifest(&self) -> (r: &Manifest)
        ensures
            *r == self.manifest(),
    {
        &self.manifest
    }

    /// The data keys.
    pub fn data_keys(&self) -> (r: &CryptoKeys)
        ensures
            *r == self.keys(),
    {
        &self.keys
    }
}

impl BackupManager {
    /// The store of the chunks.
    pub closed spec fn chunks(&self) -> ChunkDb {
        self.chunk_db
    }

    /// The store of the inodes.
    pub closed spec fn inodes(&self) -> RcDb<Inode> {
        self.inode_db.store()
    }

    /// The store of the backup records.
    pub closed spec fn backups(&self) -> RcDb<Backup> {
        self.backup_db
    }

    /// The manifest as it was read or made.
    pub closed spec fn manifest(&self) -> Manifest {
        self.manifest
    }

    /// The data keys.
    pub closed spec fn keys(&self) -> CryptoKeys {
        self.keys
    }

    /// The key that signs the manifest.
    pub closed spec fn sig_key(&self) -> Seq<u8> {
        self.sig_key@
    }

    /// The store of the chunks.
    pub fn chunk_db(&self) -> (r: &ChunkDb)
        ensures
            *r == self.chunks(),
    {
        &self.chunk_db
    }

    /// The store of the inodes.
    pub fn inode_db(&self) -> (r: &InodeDb)
        ensures
            r.store() == self.inodes(),
    {
        &self.inode_db
    }

    /// The store of the backup records.
    pub fn backup_db(&self) -> (r: &RcDb<Backup>)
        ensures
            *r == self.backups(),
    {
        &self.backup_db
    }

    /// The manifest as it was read or made.
    pub fn current_manifest(&self) -> (r: &Manifest)
        ensures
            *r == self.manifest(),
    {
        &self.manifest
    }

    /// The data keys.
    pub fn data_keys(&self) -> (r: &CryptoKeys)
        ensures
            *r == self.keys(),
    {
        &self.keys
    }

    /// Whether the stores work with the data keys.
    pub open spec fn is_keyed(&self) -> bool {
        &&& self.chunks().enc_key() == self.keys().chunk_enc_key@
        &&& self.inodes().enc_key() == self.keys().inode_enc_key@
        &&& self.inodes().hash_key() == self.keys().inode_hash_key@
        &&& self.backups().enc_key() == self.keys().inode_enc_key@
        &&& self.backups().hash_key() == self.keys().inode_hash_key@
    }

    /// Takes the first step of opening a repository, before its database is
    /// touched: the password gives the signature key and the key encryption
    /// keys, the signature of the manifest is checked, and only then the
    /// data keys are unmasked.
    ///
    /// The step succeeds exactly where the password opens the manifest. It
    /// fails with the error of the password hash where that refuses the
    /// parameters, and with `InvalidSignature` where the hash gives a key
    /// and the manifest does not carry the signature of that key: with a
    /// wrong password, or a manifest that was changed after signing.
    pub fn unlock(signed: &SignedManifest, password: &str) -> (r: Result<Unlocked, RepoError>)
        ensures
            r is Ok <==> opens(*signed, password@),
            match r {
                Ok(unlocked) => {
                    &&& opens(*signed, password@)
                    &&& unlocked.sig_key() == password_sig_key(
                        password@,
                        signed.manifest.salt@,
                        signed.manifest.argon2_conf,
                    )
                    &&& unmasks(*signed, password@, unlocked.keys())
                    &&& unlocked.manifest().same_as(signed.manifest)
                    &&& unlocked.manifest().canon() == signed.manifest.canon()
                },
                Err(e) => if password_root(
                    password@,
                    signed.manifest.salt@,
                    signed.manifest.argon2_conf,
                ) is None {
                    e is Argon2Error
                } else {
                    !opens(*signed, password@) && e matches RepoError::BackrubError(
                        BackrubError::InvalidSignature,
                    )
                },
            },
    {
        let salt = signed.get_salt();
        let (sig_key, key_encryption_keys) = match derive_keys(
            password.as_bytes(),
            salt.as_slice(),
            &signed.manifest.argon2_conf,
        ) {
            Ok(keys) => keys,
            Err(e) => {
                return Err(e);
            },
        };
        let manifest = match signed.verify(&sig_key) {
            Ok(manifest) => manifest,
            Err(e) => {
                return Err(e);
            },
        };
        // Only now we are sure that no tampering occured in manifest!
        let keys = manifest.keys.decrypt(key_encryption_keys);
        Ok(Unlocked { manifest, keys, sig_key })
    }

    /// Takes the second step of opening a repository, with the trees of its
    /// database: a database that did not exist before is refused, and every
    /// store is tested under the data keys, the inodes first, then the
    /// backups, then the chunks.
    ///
    /// Unless the backend fails, the step succeeds exactly where the
    /// database existed and every record of the three trees is sound; else
    /// the error is that of the first record that is not.
    pub fn open_stores(
        unlocked: Unlocked,
        db_was_recovered: bool,
        inode_tree: sled::Tree,
        chunk_tree: sled::Tree,
        backup_tree: sled::Tree,
    ) -> (r: Result<BackupManager, RepoError>)
        ensures
            match r {
                Ok(manager) => {
                    &&& db_was_recovered
                    &&& manager.sig_key() == unlocked.sig_key()
                    &&& manager.keys() == unlocked.keys()
                    &&& manager.manifest() == unlocked.manifest()
                    &&& manager.is_keyed()
                    &&& manager.chunks().is_sound()
                    &&& manager.inodes().is_sound()
                    &&& manager.backups().is_sound()
                    &&& manager.chunks().records() == tree_map(chunk_tree)
                    &&& manager.inodes().records() == tree_map(inode_tree)
                    &&& manager.backups().records() == tree_map(backup_tree)
                    &&& manager.chunks().paths().free() == unlocked.manifest().chunk_db_state.free()
                    &&& manager.chunks().paths().counter()
                        == unlocked.manifest().chunk_db_state.counter()
                },
                Err(e) => if !db_was_recovered {
                    e matches RepoError::BackrubError(BackrubError::SledDbDidNotExist(path))
                        && path@ == unlocked.manifest().db_path@
                } else {
                    e is SledError || opening_refused(
                        unlocked.keys(),
                        tree_map(inode_tree),
                        tree_map(backup_tree),
                        tree_map(chunk_tree),
                        e,
                    )
                },
            },
            db_was_recovered && counting_stores_sound(
                unlocked.keys(),
                tree_map(inode_tree),
                tree_map(backup_tree),
            ) && chunks_sound(tree_map(chunk_tree), unlocked.keys().chunk_enc_key@) ==> r is Ok
                || r matches Err(RepoError::SledError(_)),
    {
        let Unlocked { manifest, keys, sig_key } = unlocked;
        if !db_was_recovered {
            return Err(RepoError::BackrubError(BackrubError::SledDbDidNotExist(manifest.db_path)));
        }
        let inode_db = match InodeDb::new(inode_tree, keys.inode_enc_key, keys.inode_hash_key) {
            Ok(db) => db,
            Err(e) => {
                return Err(e);
            },
        };
        let backup_db = match RcDb::<Backup>::new(
            backup_tree,
            keys.inode_enc_key,
            keys.inode_hash_key,
        ) {
            Ok(db) => db,
            Err(e) => {
                return Err(e);
            },
        };
        let chunk_db = match ChunkDb::restore(
            chunk_tree,
            keys.chunk_enc_key,
            manifest.chunk_db_state.clone(),
        ) {
            Ok(db) => db,
            Err(e) => {
                return Err(e);
            },
        };
        Ok(BackupManager { inode_db, chunk_db, backup_db, manifest, keys, sig_key })
    }

    /// Opens a repository whose manifest has been read and whose database has
    /// been opened: both steps of opening, one after the other.
    ///
    /// The password gives the signature key and the key encryption keys. A
    /// manifest that does not carry the signature of that key is refused
    /// before anything of it is used; then the data keys are unmasked, a
    /// database that did not exist before is refused, and every store is
    /// tested.
    pub fn initialize_backup_manager(
        signed: &SignedManifest,
        password: &str,
        db_was_recovered: bool,
        inode_tree: sled::Tree,
        chunk_tree: sled::Tree,
        backup_tree: sled::Tree,
    ) -> (r: Result<BackupManager, RepoError>)
        ensures
            match r {
                Ok(manager) => {
                    &&& opens(*signed, password@)
                    &&& db_was_recovered
                    &&& manager.sig_key() == password_sig_key(
                        password@,
                        signed.manifest.salt@,
                        signed.manifest.argon2_conf,
                    )
                    &&& unmasks(*signed, password@, manager.keys())
                    &&& manager.manifest().same_as(signed.manifest)
                    &&& manager.manifest().canon() == signed.manifest.canon()
                    &&& manager.is_keyed()
                    &&& manager.chunks().is_sound()
                    &&& manager.inodes().is_sound()
                    &&& manager.backups().is_sound()
                    &&& manager.chunks().records() == tree_map(chunk_tree)
                    &&& manager.inodes().records() == tree_map(inode_tree)
                    &&& manager.backups().records() == tree_map(backup_tree)
                    &&& manager.chunks().paths().free() == signed.manifest.chunk_db_state.free()
                    &&& manager.chunks().paths().counter()
                        == signed.manifest.chunk_db_state.counter()
                },
                Err(e) => if password_root(
                    password@,
                    signed.manifest.salt@,
                    signed.manifest.argon2_conf,
                ) is None {
                    e is Argon2Error
                } else if !opens(*signed, password@) {
                    e matches RepoError::BackrubError(BackrubError::InvalidSignature)
                } else if !db_was_recovered {
                    e matches RepoError::BackrubError(BackrubError::SledDbDidNotExist(path))
                        && path@ == signed.manifest.db_path@
                } else {
                    e is SledError || exists|keys: CryptoKeys| #[trigger]
                        unmasks(*signed, password@, keys) && opening_refused(
                            keys,
                            tree_map(inode_tree),
                            tree_map(backup_tree),
                            tree_map(chunk_tree),
                            e,
                        )
                },
            },
    {
        let unlocked = match BackupManager::unlock(signed, password) {
            Ok(unlocked) => unlocked,
            Err(e) => {
                return Err(e);
            },
        };
        BackupManager::open_stores(unlocked, db_was_recovered, inode_tree, chunk_tree, backup_tree)
    }

    /// Creates a repository whose database has been opened, with the salt
    /// and the data keys that were drawn for it.
    ///
    /// A database that existed before is refused. Then the password gives
    /// the signature key and the key encryption keys, the stores are made of
    /// the trees, the inodes first, then the backups, then the chunks, and
    /// the manifest takes the data keys under their masks. The stores start
    /// empty: a tree of chunks that holds a record is refused.
    pub fn new_with_keys(
        config: BackupManagerConf,
        password: &str,
        version: String,
        db_was_recovered: bool,
        salt: [u8; SALT_SIZE],
        keys: CryptoKeys,
        inode_tree: sled::Tree,
        chunk_tree: sled::Tree,
        backup_tree: sled::Tree,
    ) -> (r: Result<BackupManager, RepoError>)
        ensures
            match r {
                Ok(manager) => {
                    &&& created(manager, config, password@, version@, salt@, keys)
                    &&& !db_was_recovered
                    &&& manager.chunks().records() == tree_map(chunk_tree)
                    &&& manager.inodes().records() == tree_map(inode_tree)
                    &&& manager.backups().records() == tree_map(backup_tree)
                },
                Err(e) => if db_was_recovered {
                    e matches RepoError::BackrubError(BackrubError::SledDbAlreadyExists(path))
                        && path@ == config.db_path@
                } else {
                    creating_refused(
                        config.argon2_conf,
                        password@,
                        salt@,
                        keys,
                        tree_map(inode_tree),
                        tree_map(backup_tree),
                        tree_map(chunk_tree),
                        e,
                    )
                },
            },
    {
        if db_was_recovered {
            return Err(RepoError::BackrubError(BackrubError::SledDbAlreadyExists(config.db_path)));
        }
        let (sig_key, key_encryption_keys) = match derive_keys(
            password.as_bytes(),
            salt.as_slice(),
            &config.argon2_conf,
        ) {
            Ok(keys) => keys,
            Err(e) => {
                return Err(e);
            },
        };
        let enc_keys = keys.encrypt(key_encryption_keys);
        // setup inode and chunk databases
        let inode_db = match InodeDb::new(inode_tree, keys.inode_enc_key, keys.inode_hash_key) {
            Ok(db) => db,
            Err(e) => {
                return Err(e);
            },
        };
        let backup_db = match RcDb::<Backup>::new(
            backup_tree,
            keys.inode_enc_key,
            keys.inode_hash_key,
        ) {
            Ok(db) => db,
            Err(e) => {
                return Err(e);
            },
        };
        let chunk_db = match ChunkDb::new(chunk_tree, keys.chunk_enc_key) {
            Ok(db) => db,
            Err(e) => {
                return Err(e);
            },
        };
        // create Manifest
        let manifest = Manifest {
            salt,
            chunk_root_dir: config.chunk_root_dir,
            db_path: config.db_path,
            version,
            chunker_conf: config.chunker_conf,
            keys: enc_keys,
            argon2_conf: config.argon2_conf,
            chunk_db_state: chunk_db.state().clone(),
        };
        Ok(BackupManager { inode_db, chunk_db, backup_db, manifest, keys, sig_key })
    }

    /// Creates a repository whose database has been opened.
    ///
    /// A database that existed before is refused. Then salt and data keys are
    /// drawn from the system's random number generator, and the repository
    /// is made with them: what holds of the result holds for some salt and
    /// some keys, which the manifest and the manager then carry.
    pub fn new(
        config: BackupManagerConf,
        password: &str,
        version: String,
        db_was_recovered: bool,
        inode_tree: sled::Tree,
        chunk_tree: sled::Tree,
        backup_tree: sled::Tree,
    ) -> (r: Result<BackupManager, RepoError>)
        ensures
            match r {
                Ok(manager) => {
                    &&& created(
                        manager,
                        config,
                        password@,
                        version@,
                        manager.manifest().salt@,
                        manager.keys(),
                    )
                    &&& !db_was_recovered
                    &&& manager.chunks().records() == tree_map(chunk_tree)
                    &&& manager.inodes().records() == tree_map(inode_tree)
                    &&& manager.backups().records() == tree_map(backup_tree)
                },
                Err(e) => if db_was_recovered {
                    e matches RepoError::BackrubError(BackrubError::SledDbAlreadyExists(path))
                        && path@ == config.db_path@
                } else {
                    exists|salt: Seq<u8>, keys: CryptoKeys| #[trigger]
                        creating_refused(
                            config.argon2_conf,
                            password@,
                            salt,
                            keys,
                            tree_map(inode_tree),
                            tree_map(backup_tree),
                            tree_map(chunk_tree),
                            e,
                        ) && salt.len() == SALT_SIZE
                },
            },
    {
        if db_was_recovered {
            return Err(RepoError::BackrubError(BackrubError::SledDbAlreadyExists(config.db_path)));
        }
        let salt = random_bytes::<SALT_SIZE>();
        let keys = CryptoKeys::new();
        BackupManager::new_with_keys(
            config,
            password,
            version,
            db_was_recovered,
            salt,
            keys,
            inode_tree,
            chunk_tree,
            backup_tree,
        )
    }

    /// The manifest as it is to be written: with the state of the path
    /// generator as it is now, and signed.
    pub fn signed_manifest(&self) -> (r: Result<SignedManifest, RepoError>)
        ensures
            r matches Ok(signed) && {
                &&& signed.is_signed_by(self.sig_key())
                &&& signed.manifest.salt@ == self.manifest().salt@
                &&& signed.manifest.chunk_root_dir@ == self.manifest().chunk_root_dir@
                &&& signed.manifest.db_path@ == self.manifest().db_path@
                &&& signed.manifest.version@ == self.manifest().version@
                &&& signed.manifest.chunker_conf == self.manifest().chunker_conf
                &&& signed.manifest.keys == self.manifest().keys
                &&& signed.manifest.argon2_conf == self.manifest().argon2_conf
                &&& signed.manifest.chunk_db_state.free() == self.chunks().paths().free()
                &&& signed.manifest.chunk_db_state.counter() == self.chunks().paths().counter()
            },
    {
        // copy manifest
        let mut manifest = self.manifest.clone();
        // update manifest
        manifest.chunk_db_state = self.chunk_db.state().clone();
        // sign manifest
        match manifest.sign(&self.sig_key) {
            Ok(signed) => Ok(signed),
            Err(e) => Err(e),
        }
    }
}

/// Why a record that names the inode `hash` is refused by the store of the
/// inodes: the backend fails, the store holds no record under the hash, or
/// the record that it holds cannot be read.
pub open spec fn inode_wanting(store: RcDb<Inode>, hash: Seq<u8>, e: RepoError) -> bool {
    match e {
        RepoError::SledError(_) => true,
        RepoError::Corruption(CorruptionKind::Missing, k) => {
            &&& !store.records().contains_key(hash)
            &&& k matches Some(bytes) && bytes@ == hash
        },
        _ => {
            &&& store.records().contains_key(hash)
            &&& store.entry(hash) is None
            &&& reports_damage(e, store.enc_key(), store.records()[hash], hash)
        },
    }
}

/// Whether the store holds a record that can be read under each of
/// `hashes`.
pub open spec fn all_inodes_held(store: RcDb<Inode>, hashes: Seq<Hash256>) -> bool {
    forall|i: int| 0 <= i < hashes.len() ==> store.entry((#[trigger] hashes[i])@) is Some
}

/// Why a record that names the inodes `hashes` is refused by the store of
/// the inodes: `e` is what the store says of the first of them that it does
/// not hold or cannot read, or an error of the backend before that.
pub open spec fn listed_inode_wanting(store: RcDb<Inode>, hashes: Seq<Hash256>, e: RepoError) -> bool {
    exists|i: int|
        {
            &&& 0 <= i < hashes.len()
            &&& inode_wanting(store, (#[trigger] hashes[i])@, e)
            &&& forall|j: int| 0 <= j < i ==> store.entry((#[trigger] hashes[j])@) is Some
        }
}

/// What became of one chunk of a file: the count of its references, the
/// name of its file under the chunk directory, and, for the first reference,
/// the sealed bytes that have to be written there.
#[derive(Debug)]
pub struct ChunkStored {
    pub hash: Hash256,
    pub ref_count: usize,
    pub path: String,
    pub sealed: Option<Vec<u8>>,
}

/// What became of a file: the hash of its inode, the count of the references
/// to that inode, and its chunks in the order of the file.
#[derive(Debug)]
pub struct FileStored {
    pub inode: Hash256,
    pub ref_count: usize,
    pub chunks: Vec<ChunkStored>,
}

/// The hashes of stored chunks, in their order.
pub open spec fn stored_hashes(chunks: Seq<ChunkStored>) -> Seq<Hash256> {
    Seq::new(chunks.len(), |i: int| chunks[i].hash)
}

impl BackupManager {
    /// Tells whether the root of a backup may be used: it must be a
    /// directory.
    pub fn check_backup_root(path: &str, is_dir: bool) -> (r: Result<(), RepoError>)
        ensures
            match r {
                Ok(()) => is_dir,
                Err(e) => !is_dir && (e matches RepoError::BackrubError(
                    BackrubError::BackupRootMustBeDir(p),
                ) && p@ == path@),
            },
    {
        if !is_dir {
            return Err(
                RepoError::BackrubError(BackrubError::BackupRootMustBeDir(String::from_str(path))),
            );
        }
        Ok(())
    }

    /// Counts one more reference to a chunk and, for the first reference,
    /// seals the chunk for its file. A chunk that the cipher would not take
    /// is refused before anything is changed.
    pub fn store_chunk(&mut self, data: &[u8], hash: &Hash256) -> (r: Result<
        ChunkStored,
        RepoError,
    >)
        ensures
            final(self).inodes() == old(self).inodes(),
            final(self).backups() == old(self).backups(),
            final(self).manifest() == old(self).manifest(),
            final(self).keys() == old(self).keys(),
            final(self).sig_key() == old(self).sig_key(),
            match r {
                Ok(stored) => {
                    &&& crate::traits::sealable(data@.len())
                    &&& stored.hash == *hash
                    &&& ChunkDb::inserted(
                        old(self).chunks(),
                        final(self).chunks(),
                        hash@,
                        Ok((stored.ref_count, stored.path)),
                    )
                    &&& stored.ref_count == 1 <==> stored.sealed is Some
                    &&& stored.sealed matches Some(sealed) ==> open_envelope(
                        old(self).keys().chunk_enc_key@,
                        sealed@,
                    ) == Some(data@)
                },
                Err(e) => if crate::traits::sealable(data@.len()) {
                    ChunkDb::inserted(old(self).chunks(), final(self).chunks(), hash@, Err(e))
                } else {
                    e is InvalidCiphertext && final(self).chunks() == old(self).chunks()
                },
            },
    {
        if !crate::traits::can_seal(data.len()) {
            return Err(RepoError::InvalidCiphertext);
        }
        match self.chunk_db.insert(hash) {
            Err(e) => Err(e),
            Ok((ref_count, path)) => {
                let sealed = if ref_count == 1 {
                    match crate::traits::encrypt_bytes(data, &self.keys.chunk_enc_key) {
                        Ok(sealed) => Some(sealed),
                        Err(_) => vstd::pervasive::unreached(),
                    }
                } else {
                    None
                };
                Ok(ChunkStored { hash: *hash, ref_count, path, sealed })
            },
        }
    }

    /// Gives up the reference to a chunk whose file could not be written.
    pub fn rollback_chunk(&mut self, hash: &Hash256) -> (r: Result<
        Option<(usize, String)>,
        RepoError,
    >)
        ensures
            final(self).inodes() == old(self).inodes(),
            final(self).backups() == old(self).backups(),
            final(self).manifest() == old(self).manifest(),
            final(self).keys() == old(self).keys(),
            final(self).sig_key() == old(self).sig_key(),
            ChunkDb::removed(old(self).chunks(), final(self).chunks(), hash@, r),
    {
        self.chunk_db.remove(hash)
    }

    /// The records of the backups that the repository holds, in ascending
    /// order of their hashes.
    pub fn list_backups(&self) -> (r: Result<Vec<(Hash256, (usize, Backup))>, RepoError>)
        ensures
            self.backups().listed(r),
    {
        self.backup_db.get_mappings()
    }

    /// Opens the sealed bytes of a chunk file and checks that they are the
    /// chunk with the hash `hash`: `InvalidCiphertext` for bytes that were
    /// tampered with, and a report of corruption for bytes that open but are
    /// another chunk.
    pub fn open_chunk(&self, sealed: &[u8], hash: &Hash256) -> (r: Result<Vec<u8>, RepoError>)
        ensures
            match open_envelope(self.keys().chunk_enc_key@, sealed@) {
                None => r matches Err(RepoError::InvalidCiphertext),
                Some(plain) => if blake3_keyed_hash(self.keys().chunk_hash_key@, plain) == hash@ {
                    r matches Ok(bytes) && bytes@ == plain
                } else {
                    r matches Err(RepoError::Corruption(CorruptionKind::Record, Some(k))) && k@
                        == hash@
                },
            },
    {
        let plain = match crate::traits::decrypt_bytes(sealed, &self.keys.chunk_enc_key) {
            Ok(plain) => plain,
            Err(e) => {
                return Err(e);
            },
        };
        let found = crate::traits::keyed_hash(plain.as_slice(), &self.keys.chunk_hash_key);
        if found == *hash {
            Ok(plain)
        } else {
            Err(
                RepoError::Corruption(
                    CorruptionKind::Record,
                    Some(vstd::slice::slice_to_vec(hash.0.as_slice())),
                ),
            )
        }
    }

    /// Gives up the reference to the inode of a file whose chunks could not
    /// be written.
    pub fn rollback_inode(&mut self, hash: &Hash256) -> (r: Result<
        Option<(usize, Inode)>,
        RepoError,
    >)
        ensures
            final(self).chunks() == old(self).chunks(),
            final(self).backups() == old(self).backups(),
            final(self).manifest() == old(self).manifest(),
            final(self).keys() == old(self).keys(),
            final(self).sig_key() == old(self).sig_key(),
            RcDb::<Inode>::removed(old(self).inodes(), final(self).inodes(), hash@, r),
    {
        self.inode_db.remove(hash)
    }

    /// Stores the inode of a symbolic link and returns the count of its
    /// references and its hash.
    pub fn backup_symlink(&mut self, relpath: Vec<u8>, target: Vec<u8>, metadata: Metadata) -> (r:
        Result<(usize, Hash256), RepoError>)
        ensures
            final(self).chunks() == old(self).chunks(),
            final(self).backups() == old(self).backups(),
            final(self).manifest() == old(self).manifest(),
            final(self).keys() == old(self).keys(),
            final(self).sig_key() == old(self).sig_key(),
            RcDb::<Inode>::inserted(
                old(self).inodes(),
                final(self).inodes(),
                Inode::Symlink(Symlink { relpath, target, metadata }).canon(),
                r,
            ),
    {
        self.inode_db.insert(Inode::Symlink(Symlink { relpath, target, metadata }))
    }

    /// Tells whether the store of the inodes holds the inode `hash`, which
    /// another record is about to name.
    pub fn require_inode(&self, hash: &Hash256) -> (r: Result<(), RepoError>)
        ensures
            match r {
                Ok(()) => self.inodes().entry(hash@) is Some,
                Err(e) => inode_wanting(self.inodes(), hash@, e),
            },
    {
        match self.inode_db.get_ref_count(hash) {
            Ok(Some(_)) => Ok(()),
            Ok(None) => Err(
                RepoError::Corruption(
                    CorruptionKind::Missing,
                    Some(vstd::slice::slice_to_vec(hash.0.as_slice())),
                ),
            ),
            Err(e) => Err(e),
        }
    }

    /// Stores the inode of a directory, whose entries have been stored
    /// before, and returns the count of its references and its hash. A
    /// directory that lists an inode which the store does not hold is
    /// refused.
    pub fn backup_directory(
        &mut self,
        relpath: Vec<u8>,
        metadata: Metadata,
        contents: Vec<Hash256>,
    ) -> (r: Result<(usize, Hash256), RepoError>)
        ensures
            final(self).chunks() == old(self).chunks(),
            final(self).backups() == old(self).backups(),
            final(self).manifest() == old(self).manifest(),
            final(self).keys() == old(self).keys(),
            final(self).sig_key() == old(self).sig_key(),
            match r {
                Ok(_) => all_inodes_held(old(self).inodes(), contents@)
                    && RcDb::<Inode>::inserted(
                    old(self).inodes(),
                    final(self).inodes(),
                    Inode::Directory(Directory { relpath, metadata, contents }).canon(),
                    r,
                ),
                Err(e) => if all_inodes_held(old(self).inodes(), contents@) {
                    RcDb::<Inode>::inserted(
                        old(self).inodes(),
                        final(self).inodes(),
                        Inode::Directory(Directory { relpath, metadata, contents }).canon(),
                        r,
                    )
                } else {
                    final(self).inodes() == old(self).inodes() && listed_inode_wanting(
                        old(self).inodes(),
                        contents@,
                        e,
                    )
                },
            },
    {
        let mut i: usize = 0;
        while i < contents.len()
            invariant
                i <= contents@.len(),
                *self == *old(self),
                forall|j: int|
                    0 <= j < i ==> self.inodes().entry((#[trigger] contents@[j])@) is Some,
            decreases contents@.len() - i,
        {
            match self.require_inode(&contents[i]) {
                Ok(()) => {},
                Err(e) => {
                    proof {
                        let at = i as int;
                        assert(inode_wanting(self.inodes(), (#[trigger] contents@[at])@, e));
                        if e is SledError {
                        } else {
                            assert(!(self.inodes().entry(contents@[at]@) is Some));
                        }
                    }
                    return Err(e);
                },
            }
            i += 1;
        }
        self.inode_db.insert(Inode::Directory(Directory { relpath, metadata, contents }))
    }

    /// Stores the record of a backup: when it was made, its name and the
    /// hash of the inode of its root. A record that names a root which the
    /// store of the inodes does not hold is refused.
    pub fn record_backup(&mut self, timestamp: String, name: String, root: Hash256) -> (r: Result<
        (usize, Hash256),
        RepoError,
    >)
        ensures
            final(self).chunks() == old(self).chunks(),
            final(self).inodes() == old(self).inodes(),
            final(self).manifest() == old(self).manifest(),
            final(self).keys() == old(self).keys(),
            final(self).sig_key() == old(self).sig_key(),
            match r {
                Ok(_) => old(self).inodes().entry(root@) is Some && RcDb::<Backup>::inserted(
                    old(self).backups(),
                    final(self).backups(),
                    (Backup { timestamp, name, root }).canon(),
                    r,
                ),
                Err(e) => (old(self).inodes().entry(root@) is Some && RcDb::<Backup>::inserted(
                    old(self).backups(),
                    final(self).backups(),
                    (Backup { timestamp, name, root }).canon(),
                    r,
                )) || (final(self).backups() == old(self).backups() && inode_wanting(
                    old(self).inodes(),
                    root@,
                    e,
                )),
            },
    {
        match self.require_inode(&root) {
            Ok(()) => {},
            Err(e) => {
                return Err(e);
            },
        }
        self.backup_db.insert(Backup { timestamp, name, root })
    }

    /// Stores a file: cuts its content into chunks, counts a reference to
    /// each chunk, seals the chunks that are new, and stores the inode of
    /// the file with the hashes of its chunks in the order of the file.
    ///
    /// Each chunk counts one reference more for each time its hash stands in
    /// the file, and each stored chunk reports the count that its record had
    /// after its own reference was counted and the file name of the record.
    ///
    /// The stores of the inodes and of the backups are touched only by the
    /// insert of the inode, which comes last. Where a chunk cannot be
    /// counted or the inode cannot be stored, the references that were
    /// counted for the chunks are given up again before the error is
    /// returned: unless the backend failed, every chunk then counts what it
    /// counted before the call. Where the giving up fails too, which only
    /// the backend can cause, its error is returned.
    ///
    /// Whether the backend answers is its own affair. Apart from its errors,
    /// the file is refused for one of these reasons, all of them told by the
    /// stores as they were before the call: a chunk is too long for the
    /// cipher; the chunk store refuses to count one of the chunks; the store
    /// of the inodes refuses the inode.
    pub fn backup_file(&mut self, relpath: Vec<u8>, metadata: Metadata, data: &[u8]) -> (r: Result<
        FileStored,
        RepoError,
    >)
        ensures
            final(self).backups() == old(self).backups(),
            final(self).manifest() == old(self).manifest(),
            final(self).keys() == old(self).keys(),
            final(self).sig_key() == old(self).sig_key(),
            final(self).chunks().enc_key() == old(self).chunks().enc_key(),
            final(self).inodes().enc_key() == old(self).inodes().enc_key(),
            final(self).inodes().hash_key() == old(self).inodes().hash_key(),
            r matches Ok(stored) ==> {
                let cuts = chunks_of(data@, old(self).manifest().chunker_conf);
                &&& stored.chunks@.len() == cuts.len()
                &&& forall|i: int|
                    0 <= i < cuts.len() ==> {
                        let chunk = #[trigger] stored.chunks@[i];
                        &&& chunk.hash@ == blake3_keyed_hash(
                            old(self).keys().chunk_hash_key@,
                            cuts[i],
                        )
                        &&& chunk.ref_count == 1 <==> chunk.sealed is Some
                        &&& chunk.sealed matches Some(sealed) ==> open_envelope(
                            old(self).keys().chunk_enc_key@,
                            sealed@,
                        ) == Some(cuts[i])
                        &&& final(self).chunks().entry(chunk.hash@) is Some
                    }
                &&& chunks_reported(
                    old(self).chunks(),
                    final(self).chunks(),
                    chunk_keys(cuts, old(self).keys().chunk_hash_key@),
                    stored.chunks@,
                )
                &&& counted_so_far(
                    old(self).chunks(),
                    final(self).chunks(),
                    chunk_keys(cuts, old(self).keys().chunk_hash_key@),
                    cuts.len() as int,
                )
                &&& RcDb::<Inode>::inserted(
                    old(self).inodes(),
                    final(self).inodes(),
                    file_record(
                        relpath@,
                        stored_hashes(stored.chunks@),
                        metadata,
                        blake3_keyed_hash(old(self).keys().inode_hash_key@, data@),
                    ),
                    Ok((stored.ref_count, stored.inode)),
                )
            },
            r is Err ==> final(self).inodes().records() == old(self).inodes().records()
                || r matches Err(RepoError::SledError(_)),
            r matches Err(e) ==> e is SledError || counts_restored(
                old(self).chunks(),
                final(self).chunks(),
            ),
            r matches Err(e) ==> {
                let cuts = chunks_of(data@, old(self).manifest().chunker_conf);
                let hashes = chunk_keys(cuts, old(self).keys().chunk_hash_key@);
                ||| e is SledError
                ||| e is InvalidCiphertext && exists|i: int|
                    0 <= i < cuts.len() && !crate::traits::sealable((#[trigger] cuts[i]).len())
                ||| counting_refused(old(self).chunks(), hashes, e)
                ||| exists|ids: Seq<Hash256>|
                    #[trigger] hash_views(ids) == hashes && RcDb::<Inode>::inserted(
                        old(self).inodes(),
                        final(self).inodes(),
                        file_record(
                            relpath@,
                            ids,
                            metadata,
                            blake3_keyed_hash(old(self).keys().inode_hash_key@, data@),
                        ),
                        Err(e),
                    )
            },
    {
        let (chunks, file_hash) = match chunk_and_hash(
            data,
            &self.manifest.chunker_conf,
            &self.keys.chunk_hash_key,
            &self.keys.inode_hash_key,
        ) {
            Ok(x) => x,
            Err(e) => {
                return Err(e);
            },
        };
        let ghost cuts = chunks_of(data@, self.manifest.chunker_conf);
        let ghost hashes = chunk_keys(cuts, self.keys.chunk_hash_key@);
        let ghost start = *self;
        let mut stored: Vec<ChunkStored> = Vec::new();
        let mut chunk_ids: Vec<Hash256> = Vec::new();
        let mut i: usize = 0;
        proof {
            assert(hashes.take(0) =~= Seq::<Seq<u8>>::empty());
        }
        while i < chunks.len()
            invariant
                i <= chunks@.len(),
                chunks@.len() == cuts.len(),
                cuts == chunks_of(data@, start.manifest().chunker_conf),
                hashes == chunk_keys(cuts, start.keys().chunk_hash_key@),
                stored@.len() == i,
                chunk_ids@.len() == i,
                start == *old(self),
                self.inodes() == start.inodes(),
                self.backups() == start.backups(),
                self.manifest() == start.manifest(),
                self.keys() == start.keys(),
                self.sig_key() == start.sig_key(),
                counted_so_far(start.chunks(), self.chunks(), hashes, i as int),
                chunks_reported(start.chunks(), self.chunks(), hashes, stored@),
                forall|j: int|
                    0 <= j < chunks@.len() ==> (#[trigger] chunks@[j]).0@ == cuts[j]
                        && chunks@[j].1@ == hashes[j] && hashes[j] == blake3_keyed_hash(
                        start.keys().chunk_hash_key@,
                        cuts[j],
                    ),
                forall|j: int|
                    0 <= j < i ==> {
                        let chunk = #[trigger] stored@[j];
                        &&& chunk.hash == chunks@[j].1
                        &&& chunk_ids@[j] == chunks@[j].1
                        &&& chunk.ref_count == 1 <==> chunk.sealed is Some
                        &&& chunk.sealed matches Some(sealed) ==> open_envelope(
                            start.keys().chunk_enc_key@,
                            sealed@,
                        ) == Some(cuts[j])
                    },
            decreases chunks@.len() - i,
        {
            let ghost before = self.chunks();
            match self.store_chunk(chunks[i].0.as_slice(), &chunks[i].1) {
                Err(e) => {
                    proof {
                        assert(chunks@[i as int].0@ == cuts[i as int]);
                        if crate::traits::sealable(cuts[i as int].len()) {
                            if !(e is SledError) {
                                lemma_counting_refused(
                                    start.chunks(),
                                    before,
                                    self.chunks(),
                                    hashes,
                                    i as int,
                                    e,
                                );
                            }
                        }
                    }
                    let ghost counted = self.chunks();
                    proof {
                        assert(stored_keys(stored@) =~= hashes.take(i as int));
                        if !(e is SledError) {
                            lemma_counted_same(start.chunks(), before, counted, hashes, i as int);
                        }
                    }
                    match self.rollback_chunks(&stored) {
                        Ok(()) => {
                            proof {
                                if !(e is SledError) {
                                    lemma_counts_restored(
                                        start.chunks(),
                                        counted,
                                        self.chunks(),
                                        hashes,
                                        i as int,
                                    );
                                }
                            }
                            return Err(e);
                        },
                        Err(failed) => {
                            proof {
                                if !(e is SledError) {
                                    lemma_counted_can_go_back(
                                        start.chunks(),
                                        counted,
                                        hashes,
                                        i as int,
                                        failed,
                                    );
                                }
                            }
                            return Err(first_failure(e, failed));
                        },
                    }
                },
                Ok(chunk) => {
                    proof {
                        lemma_counted_one_more(
                            start.chunks(),
                            before,
                            self.chunks(),
                            hashes,
                            i as int,
                            Ok((chunk.ref_count, chunk.path)),
                        );
                        let key = hashes[i as int];
                        assert(self.chunks()@[key] == (chunk.ref_count as nat, chunk.path@));
                        assert(rc_count(self.chunks()@, key) == rc_count(start.chunks()@, key)
                            + occurrences(hashes.take(i + 1), key));
                        assert forall|j: int| 0 <= j < i implies self.chunks()@.contains_key(
                            #[trigger] hashes[j],
                        ) && self.chunks()@[hashes[j]].1 == before@[hashes[j]].1 by {
                            assert(before.entry(hashes[j]) is Some);
                            assert(before@.contains_key(hashes[j]));
                        }
                    }
                    chunk_ids.push(chunk.hash);
                    stored.push(chunk);
                },
            }
            i += 1;
        }
        let ghost ids = chunk_ids@;
        proof {
            assert(chunk_ids@ =~= stored_hashes(stored@));
            assert(hash_views(ids) =~= hashes);
            assert forall|j: int| 0 <= j < cuts.len() implies self.chunks().entry(
                (#[trigger] stored@[j]).hash@,
            ) is Some by {
                assert(self.chunks().entry(hashes[j]) is Some);
            }
        }
        let inode = Inode::File(File { relpath, chunk_ids, metadata, file_hash });
        match self.inode_db.insert(inode) {
            Ok((ref_count, hash)) => Ok(FileStored { inode: hash, ref_count, chunks: stored }),
            Err(e) => {
                let ghost counted = self.chunks();
                proof {
                    assert(stored_keys(stored@) =~= hashes);
                    assert(hashes.take(hashes.len() as int) =~= hashes);
                }
                match self.rollback_chunks(&stored) {
                    Ok(()) => {
                        proof {
                            lemma_counts_restored(
                                start.chunks(),
                                counted,
                                self.chunks(),
                                hashes,
                                hashes.len() as int,
                            );
                        }
                        Err(e)
                    },
                    Err(failed) => {
                        proof {
                            lemma_counted_can_go_back(
                                start.chunks(),
                                counted,
                                hashes,
                                hashes.len() as int,
                                failed,
                            );
                        }
                        Err(first_failure(e, failed))
                    },
                }
            },
        }
    }

    /// Gives up a file that was stored and whose chunk at `failed` could not
    /// be written to its file: the references that were counted for its
    /// chunks, from the last one back, and then the reference to its inode.
    ///
    /// Returned are the file names of the chunks before `failed` that lost
    /// their last reference, in the order in which they lost it: their
    /// files were written for this file and are to be removed. The first
    /// remove that fails ends the call with its error.
    pub fn abandon_file(&mut self, stored: &FileStored, failed: usize) -> (r: Result<
        Vec<String>,
        RepoError,
    >)
        ensures
            final(self).backups() == old(self).backups(),
            final(self).manifest() == old(self).manifest(),
            final(self).keys() == old(self).keys(),
            final(self).sig_key() == old(self).sig_key(),
            final(self).chunks().enc_key() == old(self).chunks().enc_key(),
            match r {
                Ok(names) => {
                    &&& final(self).chunks()@ == rc_remove_back(
                        old(self).chunks()@,
                        stored_keys(stored.chunks@),
                    )
                    &&& removed_so_far(old(self).chunks(), final(self).chunks())
                    &&& final(self).inodes()@ == rc_remove(old(self).inodes()@, stored.inode@)
                    &&& name_views(names@) == files_to_remove(
                        old(self).chunks()@,
                        stored_keys(stored.chunks@),
                        failed as int,
                    )
                },
                Err(e) => {
                    ||| e is SledError
                    ||| (final(self).inodes() == old(self).inodes() && removing_refused(
                        old(self).chunks(),
                        stored_keys(stored.chunks@),
                        e,
                    ))
                    ||| (final(self).chunks()@ == rc_remove_back(
                        old(self).chunks()@,
                        stored_keys(stored.chunks@),
                    ) && RcDb::<Inode>::removed(
                        old(self).inodes(),
                        final(self).inodes(),
                        stored.inode@,
                        Err(e),
                    ))
                },
            },
    {
        let ghost keys = stored_keys(stored.chunks@);
        let ghost gone = files_to_remove(old(self).chunks()@, keys, failed as int);
        let mut names: Vec<String> = Vec::new();
        let mut i: usize = stored.chunks.len();
        proof {
            assert(keys.take(i as int) =~= keys);
            assert(name_views(names@) =~= Seq::<Seq<char>>::empty());
            assert(name_views(names@) + gone =~= gone);
        }
        while i > 0
            invariant
                i <= stored.chunks@.len(),
                keys == stored_keys(stored.chunks@),
                gone == files_to_remove(old(self).chunks()@, keys, failed as int),
                self.inodes() == old(self).inodes(),
                self.backups() == old(self).backups(),
                self.manifest() == old(self).manifest(),
                self.keys() == old(self).keys(),
                self.sig_key() == old(self).sig_key(),
                removed_so_far(old(self).chunks(), self.chunks()),
                rc_remove_back(self.chunks()@, keys.take(i as int)) == rc_remove_back(
                    old(self).chunks()@,
                    keys,
                ),
                name_views(names@) + files_to_remove(
                    self.chunks()@,
                    keys.take(i as int),
                    failed as int,
                ) == gone,
            decreases i,
        {
            i -= 1;
            let ghost pre = self.chunks();
            let ghost before = name_views(names@);
            let outcome = self.chunk_db.remove(&stored.chunks[i].hash);
            proof {
                assert(keys[i as int] == stored.chunks@[i as int].hash@);
                assert(keys.take(i + 1).last() == keys[i as int]);
                assert(keys.take(i + 1).drop_last() =~= keys.take(i as int));
            }
            match outcome {
                Ok(left) => {
                    proof {
                        lemma_removed_one_more(
                            old(self).chunks(),
                            pre,
                            self.chunks(),
                            keys[i as int],
                            Ok(left),
                        );
                        if left is None {
                            assert(!pre@.contains_key(keys[i as int]));
                        }
                    }
                    let ghost rest = files_to_remove(
                        self.chunks()@,
                        keys.take(i as int),
                        failed as int,
                    );
                    match left {
                        Some((count, name)) => {
                            if count == 0 && i < failed {
                                names.push(name);
                                proof {
                                    assert(name_views(names@) =~= before + seq![name@]);
                                    assert(name_views(names@) + rest =~= before + (seq![name@]
                                        + rest));
                                }
                            }
                        },
                        None => {},
                    }
                },
                Err(e) => {
                    proof {
                        if !(e is SledError) {
                            lemma_removing_refused(
                                old(self).chunks(),
                                pre,
                                self.chunks(),
                                keys,
                                i as int,
                                e,
                            );
                        }
                    }
                    return Err(e);
                },
            }
        }
        proof {
            assert(keys.take(0) =~= Seq::<Seq<u8>>::empty());
            assert(name_views(names@) + Seq::<Seq<char>>::empty() =~= name_views(names@));
        }
        let ghost inodes = self.inodes();
        match self.inode_db.remove(&stored.inode) {
            Ok(left) => {
                proof {
                    if left is None {
                        assert(self.inodes()@ =~= inodes@);
                        assert(!inodes@.contains_key(stored.inode@));
                    }
                }
                Ok(names)
            },
            Err(e) => Err(e),
        }
    }

    /// Gives up the references that were counted for `stored`, from the last
    /// one back: with each, the count of the chunk goes down by one, and the
    /// record of a chunk leaves with its last reference. The first remove
    /// that fails ends the run with its error; apart from an error of the
    /// backend, that is a record which the chunk store held unreadable
    /// before the run, or one whose file name is too long to be sealed
    /// again.
    fn rollback_chunks(&mut self, stored: &Vec<ChunkStored>) -> (r: Result<(), RepoError>)
        ensures
            final(self).inodes() == old(self).inodes(),
            final(self).backups() == old(self).backups(),
            final(self).manifest() == old(self).manifest(),
            final(self).keys() == old(self).keys(),
            final(self).sig_key() == old(self).sig_key(),
            final(self).chunks().enc_key() == old(self).chunks().enc_key(),
            final(self).chunks().paths().counter() == old(self).chunks().paths().counter(),
            match r {
                Ok(()) => final(self).chunks()@ == rc_remove_back(
                    old(self).chunks()@,
                    stored_keys(stored@),
                ) && removed_so_far(old(self).chunks(), final(self).chunks()),
                Err(e) => e is SledError || (removing_refused(
                    old(self).chunks(),
                    stored_keys(stored@),
                    e,
                ) && removed_so_far(old(self).chunks(), final(self).chunks())),
            },
    {
        let ghost keys = stored_keys(stored@);
        let mut i: usize = stored.len();
        proof {
            assert(keys.take(i as int) =~= keys);
        }
        while i > 0
            invariant
                i <= stored@.len(),
                keys == stored_keys(stored@),
                self.inodes() == old(self).inodes(),
                self.backups() == old(self).backups(),
                self.manifest() == old(self).manifest(),
                self.keys() == old(self).keys(),
                self.sig_key() == old(self).sig_key(),
                removed_so_far(old(self).chunks(), self.chunks()),
                rc_remove_back(self.chunks()@, keys.take(i as int)) == rc_remove_back(
                    old(self).chunks()@,
                    keys,
                ),
            decreases i,
        {
            i -= 1;
            let ghost pre = self.chunks();
            let outcome = self.chunk_db.remove(&stored[i].hash);
            proof {
                assert(keys[i as int] == stored@[i as int].hash@);
                assert(keys.take(i + 1).last() == keys[i as int]);
                assert(keys.take(i + 1).drop_last() =~= keys.take(i as int));
            }
            match outcome {
                Ok(_) => {
                    proof {
                        lemma_removed_one_more(
                            old(self).chunks(),
                            pre,
                            self.chunks(),
                            keys[i as int],
                            outcome,
                        );
                    }
                },
                Err(e) => {
                    proof {
                        if !(e is SledError) {
                            lemma_removing_refused(
                                old(self).chunks(),
                                pre,
                                self.chunks(),
                                keys,
                                i as int,
                                e,
                            );
                        }
                    }
                    return Err(e);
                },
            }
        }
        Ok(())
    }
}

/// The error of a step that failed and whose undoing failed too: that of
/// the step where the backend failed in it, else that of the undoing.
pub fn first_failure(step: RepoError, undoing: RepoError) -> (r: RepoError)
    ensures
        r == if step is SledError {
            step
        } else {
            undoing
        },
{
    match step {
        RepoError::SledError(e) => RepoError::SledError(e),
        _ => undoing,
    }
}

/// Whether each of the stored chunks reports the record that the chunk
/// store made for it: the file name that the record has in the store `now`,
/// and the count that the record had after the reference to this chunk was
/// counted, which is the count in the store `before` and one for each time
/// the hash stands in the file up to this chunk.
pub open spec fn chunks_reported(
    before: ChunkDb,
    now: ChunkDb,
    hashes: Seq<Seq<u8>>,
    stored: Seq<ChunkStored>,
) -> bool {
    forall|j: int|
        0 <= j < stored.len() ==> {
            let chunk = #[trigger] stored[j];
            &&& now@.contains_key(hashes[j])
            &&& chunk.path@ == now@[hashes[j]].1
            &&& chunk.ref_count == rc_count(before@, hashes[j]) + occurrences(
                hashes.take(j + 1),
                hashes[j],
            )
        }
}

/// The texts of names, in their order.
pub open spec fn name_views(names: Seq<String>) -> Seq<Seq<char>> {
    Seq::new(names.len(), |i: int| names[i]@)
}

/// The file names that are to be removed when one reference to each of
/// `keys` is given up, from the last key back, after the chunk at `failed`
/// could not be written: the names of the chunks before `failed` that lose
/// their last reference, in the order in which they lose it.
pub open spec fn files_to_remove(
    map: Map<Seq<u8>, (nat, Seq<char>)>,
    keys: Seq<Seq<u8>>,
    failed: int,
) -> Seq<Seq<char>>
    decreases keys.len(),
{
    if keys.len() == 0 {
        Seq::empty()
    } else {
        let rest = files_to_remove(rc_remove(map, keys.last()), keys.drop_last(), failed);
        let left = rc_removed(map, keys.last());
        if keys.len() - 1 < failed && left is Some && left.unwrap().0 == 0 {
            seq![left.unwrap().1] + rest
        } else {
            rest
        }
    }
}

/// The keys of stored chunks, in their order: the bytes of their hashes.
pub open spec fn stored_keys(chunks: Seq<ChunkStored>) -> Seq<Seq<u8>> {
    Seq::new(chunks.len(), |i: int| chunks[i].hash@)
}

/// The bytes of hashes, in their order.
pub open spec fn hash_views(hashes: Seq<Hash256>) -> Seq<Seq<u8>> {
    Seq::new(hashes.len(), |i: int| hashes[i]@)
}

/// The keys under which the chunk store counts the chunks `cuts`: the hash
/// of each chunk under the chunk hash key.
pub open spec fn chunk_keys(cuts: Seq<Seq<u8>>, hash_key: Seq<u8>) -> Seq<Seq<u8>> {
    Seq::new(cuts.len(), |i: int| blake3_keyed_hash(hash_key, cuts[i]))
}

/// The serialization of the inode of a file.
pub open spec fn file_record(
    relpath: Seq<u8>,
    chunk_ids: Seq<Hash256>,
    metadata: Metadata,
    file_hash: Seq<u8>,
) -> Seq<u8> {
    crate::codec::le32(crate::inode::TAG_FILE) + (crate::codec::sized(relpath)
        + crate::codec::hash_list(chunk_ids) + crate::inode::metadata_bytes(metadata) + file_hash)
}

} // verus!
