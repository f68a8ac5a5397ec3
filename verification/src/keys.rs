use crate::error::RepoError;
use crate::structs::{
    bytes32_at, lemma_xor_twice, xor_bytes, Key256, CRYPTO_KEYS_SIZE, KEY_SIZE, TOTAL_KEY_SIZE,
};
use chacha20poly1305::aead::rand_core::RngCore;
use chacha20poly1305::aead::OsRng;
use vstd::prelude::*;
use vstd::slice::*;
use vstd::std_specs::convert::FromSpecImpl;

verus! {

/// The four keys of a repository that hash and encrypt its data. They are
/// made once, from the system's random number generator, and kept in the
/// manifest under a mask.
#[derive(Clone, Hash, Copy, Debug, PartialEq, Eq)]
pub struct CryptoKeys {
    pub chunk_hash_key: Key256,
    pub chunk_enc_key: Key256,
    pub inode_hash_key: Key256,
    pub inode_enc_key: Key256,
}

/// The four data keys as the manifest holds them: each masked with its key
/// encryption key.
#[derive(Clone, Hash, Copy, Debug, PartialEq, Eq)]
pub struct EncCryptoKeys {
    pub enc_chunk_hash_key: Key256,
    pub enc_chunk_enc_key: Key256,
    pub enc_inode_hash_key: Key256,
    pub enc_inode_enc_key: Key256,
}

/// The four key encryption keys, which the password gives: the masks of the
/// data keys.
#[derive(Clone, Hash, Copy, Debug, PartialEq, Eq)]
pub struct KeyEncryptionKeys {
    pub key_chunk_hash_key: Key256,
    pub key_chunk_enc_key: Key256,
    pub key_inode_hash_key: Key256,
    pub key_inode_enc_key: Key256,
}

impl View for CryptoKeys {
    type V = Seq<u8>;

    /// The four keys one after the other: chunk hash, chunk encryption,
    /// inode hash, inode encryption.
    open spec fn view(&self) -> Seq<u8> {
        self.chunk_hash_key@ + self.chunk_enc_key@ + self.inode_hash_key@ + self.inode_enc_key@
    }
}

impl View for EncCryptoKeys {
    type V = Seq<u8>;

    /// The four masked keys one after the other, in the order of the keys.
    open spec fn view(&self) -> Seq<u8> {
        self.enc_chunk_hash_key@ + self.enc_chunk_enc_key@ + self.enc_inode_hash_key@
            + self.enc_inode_enc_key@
    }
}

impl View for KeyEncryptionKeys {
    type V = Seq<u8>;

    /// The four masks one after the other, in the order of the keys.
    open spec fn view(&self) -> Seq<u8> {
        self.key_chunk_hash_key@ + self.key_chunk_enc_key@ + self.key_inode_hash_key@
            + self.key_inode_enc_key@
    }
}

/// Masking four keys one by one masks the four of them as a whole.
proof fn lemma_xor_four(a: Seq<Seq<u8>>, b: Seq<Seq<u8>>)
    requires
        a.len() == 4,
        b.len() == 4,
        forall|i: int| 0 <= i < 4 ==> a[i].len() == KEY_SIZE && b[i].len() == KEY_SIZE,
    ensures
        xor_bytes(a[0], b[0]) + xor_bytes(a[1], b[1]) + xor_bytes(a[2], b[2]) + xor_bytes(
            a[3],
            b[3],
        ) == xor_bytes(a[0] + a[1] + a[2] + a[3], b[0] + b[1] + b[2] + b[3]),
{
    assert(xor_bytes(a[0], b[0]) + xor_bytes(a[1], b[1]) + xor_bytes(a[2], b[2]) + xor_bytes(
        a[3],
        b[3],
    ) =~= xor_bytes(a[0] + a[1] + a[2] + a[3], b[0] + b[1] + b[2] + b[3]));
}

/// The key that stands at `at` in a run of keys.
fn key_at(keys: &[u8], at: usize) -> (r: Key256)
    requires
        at + KEY_SIZE <= keys@.len(),
    ensures
        r@ == keys@.subrange(at as int, at + KEY_SIZE),
{
    Key256(bytes32_at(keys, at))
}

/// The key whose bytes are `bytes`.
pub open spec fn key_holding(bytes: Seq<u8>) -> Key256 {
    Key256(choose|a: [u8; KEY_SIZE]| a@ == bytes)
}

/// A key is the key that holds its bytes.
pub proof fn lemma_key_holding(key: Key256)
    ensures
        key_holding(key@) == key,
{
    let a = choose|a: [u8; KEY_SIZE]| a@ == key@;
    assert(key.0@ == key@);
    assert(a =~= key.0);
}

impl From<[u8; CRYPTO_KEYS_SIZE]> for KeyEncryptionKeys {
    /// Cuts the four masks out of the bytes that the password gave.
    fn from(keys: [u8; CRYPTO_KEYS_SIZE]) -> (r: Self)
        ensures
            r@ == keys@,
    {
        let r = KeyEncryptionKeys {
            key_chunk_hash_key: key_at(keys.as_slice(), 0),
            key_chunk_enc_key: key_at(keys.as_slice(), KEY_SIZE),
            key_inode_hash_key: key_at(keys.as_slice(), 2 * KEY_SIZE),
            key_inode_enc_key: key_at(keys.as_slice(), 3 * KEY_SIZE),
        };
        proof {
            assert(r@ =~= keys@);
            lemma_key_holding(r.key_chunk_hash_key);
            lemma_key_holding(r.key_chunk_enc_key);
            lemma_key_holding(r.key_inode_hash_key);
            lemma_key_holding(r.key_inode_enc_key);
        }
        r
    }
}

impl FromSpecImpl<[u8; CRYPTO_KEYS_SIZE]> for KeyEncryptionKeys {
    open spec fn obeys_from_spec() -> bool {
        true
    }

    /// The four masks: the bytes in runs of 32, in the order of the keys.
    open spec fn from_spec(keys: [u8; CRYPTO_KEYS_SIZE]) -> Self {
        KeyEncryptionKeys {
            key_chunk_hash_key: key_holding(keys@.subrange(0, 32)),
            key_chunk_enc_key: key_holding(keys@.subrange(32, 64)),
            key_inode_hash_key: key_holding(keys@.subrange(64, 96)),
            key_inode_enc_key: key_holding(keys@.subrange(96, 128)),
        }
    }
}

impl KeyEncryptionKeys {
    /// Cuts the four masks out of a run of 128 bytes.
    pub fn from_slice(keys: &[u8]) -> (r: Option<Self>)
        ensures
            r is Some <==> keys@.len() == CRYPTO_KEYS_SIZE,
            r matches Some(k) ==> k@ == keys@,
    {
        if keys.len() != CRYPTO_KEYS_SIZE {
            return None;
        }
        let r = KeyEncryptionKeys {
            key_chunk_hash_key: key_at(keys, 0),
            key_chunk_enc_key: key_at(keys, KEY_SIZE),
            key_inode_hash_key: key_at(keys, 2 * KEY_SIZE),
            key_inode_enc_key: key_at(keys, 3 * KEY_SIZE),
        };
        assert(r@ =~= keys@);
        Some(r)
    }
}

/// `OsRng.fill_bytes` on `N` bytes: nothing is known of what the system's
/// random number generator gives.
#[verifier::external_body]
pub(crate) fn random_bytes<const N: usize>() -> [u8; N] {
    let mut bytes = [0u8; N];
    OsRng.fill_bytes(&mut bytes);
    bytes
}

impl CryptoKeys {
    /// Four new keys from the system's random number generator: 128 bytes
    /// of which nothing else is known.
    pub fn new() -> (r: Self)
        ensures
            r@.len() == CRYPTO_KEYS_SIZE,
    {
        let keys = random_bytes::<CRYPTO_KEYS_SIZE>();
        CryptoKeys::from_bytes(&keys)
    }

    /// The four keys that a run of 128 bytes holds.
    pub fn from_bytes(keys: &[u8; CRYPTO_KEYS_SIZE]) -> (r: Self)
        ensures
            r@ == keys@,
    {
        let r = CryptoKeys {
            chunk_hash_key: key_at(keys.as_slice(), 0),
            chunk_enc_key: key_at(keys.as_slice(), KEY_SIZE),
            inode_hash_key: key_at(keys.as_slice(), 2 * KEY_SIZE),
            inode_enc_key: key_at(keys.as_slice(), 3 * KEY_SIZE),
        };
        assert(r@ =~= keys@);
        r
    }

    /// Masks each key with its key encryption key.
    pub fn encrypt(&self, keys: KeyEncryptionKeys) -> (r: EncCryptoKeys)
        ensures
            r@ == xor_bytes(self@, keys@),
            r.enc_chunk_hash_key@ == xor_bytes(self.chunk_hash_key@, keys.key_chunk_hash_key@),
            r.enc_chunk_enc_key@ == xor_bytes(self.chunk_enc_key@, keys.key_chunk_enc_key@),
            r.enc_inode_hash_key@ == xor_bytes(self.inode_hash_key@, keys.key_inode_hash_key@),
            r.enc_inode_enc_key@ == xor_bytes(self.inode_enc_key@, keys.key_inode_enc_key@),
    {
        let r = EncCryptoKeys {
            enc_chunk_hash_key: self.chunk_hash_key.xor_keys(&keys.key_chunk_hash_key),
            enc_chunk_enc_key: self.chunk_enc_key.xor_keys(&keys.key_chunk_enc_key),
            enc_inode_hash_key: self.inode_hash_key.xor_keys(&keys.key_inode_hash_key),
            enc_inode_enc_key: self.inode_enc_key.xor_keys(&keys.key_inode_enc_key),
        };
        proof {
            lemma_xor_four(
                seq![
                    self.chunk_hash_key@,
                    self.chunk_enc_key@,
                    self.inode_hash_key@,
                    self.inode_enc_key@,
                ],
                seq![
                    keys.key_chunk_hash_key@,
                    keys.key_chunk_enc_key@,
                    keys.key_inode_hash_key@,
                    keys.key_inode_enc_key@,
                ],
            );
        }
        r
    }
}

impl EncCryptoKeys {
    /// Takes the mask off each key.
    pub fn decrypt(&self, keys: KeyEncryptionKeys) -> (r: CryptoKeys)
        ensures
            r@ == xor_bytes(self@, keys@),
            r.chunk_hash_key@ == xor_bytes(self.enc_chunk_hash_key@, keys.key_chunk_hash_key@),
            r.chunk_enc_key@ == xor_bytes(self.enc_chunk_enc_key@, keys.key_chunk_enc_key@),
            r.inode_hash_key@ == xor_bytes(self.enc_inode_hash_key@, keys.key_inode_hash_key@),
            r.inode_enc_key@ == xor_bytes(self.enc_inode_enc_key@, keys.key_inode_enc_key@),
    {
        let r = CryptoKeys {
            chunk_hash_key: self.enc_chunk_hash_key.xor_keys(&keys.key_chunk_hash_key),
            chunk_enc_key: self.enc_chunk_enc_key.xor_keys(&keys.key_chunk_enc_key),
            inode_hash_key: self.enc_inode_hash_key.xor_keys(&keys.key_inode_hash_key),
            inode_enc_key: self.enc_inode_enc_key.xor_keys(&keys.key_inode_enc_key),
        };
        proof {
            lemma_xor_four(
                seq![
                    self.enc_chunk_hash_key@,
                    self.enc_chunk_enc_key@,
                    self.enc_inode_hash_key@,
                    self.enc_inode_enc_key@,
                ],
                seq![
                    keys.key_chunk_hash_key@,
                    keys.key_chunk_enc_key@,
                    keys.key_inode_hash_key@,
                    keys.key_inode_enc_key@,
                ],
            );
        }
        r
    }
}

/// Taking the mask off masked keys gives the keys back: with the key
/// encryption keys of the password, the data keys are read from the manifest
/// as they were written.
pub proof fn lemma_unmask_inverts_mask(keys: CryptoKeys, masks: KeyEncryptionKeys)
    ensures
        xor_bytes(xor_bytes(keys@, masks@), masks@) == keys@,
{
    lemma_xor_twice(keys@, masks@);
}

/// The parameters of the password hash.
#[derive(Clone, Hash, Copy, Debug, PartialEq, Eq, Structural)]
pub struct Argon2Conf {
    pub threads: u32,
    pub mem_cost: u32,
    pub time_cost: u32,
    pub variant: u32,
    pub version: u32,
}

/// The number of the variant Argon2id.
pub const ARGON2ID: u32 = 2;

/// The number of bytes that the password hash is asked for: a signature key
/// and four key encryption keys.
pub const ROOT_LENGTH: u32 = 160;

/// The number of version 1.3 of Argon2.
pub const ARGON2_VERSION_13: u32 = 0x13;

impl Default for Argon2Conf {
    fn default() -> (r: Self)
        ensures
            r == (Argon2Conf {
                threads: 4,
                mem_cost: 2097152,
                time_cost: 20,
                variant: ARGON2ID,
                version: ARGON2_VERSION_13,
            }),
    {
        Argon2Conf {
            threads: 4,
            mem_cost: 1024 * 1024 * 2,  // 2 GB per thread => 8GB total
            time_cost: 20,  // very conservative value
            variant: ARGON2ID,
            version: ARGON2_VERSION_13,
        }
    }
}

/// What Argon2 makes of a password, without secret and associated data:
/// `hash_length` bytes, or nothing where it refuses the parameters.
pub uninterp spec fn argon2_raw(
    password: Seq<u8>,
    salt: Seq<u8>,
    hash_length: u32,
    lanes: u32,
    mem_cost: u32,
    time_cost: u32,
    variant: u32,
    version: u32,
) -> Option<Seq<u8>>;

/// What the password hash gives for a password under a repository's salt
/// and parameters: the bytes that are cut into the signature key and the key
/// encryption keys, or nothing where the hash refuses the parameters.
pub open spec fn stretched(password: Seq<u8>, salt: Seq<u8>, conf: Argon2Conf) -> Option<Seq<u8>> {
    argon2_raw(
        password,
        salt,
        ROOT_LENGTH,
        conf.threads,
        conf.mem_cost,
        conf.time_cost,
        conf.variant,
        conf.version,
    )
}

/// `argon2::hash_raw` with a configuration made of `conf`: `hash_length`
/// bytes of output, as many lanes as threads, no secret and no associated
/// data. The crate refuses an unknown variant or version and parameters
/// outside its limits, which depends on the arguments alone; what it returns
/// has the length that was asked for.
#[verifier::external_body]
fn argon2_root(password: &[u8], salt: &[u8], hash_length: u32, conf: &Argon2Conf) -> (r: Result<
    Vec<u8>,
    argon2::Error,
>)
    ensures
        match r {
            Ok(root) => root@.len() == hash_length && argon2_raw(
                password@,
                salt@,
                hash_length,
                conf.threads,
                conf.mem_cost,
                conf.time_cost,
                conf.variant,
                conf.version,
            ) == Some(root@),
            Err(_) => argon2_raw(
                password@,
                salt@,
                hash_length,
                conf.threads,
                conf.mem_cost,
                conf.time_cost,
                conf.variant,
                conf.version,
            ) is None,
        },
{
    let config = argon2::Config {
        ad: &[],
        hash_length,
        lanes: conf.threads,
        mem_cost: conf.mem_cost,
        secret: &[],
        thread_mode: argon2::ThreadMode::from_threads(conf.threads),
        time_cost: conf.time_cost,
        variant: argon2::Variant::from_u32(conf.variant)?,
        version: argon2::Version::from_u32(conf.version)?,
    };
    argon2::hash_raw(password, salt, &config)
}

/// Cuts what the password hash gave into the signature key and the four key
/// encryption keys, in this order. Anything but 160 bytes is refused.
pub fn split_root(root: &[u8]) -> (r: Option<(Key256, KeyEncryptionKeys)>)
    ensures
        r is Some <==> root@.len() == TOTAL_KEY_SIZE,
        r matches Some((sig_key, masks)) ==> sig_key@ == root@.subrange(0, KEY_SIZE as int)
            && masks@ == root@.subrange(KEY_SIZE as int, TOTAL_KEY_SIZE as int),
{
    if root.len() != TOTAL_KEY_SIZE {
        return None;
    }
    let sig_key = key_at(root, 0);
    match KeyEncryptionKeys::from_slice(slice_subrange(root, KEY_SIZE, TOTAL_KEY_SIZE)) {
        Some(masks) => Some((sig_key, masks)),
        None => None,
    }
}

/// The signature key and the key encryption keys that belong to a password:
/// the password is stretched with Argon2 under the repository's salt, and the
/// result is cut up. The call fails exactly where the password hash refuses
/// the parameters.
pub fn derive_keys(password: &[u8], salt: &[u8], conf: &Argon2Conf) -> (r: Result<
    (Key256, KeyEncryptionKeys),
    RepoError,
>)
    ensures
        match stretched(password@, salt@, *conf) {
            Some(root) => {
                &&& root.len() == TOTAL_KEY_SIZE
                &&& r matches Ok((sig_key, masks))
                &&& sig_key@ == root.subrange(0, KEY_SIZE as int)
                &&& masks@ == root.subrange(KEY_SIZE as int, TOTAL_KEY_SIZE as int)
            },
            None => r matches Err(e) && e is Argon2Error,
        },
{
    match argon2_root(password, salt, ROOT_LENGTH, conf) {
        Err(e) => Err(RepoError::Argon2Error(e)),
        Ok(root) => match split_root(root.as_slice()) {
            Some(keys) => Ok(keys),
            None => vstd::pervasive::unreached(),
        },
    }
}

} // verus!
