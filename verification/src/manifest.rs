use crate::codec::{
    le32, le64, lemma_cut, lemma_le32_cut, lemma_le64_cut, lemma_sized_text_cut,
    lemma_text_list_cut, put_text, put_u32, put_u64, sized_text, text_list, texts_fit, Encode,
};
use crate::db::ChunkDbState;
use crate::error::{BackrubError, RepoError};
use crate::keys::{lemma_key_holding, Argon2Conf, EncCryptoKeys};
use crate::structs::{ChunkerConf, Key256, HASH_SIZE, SALT_SIZE};
use crate::traits::{blake3_keyed_hash, Hashable};
use vstd::prelude::*;
use vstd::utf8::*;

verus! {

/// The one document of a repository that is not encrypted: the salt of the
/// password hash and its parameters, where the chunks and the database lie,
/// the chunker's configuration, the masked data keys, and the state of the
/// path generator.
#[derive(Hash, Debug, PartialEq, Eq)]
pub struct Manifest {
    pub salt: [u8; SALT_SIZE],
    pub chunk_root_dir: String,
    pub db_path: String,
    pub version: String,
    pub chunker_conf: ChunkerConf,
    pub keys: EncCryptoKeys,
    pub argon2_conf: Argon2Conf,
    pub chunk_db_state: ChunkDbState,
}

/// The serialization of the chunker's configuration.
pub open spec fn chunker_conf_bytes(conf: ChunkerConf) -> Seq<u8> {
    le64(conf.minimum_chunk_size) + le64(conf.average_chunk_size) + le64(conf.maximum_chunk_size)
}

/// The serialization of the parameters of the password hash.
pub open spec fn argon2_conf_bytes(conf: Argon2Conf) -> Seq<u8> {
    le32(conf.threads) + le32(conf.mem_cost) + le32(conf.time_cost) + le32(conf.variant) + le32(
        conf.version,
    )
}

impl Encode for Manifest {
    /// The fields of the manifest one after the other.
    open spec fn canon(&self) -> Seq<u8> {
        self.salt@ + sized_text(self.chunk_root_dir@) + sized_text(self.db_path@) + sized_text(
            self.version@,
        ) + chunker_conf_bytes(self.chunker_conf) + self.keys@ + argon2_conf_bytes(
            self.argon2_conf,
        ) + self.chunk_db_state.canon()
    }

    fn to_bytes(&self) -> (bytes: Vec<u8>) {
        let mut out: Vec<u8> = Vec::new();
        out.extend_from_slice(self.salt.as_slice());
        put_text(&mut out, self.chunk_root_dir.as_str());
        put_text(&mut out, self.db_path.as_str());
        put_text(&mut out, self.version.as_str());
        put_u64(&mut out, self.chunker_conf.minimum_chunk_size);
        put_u64(&mut out, self.chunker_conf.average_chunk_size);
        put_u64(&mut out, self.chunker_conf.maximum_chunk_size);
        out.extend_from_slice(self.keys.enc_chunk_hash_key.0.as_slice());
        out.extend_from_slice(self.keys.enc_chunk_enc_key.0.as_slice());
        out.extend_from_slice(self.keys.enc_inode_hash_key.0.as_slice());
        out.extend_from_slice(self.keys.enc_inode_enc_key.0.as_slice());
        put_u32(&mut out, self.argon2_conf.threads);
        put_u32(&mut out, self.argon2_conf.mem_cost);
        put_u32(&mut out, self.argon2_conf.time_cost);
        put_u32(&mut out, self.argon2_conf.variant);
        put_u32(&mut out, self.argon2_conf.version);
        let state = self.chunk_db_state.to_bytes();
        out.extend_from_slice(state.as_slice());
        assert(out@ =~= self.canon());
        out
    }
}

impl Hashable for Manifest {

}

impl Manifest {
    /// Whether two manifests say the same, field by field.
    pub open spec fn same_as(&self, other: Manifest) -> bool {
        &&& self.salt@ == other.salt@
        &&& self.chunk_root_dir@ == other.chunk_root_dir@
        &&& self.db_path@ == other.db_path@
        &&& self.version@ == other.version@
        &&& self.chunker_conf == other.chunker_conf
        &&& self.keys == other.keys
        &&& self.argon2_conf == other.argon2_conf
        &&& self.chunk_db_state.free() == other.chunk_db_state.free()
        &&& self.chunk_db_state.counter() == other.chunk_db_state.counter()
    }
}

impl Manifest {
    /// Whether the manifest can be written: each of its texts, and the list
    /// of the free paths, is short enough for its length to be written.
    pub open spec fn is_encodable(&self) -> bool {
        &&& encode_utf8(self.chunk_root_dir@).len() <= u64::MAX
        &&& encode_utf8(self.db_path@).len() <= u64::MAX
        &&& encode_utf8(self.version@).len() <= u64::MAX
        &&& self.chunk_db_state.free().len() <= u64::MAX
        &&& texts_fit(self.chunk_db_state.free())
    }
}

/// Byte strings that begin with a chunker's configuration and are equal
/// begin with the same configuration and go on in the same way.
pub proof fn lemma_chunker_conf_cut(ca: ChunkerConf, r1: Seq<u8>, cb: ChunkerConf, r2: Seq<u8>)
    requires
        chunker_conf_bytes(ca) + r1 == chunker_conf_bytes(cb) + r2,
    ensures
        ca == cb,
        r1 == r2,
{
    let a2 = le64(ca.maximum_chunk_size) + r1;
    let b2 = le64(cb.maximum_chunk_size) + r2;
    let a1 = le64(ca.average_chunk_size) + a2;
    let b1 = le64(cb.average_chunk_size) + b2;
    assert(chunker_conf_bytes(ca) + r1 =~= le64(ca.minimum_chunk_size) + a1);
    assert(chunker_conf_bytes(cb) + r2 =~= le64(cb.minimum_chunk_size) + b1);
    lemma_le64_cut(ca.minimum_chunk_size, a1, cb.minimum_chunk_size, b1);
    lemma_le64_cut(ca.average_chunk_size, a2, cb.average_chunk_size, b2);
    lemma_le64_cut(ca.maximum_chunk_size, r1, cb.maximum_chunk_size, r2);
}

/// Byte strings that begin with the parameters of the password hash and
/// are equal begin with the same parameters and go on in the same way.
pub proof fn lemma_argon2_conf_cut(pa: Argon2Conf, r1: Seq<u8>, pb: Argon2Conf, r2: Seq<u8>)
    requires
        argon2_conf_bytes(pa) + r1 == argon2_conf_bytes(pb) + r2,
    ensures
        pa == pb,
        r1 == r2,
{
    let a4 = le32(pa.version) + r1;
    let b4 = le32(pb.version) + r2;
    let a3 = le32(pa.variant) + a4;
    let b3 = le32(pb.variant) + b4;
    let a2 = le32(pa.time_cost) + a3;
    let b2 = le32(pb.time_cost) + b3;
    let a1 = le32(pa.mem_cost) + a2;
    let b1 = le32(pb.mem_cost) + b2;
    assert(argon2_conf_bytes(pa) + r1 =~= le32(pa.threads) + a1);
    assert(argon2_conf_bytes(pb) + r2 =~= le32(pb.threads) + b1);
    lemma_le32_cut(pa.threads, a1, pb.threads, b1);
    lemma_le32_cut(pa.mem_cost, a2, pb.mem_cost, b2);
    lemma_le32_cut(pa.time_cost, a3, pb.time_cost, b3);
    lemma_le32_cut(pa.variant, a4, pb.variant, b4);
    lemma_le32_cut(pa.version, r1, pb.version, r2);
}

/// Byte strings that begin with four masked keys and are equal begin with
/// the same keys and go on in the same way.
pub proof fn lemma_masked_keys_cut(ka: EncCryptoKeys, r1: Seq<u8>, kb: EncCryptoKeys, r2: Seq<u8>)
    requires
        ka@ + r1 == kb@ + r2,
    ensures
        ka == kb,
        r1 == r2,
{
    lemma_cut(ka@, r1, kb@, r2);
    lemma_cut(
        ka.enc_chunk_hash_key@ + ka.enc_chunk_enc_key@ + ka.enc_inode_hash_key@,
        ka.enc_inode_enc_key@,
        kb.enc_chunk_hash_key@ + kb.enc_chunk_enc_key@ + kb.enc_inode_hash_key@,
        kb.enc_inode_enc_key@,
    );
    lemma_cut(
        ka.enc_chunk_hash_key@ + ka.enc_chunk_enc_key@,
        ka.enc_inode_hash_key@,
        kb.enc_chunk_hash_key@ + kb.enc_chunk_enc_key@,
        kb.enc_inode_hash_key@,
    );
    lemma_cut(
        ka.enc_chunk_hash_key@,
        ka.enc_chunk_enc_key@,
        kb.enc_chunk_hash_key@,
        kb.enc_chunk_enc_key@,
    );
    lemma_key_holding(ka.enc_chunk_hash_key);
    lemma_key_holding(kb.enc_chunk_hash_key);
    lemma_key_holding(ka.enc_chunk_enc_key);
    lemma_key_holding(kb.enc_chunk_enc_key);
    lemma_key_holding(ka.enc_inode_hash_key);
    lemma_key_holding(kb.enc_inode_hash_key);
    lemma_key_holding(ka.enc_inode_enc_key);
    lemma_key_holding(kb.enc_inode_enc_key);
}

/// Two states of the path generator that serialize to the same bytes hold
/// the same free paths and the same counter.
pub proof fn lemma_path_state_bytes(sa: ChunkDbState, sb: ChunkDbState)
    requires
        sa.free().len() <= u64::MAX,
        sb.free().len() <= u64::MAX,
        texts_fit(sa.free()),
        texts_fit(sb.free()),
        sa.canon() == sb.canon(),
    ensures
        sa.free() == sb.free(),
        sa.counter() == sb.counter(),
{
    lemma_text_list_cut(sa.free(), le64(sa.counter()), sb.free(), le64(sb.counter()));
    assert(le64(sa.counter()) + Seq::<u8>::empty() =~= le64(sb.counter()) + Seq::<u8>::empty());
    lemma_le64_cut(sa.counter(), Seq::empty(), sb.counter(), Seq::empty());
}

/// Eight parts one after the other are the first part and then the rest.
proof fn lemma_eight_parts(
    s0: Seq<u8>,
    s1: Seq<u8>,
    s2: Seq<u8>,
    s3: Seq<u8>,
    s4: Seq<u8>,
    s5: Seq<u8>,
    s6: Seq<u8>,
    s7: Seq<u8>,
)
    ensures
        s0 + s1 + s2 + s3 + s4 + s5 + s6 + s7 == s0 + (s1 + (s2 + (s3 + (s4 + (s5 + (s6
            + s7)))))),
{
    assert(s0 + s1 + s2 + s3 + s4 + s5 + s6 + s7 =~= s0 + (s1 + (s2 + (s3 + (s4 + (s5 + (s6
        + s7)))))));
}

/// Two manifests that serialize to the same bytes say the same, field by
/// field: a manifest that was changed in any field serializes to other
/// bytes than it did, so that only a collision of the keyed hash keeps its
/// signature good.
pub proof fn lemma_manifest_bytes_tell_the_manifest(a: Manifest, b: Manifest)
    requires
        a.is_encodable(),
        b.is_encodable(),
        a.canon() == b.canon(),
    ensures
        a.same_as(b),
{
    let state_a = a.chunk_db_state.canon();
    let state_b = b.chunk_db_state.canon();
    let hash_a = argon2_conf_bytes(a.argon2_conf) + state_a;
    let hash_b = argon2_conf_bytes(b.argon2_conf) + state_b;
    let keys_a = a.keys@ + hash_a;
    let keys_b = b.keys@ + hash_b;
    let cuts_a = chunker_conf_bytes(a.chunker_conf) + keys_a;
    let cuts_b = chunker_conf_bytes(b.chunker_conf) + keys_b;
    let version_a = sized_text(a.version@) + cuts_a;
    let version_b = sized_text(b.version@) + cuts_b;
    let db_a = sized_text(a.db_path@) + version_a;
    let db_b = sized_text(b.db_path@) + version_b;
    let root_a = sized_text(a.chunk_root_dir@) + db_a;
    let root_b = sized_text(b.chunk_root_dir@) + db_b;
    lemma_eight_parts(
        a.salt@,
        sized_text(a.chunk_root_dir@),
        sized_text(a.db_path@),
        sized_text(a.version@),
        chunker_conf_bytes(a.chunker_conf),
        a.keys@,
        argon2_conf_bytes(a.argon2_conf),
        state_a,
    );
    lemma_eight_parts(
        b.salt@,
        sized_text(b.chunk_root_dir@),
        sized_text(b.db_path@),
        sized_text(b.version@),
        chunker_conf_bytes(b.chunker_conf),
        b.keys@,
        argon2_conf_bytes(b.argon2_conf),
        state_b,
    );
    lemma_cut(a.salt@, root_a, b.salt@, root_b);
    lemma_sized_text_cut(a.chunk_root_dir@, db_a, b.chunk_root_dir@, db_b);
    lemma_sized_text_cut(a.db_path@, version_a, b.db_path@, version_b);
    lemma_sized_text_cut(a.version@, cuts_a, b.version@, cuts_b);
    lemma_chunker_conf_cut(a.chunker_conf, keys_a, b.chunker_conf, keys_b);
    lemma_masked_keys_cut(a.keys, hash_a, b.keys, hash_b);
    lemma_argon2_conf_cut(a.argon2_conf, state_a, b.argon2_conf, state_b);
    lemma_path_state_bytes(a.chunk_db_state, b.chunk_db_state);
}

/// A signed manifest whose manifest was changed in any field, with the
/// signature kept, carries the signature of `key` only if the keyed hash of
/// the changed bytes is that of the bytes that were signed: the bytes
/// themselves differ.
pub proof fn lemma_changed_manifest_is_signed_otherwise(
    signed: SignedManifest,
    changed: SignedManifest,
    key: Seq<u8>,
)
    requires
        signed.manifest.is_encodable(),
        changed.manifest.is_encodable(),
        signed.is_signed_by(key),
        changed.signature@ == signed.signature@,
        !changed.manifest.same_as(signed.manifest),
    ensures
        changed.manifest.canon() != signed.manifest.canon(),
        changed.is_signed_by(key) ==> blake3_keyed_hash(key, changed.manifest.canon())
            == blake3_keyed_hash(key, signed.manifest.canon()),
{
    if changed.manifest.canon() == signed.manifest.canon() {
        lemma_manifest_bytes_tell_the_manifest(changed.manifest, signed.manifest);
    }
}

impl Clone for Manifest {
    fn clone(&self) -> (r: Self)
        ensures
            r.same_as(*self),
            r.canon() == self.canon(),
    {
        Manifest {
            salt: self.salt,
            chunk_root_dir: self.chunk_root_dir.clone(),
            db_path: self.db_path.clone(),
            version: self.version.clone(),
            chunker_conf: self.chunker_conf,
            keys: self.keys,
            argon2_conf: self.argon2_conf,
            chunk_db_state: self.chunk_db_state.clone(),
        }
    }
}

/// A manifest with its signature: the keyed hash of its serialization under
/// the signature key.
#[derive(Hash, Debug)]
pub struct SignedManifest {
    pub manifest: Manifest,
    pub signature: [u8; HASH_SIZE],
}

impl Clone for SignedManifest {
    fn clone(&self) -> (r: Self)
        ensures
            r.manifest.same_as(self.manifest),
            r.manifest.canon() == self.manifest.canon(),
            r.signature@ == self.signature@,
    {
        SignedManifest { manifest: self.manifest.clone(), signature: self.signature }
    }
}

/// Compares two hashes without stopping at the first byte in which they
/// differ.
pub fn constant_time_eq(a: &[u8; HASH_SIZE], b: &[u8; HASH_SIZE]) -> (r: bool)
    ensures
        r == (a@ == b@),
{
    let mut differ: u8 = 0;
    let mut i: usize = 0;
    while i < HASH_SIZE
        invariant
            i <= HASH_SIZE,
            differ == 0 <==> forall|j: int| 0 <= j < i ==> a@[j] == b@[j],
        decreases HASH_SIZE - i,
    {
        let x = a[i];
        let y = b[i];
        let before = differ;
        differ = differ | (x ^ y);
        assert((before | (x ^ y)) == 0 <==> (before == 0 && x == y)) by (bit_vector);
        i += 1;
    }
    proof {
        if differ == 0 {
            assert(a@ =~= b@);
        }
    }
    differ == 0
}

impl SignedManifest {
    /// Whether the signature is the one that `key` gives the manifest.
    pub open spec fn is_signed_by(&self, key: Seq<u8>) -> bool {
        self.signature@ == blake3_keyed_hash(key, self.manifest.canon())
    }

    /// Checks the signature under `key` and hands out the manifest: a
    /// manifest that was changed after signing, or signed with another key,
    /// is refused with `InvalidSignature`.
    pub fn verify(&self, key: &Key256) -> (r: Result<Manifest, RepoError>)
        ensures
            match r {
                Ok(manifest) => self.is_signed_by(key@) && manifest.same_as(self.manifest)
                    && manifest.canon() == self.manifest.canon(),
                Err(e) => !self.is_signed_by(key@) && e matches RepoError::BackrubError(
                    BackrubError::InvalidSignature,
                ),
            },
    {
        let expected = match self.manifest.keyed_hash(key) {
            Ok(hash) => hash,
            Err(e) => {
                return Err(e);
            },
        };
        if !constant_time_eq(&expected.0, &self.signature) {
            Err(RepoError::BackrubError(BackrubError::InvalidSignature))
        } else {
            Ok(self.manifest.clone())
        }
    }

    /// The salt of the password hash.
    pub fn get_salt(&self) -> (r: [u8; SALT_SIZE])
        ensures
            r@ == self.manifest.salt@,
    {
        self.manifest.salt
    }
}

impl Manifest {
    /// Signs the manifest with `key`.
    pub fn sign(&self, key: &Key256) -> (r: Result<SignedManifest, RepoError>)
        ensures
            r matches Ok(signed) && signed.manifest.same_as(*self) && signed.manifest.canon()
                == self.canon() && signed.is_signed_by(key@),
    {
        let manifest = self.clone();
        match self.keyed_hash(key) {
            Ok(hash) => Ok(SignedManifest { manifest, signature: hash.0 }),
            Err(e) => Err(e),
        }
    }
}

} // verus!
