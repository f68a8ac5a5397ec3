use crate::codec::{le64, put_u64, read_u64, Decode, Encode};
use crate::error::{CorruptionKind, RepoError};
use crate::structs::{Hash256, Key256, Nonce192, NONCE_SIZE};
use chacha20poly1305::aead::{Aead, AeadCore, KeyInit, OsRng};
use chacha20poly1305::XChaCha20Poly1305;
use std::io::Write;
use vstd::prelude::*;
use vstd::slice::*;

verus! {

/// The BLAKE3 hash of `data`.
pub uninterp spec fn blake3_hash(data: Seq<u8>) -> Seq<u8>;

/// The BLAKE3 hash of `data` in keyed mode.
pub uninterp spec fn blake3_keyed_hash(key: Seq<u8>, data: Seq<u8>) -> Seq<u8>;

/// What XChaCha20-Poly1305 makes of a plaintext: the ciphertext and its tag.
pub uninterp spec fn xchacha_seal(key: Seq<u8>, nonce: Seq<u8>, plaintext: Seq<u8>) -> Seq<u8>;

/// What XChaCha20-Poly1305 reads from a ciphertext with its tag, if it
/// accepts it.
pub uninterp spec fn xchacha_open(key: Seq<u8>, nonce: Seq<u8>, sealed: Seq<u8>) -> Option<
    Seq<u8>,
>;

/// What the DEFLATE compressor makes of `data` at its default level, if it
/// finishes.
pub uninterp spec fn deflated(data: Seq<u8>) -> Option<Seq<u8>>;

/// What the DEFLATE decompressor reads from `data`, if it accepts it.
pub uninterp spec fn inflated(data: Seq<u8>) -> Option<Seq<u8>>;

/// `blake3::Hasher::new`, `update_rayon` and `finalize`: the hash of `data`.
#[verifier::external_body]
fn plain_digest(data: &[u8]) -> (h: Hash256)
    ensures
        h@ == blake3_hash(data@),
{
    let mut hasher = blake3::Hasher::new();
    hasher.update_rayon(data);
    Hash256(*hasher.finalize().as_bytes())
}

/// `blake3::Hasher::new_keyed`, `update_rayon` and `finalize`: the hash of
/// `data` under `key`.
#[verifier::external_body]
fn keyed_digest(key: &Key256, data: &[u8]) -> (h: Hash256)
    ensures
        h@ == blake3_keyed_hash(key@, data@),
{
    let mut hasher = blake3::Hasher::new_keyed(&key.0);
    hasher.update_rayon(data);
    Hash256(*hasher.finalize().as_bytes())
}

/// `XChaCha20Poly1305::generate_nonce` with the system's random number
/// generator: nothing is known of the nonce but its width.
#[verifier::external_body]
fn fresh_nonce() -> Nonce192 {
    Nonce192(XChaCha20Poly1305::generate_nonce(&mut OsRng).into())
}

/// `Aead::encrypt` of `XChaCha20Poly1305`, without associated data. The
/// cipher refuses a plaintext of `u32::MAX` blocks of 64 bytes or more and
/// nothing else; what it returns is the plaintext's length and a tag of 16
/// bytes long, and the same cipher opens it again. The buffer for the result
/// must be one that can be allocated.
#[verifier::external_body]
fn aead_seal(key: &Key256, nonce: &Nonce192, plaintext: &[u8]) -> (r: Result<
    Vec<u8>,
    chacha20poly1305::aead::Error,
>)
    requires
        plaintext@.len() + 16 <= isize::MAX,
    ensures
        r is Ok <==> plaintext@.len() / 64 < u32::MAX,
        r matches Ok(c) ==> c@ == xchacha_seal(key@, nonce@, plaintext@) && c@.len()
            == plaintext@.len() + 16 && xchacha_open(key@, nonce@, c@) == Some(plaintext@),
{
    let cipher = XChaCha20Poly1305::new((&key.0).into());
    cipher.encrypt((&nonce.0).into(), plaintext)
}

/// `Aead::decrypt` of `XChaCha20Poly1305`, without associated data: the
/// plaintext where the cipher accepts the tag, its error where it does not.
#[verifier::external_body]
fn aead_open(key: &Key256, nonce: &Nonce192, sealed: &[u8]) -> (r: Result<
    Vec<u8>,
    chacha20poly1305::aead::Error,
>)
    ensures
        match r {
            Ok(p) => xchacha_open(key@, nonce@, sealed@) == Some(p@),
            Err(_) => xchacha_open(key@, nonce@, sealed@) is None,
        },
{
    let cipher = XChaCha20Poly1305::new((&key.0).into());
    cipher.decrypt((&nonce.0).into(), sealed)
}

/// `flate2::write::DeflateEncoder` at the default level, writing into a
/// vector, fed `data` and finished. The stream it makes depends on `data`
/// alone, and so does whether the compressor reports an error; where it
/// succeeds, the decompressor reads `data` from the result.
#[verifier::external_body]
fn deflate_bytes(data: &[u8]) -> (r: Result<Vec<u8>, std::io::Error>)
    ensures
        match r {
            Ok(c) => deflated(data@) == Some(c@) && inflated(c@) == Some(data@),
            Err(_) => deflated(data@) is None,
        },
{
    let mut compressor =
        flate2::write::DeflateEncoder::new(Vec::new(), flate2::Compression::default());
    compressor.write_all(data)?;
    compressor.finish()
}

/// `flate2::write::DeflateDecoder`, fed `data` and finished: the bytes it
/// read, or its error.
#[verifier::external_body]
fn inflate_bytes(data: &[u8]) -> (r: Result<Vec<u8>, std::io::Error>)
    ensures
        match r {
            Ok(p) => inflated(data@) == Some(p@),
            Err(_) => inflated(data@) is None,
        },
{
    let mut deflater = flate2::write::DeflateDecoder::new(Vec::new());
    deflater.write_all(data)?;
    deflater.finish()
}

/// The hash of a byte string.
pub fn hash(data: &[u8]) -> (h: Hash256)
    ensures
        h@ == blake3_hash(data@),
{
    plain_digest(data)
}

/// The hash of a byte string under `key`.
pub fn keyed_hash(data: &[u8], key: &Key256) -> (h: Hash256)
    ensures
        h@ == blake3_keyed_hash(key@, data@),
{
    keyed_digest(key, data)
}

/// The wire format of an envelope: the nonce, then the sealed bytes behind
/// their length.
pub open spec fn envelope(nonce: Seq<u8>, sealed: Seq<u8>) -> Seq<u8> {
    nonce + le64(sealed.len() as u64) + sealed
}

/// The width of what stands before the sealed bytes: nonce and length.
pub const ENVELOPE_HEADER: usize = 32;

/// Whether `bytes` has the shape of an envelope: a nonce, a length, and that
/// many bytes to the end.
pub open spec fn is_envelope(bytes: Seq<u8>) -> bool {
    &&& bytes.len() >= ENVELOPE_HEADER
    &&& crate::codec::u64_at(bytes, NONCE_SIZE as int) == bytes.len() - ENVELOPE_HEADER
}

/// The nonce of an envelope.
pub open spec fn envelope_nonce(bytes: Seq<u8>) -> Seq<u8> {
    bytes.subrange(0, NONCE_SIZE as int)
}

/// The sealed bytes of an envelope.
pub open spec fn envelope_sealed(bytes: Seq<u8>) -> Seq<u8> {
    bytes.subrange(ENVELOPE_HEADER as int, bytes.len() as int)
}

/// What an envelope holds for the owner of `key`: nothing where the bytes
/// are no envelope or the cipher rejects them.
pub open spec fn open_envelope(key: Seq<u8>, bytes: Seq<u8>) -> Option<Seq<u8>> {
    if is_envelope(bytes) {
        xchacha_open(key, envelope_nonce(bytes), envelope_sealed(bytes))
    } else {
        None
    }
}

/// The plaintexts that the cipher takes.
pub open spec fn sealable(len: nat) -> bool {
    &&& len / 64 < u32::MAX
    &&& len + 16 <= isize::MAX
}

/// An envelope is read back as the parts it was made of.
pub proof fn lemma_envelope_parts(nonce: Seq<u8>, sealed: Seq<u8>)
    requires
        nonce.len() == NONCE_SIZE,
        sealed.len() <= u64::MAX,
    ensures
        is_envelope(envelope(nonce, sealed)),
        envelope_nonce(envelope(nonce, sealed)) == nonce,
        envelope_sealed(envelope(nonce, sealed)) == sealed,
{
    let e = envelope(nonce, sealed);
    crate::codec::lemma_u64_at(nonce, sealed.len() as u64, sealed);
    assert(envelope_nonce(e) =~= nonce);
    assert(envelope_sealed(e) =~= sealed);
}

/// Whether the cipher takes a plaintext of `len` bytes.
pub fn can_seal(len: usize) -> (r: bool)
    ensures
        r == sealable(len as nat),
{
    len / 64 < u32::MAX as usize && len <= isize::MAX as usize - 16
}

/// Encrypts `data` under `key` with the given nonce and frames the result.
/// The nonce must not have been used with this key before.
pub fn encrypt_with_nonce(data: &[u8], key: &Key256, nonce: &Nonce192) -> (r: Result<
    Vec<u8>,
    RepoError,
>)
    ensures
        r is Ok <==> sealable(data@.len()),
        r matches Ok(c) ==> c@ == envelope(nonce@, xchacha_seal(key@, nonce@, data@))
            && is_envelope(c@) && envelope_nonce(c@) == nonce@ && open_envelope(key@, c@) == Some(
            data@,
        ),
        r matches Err(e) ==> e is InvalidCiphertext,
{
    if !can_seal(data.len()) {
        return Err(RepoError::InvalidCiphertext);
    }
    match aead_seal(key, nonce, data) {
        Err(_) => Err(RepoError::InvalidCiphertext),
        Ok(sealed) => {
            let mut out: Vec<u8> = Vec::new();
            out.extend_from_slice(nonce.0.as_slice());
            put_u64(&mut out, sealed.len() as u64);
            out.extend_from_slice(sealed.as_slice());
            proof {
                lemma_envelope_parts(nonce@, sealed@);
                assert(out@ =~= envelope(nonce@, sealed@));
            }
            Ok(out)
        },
    }
}

/// Encrypts `data` under `key` with a fresh random nonce.
pub fn encrypt_bytes(data: &[u8], key: &Key256) -> (r: Result<Vec<u8>, RepoError>)
    ensures
        r is Ok <==> sealable(data@.len()),
        r matches Ok(c) ==> open_envelope(key@, c@) == Some(data@) && is_envelope(c@) && c@
            == envelope(envelope_nonce(c@), xchacha_seal(key@, envelope_nonce(c@), data@)),
        r matches Err(e) ==> e is InvalidCiphertext,
{
    let nonce = fresh_nonce();
    encrypt_with_nonce(data, key, &nonce)
}

/// Opens an envelope: the plaintext, or `InvalidCiphertext` where the bytes
/// are malformed, were tampered with or belong to another key.
pub fn decrypt_bytes(data: &[u8], key: &Key256) -> (r: Result<Vec<u8>, RepoError>)
    ensures
        match open_envelope(key@, data@) {
            Some(p) => r matches Ok(v) && v@ == p,
            None => r matches Err(RepoError::InvalidCiphertext),
        },
{
    if data.len() < ENVELOPE_HEADER {
        return Err(RepoError::InvalidCiphertext);
    }
    let declared = match read_u64(data, NONCE_SIZE) {
        Some(n) => n,
        None => {
            return Err(RepoError::InvalidCiphertext);
        },
    };
    if declared != (data.len() - ENVELOPE_HEADER) as u64 {
        return Err(RepoError::InvalidCiphertext);
    }
    let nonce = match Nonce192::from_slice(slice_subrange(data, 0, NONCE_SIZE)) {
        Some(n) => n,
        None => {
            return Err(RepoError::InvalidCiphertext);
        },
    };
    match aead_open(key, &nonce, slice_subrange(data, ENVELOPE_HEADER, data.len())) {
        Ok(p) => Ok(p),
        Err(_) => Err(RepoError::InvalidCiphertext),
    }
}

/// What a compressed envelope holds for the owner of `key`: nothing where
/// the envelope does not open or what it holds does not decompress.
pub open spec fn open_compressed(key: Seq<u8>, bytes: Seq<u8>) -> Option<Seq<u8>> {
    match open_envelope(key, bytes) {
        Some(c) => inflated(c),
        None => None,
    }
}

/// Whether `data` can be compressed and then sealed: the compressor
/// finishes and the cipher takes what it made.
pub open spec fn packable(data: Seq<u8>) -> bool {
    deflated(data) matches Some(c) && sealable(c.len())
}

/// Compresses `data`, then encrypts it under `key` with a fresh random nonce.
/// The call succeeds exactly where `data` is packable; it gives the
/// compressor's error where that did not finish, and `InvalidCiphertext`
/// where the cipher refuses the compressed bytes.
pub fn compress_and_encrypt_bytes(data: &[u8], key: &Key256) -> (r: Result<Vec<u8>, RepoError>)
    ensures
        r is Ok <==> packable(data@),
        r matches Ok(c) ==> open_compressed(key@, c@) == Some(data@) && open_envelope(key@, c@)
            == deflated(data@),
        r matches Err(e) ==> (if deflated(data@) is None {
            e is IoError
        } else {
            e is InvalidCiphertext
        }),
{
    match deflate_bytes(data) {
        Err(e) => Err(RepoError::IoError(e)),
        Ok(compressed) => encrypt_bytes(compressed.as_slice(), key),
    }
}

/// Opens an envelope and decompresses what it holds: `InvalidCiphertext`
/// where the envelope does not open, the decompressor's error where what it
/// holds is no compressed stream.
pub fn decrypt_and_uncompress_bytes(data: &[u8], key: &Key256) -> (r: Result<Vec<u8>, RepoError>)
    ensures
        match open_envelope(key@, data@) {
            None => r matches Err(RepoError::InvalidCiphertext),
            Some(c) => match inflated(c) {
                Some(p) => r matches Ok(v) && v@ == p,
                None => r matches Err(RepoError::IoError(_)),
            },
        },
{
    match decrypt_bytes(data, key) {
        Err(e) => Err(e),
        Ok(compressed) => match inflate_bytes(compressed.as_slice()) {
            Ok(p) => Ok(p),
            Err(e) => Err(RepoError::IoError(e)),
        },
    }
}

/// Generic trait for cryptographically hashing all values that have a
/// canonical serialization: the hash of a value is the hash of its
/// serialization.
pub trait Hashable: Encode {
    /// The hash of the value.
    fn hash(&self) -> (r: Result<Hash256, RepoError>)
        ensures
            r matches Ok(h) && h@ == blake3_hash(self.canon()),
    {
        let serialized = self.to_bytes();
        Ok(hash(serialized.as_slice()))
    }

    /// The hash of the value under `key`.
    fn keyed_hash(&self, key: &Key256) -> (r: Result<Hash256, RepoError>)
        ensures
            r matches Ok(h) && h@ == blake3_keyed_hash(key@, self.canon()),
    {
        let serialized = self.to_bytes();
        Ok(keyed_hash(serialized.as_slice(), key))
    }
}

impl Hashable for Vec<u8> {

}

/// Generic trait for symmetric encryption of all values that can be
/// serialized and read back.
pub trait Encrypt: Decode {
    /// Encrypts the value's serialization under `key`.
    fn encrypt(&self, key: &Key256) -> (r: Result<Vec<u8>, RepoError>)
        ensures
            r is Ok <==> sealable(self.canon().len()),
            r matches Ok(c) ==> open_envelope(key@, c@) == Some(self.canon()),
            r matches Err(e) ==> e is InvalidCiphertext,
    {
        let serialized = self.to_bytes();
        encrypt_bytes(serialized.as_slice(), key)
    }

    /// Opens an envelope and reads the value it holds.
    fn decrypt(data: &[u8], key: &Key256) -> (r: Result<Self, RepoError>)
        ensures
            match open_envelope(key@, data@) {
                None => r matches Err(RepoError::InvalidCiphertext),
                Some(p) => if Self::well_formed(p) {
                    r matches Ok(v) && v.canon() == p
                } else {
                    r matches Err(RepoError::Corruption(CorruptionKind::Record, None))
                },
            },
    {
        let plain = decrypt_bytes(data, key)?;
        match Self::from_bytes(plain.as_slice()) {
            Some(v) => Ok(v),
            None => Err(RepoError::Corruption(CorruptionKind::Record, None)),
        }
    }

    /// Compresses the value's serialization and encrypts it under `key`.
    fn compress_and_encrypt(&self, key: &Key256) -> (r: Result<Vec<u8>, RepoError>)
        ensures
            r is Ok <==> packable(self.canon()),
            r matches Ok(c) ==> open_compressed(key@, c@) == Some(self.canon()),
            r matches Err(e) ==> (if deflated(self.canon()) is None {
                e is IoError
            } else {
                e is InvalidCiphertext
            }),
    {
        let serialized = self.to_bytes();
        compress_and_encrypt_bytes(serialized.as_slice(), key)
    }

    /// Opens an envelope, decompresses what it holds and reads the value.
    fn decrypt_and_uncompress(data: &[u8], key: &Key256) -> (r: Result<Self, RepoError>)
        ensures
            match open_compressed(key@, data@) {
                None => r is Err,
                Some(p) => if Self::well_formed(p) {
                    r matches Ok(v) && v.canon() == p
                } else {
                    r matches Err(RepoError::Corruption(CorruptionKind::Record, None))
                },
            },
    {
        let plain = decrypt_and_uncompress_bytes(data, key)?;
        match Self::from_bytes(plain.as_slice()) {
            Some(v) => Ok(v),
            None => Err(RepoError::Corruption(CorruptionKind::Record, None)),
        }
    }
}

impl Encrypt for Vec<u8> {

}

} // verus!
