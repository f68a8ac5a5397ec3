use crate::codec::{
    has_sized, has_sized_text, lemma_sized_at, lemma_sized_text_at, put_sized, put_text, read_sized,
    read_sized_text, sized, sized_end, sized_text, Decode, Encode,
};
use crate::paths::{path_name, path_of};
use crate::traits::{Encrypt, Hashable};
use vstd::bytes::*;
use vstd::slice::*;
use vstd::prelude::*;
use vstd::std_specs::cmp::PartialEqSpecImpl;
use vstd::std_specs::convert::FromSpecImpl;

verus! {

pub const SALT_SIZE: usize = 32;

pub const HASH_SIZE: usize = 32;

pub const KEY_SIZE: usize = 32;

pub const NONCE_SIZE: usize = 24;

pub const CRYPTO_KEYS_SIZE: usize = 128;

/// Signature key for manifest + encrypted keys for data
pub const TOTAL_KEY_SIZE: usize = 160;

pub type RefCount = usize;

/// The 32 bytes that stand at `at` in `bytes`.
pub fn bytes32_at(bytes: &[u8], at: usize) -> (r: [u8; 32])
    requires
        at + 32 <= bytes@.len(),
    ensures
        r@ == bytes@.subrange(at as int, at + 32),
{
    let total = bytes.len();
    let mut out = [0u8; 32];
    let mut i: usize = 0;
    while i < 32
        invariant
            i <= 32,
            bytes@.len() == total,
            at + 32 <= bytes@.len(),
            forall|j: int| 0 <= j < i ==> out@[j] == bytes@[at + j],
        decreases 32 - i,
    {
        out[i] = bytes[at + i];
        i += 1;
    }
    assert(out@ =~= bytes@.subrange(at as int, at + 32));
    out
}

/// The 24 bytes that stand at `at` in `bytes`.
pub fn bytes24_at(bytes: &[u8], at: usize) -> (r: [u8; 24])
    requires
        at + 24 <= bytes@.len(),
    ensures
        r@ == bytes@.subrange(at as int, at + 24),
{
    let total = bytes.len();
    let mut out = [0u8; 24];
    let mut i: usize = 0;
    while i < 24
        invariant
            i <= 24,
            bytes@.len() == total,
            at + 24 <= bytes@.len(),
            forall|j: int| 0 <= j < i ==> out@[j] == bytes@[at + j],
        decreases 24 - i,
    {
        out[i] = bytes[at + i];
        i += 1;
    }
    assert(out@ =~= bytes@.subrange(at as int, at + 24));
    out
}

/// Byte-wise equality of two byte strings.
pub fn bytes_equal(a: &[u8], b: &[u8]) -> (r: bool)
    ensures
        r == (a@ == b@),
{
    if a.len() != b.len() {
        return false;
    }
    let mut i: usize = 0;
    while i < a.len()
        invariant
            a@.len() == b@.len(),
            i <= a@.len(),
            forall|j: int| 0 <= j < i ==> a@[j] == b@[j],
        decreases a@.len() - i,
    {
        if a[i] != b[i] {
            return false;
        }
        i += 1;
    }
    assert(a@ =~= b@);
    true
}

/// A 256-bit hash value.
#[derive(Debug, Copy, Clone, PartialOrd, Eq, Ord, Hash)]
pub struct Hash256(pub [u8; HASH_SIZE]);

impl View for Hash256 {
    type V = Seq<u8>;

    open spec fn view(&self) -> Seq<u8> {
        self.0@
    }
}

impl PartialEq for Hash256 {
    fn eq(&self, other: &Self) -> (r: bool) {
        bytes_equal(self.0.as_slice(), other.0.as_slice())
    }
}

impl PartialEqSpecImpl for Hash256 {
    open spec fn obeys_eq_spec() -> bool {
        true
    }

    open spec fn eq_spec(&self, other: &Self) -> bool {
        self@ == other@
    }
}

impl From<[u8; HASH_SIZE]> for Hash256 {
    fn from(array: [u8; HASH_SIZE]) -> (r: Self) {
        Hash256(array)
    }
}

impl FromSpecImpl<[u8; HASH_SIZE]> for Hash256 {
    open spec fn obeys_from_spec() -> bool {
        true
    }

    open spec fn from_spec(array: [u8; HASH_SIZE]) -> Self {
        Hash256(array)
    }
}

impl Hash256 {
    /// The value that a slice of the right length holds.
    pub fn from_slice(bytes: &[u8]) -> (r: Option<Hash256>)
        ensures
            r is Some <==> bytes@.len() == HASH_SIZE,
            r matches Some(v) ==> v@ == bytes@,
    {
        if bytes.len() != HASH_SIZE {
            return None;
        }
        let r = Hash256(bytes32_at(bytes, 0));
        assert(r@ =~= bytes@);
        Some(r)
    }
}

impl AsRef<[u8]> for Hash256 {
    fn as_ref(&self) -> (r: &[u8])
        ensures
            r@ == self@,
    {
        self.0.as_slice()
    }
}

/// A 256-bit key.
#[derive(Debug, Copy, Clone, PartialOrd, Eq, Ord, Hash)]
pub struct Key256(pub [u8; KEY_SIZE]);

impl View for Key256 {
    type V = Seq<u8>;

    open spec fn view(&self) -> Seq<u8> {
        self.0@
    }
}

impl PartialEq for Key256 {
    fn eq(&self, other: &Self) -> (r: bool) {
        bytes_equal(self.0.as_slice(), other.0.as_slice())
    }
}

impl PartialEqSpecImpl for Key256 {
    open spec fn obeys_eq_spec() -> bool {
        true
    }

    open spec fn eq_spec(&self, other: &Self) -> bool {
        self@ == other@
    }
}

impl From<[u8; KEY_SIZE]> for Key256 {
    fn from(array: [u8; KEY_SIZE]) -> (r: Self) {
        Key256(array)
    }
}

impl FromSpecImpl<[u8; KEY_SIZE]> for Key256 {
    open spec fn obeys_from_spec() -> bool {
        true
    }

    open spec fn from_spec(array: [u8; KEY_SIZE]) -> Self {
        Key256(array)
    }
}

impl Key256 {
    /// The value that a slice of the right length holds.
    pub fn from_slice(bytes: &[u8]) -> (r: Option<Key256>)
        ensures
            r is Some <==> bytes@.len() == KEY_SIZE,
            r matches Some(v) ==> v@ == bytes@,
    {
        if bytes.len() != KEY_SIZE {
            return None;
        }
        let r = Key256(bytes32_at(bytes, 0));
        assert(r@ =~= bytes@);
        Some(r)
    }
}

impl AsRef<[u8]> for Key256 {
    fn as_ref(&self) -> (r: &[u8])
        ensures
            r@ == self@,
    {
        self.0.as_slice()
    }
}

/// The bytes of `a` and `b`, combined position by position with exclusive or.
pub open spec fn xor_bytes(a: Seq<u8>, b: Seq<u8>) -> Seq<u8> {
    Seq::new(a.len(), |i: int| a[i] ^ b[i])
}

/// Masking twice with the same mask gives the bytes back.
pub proof fn lemma_xor_twice(a: Seq<u8>, b: Seq<u8>)
    requires
        a.len() == b.len(),
    ensures
        xor_bytes(xor_bytes(a, b), b) == a,
{
    assert forall|i: int| 0 <= i < a.len() implies xor_bytes(xor_bytes(a, b), b)[i] == a[i] by {
        let x = a[i];
        let y = b[i];
        assert((x ^ y) ^ y == x) by (bit_vector);
    }
    assert(xor_bytes(xor_bytes(a, b), b) =~= a);
}

impl Key256 {
    pub fn as_array(&self) -> (r: &[u8; KEY_SIZE])
        ensures
            r@ == self@,
    {
        &self.0
    }

    /// Masks this key with `key`, or takes the mask off again.
    pub fn xor_keys(&self, key: &Key256) -> (r: Key256)
        ensures
            r@ == xor_bytes(self@, key@),
    {
        let mut result = [0u8; KEY_SIZE];
        let mut i: usize = 0;
        while i < KEY_SIZE
            invariant
                i <= KEY_SIZE,
                forall|j: int| 0 <= j < i ==> result@[j] == self@[j] ^ key@[j],
            decreases KEY_SIZE - i,
        {
            result[i] = self.0[i] ^ key.0[i];
            i += 1;
        }
        assert(result@ =~= xor_bytes(self@, key@));
        Key256(result)
    }
}

/// A 192-bit nonce.
#[derive(Debug, Copy, Clone, PartialOrd, Eq, Ord, Hash)]
pub struct Nonce192(pub [u8; NONCE_SIZE]);

impl View for Nonce192 {
    type V = Seq<u8>;

    open spec fn view(&self) -> Seq<u8> {
        self.0@
    }
}

impl PartialEq for Nonce192 {
    fn eq(&self, other: &Self) -> (r: bool) {
        bytes_equal(self.0.as_slice(), other.0.as_slice())
    }
}

impl PartialEqSpecImpl for Nonce192 {
    open spec fn obeys_eq_spec() -> bool {
        true
    }

    open spec fn eq_spec(&self, other: &Self) -> bool {
        self@ == other@
    }
}

impl From<[u8; NONCE_SIZE]> for Nonce192 {
    fn from(array: [u8; NONCE_SIZE]) -> (r: Self) {
        Nonce192(array)
    }
}

impl FromSpecImpl<[u8; NONCE_SIZE]> for Nonce192 {
    open spec fn obeys_from_spec() -> bool {
        true
    }

    open spec fn from_spec(array: [u8; NONCE_SIZE]) -> Self {
        Nonce192(array)
    }
}

impl Nonce192 {
    /// The value that a slice of the right length holds.
    pub fn from_slice(bytes: &[u8]) -> (r: Option<Nonce192>)
        ensures
            r is Some <==> bytes@.len() == NONCE_SIZE,
            r matches Some(v) ==> v@ == bytes@,
    {
        if bytes.len() != NONCE_SIZE {
            return None;
        }
        let r = Nonce192(bytes24_at(bytes, 0));
        assert(r@ =~= bytes@);
        Some(r)
    }
}

impl AsRef<[u8]> for Nonce192 {
    fn as_ref(&self) -> (r: &[u8])
        ensures
            r@ == self@,
    {
        self.0.as_slice()
    }
}

impl Nonce192 {
    pub fn as_array(&self) -> (r: &[u8; NONCE_SIZE])
        ensures
            r@ == self@,
    {
        &self.0
    }
}

/// Generator of the names of new chunk files: a counter that is written out
/// byte by byte, a directory for each byte but the last.
#[derive(Clone, Hash, Debug, PartialEq, Eq, Structural)]
pub struct FilePathGen(pub u64);

impl Default for FilePathGen {
    fn default() -> (r: Self)
        ensures
            r.0 == 0,
    {
        FilePathGen(0)
    }
}

impl From<u64> for FilePathGen {
    fn from(value: u64) -> (r: Self) {
        FilePathGen(value)
    }
}

impl FromSpecImpl<u64> for FilePathGen {
    open spec fn obeys_from_spec() -> bool {
        true
    }

    open spec fn from_spec(value: u64) -> Self {
        FilePathGen(value)
    }
}

impl FilePathGen {
    /// Steps the counter and returns the path of its new value; nothing once
    /// every value has been used.
    pub fn next(&mut self) -> (r: Option<String>)
        ensures
            match r {
                Some(p) => old(self).0 < u64::MAX && final(self).0 == old(self).0 + 1 && p@
                    == path_of(final(self).0 as nat),
                None => old(self).0 == u64::MAX && final(self).0 == u64::MAX,
            },
    {
        if self.0 < u64::MAX {
            self.0 += 1;
            Some(path_name(self.0))
        } else {
            None
        }
    }
}

/// What a backup does with what it meets.
#[derive(Debug, Copy, Clone, PartialEq, Eq, Hash, Structural)]
pub struct BackupConf {
    pub follow_symlinks: bool,
}

impl Default for BackupConf {
    fn default() -> (r: Self)
        ensures
            !r.follow_symlinks,
    {
        BackupConf { follow_symlinks: false }
    }
}

/// The sizes between which the chunker cuts, and the size it aims at.
#[derive(Clone, Hash, Copy, Debug, PartialEq, Eq, Structural)]
pub struct ChunkerConf {
    pub minimum_chunk_size: u64,
    pub average_chunk_size: u64,
    pub maximum_chunk_size: u64,
}

impl Default for ChunkerConf {
    fn default() -> (r: Self)
        ensures
            r == (ChunkerConf {
                minimum_chunk_size: 0,
                average_chunk_size: 0,
                maximum_chunk_size: 0,
            }),
    {
        ChunkerConf { minimum_chunk_size: 0, average_chunk_size: 0, maximum_chunk_size: 0 }
    }
}

impl ChunkerConf {
    /// Whether the sizes are in order: `0 < min <= avg <= max`.
    pub open spec fn is_valid(&self) -> bool {
        0 < self.minimum_chunk_size <= self.average_chunk_size <= self.maximum_chunk_size
    }

    /// Whether the sizes are in order.
    pub fn check(&self) -> (r: bool)
        ensures
            r == self.is_valid(),
    {
        0 < self.minimum_chunk_size && self.minimum_chunk_size <= self.average_chunk_size
            && self.average_chunk_size <= self.maximum_chunk_size
    }
}

/// A chunk of a file: the bytes between two cuts of the chunker.
#[derive(Clone, Hash, Debug, PartialEq, Eq)]
pub struct Chunk {
    pub data: Vec<u8>,
}

impl Encode for Chunk {
    /// The bytes behind their length.
    open spec fn canon(&self) -> Seq<u8> {
        sized(self.data@)
    }

    fn to_bytes(&self) -> (bytes: Vec<u8>) {
        let mut out: Vec<u8> = Vec::new();
        put_sized(&mut out, self.data.as_slice());
        out
    }
}

impl Decode for Chunk {
    open spec fn well_formed(bytes: Seq<u8>) -> bool {
        has_sized(bytes, 0) && bytes.len() == sized_end(bytes, 0)
    }

    fn from_bytes(bytes: &[u8]) -> (r: Option<Self>) {
        match read_sized(bytes, 0) {
            None => None,
            Some((data, end)) => {
                if end != bytes.len() {
                    return None;
                }
                let chunk = Chunk { data };
                assert(chunk.canon() =~= bytes@);
                Some(chunk)
            },
        }
    }

    proof fn lemma_canon_well_formed(&self) {
        lemma_sized_at(Seq::empty(), self.data@, Seq::empty());
        assert(self.canon() =~= Seq::empty() + sized(self.data@) + Seq::empty());
    }
}

impl Hashable for Chunk {

}

impl Encrypt for Chunk {

}

/// The record of a backup: when it was made, its name, and the hash of the
/// inode of its root directory.
#[derive(Clone, Hash, Debug, PartialEq, Eq)]
pub struct Backup {
    pub timestamp: String,
    pub name: String,
    pub root: Hash256,
}

impl Encode for Backup {
    /// The time and the name, each behind its length, then the root.
    open spec fn canon(&self) -> Seq<u8> {
        sized_text(self.timestamp@) + sized_text(self.name@) + self.root@
    }

    fn to_bytes(&self) -> (bytes: Vec<u8>) {
        let mut out: Vec<u8> = Vec::new();
        put_text(&mut out, self.timestamp.as_str());
        put_text(&mut out, self.name.as_str());
        out.extend_from_slice(self.root.0.as_slice());
        assert(out@ =~= self.canon());
        out
    }
}

impl Decode for Backup {
    open spec fn well_formed(bytes: Seq<u8>) -> bool {
        &&& has_sized_text(bytes, 0)
        &&& has_sized_text(bytes, sized_end(bytes, 0))
        &&& bytes.len() == sized_end(bytes, sized_end(bytes, 0)) + HASH_SIZE
    }

    fn from_bytes(bytes: &[u8]) -> (r: Option<Self>) {
        let total = bytes.len();
        let (timestamp, first_end) = match read_sized_text(bytes, 0) {
            Some(x) => x,
            None => {
                return None;
            },
        };
        let (name, second_end) = match read_sized_text(bytes, first_end) {
            Some(x) => x,
            None => {
                return None;
            },
        };
        if total - second_end != HASH_SIZE {
            return None;
        }
        let root = match Hash256::from_slice(slice_subrange(bytes, second_end, total)) {
            Some(h) => h,
            None => {
                return None;
            },
        };
        let backup = Backup { timestamp, name, root };
        assert(backup.canon() =~= bytes@);
        Some(backup)
    }

    proof fn lemma_canon_well_formed(&self) {
        let a = sized_text(self.timestamp@);
        let b = sized_text(self.name@);
        let c = self.root@;
        lemma_auto_spec_u64_to_from_le_bytes();
        lemma_sized_text_at(Seq::empty(), self.timestamp@, b + c);
        lemma_sized_text_at(a, self.name@, c);
        assert(self.canon() =~= Seq::empty() + a + (b + c));
        assert(self.canon() =~= a + b + c);
    }
}

impl Hashable for Backup {

}

impl Encrypt for Backup {

}

} // verus!
