use crate::backend::{
    holds_count, is_listing, lemma_listed_before, lemma_listing_counts, tree_entries, tree_get,
    tree_insert, tree_len,
    tree_map, tree_remove,
};
use crate::codec::{
    le64, lemma_u64_at, put_text, put_text_list, put_u64, read_text, read_u64, sized_text,
    text_list, u64_at, Decode, Encode,
};
use crate::error::{BackrubError, CorruptionKind, RepoError};
use crate::inode::Inode;
use crate::order::bytes_lt;
use crate::paths::{lemma_path_injective, path_of};
use crate::refcount::{
    lemma_occurrences, lemma_occurrences_push, occurrences, rc_count, rc_insert,
    rc_insert_keeping, rc_remove, rc_removed,
};
use crate::structs::{FilePathGen, Hash256, Key256, RefCount, HASH_SIZE};
use crate::traits::{blake3_keyed_hash, open_envelope, sealable, Encrypt, Hashable};
use vstd::prelude::*;
use vstd::slice::*;
use vstd::string::*;
use vstd::utf8::*;

verus! {

/// The state of the path generator of a chunk store: the counter behind the
/// newest path, and the paths that were given back and wait to be used again.
#[derive(Hash, Debug, PartialEq, Eq)]
pub struct ChunkDbState {
    pub unused_paths: Vec<String>,
    pub path_gen: FilePathGen,
}

impl Clone for ChunkDbState {
    fn clone(&self) -> (r: Self)
        ensures
            r.free() == self.free(),
            r.counter() == self.counter(),
    {
        let mut unused_paths: Vec<String> = Vec::new();
        let mut i: usize = 0;
        while i < self.unused_paths.len()
            invariant
                i <= self.unused_paths@.len(),
                unused_paths@.len() == i,
                forall|j: int| 0 <= j < i ==> unused_paths@[j]@ == self.unused_paths@[j]@,
            decreases self.unused_paths@.len() - i,
        {
            unused_paths.push(self.unused_paths[i].clone());
            i += 1;
        }
        let r = ChunkDbState { unused_paths, path_gen: FilePathGen(self.path_gen.0) };
        assert(r.free() =~= self.free());
        r
    }
}

impl Encode for ChunkDbState {
    /// The free paths, then the counter.
    open spec fn canon(&self) -> Seq<u8> {
        text_list(self.free()) + le64(self.counter())
    }

    fn to_bytes(&self) -> (bytes: Vec<u8>) {
        let mut out: Vec<u8> = Vec::new();
        put_text_list(&mut out, &self.unused_paths);
        put_u64(&mut out, self.path_gen.0);
        out
    }
}

/// The path that a generator hands out next: the path that was given back
/// last, else the path of the next counter value, and nothing once the
/// counter has run out.
pub open spec fn next_path(free: Seq<Seq<char>>, counter: u64) -> Option<Seq<char>> {
    if free.len() > 0 {
        Some(free.last())
    } else if counter < u64::MAX {
        Some(path_of((counter + 1) as nat))
    } else {
        None
    }
}

/// The free paths of a generator after it handed out a path.
pub open spec fn free_after_next(free: Seq<Seq<char>>) -> Seq<Seq<char>> {
    if free.len() > 0 {
        free.drop_last()
    } else {
        free
    }
}

/// The counter of a generator after it handed out a path.
pub open spec fn counter_after_next(free: Seq<Seq<char>>, counter: u64) -> u64 {
    if free.len() == 0 && counter < u64::MAX {
        (counter + 1) as u64
    } else {
        counter
    }
}

/// While no path has been given back, a generator hands out a new path at
/// every counter value: the paths of a fresh generator are all distinct.
pub proof fn lemma_fresh_paths_distinct(i: u64, j: u64)
    requires
        i != j,
        i < u64::MAX,
        j < u64::MAX,
    ensures
        next_path(Seq::empty(), i) is Some,
        next_path(Seq::empty(), j) is Some,
        next_path(Seq::empty(), i) != next_path(Seq::empty(), j),
{
    if path_of((i + 1) as nat) == path_of((j + 1) as nat) {
        lemma_path_injective((i + 1) as nat, (j + 1) as nat);
    }
}

/// A path that was given back is the path that is handed out next.
pub proof fn lemma_released_path_is_next(free: Seq<Seq<char>>, counter: u64, path: Seq<char>)
    ensures
        next_path(free.push(path), counter) == Some(path),
        free_after_next(free.push(path)) == free,
        counter_after_next(free.push(path), counter) == counter,
{
    assert(free.push(path).drop_last() =~= free);
}

impl ChunkDbState {
    /// The paths that wait to be used again, the one that is used next last.
    pub open spec fn free(&self) -> Seq<Seq<char>> {
        self.unused_paths.deep_view()
    }

    /// The counter behind the newest path.
    pub open spec fn counter(&self) -> u64 {
        self.path_gen.0
    }

    /// A generator that has handed out nothing yet.
    pub fn new() -> (r: Self)
        ensures
            r.free() == Seq::<Seq<char>>::empty(),
            r.counter() == 0,
    {
        let r = ChunkDbState { path_gen: FilePathGen(0), unused_paths: Vec::new() };
        assert(r.free() =~= Seq::<Seq<char>>::empty());
        r
    }

    /// The path that `next` would hand out, without taking it.
    pub fn peek(&self) -> (r: Option<String>)
        ensures
            r.deep_view() == next_path(self.free(), self.counter()),
    {
        let n = self.unused_paths.len();
        if n > 0 {
            Some(self.unused_paths[n - 1].clone())
        } else {
            let mut probe = FilePathGen(self.path_gen.0);
            probe.next()
        }
    }

    /// Hands out a path: the one that was given back last, else a new one;
    /// nothing once the counter has run out.
    pub fn next(&mut self) -> (r: Option<String>)
        ensures
            r.deep_view() == next_path(old(self).free(), old(self).counter()),
            final(self).free() == free_after_next(old(self).free()),
            final(self).counter() == counter_after_next(old(self).free(), old(self).counter()),
    {
        let n = self.unused_paths.len();
        if n > 0 {
            let r = self.unused_paths.pop();
            assert(final(self).free() =~= old(self).free().drop_last());
            r
        } else {
            self.path_gen.next()
        }
    }

    /// Takes back a path that is no longer in use.
    pub fn release(&mut self, path: String)
        ensures
            final(self).free() == old(self).free().push(path@),
            final(self).counter() == old(self).counter(),
    {
        self.unused_paths.push(path);
        assert(final(self).free() =~= old(self).free().push(path@));
    }
}

/// The record of a chunk: the number of references to it and the name of the
/// file that holds it.
#[derive(Clone, Hash, Debug, PartialEq, Eq)]
pub struct ChunkDbEntry {
    pub ref_count: RefCount,
    pub file_name: String,
}

/// The serialization of a chunk record: the count, then the name behind its
/// length.
pub open spec fn chunk_record(ref_count: RefCount, file_name: Seq<char>) -> Seq<u8> {
    le64(ref_count as u64) + sized_text(file_name)
}

/// The width of what stands before the name in a chunk record.
pub const CHUNK_RECORD_HEADER: usize = 16;

/// Whether `bytes` is a chunk record: a count that fits the machine's word,
/// the length of the rest, and a name in valid UTF-8.
pub open spec fn is_chunk_record(bytes: Seq<u8>) -> bool {
    &&& bytes.len() >= CHUNK_RECORD_HEADER
    &&& u64_at(bytes, 0) <= usize::MAX
    &&& u64_at(bytes, 8) == bytes.len() - CHUNK_RECORD_HEADER
    &&& valid_utf8(bytes.subrange(CHUNK_RECORD_HEADER as int, bytes.len() as int))
}

/// The count of a chunk record.
pub open spec fn chunk_record_count(bytes: Seq<u8>) -> nat {
    u64_at(bytes, 0) as nat
}

/// The name of a chunk record.
pub open spec fn chunk_record_name(bytes: Seq<u8>) -> Seq<char> {
    decode_utf8(bytes.subrange(CHUNK_RECORD_HEADER as int, bytes.len() as int))
}

/// A chunk record is as long as its header and its name.
pub proof fn lemma_chunk_record_len(ref_count: RefCount, file_name: Seq<char>)
    ensures
        chunk_record(ref_count, file_name).len() == CHUNK_RECORD_HEADER + encode_utf8(
            file_name,
        ).len(),
{
    let name = encode_utf8(file_name);
    lemma_u64_at(Seq::empty(), ref_count as u64, Seq::empty());
    lemma_u64_at(Seq::empty(), name.len() as u64, Seq::empty());
}

/// A chunk record is read back as the count and the name it was made of.
pub proof fn lemma_chunk_record(ref_count: RefCount, file_name: Seq<char>)
    requires
        encode_utf8(file_name).len() <= u64::MAX,
    ensures
        is_chunk_record(chunk_record(ref_count, file_name)),
        chunk_record_count(chunk_record(ref_count, file_name)) == ref_count,
        chunk_record_name(chunk_record(ref_count, file_name)) == file_name,
{
    let name = encode_utf8(file_name);
    let record = chunk_record(ref_count, file_name);
    lemma_u64_at(Seq::empty(), ref_count as u64, sized_text(file_name));
    lemma_u64_at(le64(ref_count as u64), name.len() as u64, name);
    assert(record =~= Seq::empty() + le64(ref_count as u64) + sized_text(file_name));
    assert(record =~= le64(ref_count as u64) + le64(name.len() as u64) + name);
    assert(record.subrange(CHUNK_RECORD_HEADER as int, record.len() as int) =~= name);
    encode_utf8_valid_utf8(file_name);
    encode_utf8_decode_utf8(file_name);
}

impl Encode for ChunkDbEntry {
    open spec fn canon(&self) -> Seq<u8> {
        chunk_record(self.ref_count, self.file_name@)
    }

    fn to_bytes(&self) -> (bytes: Vec<u8>) {
        let mut out: Vec<u8> = Vec::new();
        put_u64(&mut out, self.ref_count as u64);
        put_text(&mut out, self.file_name.as_str());
        assert(out@ =~= chunk_record(self.ref_count, self.file_name@));
        out
    }
}

impl Decode for ChunkDbEntry {
    open spec fn well_formed(bytes: Seq<u8>) -> bool {
        is_chunk_record(bytes)
    }

    fn from_bytes(bytes: &[u8]) -> (r: Option<Self>) {
        let count = match read_u64(bytes, 0) {
            Some(c) => c,
            None => {
                return None;
            },
        };
        let declared = match read_u64(bytes, 8) {
            Some(n) => n,
            None => {
                return None;
            },
        };
        if count > usize::MAX as u64 || declared != (bytes.len() - CHUNK_RECORD_HEADER) as u64 {
            return None;
        }
        match read_text(bytes, CHUNK_RECORD_HEADER) {
            None => None,
            Some(name) => {
                let entry = ChunkDbEntry { ref_count: count as usize, file_name: name };
                assert(entry.canon() =~= bytes@);
                Some(entry)
            },
        }
    }

    proof fn lemma_canon_well_formed(&self) {
        lemma_chunk_record(self.ref_count, self.file_name@);
    }
}

impl Encrypt for ChunkDbEntry {

}

/// What a stored chunk record says to the owner of `enc_key`: the count and
/// the name, or nothing where the envelope does not open or holds no chunk
/// record.
pub open spec fn chunk_entry(enc_key: Seq<u8>, stored: Seq<u8>) -> Option<(nat, Seq<char>)> {
    match open_envelope(enc_key, stored) {
        Some(plain) => if is_chunk_record(plain) {
            Some((chunk_record_count(plain), chunk_record_name(plain)))
        } else {
            None
        },
        None => None,
    }
}

/// What is wrong with a stored record that cannot be read.
pub open spec fn damage(enc_key: Seq<u8>, stored: Seq<u8>) -> CorruptionKind {
    if open_envelope(enc_key, stored) is None {
        CorruptionKind::Envelope
    } else {
        CorruptionKind::Record
    }
}

/// Whether `e` reports the stored record `stored` under `key` as unreadable:
/// with what is wrong with it, and with its key.
pub open spec fn reports_damage(e: RepoError, enc_key: Seq<u8>, stored: Seq<u8>, key: Seq<u8>) -> bool {
    e matches RepoError::Corruption(kind, Some(k)) && kind == damage(enc_key, stored) && k@ == key
}

/// Whether the chunk record `stored` under `key` is sound: the key has the
/// width of a hash and the record can be read.
pub open spec fn chunk_record_sound(enc_key: Seq<u8>, key: Seq<u8>, stored: Seq<u8>) -> bool {
    key.len() == HASH_SIZE && chunk_entry(enc_key, stored) is Some
}

/// Whether `e` is what a test says of the chunk record `stored` under `key`:
/// `SledKeyLengthError` where the key has not the width of a hash, else the
/// damage of a record that cannot be read.
pub open spec fn chunk_defect(enc_key: Seq<u8>, key: Seq<u8>, stored: Seq<u8>, e: RepoError) -> bool {
    if key.len() != HASH_SIZE {
        e matches RepoError::BackrubError(BackrubError::SledKeyLengthError)
    } else {
        chunk_entry(enc_key, stored) is None && reports_damage(e, enc_key, stored, key)
    }
}

/// Whether every chunk record of `records` is sound.
pub open spec fn chunks_sound(records: Map<Seq<u8>, Seq<u8>>, enc_key: Seq<u8>) -> bool {
    forall|k: Seq<u8>| #[trigger]
        records.contains_key(k) ==> chunk_record_sound(enc_key, k, records[k])
}

/// Whether `e` is what a test says of the first chunk record of `records`,
/// in the order of the keys, that is not sound.
pub open spec fn chunk_first_defect(
    records: Map<Seq<u8>, Seq<u8>>,
    enc_key: Seq<u8>,
    e: RepoError,
) -> bool {
    exists|k: Seq<u8>|
        {
            &&& #[trigger] records.contains_key(k)
            &&& !chunk_record_sound(enc_key, k, records[k])
            &&& chunk_defect(enc_key, k, records[k], e)
            &&& forall|j: Seq<u8>| #[trigger]
                records.contains_key(j) && bytes_lt(j, k) ==> chunk_record_sound(
                    enc_key,
                    j,
                    records[j],
                )
        }
}

/// The record at `i` of a listing whose records before `i` are sound is the
/// first one that is not, where it is not.
pub proof fn lemma_chunk_first_defect(
    entries: Seq<(Seq<u8>, Seq<u8>)>,
    records: Map<Seq<u8>, Seq<u8>>,
    enc_key: Seq<u8>,
    i: int,
    e: RepoError,
)
    requires
        is_listing(entries, records),
        0 <= i < entries.len(),
        forall|j: int|
            0 <= j < i ==> chunk_record_sound(enc_key, (#[trigger] entries[j]).0, entries[j].1),
        !chunk_record_sound(enc_key, entries[i].0, entries[i].1),
        chunk_defect(enc_key, entries[i].0, entries[i].1, e),
    ensures
        chunk_first_defect(records, enc_key, e),
        !chunks_sound(records, enc_key),
{
    let k = entries[i].0;
    assert(records.contains_key(k) && records[k] == entries[i].1);
    assert forall|j: Seq<u8>| #[trigger] records.contains_key(j) && bytes_lt(j, k) implies
        chunk_record_sound(enc_key, j, records[j]) by {
        let m = lemma_listed_before(entries, records, i, j);
        assert(records[entries[m].0] == entries[m].1);
    }
}

/// Reads the chunk record that is stored under `key`.
pub fn read_chunk_entry(stored: &[u8], enc_key: &Key256, key: &[u8]) -> (r: Result<
    ChunkDbEntry,
    RepoError,
>)
    ensures
        match chunk_entry(enc_key@, stored@) {
            Some((count, name)) => r matches Ok(entry) && entry.ref_count == count
                && entry.file_name@ == name,
            None => r matches Err(RepoError::Corruption(kind, Some(k))) && kind == damage(
                enc_key@,
                stored@,
            ) && k@ == key@,
        },
{
    match ChunkDbEntry::decrypt(stored, enc_key) {
        Ok(entry) => {
            proof {
                let plain = open_envelope(enc_key@, stored@).unwrap();
                assert(plain == chunk_record(entry.ref_count, entry.file_name@));
                lemma_chunk_record_len(entry.ref_count, entry.file_name@);
                lemma_chunk_record(entry.ref_count, entry.file_name@);
            }
            Ok(entry)
        },
        Err(RepoError::InvalidCiphertext) => Err(
            RepoError::Corruption(CorruptionKind::Envelope, Some(slice_to_vec(key))),
        ),
        Err(_) => Err(RepoError::Corruption(CorruptionKind::Record, Some(slice_to_vec(key)))),
    }
}

/// Seals a chunk record under `enc_key`.
pub fn seal_chunk_entry(entry: &ChunkDbEntry, enc_key: &Key256) -> (r: Result<Vec<u8>, RepoError>)
    ensures
        r is Ok <==> sealable(entry.canon().len()),
        r matches Ok(stored) ==> chunk_entry(enc_key@, stored@) == Some(
            (entry.ref_count as nat, entry.file_name@),
        ),
        r matches Err(e) ==> e is InvalidCiphertext,
{
    let r = entry.encrypt(enc_key);
    proof {
        if r is Ok {
            lemma_chunk_record_len(entry.ref_count, entry.file_name@);
            lemma_chunk_record(entry.ref_count, entry.file_name@);
        }
    }
    r
}

/// ChunkDb manages mappings from chunk hashes to file names
///
/// The backuped chunks are supposed to be encrypted and stored under the
/// filenames provided by this
#[derive(Debug)]
pub struct ChunkDb {
    pub(crate) chunk_map: sled::Tree,
    pub(crate) state: ChunkDbState,
    pub(crate) chunk_enc_key: Key256,
}

impl View for ChunkDb {
    type V = Map<Seq<u8>, (nat, Seq<char>)>;

    /// The chunks that the store knows: under each chunk hash the count and
    /// the file name of its readable record.
    open spec fn view(&self) -> Map<Seq<u8>, (nat, Seq<char>)> {
        Map::new(|k: Seq<u8>| self.entry(k) is Some, |k: Seq<u8>| self.entry(k).unwrap())
    }
}

impl ChunkDb {
    /// The records of the backend: under each key the sealed record.
    pub closed spec fn records(&self) -> Map<Seq<u8>, Seq<u8>> {
        tree_map(self.chunk_map)
    }

    /// The key that seals the records.
    pub closed spec fn enc_key(&self) -> Seq<u8> {
        self.chunk_enc_key@
    }

    /// The state of the path generator.
    pub closed spec fn paths(&self) -> ChunkDbState {
        self.state
    }

    /// What the record under `hash` says, where there is one that can be
    /// read.
    pub open spec fn entry(&self, hash: Seq<u8>) -> Option<(nat, Seq<char>)> {
        if self.records().contains_key(hash) {
            chunk_entry(self.enc_key(), self.records()[hash])
        } else {
            None
        }
    }

    /// Whether every record stands under a key of the width of a hash and can
    /// be read.
    pub open spec fn is_sound(&self) -> bool {
        forall|k: Seq<u8>| #[trigger]
            self.records().contains_key(k) ==> k.len() == HASH_SIZE && self.entry(k) is Some
    }

    /// What an insert of the chunk hash `key` leaves behind: the store `post`
    /// it made of the store `pre`, and what it returned.
    pub open spec fn inserted(
        pre: Self,
        post: Self,
        key: Seq<u8>,
        r: Result<(RefCount, String), RepoError>,
    ) -> bool {
        &&& post.enc_key() == pre.enc_key()
        &&& match r {
            Ok((count, name)) => {
                &&& post@ == rc_insert_keeping(pre@, key, name@)
                &&& post.entry(key) == Some((count as nat, name@))
                &&& sealable(chunk_record(count, name@).len())
                &&& post.records().remove(key) == pre.records().remove(key)
                &&& if pre.records().contains_key(key) {
                    &&& pre.entry(key) == Some(((count - 1) as nat, name@))
                    &&& count >= 1
                    &&& post.paths() == pre.paths()
                } else {
                    &&& count == 1
                    &&& Some(name@) == next_path(
                        pre.paths().free(),
                        pre.paths().counter(),
                    )
                    &&& post.paths().free() == free_after_next(pre.paths().free())
                    &&& post.paths().counter() == counter_after_next(
                        pre.paths().free(),
                        pre.paths().counter(),
                    )
                }
                &&& key.len() == HASH_SIZE && pre.is_sound() ==> post.is_sound()
            },
            Err(e) => {
                &&& post.paths() == pre.paths()
                &&& !(e is SledError) ==> post.records() == pre.records()
                &&& match e {
                    RepoError::SledError(_) => true,
                    RepoError::Corruption(kind, k) => pre.records().contains_key(key)
                        && pre.entry(key) is None && reports_damage(
                        e,
                        pre.enc_key(),
                        pre.records()[key],
                        key,
                    ),
                    RepoError::RefCountOverflow => pre.entry(key) matches Some(
                        (count, _),
                    ) && count >= usize::MAX,
                    RepoError::Exhausted => !pre.records().contains_key(key)
                        && next_path(pre.paths().free(), pre.paths().counter())
                        is None,
                    RepoError::InvalidCiphertext => match pre.entry(key) {
                        Some((count, name)) => count < usize::MAX && !sealable(
                            chunk_record((count + 1) as usize, name).len(),
                        ),
                        None => !pre.records().contains_key(key) && (next_path(
                            pre.paths().free(),
                            pre.paths().counter(),
                        ) matches Some(path) && !sealable(chunk_record(1, path).len())),
                    },
                    _ => false,
                }
            },
        }
    }

    /// What a remove of the chunk hash `key` leaves behind: the store `post`
    /// it made of the store `pre`, and what it returned.
    pub open spec fn removed(
        pre: Self,
        post: Self,
        key: Seq<u8>,
        r: Result<Option<(RefCount, String)>, RepoError>,
    ) -> bool {
        &&& post.enc_key() == pre.enc_key()
        &&& match r {
            Ok(None) => {
                &&& !pre.records().contains_key(key)
                &&& post.records() == pre.records()
                &&& post.paths() == pre.paths()
            },
            Ok(Some((count, name))) => {
                &&& rc_removed(pre@, key) == Some((count as nat, name@))
                &&& post@ == rc_remove(pre@, key)
                &&& post.records().remove(key) == pre.records().remove(key)
                &&& post.paths().counter() == pre.paths().counter()
                &&& if count == 0 {
                    &&& !post.records().contains_key(key)
                    &&& post.paths().free() == pre.paths().free().push(name@)
                } else {
                    &&& post.entry(key) == Some((count as nat, name@))
                    &&& sealable(chunk_record(count, name@).len())
                    &&& post.paths() == pre.paths()
                }
                &&& pre.is_sound() ==> post.is_sound()
            },
            Err(e) => {
                &&& post.paths() == pre.paths()
                &&& !(e is SledError) ==> post.records() == pre.records()
                &&& match e {
                    RepoError::SledError(_) => true,
                    RepoError::Corruption(kind, k) => pre.records().contains_key(key)
                        && pre.entry(key) is None && reports_damage(
                        e,
                        pre.enc_key(),
                        pre.records()[key],
                        key,
                    ),
                    RepoError::InvalidCiphertext => pre.entry(key) matches Some((count, name))
                        && count > 1 && !sealable(
                        chunk_record((count - 1) as usize, name).len(),
                    ),
                    _ => false,
                }
            },
        }
    }

    /// The state of the path generator, as it goes into the manifest.
    pub fn state(&self) -> (r: &ChunkDbState)
        ensures
            *r == self.paths(),
    {
        &self.state
    }
}

/// The chunk record that an insert stores, given what the backend holds
/// under the chunk's hash: a first record with a path from the generator,
/// or the record that is there with one more reference.
pub fn chunk_insert_plan(
    found: &Option<Vec<u8>>,
    state: &ChunkDbState,
    enc_key: &Key256,
    key: &[u8],
) -> (r: Result<ChunkDbEntry, RepoError>)
    ensures
        match found {
            None => match next_path(state.free(), state.counter()) {
                Some(path) => r matches Ok(entry) && entry.ref_count == 1 && entry.file_name@
                    == path,
                None => r matches Err(RepoError::Exhausted),
            },
            Some(stored) => match chunk_entry(enc_key@, stored@) {
                Some((count, name)) => if count < usize::MAX {
                    r matches Ok(entry) && entry.ref_count == count + 1 && entry.file_name@ == name
                } else {
                    r matches Err(RepoError::RefCountOverflow)
                },
                None => r matches Err(RepoError::Corruption(kind, Some(k))) && kind == damage(
                    enc_key@,
                    stored@,
                ) && k@ == key@,
            },
        },
{
    match found {
        None => match state.peek() {
            Some(path) => Ok(ChunkDbEntry { file_name: path, ref_count: 1 }),
            None => Err(RepoError::Exhausted),
        },
        Some(stored) => match read_chunk_entry(stored.as_slice(), enc_key, key) {
            Err(e) => Err(e),
            Ok(old) => if old.ref_count < usize::MAX {
                Ok(ChunkDbEntry { file_name: old.file_name, ref_count: old.ref_count + 1 })
            } else {
                Err(RepoError::RefCountOverflow)
            },
        },
    }
}

/// What a remove does to the record of a chunk.
pub enum ChunkRemoval {
    /// The store does not hold the chunk.
    Absent,
    /// The last reference goes: the record is deleted and its file name is
    /// free again.
    Delete(String),
    /// References are left: the record is stored again with this count.
    Keep(ChunkDbEntry),
}

/// What a remove does, given what the backend holds under the chunk's hash.
pub fn chunk_remove_plan(found: &Option<Vec<u8>>, enc_key: &Key256, key: &[u8]) -> (r: Result<
    ChunkRemoval,
    RepoError,
>)
    ensures
        match found {
            None => r matches Ok(ChunkRemoval::Absent),
            Some(stored) => match chunk_entry(enc_key@, stored@) {
                Some((count, name)) => if count <= 1 {
                    r matches Ok(ChunkRemoval::Delete(n)) && n@ == name
                } else {
                    r matches Ok(ChunkRemoval::Keep(entry)) && entry.ref_count == count - 1
                        && entry.file_name@ == name
                },
                None => r matches Err(RepoError::Corruption(kind, Some(k))) && kind == damage(
                    enc_key@,
                    stored@,
                ) && k@ == key@,
            },
        },
{
    match found {
        None => Ok(ChunkRemoval::Absent),
        Some(stored) => match read_chunk_entry(stored.as_slice(), enc_key, key) {
            Err(e) => Err(e),
            Ok(old) => if old.ref_count <= 1 {
                Ok(ChunkRemoval::Delete(old.file_name))
            } else {
                Ok(
                    ChunkRemoval::Keep(
                        ChunkDbEntry { file_name: old.file_name, ref_count: old.ref_count - 1 },
                    ),
                )
            },
        },
    }
}

impl ChunkDb {
    /// Creates a new **empty** ChunkDb
    ///
    /// Returns [`BackrubError::SledTreeNotEmpty`] if provided tree is not
    /// empty, which a scan of the tree tells; a scan that the backend fails
    /// ends with its error.
    pub fn new(tree: sled::Tree, chunk_enc_key: Key256) -> (r: Result<ChunkDb, RepoError>)
        ensures
            match r {
                Ok(db) => tree_map(tree) == Map::<Seq<u8>, Seq<u8>>::empty() && db.records()
                    == tree_map(tree) && db.enc_key() == chunk_enc_key@ && db.paths().free()
                    == Seq::<Seq<char>>::empty() && db.paths().counter() == 0 && db@ == Map::<
                    Seq<u8>,
                    (nat, Seq<char>),
                >::empty() && db.is_sound(),
                Err(e) => e is SledError || (e matches RepoError::BackrubError(
                    BackrubError::SledTreeNotEmpty,
                ) && tree_map(tree) != Map::<Seq<u8>, Seq<u8>>::empty()),
            },
    {
        let entries = match tree_entries(&tree) {
            Ok(entries) => entries,
            Err(e) => {
                return Err(RepoError::SledError(e));
            },
        };
        if entries.len() != 0 {
            proof {
                assert(tree_map(tree).contains_key(entries.deep_view()[0].0));
            }
            return Err(RepoError::BackrubError(BackrubError::SledTreeNotEmpty));
        }
        proof {
            assert(tree_map(tree) =~= Map::<Seq<u8>, Seq<u8>>::empty());
        }
        let cs = ChunkDb { state: ChunkDbState::new(), chunk_map: tree, chunk_enc_key };
        assert(cs@ =~= Map::<Seq<u8>, (nat, Seq<char>)>::empty());
        Ok(cs)
    }

    /// Restores a saved ChunkDb
    ///
    /// Unless the backend fails, the store is accepted exactly if every
    /// record of the tree is sound; else the error is that of the first
    /// record, in the order of the keys, that is not.
    pub fn restore(tree: sled::Tree, chunk_enc_key: Key256, state: ChunkDbState) -> (r: Result<
        ChunkDb,
        RepoError,
    >)
        ensures
            match r {
                Ok(db) => db.is_sound() && db.records() == tree_map(tree) && db.enc_key()
                    == chunk_enc_key@ && db.paths() == state && chunks_sound(
                    tree_map(tree),
                    chunk_enc_key@,
                ),
                Err(e) => e is SledError || chunk_first_defect(tree_map(tree), chunk_enc_key@, e),
            },
            chunks_sound(tree_map(tree), chunk_enc_key@) ==> r is Ok
                || r matches Err(RepoError::SledError(_)),
    {
        let cs = ChunkDb { state, chunk_map: tree, chunk_enc_key };
        match cs.self_test() {
            Ok(()) => Ok(cs),
            Err(e) => Err(e),
        }
    }

    /// Check the ChunkDb contents for errors: the first record, in the order
    /// of the keys, whose key has not the width of a hash or that cannot be
    /// read ends the test with its error.
    ///
    /// This is a O(n) operation
    pub fn self_test(&self) -> (r: Result<(), RepoError>)
        ensures
            r is Ok ==> self.is_sound() && chunks_sound(self.records(), self.enc_key()),
            r matches Err(e) ==> e is SledError || (!self.is_sound() && chunk_first_defect(
                self.records(),
                self.enc_key(),
                e,
            )),
            self.is_sound() ==> r is Ok || r matches Err(RepoError::SledError(_)),
    {
        let entries = match tree_entries(&self.chunk_map) {
            Ok(entries) => entries,
            Err(e) => {
                return Err(RepoError::SledError(e));
            },
        };
        let mut i: usize = 0;
        while i < entries.len()
            invariant
                i <= entries.len(),
                is_listing(entries.deep_view(), self.records()),
                forall|j: int|
                    0 <= j < i ==> chunk_record_sound(
                        self.enc_key(),
                        (#[trigger] entries.deep_view()[j]).0,
                        entries.deep_view()[j].1,
                    ),
            decreases entries.len() - i,
        {
            proof {
                let item = entries.deep_view()[i as int];
                assert(item.0 == entries@[i as int].0@ && item.1 == entries@[i as int].1@);
                assert(self.records().contains_key(item.0));
            }
            if entries[i].0.len() != HASH_SIZE {
                let e = RepoError::BackrubError(BackrubError::SledKeyLengthError);
                proof {
                    lemma_chunk_first_defect(
                        entries.deep_view(),
                        self.records(),
                        self.enc_key(),
                        i as int,
                        e,
                    );
                }
                return Err(e);
            }
            match read_chunk_entry(
                entries[i].1.as_slice(),
                &self.chunk_enc_key,
                entries[i].0.as_slice(),
            ) {
                Err(e) => {
                    proof {
                        lemma_chunk_first_defect(
                            entries.deep_view(),
                            self.records(),
                            self.enc_key(),
                            i as int,
                            e,
                        );
                    }
                    return Err(e);
                },
                Ok(_) => {},
            }
            i += 1;
        }
        proof {
            assert forall|k: Seq<u8>| #[trigger] self.records().contains_key(k) implies k.len()
                == HASH_SIZE && self.entry(k) is Some && chunk_record_sound(
                self.enc_key(),
                k,
                self.records()[k],
            ) by {
                let j = choose|j: int|
                    0 <= j < entries.deep_view().len() && #[trigger] entries.deep_view()[j].0 == k;
                assert(entries.deep_view()[j].0 == k);
            }
        }
        Ok(())
    }

    /// Inserts a new [`Hash256`] into the database and returns the reference
    /// count and the file name the chunk should be stored in. A count of one
    /// tells the caller to write the chunk to that file.
    ///
    /// Whether the backend answers is its own affair. After it, the insert
    /// succeeds unless the record that is there cannot be read or counts as
    /// many references as the machine's word holds, or no path is left for a
    /// new record, or the record is too long to be sealed.
    pub fn insert(&mut self, key: &Hash256) -> (r: Result<(RefCount, String), RepoError>)
        ensures
            Self::inserted(*old(self), *final(self), key@, r),
    {
        let found = match tree_get(&self.chunk_map, key.0.as_slice()) {
            Ok(found) => found,
            Err(e) => {
                return Err(RepoError::SledError(e));
            },
        };
        let fresh = found.is_none();
        let entry = match chunk_insert_plan(
            &found,
            &self.state,
            &self.chunk_enc_key,
            key.0.as_slice(),
        ) {
            Ok(entry) => entry,
            Err(e) => {
                return Err(e);
            },
        };
        let sealed = match seal_chunk_entry(&entry, &self.chunk_enc_key) {
            Ok(sealed) => sealed,
            Err(e) => {
                return Err(e);
            },
        };
        match tree_insert(&mut self.chunk_map, key.0.as_slice(), sealed) {
            Err(e) => Err(RepoError::SledError(e)),
            Ok(_) => {
                if fresh {
                    let _ = self.state.next();
                }
                proof {
                    assert(final(self).records() == old(self).records().insert(key@, sealed@));
                    assert(final(self).records().remove(key@) =~= old(self).records().remove(
                        key@,
                    ));
                    assert(final(self)@ =~= rc_insert_keeping(old(self)@, key@, entry.file_name@));
                }
                Ok((entry.ref_count, entry.file_name))
            },
        }
    }
}

impl ChunkDb {
    /// Removes a chunk reference and returns the reference count as well as
    /// the file name the chunk is supposed to be stored in.
    ///
    /// - Returns `Ok(None)` if chunk was not referenced (no file name is
    ///   associated with that chunk hash)
    /// - Returns `Ok((0, <file_name>))` if the last reference to this chunk
    ///   was removed indicating that the chunk file should be removed; the
    ///   file name then waits to be used again
    pub fn remove(&mut self, key: &Hash256) -> (r: Result<Option<(RefCount, String)>, RepoError>)
        ensures
            Self::removed(*old(self), *final(self), key@, r),
    {
        let found = match tree_get(&self.chunk_map, key.0.as_slice()) {
            Ok(found) => found,
            Err(e) => {
                return Err(RepoError::SledError(e));
            },
        };
        match chunk_remove_plan(&found, &self.chunk_enc_key, key.0.as_slice()) {
            Err(e) => Err(e),
            Ok(ChunkRemoval::Absent) => Ok(None),
            Ok(ChunkRemoval::Delete(name)) => match tree_remove(
                &mut self.chunk_map,
                key.0.as_slice(),
            ) {
                Err(e) => Err(RepoError::SledError(e)),
                Ok(_) => {
                    // save old file name for reuse
                    self.state.release(name.clone());
                    proof {
                        assert(final(self).records().remove(key@) =~= old(self).records().remove(
                            key@,
                        ));
                        assert(final(self)@ =~= rc_remove(old(self)@, key@));
                    }
                    Ok(Some((0, name)))
                },
            },
            Ok(ChunkRemoval::Keep(entry)) => {
                let sealed = match seal_chunk_entry(&entry, &self.chunk_enc_key) {
                    Ok(sealed) => sealed,
                    Err(e) => {
                        return Err(e);
                    },
                };
                match tree_insert(&mut self.chunk_map, key.0.as_slice(), sealed) {
                    Err(e) => Err(RepoError::SledError(e)),
                    Ok(_) => {
                        proof {
                            assert(final(self).records().remove(key@) =~= old(self).records().remove(key@));
                            assert(final(self)@ =~= rc_remove(old(self)@, key@));
                        }
                        Ok(Some((entry.ref_count, entry.file_name)))
                    },
                }
            },
        }
    }

    /// Returns the number that the backend counts in a full scan of the
    /// stored chunks: their number where the scan meets no error. Nothing
    /// tells of an error here, so nothing is stated of the number; `count`
    /// gives the number of the chunks or the error.
    ///
    /// This performs a full O(n) scan
    pub fn len(&self) -> usize {
        tree_len(&self.chunk_map)
    }

    /// Counts the stored chunks in a full scan: their number, or the error
    /// that the scan met.
    pub fn count(&self) -> (r: Result<usize, RepoError>)
        ensures
            match r {
                Ok(n) => holds_count(self.records(), n as nat),
                Err(e) => e is SledError,
            },
    {
        match tree_entries(&self.chunk_map) {
            Ok(entries) => {
                proof {
                    lemma_listing_counts(entries.deep_view(), self.records());
                }
                Ok(entries.len())
            },
            Err(e) => Err(RepoError::SledError(e)),
        }
    }

    /// Gets the current reference count and file name of a chunk.
    pub fn get_entry(&self, key: &Hash256) -> (r: Result<Option<(RefCount, String)>, RepoError>)
        ensures
            match r {
                Ok(Some((count, name))) => self.entry(key@) == Some((count as nat, name@)),
                Ok(None) => !self.records().contains_key(key@),
                Err(e) => e is SledError || (reports_damage(
                    e,
                    self.enc_key(),
                    self.records()[key@],
                    key@,
                ) && self.records().contains_key(key@) && self.entry(key@) is None),
            },
    {
        match tree_get(&self.chunk_map, key.0.as_slice()) {
            Err(e) => Err(RepoError::SledError(e)),
            Ok(None) => Ok(None),
            Ok(Some(stored)) => match read_chunk_entry(
                stored.as_slice(),
                &self.chunk_enc_key,
                key.0.as_slice(),
            ) {
                Err(e) => Err(e),
                Ok(entry) => Ok(Some((entry.ref_count, entry.file_name))),
            },
        }
    }

    /// Gets only the reference count of a chunk.
    pub fn get_ref_count(&self, key: &Hash256) -> (r: Result<Option<RefCount>, RepoError>)
        ensures
            match r {
                Ok(Some(count)) => self.entry(key@) matches Some((c, _)) && c == count,
                Ok(None) => !self.records().contains_key(key@),
                Err(e) => e is SledError || (reports_damage(
                    e,
                    self.enc_key(),
                    self.records()[key@],
                    key@,
                ) && self.records().contains_key(key@) && self.entry(key@) is None),
            },
    {
        match self.get_entry(key) {
            Err(e) => Err(e),
            Ok(None) => Ok(None),
            Ok(Some((ref_count, _file_name))) => Ok(Some(ref_count)),
        }
    }

    /// Gets only the file name of a chunk.
    pub fn get_file_name(&self, key: &Hash256) -> (r: Result<Option<String>, RepoError>)
        ensures
            match r {
                Ok(Some(name)) => self.entry(key@) matches Some((_, n)) && n == name@,
                Ok(None) => !self.records().contains_key(key@),
                Err(e) => e is SledError || (reports_damage(
                    e,
                    self.enc_key(),
                    self.records()[key@],
                    key@,
                ) && self.records().contains_key(key@) && self.entry(key@) is None),
            },
    {
        match self.get_entry(key) {
            Err(e) => Err(e),
            Ok(None) => Ok(None),
            Ok(Some((_ref_count, file_name))) => Ok(Some(file_name)),
        }
    }

    /// Returns the contents of the store: every chunk hash with its count
    /// and file name, in ascending order of the hashes.
    ///
    /// This decrypts all contents and creates a completely new list in memory
    pub fn get_mappings(&self) -> (r: Result<Vec<(Hash256, (RefCount, String))>, RepoError>)
        ensures
            r matches Ok(list) ==> {
                &&& self.is_sound()
                &&& forall|i: int|
                    0 <= i < list@.len() ==> self.entry((#[trigger] list@[i]).0@) == Some(
                        (list@[i].1.0 as nat, list@[i].1.1@),
                    )
                &&& forall|i: int, j: int|
                    0 <= i < j < list@.len() ==> bytes_lt(
                        (#[trigger] list@[i]).0@,
                        (#[trigger] list@[j]).0@,
                    )
                &&& forall|k: Seq<u8>| #[trigger]
                    self.records().contains_key(k) ==> exists|i: int|
                        0 <= i < list@.len() && (#[trigger] list@[i]).0@ == k
            },
            r matches Err(e) ==> e is SledError || (!self.is_sound() && chunk_first_defect(
                self.records(),
                self.enc_key(),
                e,
            )),
    {
        let entries = match tree_entries(&self.chunk_map) {
            Ok(entries) => entries,
            Err(e) => {
                return Err(RepoError::SledError(e));
            },
        };
        let mut result: Vec<(Hash256, (RefCount, String))> = Vec::new();
        let mut i: usize = 0;
        while i < entries.len()
            invariant
                i <= entries.len(),
                result@.len() == i,
                is_listing(entries.deep_view(), self.records()),
                forall|j: int|
                    0 <= j < i ==> (#[trigger] result@[j]).0@ == entries.deep_view()[j].0
                        && self.entry(result@[j].0@) == Some(
                        (result@[j].1.0 as nat, result@[j].1.1@),
                    ),
                forall|j: int|
                    0 <= j < i ==> chunk_record_sound(
                        self.enc_key(),
                        (#[trigger] entries.deep_view()[j]).0,
                        entries.deep_view()[j].1,
                    ),
            decreases entries.len() - i,
        {
            proof {
                let item = entries.deep_view()[i as int];
                assert(item.0 == entries@[i as int].0@ && item.1 == entries@[i as int].1@);
                assert(self.records().contains_key(item.0));
            }
            let key = match Hash256::from_slice(entries[i].0.as_slice()) {
                Some(key) => key,
                None => {
                    let e = RepoError::BackrubError(BackrubError::SledKeyLengthError);
                    proof {
                        lemma_chunk_first_defect(
                            entries.deep_view(),
                            self.records(),
                            self.enc_key(),
                            i as int,
                            e,
                        );
                    }
                    return Err(e);
                },
            };
            match read_chunk_entry(
                entries[i].1.as_slice(),
                &self.chunk_enc_key,
                entries[i].0.as_slice(),
            ) {
                Err(e) => {
                    proof {
                        lemma_chunk_first_defect(
                            entries.deep_view(),
                            self.records(),
                            self.enc_key(),
                            i as int,
                            e,
                        );
                    }
                    return Err(e);
                },
                Ok(chunk_file) => {
                    result.push((key, (chunk_file.ref_count, chunk_file.file_name)));
                },
            }
            i += 1;
        }
        proof {
            assert forall|k: Seq<u8>| #[trigger] self.records().contains_key(k) implies (k.len()
                == HASH_SIZE && self.entry(k) is Some && exists|i: int|
                0 <= i < result@.len() && (#[trigger] result@[i]).0@ == k) by {
                let j = choose|j: int|
                    0 <= j < entries.deep_view().len() && #[trigger] entries.deep_view()[j].0 == k;
                assert(result@[j].0@ == k);
            }
            assert forall|i: int, j: int| 0 <= i < j < result@.len() implies bytes_lt(
                (#[trigger] result@[i]).0@,
                (#[trigger] result@[j]).0@,
            ) by {
                assert(bytes_lt(entries.deep_view()[i].0, entries.deep_view()[j].0));
            }
        }
        Ok(result)
    }
}

/// The record of a value in a reference-counted store: the value and the
/// number of references to it.
#[derive(Clone, Hash, Debug, PartialEq, Eq)]
pub struct RcDbEntry<T> {
    pub data: T,
    pub ref_count: RefCount,
}

/// The width of the count behind the value in a record.
pub const RC_RECORD_TRAILER: usize = 8;

/// The serialization of a record: the value's serialization, then the count.
pub open spec fn rc_record(data: Seq<u8>, ref_count: RefCount) -> Seq<u8> {
    data + le64(ref_count as u64)
}

/// The count of a record.
pub open spec fn rc_record_count(bytes: Seq<u8>) -> nat {
    u64_at(bytes, bytes.len() - RC_RECORD_TRAILER) as nat
}

/// The serialized value of a record.
pub open spec fn rc_record_data(bytes: Seq<u8>) -> Seq<u8> {
    bytes.subrange(0, bytes.len() - RC_RECORD_TRAILER)
}

/// Whether `bytes` is the record of a value of `T`: a well-formed value and
/// behind it a count that fits the machine's word.
pub open spec fn is_rc_record<T: Decode>(bytes: Seq<u8>) -> bool {
    &&& bytes.len() >= RC_RECORD_TRAILER
    &&& rc_record_count(bytes) <= usize::MAX
    &&& T::well_formed(rc_record_data(bytes))
}

/// A record is read back as the value and the count it was made of.
pub proof fn lemma_rc_record(data: Seq<u8>, ref_count: RefCount)
    ensures
        rc_record(data, ref_count).len() == data.len() + RC_RECORD_TRAILER,
        rc_record_count(rc_record(data, ref_count)) == ref_count,
        rc_record_data(rc_record(data, ref_count)) == data,
{
    let record = rc_record(data, ref_count);
    lemma_u64_at(data, ref_count as u64, Seq::empty());
    assert(record =~= data + le64(ref_count as u64) + Seq::empty());
    assert(rc_record_data(record) =~= data);
}

impl<T: Encode> Encode for RcDbEntry<T> {
    open spec fn canon(&self) -> Seq<u8> {
        rc_record(self.data.canon(), self.ref_count)
    }

    fn to_bytes(&self) -> (bytes: Vec<u8>) {
        let mut out = self.data.to_bytes();
        put_u64(&mut out, self.ref_count as u64);
        out
    }
}

impl<T: Decode> Decode for RcDbEntry<T> {
    open spec fn well_formed(bytes: Seq<u8>) -> bool {
        is_rc_record::<T>(bytes)
    }

    fn from_bytes(bytes: &[u8]) -> (r: Option<Self>) {
        if bytes.len() < RC_RECORD_TRAILER {
            return None;
        }
        let split = bytes.len() - RC_RECORD_TRAILER;
        let count = match read_u64(bytes, split) {
            Some(c) => c,
            None => {
                return None;
            },
        };
        if count > usize::MAX as u64 {
            return None;
        }
        match T::from_bytes(slice_subrange(bytes, 0, split)) {
            None => None,
            Some(data) => {
                let entry = RcDbEntry { data, ref_count: count as usize };
                assert(entry.canon() =~= bytes@);
                Some(entry)
            },
        }
    }

    proof fn lemma_canon_well_formed(&self) {
        lemma_rc_record(self.data.canon(), self.ref_count);
        self.data.lemma_canon_well_formed();
    }
}

impl<T: Decode> Encrypt for RcDbEntry<T> {

}

/// What a stored record says to the owner of `enc_key`: the count and the
/// serialized value, or nothing where the envelope does not open or holds no
/// record of a value of `T`.
pub open spec fn rc_entry<T: Decode>(enc_key: Seq<u8>, stored: Seq<u8>) -> Option<(nat, Seq<u8>)> {
    match open_envelope(enc_key, stored) {
        Some(plain) => if is_rc_record::<T>(plain) {
            Some((rc_record_count(plain), rc_record_data(plain)))
        } else {
            None
        },
        None => None,
    }
}

/// Whether the record `stored` under `key` is sound: the key has the width
/// of a hash, the record can be read, and the keyed hash of its value is the
/// key.
pub open spec fn rc_record_sound<T: Decode>(
    enc_key: Seq<u8>,
    hash_key: Seq<u8>,
    key: Seq<u8>,
    stored: Seq<u8>,
) -> bool {
    &&& key.len() == HASH_SIZE
    &&& rc_entry::<T>(enc_key, stored) matches Some(entry)
    &&& blake3_keyed_hash(hash_key, entry.1) == key
}

/// Whether `e` is what a test says of the record `stored` under `key`:
/// `SledKeyLengthError` where the key has not the width of a hash, else the
/// damage of a record that cannot be read, else `SelfTestError` where the
/// keyed hash of the value is not the key.
pub open spec fn rc_defect<T: Decode>(
    enc_key: Seq<u8>,
    hash_key: Seq<u8>,
    key: Seq<u8>,
    stored: Seq<u8>,
    e: RepoError,
) -> bool {
    if key.len() != HASH_SIZE {
        e matches RepoError::BackrubError(BackrubError::SledKeyLengthError)
    } else {
        match rc_entry::<T>(enc_key, stored) {
            None => reports_damage(e, enc_key, stored, key),
            Some(entry) => blake3_keyed_hash(hash_key, entry.1) != key
                && e matches RepoError::BackrubError(BackrubError::SelfTestError),
        }
    }
}

/// Whether every record of `records` is sound.
pub open spec fn rcs_sound<T: Decode>(
    records: Map<Seq<u8>, Seq<u8>>,
    enc_key: Seq<u8>,
    hash_key: Seq<u8>,
) -> bool {
    forall|k: Seq<u8>| #[trigger]
        records.contains_key(k) ==> rc_record_sound::<T>(enc_key, hash_key, k, records[k])
}

/// Whether `e` is what a test says of the first record of `records`, in the
/// order of the keys, that is not sound.
pub open spec fn rc_first_defect<T: Decode>(
    records: Map<Seq<u8>, Seq<u8>>,
    enc_key: Seq<u8>,
    hash_key: Seq<u8>,
    e: RepoError,
) -> bool {
    exists|k: Seq<u8>|
        {
            &&& #[trigger] records.contains_key(k)
            &&& !rc_record_sound::<T>(enc_key, hash_key, k, records[k])
            &&& rc_defect::<T>(enc_key, hash_key, k, records[k], e)
            &&& forall|j: Seq<u8>| #[trigger]
                records.contains_key(j) && bytes_lt(j, k) ==> rc_record_sound::<T>(
                    enc_key,
                    hash_key,
                    j,
                    records[j],
                )
        }
}

/// Whether the record `stored` under `key` can be listed: the key has the
/// width of a hash and the record can be read.
pub open spec fn rc_record_readable<T: Decode>(
    enc_key: Seq<u8>,
    key: Seq<u8>,
    stored: Seq<u8>,
) -> bool {
    key.len() == HASH_SIZE && rc_entry::<T>(enc_key, stored) is Some
}

/// Whether `e` is what a listing says of the first record of `records`, in
/// the order of the keys, that cannot be listed: `SledKeyLengthError` where
/// its key has not the width of a hash, else the damage of the record.
pub open spec fn rc_first_unreadable<T: Decode>(
    records: Map<Seq<u8>, Seq<u8>>,
    enc_key: Seq<u8>,
    e: RepoError,
) -> bool {
    exists|k: Seq<u8>|
        {
            &&& #[trigger] records.contains_key(k)
            &&& !rc_record_readable::<T>(enc_key, k, records[k])
            &&& if k.len() != HASH_SIZE {
                e matches RepoError::BackrubError(BackrubError::SledKeyLengthError)
            } else {
                reports_damage(e, enc_key, records[k], k)
            }
            &&& forall|j: Seq<u8>| #[trigger]
                records.contains_key(j) && bytes_lt(j, k) ==> rc_record_readable::<T>(
                    enc_key,
                    j,
                    records[j],
                )
        }
}

/// The record at `i` of a listing whose records before `i` can be listed is
/// the first one that cannot, where it cannot.
pub proof fn lemma_rc_first_unreadable<T: Decode>(
    entries: Seq<(Seq<u8>, Seq<u8>)>,
    records: Map<Seq<u8>, Seq<u8>>,
    enc_key: Seq<u8>,
    i: int,
    e: RepoError,
)
    requires
        is_listing(entries, records),
        0 <= i < entries.len(),
        forall|j: int|
            0 <= j < i ==> rc_record_readable::<T>(
                enc_key,
                (#[trigger] entries[j]).0,
                entries[j].1,
            ),
        !rc_record_readable::<T>(enc_key, entries[i].0, entries[i].1),
        if entries[i].0.len() != HASH_SIZE {
            e matches RepoError::BackrubError(BackrubError::SledKeyLengthError)
        } else {
            reports_damage(e, enc_key, entries[i].1, entries[i].0)
        },
    ensures
        rc_first_unreadable::<T>(records, enc_key, e),
{
    let k = entries[i].0;
    assert(records.contains_key(k) && records[k] == entries[i].1);
    assert forall|j: Seq<u8>| #[trigger] records.contains_key(j) && bytes_lt(j, k) implies
        rc_record_readable::<T>(enc_key, j, records[j]) by {
        let m = lemma_listed_before(entries, records, i, j);
        assert(records[entries[m].0] == entries[m].1);
    }
}

/// The record at `i` of a listing whose records before `i` are sound is the
/// first one that is not, where it is not.
pub proof fn lemma_rc_first_defect<T: Decode>(
    entries: Seq<(Seq<u8>, Seq<u8>)>,
    records: Map<Seq<u8>, Seq<u8>>,
    enc_key: Seq<u8>,
    hash_key: Seq<u8>,
    i: int,
    e: RepoError,
)
    requires
        is_listing(entries, records),
        0 <= i < entries.len(),
        forall|j: int|
            0 <= j < i ==> rc_record_sound::<T>(
                enc_key,
                hash_key,
                (#[trigger] entries[j]).0,
                entries[j].1,
            ),
        !rc_record_sound::<T>(enc_key, hash_key, entries[i].0, entries[i].1),
        rc_defect::<T>(enc_key, hash_key, entries[i].0, entries[i].1, e),
    ensures
        rc_first_defect::<T>(records, enc_key, hash_key, e),
        !rcs_sound::<T>(records, enc_key, hash_key),
{
    let k = entries[i].0;
    assert(records.contains_key(k) && records[k] == entries[i].1);
    assert forall|j: Seq<u8>| #[trigger] records.contains_key(j) && bytes_lt(j, k) implies
        rc_record_sound::<T>(enc_key, hash_key, j, records[j]) by {
        let m = lemma_listed_before(entries, records, i, j);
        assert(records[entries[m].0] == entries[m].1);
    }
}

/// Reads the record that is stored under `key`.
pub fn read_rc_entry<T: Decode>(stored: &[u8], enc_key: &Key256, key: &[u8]) -> (r: Result<
    RcDbEntry<T>,
    RepoError,
>)
    ensures
        match rc_entry::<T>(enc_key@, stored@) {
            Some((count, data)) => r matches Ok(entry) && entry.ref_count == count
                && entry.data.canon() == data,
            None => r matches Err(RepoError::Corruption(kind, Some(k))) && kind == damage(
                enc_key@,
                stored@,
            ) && k@ == key@,
        },
{
    match RcDbEntry::<T>::decrypt(stored, enc_key) {
        Ok(entry) => {
            proof {
                lemma_rc_record(entry.data.canon(), entry.ref_count);
            }
            Ok(entry)
        },
        Err(RepoError::InvalidCiphertext) => Err(
            RepoError::Corruption(CorruptionKind::Envelope, Some(slice_to_vec(key))),
        ),
        Err(_) => Err(RepoError::Corruption(CorruptionKind::Record, Some(slice_to_vec(key)))),
    }
}

/// Seals a record under `enc_key`.
pub fn seal_rc_entry<T: Decode>(entry: &RcDbEntry<T>, enc_key: &Key256) -> (r: Result<
    Vec<u8>,
    RepoError,
>)
    ensures
        r is Ok <==> sealable(entry.canon().len()),
        r matches Ok(stored) ==> rc_entry::<T>(enc_key@, stored@) == Some(
            (entry.ref_count as nat, entry.data.canon()),
        ),
        r matches Err(e) ==> e is InvalidCiphertext,
{
    let r = entry.encrypt(enc_key);
    proof {
        if r is Ok {
            lemma_rc_record(entry.data.canon(), entry.ref_count);
            entry.lemma_canon_well_formed();
        }
    }
    r
}

/// What a remove does to the record of a value.
pub enum RcRemoval<T> {
    /// The store does not hold the value.
    Absent,
    /// The last reference goes: the record is deleted.
    Delete(T),
    /// References are left: the record is stored again with this count.
    Keep(RcDbEntry<T>),
}

/// The count that an insert stores, given what the backend holds under the
/// value's key: one for a first record, else one more than the count of the
/// record that is there.
pub fn rc_insert_plan<T: Decode>(found: &Option<Vec<u8>>, enc_key: &Key256, key: &[u8]) -> (r:
    Result<RefCount, RepoError>)
    ensures
        match found {
            None => r matches Ok(count) && count == 1,
            Some(stored) => match rc_entry::<T>(enc_key@, stored@) {
                Some((old_count, _)) => if old_count < usize::MAX {
                    r matches Ok(count) && count == old_count + 1
                } else {
                    r matches Err(RepoError::RefCountOverflow)
                },
                None => r matches Err(RepoError::Corruption(kind, Some(k))) && kind == damage(
                    enc_key@,
                    stored@,
                ) && k@ == key@,
            },
        },
{
    match found {
        None => Ok(1),
        Some(stored) => match read_rc_entry::<T>(stored.as_slice(), enc_key, key) {
            Err(e) => Err(e),
            Ok(old) => if old.ref_count < usize::MAX {
                Ok(old.ref_count + 1)
            } else {
                Err(RepoError::RefCountOverflow)
            },
        },
    }
}

/// What a remove does, given what the backend holds under the key.
pub fn rc_remove_plan<T: Decode>(found: &Option<Vec<u8>>, enc_key: &Key256, key: &[u8]) -> (r:
    Result<RcRemoval<T>, RepoError>)
    ensures
        match found {
            None => r matches Ok(RcRemoval::Absent),
            Some(stored) => match rc_entry::<T>(enc_key@, stored@) {
                Some((count, data)) => if count <= 1 {
                    r matches Ok(RcRemoval::Delete(value)) && value.canon() == data
                } else {
                    r matches Ok(RcRemoval::Keep(entry)) && entry.ref_count == count - 1
                        && entry.data.canon() == data
                },
                None => r matches Err(RepoError::Corruption(kind, Some(k))) && kind == damage(
                    enc_key@,
                    stored@,
                ) && k@ == key@,
            },
        },
{
    match found {
        None => Ok(RcRemoval::Absent),
        Some(stored) => match read_rc_entry::<T>(stored.as_slice(), enc_key, key) {
            Err(e) => Err(e),
            Ok(old) => if old.ref_count <= 1 {
                Ok(RcRemoval::Delete(old.data))
            } else {
                Ok(RcRemoval::Keep(RcDbEntry { data: old.data, ref_count: old.ref_count - 1 }))
            },
        },
    }
}

/// Generic encrypted reference counting database with [sled] backend: every
/// value stands under its own keyed hash.
#[derive(Debug)]
pub struct RcDb<T: Hashable + Decode> {
    tree: sled::Tree,
    data_enc_key: Key256,
    data_hash_key: Key256,
    entry_type: core::marker::PhantomData<T>,
}

impl<T: Hashable + Decode> View for RcDb<T> {
    type V = Map<Seq<u8>, (nat, Seq<u8>)>;

    /// The values that the store knows: under each key the count and the
    /// serialized value of its readable record.
    open spec fn view(&self) -> Map<Seq<u8>, (nat, Seq<u8>)> {
        Map::new(|k: Seq<u8>| self.entry(k) is Some, |k: Seq<u8>| self.entry(k).unwrap())
    }
}

impl<T: Hashable + Decode> RcDb<T> {
    /// The records of the backend: under each key the sealed record.
    pub closed spec fn records(&self) -> Map<Seq<u8>, Seq<u8>> {
        tree_map(self.tree)
    }

    /// The key that seals the records.
    pub closed spec fn enc_key(&self) -> Seq<u8> {
        self.data_enc_key@
    }

    /// The key under which the values are hashed.
    pub closed spec fn hash_key(&self) -> Seq<u8> {
        self.data_hash_key@
    }

    /// The key that `data` stands under: its keyed hash.
    pub open spec fn key_of(&self, data: Seq<u8>) -> Seq<u8> {
        blake3_keyed_hash(self.hash_key(), data)
    }

    /// What the record under `key` says, where there is one that can be read.
    pub open spec fn entry(&self, key: Seq<u8>) -> Option<(nat, Seq<u8>)> {
        if self.records().contains_key(key) {
            rc_entry::<T>(self.enc_key(), self.records()[key])
        } else {
            None
        }
    }

    /// Whether every record stands under a key of the width of a hash, can
    /// be read, and holds a value whose keyed hash is that key.
    pub open spec fn is_sound(&self) -> bool {
        forall|k: Seq<u8>| #[trigger]
            self.records().contains_key(k) ==> k.len() == HASH_SIZE && self.entry(k) is Some
                && self.key_of(self.entry(k).unwrap().1) == k
    }

    /// What an insert of the serialized value `data` leaves behind: the store
    /// `post` it made of the store `pre`, and what it returned.
    pub open spec fn inserted(
        pre: Self,
        post: Self,
        data: Seq<u8>,
        r: Result<(RefCount, Hash256), RepoError>,
    ) -> bool {
        &&& post.enc_key() == pre.enc_key()
        &&& post.hash_key() == pre.hash_key()
        &&& match r {
            Ok((count, key)) => {
                &&& key@ == pre.key_of(data)
                &&& post@ == rc_insert(pre@, key@, data)
                &&& post.entry(key@) == Some((count as nat, data))
                &&& sealable(rc_record(data, 0).len())
                &&& post.records().remove(key@) == pre.records().remove(key@)
                &&& if pre.records().contains_key(key@) {
                    pre.entry(key@) matches Some((c, _)) && count == c + 1
                } else {
                    count == 1
                }
                &&& pre.is_sound() ==> post.is_sound()
            },
            Err(e) => {
                &&& !(e is SledError) ==> post.records() == pre.records()
                &&& match e {
                    RepoError::SledError(_) => true,
                    RepoError::Corruption(kind, k) => pre.records().contains_key(
                        pre.key_of(data),
                    ) && pre.entry(pre.key_of(data)) is None && reports_damage(
                        e,
                        pre.enc_key(),
                        pre.records()[pre.key_of(data)],
                        pre.key_of(data),
                    ),
                    RepoError::RefCountOverflow => pre.entry(
                        pre.key_of(data),
                    ) matches Some((count, _)) && count >= usize::MAX,
                    RepoError::InvalidCiphertext => !sealable(
                        rc_record(data, 0).len(),
                    ) && (pre.records().contains_key(pre.key_of(data)) ==> (pre.entry(
                        pre.key_of(data),
                    ) matches Some((count, _)) && count < usize::MAX)),
                    _ => false,
                }
            },
        }
    }

    /// What a remove of `key` leaves behind: the store `post` it made of the
    /// store `pre`, and what it returned.
    pub open spec fn removed(
        pre: Self,
        post: Self,
        key: Seq<u8>,
        r: Result<Option<(RefCount, T)>, RepoError>,
    ) -> bool {
        &&& post.enc_key() == pre.enc_key()
        &&& post.hash_key() == pre.hash_key()
        &&& match r {
            Ok(None) => {
                &&& !pre.records().contains_key(key)
                &&& post.records() == pre.records()
            },
            Ok(Some((count, value))) => {
                &&& rc_removed(pre@, key) == Some((count as nat, value.canon()))
                &&& post@ == rc_remove(pre@, key)
                &&& post.records().remove(key) == pre.records().remove(key)
                &&& if count == 0 {
                    !post.records().contains_key(key)
                } else {
                    &&& post.entry(key) == Some((count as nat, value.canon()))
                    &&& sealable(rc_record(value.canon(), 0).len())
                }
                &&& pre.is_sound() ==> post.is_sound()
            },
            Err(e) => {
                &&& !(e is SledError) ==> post.records() == pre.records()
                &&& match e {
                    RepoError::SledError(_) => true,
                    RepoError::Corruption(kind, k) => pre.records().contains_key(key)
                        && pre.entry(key) is None && reports_damage(
                        e,
                        pre.enc_key(),
                        pre.records()[key],
                        key,
                    ),
                    RepoError::InvalidCiphertext => pre.entry(key) matches Some((count, value))
                        && count > 1 && !sealable(rc_record(value, 0).len()),
                    _ => false,
                }
            },
        }
    }

    /// What a lookup of `key` returns.
    pub open spec fn looked_up(
        &self,
        key: Seq<u8>,
        r: Result<Option<(RefCount, T)>, RepoError>,
    ) -> bool {
        match r {
            Ok(Some((count, value))) => self.entry(key) == Some(
                (count as nat, value.canon()),
            ),
            Ok(None) => !self.records().contains_key(key),
            Err(e) => e is SledError || (reports_damage(
                e,
                self.enc_key(),
                self.records()[key],
                key,
            ) && self.records().contains_key(key) && self.entry(key) is None),
        }
    }

    /// What a listing of the store returns: every key with its count and
    /// value, in ascending order of the keys; an error that is not of the
    /// backend only from a store that is not sound.
    pub open spec fn listed(&self, r: Result<Vec<(Hash256, (RefCount, T))>, RepoError>) -> bool {
        &&& r matches Ok(list) ==> {
            &&& forall|i: int|
                0 <= i < list@.len() ==> self.entry((#[trigger] list@[i]).0@) == Some(
                    (list@[i].1.0 as nat, list@[i].1.1.canon()),
                )
            &&& forall|i: int, j: int|
                0 <= i < j < list@.len() ==> bytes_lt(
                    (#[trigger] list@[i]).0@,
                    (#[trigger] list@[j]).0@,
                )
            &&& forall|k: Seq<u8>| #[trigger]
                self.records().contains_key(k) ==> exists|i: int|
                    0 <= i < list@.len() && (#[trigger] list@[i]).0@ == k
        }
        &&& r matches Err(e) ==> e is SledError || (!self.is_sound() && rc_first_unreadable::<T>(
            self.records(),
            self.enc_key(),
            e,
        ))
    }

    /// Database self test
    ///
    /// This performs a complete table scan checking all keys and integrity of
    /// all data: it passes exactly if the store is sound, unless the backend
    /// fails. The first record, in the order of the keys, that is not sound
    /// ends the test with its error.
    pub fn self_test(&self) -> (r: Result<(), RepoError>)
        ensures
            r is Ok ==> self.is_sound() && rcs_sound::<T>(
                self.records(),
                self.enc_key(),
                self.hash_key(),
            ),
            r matches Err(e) ==> e is SledError || (!self.is_sound() && rc_first_defect::<T>(
                self.records(),
                self.enc_key(),
                self.hash_key(),
                e,
            )),
            self.is_sound() ==> r is Ok || r matches Err(RepoError::SledError(_)),
    {
        let entries = match tree_entries(&self.tree) {
            Ok(entries) => entries,
            Err(e) => {
                return Err(RepoError::SledError(e));
            },
        };
        let mut i: usize = 0;
        while i < entries.len()
            invariant
                i <= entries.len(),
                is_listing(entries.deep_view(), self.records()),
                forall|j: int|
                    0 <= j < i ==> rc_record_sound::<T>(
                        self.enc_key(),
                        self.hash_key(),
                        (#[trigger] entries.deep_view()[j]).0,
                        entries.deep_view()[j].1,
                    ),
            decreases entries.len() - i,
        {
            proof {
                let item = entries.deep_view()[i as int];
                assert(item.0 == entries@[i as int].0@ && item.1 == entries@[i as int].1@);
                assert(self.records().contains_key(item.0));
            }
            // Check Key
            if entries[i].0.len() != HASH_SIZE {
                let e = RepoError::BackrubError(BackrubError::SledKeyLengthError);
                proof {
                    lemma_rc_first_defect::<T>(
                        entries.deep_view(),
                        self.records(),
                        self.enc_key(),
                        self.hash_key(),
                        i as int,
                        e,
                    );
                }
                return Err(e);
            }
            // Check data
            let entry = match read_rc_entry::<T>(
                entries[i].1.as_slice(),
                &self.data_enc_key,
                entries[i].0.as_slice(),
            ) {
                Err(e) => {
                    proof {
                        lemma_rc_first_defect::<T>(
                            entries.deep_view(),
                            self.records(),
                            self.enc_key(),
                            self.hash_key(),
                            i as int,
                            e,
                        );
                    }
                    return Err(e);
                },
                Ok(entry) => entry,
            };
            let bound = match entry.data.keyed_hash(&self.data_hash_key) {
                Ok(hash) => crate::structs::bytes_equal(hash.0.as_slice(), entries[i].0.as_slice()),
                Err(_) => false,
            };
            if !bound {
                let e = RepoError::BackrubError(BackrubError::SelfTestError);
                proof {
                    lemma_rc_first_defect::<T>(
                        entries.deep_view(),
                        self.records(),
                        self.enc_key(),
                        self.hash_key(),
                        i as int,
                        e,
                    );
                }
                return Err(e);
            }
            i += 1;
        }
        proof {
            assert forall|k: Seq<u8>| #[trigger] self.records().contains_key(k) implies k.len()
                == HASH_SIZE && self.entry(k) is Some && self.key_of(self.entry(k).unwrap().1)
                == k && rc_record_sound::<T>(
                self.enc_key(),
                self.hash_key(),
                k,
                self.records()[k],
            ) by {
                let j = choose|j: int|
                    0 <= j < entries.deep_view().len() && #[trigger] entries.deep_view()[j].0 == k;
                assert(entries.deep_view()[j].0 == k);
            }
        }
        Ok(())
    }

    /// Creates a new reference counting database from a `sled::Tree` and
    /// running a self test
    ///
    /// Unless the backend fails, the store is accepted exactly if every
    /// record of the tree is sound; else the error is that of the first
    /// record, in the order of the keys, that is not.
    pub fn new(tree: sled::Tree, data_enc_key: Key256, data_hash_key: Key256) -> (r: Result<
        RcDb<T>,
        RepoError,
    >)
        ensures
            match r {
                Ok(db) => db.is_sound() && db.records() == tree_map(tree) && db.enc_key()
                    == data_enc_key@ && db.hash_key() == data_hash_key@ && rcs_sound::<T>(
                    tree_map(tree),
                    data_enc_key@,
                    data_hash_key@,
                ),
                Err(e) => e is SledError || rc_first_defect::<T>(
                    tree_map(tree),
                    data_enc_key@,
                    data_hash_key@,
                    e,
                ),
            },
            rcs_sound::<T>(tree_map(tree), data_enc_key@, data_hash_key@) ==> r is Ok
                || r matches Err(RepoError::SledError(_)),
    {
        let db = RcDb { tree, data_enc_key, data_hash_key, entry_type: core::marker::PhantomData };
        match db.self_test() {
            Ok(()) => Ok(db),
            Err(e) => Err(e),
        }
    }

    /// Returns the number that the backend counts in a full scan of the
    /// stored objects: their number where the scan meets no error. Nothing
    /// tells of an error here, so nothing is stated of the number; `count`
    /// gives the number of the objects or the error.
    ///
    /// **This performs an O(n) scan**
    pub fn len(&self) -> usize {
        tree_len(&self.tree)
    }

    /// Counts the stored objects in a full scan: their number, or the error
    /// that the scan met.
    pub fn count(&self) -> (r: Result<usize, RepoError>)
        ensures
            match r {
                Ok(n) => holds_count(self.records(), n as nat),
                Err(e) => e is SledError,
            },
    {
        match tree_entries(&self.tree) {
            Ok(entries) => {
                proof {
                    lemma_listing_counts(entries.deep_view(), self.records());
                }
                Ok(entries.len())
            },
            Err(e) => Err(RepoError::SledError(e)),
        }
    }

    /// Inserts data into the database
    /// If the same data is already stored the reference count is incremented
    ///
    /// Whether the backend answers is its own affair. After it, the insert
    /// succeeds unless the record that is there cannot be read or counts as
    /// many references as the machine's word holds, or the record is too
    /// long to be sealed.
    pub fn insert(&mut self, data: T) -> (r: Result<(RefCount, Hash256), RepoError>)
        ensures
            Self::inserted(*old(self), *final(self), data.canon(), r),
    {
        let key = match data.keyed_hash(&self.data_hash_key) {
            Ok(key) => key,
            Err(e) => {
                return Err(e);
            },
        };
        let found = match tree_get(&self.tree, key.0.as_slice()) {
            Ok(found) => found,
            Err(e) => {
                return Err(RepoError::SledError(e));
            },
        };
        let ref_count = match rc_insert_plan::<T>(&found, &self.data_enc_key, key.0.as_slice()) {
            Ok(count) => count,
            Err(e) => {
                return Err(e);
            },
        };
        let entry = RcDbEntry { data, ref_count };
        proof {
            lemma_rc_record(data.canon(), ref_count);
            lemma_rc_record(data.canon(), 0);
        }
        let sealed = match seal_rc_entry(&entry, &self.data_enc_key) {
            Ok(sealed) => sealed,
            Err(e) => {
                return Err(e);
            },
        };
        match tree_insert(&mut self.tree, key.0.as_slice(), sealed) {
            Err(e) => Err(RepoError::SledError(e)),
            Ok(_) => {
                proof {
                    assert(final(self).records().remove(key@) =~= old(self).records().remove(
                        key@,
                    ));
                    assert(final(self)@ =~= rc_insert(old(self)@, key@, data.canon()));
                    if old(self).is_sound() {
                        assert forall|k: Seq<u8>| #[trigger]
                            final(self).records().contains_key(k) implies k.len() == HASH_SIZE
                            && final(self).entry(k) is Some && final(self).key_of(
                            final(self).entry(k).unwrap().1,
                        ) == k by {
                            if k != key@ {
                                assert(old(self).records().contains_key(k));
                            }
                        }
                    }
                }
                Ok((ref_count, key))
            },
        }
    }
}

impl<T: Hashable + Decode> RcDb<T> {
    /// Removes an instance of the referenced data from the database.
    /// If the reference count reaches 0 the element will be deleted.
    pub fn remove(&mut self, key: &Hash256) -> (r: Result<Option<(RefCount, T)>, RepoError>)
        ensures
            Self::removed(*old(self), *final(self), key@, r),
    {
        let found = match tree_get(&self.tree, key.0.as_slice()) {
            Ok(found) => found,
            Err(e) => {
                return Err(RepoError::SledError(e));
            },
        };
        match rc_remove_plan::<T>(&found, &self.data_enc_key, key.0.as_slice()) {
            Err(e) => Err(e),
            Ok(RcRemoval::Absent) => Ok(None),
            Ok(RcRemoval::Delete(value)) => match tree_remove(&mut self.tree, key.0.as_slice()) {
                Err(e) => Err(RepoError::SledError(e)),
                Ok(_) => {
                    proof {
                        assert(final(self).records().remove(key@) =~= old(self).records().remove(
                            key@,
                        ));
                        assert(final(self)@ =~= rc_remove(old(self)@, key@));
                        if old(self).is_sound() {
                            assert forall|k: Seq<u8>| #[trigger]
                                final(self).records().contains_key(k) implies k.len() == HASH_SIZE
                                && final(self).entry(k) is Some && final(self).key_of(
                                final(self).entry(k).unwrap().1,
                            ) == k by {
                                assert(old(self).records().contains_key(k));
                            }
                        }
                    }
                    Ok(Some((0, value)))
                },
            },
            Ok(RcRemoval::Keep(entry)) => {
                proof {
                    lemma_rc_record(entry.data.canon(), entry.ref_count);
                    lemma_rc_record(entry.data.canon(), 0);
                }
                let sealed = match seal_rc_entry(&entry, &self.data_enc_key) {
                    Ok(sealed) => sealed,
                    Err(e) => {
                        return Err(e);
                    },
                };
                match tree_insert(&mut self.tree, key.0.as_slice(), sealed) {
                    Err(e) => Err(RepoError::SledError(e)),
                    Ok(_) => {
                        proof {
                            assert(final(self).records().remove(key@) =~= old(self).records().remove(key@));
                            assert(final(self)@ =~= rc_remove(old(self)@, key@));
                            if old(self).is_sound() {
                                assert(old(self).records().contains_key(key@));
                                assert forall|k: Seq<u8>| #[trigger]
                                    final(self).records().contains_key(k) implies k.len()
                                    == HASH_SIZE && final(self).entry(k) is Some
                                    && final(self).key_of(final(self).entry(k).unwrap().1) == k by {
                                    assert(old(self).records().contains_key(k));
                                }
                            }
                        }
                        Ok(Some((entry.ref_count, entry.data)))
                    },
                }
            },
        }
    }

    /// Deletes the referenced entry from the database regardless of the
    /// reference count, and returns the count it had and the value.
    ///
    /// The record is gone before it is read: a record that cannot be read is
    /// deleted too, and reported.
    pub fn purge(&mut self, key: &Hash256) -> (r: Result<Option<(RefCount, T)>, RepoError>)
        ensures
            final(self).enc_key() == old(self).enc_key(),
            final(self).hash_key() == old(self).hash_key(),
            !(r matches Err(RepoError::SledError(_))) ==> final(self).records() == old(self)
                .records().remove(key@) && final(self)@ == old(self)@.remove(key@)
                && final(self).entry(key@) is None,
            match r {
                Ok(None) => !old(self).records().contains_key(key@),
                Ok(Some((count, value))) => old(self).entry(key@) == Some(
                    (count as nat, value.canon()),
                ),
                Err(e) => e is SledError || (reports_damage(
                    e,
                    old(self).enc_key(),
                    old(self).records()[key@],
                    key@,
                ) && old(self).records().contains_key(key@) && old(self).entry(key@) is None),
            },
    {
        match tree_remove(&mut self.tree, key.0.as_slice()) {
            Err(e) => Err(RepoError::SledError(e)),
            Ok(found) => {
                proof {
                    assert(final(self)@ =~= old(self)@.remove(key@));
                }
                match found {
                    None => Ok(None),
                    Some(stored) => match read_rc_entry::<T>(
                        stored.as_slice(),
                        &self.data_enc_key,
                        key.0.as_slice(),
                    ) {
                        Err(e) => Err(e),
                        Ok(old) => Ok(Some((old.ref_count, old.data))),
                    },
                }
            },
        }
    }

    /// Gets the current reference count and data
    pub fn get_data_db_entry(&self, key: &Hash256) -> (r: Result<Option<(RefCount, T)>, RepoError>)
        ensures
            self.looked_up(key@, r),
    {
        match tree_get(&self.tree, key.0.as_slice()) {
            Err(e) => Err(RepoError::SledError(e)),
            Ok(None) => Ok(None),
            Ok(Some(stored)) => match read_rc_entry::<T>(
                stored.as_slice(),
                &self.data_enc_key,
                key.0.as_slice(),
            ) {
                Err(e) => Err(e),
                Ok(entry) => Ok(Some((entry.ref_count, entry.data))),
            },
        }
    }

    /// Gets only the referenced data
    pub fn get_data(&self, key: &Hash256) -> (r: Result<Option<T>, RepoError>)
        ensures
            match r {
                Ok(Some(value)) => self.entry(key@) matches Some((_, d)) && d == value.canon(),
                Ok(None) => !self.records().contains_key(key@),
                Err(e) => e is SledError || (reports_damage(
                    e,
                    self.enc_key(),
                    self.records()[key@],
                    key@,
                ) && self.records().contains_key(key@) && self.entry(key@) is None),
            },
    {
        match self.get_data_db_entry(key) {
            Err(e) => Err(e),
            Ok(None) => Ok(None),
            Ok(Some((_ref_count, data))) => Ok(Some(data)),
        }
    }

    /// Gets only the reference count
    pub fn get_ref_count(&self, key: &Hash256) -> (r: Result<Option<RefCount>, RepoError>)
        ensures
            match r {
                Ok(Some(count)) => self.entry(key@) matches Some((c, _)) && c == count,
                Ok(None) => !self.records().contains_key(key@),
                Err(e) => e is SledError || (reports_damage(
                    e,
                    self.enc_key(),
                    self.records()[key@],
                    key@,
                ) && self.records().contains_key(key@) && self.entry(key@) is None),
            },
    {
        match self.get_data_db_entry(key) {
            Err(e) => Err(e),
            Ok(None) => Ok(None),
            Ok(Some((ref_count, _data))) => Ok(Some(ref_count)),
        }
    }

    /// Returns a complete in memory representation of the database: every
    /// key with its count and value, in ascending order of the keys.
    pub fn get_mappings(&self) -> (r: Result<Vec<(Hash256, (RefCount, T))>, RepoError>)
        ensures
            self.listed(r),
    {
        let entries = match tree_entries(&self.tree) {
            Ok(entries) => entries,
            Err(e) => {
                return Err(RepoError::SledError(e));
            },
        };
        let mut result: Vec<(Hash256, (RefCount, T))> = Vec::new();
        let mut i: usize = 0;
        while i < entries.len()
            invariant
                i <= entries.len(),
                result@.len() == i,
                is_listing(entries.deep_view(), self.records()),
                forall|j: int|
                    0 <= j < i ==> (#[trigger] result@[j]).0@ == entries.deep_view()[j].0
                        && self.entry(result@[j].0@) == Some(
                        (result@[j].1.0 as nat, result@[j].1.1.canon()),
                    ),
                forall|j: int|
                    0 <= j < i ==> rc_record_readable::<T>(
                        self.enc_key(),
                        (#[trigger] entries.deep_view()[j]).0,
                        entries.deep_view()[j].1,
                    ),
            decreases entries.len() - i,
        {
            proof {
                let item = entries.deep_view()[i as int];
                assert(item.0 == entries@[i as int].0@ && item.1 == entries@[i as int].1@);
                assert(self.records().contains_key(item.0));
            }
            let hash = match Hash256::from_slice(entries[i].0.as_slice()) {
                Some(hash) => hash,
                None => {
                    let e = RepoError::BackrubError(BackrubError::SledKeyLengthError);
                    proof {
                        lemma_rc_first_unreadable::<T>(
                            entries.deep_view(),
                            self.records(),
                            self.enc_key(),
                            i as int,
                            e,
                        );
                    }
                    return Err(e);
                },
            };
            match read_rc_entry::<T>(
                entries[i].1.as_slice(),
                &self.data_enc_key,
                entries[i].0.as_slice(),
            ) {
                Err(e) => {
                    proof {
                        lemma_rc_first_unreadable::<T>(
                            entries.deep_view(),
                            self.records(),
                            self.enc_key(),
                            i as int,
                            e,
                        );
                    }
                    return Err(e);
                },
                Ok(entry) => {
                    result.push((hash, (entry.ref_count, entry.data)));
                },
            }
            i += 1;
        }
        proof {
            assert forall|k: Seq<u8>| #[trigger] self.records().contains_key(k) implies exists|
                i: int,
            |
                0 <= i < result@.len() && (#[trigger] result@[i]).0@ == k by {
                let j = choose|j: int|
                    0 <= j < entries.deep_view().len() && #[trigger] entries.deep_view()[j].0 == k;
                assert(result@[j].0@ == k);
            }
            assert forall|i: int, j: int| 0 <= i < j < result@.len() implies bytes_lt(
                (#[trigger] result@[i]).0@,
                (#[trigger] result@[j]).0@,
            ) by {
                assert(bytes_lt(entries.deep_view()[i].0, entries.deep_view()[j].0));
            }
        }
        Ok(result)
    }
}

/// The reference-counted store of the inodes: every inode stands under its
/// own keyed hash.
#[derive(Debug)]
pub struct InodeDb {
    db: RcDb<Inode>,
}

impl View for InodeDb {
    type V = Map<Seq<u8>, (nat, Seq<u8>)>;

    /// The inodes that the store knows: under each inode hash the count and
    /// the serialized inode.
    open spec fn view(&self) -> Map<Seq<u8>, (nat, Seq<u8>)> {
        self.store()@
    }
}

impl InodeDb {
    /// The store that holds the inodes.
    pub closed spec fn store(&self) -> RcDb<Inode> {
        self.db
    }

    /// Checks every record: its key, its envelope, and that the inode
    /// hashes to the key.
    pub fn self_test(&self) -> (r: Result<(), RepoError>)
        ensures
            r is Ok ==> self.store().is_sound() && rcs_sound::<Inode>(
                self.store().records(),
                self.store().enc_key(),
                self.store().hash_key(),
            ),
            r matches Err(e) ==> e is SledError || (!self.store().is_sound()
                && rc_first_defect::<Inode>(
                self.store().records(),
                self.store().enc_key(),
                self.store().hash_key(),
                e,
            )),
            self.store().is_sound() ==> r is Ok || r matches Err(RepoError::SledError(_)),
    {
        self.db.self_test()
    }

    /// Creates the store of the inodes from a `sled::Tree`, running a self
    /// test: unless the backend fails, the store is accepted exactly if
    /// every record of the tree is sound; else the error is that of the
    /// first record, in the order of the keys, that is not.
    pub fn new(tree: sled::Tree, inode_enc_key: Key256, inode_hash_key: Key256) -> (r: Result<
        InodeDb,
        RepoError,
    >)
        ensures
            match r {
                Ok(db) => db.store().is_sound() && db.store().records() == tree_map(tree)
                    && db.store().enc_key() == inode_enc_key@ && db.store().hash_key()
                    == inode_hash_key@ && rcs_sound::<Inode>(
                    tree_map(tree),
                    inode_enc_key@,
                    inode_hash_key@,
                ),
                Err(e) => e is SledError || rc_first_defect::<Inode>(
                    tree_map(tree),
                    inode_enc_key@,
                    inode_hash_key@,
                    e,
                ),
            },
            rcs_sound::<Inode>(tree_map(tree), inode_enc_key@, inode_hash_key@) ==> r is Ok
                || r matches Err(RepoError::SledError(_)),
    {
        match RcDb::<Inode>::new(tree, inode_enc_key, inode_hash_key) {
            Ok(db) => Ok(InodeDb { db }),
            Err(e) => Err(e),
        }
    }

    /// Returns the number that the backend counts in a full scan of the
    /// stored inodes; `count` gives their number or the error of the scan.
    pub fn len(&self) -> usize {
        self.db.len()
    }

    /// Counts the stored inodes in a full scan: their number, or the error
    /// that the scan met.
    pub fn count(&self) -> (r: Result<usize, RepoError>)
        ensures
            match r {
                Ok(n) => holds_count(self.store().records(), n as nat),
                Err(e) => e is SledError,
            },
    {
        self.db.count()
    }

    /// Inserts an inode, or counts one more reference to it.
    pub fn insert(&mut self, inode: Inode) -> (r: Result<(RefCount, Hash256), RepoError>)
        ensures
            RcDb::<Inode>::inserted(old(self).store(), final(self).store(), inode.canon(), r),
    {
        self.db.insert(inode)
    }

    /// Gives up one reference to an inode; with the last one the record is
    /// deleted.
    pub fn remove(&mut self, key: &Hash256) -> (r: Result<Option<(RefCount, Inode)>, RepoError>)
        ensures
            RcDb::<Inode>::removed(old(self).store(), final(self).store(), key@, r),
    {
        self.db.remove(key)
    }

    /// Gets the current reference count and the inode.
    pub fn get_inode_db_entry(&self, key: &Hash256) -> (r: Result<
        Option<(RefCount, Inode)>,
        RepoError,
    >)
        ensures
            self.store().looked_up(key@, r),
    {
        self.db.get_data_db_entry(key)
    }

    /// Gets only the inode.
    pub fn get_inode(&self, key: &Hash256) -> (r: Result<Option<Inode>, RepoError>)
        ensures
            match r {
                Ok(Some(inode)) => self.store().entry(key@) matches Some((_, d)) && d
                    == inode.canon(),
                Ok(None) => !self.store().records().contains_key(key@),
                Err(e) => e is SledError || (reports_damage(
                    e,
                    self.store().enc_key(),
                    self.store().records()[key@],
                    key@,
                ) && self.store().records().contains_key(key@) && self.store().entry(key@)
                    is None),
            },
    {
        self.db.get_data(key)
    }

    /// Gets only the reference count.
    pub fn get_ref_count(&self, key: &Hash256) -> (r: Result<Option<RefCount>, RepoError>)
        ensures
            match r {
                Ok(Some(count)) => self.store().entry(key@) matches Some((c, _)) && c == count,
                Ok(None) => !self.store().records().contains_key(key@),
                Err(e) => e is SledError || (reports_damage(
                    e,
                    self.store().enc_key(),
                    self.store().records()[key@],
                    key@,
                ) && self.store().records().contains_key(key@) && self.store().entry(key@)
                    is None),
            },
    {
        self.db.get_ref_count(key)
    }

    /// Returns every inode hash with its count and inode, in ascending order
    /// of the hashes.
    pub fn get_mappings(&self) -> (r: Result<Vec<(Hash256, (RefCount, Inode))>, RepoError>)
        ensures
            self.store().listed(r),
    {
        self.db.get_mappings()
    }
}

/// How many paths a generator can still hand out: the paths that wait to be
/// used again, and the counter values that are left.
pub open spec fn paths_left(state: ChunkDbState) -> nat {
    state.free().len() + (u64::MAX - state.counter()) as nat
}

impl ChunkDb {
    /// Whether `name` is a file name that the store has given out or can
    /// still give out: the name of a record, a path that waits to be used
    /// again, or the path of a counter value that is left.
    pub open spec fn knows_name(&self, name: Seq<char>) -> bool {
        ||| exists|k: Seq<u8>| #[trigger] self@.contains_key(k) && self@[k].1 == name
        ||| self.paths().free().contains(name)
        ||| exists|c: nat| self.paths().counter() < c <= u64::MAX && name == #[trigger] path_of(c)
    }
}

/// How far a run of inserts has come that counts a reference to each of
/// `hashes` in turn, after the first `done` of them: what the store `now`
/// has in common with the store `before` the run. Each chunk counts as many
/// references more as its hash stands among the first `done`, and a record
/// that was there keeps its file name.
pub open spec fn counted_so_far(before: ChunkDb, now: ChunkDb, hashes: Seq<Seq<u8>>, done: int) -> bool {
    &&& now.enc_key() == before.enc_key()
    &&& forall|k: Seq<u8>|
        !hashes.take(done).contains(k) ==> (#[trigger] now.records().contains_key(k))
            == before.records().contains_key(k) && (now.records().contains_key(k)
            ==> now.records()[k] == before.records()[k])
    &&& forall|j: int|
        0 <= j < done ==> now.entry(#[trigger] hashes[j]) is Some && sealable(
            chunk_record(1, now@[hashes[j]].1).len(),
        )
    &&& forall|k: Seq<u8>| #[trigger]
        rc_count(now@, k) == rc_count(before@, k) + occurrences(hashes.take(done), k)
    &&& forall|k: Seq<u8>| #[trigger]
        before@.contains_key(k) ==> now@.contains_key(k) && now@[k].1 == before@[k].1
    &&& paths_left(before.paths()) <= paths_left(now.paths()) + done
    &&& forall|name: Seq<char>| #[trigger] now.knows_name(name) ==> before.knows_name(name)
}

/// Why a run of inserts that counts a reference to each of `hashes` in turn
/// can be refused by the store as it was `before` the run, other than by an
/// error of the backend: a record under one of the hashes cannot be read or
/// counts too many references already, the paths run out before the hashes
/// do, or a file name is too long for its record to be sealed.
pub open spec fn counting_refused(before: ChunkDb, hashes: Seq<Seq<u8>>, e: RepoError) -> bool {
    match e {
        RepoError::Corruption(kind, k) => exists|i: int|
            0 <= i < hashes.len() && before.records().contains_key(#[trigger] hashes[i])
                && before.entry(hashes[i]) is None && reports_damage(
                e,
                before.enc_key(),
                before.records()[hashes[i]],
                hashes[i],
            ),
        RepoError::RefCountOverflow => exists|i: int|
            0 <= i < hashes.len() && rc_count(before@, #[trigger] hashes[i]) + hashes.len()
                > usize::MAX,
        RepoError::Exhausted => paths_left(before.paths()) < hashes.len(),
        RepoError::InvalidCiphertext => exists|name: Seq<char>| #[trigger]
            before.knows_name(name) && !sealable(chunk_record(1, name).len()),
        _ => false,
    }
}

/// An insert that succeeds takes a run of inserts one step on.
pub proof fn lemma_counted_one_more(
    before: ChunkDb,
    pre: ChunkDb,
    post: ChunkDb,
    hashes: Seq<Seq<u8>>,
    done: int,
    r: Result<(RefCount, String), RepoError>,
)
    requires
        0 <= done < hashes.len(),
        counted_so_far(before, pre, hashes, done),
        ChunkDb::inserted(pre, post, hashes[done], r),
        r is Ok,
    ensures
        counted_so_far(before, post, hashes, done + 1),
{
    let key = hashes[done];
    let name = r->Ok_0.1@;
    assert(hashes.take(done + 1).contains(key)) by {
        assert(hashes.take(done + 1)[done] == key);
    }
    assert forall|k: Seq<u8>| !hashes.take(done + 1).contains(k) implies (
    #[trigger] post.records().contains_key(k)) == before.records().contains_key(k) && (
    post.records().contains_key(k) ==> post.records()[k] == before.records()[k]) by {
        assert(k != key);
        if hashes.take(done).contains(k) {
            let j = choose|j: int| 0 <= j < hashes.take(done).len() && hashes.take(done)[j] == k;
            assert(hashes.take(done + 1)[j] == k);
        }
        assert(post.records().remove(key).contains_key(k) == pre.records().remove(
            key,
        ).contains_key(k));
        assert(post.records().remove(key)[k] == pre.records().remove(key)[k]);
    }
    assert forall|j: int| 0 <= j < done + 1 implies post.entry(#[trigger] hashes[j]) is Some
        && sealable(chunk_record(1, post@[hashes[j]].1).len()) by {
        let k = hashes[j];
        if k != key {
            assert(pre.entry(k) is Some);
            assert(post.records().remove(key).contains_key(k) == pre.records().remove(
                key,
            ).contains_key(k));
            assert(post.records().remove(key)[k] == pre.records().remove(key)[k]);
            assert(post@[k] == pre@[k]);
        } else {
            assert(post@[k].1 == name);
            lemma_chunk_record_len(r->Ok_0.0, name);
            lemma_chunk_record_len(1, name);
        }
    }
    assert forall|k: Seq<u8>| #[trigger]
        rc_count(post@, k) == rc_count(before@, k) + occurrences(hashes.take(done + 1), k) by {
        assert(rc_count(pre@, k) == rc_count(before@, k) + occurrences(hashes.take(done), k));
        lemma_occurrences_push(hashes, done, k);
    }
    assert forall|k: Seq<u8>| #[trigger] before@.contains_key(k) implies post@.contains_key(k)
        && post@[k].1 == before@[k].1 by {
        assert(pre@.contains_key(k) && pre@[k].1 == before@[k].1);
    }
    assert forall|n: Seq<char>| #[trigger] post.knows_name(n) implies before.knows_name(n) by {
        lemma_insert_knows(pre, post, key, r, n);
    }
}

/// A store with the records, the paths and the key of another is as far in
/// a run of inserts as the other.
pub proof fn lemma_counted_same(
    before: ChunkDb,
    pre: ChunkDb,
    post: ChunkDb,
    hashes: Seq<Seq<u8>>,
    done: int,
)
    requires
        counted_so_far(before, pre, hashes, done),
        post.records() == pre.records(),
        post.paths() == pre.paths(),
        post.enc_key() == pre.enc_key(),
    ensures
        counted_so_far(before, post, hashes, done),
{
    assert(post@ =~= pre@);
    assert forall|j: int| 0 <= j < done implies post.entry(#[trigger] hashes[j]) is Some
        && sealable(chunk_record(1, post@[hashes[j]].1).len()) by {
        assert(pre.entry(hashes[j]) is Some);
    }
    assert forall|k: Seq<u8>| #[trigger]
        rc_count(post@, k) == rc_count(before@, k) + occurrences(hashes.take(done), k) by {
        assert(rc_count(pre@, k) == rc_count(before@, k) + occurrences(hashes.take(done), k));
    }
    assert forall|n: Seq<char>| #[trigger] post.knows_name(n) implies before.knows_name(n) by {
        assert(pre.knows_name(n));
    }
}

/// Two runs of inserts over the same hashes, one after the other, count
/// each chunk twice as often as its hash stands among them: a file that is
/// stored twice leaves each of its chunks with two references at least.
pub proof fn lemma_counted_twice(
    first: ChunkDb,
    second: ChunkDb,
    third: ChunkDb,
    hashes: Seq<Seq<u8>>,
    i: int,
)
    requires
        counted_so_far(first, second, hashes, hashes.len() as int),
        counted_so_far(second, third, hashes, hashes.len() as int),
        0 <= i < hashes.len(),
    ensures
        rc_count(third@, hashes[i]) == rc_count(first@, hashes[i]) + 2 * occurrences(
            hashes,
            hashes[i],
        ),
        rc_count(third@, hashes[i]) >= 2,
{
    let k = hashes[i];
    assert(hashes.take(hashes.len() as int) =~= hashes);
    assert(rc_count(second@, k) == rc_count(first@, k) + occurrences(hashes, k));
    assert(rc_count(third@, k) == rc_count(second@, k) + occurrences(hashes, k));
    lemma_occurrences(hashes, k);
    assert(hashes.contains(k));
}

/// A name that a store knows after an insert is one that it knew before.
pub proof fn lemma_insert_knows(
    pre: ChunkDb,
    post: ChunkDb,
    key: Seq<u8>,
    r: Result<(RefCount, String), RepoError>,
    name: Seq<char>,
)
    requires
        ChunkDb::inserted(pre, post, key, r),
        r is Ok,
        post.knows_name(name),
    ensures
        pre.knows_name(name),
{
    let given = r->Ok_0.1@;
    if pre.records().contains_key(key) {
        assert(pre@.contains_key(key) && pre@[key].1 == given);
    } else {
        if pre.paths().free().len() > 0 {
            assert(pre.paths().free()[pre.paths().free().len() - 1] == given);
        } else {
            assert(given == path_of((pre.paths().counter() + 1) as nat));
        }
    }
    assert(pre.knows_name(given));
    if exists|k: Seq<u8>| #[trigger] post@.contains_key(k) && post@[k].1 == name {
        let k = choose|k: Seq<u8>| #[trigger] post@.contains_key(k) && post@[k].1 == name;
        if k != key {
            assert(pre@.contains_key(k) && pre@[k].1 == name);
        }
    } else if post.paths().free().contains(name) {
        let at = choose|at: int|
            0 <= at < post.paths().free().len() && post.paths().free()[at] == name;
        assert(pre.paths().free()[at] == name);
    } else {
        let c = choose|c: nat|
            post.paths().counter() < c <= u64::MAX && name == #[trigger] path_of(c);
        assert(pre.paths().counter() < c <= u64::MAX && name == path_of(c));
    }
}

/// An insert that the store refuses, in a run of inserts, is one that the
/// store as it was before the run refuses.
pub proof fn lemma_counting_refused(
    before: ChunkDb,
    pre: ChunkDb,
    post: ChunkDb,
    hashes: Seq<Seq<u8>>,
    done: int,
    e: RepoError,
)
    requires
        0 <= done < hashes.len(),
        hashes.len() <= usize::MAX,
        counted_so_far(before, pre, hashes, done),
        ChunkDb::inserted(pre, post, hashes[done], Err(e)),
        !(e is SledError),
    ensures
        counting_refused(before, hashes, e),
{
    let key = hashes[done];
    match e {
        RepoError::Corruption(kind, k) => {
            if hashes.take(done).contains(key) {
                let j = choose|j: int|
                    0 <= j < hashes.take(done).len() && hashes.take(done)[j] == key;
                assert(pre.entry(hashes[j]) is Some);
            }
            assert(pre.records().contains_key(key));
            assert(before.records().contains_key(key) && before.records()[key]
                == pre.records()[key]);
        },
        RepoError::RefCountOverflow => {
            assert(rc_count(pre@, key) == rc_count(before@, key) + occurrences(
                hashes.take(done),
                key,
            ));
            lemma_occurrences(hashes.take(done), key);
        },
        RepoError::Exhausted => {},
        RepoError::InvalidCiphertext => {
            match pre.entry(key) {
                Some((count, name)) => {
                    assert(pre@.contains_key(key) && pre@[key].1 == name);
                    assert(pre.knows_name(name));
                    lemma_chunk_record_len((count + 1) as usize, name);
                    lemma_chunk_record_len(1, name);
                },
                None => {
                    let path = next_path(pre.paths().free(), pre.paths().counter())->0;
                    if pre.paths().free().len() > 0 {
                        assert(pre.paths().free()[pre.paths().free().len() - 1] == path);
                    } else {
                        assert(path == path_of((pre.paths().counter() + 1) as nat));
                    }
                    assert(pre.knows_name(path));
                },
            }
        },
        _ => {},
    }
}

/// The store after one reference to each of `keys` was given up, from the
/// last key back.
pub open spec fn rc_remove_back<V>(map: Map<Seq<u8>, (nat, V)>, keys: Seq<Seq<u8>>) -> Map<
    Seq<u8>,
    (nat, V),
>
    decreases keys.len(),
{
    if keys.len() == 0 {
        map
    } else {
        rc_remove_back(rc_remove(map, keys.last()), keys.drop_last())
    }
}

/// What giving up one reference to each of `keys` does to the record under
/// `k`: its count goes down by the number of times `k` stands in `keys`, not
/// below zero, and a record that stays keeps its payload.
pub proof fn lemma_remove_back<V>(map: Map<Seq<u8>, (nat, V)>, keys: Seq<Seq<u8>>, k: Seq<u8>)
    ensures
        rc_count(rc_remove_back(map, keys), k) == if rc_count(map, k) >= occurrences(keys, k) {
            rc_count(map, k) - occurrences(keys, k)
        } else {
            0
        },
        rc_remove_back(map, keys).contains_key(k) ==> map.contains_key(k) && rc_remove_back(
            map,
            keys,
        )[k].1 == map[k].1,
        map.contains_key(k) && rc_count(map, k) > occurrences(keys, k) ==> rc_remove_back(
            map,
            keys,
        ).contains_key(k),
    decreases keys.len(),
{
    if keys.len() > 0 {
        lemma_remove_back(rc_remove(map, keys.last()), keys.drop_last(), k);
    }
}

/// Whether the store `now` counts what the store `before` counted: every
/// chunk has as many references as it had, and every chunk that had a
/// reference has the record it had.
pub open spec fn counts_restored(before: ChunkDb, now: ChunkDb) -> bool {
    &&& now.enc_key() == before.enc_key()
    &&& forall|k: Seq<u8>| #[trigger] rc_count(now@, k) == rc_count(before@, k)
    &&& forall|k: Seq<u8>| #[trigger]
        before@.contains_key(k) && before@[k].0 > 0 ==> now@.contains_key(k) && now@[k]
            == before@[k]
}

/// A run of inserts that is given up again, from the last insert back,
/// leaves the counts as they were before the run.
pub proof fn lemma_counts_restored(
    before: ChunkDb,
    mid: ChunkDb,
    after: ChunkDb,
    hashes: Seq<Seq<u8>>,
    done: int,
)
    requires
        0 <= done <= hashes.len(),
        counted_so_far(before, mid, hashes, done),
        after@ == rc_remove_back(mid@, hashes.take(done)),
        after.enc_key() == mid.enc_key(),
    ensures
        counts_restored(before, after),
{
    assert forall|k: Seq<u8>| #[trigger] rc_count(after@, k) == rc_count(before@, k) by {
        lemma_remove_back(mid@, hashes.take(done), k);
        assert(rc_count(mid@, k) == rc_count(before@, k) + occurrences(hashes.take(done), k));
    }
    assert forall|k: Seq<u8>| #[trigger]
        before@.contains_key(k) && before@[k].0 > 0 implies after@.contains_key(k) && after@[k]
        == before@[k] by {
        lemma_remove_back(mid@, hashes.take(done), k);
        assert(rc_count(mid@, k) == rc_count(before@, k) + occurrences(hashes.take(done), k));
        assert(mid@.contains_key(k) && mid@[k].1 == before@[k].1);
        assert(rc_count(after@, k) == rc_count(before@, k));
    }
}

/// The store does not refuse to give up again what a run of inserts has
/// counted: the records under the hashes can be read, and their file names
/// were sealed in the run.
pub proof fn lemma_counted_can_go_back(
    before: ChunkDb,
    mid: ChunkDb,
    hashes: Seq<Seq<u8>>,
    done: int,
    e: RepoError,
)
    requires
        0 <= done <= hashes.len(),
        counted_so_far(before, mid, hashes, done),
    ensures
        !removing_refused(mid, hashes.take(done), e),
{
    if removing_refused(mid, hashes.take(done), e) {
        let keys = hashes.take(done);
        match e {
            RepoError::Corruption(kind, k) => {
                let i = choose|i: int|
                    0 <= i < keys.len() && mid.records().contains_key(#[trigger] keys[i])
                        && mid.entry(keys[i]) is None;
                assert(mid.entry(hashes[i]) is Some);
            },
            RepoError::InvalidCiphertext => {
                let i = choose|i: int|
                    0 <= i < keys.len() && mid@.contains_key(#[trigger] keys[i]) && !sealable(
                        chunk_record(1, mid@[keys[i]].1).len(),
                    );
                assert(mid.entry(hashes[i]) is Some);
            },
            _ => {},
        }
    }
}

/// How far a run of removes has come: what the store `now` has in common
/// with the store `before` the run. A record that cannot be read was there
/// before, and a record that can be read has the file name it had before.
pub open spec fn removed_so_far(before: ChunkDb, now: ChunkDb) -> bool {
    &&& now.enc_key() == before.enc_key()
    &&& now.paths().counter() == before.paths().counter()
    &&& forall|k: Seq<u8>|
        (#[trigger] now.records().contains_key(k)) && now.entry(k) is None
            ==> before.records().contains_key(k) && before.records()[k] == now.records()[k]
    &&& forall|k: Seq<u8>| #[trigger]
        now@.contains_key(k) ==> before@.contains_key(k) && now@[k].1 == before@[k].1
}

/// Why a run of removes that gives up a reference to each of `keys` can be
/// refused by the store as it was `before` the run, other than by an error
/// of the backend: a record under one of the keys cannot be read, or its
/// file name is too long for the record to be sealed again.
pub open spec fn removing_refused(before: ChunkDb, keys: Seq<Seq<u8>>, e: RepoError) -> bool {
    match e {
        RepoError::Corruption(kind, k) => exists|i: int|
            0 <= i < keys.len() && before.records().contains_key(#[trigger] keys[i])
                && before.entry(keys[i]) is None && reports_damage(
                e,
                before.enc_key(),
                before.records()[keys[i]],
                keys[i],
            ),
        RepoError::InvalidCiphertext => exists|i: int|
            0 <= i < keys.len() && before@.contains_key(#[trigger] keys[i]) && !sealable(
                chunk_record(1, before@[keys[i]].1).len(),
            ),
        _ => false,
    }
}

/// A remove that succeeds takes a run of removes one step on.
pub proof fn lemma_removed_one_more(
    before: ChunkDb,
    pre: ChunkDb,
    post: ChunkDb,
    key: Seq<u8>,
    r: Result<Option<(RefCount, String)>, RepoError>,
)
    requires
        removed_so_far(before, pre),
        ChunkDb::removed(pre, post, key, r),
        r is Ok,
    ensures
        removed_so_far(before, post),
        post@ == rc_remove(pre@, key),
{
    match r {
        Ok(None) => {
            assert(post@ =~= pre@);
            assert(!pre@.contains_key(key));
        },
        Ok(Some((count, name))) => {
            assert forall|k: Seq<u8>|
                (#[trigger] post.records().contains_key(k)) && post.entry(k) is None
                implies before.records().contains_key(k) && before.records()[k]
                == post.records()[k] by {
                if k != key {
                    assert(post.records().remove(key).contains_key(k) == pre.records().remove(
                        key,
                    ).contains_key(k));
                    assert(post.records().remove(key)[k] == pre.records().remove(key)[k]);
                    assert(pre.records().contains_key(k) && pre.entry(k) is None);
                }
            }
            assert forall|k: Seq<u8>| #[trigger] post@.contains_key(k) implies before@.contains_key(
                k,
            ) && post@[k].1 == before@[k].1 by {
                assert(pre@.contains_key(k) && pre@[k].1 == post@[k].1);
            }
        },
        Err(_) => {},
    }
}

/// A remove that the store refuses, in a run of removes, is one that the
/// store as it was before the run refuses.
pub proof fn lemma_removing_refused(
    before: ChunkDb,
    pre: ChunkDb,
    post: ChunkDb,
    keys: Seq<Seq<u8>>,
    at: int,
    e: RepoError,
)
    requires
        0 <= at < keys.len(),
        removed_so_far(before, pre),
        ChunkDb::removed(pre, post, keys[at], Err(e)),
        !(e is SledError),
    ensures
        removing_refused(before, keys, e),
        removed_so_far(before, post),
{
    let key = keys[at];
    match e {
        RepoError::Corruption(kind, k) => {
            assert(pre.records().contains_key(key) && pre.entry(key) is None);
            assert(before.records().contains_key(key) && before.records()[key]
                == pre.records()[key]);
        },
        RepoError::InvalidCiphertext => {
            let entry = pre.entry(key)->0;
            let count = entry.0;
            let name = entry.1;
            assert(pre@.contains_key(key) && pre@[key].1 == name);
            assert(before@.contains_key(key) && before@[key].1 == name);
            lemma_chunk_record_len((count - 1) as usize, name);
            lemma_chunk_record_len(1, name);
        },
        _ => {},
    }
    assert(post.records() == pre.records());
    assert(post@ =~= pre@);
}

} // verus!
