//! Content-addressed, deduplicating, encrypted backup storage engine.
//!
//! Files are cut into content-defined chunks ([`utils`]); each chunk and each
//! record of a file, directory or link ([`inode`]) stands once in a
//! reference-counted, encrypted store ([`db`]) under its keyed hash
//! ([`traits`]). New chunks get short relative paths from a counter
//! ([`paths`]). The keys of a repository come from its password ([`keys`]) and
//! are anchored in a signed manifest ([`manifest`]); [`manager`] holds the
//! protocols that create, open and fill a repository. [`dedup`] is the index
//! of a finder of duplicate files, which reports the paths of a group in the
//! order of their components ([`path_order`]).

/// The key-value backend
pub mod backend;

/// The canonical serialization of values
pub mod codec;

/// The reference-counted stores
pub mod db;

/// The index of duplicate files
pub mod dedup;

/// Error and result types
pub mod error;

/// The records of the entries of a file system
pub mod inode;

/// The key hierarchy: data keys, their masks, and the password hash
pub mod keys;

/// Backup manager and configuration
pub mod manager;

/// The manifest and its signature
pub mod manifest;

/// The orders of byte strings and of hashes
pub mod order;

/// The order of paths by their components
pub mod path_order;

/// Names of the chunk files
pub mod paths;

/// The model of a reference-counted store and its laws
pub mod refcount;

/// Basic data structs
pub mod structs;

/// Traits in backrub: hashing and encryption
pub mod traits;

/// Helper functions: integer logarithm and chunking
pub mod utils;

use vstd::prelude::*;
use vstd::std_specs::convert::IntoSpec;

verus! {

/// A path of the file system.
#[verifier::external_type_specification]
#[verifier::external_body]
pub struct ExPathBuf(std::path::PathBuf);

/// The errors of a walk that went on after each of them: the paths that
/// could not be read, each with what went wrong.
#[derive(Debug, Default)]
pub struct MultipleIoErrors(pub Vec<(std::path::PathBuf, std::io::Error)>);

impl MultipleIoErrors {
    /// The errors, in the order in which they were met.
    pub fn iter(&self) -> (r: std::slice::Iter<'_, (std::path::PathBuf, std::io::Error)>)
        ensures
            vstd::std_specs::slice::into_iter_elts(r) == self.0@,
    {
        let r = self.0.iter();
        assert(vstd::std_specs::slice::into_iter_elts(r) =~= self.0@);
        r
    }

    /// The number of errors.
    pub fn len(&self) -> (n: usize)
        ensures
            n == self.0@.len(),
    {
        self.0.len()
    }

    /// Whether the walk met no error.
    pub fn is_empty(&self) -> (r: bool)
        ensures
            r == (self.0@.len() == 0),
    {
        self.0.is_empty()
    }

    /// No errors yet.
    pub fn new() -> (r: Self)
        ensures
            r.0@.len() == 0,
    {
        MultipleIoErrors(Vec::new())
    }

    /// Records that `path` could not be read: one more pair at the end, of
    /// the path that `path` converts to, where its conversion is specified,
    /// and of the error.
    pub fn add<P: Into<std::path::PathBuf>>(&mut self, path: P, err: std::io::Error)
        ensures
            final(self).0@.len() == old(self).0@.len() + 1,
            final(self).0@.drop_last() == old(self).0@,
            final(self).0@.last().1 == err,
            P::obeys_into_spec() ==> final(self).0@.last().0 == path.into_spec(),
    {
        self.0.push((path.into(), err))
    }
}

/// The four words that 32 bytes hold, each word with its least significant
/// byte first.
pub open spec fn words_of(bytes: Seq<u8>) -> Seq<u64> {
    Seq::new(4, |i: int| vstd::bytes::spec_u64_from_le_bytes(bytes.subrange(8 * i, 8 * i + 8)))
}

/// The 32 bytes of four words, each word with its least significant byte
/// first.
pub open spec fn bytes_of(words: Seq<u64>) -> Seq<u8> {
    vstd::bytes::spec_u64_to_le_bytes(words[0]) + vstd::bytes::spec_u64_to_le_bytes(words[1])
        + vstd::bytes::spec_u64_to_le_bytes(words[2]) + vstd::bytes::spec_u64_to_le_bytes(words[3])
}

/// Bytes that were read as words are written back as they were, and words
/// that were written as bytes are read back as they were.
pub proof fn lemma_words_and_bytes(bytes: Seq<u8>, words: Seq<u64>)
    requires
        bytes.len() == 32,
        words.len() == 4,
    ensures
        bytes_of(words_of(bytes)) == bytes,
        words_of(bytes_of(words)) == words,
{
    vstd::bytes::lemma_auto_spec_u64_to_from_le_bytes();
    assert(bytes_of(words_of(bytes)) =~= bytes.subrange(0, 8) + bytes.subrange(8, 16)
        + bytes.subrange(16, 24) + bytes.subrange(24, 32));
    assert(bytes.subrange(0, 8) + bytes.subrange(8, 16) + bytes.subrange(16, 24) + bytes.subrange(
        24,
        32,
    ) =~= bytes);
    let b = bytes_of(words);
    assert(b.subrange(0, 8) =~= vstd::bytes::spec_u64_to_le_bytes(words[0]));
    assert(b.subrange(8, 16) =~= vstd::bytes::spec_u64_to_le_bytes(words[1]));
    assert(b.subrange(16, 24) =~= vstd::bytes::spec_u64_to_le_bytes(words[2]));
    assert(b.subrange(24, 32) =~= vstd::bytes::spec_u64_to_le_bytes(words[3]));
    assert(words_of(b) =~= words);
}

/// Reads 32 bytes as four words.
pub fn convert_32u8_to_4u64(input: &[u8; 32]) -> (r: [u64; 4])
    ensures
        r@ == words_of(input@),
{
    let bytes = input.as_slice();
    let r = [
        vstd::bytes::u64_from_le_bytes(vstd::slice::slice_subrange(bytes, 0, 8)),
        vstd::bytes::u64_from_le_bytes(vstd::slice::slice_subrange(bytes, 8, 16)),
        vstd::bytes::u64_from_le_bytes(vstd::slice::slice_subrange(bytes, 16, 24)),
        vstd::bytes::u64_from_le_bytes(vstd::slice::slice_subrange(bytes, 24, 32)),
    ];
    assert(r@ =~= words_of(input@));
    r
}

/// Writes four words as 32 bytes.
pub fn convert_4u64_to_32u8(input: &[u64; 4]) -> (r: [u8; 32])
    ensures
        r@ == bytes_of(input@),
{
    let mut r = [0u8; 32];
    let mut w: usize = 0;
    while w < 4
        invariant
            w <= 4,
            forall|k: int|
                0 <= k < w ==> r@.subrange(8 * k, 8 * k + 8) == vstd::bytes::spec_u64_to_le_bytes(
                    #[trigger] input@[k],
                ),
        decreases 4 - w,
    {
        let word = vstd::bytes::u64_to_le_bytes(input[w]);
        let ghost before = r@;
        let mut i: usize = 0;
        while i < 8
            invariant
                i <= 8,
                w < 4,
                word@.len() == 8,
                forall|j: int| 0 <= j < 8 * w ==> r@[j] == before[j],
                forall|j: int| 0 <= j < i ==> r@[8 * w + j] == word@[j],
            decreases 8 - i,
        {
            r[8 * w + i] = word[i];
            i += 1;
        }
        proof {
            assert(r@.subrange(8 * w as int, 8 * w + 8) =~= word@);
            assert forall|k: int| 0 <= k < w implies r@.subrange(8 * k, 8 * k + 8)
                == vstd::bytes::spec_u64_to_le_bytes(#[trigger] input@[k]) by {
                assert(r@.subrange(8 * k, 8 * k + 8) =~= before.subrange(8 * k, 8 * k + 8));
            }
        }
        w += 1;
    }
    proof {
        vstd::bytes::lemma_auto_spec_u64_to_from_le_bytes();
        assert(r@ =~= r@.subrange(0, 8) + r@.subrange(8, 16) + r@.subrange(16, 24) + r@.subrange(
            24,
            32,
        ));
        assert(input@[0] == input@[0] && input@[1] == input@[1] && input@[2] == input@[2]
            && input@[3] == input@[3]);
    }
    r
}

} // verus!
