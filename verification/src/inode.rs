use crate::codec::{
    has_hash_list, has_sized, hash_list, hash_list_end, le32, le64_signed, lemma_hash_list_at,
    lemma_sized_at, lemma_u32_at, put_hash_list, put_i64, put_sized, put_u32, read_hash_list,
    read_sized, read_u32, read_u64, sized, sized_end, u32_at, Decode, Encode,
};
use crate::structs::{Hash256, HASH_SIZE};
use crate::traits::{Encrypt, Hashable};
use vstd::bytes::*;
use vstd::prelude::*;
use vstd::slice::*;

verus! {

/// What the file system records of an entry, as it was when the entry was
/// walked.
#[derive(Clone, Hash, Copy, Debug, PartialEq, Eq, Structural)]
pub struct Metadata {
    pub mode: u32,
    pub uid: u32,
    pub gid: u32,
    pub mtime: i64,
    pub mtime_ns: i64,
    pub ctime: i64,
    pub ctime_ns: i64,
}

impl Default for Metadata {
    fn default() -> (r: Self)
        ensures
            r == (Metadata {
                mode: 0,
                uid: 0,
                gid: 0,
                mtime: 0,
                mtime_ns: 0,
                ctime: 0,
                ctime_ns: 0,
            }),
    {
        Metadata { mode: 0, uid: 0, gid: 0, mtime: 0, mtime_ns: 0, ctime: 0, ctime_ns: 0 }
    }
}

/// The width of serialized metadata.
pub const METADATA_SIZE: usize = 44;

/// The serialization of metadata: its fields one after the other.
pub open spec fn metadata_bytes(m: Metadata) -> Seq<u8> {
    le32(m.mode) + le32(m.uid) + le32(m.gid) + le64_signed(m.mtime) + le64_signed(m.mtime_ns)
        + le64_signed(m.ctime) + le64_signed(m.ctime_ns)
}

/// Serialized metadata is 44 bytes long.
pub proof fn lemma_metadata_len(m: Metadata)
    ensures
        metadata_bytes(m).len() == METADATA_SIZE,
{
    lemma_auto_spec_u32_to_from_le_bytes();
    lemma_auto_spec_u64_to_from_le_bytes();
}

/// Appends metadata.
pub fn put_metadata(out: &mut Vec<u8>, m: &Metadata)
    ensures
        final(out)@ == old(out)@ + metadata_bytes(*m),
{
    put_u32(out, m.mode);
    put_u32(out, m.uid);
    put_u32(out, m.gid);
    put_i64(out, m.mtime);
    put_i64(out, m.mtime_ns);
    put_i64(out, m.ctime);
    put_i64(out, m.ctime_ns);
    assert(final(out)@ =~= old(out)@ + metadata_bytes(*m));
}

/// Reads the signed number at `pos`, if the bytes reach that far.
fn read_i64(bytes: &[u8], pos: usize) -> (r: Option<i64>)
    ensures
        r is Some <==> pos + 8 <= bytes@.len(),
        r matches Some(x) ==> le64_signed(x) == bytes@.subrange(pos as int, pos + 8),
{
    match read_u64(bytes, pos) {
        None => None,
        Some(x) => {
            let y = x as i64;
            assert(y as u64 == x) by (bit_vector)
                requires
                    y == x as i64,
            ;
            Some(y)
        },
    }
}

/// Reads the metadata that stands at `pos`, if the bytes reach that far.
pub fn read_metadata(bytes: &[u8], pos: usize) -> (r: Option<Metadata>)
    ensures
        r is Some <==> pos + METADATA_SIZE <= bytes@.len(),
        r matches Some(m) ==> metadata_bytes(m) == bytes@.subrange(
            pos as int,
            pos + METADATA_SIZE,
        ),
{
    let total = bytes.len();
    if total < METADATA_SIZE || pos > total - METADATA_SIZE {
        return None;
    }
    let mode = read_u32(bytes, pos);
    let uid = read_u32(bytes, pos + 4);
    let gid = read_u32(bytes, pos + 8);
    let mtime = read_i64(bytes, pos + 12);
    let mtime_ns = read_i64(bytes, pos + 20);
    let ctime = read_i64(bytes, pos + 28);
    let ctime_ns = read_i64(bytes, pos + 36);
    match (mode, uid, gid, mtime, mtime_ns, ctime, ctime_ns) {
        (Some(mode), Some(uid), Some(gid), Some(mtime), Some(mtime_ns), Some(ctime), Some(ctime_ns)) => {
            let m = Metadata { mode, uid, gid, mtime, mtime_ns, ctime, ctime_ns };
            proof {
                lemma_auto_spec_u32_to_from_le_bytes();
                lemma_auto_spec_u64_to_from_le_bytes();
                assert(metadata_bytes(m) =~= bytes@.subrange(pos as int, pos + METADATA_SIZE));
            }
            Some(m)
        },
        _ => None,
    }
}

/// A symbolic link: where it stands, where it points, and its metadata.
#[derive(Clone, Hash, Debug, PartialEq, Eq)]
pub struct Symlink {
    pub relpath: Vec<u8>,
    pub target: Vec<u8>,
    pub metadata: Metadata,
}

/// A directory: where it stands, its metadata, and the hashes of the inodes
/// of its entries, in the order in which the walk met them.
#[derive(Clone, Hash, Debug, PartialEq, Eq)]
pub struct Directory {
    pub relpath: Vec<u8>,
    pub metadata: Metadata,
    pub contents: Vec<Hash256>,
}

/// A file: where it stands, the hashes of its chunks in the order of the
/// file, its metadata, and the keyed hash of its whole content.
#[derive(Clone, Hash, Debug, PartialEq, Eq)]
pub struct File {
    pub relpath: Vec<u8>,
    pub chunk_ids: Vec<Hash256>,
    pub metadata: Metadata,
    pub file_hash: Hash256,
}

/// The record of one entry of the file system.
#[derive(Clone, Hash, Debug, PartialEq, Eq)]
pub enum Inode {
    File(File),
    Directory(Directory),
    Symlink(Symlink),
}

impl Encode for Symlink {
    open spec fn canon(&self) -> Seq<u8> {
        sized(self.relpath@) + sized(self.target@) + metadata_bytes(self.metadata)
    }

    fn to_bytes(&self) -> (bytes: Vec<u8>) {
        let mut out: Vec<u8> = Vec::new();
        put_sized(&mut out, self.relpath.as_slice());
        put_sized(&mut out, self.target.as_slice());
        put_metadata(&mut out, &self.metadata);
        assert(out@ =~= self.canon());
        out
    }
}

impl Decode for Symlink {
    open spec fn well_formed(bytes: Seq<u8>) -> bool {
        &&& has_sized(bytes, 0)
        &&& has_sized(bytes, sized_end(bytes, 0))
        &&& bytes.len() == sized_end(bytes, sized_end(bytes, 0)) + METADATA_SIZE
    }

    fn from_bytes(bytes: &[u8]) -> (r: Option<Self>) {
        let total = bytes.len();
        let (relpath, first_end) = match read_sized(bytes, 0) {
            Some(x) => x,
            None => {
                return None;
            },
        };
        let (target, second_end) = match read_sized(bytes, first_end) {
            Some(x) => x,
            None => {
                return None;
            },
        };
        let metadata = match read_metadata(bytes, second_end) {
            Some(m) => m,
            None => {
                return None;
            },
        };
        if total - second_end != METADATA_SIZE {
            return None;
        }
        let link = Symlink { relpath, target, metadata };
        assert(link.canon() =~= bytes@);
        Some(link)
    }

    proof fn lemma_canon_well_formed(&self) {
        let a = sized(self.relpath@);
        let b = sized(self.target@);
        let c = metadata_bytes(self.metadata);
        lemma_metadata_len(self.metadata);
        lemma_sized_at(Seq::empty(), self.relpath@, b + c);
        lemma_sized_at(a, self.target@, c);
        assert(self.canon() =~= Seq::empty() + a + (b + c));
        assert(self.canon() =~= a + b + c);
    }
}

impl Encode for Directory {
    open spec fn canon(&self) -> Seq<u8> {
        sized(self.relpath@) + metadata_bytes(self.metadata) + hash_list(self.contents@)
    }

    fn to_bytes(&self) -> (bytes: Vec<u8>) {
        let mut out: Vec<u8> = Vec::new();
        put_sized(&mut out, self.relpath.as_slice());
        put_metadata(&mut out, &self.metadata);
        put_hash_list(&mut out, &self.contents);
        assert(out@ =~= self.canon());
        out
    }
}

impl Decode for Directory {
    open spec fn well_formed(bytes: Seq<u8>) -> bool {
        &&& has_sized(bytes, 0)
        &&& has_hash_list(bytes, sized_end(bytes, 0) + METADATA_SIZE)
        &&& bytes.len() == hash_list_end(bytes, sized_end(bytes, 0) + METADATA_SIZE)
    }

    fn from_bytes(bytes: &[u8]) -> (r: Option<Self>) {
        let total = bytes.len();
        let (relpath, first_end) = match read_sized(bytes, 0) {
            Some(x) => x,
            None => {
                return None;
            },
        };
        let metadata = match read_metadata(bytes, first_end) {
            Some(m) => m,
            None => {
                return None;
            },
        };
        let (contents, third_end) = match read_hash_list(bytes, first_end + METADATA_SIZE) {
            Some(x) => x,
            None => {
                return None;
            },
        };
        if third_end != total {
            return None;
        }
        let dir = Directory { relpath, metadata, contents };
        assert(dir.canon() =~= bytes@);
        Some(dir)
    }

    proof fn lemma_canon_well_formed(&self) {
        let a = sized(self.relpath@);
        let b = metadata_bytes(self.metadata);
        let c = hash_list(self.contents@);
        lemma_metadata_len(self.metadata);
        lemma_sized_at(Seq::empty(), self.relpath@, b + c);
        assert(self.contents.len() == self.contents@.len());
        lemma_hash_list_at(a + b, self.contents@, Seq::empty());
        assert(self.canon() =~= Seq::empty() + a + (b + c));
        assert(self.canon() =~= (a + b) + c + Seq::empty());
    }
}

impl Encode for File {
    open spec fn canon(&self) -> Seq<u8> {
        sized(self.relpath@) + hash_list(self.chunk_ids@) + metadata_bytes(self.metadata)
            + self.file_hash@
    }

    fn to_bytes(&self) -> (bytes: Vec<u8>) {
        let mut out: Vec<u8> = Vec::new();
        put_sized(&mut out, self.relpath.as_slice());
        put_hash_list(&mut out, &self.chunk_ids);
        put_metadata(&mut out, &self.metadata);
        out.extend_from_slice(self.file_hash.0.as_slice());
        assert(out@ =~= self.canon());
        out
    }
}

impl Decode for File {
    open spec fn well_formed(bytes: Seq<u8>) -> bool {
        &&& has_sized(bytes, 0)
        &&& has_hash_list(bytes, sized_end(bytes, 0))
        &&& bytes.len() == hash_list_end(bytes, sized_end(bytes, 0)) + METADATA_SIZE + HASH_SIZE
    }

    fn from_bytes(bytes: &[u8]) -> (r: Option<Self>) {
        let total = bytes.len();
        let (relpath, first_end) = match read_sized(bytes, 0) {
            Some(x) => x,
            None => {
                return None;
            },
        };
        let (chunk_ids, second_end) = match read_hash_list(bytes, first_end) {
            Some(x) => x,
            None => {
                return None;
            },
        };
        let metadata = match read_metadata(bytes, second_end) {
            Some(m) => m,
            None => {
                return None;
            },
        };
        let third_end = second_end + METADATA_SIZE;
        if total - third_end != HASH_SIZE {
            return None;
        }
        let file_hash = match Hash256::from_slice(slice_subrange(bytes, third_end, total)) {
            Some(h) => h,
            None => {
                return None;
            },
        };
        let file = File { relpath, chunk_ids, metadata, file_hash };
        assert(file.canon() =~= bytes@);
        Some(file)
    }

    proof fn lemma_canon_well_formed(&self) {
        let a = sized(self.relpath@);
        let b = hash_list(self.chunk_ids@);
        let c = metadata_bytes(self.metadata);
        let d = self.file_hash@;
        lemma_metadata_len(self.metadata);
        lemma_sized_at(Seq::empty(), self.relpath@, b + c + d);
        assert(self.chunk_ids.len() == self.chunk_ids@.len());
        lemma_hash_list_at(a, self.chunk_ids@, c + d);
        assert(self.canon() =~= Seq::empty() + a + (b + c + d));
        assert(self.canon() =~= a + b + (c + d));
    }
}

/// The tag of a file in the serialization of an inode.
pub const TAG_FILE: u32 = 0;

/// The tag of a directory in the serialization of an inode.
pub const TAG_DIRECTORY: u32 = 1;

/// The tag of a symbolic link in the serialization of an inode.
pub const TAG_SYMLINK: u32 = 2;

/// The width of the tag.
pub const TAG_SIZE: usize = 4;

impl Encode for Inode {
    /// The tag of the variant, then the serialization of what it holds.
    open spec fn canon(&self) -> Seq<u8> {
        match self {
            Inode::File(file) => le32(TAG_FILE) + file.canon(),
            Inode::Directory(dir) => le32(TAG_DIRECTORY) + dir.canon(),
            Inode::Symlink(link) => le32(TAG_SYMLINK) + link.canon(),
        }
    }

    fn to_bytes(&self) -> (bytes: Vec<u8>) {
        let mut out: Vec<u8> = Vec::new();
        match self {
            Inode::File(file) => {
                put_u32(&mut out, TAG_FILE);
                let inner = file.to_bytes();
                out.extend_from_slice(inner.as_slice());
            },
            Inode::Directory(dir) => {
                put_u32(&mut out, TAG_DIRECTORY);
                let inner = dir.to_bytes();
                out.extend_from_slice(inner.as_slice());
            },
            Inode::Symlink(link) => {
                put_u32(&mut out, TAG_SYMLINK);
                let inner = link.to_bytes();
                out.extend_from_slice(inner.as_slice());
            },
        }
        assert(out@ =~= self.canon());
        out
    }
}

impl Decode for Inode {
    open spec fn well_formed(bytes: Seq<u8>) -> bool {
        &&& bytes.len() >= TAG_SIZE
        &&& if u32_at(bytes, 0) == TAG_FILE {
            File::well_formed(bytes.subrange(TAG_SIZE as int, bytes.len() as int))
        } else if u32_at(bytes, 0) == TAG_DIRECTORY {
            Directory::well_formed(bytes.subrange(TAG_SIZE as int, bytes.len() as int))
        } else if u32_at(bytes, 0) == TAG_SYMLINK {
            Symlink::well_formed(bytes.subrange(TAG_SIZE as int, bytes.len() as int))
        } else {
            false
        }
    }

    fn from_bytes(bytes: &[u8]) -> (r: Option<Self>) {
        let tag = match read_u32(bytes, 0) {
            Some(tag) => tag,
            None => {
                return None;
            },
        };
        let rest = slice_subrange(bytes, TAG_SIZE, bytes.len());
        if tag == TAG_FILE {
            match File::from_bytes(rest) {
                Some(file) => {
                    let inode = Inode::File(file);
                    assert(inode.canon() =~= bytes@);
                    Some(inode)
                },
                None => None,
            }
        } else if tag == TAG_DIRECTORY {
            match Directory::from_bytes(rest) {
                Some(dir) => {
                    let inode = Inode::Directory(dir);
                    assert(inode.canon() =~= bytes@);
                    Some(inode)
                },
                None => None,
            }
        } else if tag == TAG_SYMLINK {
            match Symlink::from_bytes(rest) {
                Some(link) => {
                    let inode = Inode::Symlink(link);
                    assert(inode.canon() =~= bytes@);
                    Some(inode)
                },
                None => None,
            }
        } else {
            None
        }
    }

    proof fn lemma_canon_well_formed(&self) {
        let all = self.canon();
        match self {
            Inode::File(file) => {
                lemma_u32_at(Seq::empty(), TAG_FILE, file.canon());
                assert(all =~= Seq::empty() + le32(TAG_FILE) + file.canon());
                assert(all.subrange(TAG_SIZE as int, all.len() as int) =~= file.canon());
                file.lemma_canon_well_formed();
            },
            Inode::Directory(dir) => {
                lemma_u32_at(Seq::empty(), TAG_DIRECTORY, dir.canon());
                assert(all =~= Seq::empty() + le32(TAG_DIRECTORY) + dir.canon());
                assert(all.subrange(TAG_SIZE as int, all.len() as int) =~= dir.canon());
                dir.lemma_canon_well_formed();
            },
            Inode::Symlink(link) => {
                lemma_u32_at(Seq::empty(), TAG_SYMLINK, link.canon());
                assert(all =~= Seq::empty() + le32(TAG_SYMLINK) + link.canon());
                assert(all.subrange(TAG_SIZE as int, all.len() as int) =~= link.canon());
                link.lemma_canon_well_formed();
            },
        }
    }
}

impl Hashable for Inode {

}

impl Encrypt for Inode {

}

} // verus!
