use backrub::codec::{Decode, Encode};
use backrub::db::{ChunkDbEntry, ChunkDbState, RcDbEntry};
use backrub::inode::{Directory, File, Inode, Metadata, Symlink};
use backrub::structs::{Backup, BackupConf, Chunk, ChunkerConf, FilePathGen, Hash256};

fn metadata() -> Metadata {
    Metadata {
        mode: 0o100644,
        uid: 1000,
        gid: 1001,
        mtime: 1_700_000_000,
        mtime_ns: 123_456_789,
        ctime: -1,
        ctime_ns: i64::MIN,
    }
}

fn metadata_tuple(m: &Metadata) -> (u32, u32, u32, i64, i64, i64, i64) {
    (m.mode, m.uid, m.gid, m.mtime, m.mtime_ns, m.ctime, m.ctime_ns)
}

#[test]
fn byte_strings_are_their_own_serialization() {
    let bytes = vec![1u8, 2, 3];
    assert_eq!(bytes.to_bytes(), bytes);
    assert_eq!(Vec::<u8>::from_bytes(&bytes), Some(bytes));
    assert_eq!(Vec::<u8>::from_bytes(&[]), Some(Vec::new()));
}

#[test]
fn chunk_is_its_bytes_behind_their_length() {
    let chunk = Chunk { data: b"hello".to_vec() };
    let bytes = chunk.to_bytes();
    assert_eq!(bytes, [&[5u8, 0, 0, 0, 0, 0, 0, 0][..], b"hello"].concat());
    assert_eq!(bytes, bincode::serialize(&b"hello".to_vec()).unwrap());
    assert_eq!(Chunk::from_bytes(&bytes), Some(chunk));
    assert_eq!(Chunk::from_bytes(&bytes[..bytes.len() - 1]), None);
    assert_eq!(Chunk::from_bytes(&[bytes.clone(), vec![0]].concat()), None);
    assert_eq!(Chunk::from_bytes(&[0u8; 7]), None);
    assert_eq!(Chunk::from_bytes(&[0u8; 8]), Some(Chunk { data: Vec::new() }));
}

#[test]
fn chunk_record_is_count_then_name() {
    let entry = ChunkDbEntry { ref_count: 3, file_name: String::from("a/b.bin") };
    let bytes = entry.to_bytes();
    let mut expected = 3u64.to_le_bytes().to_vec();
    expected.extend_from_slice(&7u64.to_le_bytes());
    expected.extend_from_slice(b"a/b.bin");
    assert_eq!(bytes, expected);
    assert_eq!(bytes, bincode::serialize(&(3usize, String::from("a/b.bin"))).unwrap());
    assert_eq!(ChunkDbEntry::from_bytes(&bytes), Some(entry));
    assert_eq!(ChunkDbEntry::from_bytes(&bytes[..15]), None);
    assert_eq!(ChunkDbEntry::from_bytes(&bytes[..bytes.len() - 1]), None);
    assert_eq!(ChunkDbEntry::from_bytes(&[bytes.clone(), vec![b'x']].concat()), None);
    // a name that is no text
    let mut bad = bytes.clone();
    let last = bad.len() - 1;
    bad[last] = 0xff;
    assert_eq!(ChunkDbEntry::from_bytes(&bad), None);
    // a name of more than one byte to the character
    let wide = ChunkDbEntry { ref_count: 1, file_name: String::from("gr\u{fc}n/\u{6f22}.bin") };
    let bytes = wide.to_bytes();
    assert_eq!(bytes, bincode::serialize(&(1usize, wide.file_name.clone())).unwrap());
    assert_eq!(ChunkDbEntry::from_bytes(&bytes), Some(wide));
}

#[test]
fn record_of_a_store_is_value_then_count() {
    let entry = RcDbEntry { data: Chunk { data: b"xy".to_vec() }, ref_count: 258 };
    let bytes = entry.to_bytes();
    assert_eq!(bytes, bincode::serialize(&(b"xy".to_vec(), 258usize)).unwrap());
    assert_eq!(RcDbEntry::<Chunk>::from_bytes(&bytes), Some(entry));
    assert_eq!(RcDbEntry::<Chunk>::from_bytes(&bytes[..7]), None);
    assert_eq!(RcDbEntry::<Chunk>::from_bytes(&bytes[1..]), None);
}

#[test]
fn symlink_serialization() {
    let link = Symlink { relpath: b"a/link".to_vec(), target: b"../t".to_vec(), metadata: metadata() };
    let bytes = link.to_bytes();
    let expected = bincode::serialize(&(
        String::from("a/link"),
        String::from("../t"),
        metadata_tuple(&link.metadata),
    ))
    .unwrap();
    assert_eq!(bytes, expected);
    assert_eq!(bytes.len(), 8 + 6 + 8 + 4 + 44);
    assert_eq!(Symlink::from_bytes(&bytes), Some(link.clone()));
    let inode = Inode::Symlink(link);
    let tagged = inode.to_bytes();
    assert_eq!(tagged, [&2u32.to_le_bytes()[..], &bytes[..]].concat());
    assert_eq!(Inode::from_bytes(&tagged), Some(inode));
}

#[test]
fn directory_serialization() {
    let dir = Directory {
        relpath: b"some/dir".to_vec(),
        metadata: metadata(),
        contents: vec![Hash256::from([1u8; 32]), Hash256::from([2u8; 32]), Hash256::from([3u8; 32])],
    };
    let bytes = dir.to_bytes();
    let expected = bincode::serialize(&(
        String::from("some/dir"),
        metadata_tuple(&dir.metadata),
        vec![[1u8; 32], [2u8; 32], [3u8; 32]],
    ))
    .unwrap();
    assert_eq!(bytes, expected);
    assert_eq!(Directory::from_bytes(&bytes), Some(dir.clone()));
    let inode = Inode::Directory(dir);
    let tagged = inode.to_bytes();
    assert_eq!(tagged, [&1u32.to_le_bytes()[..], &bytes[..]].concat());
    assert_eq!(Inode::from_bytes(&tagged), Some(inode));
    // an empty directory
    let empty = Directory { relpath: Vec::new(), metadata: Metadata::default(), contents: Vec::new() };
    let bytes = empty.to_bytes();
    assert_eq!(bytes.len(), 8 + 44 + 8);
    assert_eq!(Directory::from_bytes(&bytes), Some(empty));
}

#[test]
fn file_serialization() {
    let file = File {
        relpath: b"f".to_vec(),
        chunk_ids: vec![Hash256::from([7u8; 32]), Hash256::from([8u8; 32])],
        metadata: metadata(),
        file_hash: Hash256::from([9u8; 32]),
    };
    let bytes = file.to_bytes();
    let expected = bincode::serialize(&(
        String::from("f"),
        vec![[7u8; 32], [8u8; 32]],
        metadata_tuple(&file.metadata),
        [9u8; 32],
    ))
    .unwrap();
    assert_eq!(bytes, expected);
    assert_eq!(File::from_bytes(&bytes), Some(file.clone()));
    let inode = Inode::File(file);
    let tagged = inode.to_bytes();
    assert_eq!(tagged, [&0u32.to_le_bytes()[..], &bytes[..]].concat());
    assert_eq!(Inode::from_bytes(&tagged), Some(inode));
}

#[test]
fn malformed_inodes_are_refused() {
    let file = Inode::File(File {
        relpath: b"f".to_vec(),
        chunk_ids: vec![Hash256::from([7u8; 32])],
        metadata: metadata(),
        file_hash: Hash256::from([9u8; 32]),
    });
    let bytes = file.to_bytes();
    assert_eq!(Inode::from_bytes(&[]), None);
    assert_eq!(Inode::from_bytes(&bytes[..3]), None);
    for cut in 0..bytes.len() {
        assert_eq!(Inode::from_bytes(&bytes[..cut]), None);
    }
    assert_eq!(Inode::from_bytes(&[bytes.clone(), vec![0]].concat()), None);
    let mut unknown = bytes.clone();
    unknown[0] = 3;
    assert_eq!(Inode::from_bytes(&unknown), None);
    // the same bytes under the tag of a directory do not add up
    let mut other = bytes.clone();
    other[0] = 1;
    assert_eq!(Inode::from_bytes(&other), None);
    // a number of chunks that the bytes cannot hold
    let mut many = bytes.clone();
    many[4 + 8 + 1 + 7] = 0xff;
    assert_eq!(Inode::from_bytes(&many), None);
    assert_eq!(Inode::from_bytes(&[0xffu8; 64]), None);
}

#[test]
fn backup_record_serialization() {
    let backup = Backup {
        timestamp: String::from("2024-01-02T03:04:05.000000Z"),
        name: String::from("w\u{f6}chentlich"),
        root: Hash256::from([5u8; 32]),
    };
    let bytes = backup.to_bytes();
    let expected =
        bincode::serialize(&(backup.timestamp.clone(), backup.name.clone(), [5u8; 32])).unwrap();
    assert_eq!(bytes, expected);
    assert_eq!(Backup::from_bytes(&bytes), Some(backup));
    assert_eq!(Backup::from_bytes(&bytes[..bytes.len() - 1]), None);
    let mut bad = bytes.clone();
    bad[8] = 0xff;
    assert_eq!(Backup::from_bytes(&bad), None);
}

#[test]
fn state_of_the_path_generator_serialization() {
    let state = ChunkDbState {
        unused_paths: vec![String::from("1.bin"), String::from("a/b.bin")],
        path_gen: FilePathGen(0x0102),
    };
    let bytes = state.to_bytes();
    let expected =
        bincode::serialize(&(vec![String::from("1.bin"), String::from("a/b.bin")], 0x0102u64))
            .unwrap();
    assert_eq!(bytes, expected);
    let copy = state.clone();
    assert_eq!(copy, state);
    assert_eq!(ChunkDbState::new().to_bytes(), vec![0u8; 16]);
}

#[test]
fn defaults_of_the_plain_records() {
    assert_eq!(
        Metadata::default(),
        Metadata { mode: 0, uid: 0, gid: 0, mtime: 0, mtime_ns: 0, ctime: 0, ctime_ns: 0 }
    );
    assert_eq!(BackupConf::default(), BackupConf { follow_symlinks: false });
    assert_eq!(
        ChunkerConf::default(),
        ChunkerConf { minimum_chunk_size: 0, average_chunk_size: 0, maximum_chunk_size: 0 }
    );
    assert_eq!(FilePathGen::default(), FilePathGen::from(0));
    assert_eq!(FilePathGen::from(41), FilePathGen(41));
}
