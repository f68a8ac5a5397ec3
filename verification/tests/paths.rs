#![allow(non_snake_case)]

use backrub::db::ChunkDbState;
use backrub::paths::path_name;
use backrub::structs::FilePathGen;
use backrub::utils::log2u64;

#[test]
fn test_FilePathGen() {
    let mut s = std::collections::HashSet::<String>::new();
    let mut fg = FilePathGen::default();
    for _ in 0..256 {
        for _i in 0..1024 {
            let next = fg.next().unwrap();
            s.insert(next);
        }
    }
    assert_eq!(s.len(), 256 * 1024);
    assert_eq!(fg, FilePathGen { 0: 256 * 1024 });

    let mut fg = FilePathGen::from(!0u64 - 1);
    assert_eq!(fg.next(), Some(String::from("ff/ff/ff/ff/ff/ff/ff/ff.bin")));
    assert_eq!(fg.next(), None);
}

#[test]
fn test_log2u64() {
    assert_eq!(log2u64(0u64), None);
    assert_eq!(log2u64(!0u64), Some(63u64));
    assert_eq!(log2u64(1u64), Some(0u64));
    assert_eq!(log2u64(2u64), Some(1u64));
    assert_eq!(log2u64(64u64), Some(6u64));
    assert_eq!(log2u64(63u64), Some(5u64));
}

#[test]
fn log2_at_the_byte_boundaries() {
    assert_eq!(log2u64(255), Some(7));
    assert_eq!(log2u64(256), Some(8));
    assert_eq!(log2u64(1u64 << 63), Some(63));
    assert_eq!(log2u64((1u64 << 63) - 1), Some(62));
}

#[test]
fn paths_write_the_bytes_from_the_most_significant_one() {
    assert_eq!(path_name(1), "1.bin");
    assert_eq!(path_name(0x0f), "f.bin");
    assert_eq!(path_name(0x10), "10.bin");
    assert_eq!(path_name(0xff), "ff.bin");
    assert_eq!(path_name(0x100), "1/0.bin");
    assert_eq!(path_name(0x010203), "1/2/3.bin");
    assert_eq!(path_name(0xab00cd), "ab/0/cd.bin");
    assert_eq!(path_name(0x0100_0000_0000_0000), "1/0/0/0/0/0/0/0.bin");
    assert_eq!(path_name(u64::MAX), "ff/ff/ff/ff/ff/ff/ff/ff.bin");
}

#[test]
fn first_paths_of_a_fresh_generator() {
    let mut state = ChunkDbState::new();
    assert_eq!(state.peek(), Some(String::from("1.bin")));
    assert_eq!(state.next(), Some(String::from("1.bin")));
    assert_eq!(state.next(), Some(String::from("2.bin")));
    assert_eq!(state.next(), Some(String::from("3.bin")));
    assert_eq!(state.path_gen, FilePathGen(3));
}

#[test]
fn fresh_generator_never_repeats_a_path() {
    let mut state = ChunkDbState::new();
    let mut seen = std::collections::HashSet::<String>::new();
    for _ in 0..70_000 {
        assert!(seen.insert(state.next().unwrap()));
    }
    assert_eq!(seen.len(), 70_000);
}

#[test]
fn released_path_is_handed_out_next() {
    let mut state = ChunkDbState::new();
    let first = state.next().unwrap();
    let second = state.next().unwrap();
    state.release(first.clone());
    assert_eq!(state.peek(), Some(first.clone()));
    assert_eq!(state.next(), Some(first));
    assert_eq!(state.next(), Some(String::from("3.bin")));
    state.release(String::from("x/y.bin"));
    state.release(second.clone());
    assert_eq!(state.next(), Some(second));
    assert_eq!(state.next(), Some(String::from("x/y.bin")));
    assert_eq!(state.path_gen, FilePathGen(3));
}

#[test]
fn generator_is_exhausted_at_the_last_counter() {
    let mut state = ChunkDbState {
        unused_paths: Vec::new(),
        path_gen: FilePathGen::from(u64::MAX - 1),
    };
    assert_eq!(state.next(), Some(String::from("ff/ff/ff/ff/ff/ff/ff/ff.bin")));
    assert_eq!(state.peek(), None);
    assert_eq!(state.next(), None);
    assert_eq!(state.path_gen, FilePathGen(u64::MAX));
    state.release(String::from("7.bin"));
    assert_eq!(state.next(), Some(String::from("7.bin")));
    assert_eq!(state.next(), None);
}
