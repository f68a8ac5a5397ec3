use backrub::structs::{ChunkerConf, Key256};
use backrub::traits::keyed_hash;
use backrub::utils::{chunk_and_hash, chunk_len};
use hash_roll::fastcdc::{FastCdc, FastCdcIncr};
use hash_roll::gear_table::GEAR_64;
use hash_roll::ChunkIncr;

fn pseudo_random(len: usize, seed: u64) -> Vec<u8> {
    let mut state = seed;
    let mut out = Vec::with_capacity(len);
    for _ in 0..len {
        state = state.wrapping_mul(6364136223846793005).wrapping_add(1442695040888963407);
        out.push((state >> 33) as u8);
    }
    out
}

fn small() -> ChunkerConf {
    ChunkerConf { minimum_chunk_size: 64, average_chunk_size: 256, maximum_chunk_size: 1024 }
}

fn keys() -> (Key256, Key256) {
    (Key256::from([1u8; 32]), Key256::from([2u8; 32]))
}

#[test]
fn chunks_cover_the_data_in_order() {
    let (ck, fk) = keys();
    for len in [0usize, 1, 63, 64, 65, 1000, 1024, 1025, 100_000] {
        let data = pseudo_random(len, 42);
        let (chunks, file_hash) = chunk_and_hash(&data, &small(), &ck, &fk).unwrap();
        let joined: Vec<u8> = chunks.iter().flat_map(|(c, _)| c.iter().copied()).collect();
        assert_eq!(joined, data);
        assert_eq!(file_hash, keyed_hash(&data, &fk));
        for (chunk, hash) in &chunks {
            assert!(!chunk.is_empty());
            assert_eq!(*hash, keyed_hash(chunk, &ck));
        }
        assert_eq!(chunks.is_empty(), len == 0);
    }
}

#[test]
fn chunk_sizes_are_within_the_bounds() {
    let (ck, fk) = keys();
    let data = pseudo_random(300_000, 7);
    let (chunks, _) = chunk_and_hash(&data, &small(), &ck, &fk).unwrap();
    assert!(chunks.len() > 100);
    let (last, rest) = chunks.split_last().unwrap();
    for (chunk, _) in rest {
        assert!(chunk.len() >= 64);
        assert!(chunk.len() <= 1024);
    }
    assert!(last.0.len() <= 1024);
}

#[test]
fn chunks_are_those_of_the_chunker() {
    let (ck, fk) = keys();
    let conf = small();
    let data = pseudo_random(200_000, 99);
    let (chunks, _) = chunk_and_hash(&data, &conf, &ck, &fk).unwrap();
    let cdc = FastCdc::new(
        &GEAR_64,
        conf.minimum_chunk_size,
        conf.average_chunk_size,
        conf.maximum_chunk_size,
    );
    let expected: Vec<Vec<u8>> =
        FastCdcIncr::from(&cdc).iter_slices(&data).map(|c| c.to_vec()).collect();
    let got: Vec<Vec<u8>> = chunks.into_iter().map(|(c, _)| c).collect();
    assert_eq!(got, expected);
    assert!(got.len() > 1);
}

#[test]
fn chunking_is_deterministic() {
    let (ck, fk) = keys();
    let data = pseudo_random(1024 * 1024, 2024);
    let conf = ChunkerConf { minimum_chunk_size: 2048, average_chunk_size: 8192, maximum_chunk_size: 65536 };
    let (first, h1) = chunk_and_hash(&data, &conf, &ck, &fk).unwrap();
    let (second, h2) = chunk_and_hash(&data, &conf, &ck, &fk).unwrap();
    let hashes1: Vec<_> = first.iter().map(|(_, h)| *h).collect();
    let hashes2: Vec<_> = second.iter().map(|(_, h)| *h).collect();
    assert_eq!(hashes1, hashes2);
    assert_eq!(h1, h2);
    assert!(hashes1.len() > 10);
}

#[test]
fn data_below_the_minimum_is_one_chunk() {
    let (ck, fk) = keys();
    let data = pseudo_random(64, 1);
    let (chunks, _) = chunk_and_hash(&data, &small(), &ck, &fk).unwrap();
    assert_eq!(chunks.len(), 1);
    assert_eq!(chunks[0].0, data);
}

#[test]
fn constant_data_is_cut_at_a_fixed_size() {
    let (ck, fk) = keys();
    let conf = ChunkerConf { minimum_chunk_size: 4, average_chunk_size: 16, maximum_chunk_size: 64 };
    let data = vec![0x41u8; 1024];
    let (chunks, _) = chunk_and_hash(&data, &conf, &ck, &fk).unwrap();
    let first = chunks[0].0.len();
    assert!((4..=64).contains(&first));
    for (chunk, hash) in &chunks[..chunks.len() - 1] {
        assert_eq!(chunk.len(), first);
        assert_eq!(*hash, chunks[0].1);
    }
}

#[test]
fn length_of_a_chunk_from_the_answer_of_the_chunker() {
    assert_eq!(chunk_len(100, Some(40)), 40);
    assert_eq!(chunk_len(100, Some(100)), 100);
    assert_eq!(chunk_len(100, None), 100);
    assert_eq!(chunk_len(100, Some(0)), 100);
    assert_eq!(chunk_len(100, Some(101)), 100);
    assert_eq!(chunk_len(0, None), 0);
    assert_eq!(chunk_len(0, Some(5)), 0);
}

#[test]
fn sizes_out_of_order_still_cover_the_data() {
    let (ck, fk) = keys();
    let data = pseudo_random(10_000, 5);
    for conf in [
        ChunkerConf { minimum_chunk_size: 0, average_chunk_size: 0, maximum_chunk_size: 0 },
        ChunkerConf { minimum_chunk_size: 0, average_chunk_size: 16, maximum_chunk_size: 64 },
        ChunkerConf { minimum_chunk_size: 100, average_chunk_size: 50, maximum_chunk_size: 10 },
    ] {
        assert!(!conf.check());
        let (chunks, _) = chunk_and_hash(&data, &conf, &ck, &fk).unwrap();
        let joined: Vec<u8> = chunks.iter().flat_map(|(c, _)| c.iter().copied()).collect();
        assert_eq!(joined, data);
    }
    assert!(small().check());
    assert!(ChunkerConf { minimum_chunk_size: 1, average_chunk_size: 1, maximum_chunk_size: 1 }.check());
}
