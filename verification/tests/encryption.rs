#![allow(non_snake_case)]

use backrub::error::{CorruptionKind, RepoError};
use backrub::structs::{Chunk, Key256, Nonce192};
use backrub::traits::{
    decrypt_and_uncompress_bytes, decrypt_bytes, encrypt_bytes, encrypt_with_nonce, Encrypt,
};
use chacha20poly1305::{
    aead::{Aead, KeyInit, OsRng},
    XChaCha20Poly1305,
};
use std::time::Instant;

fn random_key() -> Key256 {
    let key = XChaCha20Poly1305::generate_key(&mut OsRng);
    Key256::from(<[u8; 32]>::from(key))
}

fn sample_data() -> Vec<u8> {
    let mut data = Vec::<u8>::new();
    for _n in 0..1024 * 1024 {
        for i in 0..5 {
            data.push(i);
        }
    }
    data
}

#[test]
fn test_compressed_encryption_success() {
    let testdata = Chunk { data: sample_data() };
    let key = random_key();

    let now = Instant::now();

    let enc = testdata.compress_and_encrypt(&key).unwrap();
    let dec = Chunk::decrypt_and_uncompress(&enc, &key).unwrap();

    let elapsed = now.elapsed();

    println!("0: size data uncompressed: {}", testdata.data.len());
    println!("0: size data compressed and encrypted: {}", enc.len());
    println!("0: runtime in nanoseconds: {}", elapsed.as_nanos());
    assert_eq!(testdata, dec);
}

#[test]
fn test_compressed_encryption_fail_tempering() {
    let testdata = Chunk { data: sample_data() };

    let key = random_key();
    let mut enc = testdata.compress_and_encrypt(&key).unwrap();
    let last = enc.pop().unwrap();
    enc.push(!last);

    let dec = Chunk::decrypt_and_uncompress(&enc, &key);
    assert!(dec.is_err());
}

#[test]
fn test_compressed_encryption_fail_key() {
    let testdata = Chunk { data: sample_data() };

    let mut key = random_key();
    let enc = testdata.compress_and_encrypt(&key).unwrap();
    key.0[0] = !key.0[0];

    let dec = Chunk::decrypt_and_uncompress(&enc, &key);
    assert!(dec.is_err());
}

#[test]
fn test_encryption_success() {
    let testdata = Chunk { data: sample_data() };
    let key = random_key();

    let now = Instant::now();

    let enc = testdata.encrypt(&key).unwrap();
    let dec = Chunk::decrypt(&enc, &key).unwrap();

    let elapsed = now.elapsed();

    println!("1: size data uncompressed: {}", testdata.data.len());
    println!("1: size data encrypted: {}", enc.len());
    println!("1: runtime in nanoseconds: {}", elapsed.as_nanos());
    assert_eq!(testdata, dec);
}

#[test]
fn test_encryption_fail_tempering() {
    let testdata = Chunk { data: sample_data() };
    let key = random_key();
    let mut enc = testdata.encrypt(&key).unwrap();
    let last = enc.pop().unwrap();
    enc.push(!last);

    let dec = Chunk::decrypt(&enc, &key);
    assert!(dec.is_err());
}

#[test]
fn test_encryption_fail_key() {
    let testdata = Chunk { data: sample_data() };
    let mut key = random_key();
    let enc = testdata.encrypt(&key).unwrap();
    key.0[0] = !key.0[0];

    let dec = Chunk::decrypt(&enc, &key);
    assert!(dec.is_err());
}

#[test]
fn envelope_is_nonce_then_length_then_sealed_bytes() {
    let key = Key256::from([7u8; 32]);
    let nonce = Nonce192::from([9u8; 24]);
    let data = b"some plaintext".to_vec();
    let envelope = encrypt_with_nonce(&data, &key, &nonce).unwrap();

    // what the cipher itself makes of the plaintext
    let cipher = XChaCha20Poly1305::new((&key.0).into());
    let sealed = cipher.encrypt((&nonce.0).into(), &data[..]).unwrap();
    assert_eq!(sealed.len(), data.len() + 16);
    assert_ne!(&sealed[..data.len()], &data[..]);

    let mut expected = vec![9u8; 24];
    expected.extend_from_slice(&(sealed.len() as u64).to_le_bytes());
    expected.extend_from_slice(&sealed);
    assert_eq!(envelope, expected);
    assert_eq!(envelope.len(), 24 + 8 + data.len() + 16);

    // the same bytes that the serializer of the records gives for the pair
    let framed = bincode::serialize(&([9u8; 24], sealed)).unwrap();
    assert_eq!(envelope, framed);
}

#[test]
fn envelope_with_a_given_nonce_is_deterministic() {
    let key = Key256::from([1u8; 32]);
    let nonce = Nonce192::from([2u8; 24]);
    let a = encrypt_with_nonce(b"abc", &key, &nonce).unwrap();
    let b = encrypt_with_nonce(b"abc", &key, &nonce).unwrap();
    assert_eq!(a, b);
    let other = encrypt_with_nonce(b"abc", &key, &Nonce192::from([3u8; 24])).unwrap();
    assert_ne!(a, other);
}

#[test]
fn fresh_nonces_differ() {
    let key = random_key();
    let a = encrypt_bytes(b"abc", &key).unwrap();
    let b = encrypt_bytes(b"abc", &key).unwrap();
    assert_ne!(a[..24], b[..24]);
    assert_ne!(a, b);
    assert_eq!(decrypt_bytes(&a, &key).unwrap(), b"abc".to_vec());
    assert_eq!(decrypt_bytes(&b, &key).unwrap(), b"abc".to_vec());
}

#[test]
fn round_trip_of_byte_strings() {
    let key = random_key();
    for data in [Vec::new(), vec![0u8], b"hello".to_vec(), vec![0xabu8; 100_000]] {
        let enc = data.encrypt(&key).unwrap();
        assert_eq!(enc.len(), data.len() + 48);
        assert_eq!(Vec::<u8>::decrypt(&enc, &key).unwrap(), data);
        let packed = data.compress_and_encrypt(&key).unwrap();
        assert_eq!(Vec::<u8>::decrypt_and_uncompress(&packed, &key).unwrap(), data);
    }
}

#[test]
fn compression_shrinks_repetitive_data() {
    let key = random_key();
    let data = vec![0x41u8; 100_000];
    let packed = data.compress_and_encrypt(&key).unwrap();
    assert!(packed.len() < 2_000);
    // what the envelope holds is the compressed stream, not the data
    let inner = decrypt_bytes(&packed, &key).unwrap();
    assert_ne!(inner, data);
    assert_eq!(inner.len() + 48, packed.len());
    assert_eq!(decrypt_and_uncompress_bytes(&packed, &key).unwrap(), data);
}

#[test]
fn any_flipped_bit_is_rejected() {
    let key = random_key();
    let enc = encrypt_bytes(b"attack at dawn", &key).unwrap();
    for i in 0..enc.len() {
        for bit in 0..8 {
            let mut bad = enc.clone();
            bad[i] ^= 1 << bit;
            assert!(matches!(decrypt_bytes(&bad, &key), Err(RepoError::InvalidCiphertext)));
        }
    }
}

#[test]
fn malformed_envelopes_are_rejected() {
    let key = random_key();
    assert!(matches!(decrypt_bytes(&[], &key), Err(RepoError::InvalidCiphertext)));
    assert!(matches!(decrypt_bytes(&[0u8; 31], &key), Err(RepoError::InvalidCiphertext)));
    // a header that announces no sealed bytes at all: the tag is missing
    assert!(matches!(decrypt_bytes(&[0u8; 32], &key), Err(RepoError::InvalidCiphertext)));
    let enc = encrypt_bytes(b"x", &key).unwrap();
    let mut longer = enc.clone();
    longer.push(0);
    assert!(matches!(decrypt_bytes(&longer, &key), Err(RepoError::InvalidCiphertext)));
    let shorter = &enc[..enc.len() - 1];
    assert!(matches!(decrypt_bytes(shorter, &key), Err(RepoError::InvalidCiphertext)));
}

#[test]
fn wrong_key_is_rejected() {
    let key = Key256::from([1u8; 32]);
    let other = Key256::from([2u8; 32]);
    let enc = encrypt_bytes(b"secret", &key).unwrap();
    assert!(matches!(decrypt_bytes(&enc, &other), Err(RepoError::InvalidCiphertext)));
    assert!(matches!(Chunk::decrypt(&enc, &other), Err(RepoError::InvalidCiphertext)));
}

#[test]
fn envelope_that_holds_no_record_is_reported_as_such() {
    let key = random_key();
    // the bytes "abc" are no chunk: a chunk is a byte string behind its length
    let enc = encrypt_bytes(b"abc", &key).unwrap();
    assert!(matches!(
        Chunk::decrypt(&enc, &key),
        Err(RepoError::Corruption(CorruptionKind::Record, None))
    ));
}

#[test]
fn envelope_that_holds_no_compressed_stream_gives_the_error_of_the_compressor() {
    let key = random_key();
    let enc = encrypt_bytes(&[0xffu8; 64], &key).unwrap();
    assert!(matches!(decrypt_and_uncompress_bytes(&enc, &key), Err(RepoError::IoError(_))));
}
