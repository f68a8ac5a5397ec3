use backrub::structs::{Chunk, Hash256, Key256};
use backrub::traits::{hash, keyed_hash, Hashable};

fn hex(bytes: &[u8]) -> String {
    let mut out = String::new();
    for b in bytes {
        out += &format!("{:02x}", b);
    }
    out
}

#[test]
fn hash_of_nothing_is_the_known_value() {
    assert_eq!(
        hex(&hash(b"").0),
        "af1349b9f5f9a1a6a0404dea36dcc9499bcb25c9adc112b7cc9a93cae41f3262"
    );
}

#[test]
fn hashes_are_those_of_blake3() {
    let key = Key256::from([0x42u8; 32]);
    for data in [Vec::new(), b"foo".to_vec(), vec![7u8; 300_000]] {
        assert_eq!(hash(&data), Hash256::from(*blake3::hash(&data).as_bytes()));
        assert_eq!(
            keyed_hash(&data, &key),
            Hash256::from(*blake3::keyed_hash(&key.0, &data).as_bytes())
        );
        assert_ne!(hash(&data).0.to_vec(), data);
        assert_ne!(keyed_hash(&data, &key), hash(&data));
    }
}

#[test]
fn keyed_hash_depends_on_the_key() {
    let a = keyed_hash(b"value", &Key256::from([1u8; 32]));
    let b = keyed_hash(b"value", &Key256::from([2u8; 32]));
    assert_ne!(a, b);
    assert_eq!(a, keyed_hash(b"value", &Key256::from([1u8; 32])));
}

#[test]
fn byte_strings_hash_as_they_are_and_records_by_their_serialization() {
    let key = Key256::from([5u8; 32]);
    let bytes = b"chunk content".to_vec();
    assert_eq!(bytes.hash().unwrap(), hash(&bytes));
    assert_eq!(bytes.keyed_hash(&key).unwrap(), keyed_hash(&bytes, &key));

    let chunk = Chunk { data: bytes.clone() };
    let mut serialized = (bytes.len() as u64).to_le_bytes().to_vec();
    serialized.extend_from_slice(&bytes);
    assert_eq!(chunk.hash().unwrap(), hash(&serialized));
    assert_eq!(chunk.keyed_hash(&key).unwrap(), keyed_hash(&serialized, &key));
    assert_ne!(chunk.hash().unwrap(), bytes.hash().unwrap());
}
