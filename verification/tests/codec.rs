use datalake::base64::{decode, encode, encode_block};
use datalake::compression::{compress, decompress, CompressorCollection};
use datalake::hasher::{checksum, checksum_u32, hash, verify_hash_integrity, xor};
use datalake::sieve::get_le_prime;

fn sample_bytes(len: usize, seed: u64) -> Vec<u8> {
    // a small linear congruential generator, so the data hardly compresses
    let mut state = seed.wrapping_mul(6364136223846793005).wrapping_add(1442695040888963407);
    let mut v = Vec::with_capacity(len);
    for _ in 0..len {
        state = state.wrapping_mul(6364136223846793005).wrapping_add(1442695040888963407);
        v.push((state >> 33) as u8);
    }
    v
}

#[test]
fn encode_decode_roundtrip() {
    for len in 0..80usize {
        let data = sample_bytes(len, len as u64 + 1);
        let encoded = encode(&data);
        assert_eq!(encoded.len(), (4 * len + 2) / 3);
        let decoded = decode(&encoded);
        assert_eq!(decoded, data);
    }
}

#[test]
fn encode_empty_is_empty() {
    let encoded = encode(&[]);
    assert!(encoded.is_empty());
    assert!(decode(&[]).is_empty());
}

#[test]
fn encode_known_block() {
    // "Man" encodes to the standard "TWFu" in this alphabet too
    let encoded = encode(b"Man");
    assert_eq!(encoded, b"TWFu".to_vec());
    let block = encode_block([b'M', b'a', b'n']);
    assert_eq!(&block, b"TWFu");
}

#[test]
fn decode_accepts_aliases() {
    // 62 is '~' with '+' and '-' as aliases; 63 is '_' with ',' and '/'
    let a = decode(b"~_A");
    let b = decode(b"+/A");
    let c = decode(b"-,A");
    assert_eq!(a, b);
    assert_eq!(a, c);
}

#[test]
fn hash_is_stable_fifty_symbols() {
    let h1 = hash(&[]);
    let h2 = hash(&[]);
    assert_eq!(h1.len(), 50);
    assert_eq!(h1, h2);
    let h3 = hash(b"hello");
    assert_eq!(h3.len(), 50);
    assert_ne!(h1, h3);
}

#[test]
fn verify_accepts_fresh_identifiers() {
    for len in [0usize, 1, 5, 33, 100, 255] {
        let data = sample_bytes(len, 7 * len as u64 + 3);
        let id = hash(&data);
        assert!(verify_hash_integrity(&id));
    }
}

#[test]
fn verify_rejects_corrupted_checksum() {
    // the checksum field occupies envelope bytes 32..36, carried by
    // identifier symbols 42..48; flip one bit there
    let id = hash(b"hello");
    for bit in 0..4 {
        let mut bad = id.clone();
        bad[44] ^= 1 << bit;
        if bad != id {
            assert!(!verify_hash_integrity(&bad), "bit {} went unnoticed", bit);
        }
    }
}

#[test]
fn checksum_seeds_with_length() {
    // with no data the checksum is the seed itself, little-endian
    assert_eq!(checksum(&[], 5), vec![5, 0, 0, 0]);
    assert_eq!(checksum_u32(&[], 0xDEAD), 0xDEAD);
    // one byte folds once: c + seed * 65599 (mod 2^32)
    let h = checksum_u32(&[7], 2);
    assert_eq!(h, 7u32.wrapping_add(2 * 65599));
}

#[test]
fn xor_folds_bytewise() {
    let a = vec![0xF0u8, 0x0F, 0xAA];
    let b = vec![0x0Fu8, 0x0F, 0x55];
    assert_eq!(xor(&a, &b), vec![0xFFu8, 0x00, 0xFF]);
}

#[test]
fn compress_decompress_roundtrip() {
    for len in [0usize, 1, 100, 4096] {
        let data = sample_bytes(len, len as u64 + 11);
        let packed = compress(&data).expect("compress");
        assert!(packed.len() <= 4111);
        let unpacked = decompress(&packed, len).expect("decompress");
        assert_eq!(unpacked, data);
    }
}

#[test]
fn compressor_pool_reuses_instances() {
    let mut pool = CompressorCollection::new();
    let data = b"repetitive repetitive repetitive".to_vec();
    let first = pool.compress(&data).expect("compress");
    let second = pool.compress(&data).expect("compress");
    assert_eq!(first, second);
    let unpacked = decompress(&first, data.len()).expect("decompress");
    assert_eq!(unpacked, data);
}

#[test]
fn greatest_prime_examples() {
    assert_eq!(get_le_prime(0), 2);
    assert_eq!(get_le_prime(1), 2);
    assert_eq!(get_le_prime(2), 2);
    assert_eq!(get_le_prime(3), 3);
    assert_eq!(get_le_prime(10), 7);
    assert_eq!(get_le_prime(1021), 1021);
    assert_eq!(get_le_prime(1024), 1021);
}
