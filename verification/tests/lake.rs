use datalake::errors::UssError;
use datalake::hasher::verify_hash_integrity;
use datalake::hasher::{checksum_u32, hash};
use datalake::mapping::MemoryMapping;
use datalake::store::DataLake;

fn fresh_lake(size: usize) -> DataLake {
    let mapping = MemoryMapping::from_vec(vec![0u8; size]);
    DataLake::create(mapping, size as u64).expect("create")
}

fn sample_bytes(len: usize, seed: u64) -> Vec<u8> {
    let mut state = seed.wrapping_mul(6364136223846793005).wrapping_add(1442695040888963407);
    let mut v = Vec::with_capacity(len);
    for _ in 0..len {
        state = state.wrapping_mul(6364136223846793005).wrapping_add(1442695040888963407);
        v.push((state >> 33) as u8);
    }
    v
}

#[test]
fn create_derives_header_fields() {
    let lake = fresh_lake(1 << 20);
    assert_eq!(lake.file_size(), 1 << 20);
    assert_eq!(lake.index_mod(), 1021);
    assert_eq!(lake.data_offset(), 2 + ((1021 - 1) >> 6));
    assert_eq!(lake.data_offset(), 17);
    assert_eq!(lake.index_max(), 17 << 6);
    assert_eq!(lake.data_size(), (1 << 12) - 17);
    assert_eq!(lake.data_next(), lake.data_offset());
    assert!(!lake.is_readonly());
}

#[test]
fn create_rejects_too_small_files() {
    let mapping = MemoryMapping::from_vec(vec![0u8; 512]);
    assert!(DataLake::create(mapping, 512).is_err());
    // the smallest workable file: header slot, one index slot, one arena slot
    let mapping = MemoryMapping::from_vec(vec![0u8; 768]);
    assert!(DataLake::create(mapping, 768).is_ok());
}

#[test]
fn put_then_get_returns_the_blob() {
    let mut lake = fresh_lake(1 << 20);
    let chunk = lake.put(b"hello").expect("put");
    let id = hash(b"hello");
    assert_eq!(chunk.header.hash, id);
    assert_eq!(chunk.header.uncompressed_length, 5);
    let found = lake.get(&id).expect("stored blob must be found");
    assert_eq!(found.offset, chunk.offset);
    assert_eq!(found.header.hash, id);
    assert_eq!(found.read(&lake).expect("read"), b"hello".to_vec());
}

#[test]
fn get_of_absent_identifier_is_none() {
    let lake = fresh_lake(1 << 20);
    let id = hash(b"never stored");
    assert!(lake.get(&id).is_none());
}

#[test]
fn put_is_idempotent() {
    let mut lake = fresh_lake(1 << 20);
    let first = lake.put(b"hello").expect("put");
    let next_after_first = lake.data_next();
    let second = lake.put(b"hello").expect("put again");
    assert_eq!(first.offset, second.offset);
    assert_eq!(first.header.hash, second.header.hash);
    assert_eq!(first.header.compressed_length, second.header.compressed_length);
    assert_eq!(lake.data_next(), next_after_first, "data_next must advance exactly once");
}

#[test]
fn put_occupies_the_computed_slots() {
    let mut lake = fresh_lake(1 << 20);
    let data = sample_bytes(4096, 99);
    let before = lake.data_next();
    let chunk = lake.put(&data).expect("put");
    let used = lake.data_next() - before;
    let expected = (54 + chunk.header.compressed_length as u32 + 255) / 256;
    assert_eq!(used, expected);
    assert_eq!(chunk.read(&lake).expect("read"), data);
}

#[test]
fn put_on_full_arena_fails_cleanly() {
    // 768 bytes: data_offset 2, a single arena slot; an incompressible
    // 300-byte blob needs two slots
    let mut lake = fresh_lake(768);
    let data = sample_bytes(300, 5);
    let result = lake.put(&data);
    match result {
        Err(UssError::IoProblem) => (),
        other => panic!("expected IoProblem, got {:?}", other.map(|c| c.offset)),
    }
}

#[test]
fn put_on_readonly_lake_fails() {
    let lake = fresh_lake(1 << 20);
    let bytes = lake.to_vec();
    let mut reopened = DataLake::load(MemoryMapping::from_vec(bytes), true).expect("load");
    match reopened.put(b"hello") {
        Err(UssError::StaticError(_)) => (),
        other => panic!("expected StaticError, got {:?}", other.map(|c| c.offset)),
    }
}

#[test]
fn oversized_stream_reports_compression_error() {
    // incompressible 5000 bytes deflate to more than the 4111-byte buffer
    let mut lake = fresh_lake(1 << 20);
    let data = sample_bytes(5000, 123);
    match lake.put(&data) {
        Err(UssError::DynamicError(_)) => (),
        other => panic!("expected DynamicError, got {:?}", other.map(|c| c.offset)),
    }
}

#[test]
fn index_exhaustion_reports_index_full() {
    // 64 KiB: index_mod 61, 64 index cells; distinct blobs fill them up
    let mut lake = fresh_lake(1 << 16);
    let mut saw_index_full = false;
    for i in 0..100u32 {
        let data = format!("blob number {}", i).into_bytes();
        match lake.put(&data) {
            Ok(_) => (),
            Err(UssError::StaticError(_)) => {
                saw_index_full = true;
                break;
            },
            Err(other) => panic!("unexpected error {:?}", other),
        }
    }
    assert!(saw_index_full, "the index never filled");
}

#[test]
fn reopen_readonly_and_read_back() {
    let mut lake = fresh_lake(1 << 20);
    lake.put(b"hello").expect("put");
    let bytes = lake.to_vec();
    drop(lake);

    let reopened = DataLake::load(MemoryMapping::from_vec(bytes), true).expect("load");
    let id = hash(b"hello");
    let chunk = reopened.get(&id).expect("blob survives reopen");
    assert_eq!(chunk.read(&reopened).expect("read"), b"hello".to_vec());
}

#[test]
fn load_rejects_corrupt_headers() {
    let lake = fresh_lake(1 << 20);
    let mut bytes = lake.to_vec();
    bytes[0] ^= 0xFF;  // break the magic
    assert!(DataLake::load(MemoryMapping::from_vec(bytes), true).is_err());
    assert!(DataLake::load(MemoryMapping::from_vec(vec![0u8; 64]), true).is_err());
}

#[test]
fn corrupted_identifier_fails_verification() {
    let mut lake = fresh_lake(1 << 20);
    let data = sample_bytes(200, 17);
    let chunk = lake.put(&data).expect("put");
    let id = chunk.header.hash.clone();
    assert!(verify_hash_integrity(&id));
    // flip one bit inside the 4-byte checksum field of the identifier
    let mut bad = id.clone();
    bad[45] ^= 4;
    if bad != id {
        assert!(!verify_hash_integrity(&bad));
    }
}

#[test]
fn colliding_home_slots_both_retrievable() {
    let mut lake = fresh_lake(1 << 20);
    let index_mod = lake.index_mod();

    // find two blobs whose identifiers probe from the same home cell
    let mut first: Option<(Vec<u8>, u32)> = None;
    let mut pair: Option<(Vec<u8>, Vec<u8>)> = None;
    let mut homes = std::collections::HashMap::new();
    for i in 0..10000u32 {
        let data = format!("collision probe {}", i).into_bytes();
        let id = hash(&data);
        let home = checksum_u32(&id, 50) % index_mod;
        if let Some(j) = homes.get(&home) {
            let other = format!("collision probe {}", j).into_bytes();
            pair = Some((other, data));
            break;
        }
        homes.insert(home, i);
        first = Some((data, home));
    }
    let _ = first;
    let (b1, b2) = pair.expect("no collision found in the sample");

    // either insertion order leaves both retrievable
    lake.put(&b1).expect("put b1");
    lake.put(&b2).expect("put b2");
    assert_eq!(lake.get(&hash(&b1)).expect("b1").read(&lake).unwrap(), b1);
    assert_eq!(lake.get(&hash(&b2)).expect("b2").read(&lake).unwrap(), b2);

    let mut lake2 = fresh_lake(1 << 20);
    lake2.put(&b2).expect("put b2");
    lake2.put(&b1).expect("put b1");
    assert_eq!(lake2.get(&hash(&b1)).expect("b1").read(&lake2).unwrap(), b1);
    assert_eq!(lake2.get(&hash(&b2)).expect("b2").read(&lake2).unwrap(), b2);
}
