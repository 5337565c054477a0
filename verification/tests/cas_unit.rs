use hfs::cas::chunk::{chunk_data, MAX_CHUNK_SIZE};
use hfs::cas::compress::{compress, decompress};
use hfs::cas::hash::{hash_bytes, hash_to_hex, hex_to_hash};
use hfs::cas::index::HashList;
use hfs::cas::store::hashed_path_in;
use hfs::cas::Store;
use hfs::error::HfsError;

fn temp_store() -> Store {
    Store::new(".hfs")
}

// ---- chunking ----

#[test]
fn empty_input() {
    let chunks = chunk_data(b"");
    assert!(chunks.is_empty());
}

#[test]
fn small_input_single_chunk() {
    let data = vec![0u8; 1024];
    let chunks = chunk_data(&data);
    assert_eq!(chunks.len(), 1);
    assert_eq!(chunks[0].len(), 1024);
}

#[test]
fn large_input_multiple_chunks() {
    let data = vec![42u8; 8 * 1024 * 1024];
    let chunks = chunk_data(&data);
    assert!(chunks.len() > 1);
    let total: usize = chunks.iter().map(|c| c.len()).sum();
    assert_eq!(total, data.len());
}

#[test]
fn deterministic_chunking() {
    let data = vec![7u8; 4 * 1024 * 1024];
    let a = chunk_data(&data);
    let b = chunk_data(&data);
    assert_eq!(a.len(), b.len());
    for (ca, cb) in a.iter().zip(b.iter()) {
        assert_eq!(ca, cb);
    }
}

#[test]
fn content_defined_boundaries() {
    let mut data = vec![0u8; 4 * 1024 * 1024];
    let chunks_before = chunk_data(&data);
    data[3 * 1024 * 1024] = 0xFF;
    let chunks_after = chunk_data(&data);
    if chunks_before.len() > 1 && chunks_after.len() > 1 {
        assert_eq!(chunks_before[0], chunks_after[0]);
    }
}

#[test]
fn chunks_put_together_give_the_data_back() {
    let mut data = vec![0u8; 3 * 1024 * 1024 + 17];
    let mut state: u64 = 7;
    for b in data.iter_mut() {
        state = state.wrapping_mul(6364136223846793005).wrapping_add(1);
        *b = (state >> 33) as u8;
    }
    let chunks = chunk_data(&data);
    assert!(chunks.iter().all(|c| !c.is_empty() && c.len() <= MAX_CHUNK_SIZE as usize));
    let joined: Vec<u8> = chunks.concat();
    assert_eq!(joined, data);
}

// ---- compression ----

#[test]
fn compress_roundtrip() {
    let original = b"hello world, this is a test of zstd compression in hfs";
    let compressed = compress(original).unwrap();
    let decompressed = decompress(&compressed, original.len()).unwrap();
    assert_eq!(original.as_slice(), decompressed.as_slice());
}

#[test]
fn compresses_repetitive_data() {
    let original = vec![42u8; 1024 * 1024];
    let compressed = compress(&original).unwrap();
    assert!(compressed.len() < original.len() / 10);
}

#[test]
fn empty_data() {
    let compressed = compress(b"").unwrap();
    let decompressed = decompress(&compressed, 0).unwrap();
    assert!(decompressed.is_empty());
}

#[test]
fn compress_output_is_a_zstd_frame() {
    let original = b"some bytes that are not a zstd frame";
    let compressed = compress(original).unwrap();
    assert_ne!(compressed.as_slice(), original.as_slice());
    assert_eq!(&compressed[..4], &[0x28, 0xB5, 0x2F, 0xFD]);
    assert_eq!(zstd::decode_all(compressed.as_slice()).unwrap(), original.to_vec());
}

#[test]
fn decompress_rejects_garbage() {
    assert_eq!(decompress(b"definitely not zstd", 10), Err(HfsError::Decompression));
}

// ---- hashing ----

#[test]
fn roundtrip_hex() {
    let data = b"hello world";
    let hash = hash_bytes(data);
    let hex_str = hash_to_hex(&hash);
    let recovered = hex_to_hash(&hex_str).unwrap();
    assert_eq!(hash, recovered);
}

#[test]
fn deterministic() {
    let a = hash_bytes(b"test data");
    let b = hash_bytes(b"test data");
    assert_eq!(a, b);
}

#[test]
fn different_input_different_hash() {
    let a = hash_bytes(b"hello");
    let b = hash_bytes(b"world");
    assert_ne!(a, b);
}

#[test]
fn hash_is_blake3() {
    let h = hash_bytes(b"hello world");
    assert_eq!(&h, blake3::hash(b"hello world").as_bytes());
    assert_eq!(hash_to_hex(&h), blake3::hash(b"hello world").to_hex().to_string());
}

#[test]
fn hex_encoding_is_lowercase_two_digits_per_byte() {
    let mut h = [0u8; 32];
    h[0] = 0xAB;
    h[1] = 0x01;
    h[31] = 0xF0;
    let s = hash_to_hex(&h);
    assert_eq!(s.len(), 64);
    assert!(s.starts_with("ab01"));
    assert!(s.ends_with("f0"));
}

#[test]
fn hex_to_hash_accepts_upper_case() {
    let s = "AB".repeat(32);
    assert_eq!(hex_to_hash(&s), Ok([0xAB; 32]));
}

#[test]
fn hex_to_hash_rejects_bad_input() {
    assert_eq!(hex_to_hash("abc"), Err(HfsError::InvalidHash));
    assert_eq!(hex_to_hash(&"zz".repeat(32)), Err(HfsError::InvalidHash));
    assert_eq!(hex_to_hash(&"ab".repeat(33)), Err(HfsError::InvalidHash));
}

// ---- store ----

#[test]
fn put_get_object() {
    let mut store = temp_store();
    let hash = hash_bytes(b"test");
    store.put_object(&hash, b"compressed-data").unwrap();
    let data = store.get_object(&hash).unwrap();
    assert_eq!(data, b"compressed-data");
}

#[test]
fn has_object() {
    let mut store = temp_store();
    let hash = hash_bytes(b"test");
    assert!(!store.has_object(&hash));
    store.put_object(&hash, b"data").unwrap();
    assert!(store.has_object(&hash));
}

#[test]
fn duplicate_put_is_noop() {
    let mut store = temp_store();
    let hash = hash_bytes(b"test");
    store.put_object(&hash, b"data1").unwrap();
    store.put_object(&hash, b"data2").unwrap();
    let data = store.get_object(&hash).unwrap();
    assert_eq!(data, b"data1");
}

#[test]
fn list_objects() {
    let mut store = temp_store();
    let h1 = hash_bytes(b"a");
    let h2 = hash_bytes(b"b");
    store.put_object(&h1, b"data-a").unwrap();
    store.put_object(&h2, b"data-b").unwrap();
    let mut hashes = store.list_objects().unwrap();
    hashes.sort();
    let mut expected = vec![h1, h2];
    expected.sort();
    assert_eq!(hashes, expected);
}

#[test]
fn missing_object_and_manifest_errors() {
    let store = temp_store();
    let h = hash_bytes(b"nothing");
    assert_eq!(store.get_object(&h), Err(HfsError::MissingObject));
    assert_eq!(store.get_manifest(&h), Err(HfsError::MissingManifest));
    assert!(!store.has_manifest(&h));
}

#[test]
fn manifests_and_objects_are_kept_apart() {
    let mut store = temp_store();
    let h = hash_bytes(b"x");
    store.put_manifest(&h, b"manifest").unwrap();
    assert!(store.has_manifest(&h));
    assert!(!store.has_object(&h));
    store.put_manifest(&h, b"other").unwrap();
    assert_eq!(store.get_manifest(&h).unwrap(), b"manifest");
    assert_eq!(store.list_manifests().unwrap(), vec![h]);
    assert!(store.list_objects().unwrap().is_empty());
}

#[test]
fn remove_then_put_again() {
    let mut store = temp_store();
    let h = hash_bytes(b"x");
    store.put_object(&h, b"one").unwrap();
    store.remove_object(&h).unwrap();
    assert!(!store.has_object(&h));
    store.remove_object(&h).unwrap();
    store.put_object(&h, b"two").unwrap();
    assert_eq!(store.get_object(&h).unwrap(), b"two");
    store.put_manifest(&h, b"m").unwrap();
    store.remove_manifest(&h).unwrap();
    assert!(!store.has_manifest(&h));
}

#[test]
fn store_paths() {
    let store = Store::new("/repo/.hfs");
    assert_eq!(store.root(), "/repo/.hfs");
    assert_eq!(store.objects_dir(), "/repo/.hfs/objects");
    assert_eq!(store.manifests_dir(), "/repo/.hfs/manifests");
    assert_eq!(store.tmp_dir(), "/repo/.hfs/tmp");
    let mut h = [0u8; 32];
    h[0] = 0xAB;
    h[1] = 0xCD;
    let expected = format!("/repo/.hfs/objects/ab/cd{}", "00".repeat(30));
    assert_eq!(store.object_path(&h), expected);
    let expected_m = format!("/repo/.hfs/manifests/ab/cd{}", "00".repeat(30));
    assert_eq!(store.manifest_path(&h), expected_m);
    assert_eq!(hashed_path_in("d", &h), format!("d/ab/cd{}", "00".repeat(30)));
}

#[test]
fn hashes_sharing_a_bucket_are_kept_apart() {
    let mut store = temp_store();
    let mut a = [7u8; 32];
    let mut b = [7u8; 32];
    a[31] = 1;
    b[31] = 2;
    store.put_object(&a, b"first").unwrap();
    store.put_object(&b, b"second").unwrap();
    assert_eq!(store.get_object(&a).unwrap(), b"first");
    assert_eq!(store.get_object(&b).unwrap(), b"second");
    store.remove_object(&a).unwrap();
    assert!(!store.has_object(&a));
    assert_eq!(store.get_object(&b).unwrap(), b"second");
    store.put_object(&a, b"again").unwrap();
    assert_eq!(store.get_object(&a).unwrap(), b"again");
    let mut listed = store.list_objects().unwrap();
    listed.sort();
    assert_eq!(listed, vec![a, b]);
}

#[test]
fn many_objects() {
    let mut store = temp_store();
    let hashes: Vec<[u8; 32]> = (0..2000u32).map(|i| hash_bytes(&i.to_le_bytes())).collect();
    for (i, h) in hashes.iter().enumerate() {
        store.put_object(h, &(i as u32).to_le_bytes()).unwrap();
    }
    for (i, h) in hashes.iter().enumerate() {
        assert_eq!(store.get_object(h).unwrap(), (i as u32).to_le_bytes());
    }
    for h in hashes.iter().step_by(2) {
        store.remove_object(h).unwrap();
    }
    for (i, h) in hashes.iter().enumerate() {
        assert_eq!(store.has_object(h), i % 2 == 1);
    }
    assert_eq!(store.list_objects().unwrap().len(), 1000);
}

#[test]
fn hash_list_membership() {
    let mut list = HashList::new();
    let mut a = [0u8; 32];
    a[20] = 5;
    let b = [0u8; 32];
    assert!(!list.contains(&a));
    list.push(a);
    assert!(list.contains(&a));
    assert!(!list.contains(&b));
    list.push(b);
    list.push(a);
    assert!(list.contains(&b));
    assert_eq!(list.into_vec(), vec![a, b, a]);
}
