use hfs::cas::{self, Store};
use hfs::error::HfsError;
use hfs::pointer::Pointer;

fn lcg_bytes(len: usize, seed: u64) -> Vec<u8> {
    let mut data = vec![0u8; len];
    let mut state: u64 = seed;
    for byte in data.iter_mut() {
        state = state.wrapping_mul(6364136223846793005).wrapping_add(1);
        *byte = (state >> 33) as u8;
    }
    data
}

#[test]
fn end_to_end_small_file() {
    let mut store = Store::new(".hfs");

    let original = b"Hello, this is a small test file for HFS!";

    let (pointer, _manifest_bytes) = cas::ingest_bytes(&mut store, original).unwrap();

    assert_eq!(pointer.version, 1);
    assert_eq!(pointer.size, original.len() as u64);
    assert!(pointer.chunk_count >= 1);

    let encoded = pointer.encode();
    assert!(Pointer::is_pointer(encoded.as_bytes()));
    let decoded = Pointer::decode(&encoded).unwrap();
    assert_eq!(pointer, decoded);

    let restored = cas::materialize(&store, &pointer).unwrap();
    assert_eq!(restored, original);
}

#[test]
fn end_to_end_large_file() {
    let mut store = Store::new(".hfs");

    let data = lcg_bytes(8 * 1024 * 1024, 0xDEADBEEF);

    let (pointer, _) = cas::ingest_bytes(&mut store, &data).unwrap();

    assert_eq!(pointer.size, data.len() as u64);
    assert!(pointer.chunk_count > 1, "should produce multiple chunks");

    let restored = cas::materialize(&store, &pointer).unwrap();
    assert_eq!(restored, data);
}

#[test]
fn deduplication_across_versions() {
    let mut store = Store::new(".hfs");

    let mut data_v1 = vec![0xAAu8; 4 * 1024 * 1024];
    let (ptr_v1, _) = cas::ingest_bytes(&mut store, &data_v1).unwrap();

    let objects_v1 = store.list_objects().unwrap().len();

    data_v1[3 * 1024 * 1024..3 * 1024 * 1024 + 1024].copy_from_slice(&[0xBB; 1024]);

    let (ptr_v2, _) = cas::ingest_bytes(&mut store, &data_v1).unwrap();

    let objects_v2 = store.list_objects().unwrap().len();

    let new_objects = objects_v2 - objects_v1;
    assert!(
        new_objects <= ptr_v2.chunk_count as usize,
        "new objects ({new_objects}) should be <= total chunks in v2 ({})",
        ptr_v2.chunk_count
    );

    let restored_v1 = cas::materialize(&store, &ptr_v1).unwrap();
    assert_eq!(restored_v1.len(), 4 * 1024 * 1024);
    assert_eq!(restored_v1[0], 0xAA);

    let restored_v2 = cas::materialize(&store, &ptr_v2).unwrap();
    assert_eq!(restored_v2.len(), 4 * 1024 * 1024);
    assert_eq!(restored_v2[3 * 1024 * 1024], 0xBB);
}

#[test]
fn empty_file() {
    let mut store = Store::new(".hfs");

    let (pointer, _) = cas::ingest_bytes(&mut store, b"").unwrap();
    assert_eq!(pointer.size, 0);
    assert_eq!(pointer.chunk_count, 0);

    let restored = cas::materialize(&store, &pointer).unwrap();
    assert!(restored.is_empty());
}

#[test]
fn reingesting_stores_nothing_new() {
    let mut store = Store::new(".hfs");
    let data = lcg_bytes(2 * 1024 * 1024, 99);
    let (p1, m1) = cas::ingest_bytes(&mut store, &data).unwrap();
    let mut objects = store.list_objects().unwrap();
    objects.sort();
    let (p2, m2) = cas::ingest_bytes(&mut store, &data).unwrap();
    let mut again = store.list_objects().unwrap();
    again.sort();
    assert_eq!(objects, again);
    assert_eq!(p1, p2);
    assert_eq!(m1, m2);
    assert_eq!(store.list_manifests().unwrap(), vec![p1.oid]);
}

#[test]
fn manifest_describes_the_chunks() {
    let mut store = Store::new(".hfs");
    let data = lcg_bytes(3 * 1024 * 1024, 5);
    let (pointer, mb) = cas::ingest_bytes(&mut store, &data).unwrap();
    assert_eq!(pointer.oid, hfs::cas::hash::hash_bytes(&mb));
    assert_eq!(store.get_manifest(&pointer.oid).unwrap(), mb);
    let m = hfs::manifest::Manifest::deserialize(&mb).unwrap();
    assert_eq!(m.version, 1);
    assert_eq!(m.file_size, data.len() as u64);
    assert_eq!(m.chunks.len(), pointer.chunk_count as usize);
    assert_eq!(m.chunk_size_avg as u64, data.len() as u64 / m.chunks.len() as u64);
    let chunks = hfs::cas::chunk::chunk_data(&data);
    let mut offset = 0u64;
    for (r, c) in m.chunks.iter().zip(chunks.iter()) {
        assert_eq!(r.offset, offset);
        assert_eq!(r.original_size as usize, c.len());
        assert_eq!(r.hash, hfs::cas::hash::hash_bytes(c));
        let stored = store.get_object(&r.hash).unwrap();
        assert_eq!(r.size as usize, stored.len());
        assert_eq!(hfs::cas::compress::decompress(&stored, c.len()).unwrap(), *c);
        offset += c.len() as u64;
    }
}

#[test]
fn materialize_reports_what_is_missing() {
    let mut store = Store::new(".hfs");
    let data = b"some file content".to_vec();
    let (pointer, mb) = cas::ingest_bytes(&mut store, &data).unwrap();

    let empty = Store::new(".hfs");
    assert_eq!(cas::materialize(&empty, &pointer), Err(HfsError::MissingManifest));

    let mut only_manifest = Store::new(".hfs");
    only_manifest.put_manifest(&pointer.oid, &mb).unwrap();
    assert_eq!(cas::materialize(&only_manifest, &pointer), Err(HfsError::MissingObject));

    let mut bad_manifest = Store::new(".hfs");
    bad_manifest.put_manifest(&pointer.oid, b"\xc1").unwrap();
    assert_eq!(cas::materialize(&bad_manifest, &pointer), Err(HfsError::ManifestDecode));

    let m = hfs::manifest::Manifest::deserialize(&mb).unwrap();
    let mut bad_object = Store::new(".hfs");
    bad_object.put_manifest(&pointer.oid, &mb).unwrap();
    bad_object.put_object(&m.chunks[0].hash, b"not zstd").unwrap();
    assert_eq!(cas::materialize(&bad_object, &pointer), Err(HfsError::Decompression));
}
