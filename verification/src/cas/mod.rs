pub mod chunk;
pub mod compress;
pub mod hash;
pub mod index;
pub mod store;

pub use store::Store;

use vstd::prelude::*;

use crate::cas::chunk::{chunk_data, concat, spec_chunks, views, MAX_CHUNK_SIZE};
use crate::cas::compress::{compress, decompress, zstd_decoded, zstd_encoded, COMPRESSION_LEVEL};
use crate::cas::hash::{blake3_digest, hash_bytes};
use crate::cas::store::{put_if_absent, StoreView};
use crate::error::HfsError;
use crate::manifest::{msgpack_manifest, msgpack_manifest_decode, refs_fields, ChunkRef, Manifest, ManifestFields, RefFields};
use crate::pointer::Pointer;
use crate::text::append_bytes;

verus! {

/// Where chunk `i` starts: the total length of the chunks before it.
pub open spec fn chunk_offset(chunks: Seq<Seq<u8>>, i: int) -> int {
    concat(chunks.take(i)).len() as int
}

/// The chunk references that ingest records for a list of chunks.
pub open spec fn spec_refs(chunks: Seq<Seq<u8>>) -> Seq<RefFields> {
    Seq::new(
        chunks.len(),
        |i: int|
            (
                blake3_digest(chunks[i]),
                chunk_offset(chunks, i) as u64,
                zstd_encoded(chunks[i], COMPRESSION_LEVEL).len() as u32,
                chunks[i].len() as u32,
            ),
    )
}

/// The average chunk size recorded in a manifest (0 for no chunks).
pub open spec fn spec_avg(file_size: u64, n: nat) -> u32 {
    if n == 0 {
        0
    } else {
        (file_size as int / n as int) as u32
    }
}

/// The manifest that ingest builds for `data`.
pub open spec fn ingest_manifest(data: Seq<u8>) -> ManifestFields {
    let c = spec_chunks(data);
    (1u8, data.len() as u64, spec_avg(data.len() as u64, c.len()), spec_refs(c))
}

/// The store's objects after putting each chunk, compressed, under its hash.
pub open spec fn objects_after(m: Map<Seq<u8>, Seq<u8>>, chunks: Seq<Seq<u8>>) -> Map<Seq<u8>, Seq<u8>>
    decreases chunks.len(),
{
    if chunks.len() == 0 {
        m
    } else {
        put_if_absent(
            objects_after(m, chunks.drop_last()),
            blake3_digest(chunks.last()),
            zstd_encoded(chunks.last(), COMPRESSION_LEVEL),
        )
    }
}

/// The store holds no object that disagrees with the chunks of the data, and
/// no two different chunks share a hash.
pub open spec fn ingest_consistent(m: Map<Seq<u8>, Seq<u8>>, chunks: Seq<Seq<u8>>) -> bool {
    &&& forall|i: int|
        0 <= i < chunks.len() && m.contains_key(#[trigger] blake3_digest(chunks[i])) ==> zstd_decoded(
            m[blake3_digest(chunks[i])],
        ) == Some(chunks[i])
    &&& forall|i: int, j: int|
        0 <= i < chunks.len() && 0 <= j < chunks.len() && #[trigger] blake3_digest(chunks[i])
            == #[trigger] blake3_digest(chunks[j]) ==> chunks[i] == chunks[j]
}

/// Ingesting `data` into `s` meets nothing that disagrees with it: no stored
/// object under a chunk's hash holds other bytes, no two chunks share a hash,
/// and no other manifest sits under the new manifest's hash.
pub open spec fn ingest_safe(s: StoreView, data: Seq<u8>) -> bool {
    let mb = msgpack_manifest(ingest_manifest(data));
    &&& ingest_consistent(s.objects, spec_chunks(data))
    &&& s.manifests.contains_key(blake3_digest(mb)) ==> s.manifests[blake3_digest(mb)] == mb
}

/// Every chunk's hash leads, in `m`, to bytes that decompress to the chunk.
pub open spec fn holds_chunks(m: Map<Seq<u8>, Seq<u8>>, chunks: Seq<Seq<u8>>) -> bool {
    forall|j: int|
        0 <= j < chunks.len() ==> m.contains_key(#[trigger] blake3_digest(chunks[j])) && zstd_decoded(
            m[blake3_digest(chunks[j])],
        ) == Some(chunks[j])
}

/// Reassembly from chunk references: each referenced object, decompressed,
/// in order; the first missing or undecodable object is the error.
pub open spec fn assemble(objects: Map<Seq<u8>, Seq<u8>>, refs: Seq<RefFields>) -> Result<Seq<u8>, HfsError>
    decreases refs.len(),
{
    if refs.len() == 0 {
        Ok(Seq::empty())
    } else {
        match assemble(objects, refs.drop_last()) {
            Err(e) => Err(e),
            Ok(prefix) => {
                let h = refs.last().0;
                if !objects.contains_key(h) {
                    Err(HfsError::MissingObject)
                } else {
                    match zstd_decoded(objects[h]) {
                        None => Err(HfsError::Decompression),
                        Some(d) => Ok(prefix + d),
                    }
                }
            },
        }
    }
}

/// What materializing the pointer with manifest hash `oid` gives from a store.
pub open spec fn spec_materialize(s: StoreView, oid: Seq<u8>) -> Result<Seq<u8>, HfsError> {
    if !s.manifests.contains_key(oid) {
        Err(HfsError::MissingManifest)
    } else {
        match msgpack_manifest_decode(s.manifests[oid]) {
            None => Err(HfsError::ManifestDecode),
            Some(m) => assemble(s.objects, m.3),
        }
    }
}

/// A prefix of the chunks is never longer, put together, than a longer prefix.
pub proof fn lemma_concat_take_mono(c: Seq<Seq<u8>>, i: int, j: int)
    requires
        0 <= i <= j <= c.len(),
    ensures
        concat(c.take(i)).len() <= concat(c.take(j)).len(),
    decreases j - i,
{
    if i < j {
        lemma_concat_take_mono(c, i, j - 1);
        assert(c.take(j).drop_last() =~= c.take(j - 1));
    }
}

/// What putting the chunks leaves in the store.
proof fn lemma_objects_after(m: Map<Seq<u8>, Seq<u8>>, c: Seq<Seq<u8>>, k: int)
    requires
        ingest_consistent(m, c),
        forall|j: int| 0 <= j < c.len() ==> zstd_decoded(#[trigger] zstd_encoded(c[j], COMPRESSION_LEVEL)) == Some(c[j]),
        0 <= k <= c.len(),
    ensures
        holds_chunks(objects_after(m, c.take(k)), c.take(k)),
        forall|key: Seq<u8>| #[trigger] m.contains_key(key) ==> objects_after(m, c.take(k)).contains_key(key)
            && objects_after(m, c.take(k))[key] == m[key],
        forall|key: Seq<u8>| #[trigger] objects_after(m, c.take(k)).contains_key(key) ==> m.contains_key(key)
            || exists|j: int| 0 <= j < k && key == blake3_digest(c[j]),
    decreases k,
{
    let t = c.take(k);
    if k == 0 {
        assert(t =~= Seq::<Seq<u8>>::empty());
    } else {
        lemma_objects_after(m, c, k - 1);
        let p = c.take(k - 1);
        assert(t.drop_last() =~= p);
        assert(t.last() == c[k - 1]);
        let prev = objects_after(m, p);
        let h = blake3_digest(c[k - 1]);
        let cur = objects_after(m, t);
        assert(cur == put_if_absent(prev, h, zstd_encoded(c[k - 1], COMPRESSION_LEVEL)));
        assert forall|j: int| 0 <= j < t.len() implies cur.contains_key(#[trigger] blake3_digest(t[j]))
            && zstd_decoded(cur[blake3_digest(t[j])]) == Some(t[j]) by {
            if j < k - 1 {
                assert(t[j] == p[j]);
                assert(prev.contains_key(blake3_digest(p[j])));
            } else {
                assert(t[j] == c[k - 1]);
                if prev.contains_key(h) {
                    if m.contains_key(h) {
                        assert(prev[h] == m[h]);
                    } else {
                        let j2 = choose|j2: int| 0 <= j2 < k - 1 && h == blake3_digest(c[j2]);
                        assert(c[j2] == c[k - 1]);
                        assert(p[j2] == c[j2]);
                        assert(prev.contains_key(blake3_digest(p[j2])));
                    }
                } else {
                    assert(zstd_decoded(zstd_encoded(c[k - 1], COMPRESSION_LEVEL)) == Some(c[k - 1]));
                }
            }
        }
        assert forall|key: Seq<u8>| #[trigger] cur.contains_key(key) implies m.contains_key(key)
            || exists|j: int| 0 <= j < k && key == blake3_digest(c[j]) by {
            if key != h {
                assert(prev.contains_key(key));
                if !m.contains_key(key) {
                    let j2 = choose|j2: int| 0 <= j2 < k - 1 && key == blake3_digest(c[j2]);
                    assert(0 <= j2 < k && key == blake3_digest(c[j2]));
                }
            } else {
                assert(0 <= k - 1 < k && key == blake3_digest(c[k - 1]));
            }
        }
    }
}

/// Reassembling the references of chunks whose objects are all present.
proof fn lemma_assemble(objects: Map<Seq<u8>, Seq<u8>>, c: Seq<Seq<u8>>, k: int)
    requires
        holds_chunks(objects, c),
        0 <= k <= c.len(),
    ensures
        assemble(objects, spec_refs(c).take(k)) == Ok::<Seq<u8>, HfsError>(concat(c.take(k))),
    decreases k,
{
    let r = spec_refs(c).take(k);
    if k == 0 {
        assert(r =~= Seq::<RefFields>::empty());
        assert(c.take(0) =~= Seq::<Seq<u8>>::empty());
    } else {
        lemma_assemble(objects, c, k - 1);
        assert(r.drop_last() =~= spec_refs(c).take(k - 1));
        assert(r.last().0 == blake3_digest(c[k - 1]));
        assert(c.take(k).drop_last() =~= c.take(k - 1));
        assert(c.take(k).last() == c[k - 1]);
    }
}

/// Once a prefix of the references fails, the whole reassembly fails the same way.
proof fn lemma_assemble_err(objects: Map<Seq<u8>, Seq<u8>>, refs: Seq<RefFields>, k: int)
    requires
        0 <= k <= refs.len(),
        assemble(objects, refs.take(k)) is Err,
    ensures
        assemble(objects, refs) == assemble(objects, refs.take(k)),
    decreases refs.len() - k,
{
    if k < refs.len() {
        assert(refs.take(k + 1).drop_last() =~= refs.take(k));
        lemma_assemble_err(objects, refs, k + 1);
    } else {
        assert(refs.take(k) =~= refs);
    }
}

/// Ingests raw bytes: cuts them into chunks, stores each chunk compressed
/// under its hash, stores the manifest under its hash, and returns the
/// pointer with the manifest bytes.
///
/// It always succeeds. When the store held nothing that disagrees with the
/// new chunks or manifest, materializing the pointer gives back `data`.
pub fn ingest_bytes(store: &mut Store, data: &[u8]) -> (res: Result<(Pointer, Vec<u8>), HfsError>)
    ensures
        final(store)@.root == old(store)@.root,
        match res {
            Ok((p, mb)) => {
                &&& mb@ == msgpack_manifest(ingest_manifest(data@))
                &&& msgpack_manifest_decode(mb@) == Some(ingest_manifest(data@))
                &&& p.version == 1
                &&& p.oid@ == blake3_digest(mb@)
                &&& p.size == data@.len() as u64
                &&& p.chunk_count == spec_chunks(data@).len() as u32
                &&& forall|i: int|
                    0 <= i < spec_chunks(data@).len() ==> ingest_manifest(data@).3[i].2 == (#[trigger] zstd_encoded(
                        spec_chunks(data@)[i],
                        COMPRESSION_LEVEL,
                    )).len()
                &&& final(store)@.objects == objects_after(old(store)@.objects, spec_chunks(data@))
                &&& final(store)@.manifests == put_if_absent(old(store)@.manifests, p.oid@, mb@)
                &&& ingest_safe(old(store)@, data@) ==> spec_materialize(final(store)@, p.oid@) == Ok::<
                    Seq<u8>,
                    HfsError,
                >(data@)
            },
            Err(_) => false,
        },
{
    let ghost old_objects = store@.objects;
    let file_size = data.len() as u64;
    let chunks = chunk_data(data);
    let ghost c = views(chunks@);
    assert(c == spec_chunks(data@));
    assert forall|j: int| 0 <= j < c.len() implies (#[trigger] c[j]).len() <= MAX_CHUNK_SIZE by {
        assert(c[j] == chunks@[j]@);
    }
    let n = chunks.len();
    let mut refs: Vec<ChunkRef> = Vec::new();
    let mut offset: u64 = 0;
    let mut i: usize = 0;
    while i < n
        invariant
            i <= n,
            n == chunks@.len(),
            c == views(chunks@),
            c == spec_chunks(data@),
            concat(c) == data@,
            data@.len() <= usize::MAX,
            refs@.len() == i,
            forall|j: int| 0 <= j < i ==> (#[trigger] refs@[j]).fields() == spec_refs(c)[j],
            offset == chunk_offset(c, i as int),
            store@.root == old(store)@.root,
            store@.manifests == old(store)@.manifests,
            store@.objects == objects_after(old_objects, c.take(i as int)),
            old_objects == old(store)@.objects,
            forall|j: int| 0 <= j < i ==> zstd_decoded(#[trigger] zstd_encoded(c[j], COMPRESSION_LEVEL)) == Some(c[j]),
            forall|j: int| 0 <= j < i ==> (#[trigger] zstd_encoded(c[j], COMPRESSION_LEVEL)).len() <= u32::MAX,
            forall|j: int| 0 <= j < c.len() ==> (#[trigger] c[j]).len() <= MAX_CHUNK_SIZE,
        decreases n - i,
    {
        let chunk = &chunks[i];
        assert(chunk@ == c[i as int]);
        let hash = hash_bytes(chunk.as_slice());
        let compressed = match compress(chunk.as_slice()) {
            Ok(v) => v,
            Err(e) => return Err(e),
        };
        let _ = store.put_object(&hash, &compressed);
        proof {
            assert(c.take(i as int + 1).drop_last() =~= c.take(i as int));
            assert(c.take(i as int + 1).last() == c[i as int]);
            assert(concat(c.take(i as int + 1)) == concat(c.take(i as int)) + c[i as int]);
            lemma_concat_take_mono(c, i as int + 1, c.len() as int);
            assert(c.take(c.len() as int) =~= c);
        }
        refs.push(ChunkRef {
            hash,
            offset,
            size: compressed.len() as u32,
            original_size: chunk.len() as u32,
        });
        offset = offset + chunk.len() as u64;
        i += 1;
    }
    assert(c.take(n as int) =~= c);
    let chunk_size_avg: u32 = if n == 0 {
        0
    } else {
        (file_size / n as u64) as u32
    };
    let manifest = Manifest { version: 1, file_size, chunk_size_avg, chunks: refs };
    assert(manifest.fields() =~= ingest_manifest(data@)) by {
        assert(refs_fields(manifest.chunks@) =~= spec_refs(c));
    }
    let manifest_bytes = match manifest.serialize() {
        Ok(b) => b,
        Err(e) => return Err(e),
    };
    let manifest_hash = hash_bytes(manifest_bytes.as_slice());
    let _ = store.put_manifest(&manifest_hash, &manifest_bytes);
    let pointer = Pointer {
        version: 1,
        oid: manifest_hash,
        size: file_size,
        chunk_count: manifest.chunks.len() as u32,
    };
    proof {
        if ingest_consistent(old_objects, c) && (old(store)@.manifests.contains_key(pointer.oid@) ==> old(
            store,
        )@.manifests[pointer.oid@] == manifest_bytes@) {
            lemma_objects_after(old_objects, c, c.len() as int);
            lemma_assemble(store@.objects, c, c.len() as int);
            assert(spec_refs(c).take(c.len() as int) =~= spec_refs(c));
            assert(store@.manifests[pointer.oid@] == manifest_bytes@);
        }
    }
    Ok((pointer, manifest_bytes))
}

/// Putting chunks never changes or drops what the store already held.
proof fn lemma_objects_after_grows(m: Map<Seq<u8>, Seq<u8>>, c: Seq<Seq<u8>>)
    ensures
        forall|k: Seq<u8>| #[trigger] m.contains_key(k) ==> objects_after(m, c).contains_key(k)
            && objects_after(m, c)[k] == m[k],
    decreases c.len(),
{
    if c.len() > 0 {
        lemma_objects_after_grows(m, c.drop_last());
    }
}

/// Reassembly that succeeds keeps its result in a store that only gained
/// entries.
proof fn lemma_assemble_grows(m: Map<Seq<u8>, Seq<u8>>, m2: Map<Seq<u8>, Seq<u8>>, refs: Seq<RefFields>)
    requires
        forall|k: Seq<u8>| #[trigger] m.contains_key(k) ==> m2.contains_key(k) && m2[k] == m[k],
        assemble(m, refs) is Ok,
    ensures
        assemble(m2, refs) == assemble(m, refs),
    decreases refs.len(),
{
    if refs.len() > 0 {
        lemma_assemble_grows(m, m2, refs.drop_last());
    }
}

/// Ingesting more data never disturbs a file that could be materialized
/// before: it materializes to the same bytes afterwards.
pub proof fn lemma_ingest_keeps_files(s: StoreView, oid: Seq<u8>, data: Seq<u8>, k: Seq<u8>, v: Seq<u8>)
    requires
        spec_materialize(s, oid) is Ok,
    ensures
        spec_materialize(
            StoreView {
                root: s.root,
                objects: objects_after(s.objects, spec_chunks(data)),
                manifests: put_if_absent(s.manifests, k, v),
            },
            oid,
        ) == spec_materialize(s, oid),
{
    let o2 = objects_after(s.objects, spec_chunks(data));
    lemma_objects_after_grows(s.objects, spec_chunks(data));
    let m = msgpack_manifest_decode(s.manifests[oid]);
    lemma_assemble_grows(s.objects, o2, (m->0).3);
}

/// After putting a list of chunks, the store's keys are the keys it had
/// and the hash of every chunk.
pub proof fn lemma_objects_after_keys(m: Map<Seq<u8>, Seq<u8>>, c: Seq<Seq<u8>>)
    ensures
        forall|i: int| 0 <= i < c.len() ==> objects_after(m, c).contains_key(#[trigger] blake3_digest(c[i])),
        forall|k: Seq<u8>| #[trigger] objects_after(m, c).contains_key(k) <==> (m.contains_key(k) || exists|i: int|
            0 <= i < c.len() && k == blake3_digest(c[i])),
    decreases c.len(),
{
    if c.len() > 0 {
        let p = c.drop_last();
        lemma_objects_after_keys(m, p);
        assert forall|i: int| 0 <= i < c.len() implies objects_after(m, c).contains_key(
            #[trigger] blake3_digest(c[i]),
        ) by {
            if i < c.len() - 1 {
                assert(p[i] == c[i]);
                assert(objects_after(m, p).contains_key(blake3_digest(p[i])));
            }
        }
        assert forall|k: Seq<u8>| #[trigger] objects_after(m, c).contains_key(k) <==> (m.contains_key(k)
            || exists|i: int| 0 <= i < c.len() && k == blake3_digest(c[i])) by {
            if objects_after(m, c).contains_key(k) && !m.contains_key(k) && k != blake3_digest(c.last()) {
                assert(objects_after(m, p).contains_key(k));
                let i = choose|i: int| 0 <= i < p.len() && k == blake3_digest(p[i]);
                assert(p[i] == c[i]);
            }
            if exists|i: int| 0 <= i < c.len() && k == blake3_digest(c[i]) {
                let i = choose|i: int| 0 <= i < c.len() && k == blake3_digest(c[i]);
                assert(objects_after(m, c).contains_key(blake3_digest(c[i])));
            }
            if m.contains_key(k) {
                assert(objects_after(m, p).contains_key(k));
            }
        }
    }
}

/// Putting chunks whose hashes the store already holds changes nothing.
pub proof fn lemma_objects_after_present(m: Map<Seq<u8>, Seq<u8>>, c: Seq<Seq<u8>>)
    requires
        forall|i: int| 0 <= i < c.len() ==> m.contains_key(#[trigger] blake3_digest(c[i])),
    ensures
        objects_after(m, c) == m,
    decreases c.len(),
{
    if c.len() > 0 {
        let p = c.drop_last();
        assert forall|i: int| 0 <= i < p.len() implies m.contains_key(#[trigger] blake3_digest(p[i])) by {
            assert(p[i] == c[i]);
            assert(m.contains_key(blake3_digest(c[i])));
        }
        lemma_objects_after_present(m, p);
        assert(m.contains_key(blake3_digest(c[c.len() - 1])));
    }
}

/// Deduplication: ingesting the same bytes a second time stores no new
/// object and changes none.
pub proof fn lemma_reingest_stores_nothing(m: Map<Seq<u8>, Seq<u8>>, data: Seq<u8>)
    ensures
        objects_after(objects_after(m, spec_chunks(data)), spec_chunks(data)) == objects_after(
            m,
            spec_chunks(data),
        ),
{
    let c = spec_chunks(data);
    lemma_objects_after_keys(m, c);
    lemma_objects_after_present(objects_after(m, c), c);
}

/// Rebuilds a file from its pointer: reads the manifest, then fetches and
/// decompresses each chunk in order.
pub fn materialize(store: &Store, pointer: &Pointer) -> (res: Result<Vec<u8>, HfsError>)
    ensures
        match res {
            Ok(v) => spec_materialize(store@, pointer.oid@) == Ok::<Seq<u8>, HfsError>(v@),
            Err(e) => spec_materialize(store@, pointer.oid@) == Err::<Seq<u8>, HfsError>(e),
        },
{
    let manifest_bytes = match store.get_manifest(&pointer.oid) {
        Ok(b) => b,
        Err(e) => return Err(e),
    };
    let manifest = match Manifest::deserialize(manifest_bytes.as_slice()) {
        Ok(m) => m,
        Err(e) => return Err(e),
    };
    let ghost refs = refs_fields(manifest.chunks@);
    assert(msgpack_manifest_decode(store@.manifests[pointer.oid@]) == Some(manifest.fields()));
    let mut output: Vec<u8> = Vec::new();
    let mut i: usize = 0;
    while i < manifest.chunks.len()
        invariant
            i <= manifest.chunks@.len(),
            refs == refs_fields(manifest.chunks@),
            spec_materialize(store@, pointer.oid@) == assemble(store@.objects, refs),
            assemble(store@.objects, refs.take(i as int)) == Ok::<Seq<u8>, HfsError>(output@),
        decreases manifest.chunks@.len() - i,
    {
        let chunk_ref = manifest.chunks[i];
        assert(refs.take(i as int + 1).drop_last() =~= refs.take(i as int));
        assert(refs.take(i as int + 1).last() == chunk_ref.fields());
        let compressed = match store.get_object(&chunk_ref.hash) {
            Ok(v) => v,
            Err(e) => {
                proof {
                    lemma_assemble_err(store@.objects, refs, i as int + 1);
                }
                return Err(e);
            },
        };
        let decompressed = match decompress(compressed.as_slice(), chunk_ref.original_size as usize) {
            Ok(v) => v,
            Err(e) => {
                proof {
                    lemma_assemble_err(store@.objects, refs, i as int + 1);
                }
                return Err(e);
            },
        };
        append_bytes(&mut output, decompressed.as_slice());
        i += 1;
    }
    assert(refs.take(manifest.chunks@.len() as int) =~= refs);
    Ok(output)
}

} // verus!
