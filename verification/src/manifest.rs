use vstd::prelude::*;

use crate::error::HfsError;

verus! {

/// One chunk of a file: where it sits and how it is stored.
#[derive(Debug, Clone, Copy)]
pub struct ChunkRef {
    /// BLAKE3 hash of the uncompressed chunk.
    pub hash: [u8; 32],
    /// Byte offset of the chunk in the original file.
    pub offset: u64,
    /// Compressed size on disk.
    pub size: u32,
    /// Uncompressed size.
    pub original_size: u32,
}

/// How to reassemble one file: its chunks, in order.
#[derive(Debug, Clone)]
pub struct Manifest {
    pub version: u8,
    pub file_size: u64,
    pub chunk_size_avg: u32,
    pub chunks: Vec<ChunkRef>,
}

/// A chunk reference by its plain values: hash, offset, size, original size.
pub type RefFields = (Seq<u8>, u64, u32, u32);

/// A manifest by its plain values: version, file size, average chunk size, chunks.
pub type ManifestFields = (u8, u64, u32, Seq<RefFields>);

/// The MessagePack bytes that `rmp_serde::to_vec` writes for a manifest
/// (fields as an array, in declaration order).
pub uninterp spec fn msgpack_manifest(m: ManifestFields) -> Seq<u8>;

/// What `rmp_serde::from_slice` reads from bytes as a manifest; `None` when it fails.
pub uninterp spec fn msgpack_manifest_decode(bytes: Seq<u8>) -> Option<ManifestFields>;

/// The plain values of a wire chunk reference.
pub open spec fn wire_ref_fields(r: ([u8; 32], u64, u32, u32)) -> RefFields {
    (r.0@, r.1, r.2, r.3)
}

/// The plain values of a wire manifest.
pub open spec fn wire_fields(w: (u8, u64, u32, Vec<([u8; 32], u64, u32, u32)>)) -> ManifestFields {
    (w.0, w.1, w.2, w.3@.map_values(|r: ([u8; 32], u64, u32, u32)| wire_ref_fields(r)))
}

/// Trusted: `rmp_serde::to_vec` serialises the tuple as a MessagePack array
/// of its fields (the same bytes as the derived encoding of `Manifest`), and
/// `rmp_serde::from_slice` reads those bytes back as the same values. Writing
/// integers and sequences of known length into a `Vec` cannot fail, so the
/// call succeeds.
#[verifier::external_body]
fn rmp_encode_manifest(w: &(u8, u64, u32, Vec<([u8; 32], u64, u32, u32)>)) -> (res: Option<Vec<u8>>)
    ensures
        res is Some,
        res matches Some(b) ==> b@ == msgpack_manifest(wire_fields(*w)) && msgpack_manifest_decode(b@)
            == Some(wire_fields(*w)),
{
    rmp_serde::to_vec(w).ok()
}

/// Trusted: `rmp_serde::from_slice` reads a MessagePack array of the four
/// manifest fields; its result is a function of the bytes.
#[verifier::external_body]
fn rmp_decode_manifest(bytes: &[u8]) -> (res: Option<(u8, u64, u32, Vec<([u8; 32], u64, u32, u32)>)>)
    ensures
        match res {
            Some(w) => msgpack_manifest_decode(bytes@) == Some(wire_fields(w)),
            None => msgpack_manifest_decode(bytes@) is None,
        },
{
    rmp_serde::from_slice(bytes).ok()
}

impl ChunkRef {
    /// The reference's plain values.
    pub open spec fn fields(&self) -> RefFields {
        (self.hash@, self.offset, self.size, self.original_size)
    }
}

/// The plain values of a list of chunk references.
pub open spec fn refs_fields(v: Seq<ChunkRef>) -> Seq<RefFields> {
    v.map_values(|r: ChunkRef| r.fields())
}

impl Manifest {
    /// The manifest's plain values.
    pub open spec fn fields(&self) -> ManifestFields {
        (self.version, self.file_size, self.chunk_size_avg, refs_fields(self.chunks@))
    }

    /// MessagePack encoding of the manifest.
    pub fn serialize(&self) -> (res: Result<Vec<u8>, HfsError>)
        ensures
            res matches Ok(b) && b@ == msgpack_manifest(self.fields()) && msgpack_manifest_decode(b@)
                == Some(self.fields()),
    {
        let mut refs: Vec<([u8; 32], u64, u32, u32)> = Vec::new();
        let mut i: usize = 0;
        while i < self.chunks.len()
            invariant
                i <= self.chunks@.len(),
                refs@.len() == i,
                forall|j: int| 0 <= j < i ==> wire_ref_fields(#[trigger] refs@[j]) == self.chunks@[j].fields(),
            decreases self.chunks@.len() - i,
        {
            let c = self.chunks[i];
            refs.push((c.hash, c.offset, c.size, c.original_size));
            i += 1;
        }
        let w = (self.version, self.file_size, self.chunk_size_avg, refs);
        assert(wire_fields(w) =~= self.fields()) by {
            assert(wire_fields(w).3 =~= refs_fields(self.chunks@));
        }
        match rmp_encode_manifest(&w) {
            Some(b) => Ok(b),
            None => Err(HfsError::ManifestEncode),
        }
    }

    /// Reads a manifest from its MessagePack encoding.
    pub fn deserialize(data: &[u8]) -> (res: Result<Manifest, HfsError>)
        ensures
            res is Ok <==> msgpack_manifest_decode(data@) is Some,
            res matches Ok(m) ==> msgpack_manifest_decode(data@) == Some(m.fields()),
            res matches Err(e) ==> e == HfsError::ManifestDecode,
    {
        match rmp_decode_manifest(data) {
            None => Err(HfsError::ManifestDecode),
            Some(w) => {
                let (version, file_size, chunk_size_avg, refs) = w;
                let mut chunks: Vec<ChunkRef> = Vec::new();
                let mut i: usize = 0;
                while i < refs.len()
                    invariant
                        i <= refs@.len(),
                        chunks@.len() == i,
                        forall|j: int| 0 <= j < i ==> (#[trigger] chunks@[j]).fields() == wire_ref_fields(refs@[j]),
                    decreases refs@.len() - i,
                {
                    let r = refs[i];
                    chunks.push(ChunkRef { hash: r.0, offset: r.1, size: r.2, original_size: r.3 });
                    i += 1;
                }
                let m = Manifest { version, file_size, chunk_size_avg, chunks };
                assert(m.fields() =~= wire_fields(w)) by {
                    assert(refs_fields(m.chunks@) =~= wire_fields(w).3);
                }
                Ok(m)
            },
        }
    }
}

} // verus!
