use vstd::prelude::*;
use vstd::utf8::{decode_utf8, valid_utf8};

use crate::cas::store::{Store, StoreView};
use crate::cas::{assemble, spec_materialize};
use crate::error::HfsError;
use crate::manifest::{msgpack_manifest_decode, Manifest, RefFields};
use crate::pointer::{spec_decode, spec_is_pointer, Pointer};
use crate::text::{chars_of, utf8_string};

verus! {

/// The manifest hash a file names, when its content is a well-formed pointer.
pub open spec fn spec_pointer_oid(data: Seq<u8>) -> Option<Seq<u8>> {
    if spec_is_pointer(data) && valid_utf8(data) {
        match spec_decode(decode_utf8(data)) {
            Ok((oid, _, _)) => Some(oid),
            Err(_) => None,
        }
    } else {
        None
    }
}

/// The manifest hash of a pointer file's content; `None` for anything else.
pub fn pointer_oid(data: &[u8]) -> (res: Option<[u8; 32]>)
    ensures
        match res {
            Some(h) => spec_pointer_oid(data@) == Some(h@),
            None => spec_pointer_oid(data@) is None,
        },
{
    if !Pointer::is_pointer(data) {
        return None;
    }
    let text = match utf8_string(vstd::slice::slice_to_vec(data)) {
        Some(t) => t,
        None => return None,
    };
    match Pointer::decode(text.as_str()) {
        Ok(p) => Some(p.oid),
        Err(_) => None,
    }
}

/// Whether a directory entry is hidden and skipped when looking for pointer
/// files: its name starts with `.`.
pub fn is_hidden_name(name: &str) -> (res: bool)
    ensures
        res == (name@.len() > 0 && name@[0] == '.'),
{
    let v = chars_of(name);
    v.len() > 0 && v[0] == '.'
}

/// Every referenced chunk is present.
pub open spec fn all_present(objects: Map<Seq<u8>, Seq<u8>>, refs: Seq<RefFields>) -> bool {
    forall|i: int| 0 <= i < refs.len() ==> objects.contains_key(#[trigger] refs[i].0)
}

/// Whether every chunk a manifest names is in the store.
pub open spec fn spec_manifest_ready(s: StoreView, mh: Seq<u8>) -> Result<bool, HfsError> {
    if !s.manifests.contains_key(mh) {
        Err(HfsError::MissingManifest)
    } else {
        match msgpack_manifest_decode(s.manifests[mh]) {
            None => Err(HfsError::ManifestDecode),
            Some(m) => Ok(all_present(s.objects, m.3)),
        }
    }
}

/// A reassembly whose chunks are all present never fails for a missing object.
proof fn lemma_assemble_not_missing(objects: Map<Seq<u8>, Seq<u8>>, refs: Seq<RefFields>)
    requires
        forall|i: int| 0 <= i < refs.len() ==> objects.contains_key(#[trigger] refs[i].0),
    ensures
        assemble(objects, refs) != Err::<Seq<u8>, HfsError>(HfsError::MissingObject),
    decreases refs.len(),
{
    if refs.len() > 0 {
        let p = refs.drop_last();
        assert forall|i: int| 0 <= i < p.len() implies objects.contains_key(#[trigger] p[i].0) by {
            assert(p[i] == refs[i]);
        }
        lemma_assemble_not_missing(objects, p);
        assert(objects.contains_key(refs[refs.len() - 1].0));
    }
}

/// A file is reported ready exactly when its manifest is readable and every
/// chunk it names is in the store, and not ready exactly when some chunk it
/// names is missing; a file reported ready never fails to materialize for a
/// missing object.
pub proof fn lemma_manifest_ready(s: StoreView, mh: Seq<u8>)
    ensures
        spec_manifest_ready(s, mh) == Ok::<bool, HfsError>(true) <==> s.manifests.contains_key(mh) && match msgpack_manifest_decode(
            s.manifests[mh],
        ) {
            Some(m) => forall|i: int| 0 <= i < m.3.len() ==> s.objects.contains_key(#[trigger] m.3[i].0),
            None => false,
        },
        spec_manifest_ready(s, mh) == Ok::<bool, HfsError>(false) <==> s.manifests.contains_key(mh) && match msgpack_manifest_decode(
            s.manifests[mh],
        ) {
            Some(m) => exists|i: int| 0 <= i < m.3.len() && !s.objects.contains_key(#[trigger] m.3[i].0),
            None => false,
        },
        spec_manifest_ready(s, mh) == Ok::<bool, HfsError>(true) ==> spec_materialize(s, mh) != Err::<
            Seq<u8>,
            HfsError,
        >(HfsError::MissingObject),
{
    if s.manifests.contains_key(mh) {
        if let Some(m) = msgpack_manifest_decode(s.manifests[mh]) {
            if forall|i: int| 0 <= i < m.3.len() ==> s.objects.contains_key(#[trigger] m.3[i].0) {
                lemma_assemble_not_missing(s.objects, m.3);
            }
        }
    }
}

/// Whether the file with manifest `mh` can be materialized from the store
/// without fetching: every chunk it names is present.
pub fn manifest_ready(store: &Store, mh: &[u8; 32]) -> (res: Result<bool, HfsError>)
    ensures
        match res {
            Ok(b) => spec_manifest_ready(store@, mh@) == Ok::<bool, HfsError>(b),
            Err(e) => spec_manifest_ready(store@, mh@) == Err::<bool, HfsError>(e),
        },
{
    let bytes = match store.get_manifest(mh) {
        Ok(b) => b,
        Err(e) => return Err(e),
    };
    let manifest = match Manifest::deserialize(bytes.as_slice()) {
        Ok(m) => m,
        Err(e) => return Err(e),
    };
    let ghost refs = manifest.fields().3;
    assert(bytes@ == store@.manifests[mh@]);
    assert(msgpack_manifest_decode(store@.manifests[mh@]) == Some(manifest.fields()));
    assert(spec_manifest_ready(store@, mh@) == Ok::<bool, HfsError>(all_present(store@.objects, refs)));
    let mut i: usize = 0;
    while i < manifest.chunks.len()
        invariant
            i <= manifest.chunks@.len(),
            refs == manifest.fields().3,
            refs.len() == manifest.chunks@.len(),
            spec_manifest_ready(store@, mh@) == Ok::<bool, HfsError>(all_present(store@.objects, refs)),
            forall|j: int| 0 <= j < i ==> store@.objects.contains_key(#[trigger] refs[j].0),
        decreases manifest.chunks@.len() - i,
    {
        if !store.has_object(&manifest.chunks[i].hash) {
            assert(!store@.objects.contains_key(refs[i as int].0));
            return Ok(false);
        }
        i += 1;
    }
    Ok(true)
}

} // verus!
