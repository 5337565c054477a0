use vstd::prelude::*;

use crate::cas::index::HashList;
use crate::cas::store::{hash_views, Store, StoreView};
use crate::error::HfsError;
use crate::manifest::{msgpack_manifest_decode, Manifest, ManifestFields};

verus! {

/// A decoded manifest names the chunk hash `h`.
pub open spec fn names_hash(m: Option<ManifestFields>, h: Seq<u8>) -> bool {
    match m {
        Some(mm) => exists|j: int| 0 <= j < mm.3.len() && #[trigger] mm.3[j].0 == h,
        None => false,
    }
}

/// The chunk hashes named by some readable manifest of the store.
pub open spec fn referenced(s: StoreView) -> Set<Seq<u8>> {
    Set::new(
        |h: Seq<u8>|
            exists|mh: Seq<u8>|
                #![trigger s.manifests[mh]]
                s.manifests.contains_key(mh) && match msgpack_manifest_decode(s.manifests[mh]) {
                    Some(m) => exists|i: int| 0 <= i < m.3.len() && #[trigger] m.3[i].0 == h,
                    None => false,
                },
    )
}

/// Objects that no readable manifest names.
pub open spec fn orphans(s: StoreView) -> Set<Seq<u8>> {
    s.objects.dom().difference(referenced(s))
}

/// A manifest whose chunk `t` has hash `h` names `h`.
proof fn lemma_names_hash_witness(mm: ManifestFields, t: int, h: Seq<u8>)
    requires
        0 <= t < mm.3.len(),
        mm.3[t].0 == h,
    ensures
        names_hash(Some(mm), h),
{
    let d = Some(mm);
    assert((d->0).3[t].0 == h);
}

/// The hashes of the objects that no readable manifest references, each
/// once. Unreadable manifests are skipped.
pub fn find_orphans(store: &Store) -> (res: Result<Vec<[u8; 32]>, HfsError>)
    ensures
        res matches Ok(v) && hash_views(v@).no_duplicates() && hash_views(v@).to_set() == orphans(store@),
{
    let manifests = match store.list_manifests() {
        Ok(m) => m,
        Err(e) => return Err(e),
    };
    let ghost s = store@;
    let ghost mv = hash_views(manifests@);
    let mut refs = HashList::new();
    let mut i: usize = 0;
    while i < manifests.len()
        invariant
            i <= manifests@.len(),
            s == store@,
            mv == hash_views(manifests@),
            mv.no_duplicates(),
            mv.to_set() == s.manifests.dom(),
            forall|h: Seq<u8>| #[trigger] refs@.contains(h) <==> exists|k: int|
                #![trigger mv[k]]
                0 <= k < i && names_hash(msgpack_manifest_decode(s.manifests[mv[k]]), h),
        decreases manifests@.len() - i,
    {
        assert(mv[i as int] == manifests@[i as int]@);
        assert(s.manifests.dom().contains(mv[i as int])) by {
            assert(mv.to_set().contains(mv[i as int]));
        }
        let bytes = match store.get_manifest(&manifests[i]) {
            Ok(b) => b,
            Err(e) => {
                assert(false);
                return Err(e);
            },
        };
        match Manifest::deserialize(bytes.as_slice()) {
            Ok(m) => {
                let ghost before = refs@;
                let ghost mf = m.fields().3;
                let mut j: usize = 0;
                while j < m.chunks.len()
                    invariant
                        j <= m.chunks@.len(),
                        mf == m.fields().3,
                        mf.len() == m.chunks@.len(),
                        forall|h: Seq<u8>| #[trigger] refs@.contains(h) <==> (before.contains(h)
                            || exists|t: int| 0 <= t < j && #[trigger] mf[t].0 == h),
                    decreases m.chunks@.len() - j,
                {
                    let h = m.chunks[j].hash;
                    assert(mf[j as int].0 == h@);
                    let ghost prev = refs@;
                    refs.push(h);
                    assert forall|x: Seq<u8>| #[trigger] refs@.contains(x) <==> (before.contains(x)
                        || exists|t: int| 0 <= t < j + 1 && #[trigger] mf[t].0 == x) by {
                        if refs@.contains(x) {
                            let q = choose|q: int| 0 <= q < refs@.len() && refs@[q] == x;
                            if q < prev.len() {
                                assert(prev[q] == x);
                                assert(prev.contains(x));
                            }
                        }
                        if exists|t: int| 0 <= t < j + 1 && #[trigger] mf[t].0 == x {
                            let t = choose|t: int| 0 <= t < j + 1 && #[trigger] mf[t].0 == x;
                            if t == j {
                                assert(refs@[prev.len() as int] == x);
                            } else {
                                assert(prev.contains(x));
                                let q = choose|q: int| 0 <= q < prev.len() && prev[q] == x;
                                assert(refs@[q] == x);
                            }
                        }
                        if before.contains(x) {
                            assert(prev.contains(x));
                            let q = choose|q: int| 0 <= q < prev.len() && prev[q] == x;
                            assert(refs@[q] == x);
                        }
                    }
                    j += 1;
                }
                assert forall|h: Seq<u8>| #[trigger] refs@.contains(h) <==> exists|k: int|
                    #![trigger mv[k]]
                    0 <= k < i + 1 && names_hash(msgpack_manifest_decode(s.manifests[mv[k]]), h) by {
                    let d = msgpack_manifest_decode(s.manifests[mv[i as int]]);
                    assert(d == Some(m.fields()));
                    if refs@.contains(h) {
                        if before.contains(h) {
                            let k = choose|k: int|
                                #![trigger mv[k]]
                                0 <= k < i && names_hash(msgpack_manifest_decode(s.manifests[mv[k]]), h);
                            assert(0 <= k < i + 1);
                        } else {
                            let t = choose|t: int| 0 <= t < m.chunks@.len() && #[trigger] mf[t].0 == h;
                            let mm = m.fields();
                            assert(mm.3[t].0 == h);
                            assert(0 <= t < mm.3.len());
                            assert(d == Some(mm));
                            lemma_names_hash_witness(mm, t, h);
                        }
                    }
                    if exists|k: int|
                        #![trigger mv[k]]
                        0 <= k < i + 1 && names_hash(msgpack_manifest_decode(s.manifests[mv[k]]), h) {
                        let k = choose|k: int|
                            #![trigger mv[k]]
                            0 <= k < i + 1 && names_hash(msgpack_manifest_decode(s.manifests[mv[k]]), h);
                        if k < i {
                            assert(before.contains(h));
                        } else {
                            assert(names_hash(d, h));
                            let jj = choose|jj: int| 0 <= jj < m.fields().3.len() && #[trigger] m.fields().3[jj].0 == h;
                            assert(mf[jj].0 == h);
                        }
                    }
                }
            },
            Err(_) => {
                assert(msgpack_manifest_decode(s.manifests[mv[i as int]]) is None);
                assert forall|h: Seq<u8>| #[trigger] refs@.contains(h) <==> exists|k: int|
                    #![trigger mv[k]]
                    0 <= k < i + 1 && names_hash(msgpack_manifest_decode(s.manifests[mv[k]]), h) by {}
            },
        }
        i += 1;
    }
    proof {
        assert forall|h: Seq<u8>| #[trigger] refs@.contains(h) <==> referenced(s).contains(h) by {
            if refs@.contains(h) {
                let k = choose|k: int| #![trigger mv[k]] 0 <= k < manifests@.len() && names_hash(msgpack_manifest_decode(s.manifests[mv[k]]), h);
                assert(mv.to_set().contains(mv[k]));
                assert(s.manifests.contains_key(mv[k]));
            }
            if referenced(s).contains(h) {
                let mh = choose|mh: Seq<u8>| #![trigger s.manifests[mh]] s.manifests.contains_key(mh) && match msgpack_manifest_decode(s.manifests[mh]) {
                    Some(m) => exists|i: int| 0 <= i < m.3.len() && #[trigger] m.3[i].0 == h,
                    None => false,
                };
                assert(mv.to_set().contains(mh));
                let k = choose|k: int| 0 <= k < mv.len() && mv[k] == mh;
                assert(mv[k] == mh);
            }
        }
    }
    let objects = match store.list_objects() {
        Ok(o) => o,
        Err(e) => return Err(e),
    };
    let ghost ov = hash_views(objects@);
    let mut orphaned: Vec<[u8; 32]> = Vec::new();
    let mut k: usize = 0;
    while k < objects.len()
        invariant
            k <= objects@.len(),
            s == store@,
            ov == hash_views(objects@),
            ov.no_duplicates(),
            ov.to_set() == s.objects.dom(),
            forall|h: Seq<u8>| #[trigger] refs@.contains(h) <==> referenced(s).contains(h),
            hash_views(orphaned@).no_duplicates(),
            forall|h: Seq<u8>| #[trigger] hash_views(orphaned@).contains(h) <==> (ov.take(k as int).contains(h)
                && !referenced(s).contains(h)),
        decreases objects@.len() - k,
    {
        let ghost prev = hash_views(orphaned@);
        let ghost x = objects@[k as int]@;
        assert(ov[k as int] == x);
        assert(ov.take(k as int + 1) =~= ov.take(k as int).push(x));
        assert(!ov.take(k as int).contains(x)) by {
            if ov.take(k as int).contains(x) {
                let q = choose|q: int| 0 <= q < k && ov.take(k as int)[q] == x;
                assert(ov[q] == ov[k as int]);
            }
        }
        if !refs.contains(&objects[k]) {
            orphaned.push(objects[k]);
            assert(hash_views(orphaned@) =~= prev.push(x));
            assert(!prev.contains(x));
            assert forall|a: int, b: int| 0 <= a < b < hash_views(orphaned@).len() implies hash_views(orphaned@)[a]
                != hash_views(orphaned@)[b] by {
                if b == prev.len() {
                    assert(hash_views(orphaned@)[a] == prev[a]);
                    assert(prev.contains(prev[a]));
                } else {
                    assert(prev.no_duplicates());
                    assert(hash_views(orphaned@)[a] == prev[a]);
                    assert(hash_views(orphaned@)[b] == prev[b]);
                }
            }
            assert forall|h: Seq<u8>| #[trigger] hash_views(orphaned@).contains(h) <==> (ov.take(k as int + 1).contains(h)
                && !referenced(s).contains(h)) by {
                if hash_views(orphaned@).contains(h) && h != x {
                    let q = choose|q: int| 0 <= q < hash_views(orphaned@).len() && hash_views(orphaned@)[q] == h;
                    assert(prev[q] == h);
                    assert(prev.contains(h));
                }
                if ov.take(k as int + 1).contains(h) && h != x {
                    let q = choose|q: int| #![trigger ov.take(k as int + 1)[q]] 0 <= q < k + 1 && ov.take(k as int + 1)[q] == h;
                    assert(ov.take(k as int)[q] == h);
                    assert(ov.take(k as int).contains(h));
                }
                if prev.contains(h) {
                    let q = choose|q: int| 0 <= q < prev.len() && prev[q] == h;
                    assert(hash_views(orphaned@)[q] == h);
                }
                if h == x {
                    assert(hash_views(orphaned@)[prev.len() as int] == x);
                    assert(ov.take(k as int + 1)[k as int] == x);
                }
            }
        } else {
            assert forall|h: Seq<u8>| #[trigger] hash_views(orphaned@).contains(h) <==> (ov.take(k as int + 1).contains(h)
                && !referenced(s).contains(h)) by {
                if ov.take(k as int + 1).contains(h) && h != x {
                    let q = choose|q: int| #![trigger ov.take(k as int + 1)[q]] 0 <= q < k + 1 && ov.take(k as int + 1)[q] == h;
                    assert(ov.take(k as int)[q] == h);
                    assert(ov.take(k as int).contains(h));
                }
            }
        }
        k += 1;
    }
    proof {
        assert(ov.take(objects@.len() as int) =~= ov);
        assert forall|h: Seq<u8>| hash_views(orphaned@).to_set().contains(h) <==> orphans(s).contains(h) by {
            if hash_views(orphaned@).contains(h) {
                assert(ov.to_set().contains(h));
            }
            if orphans(s).contains(h) {
                assert(ov.to_set().contains(h));
                assert(ov.contains(h));
            }
        }
        assert(hash_views(orphaned@).to_set() =~= orphans(s));
    }
    Ok(orphaned)
}

} // verus!
