use vstd::prelude::*;

use crate::cas::index::HashList;
use crate::cas::store::{hash_views, put_if_absent, Store, StoreView};
use crate::cas::{assemble, spec_materialize};
use crate::error::HfsError;
use crate::manifest::{msgpack_manifest_decode, Manifest, RefFields};

verus! {

/// How many transfers run at once unless set otherwise.
pub const DEFAULT_CONCURRENCY: usize = 32;

/// The chunk hashes that a list of references names, in order.
pub open spec fn ref_hashes(refs: Seq<RefFields>) -> Seq<Seq<u8>> {
    refs.map_values(|r: RefFields| r.0)
}

/// The chunk hashes of the given manifests, manifest by manifest, in order;
/// the first manifest that is missing or unreadable is the error.
pub open spec fn manifests_chunk_hashes(s: StoreView, mhs: Seq<Seq<u8>>) -> Result<Seq<Seq<u8>>, HfsError>
    decreases mhs.len(),
{
    if mhs.len() == 0 {
        Ok(Seq::empty())
    } else {
        match manifests_chunk_hashes(s, mhs.drop_last()) {
            Err(e) => Err(e),
            Ok(acc) => {
                let mh = mhs.last();
                if !s.manifests.contains_key(mh) {
                    Err(HfsError::MissingManifest)
                } else {
                    match msgpack_manifest_decode(s.manifests[mh]) {
                        None => Err(HfsError::ManifestDecode),
                        Some(m) => Ok(acc + ref_hashes(m.3)),
                    }
                }
            },
        }
    }
}

/// `s` without repeats, each element where it first occurs.
pub open spec fn dedup(s: Seq<Seq<u8>>) -> Seq<Seq<u8>>
    decreases s.len(),
{
    if s.len() == 0 {
        Seq::empty()
    } else {
        let d = dedup(s.drop_last());
        if d.contains(s.last()) {
            d
        } else {
            d.push(s.last())
        }
    }
}

/// The elements of `s` whose flag in `keep` is set, in order.
pub open spec fn select(s: Seq<Seq<u8>>, keep: Seq<bool>) -> Seq<Seq<u8>>
    decreases s.len(),
{
    if s.len() == 0 {
        Seq::empty()
    } else if keep[s.len() - 1] {
        select(s.drop_last(), keep).push(s.last())
    } else {
        select(s.drop_last(), keep)
    }
}

/// How many flags among the first `n` are set.
pub open spec fn count_set(keep: Seq<bool>, n: int) -> nat
    decreases n,
{
    if n <= 0 {
        0
    } else {
        count_set(keep, n - 1) + if keep[n - 1] {
            1nat
        } else {
            0nat
        }
    }
}

/// The flags of which hashes are missing from a map.
pub open spec fn missing_flags(hs: Seq<Seq<u8>>, m: Map<Seq<u8>, Seq<u8>>) -> Seq<bool> {
    hs.map_values(|h: Seq<u8>| !m.contains_key(h))
}

/// The negated flags.
pub open spec fn negate(b: Seq<bool>) -> Seq<bool> {
    b.map_values(|x: bool| !x)
}

/// For each hash, whether the map holds it (what `has_chunk` answers).
pub open spec fn presence(hs: Seq<Seq<u8>>, m: Map<Seq<u8>, Seq<u8>>) -> Seq<bool> {
    hs.map_values(|h: Seq<u8>| m.contains_key(h))
}

/// Selecting with flags that are all unset selects nothing.
proof fn lemma_select_none(s: Seq<Seq<u8>>, keep: Seq<bool>)
    requires
        forall|i: int| 0 <= i < s.len() ==> !keep[i],
    ensures
        select(s, keep) == Seq::<Seq<u8>>::empty(),
    decreases s.len(),
{
    if s.len() > 0 {
        lemma_select_none(s.drop_last(), keep);
    }
}

/// Selecting with flags that are all set selects everything.
proof fn lemma_select_all(s: Seq<Seq<u8>>, keep: Seq<bool>)
    requires
        forall|i: int| 0 <= i < s.len() ==> keep[i],
    ensures
        select(s, keep) == s,
    decreases s.len(),
{
    if s.len() > 0 {
        lemma_select_all(s.drop_last(), keep);
        assert(s.drop_last().push(s.last()) =~= s);
    }
}

/// An element whose flag is set is selected.
proof fn lemma_select_keeps(s: Seq<Seq<u8>>, keep: Seq<bool>)
    ensures
        forall|i: int| 0 <= i < s.len() && #[trigger] keep[i] ==> select(s, keep).contains(s[i]),
    decreases s.len(),
{
    if s.len() > 0 {
        let p = s.drop_last();
        lemma_select_keeps(p, keep);
        assert forall|i: int| 0 <= i < s.len() && #[trigger] keep[i] implies select(s, keep).contains(s[i]) by {
            if i < s.len() - 1 {
                assert(p[i] == s[i]);
                let q = choose|q: int| 0 <= q < select(p, keep).len() && select(p, keep)[q] == p[i];
                if keep[s.len() - 1] {
                    assert(select(s, keep)[q] == s[i]);
                } else {
                    assert(select(s, keep)[q] == s[i]);
                }
            } else {
                assert(select(s, keep)[select(p, keep).len() as int] == s[i]);
            }
        }
    }
}

/// The number of set flags among the first `n` when all or none are set.
proof fn lemma_count_set(b: Seq<bool>, n: int)
    requires
        0 <= n <= b.len(),
    ensures
        (forall|i: int| 0 <= i < n ==> b[i]) ==> count_set(b, n) == n,
        (forall|i: int| 0 <= i < n ==> !b[i]) ==> count_set(b, n) == 0,
    decreases n,
{
    if n > 0 {
        lemma_count_set(b, n - 1);
    }
}

/// Pushing twice: a first push to a remote that holds none of the chunks
/// sends every chunk and skips none; once the remote holds what it held
/// before and what the push sent, a second push sends nothing and skips
/// every chunk. (The plan is that of `plan_transfer` on the remote's
/// answers to `has_chunk`.)
pub proof fn lemma_push_twice(hs: Seq<Seq<u8>>, remote: Map<Seq<u8>, Seq<u8>>, remote2: Map<Seq<u8>, Seq<u8>>)
    requires
        forall|k: Seq<u8>| #[trigger] remote.contains_key(k) ==> remote2.contains_key(k),
        forall|h: Seq<u8>| select(hs, negate(presence(hs, remote))).contains(h) ==> #[trigger] remote2.contains_key(h),
    ensures
        (forall|i: int| 0 <= i < hs.len() ==> !remote.contains_key(#[trigger] hs[i])) ==> {
            &&& select(hs, negate(presence(hs, remote))) == hs
            &&& count_set(presence(hs, remote), hs.len() as int) == 0
        },
        select(hs, negate(presence(hs, remote2))) == Seq::<Seq<u8>>::empty(),
        count_set(presence(hs, remote2), hs.len() as int) == hs.len(),
{
    let first = negate(presence(hs, remote));
    if forall|i: int| 0 <= i < hs.len() ==> !remote.contains_key(#[trigger] hs[i]) {
        lemma_select_all(hs, first);
        lemma_count_set(presence(hs, remote), hs.len() as int);
    }
    lemma_select_keeps(hs, first);
    assert forall|i: int| 0 <= i < hs.len() implies #[trigger] remote2.contains_key(hs[i]) by {
        if !remote.contains_key(hs[i]) {
            assert(first[i]);
            assert(select(hs, first).contains(hs[i]));
        }
    }
    lemma_select_none(hs, negate(presence(hs, remote2)));
    lemma_count_set(presence(hs, remote2), hs.len() as int);
}

/// The chunk hashes of the manifest stored under `oid`, in order (none when
/// it is missing or unreadable).
pub open spec fn manifest_chunks(s: StoreView, oid: Seq<u8>) -> Seq<Seq<u8>> {
    match msgpack_manifest_decode(s.manifests[oid]) {
        Some(m) => ref_hashes(m.3),
        None => Seq::empty(),
    }
}

/// The objects after putting, for each hash of `hs` in turn, the bytes the
/// remote holds under it (what a pull stores).
pub open spec fn put_all(m: Map<Seq<u8>, Seq<u8>>, hs: Seq<Seq<u8>>, remote: Map<Seq<u8>, Seq<u8>>) -> Map<
    Seq<u8>,
    Seq<u8>,
>
    decreases hs.len(),
{
    if hs.len() == 0 {
        m
    } else {
        put_if_absent(put_all(m, hs.drop_last(), remote), hs.last(), remote[hs.last()])
    }
}

/// What putting from the remote keeps, adds and writes.
proof fn lemma_put_all(m: Map<Seq<u8>, Seq<u8>>, hs: Seq<Seq<u8>>, remote: Map<Seq<u8>, Seq<u8>>)
    ensures
        forall|k: Seq<u8>| #[trigger] m.contains_key(k) ==> put_all(m, hs, remote).contains_key(k) && put_all(
            m,
            hs,
            remote,
        )[k] == m[k],
        forall|k: Seq<u8>| #[trigger] put_all(m, hs, remote).contains_key(k) && !m.contains_key(k) ==> put_all(
            m,
            hs,
            remote,
        )[k] == remote[k],
        forall|i: int| 0 <= i < hs.len() ==> put_all(m, hs, remote).contains_key(#[trigger] hs[i]),
    decreases hs.len(),
{
    if hs.len() > 0 {
        let p = hs.drop_last();
        lemma_put_all(m, p, remote);
        let prev = put_all(m, p, remote);
        assert forall|k: Seq<u8>| #[trigger] put_all(m, hs, remote).contains_key(k) && !m.contains_key(k) implies put_all(
            m,
            hs,
            remote,
        )[k] == remote[k] by {
            if k != hs.last() || prev.contains_key(k) {
                assert(prev.contains_key(k));
            }
        }
        assert forall|i: int| 0 <= i < hs.len() implies put_all(m, hs, remote).contains_key(#[trigger] hs[i]) by {
            if i < hs.len() - 1 {
                assert(p[i] == hs[i]);
            }
        }
    }
}

/// `dedup(s)` holds each element of `s` exactly once and nothing else.
pub proof fn lemma_dedup(s: Seq<Seq<u8>>)
    ensures
        dedup(s).no_duplicates(),
        forall|x: Seq<u8>| dedup(s).contains(x) <==> s.contains(x),
    decreases s.len(),
{
    if s.len() > 0 {
        let p = s.drop_last();
        lemma_dedup(p);
        let d = dedup(p);
        assert(s.last() == s[s.len() - 1]);
        assert(dedup(s) == if d.contains(s.last()) {
            d
        } else {
            d.push(s.last())
        });
        assert forall|x: Seq<u8>| dedup(s).contains(x) <==> s.contains(x) by {
            if s.contains(x) {
                let i = choose|i: int| 0 <= i < s.len() && s[i] == x;
                if i < s.len() - 1 {
                    assert(p[i] == x);
                    assert(p.contains(x));
                    let q = choose|q: int| 0 <= q < d.len() && d[q] == x;
                    assert(dedup(s)[q] == x);
                } else if !d.contains(x) {
                    assert(dedup(s)[d.len() as int] == x);
                }
            }
            if dedup(s).contains(x) {
                let q = choose|q: int| 0 <= q < dedup(s).len() && dedup(s)[q] == x;
                if q < d.len() {
                    assert(d[q] == x);
                    assert(d.contains(x));
                    assert(p.contains(x));
                    let i = choose|i: int| 0 <= i < p.len() && p[i] == x;
                    assert(s[i] == x);
                } else {
                    assert(s[s.len() - 1] == x);
                }
            }
        }
        if !d.contains(s.last()) {
            assert forall|a: int, b: int| 0 <= a < dedup(s).len() && 0 <= b < dedup(s).len() && a != b implies dedup(
                s,
            )[a] != dedup(s)[b] by {
                if a < d.len() && b < d.len() {
                    assert(dedup(s)[a] == d[a] && dedup(s)[b] == d[b]);
                } else if a < d.len() {
                    assert(dedup(s)[a] == d[a]);
                    assert(d.contains(d[a]));
                } else {
                    assert(dedup(s)[b] == d[b]);
                    assert(d.contains(d[b]));
                }
            }
        }
    }
}

/// Whether the manifest stored under `mh` is readable and names the chunk `h`.
pub open spec fn names_chunk(s: StoreView, mh: Seq<u8>, h: Seq<u8>) -> bool {
    s.manifests.contains_key(mh) && match msgpack_manifest_decode(s.manifests[mh]) {
        Some(m) => exists|j: int| 0 <= j < m.3.len() && #[trigger] m.3[j].0 == h,
        None => false,
    }
}

/// The chunk hashes of the given manifests are found exactly when every
/// manifest is stored and readable, and they are then exactly the hashes
/// that some of the manifests name.
pub proof fn lemma_chunk_hashes_named(s: StoreView, mhs: Seq<Seq<u8>>)
    ensures
        manifests_chunk_hashes(s, mhs) is Ok <==> forall|k: int|
            0 <= k < mhs.len() ==> s.manifests.contains_key(#[trigger] mhs[k]) && msgpack_manifest_decode(
                s.manifests[mhs[k]],
            ) is Some,
        manifests_chunk_hashes(s, mhs) matches Ok(all) ==> forall|h: Seq<u8>|
            #[trigger] all.contains(h) <==> exists|k: int| 0 <= k < mhs.len() && #[trigger] names_chunk(s, mhs[k], h),
    decreases mhs.len(),
{
    if mhs.len() > 0 {
        let p = mhs.drop_last();
        lemma_chunk_hashes_named(s, p);
        let mh = mhs.last();
        assert(mh == mhs[mhs.len() - 1]);
        assert forall|k: int| 0 <= k < p.len() implies p[k] == #[trigger] mhs[k] by {}
        if manifests_chunk_hashes(s, mhs) is Ok {
            assert forall|k: int| 0 <= k < mhs.len() implies s.manifests.contains_key(#[trigger] mhs[k])
                && msgpack_manifest_decode(s.manifests[mhs[k]]) is Some by {
                if k < p.len() {
                    assert(p[k] == mhs[k]);
                }
            }
            let acc = manifests_chunk_hashes(s, p)->Ok_0;
            let m = msgpack_manifest_decode(s.manifests[mh])->0;
            let r = ref_hashes(m.3);
            assert forall|h: Seq<u8>| (acc + r).contains(h) <==> exists|k: int| 0 <= k < mhs.len() && #[trigger] names_chunk(
                s,
                mhs[k],
                h,
            ) by {
                if (acc + r).contains(h) {
                    let q = choose|q: int| 0 <= q < (acc + r).len() && (acc + r)[q] == h;
                    if q < acc.len() {
                        assert(acc[q] == h);
                        assert(acc.contains(h));
                        let k = choose|k: int| 0 <= k < p.len() && #[trigger] names_chunk(s, p[k], h);
                        assert(p[k] == mhs[k]);
                        assert(names_chunk(s, mhs[k], h));
                    } else {
                        let j = q - acc.len();
                        assert(r[j] == m.3[j].0);
                        assert(names_chunk(s, mhs[mhs.len() - 1], h));
                    }
                }
                if exists|k: int| 0 <= k < mhs.len() && #[trigger] names_chunk(s, mhs[k], h) {
                    let k = choose|k: int| 0 <= k < mhs.len() && #[trigger] names_chunk(s, mhs[k], h);
                    if k < p.len() {
                        assert(p[k] == mhs[k]);
                        assert(names_chunk(s, p[k], h));
                        assert(acc.contains(h));
                        let q = choose|q: int| 0 <= q < acc.len() && acc[q] == h;
                        assert((acc + r)[q] == h);
                    } else {
                        let mm = msgpack_manifest_decode(s.manifests[mhs[k]])->0;
                        assert(mm == m);
                        let j = choose|j: int| 0 <= j < mm.3.len() && #[trigger] mm.3[j].0 == h;
                        assert((acc + r)[acc.len() + j] == r[j]);
                    }
                }
            }
        } else {
            if manifests_chunk_hashes(s, p) is Ok {
                assert(!(s.manifests.contains_key(mhs[mhs.len() - 1]) && msgpack_manifest_decode(
                    s.manifests[mhs[mhs.len() - 1]],
                ) is Some));
            } else {
                let k = choose|k: int| 0 <= k < p.len() && !(s.manifests.contains_key(#[trigger] p[k])
                    && msgpack_manifest_decode(s.manifests[p[k]]) is Some);
                assert(p[k] == mhs[k]);
            }
        }
    }
}

/// The hashes found for the given manifests are those that some of them name.
proof fn lemma_chunk_hashes_found(s: StoreView, mhs: Seq<Seq<u8>>, all: Seq<Seq<u8>>)
    requires
        manifests_chunk_hashes(s, mhs) == Ok::<Seq<Seq<u8>>, HfsError>(all),
    ensures
        forall|h: Seq<u8>| #[trigger] all.contains(h) <==> exists|k: int| 0 <= k < mhs.len() && #[trigger] names_chunk(s, mhs[k], h),
{
    lemma_chunk_hashes_named(s, mhs);
    assert(manifests_chunk_hashes(s, mhs)->Ok_0 == all);
}

/// Every element of `s` stays in `dedup(s)`.
proof fn lemma_dedup_contains(s: Seq<Seq<u8>>)
    ensures
        forall|i: int| 0 <= i < s.len() ==> dedup(s).contains(#[trigger] s[i]),
    decreases s.len(),
{
    if s.len() > 0 {
        let p = s.drop_last();
        lemma_dedup_contains(p);
        assert forall|i: int| 0 <= i < s.len() implies dedup(s).contains(#[trigger] s[i]) by {
            if i < s.len() - 1 {
                assert(p[i] == s[i]);
                let q = choose|q: int| 0 <= q < dedup(p).len() && dedup(p)[q] == p[i];
                assert(dedup(s)[q] == s[i]);
            } else if !dedup(p).contains(s.last()) {
                assert(dedup(s)[dedup(p).len() as int] == s[i]);
            }
        }
    }
}

/// A reassembly that succeeds reads every referenced object.
proof fn lemma_assemble_present(m: Map<Seq<u8>, Seq<u8>>, refs: Seq<RefFields>)
    requires
        assemble(m, refs) is Ok,
    ensures
        forall|i: int| 0 <= i < refs.len() ==> m.contains_key(#[trigger] refs[i].0),
    decreases refs.len(),
{
    if refs.len() > 0 {
        let p = refs.drop_last();
        lemma_assemble_present(m, p);
        assert forall|i: int| 0 <= i < refs.len() implies m.contains_key(#[trigger] refs[i].0) by {
            if i < refs.len() - 1 {
                assert(p[i] == refs[i]);
            }
        }
    }
}

/// Reassembly reads only the referenced objects.
proof fn lemma_assemble_same(m: Map<Seq<u8>, Seq<u8>>, m2: Map<Seq<u8>, Seq<u8>>, refs: Seq<RefFields>)
    requires
        forall|i: int| 0 <= i < refs.len() ==> m2.contains_key(#[trigger] refs[i].0) && m.contains_key(refs[i].0)
            && m2[refs[i].0] == m[refs[i].0],
    ensures
        assemble(m2, refs) == assemble(m, refs),
    decreases refs.len(),
{
    if refs.len() > 0 {
        let p = refs.drop_last();
        assert forall|i: int| 0 <= i < p.len() implies m2.contains_key(#[trigger] p[i].0) && m.contains_key(p[i].0)
            && m2[p[i].0] == m[p[i].0] by {
            assert(p[i] == refs[i]);
        }
        lemma_assemble_same(m, m2, p);
        assert(refs.last() == refs[refs.len() - 1]);
    }
}

/// Pull after push gives the file back: a store that holds a file's
/// manifest (the same bytes as the store it was pushed from), and no object
/// of its that disagrees, pulls the chunks it lacks (those that
/// `collect_chunk_hashes` and `missing_objects` name) from a remote holding
/// what the push sent; the file then materializes as it did where it was
/// pushed from.
pub proof fn lemma_pull_after_push(a: StoreView, b: StoreView, oid: Seq<u8>, remote: Map<Seq<u8>, Seq<u8>>)
    requires
        spec_materialize(a, oid) is Ok,
        b.manifests.contains_key(oid),
        b.manifests[oid] == a.manifests[oid],
        forall|h: Seq<u8>| #[trigger] manifest_chunks(a, oid).contains(h) ==> remote.contains_key(h) && remote[h] == a.objects[h],
        forall|h: Seq<u8>| manifest_chunks(a, oid).contains(h) && #[trigger] b.objects.contains_key(h) ==> b.objects[h] == a.objects[h],
    ensures
        spec_materialize(
            StoreView {
                root: b.root,
                objects: put_all(
                    b.objects,
                    select(
                        dedup(manifest_chunks(a, oid)),
                        missing_flags(dedup(manifest_chunks(a, oid)), b.objects),
                    ),
                    remote,
                ),
                manifests: b.manifests,
            },
            oid,
        ) == spec_materialize(a, oid),
{
    let m = msgpack_manifest_decode(a.manifests[oid])->0;
    let refs = m.3;
    let hs = manifest_chunks(a, oid);
    assert(hs == ref_hashes(refs));
    let wanted = dedup(hs);
    let keep = missing_flags(wanted, b.objects);
    let todo = select(wanted, keep);
    let objs = put_all(b.objects, todo, remote);
    lemma_assemble_present(a.objects, refs);
    lemma_put_all(b.objects, todo, remote);
    lemma_dedup_contains(hs);
    lemma_select_keeps(wanted, keep);
    assert forall|i: int| 0 <= i < refs.len() implies objs.contains_key(#[trigger] refs[i].0) && a.objects.contains_key(
        refs[i].0,
    ) && objs[refs[i].0] == a.objects[refs[i].0] by {
        let h = refs[i].0;
        assert(hs[i] == h);
        assert(hs.contains(h));
        if !b.objects.contains_key(h) {
            assert(wanted.contains(hs[i]));
            let j = choose|j: int| 0 <= j < wanted.len() && wanted[j] == h;
            assert(keep[j]);
            assert(todo.contains(wanted[j]));
            let q = choose|q: int| 0 <= q < todo.len() && todo[q] == h;
            assert(objs.contains_key(todo[q]));
        }
    }
    lemma_assemble_same(a.objects, objs, refs);
}

/// What to transfer and how many to skip/// What to transfer and how many to skip/// What to transfer and how many to skip: the hashes whose flag says they are
/// already present are skipped, the others transferred, in order.
pub fn plan_transfer(hashes: &Vec<[u8; 32]>, present: &Vec<bool>) -> (res: (Vec<[u8; 32]>, usize))
    requires
        hashes@.len() == present@.len(),
    ensures
        hash_views(res.0@) == select(hash_views(hashes@), negate(present@)),
        res.1 == count_set(present@, present@.len() as int),
{
    let mut todo: Vec<[u8; 32]> = Vec::new();
    let mut skipped: usize = 0;
    let mut i: usize = 0;
    let ghost hv = hash_views(hashes@);
    let ghost keep = negate(present@);
    while i < hashes.len()
        invariant
            i <= hashes@.len(),
            hashes@.len() == present@.len(),
            hv == hash_views(hashes@),
            keep == negate(present@),
            hash_views(todo@) == select(hv.take(i as int), keep),
            skipped == count_set(present@, i as int),
            skipped <= i,
        decreases hashes@.len() - i,
    {
        assert(hv.take(i as int + 1).drop_last() =~= hv.take(i as int));
        assert(hv.take(i as int + 1).last() == hashes@[i as int]@);
        if present[i] {
            skipped = skipped + 1;
        } else {
            let ghost before = hash_views(todo@);
            todo.push(hashes[i]);
            assert(hash_views(todo@) =~= before.push(hashes@[i as int]@));
        }
        i += 1;
    }
    assert(hv.take(hashes@.len() as int) =~= hv);
    (todo, skipped)
}

/// Moves chunks between the local store and a remote: decides what to send
/// or fetch; the caller performs the transfers, at most `concurrency` at once.
pub struct TransferEngine {
    store: Store,
    concurrency: usize,
}

impl TransferEngine {
    /// An engine over `store` with the default concurrency (32).
    pub fn new(store: Store) -> (res: TransferEngine)
        ensures
            res.store()@ == store@,
            res.concurrency() == DEFAULT_CONCURRENCY,
    {
        TransferEngine { store, concurrency: DEFAULT_CONCURRENCY }
    }

    /// The same engine running at most `n` transfers at once.
    pub fn with_concurrency(self, n: usize) -> (res: TransferEngine)
        ensures
            res.store()@ == self.store()@,
            res.concurrency() == n,
    {
        TransferEngine { store: self.store, concurrency: n }
    }

    /// The local store.
    pub closed spec fn store(&self) -> Store {
        self.store
    }

    /// How many transfers may run at once.
    pub closed spec fn concurrency(&self) -> usize {
        self.concurrency
    }

    /// The local store.
    pub fn local_store(&self) -> (res: &Store)
        ensures
            res@ == self.store()@,
    {
        &self.store
    }

    /// The local store, for writing what was fetched.
    pub fn local_store_mut(&mut self) -> (res: &mut Store)
        ensures
            *res == old(self).store(),
            final(self).store() == *final(res),
            final(self).concurrency() == old(self).concurrency(),
    {
        &mut self.store
    }

    /// How many transfers may run at once.
    pub fn concurrency_limit(&self) -> (res: usize)
        ensures
            res == self.concurrency(),
    {
        self.concurrency
    }

    /// Every chunk hash that the given manifests name, each once, in the
    /// order of first appearance.
    pub fn collect_chunk_hashes(&self, manifest_hashes: &[[u8; 32]]) -> (res: Result<Vec<[u8; 32]>, HfsError>)
        ensures
            match res {
                Ok(v) => manifests_chunk_hashes(self.store()@, hash_views(manifest_hashes@)) matches Ok(all)
                    && hash_views(v@) == dedup(all) && hash_views(v@).no_duplicates() && (forall|h: Seq<u8>|
                    hash_views(v@).contains(h) <==> all.contains(h)) && (forall|h: Seq<u8>|
                    hash_views(v@).contains(h) <==> exists|k: int|
                        0 <= k < manifest_hashes@.len() && #[trigger] names_chunk(self.store()@, manifest_hashes@[k]@, h)),
                Err(e) => manifests_chunk_hashes(self.store()@, hash_views(manifest_hashes@)) == Err::<
                    Seq<Seq<u8>>,
                    HfsError,
                >(e),
            },
    {
        let ghost mhs = hash_views(manifest_hashes@);
        let ghost s = self.store@;
        let mut result = HashList::new();
        let ghost mut all: Seq<Seq<u8>> = Seq::empty();
        let mut i: usize = 0;
        while i < manifest_hashes.len()
            invariant
                i <= manifest_hashes@.len(),
                mhs == hash_views(manifest_hashes@),
                s == self.store@,
                manifests_chunk_hashes(s, mhs.take(i as int)) == Ok::<Seq<Seq<u8>>, HfsError>(all),
                result@ == dedup(all),
            decreases manifest_hashes@.len() - i,
        {
            assert(mhs.take(i as int + 1).drop_last() =~= mhs.take(i as int));
            assert(mhs.take(i as int + 1).last() == manifest_hashes@[i as int]@);
            let bytes = match self.store.get_manifest(&manifest_hashes[i]) {
                Ok(b) => b,
                Err(e) => {
                    proof {
                        lemma_chunk_hashes_err(s, mhs, i as int + 1);
                    }
                    return Err(e);
                },
            };
            let manifest = match Manifest::deserialize(bytes.as_slice()) {
                Ok(m) => m,
                Err(e) => {
                    proof {
                        lemma_chunk_hashes_err(s, mhs, i as int + 1);
                    }
                    return Err(e);
                },
            };
            let ghost refs = ref_hashes(manifest.fields().3);
            let mut j: usize = 0;
            while j < manifest.chunks.len()
                invariant
                    j <= manifest.chunks@.len(),
                    refs == ref_hashes(manifest.fields().3),
                    refs.len() == manifest.chunks@.len(),
                    result@ == dedup(all + refs.take(j as int)),
                decreases manifest.chunks@.len() - j,
            {
                let h = manifest.chunks[j].hash;
                let ghost prev = all + refs.take(j as int);
                assert((all + refs.take(j as int + 1)).drop_last() =~= prev);
                assert((all + refs.take(j as int + 1)).last() == h@);
                if !result.contains(&h) {
                    result.push(h);
                }
                j += 1;
            }
            assert(refs.take(manifest.chunks@.len() as int) =~= refs);
            proof {
                all = all + refs;
            }
            i += 1;
        }
        assert(mhs.take(manifest_hashes@.len() as int) =~= mhs);
        proof {
            lemma_dedup(all);
            lemma_chunk_hashes_found(s, mhs, all);
            assert forall|h: Seq<u8>| #[trigger] all.contains(h) <==> (exists|k: int|
                0 <= k < manifest_hashes@.len() && #[trigger] names_chunk(s, manifest_hashes@[k]@, h)) by {
                assert(manifests_chunk_hashes(s, mhs) == Ok::<Seq<Seq<u8>>, HfsError>(all));
                assert(all.contains(h) <==> exists|k: int| 0 <= k < mhs.len() && #[trigger] names_chunk(s, mhs[k], h));
                if exists|k: int| 0 <= k < mhs.len() && #[trigger] names_chunk(s, mhs[k], h) {
                    let k = choose|k: int| 0 <= k < mhs.len() && #[trigger] names_chunk(s, mhs[k], h);
                    assert(mhs[k] == manifest_hashes@[k]@);
                    assert(names_chunk(s, manifest_hashes@[k]@, h));
                }
                if exists|k: int| 0 <= k < manifest_hashes@.len() && #[trigger] names_chunk(s, manifest_hashes@[k]@, h) {
                    let k = choose|k: int| 0 <= k < manifest_hashes@.len() && #[trigger] names_chunk(
                        s,
                        manifest_hashes@[k]@,
                        h,
                    );
                    assert(mhs[k] == manifest_hashes@[k]@);
                    assert(names_chunk(s, mhs[k], h));
                }
            }
        }
        let v = result.into_vec();
        proof {
            assert(self.store()@ == s);
            assert forall|h: Seq<u8>| #[trigger] hash_views(v@).contains(h) <==> exists|k: int|
                0 <= k < manifest_hashes@.len() && #[trigger] names_chunk(self.store()@, manifest_hashes@[k]@, h) by {
                assert(hash_views(v@).contains(h) <==> all.contains(h));
            }
        }
        Ok(v)
    }

    /// Of the given manifest hashes, those not in the local store, in order.
    pub fn missing_manifests(&self, manifest_hashes: &[[u8; 32]]) -> (res: Vec<[u8; 32]>)
        ensures
            hash_views(res@) == select(hash_views(manifest_hashes@), missing_flags(hash_views(manifest_hashes@), self.store()@.manifests)),
    {
        let ghost hv = hash_views(manifest_hashes@);
        let ghost keep = missing_flags(hv, self.store@.manifests);
        let mut out: Vec<[u8; 32]> = Vec::new();
        let mut i: usize = 0;
        while i < manifest_hashes.len()
            invariant
                i <= manifest_hashes@.len(),
                hv == hash_views(manifest_hashes@),
                keep == missing_flags(hv, self.store@.manifests),
                hash_views(out@) == select(hv.take(i as int), keep),
            decreases manifest_hashes@.len() - i,
        {
            assert(hv.take(i as int + 1).drop_last() =~= hv.take(i as int));
            assert(hv.take(i as int + 1).last() == manifest_hashes@[i as int]@);
            if !self.store.has_manifest(&manifest_hashes[i]) {
                let ghost before = hash_views(out@);
                out.push(manifest_hashes[i]);
                assert(hash_views(out@) =~= before.push(manifest_hashes@[i as int]@));
            }
            i += 1;
        }
        assert(hv.take(manifest_hashes@.len() as int) =~= hv);
        out
    }

    /// Of the given chunk hashes, those whose object is not in the local
    /// store (to fetch, in order), and how many are there already.
    pub fn missing_objects(&self, hashes: &Vec<[u8; 32]>) -> (res: (Vec<[u8; 32]>, usize))
        ensures
            hash_views(res.0@) == select(hash_views(hashes@), missing_flags(hash_views(hashes@), self.store()@.objects)),
            res.1 == count_set(negate(missing_flags(hash_views(hashes@), self.store()@.objects)), hashes@.len() as int),
    {
        let mut present: Vec<bool> = Vec::new();
        let mut i: usize = 0;
        while i < hashes.len()
            invariant
                i <= hashes@.len(),
                present@.len() == i,
                forall|j: int| 0 <= j < i ==> #[trigger] present@[j] == self.store@.objects.contains_key(hashes@[j]@),
            decreases hashes@.len() - i,
        {
            let h = self.store.has_object(&hashes[i]);
            present.push(h);
            i += 1;
        }
        let r = plan_transfer(hashes, &present);
        assert(negate(present@) =~= missing_flags(hash_views(hashes@), self.store@.objects));
        assert(present@ =~= negate(missing_flags(hash_views(hashes@), self.store@.objects)));
        r
    }
}

/// An error for a prefix of the manifests is the error for all of them.
proof fn lemma_chunk_hashes_err(s: StoreView, mhs: Seq<Seq<u8>>, k: int)
    requires
        0 <= k <= mhs.len(),
        manifests_chunk_hashes(s, mhs.take(k)) is Err,
    ensures
        manifests_chunk_hashes(s, mhs) == manifests_chunk_hashes(s, mhs.take(k)),
    decreases mhs.len() - k,
{
    if k < mhs.len() {
        assert(mhs.take(k + 1).drop_last() =~= mhs.take(k));
        lemma_chunk_hashes_err(s, mhs, k + 1);
    } else {
        assert(mhs.take(k) =~= mhs);
    }
}

} // verus!
