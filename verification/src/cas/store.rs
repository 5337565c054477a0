use std::collections::HashMap;
use vstd::prelude::*;

use crate::cas::hash::{hex_encode, push_hex};
use crate::cas::index::{bucket_key, bucket_of, build_index, index_add, indexes};
use crate::error::HfsError;
use crate::text::{ascii_chars, ascii_string, chars_of};

verus! {

/// A list of `(hash, bytes)` entries read as a map from hash to bytes
/// (a later entry for the same hash wins).
pub open spec fn entries_map(e: Seq<([u8; 32], Vec<u8>)>) -> Map<Seq<u8>, Seq<u8>>
    decreases e.len(),
{
    if e.len() == 0 {
        Map::empty()
    } else {
        entries_map(e.drop_last()).insert(e.last().0@, e.last().1@)
    }
}

/// `m` with `k` mapped to `v`, unless `k` is already present.
pub open spec fn put_if_absent(m: Map<Seq<u8>, Seq<u8>>, k: Seq<u8>, v: Seq<u8>) -> Map<Seq<u8>, Seq<u8>> {
    if m.contains_key(k) {
        m
    } else {
        m.insert(k, v)
    }
}

/// A read after a put gives back what the put wrote when the hash was new,
/// and what was already there otherwise; other hashes are untouched.
pub proof fn lemma_get_after_put(m: Map<Seq<u8>, Seq<u8>>, k: Seq<u8>, v: Seq<u8>, other: Seq<u8>)
    ensures
        put_if_absent(m, k, v).contains_key(k),
        put_if_absent(m, k, v)[k] == if m.contains_key(k) {
            m[k]
        } else {
            v
        },
        other != k ==> (put_if_absent(m, k, v).contains_key(other) == m.contains_key(other)
            && put_if_absent(m, k, v)[other] == m[other]),
{
}

/// A second put under the same hash is a no-op, whatever bytes it carries.
pub proof fn lemma_put_twice(m: Map<Seq<u8>, Seq<u8>>, k: Seq<u8>, v: Seq<u8>, w: Seq<u8>)
    ensures
        put_if_absent(put_if_absent(m, k, v), k, w) == put_if_absent(m, k, v),
{
}

/// Removing what was put leaves the store as it was when the hash was new.
pub proof fn lemma_remove_after_put(m: Map<Seq<u8>, Seq<u8>>, k: Seq<u8>, v: Seq<u8>)
    requires
        !m.contains_key(k),
    ensures
        put_if_absent(m, k, v).remove(k) == m,
{
    assert(put_if_absent(m, k, v).remove(k) =~= m);
}

/// No hash occurs twice.
pub open spec fn distinct_keys(e: Seq<([u8; 32], Vec<u8>)>) -> bool {
    forall|i: int, j: int| 0 <= i < j < e.len() ==> (#[trigger] e[i]).0@ != (#[trigger] e[j]).0@
}

/// The hashes of the entries, in order.
pub open spec fn entry_keys(e: Seq<([u8; 32], Vec<u8>)>) -> Seq<Seq<u8>> {
    e.map_values(|x: ([u8; 32], Vec<u8>)| x.0@)
}

/// What the map of a list of distinct entries holds.
pub proof fn lemma_entries_map(e: Seq<([u8; 32], Vec<u8>)>)
    requires
        distinct_keys(e),
    ensures
        entries_map(e).dom().finite(),
        forall|k: Seq<u8>| #[trigger] entries_map(e).contains_key(k) <==> exists|i: int| 0 <= i < e.len() && e[i].0@ == k,
        forall|i: int| 0 <= i < e.len() ==> #[trigger] entries_map(e)[e[i].0@] == e[i].1@,
    decreases e.len(),
{
    if e.len() > 0 {
        let p = e.drop_last();
        assert(distinct_keys(p)) by {
            assert forall|i: int, j: int| 0 <= i < j < p.len() implies (#[trigger] p[i]).0@ != (#[trigger] p[j]).0@ by {
                assert(p[i] == e[i] && p[j] == e[j]);
            }
        }
        lemma_entries_map(p);
        assert forall|k: Seq<u8>| #[trigger] entries_map(e).contains_key(k) <==> exists|i: int| 0 <= i < e.len() && e[i].0@ == k by {
            if entries_map(e).contains_key(k) {
                if k != e.last().0@ {
                    assert(entries_map(p).contains_key(k));
                    let i = choose|i: int| 0 <= i < p.len() && p[i].0@ == k;
                    assert(e[i] == p[i]);
                } else {
                    assert(e[e.len() - 1].0@ == k);
                }
            }
            if exists|i: int| 0 <= i < e.len() && e[i].0@ == k {
                let i = choose|i: int| 0 <= i < e.len() && e[i].0@ == k;
                if i < e.len() - 1 {
                    assert(p[i] == e[i]);
                }
            }
        }
        assert forall|i: int| 0 <= i < e.len() implies #[trigger] entries_map(e)[e[i].0@] == e[i].1@ by {
            if i < e.len() - 1 {
                assert(p[i] == e[i]);
                assert(e[i].0@ != e[e.len() - 1].0@);
            }
        }
    }
}

/// Appending an entry with a new hash inserts it into the map.
pub proof fn lemma_entries_push(e: Seq<([u8; 32], Vec<u8>)>, x: ([u8; 32], Vec<u8>))
    requires
        distinct_keys(e),
        !entries_map(e).contains_key(x.0@),
    ensures
        distinct_keys(e.push(x)),
        entries_map(e.push(x)) == entries_map(e).insert(x.0@, x.1@),
{
    lemma_entries_map(e);
    let f = e.push(x);
    assert(f.drop_last() =~= e);
    assert forall|i: int, j: int| 0 <= i < j < f.len() implies (#[trigger] f[i]).0@ != (#[trigger] f[j]).0@ by {
        if j == e.len() {
            assert(f[i] == e[i]);
        } else {
            assert(f[i] == e[i] && f[j] == e[j]);
        }
    }
}

/// Removing the entry at `i` removes its hash from the map.
pub proof fn lemma_entries_remove(e: Seq<([u8; 32], Vec<u8>)>, i: int)
    requires
        distinct_keys(e),
        0 <= i < e.len(),
    ensures
        distinct_keys(e.remove(i)),
        entries_map(e.remove(i)) == entries_map(e).remove(e[i].0@),
{
    let f = e.remove(i);
    assert forall|a: int, b: int| 0 <= a < b < f.len() implies (#[trigger] f[a]).0@ != (#[trigger] f[b]).0@ by {
        let a2 = if a < i { a } else { a + 1 };
        let b2 = if b < i { b } else { b + 1 };
        assert(f[a] == e[a2] && f[b] == e[b2]);
    }
    lemma_entries_map(e);
    lemma_entries_map(f);
    let k = e[i].0@;
    assert forall|x: Seq<u8>| #[trigger] entries_map(f).contains_key(x) <==> entries_map(e).remove(k).contains_key(x) by {
        if entries_map(f).contains_key(x) {
            let j = choose|j: int| 0 <= j < f.len() && f[j].0@ == x;
            let j2 = if j < i { j } else { j + 1 };
            assert(f[j] == e[j2]);
        }
        if entries_map(e).remove(k).contains_key(x) {
            let j = choose|j: int| 0 <= j < e.len() && e[j].0@ == x;
            assert(j != i);
            let j2 = if j < i { j } else { j - 1 };
            assert(f[j2] == e[j]);
        }
    }
    assert forall|x: Seq<u8>| #[trigger] entries_map(f).contains_key(x) implies entries_map(f)[x] == entries_map(e).remove(k)[x] by {
        let j = choose|j: int| 0 <= j < f.len() && f[j].0@ == x;
        let j2 = if j < i { j } else { j + 1 };
        assert(f[j] == e[j2]);
        assert(entries_map(f)[f[j].0@] == f[j].1@);
        assert(entries_map(e)[e[j2].0@] == e[j2].1@);
    }
    assert(entries_map(f) =~= entries_map(e).remove(k));
}

/// The views of a sequence of hashes.
pub open spec fn hash_views(v: Seq<[u8; 32]>) -> Seq<Seq<u8>> {
    v.map_values(|h: [u8; 32]| h@)
}

/// Exactly the hashes of `m`, each once.
pub open spec fn lists_keys(v: Seq<[u8; 32]>, m: Map<Seq<u8>, Seq<u8>>) -> bool {
    &&& hash_views(v).no_duplicates()
    &&& hash_views(v).to_set() == m.dom()
}

fn keys_of(e: &Vec<([u8; 32], Vec<u8>)>) -> (res: Vec<[u8; 32]>)
    requires
        distinct_keys(e@),
    ensures
        lists_keys(res@, entries_map(e@)),
        hash_views(res@) == entry_keys(e@),
{
    let mut out: Vec<[u8; 32]> = Vec::new();
    let mut i: usize = 0;
    while i < e.len()
        invariant
            i <= e@.len(),
            out@.len() == i,
            forall|j: int| 0 <= j < i ==> #[trigger] out@[j] == e@[j].0,
        decreases e@.len() - i,
    {
        out.push(e[i].0);
        i += 1;
    }
    proof {
        lemma_entries_map(e@);
        let hv = hash_views(out@);
        assert forall|a: int, b: int| 0 <= a < hv.len() && 0 <= b < hv.len() && a != b implies hv[a] != hv[b] by {
            assert(hv[a] == e@[a].0@ && hv[b] == e@[b].0@);
            if a < b {
                assert(e@[a].0@ != e@[b].0@);
            } else {
                assert(e@[b].0@ != e@[a].0@);
            }
        }
        assert forall|k: Seq<u8>| hv.to_set().contains(k) <==> entries_map(e@).dom().contains(k) by {
            if hv.to_set().contains(k) {
                let j = choose|j: int| 0 <= j < hv.len() && hv[j] == k;
                assert(e@[j].0@ == k);
            }
            if entries_map(e@).dom().contains(k) {
                assert(entries_map(e@).contains_key(k));
                let j = choose|j: int| 0 <= j < e@.len() && e@[j].0@ == k;
                assert(hv[j] == k);
            }
        }
        assert(hv.to_set() =~= entries_map(e@).dom());
        assert(hv =~= entry_keys(e@));
    }
    out
}

/// Whether two hashes are equal.
pub fn hash_eq(a: &[u8; 32], b: &[u8; 32]) -> (res: bool)
    ensures
        res == (a@ == b@),
{
    let mut i: usize = 0;
    while i < 32
        invariant
            i <= 32,
            a@.len() == 32,
            b@.len() == 32,
            forall|j: int| 0 <= j < i ==> a@[j] == b@[j],
        decreases 32 - i,
    {
        if a[i] != b[i] {
            return false;
        }
        i += 1;
    }
    assert(a@ =~= b@);
    true
}

/// Entries under distinct hashes, with an index of where each hash sits.
struct Table {
    entries: Vec<([u8; 32], Vec<u8>)>,
    index: HashMap<u64, Vec<usize>>,
}

impl Table {
    spec fn wf(&self) -> bool {
        &&& distinct_keys(self.entries@)
        &&& indexes(self.index@, entry_keys(self.entries@))
    }

    fn new() -> (res: Table)
        ensures
            res.wf(),
            res.entries@ == Seq::<([u8; 32], Vec<u8>)>::empty(),
    {
        let res = Table { entries: Vec::new(), index: HashMap::new() };
        assert(entry_keys(res.entries@) =~= Seq::<Seq<u8>>::empty());
        res
    }

    /// The position of the entry under `h`.
    fn find(&self, h: &[u8; 32]) -> (res: Option<usize>)
        requires
            self.wf(),
        ensures
            match res {
                Some(i) => i < self.entries@.len() && self.entries@[i as int].0@ == h@ && entries_map(
                    self.entries@,
                ).contains_key(h@) && entries_map(self.entries@)[h@] == self.entries@[i as int].1@,
                None => !entries_map(self.entries@).contains_key(h@),
            },
    {
        let ghost e = self.entries@;
        let ghost keys = entry_keys(e);
        proof {
            lemma_entries_map(e);
        }
        let n = self.entries.len();
        let k = bucket_key(h);
        match self.index.get(&k) {
            None => {
                proof {
                    if entries_map(e).contains_key(h@) {
                        let i = choose|i: int| 0 <= i < e.len() && e[i].0@ == h@;
                        assert(keys[i] == h@);
                    }
                }
                None
            },
            Some(bucket) => {
                let mut j: usize = 0;
                while j < bucket.len()
                    invariant
                        j <= bucket@.len(),
                        e == self.entries@,
                        n == e.len(),
                        self.wf(),
                        keys == entry_keys(e),
                        self.index@.contains_key(k) && self.index@[k] == *bucket,
                        indexes(self.index@, keys),
                        forall|q: int| 0 <= q < j ==> e[bucket@[q] as int].0@ != h@,
                    decreases bucket@.len() - j,
                {
                    let i = bucket[j];
                    assert(self.index@[k]@[j as int] < keys.len());
                    if hash_eq(&self.entries[i].0, h) {
                        proof {
                            lemma_entries_map(e);
                            assert(entries_map(e)[e[i as int].0@] == e[i as int].1@);
                        }
                        return Some(i);
                    }
                    j += 1;
                }
                proof {
                    if entries_map(e).contains_key(h@) {
                        let i = choose|i: int| 0 <= i < e.len() && e[i].0@ == h@;
                        assert(keys[i] == h@);
                        let iu = i as usize;
                        assert(iu as int == i);
                        assert(self.index@[bucket_of(keys[i])]@.contains(iu));
                        let q = choose|q: int| 0 <= q < bucket@.len() && bucket@[q] == iu;
                        assert(e[bucket@[q] as int].0@ == h@);
                    }
                }
                None
            },
        }
    }

    /// Adds an entry under a hash that is not present yet.
    fn insert_new(&mut self, h: [u8; 32], data: Vec<u8>)
        requires
            old(self).wf(),
            !entries_map(old(self).entries@).contains_key(h@),
        ensures
            final(self).wf(),
            final(self).entries@ == old(self).entries@.push((h, data)),
    {
        proof {
            lemma_entries_push(self.entries@, (h, data));
        }
        let n = self.entries.len();
        index_add(&mut self.index, Ghost(entry_keys(self.entries@)), &h, n);
        let ghost before = self.entries@;
        self.entries.push((h, data));
        assert(entry_keys(self.entries@) =~= entry_keys(before).push(h@));
    }

    /// Removes the entry at position `i`.
    fn remove_at(&mut self, i: usize)
        requires
            old(self).wf(),
            i < old(self).entries@.len(),
        ensures
            final(self).wf(),
            final(self).entries@ == old(self).entries@.remove(i as int),
    {
        proof {
            lemma_entries_remove(self.entries@, i as int);
        }
        self.entries.remove(i);
        let keys = keys_of(&self.entries);
        self.index = build_index(&keys);
    }

    /// The hashes of the entries, in order.
    fn keys(&self) -> (res: Vec<[u8; 32]>)
        requires
            self.wf(),
        ensures
            lists_keys(res@, entries_map(self.entries@)),
    {
        keys_of(&self.entries)
    }
}

/// `Path::join` for a relative component: a `/` is put between the two
/// unless the first is empty or already ends with one.
pub open spec fn path_join(a: Seq<char>, b: Seq<char>) -> Seq<char> {
    if a.len() == 0 || a.last() == '/' {
        a + b
    } else {
        a + seq!['/'] + b
    }
}

/// Joins a relative path component onto a path.
pub fn join_path(a: &str, b: &str) -> (res: String)
    ensures
        res@ == path_join(a@, b@),
{
    let av = chars_of(a);
    let mut s = a.to_owned();
    if av.len() > 0 && av[av.len() - 1] != '/' {
        proof {
            reveal_strlit("/");
        }
        s.append("/");
    }
    s.append(b);
    s
}

/// The local content-addressable store kept under `.hfs/`: compressed chunks
/// ("objects") and manifests, each keyed by a BLAKE3 hash. Writing a hash that
/// is already present changes nothing.
///
/// The store holds its contents as values; the paths it gives are where each
/// entry lives on disk, and loading and saving the files is the caller's part.
pub struct Store {
    root: String,
    objects: Table,
    manifests: Table,
}

/// The contents of a store: root path, objects and manifests.
pub struct StoreView {
    pub root: Seq<char>,
    pub objects: Map<Seq<u8>, Seq<u8>>,
    pub manifests: Map<Seq<u8>, Seq<u8>>,
}

impl View for Store {
    type V = StoreView;

    closed spec fn view(&self) -> StoreView {
        StoreView {
            root: self.root@,
            objects: entries_map(self.objects.entries@),
            manifests: entries_map(self.manifests.entries@),
        }
    }
}

/// `<2 hex digits>/<62 hex digits>` under `dir`.
pub open spec fn hashed_path(dir: Seq<char>, hash: Seq<u8>) -> Seq<char> {
    path_join(path_join(dir, hex_encode(hash).take(2)), hex_encode(hash).skip(2))
}

/// The objects directory of a store rooted at `root`.
pub open spec fn objects_dir_of(root: Seq<char>) -> Seq<char> {
    path_join(root, seq!['o', 'b', 'j', 'e', 'c', 't', 's'])
}

/// The manifests directory of a store rooted at `root`.
pub open spec fn manifests_dir_of(root: Seq<char>) -> Seq<char> {
    path_join(root, seq!['m', 'a', 'n', 'i', 'f', 'e', 's', 't', 's'])
}

/// The staging directory of a store rooted at `root`.
pub open spec fn tmp_dir_of(root: Seq<char>) -> Seq<char> {
    path_join(root, seq!['t', 'm', 'p'])
}

/// The hex text of a hash split after the first two digits.
pub fn hex_split(hash: &[u8; 32]) -> (res: (String, String))
    ensures
        res.0@ == hex_encode(hash@).take(2),
        res.1@ == hex_encode(hash@).skip(2),
{
    let mut out: Vec<u8> = Vec::new();
    assert(ascii_chars(out@) =~= Seq::<char>::empty());
    push_hex(&mut out, hash);
    let ghost e = hex_encode(hash@);
    assert(ascii_chars(out@) =~= e);
    assert(out@.len() == 64);
    let first = crate::text::sub_vec(&out, 0, 2);
    let second = crate::text::sub_vec(&out, 2, 64);
    assert(ascii_chars(first@) =~= e.take(2));
    assert(ascii_chars(second@) =~= e.skip(2));
    (ascii_string(first), ascii_string(second))
}

/// The path under `dir` at which the item with `hash` is kept.
pub fn hashed_path_in(dir: &str, hash: &[u8; 32]) -> (res: String)
    ensures
        res@ == hashed_path(dir@, hash@),
{
    let (prefix, rest) = hex_split(hash);
    let d = join_path(dir, prefix.as_str());
    join_path(d.as_str(), rest.as_str())
}

impl Store {
    /// The store rooted at `root`, with no objects and no manifests.
    pub fn new(root: &str) -> (res: Store)
        ensures
            res@.root == root@,
            res@.objects == Map::<Seq<u8>, Seq<u8>>::empty(),
            res@.manifests == Map::<Seq<u8>, Seq<u8>>::empty(),
    {
        Store { root: root.to_owned(), objects: Table::new(), manifests: Table::new() }
    }

    #[verifier::type_invariant]
    spec fn inv(&self) -> bool {
        self.objects.wf() && self.manifests.wf()
    }

    /// The store's root directory.
    pub fn root(&self) -> (res: &str)
        ensures
            res@ == self@.root,
    {
        self.root.as_str()
    }

    /// `<root>/objects`
    pub fn objects_dir(&self) -> (res: String)
        ensures
            res@ == objects_dir_of(self@.root),
    {
        proof {
            reveal_strlit("objects");
        }
        join_path(self.root.as_str(), "objects")
    }

    /// `<root>/manifests`
    pub fn manifests_dir(&self) -> (res: String)
        ensures
            res@ == manifests_dir_of(self@.root),
    {
        proof {
            reveal_strlit("manifests");
        }
        join_path(self.root.as_str(), "manifests")
    }

    /// `<root>/tmp`
    pub fn tmp_dir(&self) -> (res: String)
        ensures
            res@ == tmp_dir_of(self@.root),
    {
        proof {
            reveal_strlit("tmp");
        }
        join_path(self.root.as_str(), "tmp")
    }

    /// Where the object with `hash` is kept: `<root>/objects/ab/cdef...`.
    pub fn object_path(&self, hash: &[u8; 32]) -> (res: String)
        ensures
            res@ == hashed_path(objects_dir_of(self@.root), hash@),
    {
        let d = self.objects_dir();
        hashed_path_in(d.as_str(), hash)
    }

    /// Where the manifest with `hash` is kept: `<root>/manifests/ab/cdef...`.
    pub fn manifest_path(&self, hash: &[u8; 32]) -> (res: String)
        ensures
            res@ == hashed_path(manifests_dir_of(self@.root), hash@),
    {
        let d = self.manifests_dir();
        hashed_path_in(d.as_str(), hash)
    }

    /// Stores an object under `hash`; a no-op when the hash is already present.
    pub fn put_object(&mut self, hash: &[u8; 32], data: &[u8]) -> (res: Result<(), HfsError>)
        ensures
            res is Ok,
            final(self)@.root == old(self)@.root,
            final(self)@.manifests == old(self)@.manifests,
            final(self)@.objects == put_if_absent(old(self)@.objects, hash@, data@),
    {
        proof {
            use_type_invariant(&*self);
        }
        match self.objects.find(hash) {
            Some(_) => Ok(()),
            None => {
                let x = (*hash, vstd::slice::slice_to_vec(data));
                proof {
                    lemma_entries_push(self.objects.entries@, x);
                }
                let mut t = Table::new();
                std::mem::swap(&mut t, &mut self.objects);
                t.insert_new(x.0, x.1);
                self.objects = t;
                Ok(())
            },
        }
    }

    /// The object stored under `hash`.
    pub fn get_object(&self, hash: &[u8; 32]) -> (res: Result<Vec<u8>, HfsError>)
        ensures
            res is Ok <==> self@.objects.contains_key(hash@),
            res matches Ok(v) ==> v@ == self@.objects[hash@],
            res matches Err(e) ==> e == HfsError::MissingObject,
    {
        proof {
            use_type_invariant(self);
        }
        match self.objects.find(hash) {
            Some(i) => Ok(self.objects.entries[i].1.clone()),
            None => Err(HfsError::MissingObject),
        }
    }

    /// Whether an object is stored under `hash`.
    pub fn has_object(&self, hash: &[u8; 32]) -> (res: bool)
        ensures
            res == self@.objects.contains_key(hash@),
    {
        proof {
            use_type_invariant(self);
        }
        self.objects.find(hash).is_some()
    }

    /// Stores a manifest under `hash`; a no-op when the hash is already present.
    pub fn put_manifest(&mut self, hash: &[u8; 32], data: &[u8]) -> (res: Result<(), HfsError>)
        ensures
            res is Ok,
            final(self)@.root == old(self)@.root,
            final(self)@.objects == old(self)@.objects,
            final(self)@.manifests == put_if_absent(old(self)@.manifests, hash@, data@),
    {
        proof {
            use_type_invariant(&*self);
        }
        match self.manifests.find(hash) {
            Some(_) => Ok(()),
            None => {
                let x = (*hash, vstd::slice::slice_to_vec(data));
                proof {
                    lemma_entries_push(self.manifests.entries@, x);
                }
                let mut t = Table::new();
                std::mem::swap(&mut t, &mut self.manifests);
                t.insert_new(x.0, x.1);
                self.manifests = t;
                Ok(())
            },
        }
    }

    /// The manifest stored under `hash`.
    pub fn get_manifest(&self, hash: &[u8; 32]) -> (res: Result<Vec<u8>, HfsError>)
        ensures
            res is Ok <==> self@.manifests.contains_key(hash@),
            res matches Ok(v) ==> v@ == self@.manifests[hash@],
            res matches Err(e) ==> e == HfsError::MissingManifest,
    {
        proof {
            use_type_invariant(self);
        }
        match self.manifests.find(hash) {
            Some(i) => Ok(self.manifests.entries[i].1.clone()),
            None => Err(HfsError::MissingManifest),
        }
    }

    /// The hashes of all stored objects, each once.
    pub fn list_objects(&self) -> (res: Result<Vec<[u8; 32]>, HfsError>)
        ensures
            res matches Ok(v) && lists_keys(v@, self@.objects),
    {
        proof {
            use_type_invariant(self);
        }
        Ok(self.objects.keys())
    }

    /// The hashes of all stored manifests, each once.
    pub fn list_manifests(&self) -> (res: Result<Vec<[u8; 32]>, HfsError>)
        ensures
            res matches Ok(v) && lists_keys(v@, self@.manifests),
    {
        proof {
            use_type_invariant(self);
        }
        Ok(self.manifests.keys())
    }

    /// Removes the object stored under `hash`, if any.
    pub fn remove_object(&mut self, hash: &[u8; 32]) -> (res: Result<(), HfsError>)
        ensures
            res is Ok,
            final(self)@.root == old(self)@.root,
            final(self)@.manifests == old(self)@.manifests,
            final(self)@.objects == old(self)@.objects.remove(hash@),
    {
        proof {
            use_type_invariant(&*self);
        }
        match self.objects.find(hash) {
            Some(i) => {
                proof {
                    lemma_entries_remove(self.objects.entries@, i as int);
                }
                let mut t = Table::new();
                std::mem::swap(&mut t, &mut self.objects);
                t.remove_at(i);
                self.objects = t;
            },
            None => {
                assert(old(self)@.objects.remove(hash@) =~= old(self)@.objects);
            },
        }
        Ok(())
    }

    /// Removes the manifest stored under `hash`, if any.
    pub fn remove_manifest(&mut self, hash: &[u8; 32]) -> (res: Result<(), HfsError>)
        ensures
            res is Ok,
            final(self)@.root == old(self)@.root,
            final(self)@.objects == old(self)@.objects,
            final(self)@.manifests == old(self)@.manifests.remove(hash@),
    {
        proof {
            use_type_invariant(&*self);
        }
        match self.manifests.find(hash) {
            Some(i) => {
                proof {
                    lemma_entries_remove(self.manifests.entries@, i as int);
                }
                let mut t = Table::new();
                std::mem::swap(&mut t, &mut self.manifests);
                t.remove_at(i);
                self.manifests = t;
            },
            None => {
                assert(old(self)@.manifests.remove(hash@) =~= old(self)@.manifests);
            },
        }
        Ok(())
    }

    /// Whether a manifest is stored under `hash`.
    pub fn has_manifest(&self, hash: &[u8; 32]) -> (res: bool)
        ensures
            res == self@.manifests.contains_key(hash@),
    {
        proof {
            use_type_invariant(self);
        }
        self.manifests.find(hash).is_some()
    }
}

} // verus!
