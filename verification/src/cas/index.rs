use std::collections::HashMap;
use vstd::prelude::*;

use crate::cas::store::{hash_eq, hash_views};

verus! {

broadcast use vstd::std_specs::hash::group_hash_axioms;

/// The bucket of a hash: its first eight bytes read as a little-endian number.
pub open spec fn bucket_of(h: Seq<u8>) -> u64 {
    (h[0] as int + h[1] as int * 0x100 + h[2] as int * 0x1_0000 + h[3] as int * 0x100_0000 + h[4] as int
        * 0x1_0000_0000 + h[5] as int * 0x100_0000_0000 + h[6] as int * 0x1_0000_0000_0000 + h[7] as int
        * 0x100_0000_0000_0000) as u64
}

/// The bucket of a hash.
pub fn bucket_key(h: &[u8; 32]) -> (res: u64)
    ensures
        res == bucket_of(h@),
{
    h[0] as u64 + h[1] as u64 * 0x100 + h[2] as u64 * 0x1_0000 + h[3] as u64 * 0x100_0000 + h[4] as u64
        * 0x1_0000_0000 + h[5] as u64 * 0x100_0000_0000 + h[6] as u64 * 0x1_0000_0000_0000 + h[7] as u64
        * 0x100_0000_0000_0000
}

/// `index` finds every position of `keys`: each position sits in the bucket
/// of its hash, and buckets hold positions of `keys` only.
pub open spec fn indexes(index: Map<u64, Vec<usize>>, keys: Seq<Seq<u8>>) -> bool {
    &&& forall|i: int|
        0 <= i < keys.len() ==> index.contains_key(bucket_of(#[trigger] keys[i])) && index[bucket_of(
            keys[i],
        )]@.contains(i as usize)
    &&& forall|k: u64, j: int|
        index.contains_key(k) && 0 <= j < index[k]@.len() ==> #[trigger] index[k]@[j] < keys.len()
}

/// Records that position `n`, the next one, holds `h`.
pub fn index_add(index: &mut HashMap<u64, Vec<usize>>, Ghost(keys): Ghost<Seq<Seq<u8>>>, h: &[u8; 32], n: usize)
    requires
        indexes(old(index)@, keys),
        n == keys.len(),
    ensures
        indexes(final(index)@, keys.push(h@)),
{
    let k = bucket_key(h);
    let ghost old_index = index@;
    let mut bucket = match index.remove(&k) {
        Some(b) => b,
        None => Vec::new(),
    };
    let ghost old_bucket = bucket@;
    assert(old_index.contains_key(k) ==> old_bucket == old_index[k]@);
    bucket.push(n);
    index.insert(k, bucket);
    let ghost nk = keys.push(h@);
    assert forall|i: int| 0 <= i < nk.len() implies index@.contains_key(bucket_of(#[trigger] nk[i])) && index@[bucket_of(
        nk[i],
    )]@.contains(i as usize) by {
        if i < keys.len() {
            assert(nk[i] == keys[i]);
            let b = bucket_of(keys[i]);
            assert(old_index.contains_key(b) && old_index[b]@.contains(i as usize));
            if b == k {
                let j = choose|j: int| 0 <= j < old_bucket.len() && old_bucket[j] == i as usize;
                assert(index@[k]@[j] == i as usize);
            }
        } else {
            assert(nk[i] == h@);
            assert(index@[k]@[old_bucket.len() as int] == n);
        }
    }
    assert forall|kk: u64, j: int| index@.contains_key(kk) && 0 <= j < index@[kk]@.len() implies #[trigger] index@[kk]@[j]
        < nk.len() by {
        if kk == k {
            if j < old_bucket.len() {
                assert(index@[k]@[j] == old_bucket[j]);
                assert(old_index[k]@[j] < keys.len());
            }
        } else {
            assert(old_index[kk]@[j] < keys.len());
        }
    }
}

/// An index of the given hashes.
pub fn build_index(hashes: &Vec<[u8; 32]>) -> (res: HashMap<u64, Vec<usize>>)
    ensures
        indexes(res@, hash_views(hashes@)),
{
    let mut index: HashMap<u64, Vec<usize>> = HashMap::new();
    let mut i: usize = 0;
    while i < hashes.len()
        invariant
            i <= hashes@.len(),
            indexes(index@, hash_views(hashes@).take(i as int)),
        decreases hashes@.len() - i,
    {
        index_add(&mut index, Ghost(hash_views(hashes@).take(i as int)), &hashes[i], i);
        assert(hash_views(hashes@).take(i as int).push(hashes@[i as int]@) =~= hash_views(hashes@).take(i as int + 1));
        i += 1;
    }
    assert(hash_views(hashes@).take(hashes@.len() as int) =~= hash_views(hashes@));
    index
}

/// The position of `h` in `items`, found through the index.
fn find_hash(index: &HashMap<u64, Vec<usize>>, items: &Vec<[u8; 32]>, h: &[u8; 32]) -> (res: Option<usize>)
    requires
        indexes(index@, hash_views(items@)),
    ensures
        match res {
            Some(i) => i < items@.len() && items@[i as int]@ == h@,
            None => !hash_views(items@).contains(h@),
        },
{
    let ghost keys = hash_views(items@);
    let n = items.len();
    let k = bucket_key(h);
    match index.get(&k) {
        None => {
            proof {
                if keys.contains(h@) {
                    let i = choose|i: int| 0 <= i < keys.len() && keys[i] == h@;
                    assert(index@.contains_key(bucket_of(keys[i])));
                }
            }
            None
        },
        Some(bucket) => {
            let mut j: usize = 0;
            while j < bucket.len()
                invariant
                    j <= bucket@.len(),
                    keys == hash_views(items@),
                    n == items@.len(),
                    index@.contains_key(k) && index@[k] == *bucket,
                    indexes(index@, keys),
                    forall|q: int| 0 <= q < j ==> items@[bucket@[q] as int]@ != h@,
                decreases bucket@.len() - j,
            {
                let i = bucket[j];
                assert(index@[k]@[j as int] < keys.len());
                if hash_eq(&items[i], h) {
                    return Some(i);
                }
                j += 1;
            }
            proof {
                if keys.contains(h@) {
                    let i = choose|i: int| 0 <= i < keys.len() && keys[i] == h@;
                    let iu = i as usize;
                    assert(iu as int == i);
                    assert(index@[bucket_of(keys[i])]@.contains(iu));
                    let q = choose|q: int| 0 <= q < bucket@.len() && bucket@[q] == iu;
                    assert(items@[bucket@[q] as int]@ == h@);
                }
            }
            None
        },
    }
}

/// A list of hashes that answers "is this hash in the list?" quickly.
pub struct HashList {
    items: Vec<[u8; 32]>,
    index: HashMap<u64, Vec<usize>>,
}

impl View for HashList {
    type V = Seq<Seq<u8>>;

    closed spec fn view(&self) -> Seq<Seq<u8>> {
        hash_views(self.items@)
    }
}

impl HashList {
    #[verifier::type_invariant]
    spec fn inv(&self) -> bool {
        indexes(self.index@, hash_views(self.items@))
    }

    /// The empty list.
    pub fn new() -> (res: HashList)
        ensures
            res@ == Seq::<Seq<u8>>::empty(),
    {
        let res = HashList { items: Vec::new(), index: HashMap::new() };
        assert(hash_views(res.items@) =~= Seq::<Seq<u8>>::empty());
        res
    }

    /// Whether `h` is in the list.
    pub fn contains(&self, h: &[u8; 32]) -> (res: bool)
        ensures
            res == self@.contains(h@),
    {
        proof {
            use_type_invariant(self);
        }
        match find_hash(&self.index, &self.items, h) {
            Some(i) => {
                assert(hash_views(self.items@)[i as int] == h@);
                true
            },
            None => false,
        }
    }

    /// Appends `h`.
    pub fn push(&mut self, h: [u8; 32])
        ensures
            final(self)@ == old(self)@.push(h@),
    {
        proof {
            use_type_invariant(&*self);
        }
        let mut taken = HashList::new();
        std::mem::swap(&mut taken, self);
        let HashList { mut items, mut index } = taken;
        let n = items.len();
        index_add(&mut index, Ghost(hash_views(items@)), &h, n);
        let ghost before = items@;
        items.push(h);
        assert(hash_views(items@) =~= hash_views(before).push(h@));
        *self = HashList { items, index };
    }

    /// The hashes, in order.
    pub fn into_vec(self) -> (res: Vec<[u8; 32]>)
        ensures
            hash_views(res@) == self@,
    {
        self.items
    }
}

} // verus!
