use vstd::prelude::*;

use crate::cas::hash::{hex_chars_to_hash, hex_decode, hex_encode, is_hash_hex};
use crate::cas::store::hex_split;
use crate::config::last_slash;
use crate::text::{chars_of, sub_vec};

verus! {

/// The S3 key of a chunk: `[<prefix>/]objects/<2 hex digits>/<62 hex digits>`.
pub open spec fn object_key(prefix: Seq<char>, hash: Seq<u8>) -> Seq<char> {
    let tail = "objects/"@ + hex_encode(hash).take(2) + seq!['/'] + hex_encode(hash).skip(2);
    if prefix.len() == 0 {
        tail
    } else {
        prefix + seq!['/'] + tail
    }
}

/// The key of the chunk with `hash` under `prefix`.
pub fn s3_object_key(prefix: &str, hash: &[u8; 32]) -> (res: String)
    ensures
        res@ == object_key(prefix@, hash@),
{
    let (two, rest) = hex_split(hash);
    let mut key = String::new();
    proof {
        reveal_strlit("/");
        reveal_strlit("objects/");
    }
    if !prefix.is_empty() {
        key.append(prefix);
        key.append("/");
    }
    key.append("objects/");
    key.append(two.as_str());
    key.append("/");
    key.append(rest.as_str());
    assert(key@ =~= object_key(prefix@, hash@));
    key
}

/// The last two `/`-separated segments of a key put together, when the key
/// has at least one `/`.
pub open spec fn key_hex(key: Seq<char>) -> Option<Seq<char>> {
    let i = last_slash(key);
    if i < 0 {
        None
    } else {
        let j = last_slash(key.take(i));
        Some(key.subrange(j + 1, i) + key.skip(i + 1))
    }
}

/// The hash that a listed key names: the last two segments of the key read
/// as 64 hex digits (`None` for other keys).
pub open spec fn key_hash(key: Seq<char>) -> Option<Seq<u8>> {
    match key_hex(key) {
        Some(h) => if is_hash_hex(h) {
            Some(hex_decode(h))
        } else {
            None
        },
        None => None,
    }
}

fn last_slash_in(v: &Vec<char>, n: usize) -> (res: Option<usize>)
    requires
        n <= v@.len(),
    ensures
        match res {
            Some(i) => i as int == last_slash(v@.take(n as int)),
            None => last_slash(v@.take(n as int)) < 0,
        },
{
    let mut i: usize = n;
    assert(v@.take(n as int).take(n as int) =~= v@.take(n as int));
    while i > 0 && v[i - 1] != '/'
        invariant
            i <= n <= v@.len(),
            last_slash(v@.take(n as int)) == last_slash(v@.take(i as int)),
        decreases i,
    {
        assert(v@.take(i as int).drop_last() =~= v@.take(i as int - 1));
        i -= 1;
    }
    if i == 0 {
        assert(v@.take(0) =~= Seq::<char>::empty());
        None
    } else {
        assert(v@.take(i as int).last() == '/');
        Some(i - 1)
    }
}

/// The hash named by a key listed under `objects/`, if the key ends in
/// `<2 hex digits>/<62 hex digits>`.
pub fn hash_from_key(key: &str) -> (res: Option<[u8; 32]>)
    ensures
        match res {
            Some(h) => key_hash(key@) == Some(h@),
            None => key_hash(key@) is None,
        },
{
    let v = chars_of(key);
    let n = v.len();
    assert(v@.take(n as int) =~= v@);
    proof {
        crate::config::lemma_last_slash(v@);
    }
    match last_slash_in(&v, n) {
        None => None,
        Some(i) => {
            proof {
                crate::config::lemma_last_slash(v@.take(i as int));
            }
            let start = match last_slash_in(&v, i) {
                Some(j) => j + 1,
                None => 0,
            };
            proof {
                crate::config::lemma_last_slash(v@.take(i as int));
                assert(v@.take(i as int).take(i as int) =~= v@.take(i as int));
            }
            let mut hex = sub_vec(&v, start, i);
            let tail = sub_vec(&v, i + 1, n);
            crate::text::append_chars(&mut hex, &tail);
            assert(hex@ =~= key_hex(key@).unwrap());
            match hex_chars_to_hash(&hex) {
                Ok(h) => Some(h),
                Err(_) => None,
            }
        },
    }
}

} // verus!
