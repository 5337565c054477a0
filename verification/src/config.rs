use vstd::prelude::*;

use crate::cas::store::{join_path, path_join};
use crate::text::chars_of;

verus! {

/// Settings of the local store.
#[derive(Debug, Clone)]
pub struct StoreConfig {
    pub min_chunk_size: u32,
    pub avg_chunk_size: u32,
    pub max_chunk_size: u32,
    pub compression_level: i32,
}

/// Where chunks are pushed to and pulled from.
#[derive(Debug, Clone)]
pub struct RemoteConfig {
    /// The kind of backend, such as `s3`.
    pub backend: String,
    pub bucket: Option<String>,
    pub region: Option<String>,
    pub endpoint: Option<String>,
    pub prefix: Option<String>,
}

/// The contents of `.hfs/config.toml`.
#[derive(Debug, Clone)]
pub struct Config {
    pub store: StoreConfig,
    pub remote: Option<RemoteConfig>,
}

/// 256 KiB.
pub fn default_min_chunk() -> (res: u32)
    ensures
        res == 262144,
{
    256 * 1024
}

/// 1 MiB.
pub fn default_avg_chunk() -> (res: u32)
    ensures
        res == 1048576,
{
    1024 * 1024
}

/// 4 MiB.
pub fn default_max_chunk() -> (res: u32)
    ensures
        res == 4194304,
{
    4 * 1024 * 1024
}

/// zstd level 3.
pub fn default_compression_level() -> (res: i32)
    ensures
        res == 3,
{
    3
}

impl Default for StoreConfig {
    fn default() -> (res: StoreConfig)
        ensures
            res.min_chunk_size == 262144,
            res.avg_chunk_size == 1048576,
            res.max_chunk_size == 4194304,
            res.compression_level == 3,
    {
        StoreConfig {
            min_chunk_size: default_min_chunk(),
            avg_chunk_size: default_avg_chunk(),
            max_chunk_size: default_max_chunk(),
            compression_level: default_compression_level(),
        }
    }
}

impl Default for Config {
    fn default() -> (res: Config)
        ensures
            res.store.min_chunk_size == 262144,
            res.store.avg_chunk_size == 1048576,
            res.store.max_chunk_size == 4194304,
            res.store.compression_level == 3,
            res.remote is None,
    {
        Config { store: StoreConfig::default(), remote: None }
    }
}

/// The index of the last `/` in `p`, or -1.
pub open spec fn last_slash(p: Seq<char>) -> int
    decreases p.len(),
{
    if p.len() == 0 {
        -1
    } else if p.last() == '/' {
        p.len() - 1
    } else {
        last_slash(p.drop_last())
    }
}

/// The parent directory: `None` for the empty path and for `/`; `/` for a
/// path directly under the root; the empty path for a single relative
/// component. On paths without `.` components or repeated or trailing `/`
/// this is what `Path::parent` gives.
pub open spec fn parent_path(p: Seq<char>) -> Option<Seq<char>> {
    if p.len() == 0 || p == seq!['/'] {
        None
    } else if last_slash(p) < 0 {
        Some(Seq::empty())
    } else if last_slash(p) == 0 {
        Some(seq!['/'])
    } else {
        Some(p.take(last_slash(p)))
    }
}

/// `p`, its parent, its parent's parent, and so on.
pub open spec fn ancestors(p: Seq<char>) -> Seq<Seq<char>>
    decreases p.len(),
{
    match parent_path(p) {
        None => seq![p],
        Some(q) => {
            proof {
                lemma_last_slash(p);
            }
            if q.len() < p.len() {
                seq![p] + ancestors(q)
            } else {
                seq![p]
            }
        },
    }
}

/// `last_slash` is the last `/`.
pub proof fn lemma_last_slash(p: Seq<char>)
    ensures
        -1 <= last_slash(p) < p.len(),
        last_slash(p) >= 0 ==> p[last_slash(p)] == '/',
        forall|j: int| last_slash(p) < j < p.len() ==> #[trigger] p[j] != '/',
    decreases p.len(),
{
    if p.len() > 0 && p.last() != '/' {
        lemma_last_slash(p.drop_last());
        assert forall|j: int| last_slash(p) < j < p.len() implies #[trigger] p[j] != '/' by {
            if j < p.len() - 1 {
                assert(p[j] == p.drop_last()[j]);
            }
        }
    }
}

/// Where to look for the `.hfs` directory, nearest first: `.hfs` under `start`
/// and under each of its ancestors.
pub open spec fn hfs_dir_candidates(start: Seq<char>) -> Seq<Seq<char>> {
    ancestors(start).map_values(|d: Seq<char>| path_join(d, seq!['.', 'h', 'f', 's']))
}

/// `is_dir` answered no for (a string holding) the path `p`.
pub open spec fn was_refused<F: Fn(String) -> bool>(is_dir: F, p: Seq<char>) -> bool {
    exists|s: String| s@ == p && #[trigger] is_dir.ensures((s,), false)
}

fn parent_of(p: &Vec<char>) -> (res: Option<Vec<char>>)
    ensures
        match res {
            Some(q) => parent_path(p@) == Some(q@),
            None => parent_path(p@) is None,
        },
{
    let n = p.len();
    if n == 0 || (n == 1 && p[0] == '/') {
        proof {
            if n == 1 {
                assert(p@ =~= seq!['/']);
            }
        }
        return None;
    }
    proof {
        assert(p@ != seq!['/']) by {
            if n == 1 {
                assert(p@[0] != '/');
            }
        }
    }
    let mut i: usize = n;
    assert(p@.take(n as int) =~= p@);
    while i > 0 && p[i - 1] != '/'
        invariant
            i <= n,
            n == p@.len(),
            last_slash(p@) == last_slash(p@.take(i as int)),
        decreases i,
    {
        assert(p@.take(i as int).drop_last() =~= p@.take(i as int - 1));
        i -= 1;
    }
    proof {
        assert(p@.take(n as int) =~= p@);
        if i > 0 {
            assert(p@.take(i as int).last() == '/');
        } else {
            assert(p@.take(0) =~= Seq::<char>::empty());
        }
    }
    if i == 0 {
        Some(Vec::new())
    } else if i == 1 {
        let v = vec!['/'];
        Some(v)
    } else {
        Some(crate::text::sub_vec(p, 0, i - 1))
    }
}

impl Config {
    /// Walks up from `start` to the nearest `.hfs` directory: the first
    /// candidate for which `is_dir` says yes.
    pub fn find_hfs_dir<F: Fn(String) -> bool>(start: &str, is_dir: F) -> (res: Option<String>)
        requires
            forall|p: String| #[trigger] is_dir.requires((p,)),
        ensures
            match res {
                Some(c) => exists|i: int|
                    0 <= i < hfs_dir_candidates(start@).len() && c@ == hfs_dir_candidates(start@)[i]
                        && is_dir.ensures((c,), true) && forall|j: int|
                        0 <= j < i ==> #[trigger] was_refused(is_dir, hfs_dir_candidates(start@)[j]),
                None => forall|j: int|
                    0 <= j < hfs_dir_candidates(start@).len() ==> #[trigger] was_refused(
                        is_dir,
                        hfs_dir_candidates(start@)[j],
                    ),
            },
    {
        let cands = Self::hfs_dir_candidates(start);
        let ghost views = cands@.map_values(|s: String| s@);
        let mut i: usize = 0;
        while i < cands.len()
            invariant
                i <= cands@.len(),
                views == cands@.map_values(|s: String| s@),
                views == hfs_dir_candidates(start@),
                forall|p: String| #[trigger] is_dir.requires((p,)),
                forall|j: int| 0 <= j < i ==> #[trigger] was_refused(is_dir, views[j]),
            decreases cands@.len() - i,
        {
            let c = cands[i].clone();
            let ghost cv = c;
            if is_dir(c) {
                let r = cands[i].clone();
                assert(r@ == views[i as int]);
                return Some(r);
            }
            assert(was_refused(is_dir, views[i as int]));
            i += 1;
        }
        None
    }

    /// Where to look for the `.hfs` directory, nearest first.
    pub fn hfs_dir_candidates(start: &str) -> (res: Vec<String>)
        ensures
            res@.map_values(|s: String| s@) == hfs_dir_candidates(start@),
    {
        let mut dir = chars_of(start);
        let mut out: Vec<String> = Vec::new();
        proof {
            reveal_strlit(".hfs");
        }
        let ghost target = hfs_dir_candidates(start@);
        loop
            invariant
                target == hfs_dir_candidates(start@),
                target == out@.map_values(|s: String| s@) + hfs_dir_candidates(dir@),
            decreases dir@.len(),
        {
            proof {
                reveal_strlit(".hfs");
            }
            let d = crate::text::string_from_chars(&dir);
            let cand = join_path(d.as_str(), ".hfs");
            assert(cand@ == path_join(dir@, seq!['.', 'h', 'f', 's']));
            let ghost before = out@.map_values(|s: String| s@);
            let ghost cv = cand@;
            out.push(cand);
            assert(out@.map_values(|s: String| s@) =~= before.push(cv));
            proof {
                lemma_last_slash(dir@);
            }
            match parent_of(&dir) {
                None => {
                    assert(ancestors(dir@) == seq![dir@]);
                    assert(hfs_dir_candidates(dir@) =~= seq![cv]);
                    assert(target =~= out@.map_values(|s: String| s@));
                    return out;
                },
                Some(q) => {
                    if q.len() >= dir.len() {
                        assert(ancestors(dir@) == seq![dir@]);
                        assert(hfs_dir_candidates(dir@) =~= seq![cv]);
                        assert(target =~= out@.map_values(|s: String| s@));
                        return out;
                    }
                    assert(ancestors(dir@) == seq![dir@] + ancestors(q@));
                    assert(hfs_dir_candidates(dir@) =~= seq![cv] + hfs_dir_candidates(q@));
                    assert(target =~= out@.map_values(|s: String| s@) + hfs_dir_candidates(q@));
                    dir = q;
                },
            }
        }
    }
}

} // verus!
