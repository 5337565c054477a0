use vstd::prelude::*;

use crate::cas::store::{hashed_path, hashed_path_in};

verus! {

/// A remote kept in a local directory (for tests or shared network storage):
/// chunk `ab…` is the file `<root>/ab/…`.
pub struct LocalBackend {
    root: String,
}

impl LocalBackend {
    /// The backend rooted at `root` (the directory itself is created by the caller).
    pub fn new(root: &str) -> (res: LocalBackend)
        ensures
            res.root_path() == root@,
    {
        LocalBackend { root: root.to_owned() }
    }

    /// The root directory.
    pub closed spec fn root_path(&self) -> Seq<char> {
        self.root@
    }

    /// The root directory.
    pub fn root(&self) -> (res: &str)
        ensures
            res@ == self.root_path(),
    {
        self.root.as_str()
    }

    /// Where the chunk with `hash` is kept.
    pub fn chunk_path(&self, hash: &[u8; 32]) -> (res: String)
        ensures
            res@ == hashed_path(self.root_path(), hash@),
    {
        hashed_path_in(self.root.as_str(), hash)
    }
}

} // verus!
