use vstd::prelude::*;

use crate::text::{chars_of, contains_chars, contains_seq};

verus! {

/// Whether the output of `git check-attr filter -- <file>` marks the file as
/// filtered by HFS: it mentions `hfs`.
pub fn attr_says_hfs(check_attr_output: &str) -> (res: bool)
    ensures
        res == contains_seq(check_attr_output@, "hfs"@),
{
    let v = chars_of(check_attr_output);
    let p = chars_of("hfs");
    contains_chars(&v, &p)
}

} // verus!
