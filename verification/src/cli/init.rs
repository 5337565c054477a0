use vstd::prelude::*;

use crate::cli::track::{any_trimmed_line_is, append_line, has_trimmed_line, lemma_append_line, push_line};
use crate::text::{chars_of, is_ws, lemma_trim_end_last, string_from_chars, trim, trim_start};

verus! {

/// The `.gitignore` content with `entry` added as a line, or `None` when some
/// line, trimmed, is already `entry`.
pub fn gitignore_with_entry(content: &str, entry: &str) -> (res: Option<String>)
    ensures
        match res {
            Some(s) => !has_trimmed_line(content@, entry@) && s@ == append_line(content@, entry@),
            None => has_trimmed_line(content@, entry@),
        },
{
    let c = chars_of(content);
    let e = chars_of(entry);
    if any_trimmed_line_is(&c, &e) {
        return None;
    }
    let mut out = c;
    push_line(&mut out, &e);
    Some(string_from_chars(&out))
}

/// Adding an entry is done once: for an entry on one line with no white
/// space around it, the content it gives already holds the entry, so a second
/// call adds nothing.
pub proof fn lemma_gitignore_once(content: Seq<char>, entry: Seq<char>)
    requires
        forall|j: int| 0 <= j < entry.len() ==> #[trigger] entry[j] != '\n',
        entry.len() > 0,
        trim(entry) == entry,
    ensures
        has_trimmed_line(append_line(content, entry), entry),
{
    lemma_trim_end_last(trim_start(entry));
    assert(!is_ws(entry.last()));
    lemma_append_line(content, entry, entry);
}

} // verus!
