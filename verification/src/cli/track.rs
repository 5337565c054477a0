use vstd::prelude::*;

use crate::text::{
    append_chars, chars_of, lemma_str_lines_close, lemma_str_lines_concat, lemma_str_lines_single, lines_of, str_lines,
    string_from_chars, trim, trim_chars,
};

verus! {

/// The `.gitattributes` line that tracks `pattern`.
pub open spec fn track_entry(pattern: Seq<char>) -> Seq<char> {
    pattern + " filter=hfs diff=hfs merge=hfs -text"@
}

/// Some line of `content`, trimmed, is `t`.
pub open spec fn has_trimmed_line(content: Seq<char>, t: Seq<char>) -> bool {
    exists|i: int| 0 <= i < str_lines(content).len() && trim(#[trigger] str_lines(content)[i]) == t
}

/// `content` with `line` added as a line of its own (a line feed is put
/// first when the content does not end with one).
pub open spec fn append_line(content: Seq<char>, line: Seq<char>) -> Seq<char> {
    (if content.len() > 0 && content.last() != '\n' {
        content.push('\n')
    } else {
        content
    }) + line + seq!['\n']
}

/// Tracking the patterns one after another: the new content, and for each
/// pattern whether its line was added (`false`: already there).
pub open spec fn track_all(content: Seq<char>, patterns: Seq<Seq<char>>) -> (Seq<char>, Seq<bool>)
    decreases patterns.len(),
{
    if patterns.len() == 0 {
        (content, Seq::empty())
    } else {
        let (c, added) = track_all(content, patterns.drop_last());
        let e = track_entry(patterns.last());
        if has_trimmed_line(c, trim(e)) {
            (c, added.push(false))
        } else {
            (append_line(c, e), added.push(true))
        }
    }
}

/// Adding a line keeps every trimmed line of the text and adds the new one.
pub proof fn lemma_append_line(c: Seq<char>, e: Seq<char>, t: Seq<char>)
    requires
        forall|j: int| 0 <= j < e.len() ==> #[trigger] e[j] != '\n',
        e.len() > 0,
        e.last() != '\r',
    ensures
        has_trimmed_line(append_line(c, e), trim(e)),
        has_trimmed_line(c, t) ==> has_trimmed_line(append_line(c, e), t),
{
    let c2 = if c.len() > 0 && c.last() != '\n' {
        c.push('\n')
    } else {
        c
    };
    if c.len() > 0 && c.last() != '\n' {
        lemma_str_lines_close(c, t);
    }
    assert(append_line(c, e) =~= c2 + e.push('\n'));
    lemma_str_lines_concat(c2, e.push('\n'));
    lemma_str_lines_single(e);
    let all = str_lines(append_line(c, e));
    assert(all =~= str_lines(c2) + seq![e]);
    assert(all[str_lines(c2).len() as int] == e);
    if has_trimmed_line(c2, t) {
        let i = choose|i: int| 0 <= i < str_lines(c2).len() && trim(#[trigger] str_lines(c2)[i]) == t;
        assert(all[i] == str_lines(c2)[i]);
    }
}

/// The line that tracks a pattern has no line feed when the pattern has none,
/// and ends in a letter.
proof fn lemma_track_entry(p: Seq<char>)
    requires
        forall|j: int| 0 <= j < p.len() ==> #[trigger] p[j] != '\n',
    ensures
        forall|j: int| 0 <= j < track_entry(p).len() ==> #[trigger] track_entry(p)[j] != '\n',
        track_entry(p).len() > 0,
        track_entry(p).last() != '\r',
{
    reveal_strlit(" filter=hfs diff=hfs merge=hfs -text");
    let e = track_entry(p);
    assert forall|j: int| 0 <= j < e.len() implies #[trigger] e[j] != '\n' by {
        if j >= p.len() {
            assert(e[j] == " filter=hfs diff=hfs merge=hfs -text"@[j - p.len()]);
        }
    }
}

/// After tracking, the line of every pattern is there.
proof fn lemma_track_all_present(content: Seq<char>, ps: Seq<Seq<char>>)
    requires
        forall|k: int, j: int| 0 <= k < ps.len() && 0 <= j < ps[k].len() ==> #[trigger] ps[k][j] != '\n',
    ensures
        forall|k: int| 0 <= k < ps.len() ==> has_trimmed_line(track_all(content, ps).0, trim(#[trigger] track_entry(ps[k]))),
    decreases ps.len(),
{
    if ps.len() > 0 {
        let q = ps.drop_last();
        assert forall|k: int, j: int| 0 <= k < q.len() && 0 <= j < q[k].len() implies #[trigger] q[k][j] != '\n' by {
            assert(q[k] == ps[k]);
            assert(ps[k][j] != '\n');
        }
        lemma_track_all_present(content, q);
        let c = track_all(content, q).0;
        let e = track_entry(ps.last());
        assert forall|j: int| 0 <= j < ps.last().len() implies #[trigger] ps.last()[j] != '\n' by {
            assert(ps[ps.len() - 1][j] != '\n');
        }
        lemma_track_entry(ps.last());
        assert forall|k: int| 0 <= k < ps.len() implies has_trimmed_line(track_all(content, ps).0, trim(#[trigger] track_entry(ps[k]))) by {
            let t = trim(track_entry(ps[k]));
            if k < q.len() {
                assert(q[k] == ps[k]);
                assert(has_trimmed_line(c, trim(track_entry(q[k]))));
            }
            if !has_trimmed_line(c, trim(e)) {
                lemma_append_line(c, e, t);
            }
        }
    }
}

/// Tracking patterns whose lines are all there already changes nothing.
proof fn lemma_track_all_noop(c: Seq<char>, ps: Seq<Seq<char>>)
    requires
        forall|k: int| 0 <= k < ps.len() ==> has_trimmed_line(c, trim(#[trigger] track_entry(ps[k]))),
    ensures
        track_all(c, ps).0 == c,
        track_all(c, ps).1 == Seq::new(ps.len(), |k: int| false),
    decreases ps.len(),
{
    if ps.len() > 0 {
        let q = ps.drop_last();
        assert forall|k: int| 0 <= k < q.len() implies has_trimmed_line(c, trim(#[trigger] track_entry(q[k]))) by {
            assert(q[k] == ps[k]);
            assert(has_trimmed_line(c, trim(track_entry(ps[k]))));
        }
        lemma_track_all_noop(c, q);
        assert(has_trimmed_line(c, trim(track_entry(ps[ps.len() - 1]))));
        assert(track_all(c, ps).1 =~= Seq::new(ps.len(), |k: int| false));
    }
}

/// Tracking is idempotent: tracking the same patterns (none holding a line
/// feed) a second time leaves the text as it is and reports each pattern as
/// already tracked.
pub proof fn lemma_track_twice(content: Seq<char>, patterns: Seq<Seq<char>>)
    requires
        forall|k: int, j: int| 0 <= k < patterns.len() && 0 <= j < patterns[k].len() ==> #[trigger] patterns[k][j] != '\n',
    ensures
        track_all(track_all(content, patterns).0, patterns).0 == track_all(content, patterns).0,
        forall|k: int| 0 <= k < patterns.len() ==> !#[trigger] track_all(track_all(content, patterns).0, patterns).1[k],
        forall|k: int| 0 <= k < patterns.len() ==> has_trimmed_line(track_all(content, patterns).0, trim(#[trigger] track_entry(patterns[k]))),
{
    lemma_track_all_present(content, patterns);
    lemma_track_all_noop(track_all(content, patterns).0, patterns);
}

/// Whether some line of `content`, trimmed, is `t`.
pub fn any_trimmed_line_is(content: &Vec<char>, t: &Vec<char>) -> (res: bool)
    ensures
        res == has_trimmed_line(content@, t@),
{
    let lines = lines_of(content);
    let ghost lv = lines@.map_values(|l: Vec<char>| l@);
    let mut i: usize = 0;
    while i < lines.len()
        invariant
            i <= lines@.len(),
            lv == lines@.map_values(|l: Vec<char>| l@),
            lv == str_lines(content@),
            forall|j: int| 0 <= j < i ==> trim(#[trigger] lv[j]) != t@,
        decreases lines@.len() - i,
    {
        let tl = trim_chars(&lines[i]);
        if tl.len() == t.len() && crate::text::starts_with(&tl, t) {
            assert(tl@.take(t@.len() as int) =~= tl@);
            assert(trim(lv[i as int]) == t@);
            return true;
        }
        proof {
            if trim(lv[i as int]) == t@ {
                assert(tl@.take(t@.len() as int) =~= tl@);
            }
        }
        i += 1;
    }
    false
}

/// Appends `line` as a line of its own.
pub fn push_line(content: &mut Vec<char>, line: &Vec<char>)
    ensures
        final(content)@ == append_line(old(content)@, line@),
{
    if content.len() > 0 && content[content.len() - 1] != '\n' {
        content.push('\n');
    }
    append_chars(content, line);
    content.push('\n');
}

/// Adds a tracking line for each pattern not tracked yet, in order. Returns
/// the new `.gitattributes` content and, for each pattern, whether it was added.
pub fn track_patterns(content: &str, patterns: &Vec<String>) -> (res: (String, Vec<bool>))
    ensures
        res.0@ == track_all(content@, patterns@.map_values(|p: String| p@)).0,
        res.1@ == track_all(content@, patterns@.map_values(|p: String| p@)).1,
{
    let ghost ps = patterns@.map_values(|p: String| p@);
    let mut c = chars_of(content);
    let mut added: Vec<bool> = Vec::new();
    let suffix = chars_of(" filter=hfs diff=hfs merge=hfs -text");
    let mut i: usize = 0;
    while i < patterns.len()
        invariant
            i <= patterns@.len(),
            ps == patterns@.map_values(|p: String| p@),
            suffix@ == " filter=hfs diff=hfs merge=hfs -text"@,
            (c@, added@) == track_all(content@, ps.take(i as int)),
        decreases patterns@.len() - i,
    {
        assert(ps.take(i as int + 1).drop_last() =~= ps.take(i as int));
        assert(ps.take(i as int + 1).last() == patterns@[i as int]@);
        let mut entry = chars_of(patterns[i].as_str());
        append_chars(&mut entry, &suffix);
        assert(entry@ == track_entry(patterns@[i as int]@));
        let te = trim_chars(&entry);
        if any_trimmed_line_is(&c, &te) {
            added.push(false);
        } else {
            push_line(&mut c, &entry);
            added.push(true);
        }
        i += 1;
    }
    assert(ps.take(patterns@.len() as int) =~= ps);
    (string_from_chars(&c), added)
}

} // verus!
