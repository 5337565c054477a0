use vstd::prelude::*;

use crate::text::{
    chars_of, contains_chars, contains_seq, first_token, first_word, lemma_first_token_drop_ws, lemma_str_lines_concat,
    lemma_str_lines_no_lf, lemma_str_lines_one, lines_of, starts_with, str_lines, string_from_chars, strip_cr,
};

verus! {

/// A line is dropped when its pattern (its first word) is one of the given
/// patterns and it holds `filter=hfs`.
pub open spec fn untracks(line: Seq<char>, patterns: Seq<Seq<char>>) -> bool {
    &&& exists|k: int| 0 <= k < patterns.len() && first_token(line) == Some(#[trigger] patterns[k])
    &&& contains_seq(line, "filter=hfs"@)
}

/// The lines that stay.
pub open spec fn kept_lines(lines: Seq<Seq<char>>, patterns: Seq<Seq<char>>) -> Seq<Seq<char>>
    decreases lines.len(),
{
    if lines.len() == 0 {
        Seq::empty()
    } else if untracks(lines.last(), patterns) {
        kept_lines(lines.drop_last(), patterns)
    } else {
        kept_lines(lines.drop_last(), patterns).push(lines.last())
    }
}

/// The patterns named by the dropped lines: each line's first word (empty if none).
pub open spec fn removed_names(lines: Seq<Seq<char>>, patterns: Seq<Seq<char>>) -> Seq<Seq<char>>
    decreases lines.len(),
{
    if lines.len() == 0 {
        Seq::empty()
    } else if untracks(lines.last(), patterns) {
        removed_names(lines.drop_last(), patterns).push(
            match first_token(lines.last()) {
                Some(w) => w,
                None => Seq::empty(),
            },
        )
    } else {
        removed_names(lines.drop_last(), patterns)
    }
}

/// Lines joined by line feeds.
pub open spec fn join_lines(lines: Seq<Seq<char>>) -> Seq<char>
    decreases lines.len(),
{
    if lines.len() == 0 {
        Seq::empty()
    } else if lines.len() == 1 {
        lines[0]
    } else {
        join_lines(lines.drop_last()) + seq!['\n'] + lines.last()
    }
}

/// Every kept line is one of the lines, and none of them is dropped.
proof fn lemma_kept_lines(lines: Seq<Seq<char>>, patterns: Seq<Seq<char>>)
    ensures
        forall|i: int| 0 <= i < kept_lines(lines, patterns).len() ==> !untracks(
            #[trigger] kept_lines(lines, patterns)[i],
            patterns,
        ) && exists|k: int| 0 <= k < lines.len() && lines[k] == kept_lines(lines, patterns)[i],
    decreases lines.len(),
{
    if lines.len() > 0 {
        let q = lines.drop_last();
        lemma_kept_lines(q, patterns);
        let kq = kept_lines(q, patterns);
        assert forall|i: int| 0 <= i < kept_lines(lines, patterns).len() implies !untracks(
            #[trigger] kept_lines(lines, patterns)[i],
            patterns,
        ) && exists|k: int| 0 <= k < lines.len() && lines[k] == kept_lines(lines, patterns)[i] by {
            if i < kq.len() {
                assert(kept_lines(lines, patterns)[i] == kq[i]);
                let k = choose|k: int| 0 <= k < q.len() && q[k] == kq[i];
                assert(lines[k] == q[k]);
            } else {
                assert(kept_lines(lines, patterns)[i] == lines.last());
                assert(lines[lines.len() - 1] == lines.last());
            }
        }
    }
}

/// Lines without line feeds, joined and ended by one, split back into
/// themselves (each without a final carriage return).
proof fn lemma_join_lines(k: Seq<Seq<char>>)
    requires
        k.len() > 0,
        forall|i: int, j: int| 0 <= i < k.len() && 0 <= j < k[i].len() ==> #[trigger] k[i][j] != '\n',
    ensures
        str_lines(join_lines(k).push('\n')) == k.map_values(|l: Seq<char>| strip_cr(l)),
    decreases k.len(),
{
    let last = k.last();
    assert forall|j: int| 0 <= j < last.len() implies #[trigger] last[j] != '\n' by {
        assert(k[k.len() - 1][j] != '\n');
    }
    lemma_str_lines_one(last);
    if k.len() == 1 {
        assert(join_lines(k) == k[0]);
        assert(k.map_values(|l: Seq<char>| strip_cr(l)) =~= seq![strip_cr(last)]);
    } else {
        let q = k.drop_last();
        assert forall|i: int, j: int| 0 <= i < q.len() && 0 <= j < q[i].len() implies #[trigger] q[i][j] != '\n' by {
            assert(q[i] == k[i]);
            assert(k[i][j] != '\n');
        }
        lemma_join_lines(q);
        let a = join_lines(q).push('\n');
        assert(join_lines(k).push('\n') =~= a + last.push('\n'));
        lemma_str_lines_concat(a, last.push('\n'));
        assert(k.map_values(|l: Seq<char>| strip_cr(l)) =~= q.map_values(|l: Seq<char>| strip_cr(l)).push(
            strip_cr(last),
        ));
    }
}

/// A line that keeps none of the patterns' marks keeps none without its
/// final carriage return either.
proof fn lemma_untracks_strip_cr(l: Seq<char>, patterns: Seq<Seq<char>>)
    requires
        untracks(strip_cr(l), patterns),
    ensures
        untracks(l, patterns),
{
    let s = strip_cr(l);
    if l.len() > 0 && l.last() == '\r' {
        lemma_first_token_drop_ws(l);
    }
    let f = "filter=hfs"@;
    let i = choose|i: int| 0 <= i && i + f.len() <= s.len() && #[trigger] s.subrange(i, i + f.len()) == f;
    assert(l.subrange(i, i + f.len()) =~= s.subrange(i, i + f.len()));
}

/// Untracking leaves no line whose pattern is one of the given patterns and
/// that holds `filter=hfs`.
pub proof fn lemma_untrack_removes(content: Seq<char>, patterns: Seq<Seq<char>>)
    ensures
        forall|i: int| 0 <= i < str_lines(untrack_content(content, patterns)).len() ==> !untracks(
            #[trigger] str_lines(untrack_content(content, patterns))[i],
            patterns,
        ),
{
    let lines = str_lines(content);
    let k = kept_lines(lines, patterns);
    let j = join_lines(k);
    let out = untrack_content(content, patterns);
    lemma_kept_lines(lines, patterns);
    lemma_str_lines_no_lf(content);
    assert forall|i: int, jj: int| 0 <= i < k.len() && 0 <= jj < k[i].len() implies #[trigger] k[i][jj] != '\n' by {
        let m = choose|m: int| 0 <= m < lines.len() && lines[m] == k[i];
        assert(lines[m][jj] != '\n');
    }
    if k.len() == 0 {
        assert(j.len() == 0);
        assert(str_lines(out) =~= Seq::<Seq<char>>::empty());
    } else if j.len() > 0 && j.last() != '\n' {
        lemma_join_lines(k);
        assert forall|i: int| 0 <= i < str_lines(out).len() implies !untracks(#[trigger] str_lines(out)[i], patterns) by {
            assert(str_lines(out)[i] == strip_cr(k[i]));
            if untracks(strip_cr(k[i]), patterns) {
                lemma_untracks_strip_cr(k[i], patterns);
            }
        }
    } else if j.len() == 0 {
        assert(str_lines(out) =~= Seq::<Seq<char>>::empty());
    } else {
        // `j` ends with a line feed: the last kept line is empty.
        if k.len() == 1 {
            assert(j == k[0]);
            assert(k[0][k[0].len() - 1] != '\n');
        }
        let q = k.drop_last();
        assert(j == join_lines(q) + seq!['\n'] + k.last());
        if k.last().len() > 0 {
            assert(j.last() == k.last().last());
            assert(k[k.len() - 1][k.last().len() - 1] != '\n');
        }
        assert(out =~= join_lines(q).push('\n'));
        assert forall|i: int, jj: int| 0 <= i < q.len() && 0 <= jj < q[i].len() implies #[trigger] q[i][jj] != '\n' by {
            assert(q[i] == k[i]);
            assert(k[i][jj] != '\n');
        }
        lemma_join_lines(q);
        assert forall|i: int| 0 <= i < str_lines(out).len() implies !untracks(#[trigger] str_lines(out)[i], patterns) by {
            assert(str_lines(out)[i] == strip_cr(q[i]));
            assert(q[i] == k[i]);
            if untracks(strip_cr(k[i]), patterns) {
                lemma_untracks_strip_cr(k[i], patterns);
            }
        }
    }
}

/// Untracking a list of patterns removes the tracking of every one of them:
/// no line of the new content has any of the patterns as its first word
/// while holding `filter=hfs`.
pub proof fn lemma_untrack_every_pattern(content: Seq<char>, patterns: Seq<Seq<char>>)
    ensures
        forall|i: int, k: int|
            0 <= i < str_lines(untrack_content(content, patterns)).len() && 0 <= k < patterns.len() ==> !(
            first_token(#[trigger] str_lines(untrack_content(content, patterns))[i]) == Some(#[trigger] patterns[k])
                && contains_seq(str_lines(untrack_content(content, patterns))[i], "filter=hfs"@)),
{
    lemma_untrack_removes(content, patterns);
    let out = str_lines(untrack_content(content, patterns));
    assert forall|i: int, k: int| 0 <= i < out.len() && 0 <= k < patterns.len() implies !(first_token(
        #[trigger] out[i],
    ) == Some(#[trigger] patterns[k]) && contains_seq(out[i], "filter=hfs"@)) by {
        assert(!untracks(out[i], patterns));
    }
}

/// The new `.gitattributes` content: the kept lines joined by line feeds,
/// ending with a line feed unless empty.
pub open spec fn untrack_content(content: Seq<char>, patterns: Seq<Seq<char>>) -> Seq<char> {
    let j = join_lines(kept_lines(str_lines(content), patterns));
    if j.len() > 0 && j.last() != '\n' {
        j.push('\n')
    } else {
        j
    }
}

/// Whether two character vectors are equal.
fn chars_eq(a: &Vec<char>, b: &Vec<char>) -> (res: bool)
    ensures
        res == (a@ == b@),
{
    if a.len() != b.len() {
        return false;
    }
    let r = starts_with(a, b);
    proof {
        if r {
            assert(a@.take(b@.len() as int) =~= a@);
        } else if a@ == b@ {
            assert(a@.take(b@.len() as int) =~= b@);
        }
    }
    r
}

fn untracks_line(line: &Vec<char>, patterns: &Vec<Vec<char>>, marker: &Vec<char>) -> (res: bool)
    requires
        marker@ == "filter=hfs"@,
    ensures
        res == untracks(line@, patterns@.map_values(|p: Vec<char>| p@)),
{
    let ghost pv = patterns@.map_values(|p: Vec<char>| p@);
    let word = match first_word(line) {
        Some(w) => w,
        None => {
            return false;
        },
    };
    let mut any = false;
    let mut k: usize = 0;
    while k < patterns.len()
        invariant
            k <= patterns@.len(),
            pv == patterns@.map_values(|p: Vec<char>| p@),
            first_token(line@) == Some(word@),
            any == exists|j: int| 0 <= j < k && first_token(line@) == Some(#[trigger] pv[j]),
        decreases patterns@.len() - k,
    {
        if chars_eq(&word, &patterns[k]) {
            assert(first_token(line@) == Some(pv[k as int]));
            any = true;
        }
        k += 1;
    }
    any && contains_chars(line, marker)
}

/// Drops the lines that track one of the patterns. Returns the new
/// `.gitattributes` content and the patterns of the dropped lines.
pub fn untrack_patterns(content: &str, patterns: &Vec<String>) -> (res: (String, Vec<String>))
    ensures
        res.0@ == untrack_content(content@, patterns@.map_values(|p: String| p@)),
        res.1@.map_values(|s: String| s@) == removed_names(str_lines(content@), patterns@.map_values(|p: String| p@)),
{
    let ghost ps = patterns@.map_values(|p: String| p@);
    let mut pats: Vec<Vec<char>> = Vec::new();
    let mut k: usize = 0;
    while k < patterns.len()
        invariant
            k <= patterns@.len(),
            ps == patterns@.map_values(|p: String| p@),
            pats@.map_values(|p: Vec<char>| p@) == ps.take(k as int),
        decreases patterns@.len() - k,
    {
        let ghost before = pats@.map_values(|p: Vec<char>| p@);
        let pc = chars_of(patterns[k].as_str());
        let ghost pcv = pc@;
        assert(pcv == ps[k as int]);
        pats.push(pc);
        assert(pats@.map_values(|p: Vec<char>| p@) =~= before.push(pcv));
        assert(ps.take(k as int + 1) =~= ps.take(k as int).push(ps[k as int]));
        k += 1;
    }
    assert(ps.take(patterns@.len() as int) =~= ps);
    let marker = chars_of("filter=hfs");
    let cv = chars_of(content);
    let lines = lines_of(&cv);
    let ghost lv = lines@.map_values(|l: Vec<char>| l@);
    let mut joined: Vec<char> = Vec::new();
    let mut kept_any = false;
    let mut removed: Vec<String> = Vec::new();
    let mut i: usize = 0;
    while i < lines.len()
        invariant
            i <= lines@.len(),
            lv == lines@.map_values(|l: Vec<char>| l@),
            lv == str_lines(content@),
            pats@.map_values(|p: Vec<char>| p@) == ps,
            marker@ == "filter=hfs"@,
            kept_any == (kept_lines(lv.take(i as int), ps).len() > 0),
            joined@ == join_lines(kept_lines(lv.take(i as int), ps)),
            removed@.map_values(|s: String| s@) == removed_names(lv.take(i as int), ps),
        decreases lines@.len() - i,
    {
        let ghost pre = lv.take(i as int);
        assert(lv.take(i as int + 1).drop_last() =~= pre);
        assert(lv.take(i as int + 1).last() == lines@[i as int]@);
        let line = &lines[i];
        if untracks_line(line, &pats, &marker) {
            let name = match first_word(line) {
                Some(w) => string_from_chars(&w),
                None => String::new(),
            };
            let ghost before = removed@.map_values(|s: String| s@);
            let ghost nv = name@;
            removed.push(name);
            assert(removed@.map_values(|s: String| s@) =~= before.push(nv));
        } else {
            let ghost kept = kept_lines(pre, ps);
            if kept_any {
                joined.push('\n');
            }
            crate::text::append_chars(&mut joined, line);
            proof {
                let k2 = kept.push(line@);
                assert(k2.drop_last() =~= kept);
                if kept.len() == 0 {
                    assert(joined@ =~= join_lines(k2));
                } else {
                    assert(joined@ =~= join_lines(k2));
                }
            }
            kept_any = true;
        }
        i += 1;
    }
    assert(lv.take(lines@.len() as int) =~= lv);
    if joined.len() > 0 && joined[joined.len() - 1] != '\n' {
        joined.push('\n');
    }
    (string_from_chars(&joined), removed)
}

} // verus!
