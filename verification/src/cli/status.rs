use vstd::prelude::*;

use crate::text::{chars_of, contains_chars, contains_seq, first_token, first_word, lines_of, str_lines, string_from_chars};

verus! {

/// The patterns of the lines that hold `filter=hfs`: each line's first word.
pub open spec fn patterns_of(lines: Seq<Seq<char>>) -> Seq<Seq<char>>
    decreases lines.len(),
{
    if lines.len() == 0 {
        Seq::empty()
    } else {
        let rest = patterns_of(lines.drop_last());
        if contains_seq(lines.last(), "filter=hfs"@) {
            match first_token(lines.last()) {
                Some(w) => rest.push(w),
                None => rest,
            }
        } else {
            rest
        }
    }
}

/// The patterns that `.gitattributes` tracks with HFS, in order.
pub fn tracked_patterns(content: &str) -> (res: Vec<String>)
    ensures
        res@.map_values(|s: String| s@) == patterns_of(str_lines(content@)),
{
    let marker = chars_of("filter=hfs");
    let cv = chars_of(content);
    let lines = lines_of(&cv);
    let ghost lv = lines@.map_values(|l: Vec<char>| l@);
    let mut out: Vec<String> = Vec::new();
    let mut i: usize = 0;
    while i < lines.len()
        invariant
            i <= lines@.len(),
            lv == lines@.map_values(|l: Vec<char>| l@),
            lv == str_lines(content@),
            marker@ == "filter=hfs"@,
            out@.map_values(|s: String| s@) == patterns_of(lv.take(i as int)),
        decreases lines@.len() - i,
    {
        assert(lv.take(i as int + 1).drop_last() =~= lv.take(i as int));
        assert(lv.take(i as int + 1).last() == lines@[i as int]@);
        if contains_chars(&lines[i], &marker) {
            match first_word(&lines[i]) {
                Some(w) => {
                    let s = string_from_chars(&w);
                    let ghost before = out@.map_values(|s: String| s@);
                    let ghost sv = s@;
                    out.push(s);
                    assert(out@.map_values(|s: String| s@) =~= before.push(sv));
                },
                None => {},
            }
        }
        i += 1;
    }
    assert(lv.take(lines@.len() as int) =~= lv);
    out
}

} // verus!
