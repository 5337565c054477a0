use vstd::prelude::*;
use vstd::utf8::*;

verus! {

broadcast use vstd::string::group_string_axioms;

/// Trusted: `String::from_utf8` succeeds exactly on well-formed UTF-8 and
/// then holds the characters that the bytes encode.
#[verifier::external_body]
fn string_from_utf8(bytes: Vec<u8>) -> (res: Option<String>)
    ensures
        res is Some <==> valid_utf8(bytes@),
        res matches Some(s) ==> s@ == decode_utf8(bytes@),
{
    String::from_utf8(bytes).ok()
}

/// Trusted: `String::pop` removes and returns the last character, or returns
/// `None` when the string is empty.
#[verifier::external_body]
pub(crate) fn string_pop(s: &mut String) -> (res: Option<char>)
    ensures
        old(s)@.len() == 0 ==> res is None && final(s)@ == old(s)@,
        old(s)@.len() > 0 ==> res == Some(old(s)@.last()) && final(s)@ == old(s)@.drop_last(),
{
    s.pop()
}

/// Trusted: `String::push` appends a character.
#[verifier::external_body]
pub(crate) fn string_push(s: &mut String, c: char)
    ensures
        final(s)@ == old(s)@.push(c),
{
    s.push(c)
}

/// Decodes UTF-8 bytes into a string; `None` when they are not well-formed.
pub fn utf8_string(bytes: Vec<u8>) -> (res: Option<String>)
    ensures
        res is Some <==> valid_utf8(bytes@),
        res matches Some(s) ==> s@ == decode_utf8(bytes@),
{
    string_from_utf8(bytes)
}

/// UTF-8 encoding distributes over concatenation.
pub proof fn lemma_encode_utf8_concat(a: Seq<char>, b: Seq<char>)
    ensures
        encode_utf8(a + b) == encode_utf8(a) + encode_utf8(b),
    decreases a.len(),
{
    if a.len() == 0 {
        assert(a + b =~= b);
        assert(encode_utf8(a) + encode_utf8(b) =~= encode_utf8(b));
    } else {
        lemma_encode_utf8_concat(a.drop_first(), b);
        assert((a + b).drop_first() =~= a.drop_first() + b);
        assert((a + b)[0] == a[0]);
    }
}

/// The characters of a string slice, in order.
pub fn chars_of(s: &str) -> (res: Vec<char>)
    ensures
        res@ == s@,
{
    let mut v: Vec<char> = Vec::new();
    for c in it: s.chars()
        invariant
            v@ == it.seq().take(it.index() as int),
            it.seq() == s@,
    {
        v.push(c);
    }
    v
}

/// The characters whose codes are the given bytes.
pub open spec fn ascii_chars(bytes: Seq<u8>) -> Seq<char> {
    bytes.map_values(|b: u8| b as char)
}

/// True when every byte is below 128.
pub open spec fn all_ascii(bytes: Seq<u8>) -> bool {
    forall|i: int| 0 <= i < bytes.len() ==> bytes[i] < 128
}

/// ASCII bytes are well-formed UTF-8 and decode to the characters of the same codes.
pub proof fn lemma_ascii_utf8(bytes: Seq<u8>)
    requires
        all_ascii(bytes),
    ensures
        valid_utf8(bytes),
        decode_utf8(bytes) == ascii_chars(bytes),
        encode_utf8(ascii_chars(bytes)) == bytes,
{
    let chars = ascii_chars(bytes);
    assert(is_ascii_chars(chars));
    is_ascii_chars_encode_utf8(chars);
    assert(encode_utf8(chars) =~= bytes);
    encode_utf8_valid_utf8(chars);
    encode_utf8_decode_utf8(chars);
}

/// A string made of ASCII bytes.
pub fn ascii_string(bytes: Vec<u8>) -> (res: String)
    requires
        all_ascii(bytes@),
    ensures
        res@ == ascii_chars(bytes@),
{
    proof {
        lemma_ascii_utf8(bytes@);
    }
    let ghost b = bytes@;
    match string_from_utf8(bytes) {
        Some(s) => s,
        None => {
            proof {
                assert(false);
            }
            String::new()
        },
    }
}

/// Appends the bytes of an ASCII string.
pub fn push_ascii(out: &mut Vec<u8>, s: &str)
    requires
        is_ascii_chars(s@),
        all_ascii(old(out)@),
    ensures
        all_ascii(final(out)@),
        ascii_chars(final(out)@) == ascii_chars(old(out)@) + s@,
{
    let b = s.as_bytes();
    proof {
        is_ascii_chars_encode_utf8(s@);
    }
    let ghost start = out@;
    let mut i: usize = 0;
    while i < b.len()
        invariant
            i <= b@.len(),
            b@ == encode_utf8(s@),
            b@.len() == s@.len(),
            forall|j: int| 0 <= j < s@.len() ==> s@[j] as u8 == #[trigger] b@[j],
            is_ascii_chars(s@),
            all_ascii(out@),
            ascii_chars(out@) == ascii_chars(start) + s@.take(i as int),
        decreases b@.len() - i,
    {
        let x = b[i];
        proof {
            assert(s@[i as int] as u8 == x);
            assert(s@[i as int] <= '\u{7f}');
            assert((x as char) == s@[i as int]);
        }
        let ghost old_out = out@;
        out.push(x);
        assert(ascii_chars(out@) =~= ascii_chars(old_out).push(x as char));
        assert(s@.take(i as int + 1) =~= s@.take(i as int).push(s@[i as int]));
        assert(ascii_chars(out@) =~= ascii_chars(start) + s@.take(i as int + 1));
        i += 1;
    }
    assert(s@.take(s@.len() as int) =~= s@);
}

/// Appends bytes to a vector.
pub fn append_bytes(out: &mut Vec<u8>, data: &[u8])
    ensures
        final(out)@ == old(out)@ + data@,
{
    let ghost start = out@;
    let mut i: usize = 0;
    while i < data.len()
        invariant
            i <= data@.len(),
            out@ == start + data@.take(i as int),
        decreases data@.len() - i,
    {
        out.push(data[i]);
        assert(data@.take(i as int + 1) =~= data@.take(i as int).push(data@[i as int]));
        i += 1;
    }
    assert(data@.take(data@.len() as int) =~= data@);
}

/// Appends characters to a vector.
pub fn append_chars(out: &mut Vec<char>, more: &Vec<char>)
    ensures
        final(out)@ == old(out)@ + more@,
{
    let ghost start = out@;
    let mut i: usize = 0;
    while i < more.len()
        invariant
            i <= more@.len(),
            out@ == start + more@.take(i as int),
        decreases more@.len() - i,
    {
        out.push(more[i]);
        assert(more@.take(i as int + 1) =~= more@.take(i as int).push(more@[i as int]));
        i += 1;
    }
    assert(more@.take(more@.len() as int) =~= more@);
}

/// `char::is_whitespace`: the Unicode `White_Space` characters.
pub open spec fn is_ws(c: char) -> bool {
    ||| c == ' '
    ||| ('\t' <= c && c <= '\r')
    ||| c == '\u{85}'
    ||| c == '\u{a0}'
    ||| c == '\u{1680}'
    ||| ('\u{2000}' <= c && c <= '\u{200a}')
    ||| c == '\u{2028}'
    ||| c == '\u{2029}'
    ||| c == '\u{202f}'
    ||| c == '\u{205f}'
    ||| c == '\u{3000}'
}

/// Whether `c` is Unicode white space.
pub fn is_whitespace(c: char) -> (res: bool)
    ensures
        res == is_ws(c),
{
    c == ' ' || ('\t' <= c && c <= '\r') || c == '\u{85}' || c == '\u{a0}' || c == '\u{1680}'
        || ('\u{2000}' <= c && c <= '\u{200a}') || c == '\u{2028}' || c == '\u{2029}' || c
        == '\u{202f}' || c == '\u{205f}' || c == '\u{3000}'
}

/// `s` without its leading white space.
pub open spec fn trim_start(s: Seq<char>) -> Seq<char>
    decreases s.len(),
{
    if s.len() > 0 && is_ws(s[0]) {
        trim_start(s.drop_first())
    } else {
        s
    }
}

/// `s` without its trailing white space.
pub open spec fn trim_end(s: Seq<char>) -> Seq<char>
    decreases s.len(),
{
    if s.len() > 0 && is_ws(s.last()) {
        trim_end(s.drop_last())
    } else {
        s
    }
}

/// `str::trim`: `s` without leading and trailing white space.
pub open spec fn trim(s: Seq<char>) -> Seq<char> {
    trim_end(trim_start(s))
}

/// Trimmed text does not end in white space.
pub proof fn lemma_trim_end_last(s: Seq<char>)
    ensures
        trim_end(s).len() > 0 ==> !is_ws(trim_end(s).last()),
    decreases s.len(),
{
    if s.len() > 0 && is_ws(s.last()) {
        lemma_trim_end_last(s.drop_last());
    }
}

/// Skipping leading white space one character at a time.
pub proof fn lemma_trim_start_skip(s: Seq<char>, k: int)
    requires
        0 <= k <= s.len(),
        forall|j: int| 0 <= j < k ==> is_ws(#[trigger] s[j]),
    ensures
        trim_start(s) == trim_start(s.skip(k)),
    decreases k,
{
    if k == 0 {
        assert(s.skip(0) =~= s);
    } else {
        let t = s.drop_first();
        assert forall|j: int| 0 <= j < k - 1 implies is_ws(#[trigger] t[j]) by {
            assert(t[j] == s[j + 1]);
        }
        lemma_trim_start_skip(t, k - 1);
        assert(t.skip(k - 1) =~= s.skip(k));
    }
}

/// Dropping trailing white space one character at a time.
pub proof fn lemma_trim_end_take(s: Seq<char>, k: int)
    requires
        0 <= k <= s.len(),
        forall|j: int| k <= j < s.len() ==> is_ws(#[trigger] s[j]),
    ensures
        trim_end(s) == trim_end(s.take(k)),
    decreases s.len() - k,
{
    if k == s.len() {
        assert(s.take(k) =~= s);
    } else {
        let t = s.drop_last();
        assert forall|j: int| k <= j < t.len() implies is_ws(#[trigger] t[j]) by {
            assert(t[j] == s[j]);
        }
        lemma_trim_end_take(t, k);
        assert(t.take(k) =~= s.take(k));
    }
}

/// `v[a..b]` as a new vector.
pub fn sub_vec<T: Copy>(v: &Vec<T>, a: usize, b: usize) -> (res: Vec<T>)
    requires
        a <= b <= v@.len(),
    ensures
        res@ == v@.subrange(a as int, b as int),
{
    vstd::slice::slice_to_vec(vstd::slice::slice_subrange(v.as_slice(), a, b))
}

/// `str::trim` on a character vector.
pub fn trim_chars(v: &Vec<char>) -> (res: Vec<char>)
    ensures
        res@ == trim(v@),
{
    let n = v.len();
    let mut a: usize = 0;
    while a < n && is_whitespace(v[a])
        invariant
            a <= n,
            n == v@.len(),
            forall|j: int| 0 <= j < a ==> is_ws(#[trigger] v@[j]),
        decreases n - a,
    {
        a += 1;
    }
    proof {
        lemma_trim_start_skip(v@, a as int);
    }
    let ghost t = v@.skip(a as int);
    assert(trim_start(t) == t);
    let mut b: usize = n;
    while b > a && is_whitespace(v[b - 1])
        invariant
            a <= b <= n,
            n == v@.len(),
            forall|j: int| b <= j < n ==> is_ws(#[trigger] v@[j]),
        decreases b,
    {
        b -= 1;
    }
    proof {
        assert forall|j: int| b - a <= j < t.len() implies is_ws(#[trigger] t[j]) by {
            assert(t[j] == v@[j + a]);
        }
        lemma_trim_end_take(t, b - a);
        assert(t.take(b - a) =~= v@.subrange(a as int, b as int));
        let u = t.take(b - a);
        if u.len() > 0 {
            assert(u.last() == v@[b - 1]);
        }
    }
    sub_vec(v, a, b)
}

/// Whether `s` begins with `p`.
pub open spec fn has_prefix(s: Seq<char>, p: Seq<char>) -> bool {
    s.len() >= p.len() && s.take(p.len() as int) == p
}

/// Whether the characters `v` begin with `p`.
pub fn starts_with(v: &Vec<char>, p: &Vec<char>) -> (res: bool)
    ensures
        res == has_prefix(v@, p@),
{
    if v.len() < p.len() {
        return false;
    }
    let mut i: usize = 0;
    while i < p.len()
        invariant
            i <= p@.len() <= v@.len(),
            forall|j: int| 0 <= j < i ==> v@[j] == p@[j],
        decreases p@.len() - i,
    {
        if v[i] != p[i] {
            assert(v@.take(p@.len() as int)[i as int] != p@[i as int]);
            return false;
        }
        i += 1;
    }
    assert(v@.take(p@.len() as int) =~= p@);
    true
}

/// The index of the first line feed in `s`, or its length.
pub open spec fn line_end(s: Seq<char>) -> int
    decreases s.len(),
{
    if s.len() == 0 {
        0
    } else if s[0] == '\n' {
        0
    } else {
        1 + line_end(s.drop_first())
    }
}

/// Facts about `line_end`.
pub proof fn lemma_line_end(s: Seq<char>)
    ensures
        0 <= line_end(s) <= s.len(),
        forall|j: int| 0 <= j < line_end(s) ==> #[trigger] s[j] != '\n',
        line_end(s) < s.len() ==> s[line_end(s)] == '\n',
    decreases s.len(),
{
    if s.len() > 0 && s[0] != '\n' {
        lemma_line_end(s.drop_first());
        assert forall|j: int| 0 <= j < line_end(s) implies #[trigger] s[j] != '\n' by {
            if j > 0 {
                assert(s[j] == s.drop_first()[j - 1]);
            }
        }
    }
}

/// `line_end` is the first line feed.
pub proof fn lemma_line_end_is(s: Seq<char>, k: int)
    requires
        0 <= k <= s.len(),
        forall|j: int| 0 <= j < k ==> #[trigger] s[j] != '\n',
        k < s.len() ==> s[k] == '\n',
    ensures
        line_end(s) == k,
    decreases k,
{
    if k > 0 {
        let t = s.drop_first();
        assert forall|j: int| 0 <= j < k - 1 implies #[trigger] t[j] != '\n' by {
            assert(t[j] == s[j + 1]);
        }
        assert(s[0] != '\n');
        lemma_line_end_is(t, k - 1);
    }
}

/// The end of the line that starts at `pos`: the next line feed, or the end.
pub fn find_line_end(v: &Vec<char>, pos: usize) -> (res: usize)
    requires
        pos <= v@.len(),
    ensures
        res == pos + line_end(v@.skip(pos as int)),
{
    let mut i = pos;
    while i < v.len() && v[i] != '\n'
        invariant
            pos <= i <= v@.len(),
            forall|j: int| pos <= j < i ==> #[trigger] v@[j] != '\n',
        decreases v@.len() - i,
    {
        i += 1;
    }
    proof {
        let t = v@.skip(pos as int);
        assert forall|j: int| 0 <= j < i - pos implies #[trigger] t[j] != '\n' by {
            assert(t[j] == v@[j + pos]);
        }
        if i < v@.len() {
            assert(t[i - pos] == v@[i as int]);
        }
        lemma_line_end_is(t, i - pos);
    }
    i
}

/// The text after the first line of `s` (empty when there is no line feed).
pub open spec fn after_line(s: Seq<char>) -> Seq<char> {
    if line_end(s) < s.len() {
        s.skip(line_end(s) + 1)
    } else {
        Seq::empty()
    }
}

/// A line without the carriage return that ends it.
pub open spec fn strip_cr(l: Seq<char>) -> Seq<char> {
    if l.len() > 0 && l.last() == '\r' {
        l.drop_last()
    } else {
        l
    }
}

/// The first line of a non-empty text, as `str::lines` gives it.
pub open spec fn first_line(s: Seq<char>) -> Seq<char> {
    if line_end(s) < s.len() {
        strip_cr(s.take(line_end(s)))
    } else {
        s
    }
}

/// A string holding the given characters.
pub fn string_from_chars(v: &Vec<char>) -> (res: String)
    ensures
        res@ == v@,
{
    let mut s = String::new();
    let mut i: usize = 0;
    while i < v.len()
        invariant
            i <= v@.len(),
            s@ == v@.take(i as int),
        decreases v@.len() - i,
    {
        string_push(&mut s, v[i]);
        assert(v@.take(i as int + 1) =~= v@.take(i as int).push(v@[i as int]));
        i += 1;
    }
    assert(v@.take(v@.len() as int) =~= v@);
    s
}

/// `str::lines`: the text split at line feeds, each line without a
/// carriage return that ends it before its line feed; no line after a final
/// line feed.
pub open spec fn str_lines(s: Seq<char>) -> Seq<Seq<char>>
    decreases s.len(),
{
    if s.len() == 0 {
        Seq::empty()
    } else {
        proof {
            lemma_line_end(s);
        }
        seq![first_line(s)] + str_lines(after_line(s))
    }
}

/// The lines of a text that ends with a line feed, followed by more text,
/// are the lines of the one followed by the lines of the other.
pub proof fn lemma_str_lines_concat(a: Seq<char>, b: Seq<char>)
    requires
        a.len() == 0 || a.last() == '\n',
    ensures
        str_lines(a + b) == str_lines(a) + str_lines(b),
    decreases a.len(),
{
    if a.len() == 0 {
        assert(a + b =~= b);
        assert(str_lines(a) + str_lines(b) =~= str_lines(b));
    } else {
        let s = a + b;
        let k = line_end(a);
        lemma_line_end(a);
        if k == a.len() {
            assert(a[a.len() - 1] != '\n');
        }
        assert forall|j: int| 0 <= j < k implies #[trigger] s[j] != '\n' by {
            assert(s[j] == a[j]);
        }
        assert(s[k] == a[k]);
        lemma_line_end_is(s, k);
        assert(s.take(k) =~= a.take(k));
        assert(after_line(s) =~= after_line(a) + b);
        let r = after_line(a);
        if r.len() > 0 {
            assert(r.last() == a.last());
        }
        lemma_str_lines_concat(r, b);
        assert(str_lines(s) =~= str_lines(a) + str_lines(b));
    }
}

/// A line with no line feed in it, ended by one, is a single line.
pub proof fn lemma_str_lines_single(l: Seq<char>)
    requires
        forall|j: int| 0 <= j < l.len() ==> #[trigger] l[j] != '\n',
        l.len() == 0 || l.last() != '\r',
    ensures
        str_lines(l.push('\n')) == seq![l],
{
    let s = l.push('\n');
    assert forall|j: int| 0 <= j < l.len() implies #[trigger] s[j] != '\n' by {
        assert(s[j] == l[j]);
    }
    lemma_line_end_is(s, l.len() as int);
    assert(s.take(l.len() as int) =~= l);
    assert(after_line(s) =~= Seq::<char>::empty());
    assert(str_lines(after_line(s)) =~= Seq::<Seq<char>>::empty());
    assert(first_line(s) == l);
    assert(str_lines(s) =~= seq![l]);
}

/// A line with no line feed in it, ended by one, is a single line, without
/// the carriage return that may end it.
pub proof fn lemma_str_lines_one(l: Seq<char>)
    requires
        forall|j: int| 0 <= j < l.len() ==> #[trigger] l[j] != '\n',
    ensures
        str_lines(l.push('\n')) == seq![strip_cr(l)],
{
    let s = l.push('\n');
    assert forall|j: int| 0 <= j < l.len() implies #[trigger] s[j] != '\n' by {
        assert(s[j] == l[j]);
    }
    lemma_line_end_is(s, l.len() as int);
    assert(s.take(l.len() as int) =~= l);
    assert(after_line(s) =~= Seq::<char>::empty());
    assert(str_lines(after_line(s)) =~= Seq::<Seq<char>>::empty());
    assert(str_lines(s) =~= seq![strip_cr(l)]);
}

/// No line of a text holds a line feed.
pub proof fn lemma_str_lines_no_lf(c: Seq<char>)
    ensures
        forall|i: int, j: int|
            0 <= i < str_lines(c).len() && 0 <= j < str_lines(c)[i].len() ==> #[trigger] str_lines(c)[i][j] != '\n',
    decreases c.len(),
{
    if c.len() > 0 {
        lemma_line_end(c);
        lemma_str_lines_no_lf(after_line(c));
        let f = first_line(c);
        assert forall|j: int| 0 <= j < f.len() implies f[j] != '\n' by {
            if line_end(c) < c.len() {
                assert(f[j] == c[j]);
            } else {
                assert(f[j] == c[j]);
            }
        }
        assert forall|i: int, j: int|
            0 <= i < str_lines(c).len() && 0 <= j < str_lines(c)[i].len() implies #[trigger] str_lines(c)[i][j] != '\n' by {
            if i == 0 {
                assert(str_lines(c)[0] == f);
            } else {
                assert(str_lines(c)[i] == str_lines(after_line(c))[i - 1]);
            }
        }
    }
}

/// Ending a text that has no final line feed with one changes its lines,
/// trimmed, in no way.
pub proof fn lemma_str_lines_close(c: Seq<char>, t: Seq<char>)
    requires
        c.len() > 0,
        c.last() != '\n',
    ensures
        (exists|i: int| 0 <= i < str_lines(c).len() && trim(#[trigger] str_lines(c)[i]) == t) ==> exists|i: int|
            0 <= i < str_lines(c.push('\n')).len() && trim(#[trigger] str_lines(c.push('\n'))[i]) == t,
    decreases c.len(),
{
    let s = c.push('\n');
    let k = line_end(c);
    lemma_line_end(c);
    if k < c.len() {
        assert forall|j: int| 0 <= j < k implies #[trigger] s[j] != '\n' by {
            assert(s[j] == c[j]);
        }
        assert(s[k] == c[k]);
        lemma_line_end_is(s, k);
        assert(s.take(k) =~= c.take(k));
        let r = after_line(c);
        assert(after_line(s) =~= r.push('\n'));
        assert(r.len() > 0) by {
            if r.len() == 0 {
                assert(k + 1 == c.len());
            }
        }
        assert(r.last() == c.last());
        lemma_str_lines_close(r, t);
        if exists|i: int| 0 <= i < str_lines(c).len() && trim(#[trigger] str_lines(c)[i]) == t {
            let i = choose|i: int| 0 <= i < str_lines(c).len() && trim(#[trigger] str_lines(c)[i]) == t;
            if i == 0 {
                assert(str_lines(s)[0] == str_lines(c)[0]);
                assert(trim(str_lines(s)[0]) == t);
            } else {
                assert(str_lines(c)[i] == str_lines(r)[i - 1]);
                let i2 = choose|i2: int| 0 <= i2 < str_lines(r.push('\n')).len() && trim(
                    #[trigger] str_lines(r.push('\n'))[i2],
                ) == t;
                assert(str_lines(s)[i2 + 1] == str_lines(r.push('\n'))[i2]);
                assert(trim(str_lines(s)[i2 + 1]) == t);
            }
        }
    } else {
        assert forall|j: int| 0 <= j < c.len() implies #[trigger] s[j] != '\n' by {
            assert(s[j] == c[j]);
        }
        lemma_line_end_is(s, c.len() as int);
        assert(s.take(c.len() as int) =~= c);
        assert(after_line(s) =~= Seq::<char>::empty());
        assert(after_line(c) =~= Seq::<char>::empty());
        assert(str_lines(after_line(c)) =~= Seq::<Seq<char>>::empty());
        assert(str_lines(after_line(s)) =~= Seq::<Seq<char>>::empty());
        assert(first_line(c) == c);
        assert(str_lines(c) =~= seq![c]);
        assert(str_lines(s) =~= seq![strip_cr(c)]);
        if c.last() == '\r' {
            lemma_trim_drop_ws(c);
        }
        assert(trim(str_lines(s)[0]) == trim(str_lines(c)[0]));
    }
}

/// Dropping a final white-space character does not change the trimmed text.
pub proof fn lemma_trim_drop_ws(s: Seq<char>)
    requires
        s.len() > 0,
        is_ws(s.last()),
    ensures
        trim(s.drop_last()) == trim(s),
    decreases s.len(),
{
    if s.len() == 1 {
        assert(s.drop_first() =~= Seq::<char>::empty());
        assert(s.drop_last() =~= Seq::<char>::empty());
    } else if is_ws(s[0]) {
        let t = s.drop_first();
        assert(t.last() == s.last());
        lemma_trim_drop_ws(t);
        assert(s.drop_last().drop_first() =~= t.drop_last());
    } else {
        assert(s.drop_last()[0] == s[0]);
    }
}

/// The lines of a text, as `str::lines` gives them.
pub fn lines_of(v: &Vec<char>) -> (res: Vec<Vec<char>>)
    ensures
        res@.map_values(|l: Vec<char>| l@) == str_lines(v@),
{
    let n = v.len();
    let mut pos: usize = 0;
    let mut out: Vec<Vec<char>> = Vec::new();
    let ghost target = str_lines(v@);
    assert(v@.skip(0) =~= v@);
    while pos < n
        invariant
            pos <= n,
            n == v@.len(),
            target == str_lines(v@),
            target == out@.map_values(|l: Vec<char>| l@) + str_lines(v@.skip(pos as int)),
        decreases n - pos,
    {
        let ghost rest = v@.skip(pos as int);
        let e = find_line_end(v, pos);
        proof {
            lemma_line_end(rest);
        }
        let mut line = sub_vec(v, pos, e);
        if e < n && line.len() > 0 && line[line.len() - 1] == '\r' {
            line.pop();
        }
        proof {
            if e < n {
                assert(line@ =~= strip_cr(rest.take(line_end(rest))));
            } else {
                assert(line@ =~= rest);
            }
        }
        let ghost lv = line@;
        let ghost before = out@.map_values(|l: Vec<char>| l@);
        out.push(line);
        assert(out@.map_values(|l: Vec<char>| l@) =~= before.push(lv));
        pos = if e < n {
            e + 1
        } else {
            n
        };
        assert(v@.skip(pos as int) =~= after_line(rest));
        assert(str_lines(rest) == seq![lv] + str_lines(after_line(rest)));
        assert(target =~= out@.map_values(|l: Vec<char>| l@) + str_lines(v@.skip(pos as int)));
    }
    assert(v@.skip(pos as int) =~= Seq::<char>::empty());
    assert(target =~= out@.map_values(|l: Vec<char>| l@));
    out
}

/// Whether `pat` occurs in `s`.
pub open spec fn contains_seq(s: Seq<char>, pat: Seq<char>) -> bool {
    exists|i: int| 0 <= i && i + pat.len() <= s.len() && #[trigger] s.subrange(i, i + pat.len()) == pat
}

/// Whether the characters `pat` occur in `v`.
pub fn contains_chars(v: &Vec<char>, pat: &Vec<char>) -> (res: bool)
    ensures
        res == contains_seq(v@, pat@),
{
    let n = v.len();
    let m = pat.len();
    if m > n {
        return false;
    }
    let mut i: usize = 0;
    while i <= n - m
        invariant
            m == pat@.len(),
            n == v@.len(),
            m <= n,
            i <= n - m + 1,
            forall|k: int| 0 <= k < i ==> #[trigger] v@.subrange(k, k + m) != pat@,
        decreases n - i,
    {
        let mut j: usize = 0;
        let mut ok = true;
        while j < m
            invariant
                j <= m,
                i + m <= n,
                m == pat@.len(),
                n == v@.len(),
                ok == (forall|k: int| 0 <= k < j ==> v@[i + k] == pat@[k]),
            decreases m - j,
        {
            if v[i + j] != pat[j] {
                ok = false;
            }
            j += 1;
        }
        if ok {
            assert(v@.subrange(i as int, i + m) =~= pat@);
            return true;
        }
        assert(v@.subrange(i as int, i + m) != pat@) by {
            let k = choose|k: int| 0 <= k < m && v@[i + k] != pat@[k];
            assert(v@.subrange(i as int, i + m)[k] == v@[i + k]);
        }
        i += 1;
    }
    false
}

/// The index of the first white-space character of `s`, or its length.
pub open spec fn token_end(s: Seq<char>) -> int
    decreases s.len(),
{
    if s.len() == 0 || is_ws(s[0]) {
        0
    } else {
        1 + token_end(s.drop_first())
    }
}

/// `split_whitespace().next()`: the first run of non-white-space characters.
pub open spec fn first_token(s: Seq<char>) -> Option<Seq<char>> {
    let t = trim_start(s);
    if t.len() == 0 {
        None
    } else {
        Some(t.take(token_end(t)))
    }
}

proof fn lemma_token_end(s: Seq<char>, k: int)
    requires
        0 <= k <= s.len(),
        forall|j: int| 0 <= j < k ==> !is_ws(#[trigger] s[j]),
        k < s.len() ==> is_ws(s[k]),
    ensures
        token_end(s) == k,
    decreases k,
{
    if k > 0 {
        let t = s.drop_first();
        assert forall|j: int| 0 <= j < k - 1 implies !is_ws(#[trigger] t[j]) by {
            assert(t[j] == s[j + 1]);
        }
        assert(!is_ws(s[0]));
        lemma_token_end(t, k - 1);
    }
}

/// A token ends no later than the text.
proof fn lemma_token_end_bound(s: Seq<char>)
    ensures
        0 <= token_end(s) <= s.len(),
    decreases s.len(),
{
    if s.len() > 0 && !is_ws(s[0]) {
        lemma_token_end_bound(s.drop_first());
    }
}

/// Dropping a final white-space character does not move the end of the
/// first token.
proof fn lemma_token_end_drop_ws(s: Seq<char>)
    requires
        s.len() > 0,
        is_ws(s.last()),
    ensures
        token_end(s.drop_last()) == token_end(s),
    decreases s.len(),
{
    if s.len() > 1 && !is_ws(s[0]) {
        let t = s.drop_first();
        assert(t.last() == s.last());
        lemma_token_end_drop_ws(t);
        assert(s.drop_last().drop_first() =~= t.drop_last());
        assert(s.drop_last()[0] == s[0]);
    }
}

/// Dropping a final white-space character does not change the first token.
pub proof fn lemma_first_token_drop_ws(s: Seq<char>)
    requires
        s.len() > 0,
        is_ws(s.last()),
    ensures
        first_token(s.drop_last()) == first_token(s),
    decreases s.len(),
{
    if s.len() == 1 {
        assert(s.drop_first() =~= Seq::<char>::empty());
        assert(s.drop_last() =~= Seq::<char>::empty());
    } else if is_ws(s[0]) {
        let t = s.drop_first();
        assert(t.last() == s.last());
        lemma_first_token_drop_ws(t);
        assert(s.drop_last().drop_first() =~= t.drop_last());
        assert(s.drop_last()[0] == s[0]);
    } else {
        assert(s.drop_last()[0] == s[0]);
        lemma_token_end_drop_ws(s);
        lemma_token_end_bound(s.drop_last());
        assert(s.drop_last().take(token_end(s)) =~= s.take(token_end(s)));
    }
}

/// The first white-space separated word of a line.
pub fn first_word(v: &Vec<char>) -> (res: Option<Vec<char>>)
    ensures
        match res {
            Some(w) => first_token(v@) == Some(w@),
            None => first_token(v@) is None,
        },
{
    let n = v.len();
    let mut a: usize = 0;
    while a < n && is_whitespace(v[a])
        invariant
            a <= n,
            n == v@.len(),
            forall|j: int| 0 <= j < a ==> is_ws(#[trigger] v@[j]),
        decreases n - a,
    {
        a += 1;
    }
    proof {
        lemma_trim_start_skip(v@, a as int);
    }
    let ghost t = v@.skip(a as int);
    assert(trim_start(t) == t);
    if a == n {
        return None;
    }
    let mut b: usize = a;
    while b < n && !is_whitespace(v[b])
        invariant
            a <= b <= n,
            n == v@.len(),
            forall|j: int| a <= j < b ==> !is_ws(#[trigger] v@[j]),
        decreases n - b,
    {
        b += 1;
    }
    proof {
        assert forall|j: int| 0 <= j < b - a implies !is_ws(#[trigger] t[j]) by {
            assert(t[j] == v@[j + a]);
        }
        if b < n {
            assert(t[b - a] == v@[b as int]);
        }
        lemma_token_end(t, b - a);
        assert(t.take(b - a) =~= v@.subrange(a as int, b as int));
    }
    Some(sub_vec(v, a, b))
}

/// A decimal digit character.
pub open spec fn is_dec_digit(c: char) -> bool {
    '0' <= c && c <= '9'
}

/// The value of a string of decimal digits.
pub open spec fn dec_value(d: Seq<char>) -> nat
    decreases d.len(),
{
    if d.len() == 0 {
        0
    } else {
        dec_value(d.drop_last()) * 10 + (d.last() as nat - 48) as nat
    }
}

/// `u64::from_str`: an optional `+` followed by at least one decimal digit.
pub open spec fn parse_unsigned(s: Seq<char>) -> Option<nat> {
    let d = unsigned_digits(s);
    if d.len() > 0 && all_dec_digits(d) {
        Some(dec_value(d))
    } else {
        None
    }
}

/// The digits of an unsigned number: the text without one leading `+`.
pub open spec fn unsigned_digits(s: Seq<char>) -> Seq<char> {
    if s.len() > 0 && s[0] == '+' {
        s.drop_first()
    } else {
        s
    }
}

/// Every character is a decimal digit.
pub open spec fn all_dec_digits(d: Seq<char>) -> bool {
    forall|i: int| 0 <= i < d.len() ==> is_dec_digit(#[trigger] d[i])
}

/// A longer digit prefix never has a smaller value.
pub proof fn lemma_dec_value_mono(d: Seq<char>, i: int, j: int)
    requires
        0 <= i <= j <= d.len(),
        forall|k: int| 0 <= k < d.len() ==> is_dec_digit(#[trigger] d[k]),
    ensures
        dec_value(d.take(i)) <= dec_value(d.take(j)),
    decreases j - i,
{
    if i < j {
        lemma_dec_value_mono(d, i, j - 1);
        assert(d.take(j).drop_last() =~= d.take(j - 1));
        assert(d.take(j).last() == d[j - 1]);
    }
}

/// `u64::from_str` on characters: `None` when the text is not a number or the
/// number exceeds `u64::MAX`.
pub fn parse_u64(v: &Vec<char>) -> (res: Option<u64>)
    ensures
        res matches Some(n) ==> parse_unsigned(v@) == Some(n as nat),
        res is None ==> parse_unsigned(v@) is None || parse_unsigned(v@).unwrap() > u64::MAX,
{
    let n = v.len();
    let start: usize = if n > 0 && v[0] == '+' {
        1
    } else {
        0
    };
    let ghost d = v@.skip(start as int);
    assert(d == unsigned_digits(v@));
    if start >= n {
        return None;
    }
    let mut acc: u64 = 0;
    let mut i: usize = start;
    while i < n
        invariant
            start <= i <= n,
            n == v@.len(),
            d == v@.skip(start as int),
            d == unsigned_digits(v@),
            d.len() > 0,
            acc as nat == dec_value(d.take(i - start)),
            forall|k: int| 0 <= k < i - start ==> is_dec_digit(#[trigger] d[k]),
        decreases n - i,
    {
        let c = v[i];
        assert(d[i - start] == v@[i as int]);
        if !('0' <= c && c <= '9') {
            assert(!is_dec_digit(d[i - start]));
            assert(!all_dec_digits(d));
            return None;
        }
        let digit = (c as u32 - 48) as u64;
        assert(d.take(i - start + 1).drop_last() =~= d.take(i - start));
        assert(d.take(i - start + 1).last() == c);
        if acc > (u64::MAX - digit) / 10 {
            proof {
                assert(acc * 10 + digit > u64::MAX) by (nonlinear_arith)
                    requires
                        acc > (u64::MAX - digit) / 10,
                        digit <= 9,
                ;
                let e = d.len() as int;
                assert(dec_value(d.take(i - start + 1)) == acc * 10 + digit);
                if all_dec_digits(d) {
                    lemma_dec_value_mono(d, i - start + 1, e);
                    assert(d.take(e) =~= d);
                    assert(parse_unsigned(v@) == Some(dec_value(d)));
                }
            }
            return None;
        }
        acc = acc * 10 + digit;
        i += 1;
    }
    assert(d.take(n - start) =~= d);
    assert(all_dec_digits(d));
    Some(acc)
}

} // verus!
