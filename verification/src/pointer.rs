use vstd::prelude::*;

use vstd::utf8::{encode_utf8, is_ascii_chars, is_ascii_chars_encode_utf8};

use crate::cas::hash::{
    hex_chars_to_hash, hex_decode, hex_encode, is_hash_hex, is_hex_digit, lemma_hex_roundtrip, push_hex,
};
use crate::error::HfsError;
use crate::text::{
    after_line, all_ascii, all_dec_digits, ascii_chars, ascii_string, chars_of, dec_value, find_line_end,
    first_line, has_prefix, is_dec_digit, is_ws, lemma_line_end, lemma_line_end_is, line_end, parse_u64,
    parse_unsigned, push_ascii, starts_with, strip_cr, sub_vec, trim, trim_chars, trim_end, trim_start,
    unsigned_digits,
};

verus! {

/// What Git stores in place of a tracked file.
#[derive(Debug, Clone, Copy, PartialEq, Eq)]
pub struct Pointer {
    pub version: u8,
    /// BLAKE3 hash of the file's manifest.
    pub oid: [u8; 32],
    /// Size of the original file in bytes.
    pub size: u64,
    pub chunk_count: u32,
}

/// Pointer files are recognised only up to this many bytes.
pub const MAX_POINTER_SIZE: usize = 256;

/// `hfs v1`
pub open spec fn header_text() -> Seq<char> {
    seq!['h', 'f', 's', ' ', 'v', '1']
}

/// `oid blake3:`
pub open spec fn oid_prefix() -> Seq<char> {
    seq!['o', 'i', 'd', ' ', 'b', 'l', 'a', 'k', 'e', '3', ':']
}

/// `size `
pub open spec fn size_prefix() -> Seq<char> {
    seq!['s', 'i', 'z', 'e', ' ']
}

/// `chunks `
pub open spec fn chunks_prefix() -> Seq<char> {
    seq!['c', 'h', 'u', 'n', 'k', 's', ' ']
}

/// Decimal text of a number, without leading zeros.
pub open spec fn dec_text(n: nat) -> Seq<char>
    decreases n,
{
    if n < 10 {
        seq![(n + 48) as char]
    } else {
        dec_text(n / 10).push((n % 10 + 48) as char)
    }
}

/// The text of a pointer:
/// `hfs v1\noid blake3:<hex>\nsize <size>\nchunks <count>\n`.
pub open spec fn pointer_text(oid: Seq<u8>, size: u64, count: u32) -> Seq<char> {
    header_text().push('\n') + oid_prefix() + hex_encode(oid) + seq!['\n'] + size_prefix()
        + dec_text(size as nat) + seq!['\n'] + chunks_prefix() + dec_text(count as nat) + seq!['\n']
}

/// The fields read so far while decoding: oid, size and chunk count.
pub type Fields = (Option<Seq<u8>>, Option<u64>, Option<u32>);

/// The effect of one line after the header on the fields read so far.
#[verifier::opaque]
pub open spec fn apply_line(line: Seq<char>, st: Fields) -> Result<Fields, HfsError> {
    let t = trim(line);
    if t.len() == 0 {
        Ok(st)
    } else if has_prefix(t, oid_prefix()) {
        let rest = t.skip(11);
        if is_hash_hex(rest) {
            Ok((Some(hex_decode(rest)), st.1, st.2))
        } else {
            Err(HfsError::InvalidOid)
        }
    } else if has_prefix(t, size_prefix()) {
        match parse_unsigned(t.skip(5)) {
            Some(v) => if v <= u64::MAX {
                Ok((st.0, Some(v as u64), st.2))
            } else {
                Err(HfsError::InvalidSize)
            },
            None => Err(HfsError::InvalidSize),
        }
    } else if has_prefix(t, chunks_prefix()) {
        match parse_unsigned(t.skip(7)) {
            Some(v) => if v <= u32::MAX {
                Ok((st.0, st.1, Some(v as u32)))
            } else {
                Err(HfsError::InvalidChunkCount)
            },
            None => Err(HfsError::InvalidChunkCount),
        }
    } else {
        Ok(st)
    }
}

/// Applies every line of `rest`, in order, stopping at the first error.
pub open spec fn apply_lines(rest: Seq<char>, st: Fields) -> Result<Fields, HfsError>
    decreases rest.len(),
{
    if rest.len() == 0 {
        Ok(st)
    } else {
        proof {
            lemma_line_end(rest);
        }
        match apply_line(rest.take(line_end(rest)), st) {
            Ok(st2) => apply_lines(after_line(rest), st2),
            Err(e) => Err(e),
        }
    }
}

/// Decoding of pointer text: the header line must be `hfs v1`; then each
/// line, trimmed, may set the oid, the size or the chunk count (the last one
/// wins), and other lines are ignored; all three must be present.
pub open spec fn spec_decode(s: Seq<char>) -> Result<(Seq<u8>, u64, u32), HfsError> {
    if s.len() == 0 {
        Err(HfsError::MissingHeader)
    } else if first_line(s) != header_text() {
        Err(HfsError::InvalidHeader)
    } else {
        match apply_lines(after_line(s), (None, None, None)) {
            Err(e) => Err(e),
            Ok(st) => match st {
                (None, _, _) => Err(HfsError::MissingOid),
                (Some(_), None, _) => Err(HfsError::MissingSize),
                (Some(_), Some(_), None) => Err(HfsError::MissingChunkCount),
                (Some(o), Some(sz), Some(c)) => Ok((o, sz, c)),
            },
        }
    }
}

/// The bytes of `hfs v1`.
pub open spec fn header_bytes() -> Seq<u8> {
    seq![104u8, 102u8, 115u8, 32u8, 118u8, 49u8]
}

/// Whether bytes look like a pointer: at most 256 bytes, starting with `hfs v1`.
pub open spec fn spec_is_pointer(data: Seq<u8>) -> bool {
    data.len() <= MAX_POINTER_SIZE && data.len() >= 6 && data.take(6) == header_bytes()
}

/// The fields held so far, by their views.
pub open spec fn fields_view(o: Option<[u8; 32]>, s: Option<u64>, c: Option<u32>) -> Fields {
    (
        match o {
            Some(a) => Some(a@),
            None => None,
        },
        s,
        c,
    )
}

fn push_decimal(out: &mut Vec<u8>, n: u64)
    requires
        all_ascii(old(out)@),
    ensures
        all_ascii(final(out)@),
        ascii_chars(final(out)@) == ascii_chars(old(out)@) + dec_text(n as nat),
    decreases n,
{
    let ghost start = out@;
    if n >= 10 {
        push_decimal(out, n / 10);
    }
    let d = (n % 10) as u8 + 48;
    let ghost mid = out@;
    out.push(d);
    proof {
        assert(ascii_chars(out@) =~= ascii_chars(mid).push(d as char));
        if n < 10 {
            assert(mid == start);
            assert(ascii_chars(out@) =~= ascii_chars(start) + dec_text(n as nat));
        } else {
            assert(dec_text(n as nat) == dec_text((n / 10) as nat).push((n % 10 + 48) as char));
            assert(ascii_chars(out@) =~= ascii_chars(start) + dec_text(n as nat));
        }
    }
}

fn parse_line(line: &Vec<char>, oid: Option<[u8; 32]>, size: Option<u64>, count: Option<u32>) -> (res: Result<(Option<[u8; 32]>, Option<u64>, Option<u32>), HfsError>)
    ensures
        match res {
            Ok((o, s, c)) => apply_line(line@, fields_view(oid, size, count)) == Ok::<Fields, HfsError>(fields_view(o, s, c)),
            Err(e) => apply_line(line@, fields_view(oid, size, count)) == Err::<Fields, HfsError>(e),
        },
{
    reveal(apply_line);
    let t = trim_chars(line);
    if t.len() == 0 {
        return Ok((oid, size, count));
    }
    let p_oid = vec!['o', 'i', 'd', ' ', 'b', 'l', 'a', 'k', 'e', '3', ':'];
    let p_size = vec!['s', 'i', 'z', 'e', ' '];
    let p_chunks = vec!['c', 'h', 'u', 'n', 'k', 's', ' '];
    assert(p_oid@ == oid_prefix());
    assert(p_size@ == size_prefix());
    assert(p_chunks@ == chunks_prefix());
    if starts_with(&t, &p_oid) {
        let rest = sub_vec(&t, 11, t.len());
        assert(rest@ == t@.skip(11));
        match hex_chars_to_hash(&rest) {
            Ok(h) => Ok((Some(h), size, count)),
            Err(_) => Err(HfsError::InvalidOid),
        }
    } else if starts_with(&t, &p_size) {
        let rest = sub_vec(&t, 5, t.len());
        assert(rest@ == t@.skip(5));
        match parse_u64(&rest) {
            Some(v) => Ok((oid, Some(v), count)),
            None => Err(HfsError::InvalidSize),
        }
    } else if starts_with(&t, &p_chunks) {
        let rest = sub_vec(&t, 7, t.len());
        assert(rest@ == t@.skip(7));
        match parse_u64(&rest) {
            Some(v) => {
                if v <= 4294967295 {
                    Ok((oid, size, Some(v as u32)))
                } else {
                    Err(HfsError::InvalidChunkCount)
                }
            },
            None => Err(HfsError::InvalidChunkCount),
        }
    } else {
        Ok((oid, size, count))
    }
}

/// Decimal text is a non-empty run of digits whose value is the number.
pub proof fn lemma_dec_text(n: nat)
    ensures
        dec_text(n).len() > 0,
        all_dec_digits(dec_text(n)),
        dec_value(dec_text(n)) == n,
        parse_unsigned(dec_text(n)) == Some(n),
    decreases n,
{
    let t = dec_text(n);
    let c = (n % 10 + 48) as char;
    assert(c as nat == n % 10 + 48);
    if n >= 10 {
        lemma_dec_text(n / 10);
        assert(t.drop_last() =~= dec_text(n / 10));
        assert(t.last() == c);
        assert(forall|i: int| 0 <= i < t.len() - 1 ==> t[i] == dec_text(n / 10)[i]);
        assert(dec_value(t) == dec_value(dec_text(n / 10)) * 10 + (n % 10));
        assert((n / 10) * 10 + n % 10 == n);
    } else {
        assert(t.drop_last() =~= Seq::<char>::empty());
        assert(n % 10 == n);
        assert(t.last() == c);
        assert(dec_value(Seq::<char>::empty()) == 0);
        assert(dec_value(t) == dec_value(t.drop_last()) * 10 + (c as nat - 48));
    }
    assert(is_dec_digit(t[0]));
    assert(unsigned_digits(t) == t);
}

/// A line made of `p` then `body`, with no line feed, followed by the rest.
proof fn lemma_split_line(l: Seq<char>, r: Seq<char>)
    requires
        forall|j: int| 0 <= j < l.len() ==> #[trigger] l[j] != '\n',
    ensures
        line_end(l + seq!['\n'] + r) == l.len(),
        (l + seq!['\n'] + r).take(l.len() as int) == l,
        after_line(l + seq!['\n'] + r) == r,
{
    let t = l + seq!['\n'] + r;
    assert forall|j: int| 0 <= j < l.len() implies #[trigger] t[j] != '\n' by {
        assert(t[j] == l[j]);
    }
    lemma_line_end_is(t, l.len() as int);
    assert(t.take(l.len() as int) =~= l);
    assert(t.skip(l.len() as int + 1) =~= r);
}

/// A non-empty line that neither starts nor ends with white space is its own trim.
proof fn lemma_trim_id(l: Seq<char>)
    requires
        l.len() > 0,
        !is_ws(l[0]),
        !is_ws(l.last()),
    ensures
        trim(l) == l,
{
    assert(trim_start(l) == l);
    assert(trim_end(l) == l);
}

/// The oid line of a pointer's text sets the oid.
proof fn lemma_oid_line(oid: Seq<u8>, st: Fields)
    requires
        oid.len() == 32,
    ensures
        apply_line(oid_prefix() + hex_encode(oid), st) == Ok::<Fields, HfsError>((Some(oid), st.1, st.2)),
{
    reveal(apply_line);
    let hex = hex_encode(oid);
    lemma_hex_roundtrip(oid);
    let l1 = oid_prefix() + hex;
    assert(l1.last() == hex.last());
    assert(is_hex_digit(hex[63]));
    lemma_trim_id(l1);
    assert(l1.skip(11) =~= hex);
    assert(l1.take(11) =~= oid_prefix());
}

/// The size line of a pointer's text sets the size.
proof fn lemma_size_line(size: u64, st: Fields)
    ensures
        apply_line(size_prefix() + dec_text(size as nat), st) == Ok::<Fields, HfsError>((st.0, Some(size), st.2)),
{
    reveal(apply_line);
    lemma_dec_text(size as nat);
    let ds = dec_text(size as nat);
    let l2 = size_prefix() + ds;
    assert(l2.last() == ds.last());
    assert(is_dec_digit(ds[ds.len() - 1]));
    lemma_trim_id(l2);
    assert(l2.skip(5) =~= ds);
    assert(!has_prefix(l2, oid_prefix())) by {
        if l2.len() >= 11 {
            assert(l2.take(11)[0] == l2[0]);
        }
    }
    assert(l2.take(5) =~= size_prefix());
}

/// The chunks line of a pointer's text sets the chunk count.
proof fn lemma_chunks_line(count: u32, st: Fields)
    ensures
        apply_line(chunks_prefix() + dec_text(count as nat), st) == Ok::<Fields, HfsError>((st.0, st.1, Some(count))),
{
    reveal(apply_line);
    lemma_dec_text(count as nat);
    let dc = dec_text(count as nat);
    let l3 = chunks_prefix() + dc;
    assert(l3.last() == dc.last());
    assert(is_dec_digit(dc[dc.len() - 1]));
    lemma_trim_id(l3);
    assert(l3.skip(7) =~= dc);
    assert(!has_prefix(l3, oid_prefix())) by {
        if l3.len() >= 11 {
            assert(l3.take(11)[0] == l3[0]);
        }
    }
    assert(!has_prefix(l3, size_prefix())) by {
        assert(l3.take(5)[0] == l3[0]);
    }
    assert(l3.take(7) =~= chunks_prefix());
}

/// Applying the lines of `l\nr`: first the line `l`, then the lines of `r`.
proof fn lemma_apply_lines_step(l: Seq<char>, r: Seq<char>, st: Fields)
    requires
        forall|j: int| 0 <= j < l.len() ==> #[trigger] l[j] != '\n',
    ensures
        apply_lines(l + seq!['\n'] + r, st) == match apply_line(l, st) {
            Ok(st2) => apply_lines(r, st2),
            Err(e) => Err(e),
        },
{
    lemma_split_line(l, r);
}

/// Characters that are hex or decimal digits are not line feeds.
proof fn lemma_field_no_newline(p: Seq<char>, body: Seq<char>)
    requires
        forall|j: int| 0 <= j < p.len() ==> #[trigger] p[j] != '\n',
        forall|j: int| 0 <= j < body.len() ==> is_hex_digit(#[trigger] body[j]),
    ensures
        forall|j: int| 0 <= j < (p + body).len() ==> #[trigger] (p + body)[j] != '\n',
{
    assert forall|j: int| 0 <= j < (p + body).len() implies #[trigger] (p + body)[j] != '\n' by {
        if j >= p.len() {
            assert((p + body)[j] == body[j - p.len()]);
            assert(is_hex_digit(body[j - p.len()]));
        }
    }
}

/// Pointer text round trip: decoding the text of a pointer gives back its
/// oid, size and chunk count.
pub proof fn lemma_pointer_roundtrip(oid: Seq<u8>, size: u64, count: u32)
    requires
        oid.len() == 32,
    ensures
        spec_decode(pointer_text(oid, size, count)) == Ok::<(Seq<u8>, u64, u32), HfsError>((oid, size, count)),
{
    let hex = hex_encode(oid);
    lemma_hex_roundtrip(oid);
    lemma_dec_text(size as nat);
    lemma_dec_text(count as nat);
    let ds = dec_text(size as nat);
    let dc = dec_text(count as nat);
    let l1 = oid_prefix() + hex;
    let l2 = size_prefix() + ds;
    let l3 = chunks_prefix() + dc;
    let r3 = Seq::<char>::empty();
    let r2 = l3 + seq!['\n'] + r3;
    let r1 = l2 + seq!['\n'] + r2;
    let r0 = l1 + seq!['\n'] + r1;
    let t = header_text() + seq!['\n'] + r0;
    assert(t =~= pointer_text(oid, size, count));
    lemma_field_no_newline(oid_prefix(), hex);
    lemma_field_no_newline(size_prefix(), ds);
    lemma_field_no_newline(chunks_prefix(), dc);
    lemma_split_line(header_text(), r0);
    assert(first_line(t) == header_text());
    let st0: Fields = (None, None, None);
    let st1: Fields = (Some(oid), None, None);
    let st2: Fields = (Some(oid), Some(size), None);
    let st3: Fields = (Some(oid), Some(size), Some(count));
    lemma_oid_line(oid, st0);
    lemma_size_line(size, st1);
    lemma_chunks_line(count, st2);
    lemma_apply_lines_step(l3, r3, st2);
    lemma_apply_lines_step(l2, r2, st1);
    lemma_apply_lines_step(l1, r1, st0);
    assert(apply_lines(r3, st3) == Ok::<Fields, HfsError>(st3));
    assert(apply_lines(r0, st0) == Ok::<Fields, HfsError>(st3));
}

/// Ten to the power `k`.
pub open spec fn pow10(k: nat) -> nat
    decreases k,
{
    if k == 0 {
        1
    } else {
        10 * pow10((k - 1) as nat)
    }
}

/// A number below `10^k` has at most `k` decimal digits.
proof fn lemma_dec_text_len(n: nat, k: nat)
    requires
        k >= 1,
        n < pow10(k),
    ensures
        dec_text(n).len() <= k,
    decreases k,
{
    if n >= 10 {
        assert(k >= 2) by {
            if k == 1 {
                assert(pow10(1) == 10 * pow10(0));
            }
        }
        assert(pow10(k) == 10 * pow10((k - 1) as nat));
        assert(n / 10 < pow10((k - 1) as nat));
        lemma_dec_text_len(n / 10, (k - 1) as nat);
    }
}

/// The text of a pointer is recognised as a pointer: it starts with the
/// header and is shorter than 256 bytes (at most 127).
pub proof fn lemma_encoded_is_pointer(oid: Seq<u8>, size: u64, count: u32)
    requires
        oid.len() == 32,
    ensures
        spec_is_pointer(encode_utf8(pointer_text(oid, size, count))),
        encode_utf8(pointer_text(oid, size, count)).len() == pointer_text(oid, size, count).len(),
        pointer_text(oid, size, count).len() <= 127 < 256,
{
    let t = pointer_text(oid, size, count);
    let hex = hex_encode(oid);
    lemma_hex_roundtrip(oid);
    lemma_dec_text(size as nat);
    lemma_dec_text(count as nat);
    let ds = dec_text(size as nat);
    let dc = dec_text(count as nat);
    assert(pow10(20) == 100000000000000000000) by {
        reveal_with_fuel(pow10, 21);
    }
    assert(pow10(10) == 10000000000) by {
        reveal_with_fuel(pow10, 11);
    }
    lemma_dec_text_len(size as nat, 20);
    lemma_dec_text_len(count as nat, 10);
    assert(t.len() == 97 + ds.len() + dc.len());
    assert(is_ascii_chars(t)) by {
        assert forall|i: int| 0 <= i < t.len() implies '\0' <= #[trigger] t[i] <= '\u{7f}' by {
            if 18 <= i < 82 {
                assert(t[i] == hex[i - 18]);
                assert(is_hex_digit(hex[i - 18]));
            } else if 88 <= i < 88 + ds.len() {
                assert(t[i] == ds[i - 88]);
                assert(is_dec_digit(ds[i - 88]));
            } else if 96 + ds.len() <= i < 96 + ds.len() + dc.len() {
                assert(t[i] == dc[i - 96 - ds.len()]);
                assert(is_dec_digit(dc[i - 96 - ds.len()]));
            }
        }
    }
    is_ascii_chars_encode_utf8(t);
    let b = encode_utf8(t);
    assert(b.take(6) =~= header_bytes()) by {
        assert forall|i: int| 0 <= i < 6 implies b[i] == header_bytes()[i] by {
            assert(t[i] as u8 == b[i]);
        }
    }
}

impl Pointer {
    /// The pointer's text.
    pub open spec fn text(&self) -> Seq<char> {
        pointer_text(self.oid@, self.size, self.chunk_count)
    }

    /// Pointer text: `hfs v1\noid blake3:<hex>\nsize <size>\nchunks <count>\n`.
    pub fn encode(&self) -> (res: String)
        ensures
            res@ == self.text(),
            encode_utf8(res@).len() < 256,
            spec_is_pointer(encode_utf8(res@)),
    {
        proof {
            lemma_encoded_is_pointer(self.oid@, self.size, self.chunk_count);
        }
        let mut out: Vec<u8> = Vec::new();
        assert(ascii_chars(out@) =~= Seq::<char>::empty());
        proof {
            reveal_strlit("hfs v1\noid blake3:");
            reveal_strlit("\nsize ");
            reveal_strlit("\nchunks ");
            reveal_strlit("\n");
        }
        push_ascii(&mut out, "hfs v1\noid blake3:");
        push_hex(&mut out, &self.oid);
        push_ascii(&mut out, "\nsize ");
        push_decimal(&mut out, self.size);
        push_ascii(&mut out, "\nchunks ");
        push_decimal(&mut out, self.chunk_count as u64);
        push_ascii(&mut out, "\n");
        assert(ascii_chars(out@) =~= self.text());
        ascii_string(out)
    }

    /// Parses pointer text; the version is always 1.
    pub fn decode(s: &str) -> (res: Result<Pointer, HfsError>)
        ensures
            match res {
                Ok(p) => spec_decode(s@) == Ok::<(Seq<u8>, u64, u32), HfsError>((p.oid@, p.size, p.chunk_count))
                    && p.version == 1,
                Err(e) => spec_decode(s@) == Err::<(Seq<u8>, u64, u32), HfsError>(e),
            },
    {
        let v = chars_of(s);
        let n = v.len();
        if n == 0 {
            return Err(HfsError::MissingHeader);
        }
        let e = find_line_end(&v, 0);
        proof {
            assert(v@.skip(0) =~= v@);
            lemma_line_end(v@);
        }
        let mut header = sub_vec(&v, 0, e);
        if e < n && header.len() > 0 && header[header.len() - 1] == '\r' {
            header.pop();
        }
        proof {
            if e < n {
                assert(header@ =~= strip_cr(v@.take(e as int)));
            } else {
                assert(header@ =~= v@);
            }
        }
        let hdr = vec!['h', 'f', 's', ' ', 'v', '1'];
        assert(hdr@ == header_text());
        if !(header.len() == hdr.len() && starts_with(&header, &hdr)) {
            proof {
                if header@.len() == hdr@.len() {
                    assert(!has_prefix(header@, hdr@));
                    assert(header@.take(6) =~= header@);
                }
            }
            return Err(HfsError::InvalidHeader);
        }
        assert(header@.take(6) =~= header@);
        let mut pos: usize = if e < n {
            e + 1
        } else {
            n
        };
        assert(v@.skip(pos as int) =~= after_line(v@));
        let mut oid: Option<[u8; 32]> = None;
        let mut size: Option<u64> = None;
        let mut count: Option<u32> = None;
        let ghost target = apply_lines(after_line(v@), (None, None, None));
        while pos < n
            invariant
                pos <= n,
                n == v@.len(),
                apply_lines(v@.skip(pos as int), fields_view(oid, size, count)) == target,
                target == apply_lines(after_line(v@), (None, None, None)),
                v@ == s@,
                v@.len() > 0,
                first_line(v@) == header_text(),
            decreases n - pos,
        {
            let ghost rest = v@.skip(pos as int);
            let le = find_line_end(&v, pos);
            proof {
                lemma_line_end(rest);
            }
            let line = sub_vec(&v, pos, le);
            assert(line@ =~= rest.take(line_end(rest)));
            let r = parse_line(&line, oid, size, count);
            match r {
                Ok((o, sz, c)) => {
                    oid = o;
                    size = sz;
                    count = c;
                },
                Err(err) => {
                    assert(apply_lines(rest, fields_view(oid, size, count)) == Err::<Fields, HfsError>(err));
                    return Err(err);
                },
            }
            pos = if le < n {
                le + 1
            } else {
                n
            };
            assert(v@.skip(pos as int) =~= after_line(rest));
        }
        assert(v@.skip(pos as int) =~= Seq::<char>::empty());
        match (oid, size, count) {
            (Some(o), Some(sz), Some(c)) => Ok(Pointer { version: 1, oid: o, size: sz, chunk_count: c }),
            (None, _, _) => Err(HfsError::MissingOid),
            (Some(_), None, _) => Err(HfsError::MissingSize),
            (Some(_), Some(_), None) => Err(HfsError::MissingChunkCount),
        }
    }

    /// Quick check: at most 256 bytes that start with `hfs v1`.
    pub fn is_pointer(data: &[u8]) -> (res: bool)
        ensures
            res == spec_is_pointer(data@),
    {
        if data.len() > MAX_POINTER_SIZE || data.len() < 6 {
            return false;
        }
        let ok = data[0] == 104 && data[1] == 102 && data[2] == 115 && data[3] == 32 && data[4] == 118
            && data[5] == 49;
        proof {
            if ok {
                assert(data@.take(6) =~= header_bytes());
            } else {
                assert(data@.take(6) != header_bytes()) by {
                    if data@.take(6) == header_bytes() {
                        assert(data@.take(6)[0] == data@[0]);
                        assert(data@.take(6)[1] == data@[1]);
                        assert(data@.take(6)[2] == data@[2]);
                        assert(data@.take(6)[3] == data@[3]);
                        assert(data@.take(6)[4] == data@[4]);
                        assert(data@.take(6)[5] == data@[5]);
                    }
                }
            }
        }
        ok
    }
}

} // verus!
