use vstd::prelude::*;
use vstd::utf8::{
    decode_utf8, encode_utf8, encode_utf8_decode_utf8, encode_utf8_valid_utf8, is_ascii_chars,
    is_ascii_chars_encode_utf8, valid_utf8,
};

use crate::cas::hash::hex_digit_byte;
use crate::error::HfsError;
use crate::text::{append_bytes, lemma_encode_utf8_concat, string_pop, string_push, utf8_string};

verus! {

/// Lowercase hex digits of `n`, without leading zeros.
pub open spec fn hex_digits(n: nat) -> Seq<u8>
    decreases n,
{
    if n < 16 {
        seq![hex_digit_byte(n as int)]
    } else {
        hex_digits(n / 16).push(hex_digit_byte((n % 16) as int))
    }
}

/// `format!("{:04x}", n)`: lowercase hex, zero-padded to at least four digits.
pub open spec fn hex4(n: nat) -> Seq<u8> {
    if n < 65536 {
        seq![
            hex_digit_byte((n / 4096) as int),
            hex_digit_byte((n / 256 % 16) as int),
            hex_digit_byte((n / 16 % 16) as int),
            hex_digit_byte((n % 16) as int),
        ]
    } else {
        hex_digits(n)
    }
}

/// A pkt-line packet carrying `payload`: its length plus four, in hex, then the payload.
pub open spec fn pkt_frame(payload: Seq<u8>) -> Seq<u8> {
    hex4(payload.len() + 4) + payload
}

/// The flush packet `0000`.
pub open spec fn flush_pkt() -> Seq<u8> {
    seq![48u8, 48u8, 48u8, 48u8]
}

/// The payload of a text packet: the UTF-8 text and a line feed.
pub open spec fn text_payload(text: Seq<char>) -> Seq<u8> {
    encode_utf8(text).push(10u8)
}

/// A hex digit byte (`0-9`, `a-f`, `A-F`).
pub open spec fn is_hex_byte(b: u8) -> bool {
    (48 <= b && b <= 57) || (97 <= b && b <= 102) || (65 <= b && b <= 70)
}

/// The value of a hex digit byte.
pub open spec fn hex_byte_value(b: u8) -> nat {
    if 48 <= b && b <= 57 {
        (b - 48) as nat
    } else if 97 <= b && b <= 102 {
        (b - 87) as nat
    } else {
        (b - 55) as nat
    }
}

/// The value of a run of hex digits.
pub open spec fn hex_run_value(d: Seq<u8>) -> nat
    decreases d.len(),
{
    if d.len() == 0 {
        0
    } else {
        hex_run_value(d.drop_last()) * 16 + hex_byte_value(d.last())
    }
}

/// `usize::from_str_radix(_, 16)` on the four length bytes: an optional `+`,
/// then hex digits only.
pub open spec fn pkt_len(h: Seq<u8>) -> Option<nat> {
    let d = pkt_len_digits(h);
    if d.len() > 0 && all_hex_bytes(d) {
        Some(hex_run_value(d))
    } else {
        None
    }
}

/// The digits of a length: the header without one leading `+`.
pub open spec fn pkt_len_digits(h: Seq<u8>) -> Seq<u8> {
    if h.len() > 0 && h[0] == 43 {
        h.drop_first()
    } else {
        h
    }
}

/// Every byte is a hex digit.
pub open spec fn all_hex_bytes(d: Seq<u8>) -> bool {
    forall|i: int| 0 <= i < d.len() ==> is_hex_byte(#[trigger] d[i])
}

/// What reading one packet from `input` gives, and what is left of the input.
/// Fewer than four bytes, or the flush packet, read as `None`.
pub open spec fn spec_read_packet(input: Seq<u8>) -> (Result<Option<Seq<u8>>, HfsError>, Seq<u8>) {
    if input.len() < 4 {
        (Ok(None), Seq::empty())
    } else {
        match pkt_len(input.take(4)) {
            None => (Err(HfsError::InvalidPktHeader), input.skip(4)),
            Some(n) => if n == 0 {
                (Ok(None), input.skip(4))
            } else if n < 4 {
                (Err(HfsError::InvalidPktLength), input.skip(4))
            } else if input.len() < n {
                (Err(HfsError::UnexpectedEof), Seq::empty())
            } else {
                (Ok(Some(input.subrange(4, n as int))), input.skip(n as int))
            },
        }
    }
}

/// A line of text without its final line feed.
pub open spec fn strip_nl(t: Seq<char>) -> Seq<char> {
    if t.len() > 0 && t.last() == '\n' {
        t.drop_last()
    } else {
        t
    }
}

/// Reading one text packet: the payload must be UTF-8; one final line feed is dropped.
pub open spec fn spec_read_text(input: Seq<u8>) -> (Result<Option<Seq<char>>, HfsError>, Seq<u8>) {
    let (r, rest) = spec_read_packet(input);
    match r {
        Err(e) => (Err(e), rest),
        Ok(None) => (Ok(None), rest),
        Ok(Some(d)) => if valid_utf8(d) {
            (Ok(Some(strip_nl(decode_utf8(d)))), rest)
        } else {
            (Err(HfsError::InvalidUtf8), rest)
        },
    }
}

/// Reading consumes input, and reading a packet consumes at least four bytes.
pub proof fn lemma_read_packet_shrinks(input: Seq<u8>)
    ensures
        spec_read_packet(input).1.len() <= input.len(),
        spec_read_packet(input).0 matches Ok(Some(_)) ==> spec_read_packet(input).1.len() + 4 <= input.len(),
{
}

/// Reading text packets up to the first flush (or end of input).
pub open spec fn spec_read_until_flush(input: Seq<u8>) -> (Result<Seq<Seq<char>>, HfsError>, Seq<u8>)
    decreases input.len(),
{
    let (r, rest) = spec_read_text(input);
    match r {
        Err(e) => (Err(e), rest),
        Ok(None) => (Ok(Seq::empty()), rest),
        Ok(Some(t)) => {
            proof {
                lemma_read_packet_shrinks(input);
            }
            let (r2, rest2) = spec_read_until_flush(rest);
            match r2 {
                Err(e) => (Err(e), rest2),
                Ok(ts) => (Ok(seq![t] + ts), rest2),
            }
        },
    }
}

/// The text packets of the given texts, one after another.
pub open spec fn text_packets(ts: Seq<Seq<char>>) -> Seq<u8>
    decreases ts.len(),
{
    if ts.len() == 0 {
        Seq::empty()
    } else {
        pkt_frame(text_payload(ts[0])) + text_packets(ts.drop_first())
    }
}

/// Text packets written one after another, then a flush, read back until the
/// flush as the same texts in the same order, leaving what follows the flush;
/// when the input ends after the last packet instead, the texts are read back
/// all the same.
pub proof fn lemma_text_packets_roundtrip(ts: Seq<Seq<char>>, rest: Seq<u8>)
    requires
        forall|i: int| 0 <= i < ts.len() ==> encode_utf8(#[trigger] ts[i]).len() + 5 < 65536,
    ensures
        spec_read_until_flush(text_packets(ts) + flush_pkt() + rest) == (
        Ok::<Seq<Seq<char>>, HfsError>(ts),
        rest,
        ),
        spec_read_until_flush(text_packets(ts)) == (Ok::<Seq<Seq<char>>, HfsError>(ts), Seq::<u8>::empty()),
    decreases ts.len(),
{
    if ts.len() == 0 {
        assert(text_packets(ts) + flush_pkt() + rest =~= flush_pkt() + rest);
        lemma_flush_roundtrip(rest);
        assert(ts =~= Seq::<Seq<char>>::empty());
    } else {
        let t = ts[0];
        let more = ts.drop_first();
        assert forall|i: int| 0 <= i < more.len() implies encode_utf8(#[trigger] more[i]).len() + 5 < 65536 by {
            assert(more[i] == ts[i + 1]);
        }
        lemma_text_packets_roundtrip(more, rest);
        let tail = text_packets(more) + flush_pkt() + rest;
        assert(text_packets(ts) + flush_pkt() + rest =~= pkt_frame(text_payload(t)) + tail);
        lemma_text_packet_roundtrip(t, tail);
        lemma_read_packet_shrinks(pkt_frame(text_payload(t)) + tail);
        assert(seq![t] + more =~= ts);
        let tail2 = text_packets(more);
        assert(text_packets(ts) =~= pkt_frame(text_payload(t)) + tail2);
        lemma_text_packet_roundtrip(t, tail2);
        lemma_read_packet_shrinks(pkt_frame(text_payload(t)) + tail2);
    }
}

fn push_hex_digits(out: &mut Vec<u8>, n: u128)
    ensures
        final(out)@ == old(out)@ + hex_digits(n as nat),
    decreases n,
{
    let ghost start = out@;
    if n >= 16 {
        push_hex_digits(out, n / 16);
    }
    let d = (n % 16) as u8;
    out.push(if d < 10 { d + 48 } else { d + 87 });
    assert(out@ =~= start + hex_digits(n as nat));
}

fn push_hex4(out: &mut Vec<u8>, n: u128)
    ensures
        final(out)@ == old(out)@ + hex4(n as nat),
{
    if n < 65536 {
        let ghost start = out@;
        let a = (n / 4096) as u8;
        let b = (n / 256 % 16) as u8;
        let c = (n / 16 % 16) as u8;
        let d = (n % 16) as u8;
        out.push(if a < 10 { a + 48 } else { a + 87 });
        out.push(if b < 10 { b + 48 } else { b + 87 });
        out.push(if c < 10 { c + 48 } else { c + 87 });
        out.push(if d < 10 { d + 48 } else { d + 87 });
        assert(out@ =~= start + hex4(n as nat));
    } else {
        push_hex_digits(out, n);
    }
}

/// Writes a pkt-line text packet: the text and a line feed.
pub fn write_text_packet(w: &mut Vec<u8>, text: &str) -> (res: Result<(), HfsError>)
    ensures
        res is Ok,
        final(w)@ == old(w)@ + pkt_frame(text_payload(text@)),
{
    let bytes = text.as_bytes();
    let total: u128 = bytes.len() as u128 + 5;
    let ghost start = w@;
    push_hex4(w, total);
    append_bytes(w, bytes);
    w.push(10u8);
    assert(w@ =~= start + pkt_frame(text_payload(text@)));
    Ok(())
}

/// Writes a pkt-line data packet: the bytes as they are.
pub fn write_data_packet(w: &mut Vec<u8>, data: &[u8]) -> (res: Result<(), HfsError>)
    ensures
        res is Ok,
        final(w)@ == old(w)@ + pkt_frame(data@),
{
    let total: u128 = data.len() as u128 + 4;
    let ghost start = w@;
    push_hex4(w, total);
    append_bytes(w, data);
    assert(w@ =~= start + pkt_frame(data@));
    Ok(())
}

/// Writes the flush packet `0000`.
pub fn write_flush(w: &mut Vec<u8>) -> (res: Result<(), HfsError>)
    ensures
        res is Ok,
        final(w)@ == old(w)@ + flush_pkt(),
{
    let ghost start = w@;
    w.push(48u8);
    w.push(48u8);
    w.push(48u8);
    w.push(48u8);
    assert(w@ =~= start + flush_pkt());
    Ok(())
}

proof fn lemma_hex_digit_byte(k: int)
    requires
        0 <= k < 16,
    ensures
        is_hex_byte(hex_digit_byte(k)),
        hex_byte_value(hex_digit_byte(k)) == k,
        hex_digit_byte(k) != 43,
{
}

/// A length below 65536 written with four hex digits reads back as itself.
pub proof fn lemma_pkt_len_hex4(n: nat)
    requires
        n < 65536,
    ensures
        pkt_len(hex4(n)) == Some(n),
{
    let a = (n / 4096) as int;
    let b = (n / 256 % 16) as int;
    let c = (n / 16 % 16) as int;
    let d = (n % 16) as int;
    lemma_hex_digit_byte(a);
    lemma_hex_digit_byte(b);
    lemma_hex_digit_byte(c);
    lemma_hex_digit_byte(d);
    let h = hex4(n);
    assert(pkt_len_digits(h) == h);
    assert(all_hex_bytes(h));
    assert(h.drop_last().drop_last().drop_last().drop_last() =~= Seq::<u8>::empty());
    assert(h.take(1) =~= h.drop_last().drop_last().drop_last());
    assert(hex_run_value(h) == ((a * 16 + b) * 16 + c) * 16 + d) by {
        reveal_with_fuel(hex_run_value, 5);
        assert(h.drop_last().drop_last().drop_last() =~= seq![hex_digit_byte(a)]);
        assert(h.drop_last().drop_last() =~= seq![hex_digit_byte(a), hex_digit_byte(b)]);
        assert(h.drop_last() =~= seq![hex_digit_byte(a), hex_digit_byte(b), hex_digit_byte(c)]);
    }
    assert(((a * 16 + b) * 16 + c) * 16 + d == n) by (nonlinear_arith)
        requires
            a == n / 4096,
            b == n / 256 % 16,
            c == n / 16 % 16,
            d == n % 16,
            n < 65536,
    ;
}

/// A data packet reads back as its payload and leaves what follows it.
pub proof fn lemma_data_packet_roundtrip(payload: Seq<u8>, rest: Seq<u8>)
    requires
        payload.len() + 4 < 65536,
    ensures
        spec_read_packet(pkt_frame(payload) + rest) == (
        Ok::<Option<Seq<u8>>, HfsError>(Some(payload)),
        rest,
        ),
{
    let n = payload.len() + 4;
    lemma_pkt_len_hex4(n);
    let input = pkt_frame(payload) + rest;
    assert(input.take(4) =~= hex4(n));
    assert(input.subrange(4, n as int) =~= payload);
    assert(input.skip(n as int) =~= rest);
}

/// A flush packet reads as `None` and leaves what follows it.
pub proof fn lemma_flush_roundtrip(rest: Seq<u8>)
    ensures
        spec_read_packet(flush_pkt() + rest) == (Ok::<Option<Seq<u8>>, HfsError>(None), rest),
{
    let input = flush_pkt() + rest;
    assert(input.take(4) =~= flush_pkt());
    assert(pkt_len_digits(flush_pkt()) == flush_pkt());
    assert(all_hex_bytes(flush_pkt()));
    assert(hex_run_value(flush_pkt()) == 0) by {
        reveal_with_fuel(hex_run_value, 5);
        let f = flush_pkt();
        assert(f.drop_last().drop_last().drop_last().drop_last() =~= Seq::<u8>::empty());
        assert(f.drop_last().drop_last().drop_last() =~= seq![48u8]);
        assert(f.drop_last().drop_last() =~= seq![48u8, 48u8]);
        assert(f.drop_last() =~= seq![48u8, 48u8, 48u8]);
    }
    assert(input.skip(4) =~= rest);
}

/// A text packet reads back as its text and leaves what follows it.
pub proof fn lemma_text_packet_roundtrip(text: Seq<char>, rest: Seq<u8>)
    requires
        encode_utf8(text).len() + 5 < 65536,
    ensures
        spec_read_text(pkt_frame(text_payload(text)) + rest) == (
        Ok::<Option<Seq<char>>, HfsError>(Some(text)),
        rest,
        ),
{
    let p = text_payload(text);
    lemma_data_packet_roundtrip(p, rest);
    let nl = seq!['\n'];
    assert(is_ascii_chars(nl));
    is_ascii_chars_encode_utf8(nl);
    assert(encode_utf8(nl) =~= seq![10u8]);
    lemma_encode_utf8_concat(text, nl);
    assert(p =~= encode_utf8(text + nl));
    encode_utf8_valid_utf8(text + nl);
    encode_utf8_decode_utf8(text + nl);
    assert((text + nl).drop_last() =~= text);
}

/// A pkt-line reader over a byte buffer.
pub struct PktReader {
    data: Vec<u8>,
    pos: usize,
}

/// A packet read result by its view.
pub open spec fn packet_view(r: Result<Option<Vec<u8>>, HfsError>) -> Result<Option<Seq<u8>>, HfsError> {
    match r {
        Ok(Some(v)) => Ok(Some(v@)),
        Ok(None) => Ok(None),
        Err(e) => Err(e),
    }
}

/// A text read result by its view.
pub open spec fn text_view(r: Result<Option<String>, HfsError>) -> Result<Option<Seq<char>>, HfsError> {
    match r {
        Ok(Some(s)) => Ok(Some(s@)),
        Ok(None) => Ok(None),
        Err(e) => Err(e),
    }
}

/// The texts read so far, then what the rest of the reading gives.
pub open spec fn prepend_texts(acc: Seq<Seq<char>>, r: Result<Seq<Seq<char>>, HfsError>) -> Result<Seq<Seq<char>>, HfsError> {
    match r {
        Ok(ts) => Ok(acc + ts),
        Err(e) => Err(e),
    }
}

/// The views of a sequence of strings.
pub open spec fn string_views(v: Seq<String>) -> Seq<Seq<char>> {
    v.map_values(|s: String| s@)
}

impl PktReader {
    #[verifier::type_invariant]
    spec fn inv(&self) -> bool {
        self.pos <= self.data@.len()
    }

    /// The bytes not read yet.
    pub closed spec fn remaining(&self) -> Seq<u8> {
        self.data@.skip(self.pos as int)
    }

    /// A reader positioned at the start of `data`.
    pub fn new(data: Vec<u8>) -> (res: PktReader)
        ensures
            res.remaining() == data@,
    {
        let r = PktReader { data, pos: 0 };
        assert(r.data@.skip(0) =~= r.data@);
        r
    }

    /// True when every byte has been read.
    pub fn is_at_end(&self) -> (res: bool)
        ensures
            res == (self.remaining().len() == 0),
    {
        proof {
            use_type_invariant(self);
        }
        self.pos == self.data.len()
    }
}

fn hex_byte(b: u8) -> (res: Option<u8>)
    ensures
        res is Some <==> is_hex_byte(b),
        res matches Some(v) ==> v as nat == hex_byte_value(b) && v < 16,
{
    if 48 <= b && b <= 57 {
        Some(b - 48)
    } else if 97 <= b && b <= 102 {
        Some(b - 87)
    } else if 65 <= b && b <= 70 {
        Some(b - 55)
    } else {
        None
    }
}

/// The length that a four-byte pkt-line header announces, or `None` when the
/// header is not a hex number.
pub fn parse_pkt_len(h: &[u8]) -> (res: Option<usize>)
    requires
        h@.len() == 4,
    ensures
        match res {
            Some(n) => pkt_len(h@) == Some(n as nat),
            None => pkt_len(h@) is None,
        },
{
    let start: usize = if h[0] == 43 {
        1
    } else {
        0
    };
    let ghost d = pkt_len_digits(h@);
    assert(d =~= h@.skip(start as int));
    let mut acc: usize = 0;
    let mut i: usize = start;
    while i < 4
        invariant
            start <= i <= 4,
            h@.len() == 4,
            d == h@.skip(start as int),
            d == pkt_len_digits(h@),
            d.len() == 4 - start,
            forall|k: int| 0 <= k < i - start ==> is_hex_byte(#[trigger] d[k]),
            acc as nat == hex_run_value(d.take(i - start)),
            acc < 65536,
            acc < pow16(i - start),
        decreases 4 - i,
    {
        let b = h[i];
        assert(d[i - start] == b);
        match hex_byte(b) {
            None => {
                assert(!is_hex_byte(d[i - start]));
                assert(!all_hex_bytes(d));
                return None;
            },
            Some(v) => {
                assert(d.take(i - start + 1).drop_last() =~= d.take(i - start));
                assert(d.take(i - start + 1).last() == b);
                assert(pow16(i - start + 1) == 16 * pow16(i - start));
                assert(acc * 16 + v < pow16(i - start + 1)) by (nonlinear_arith)
                    requires
                        acc < pow16(i - start),
                        v < 16,
                        pow16(i - start + 1) == 16 * pow16(i - start),
                ;
                assert(pow16(i - start + 1) <= 65536) by {
                    reveal_with_fuel(pow16, 5);
                }
                acc = acc * 16 + v as usize;
            },
        }
        i += 1;
    }
    assert(d.take(4 - start) =~= d);
    assert(all_hex_bytes(d));
    Some(acc)
}

/// Sixteen to the power `k`.
pub open spec fn pow16(k: int) -> nat
    decreases k,
{
    if k <= 0 {
        1
    } else {
        16 * pow16(k - 1)
    }
}

/// Reads one packet: `None` on a flush packet or when fewer than four bytes remain.
pub fn read_packet(r: &mut PktReader) -> (res: Result<Option<Vec<u8>>, HfsError>)
    ensures
        (packet_view(res), final(r).remaining()) == spec_read_packet(old(r).remaining()),
{
    proof {
        use_type_invariant(&*r);
    }
    let ghost input = r.remaining();
    let avail = r.data.len() - r.pos;
    if avail < 4 {
        r.pos = r.data.len();
        assert(r.data@.skip(r.pos as int) =~= Seq::<u8>::empty());
        return Ok(None);
    }
    let p = r.pos;
    let header = vstd::slice::slice_subrange(r.data.as_slice(), p, p + 4);
    assert(header@ =~= input.take(4));
    let len = parse_pkt_len(header);
    match len {
        None => {
            r.pos = p + 4;
            assert(r.data@.skip(r.pos as int) =~= input.skip(4));
            Err(HfsError::InvalidPktHeader)
        },
        Some(n) => {
            if n == 0 {
                r.pos = p + 4;
                assert(r.data@.skip(r.pos as int) =~= input.skip(4));
                Ok(None)
            } else if n < 4 {
                r.pos = p + 4;
                assert(r.data@.skip(r.pos as int) =~= input.skip(4));
                Err(HfsError::InvalidPktLength)
            } else if avail < n {
                r.pos = r.data.len();
                assert(r.data@.skip(r.pos as int) =~= Seq::<u8>::empty());
                Err(HfsError::UnexpectedEof)
            } else {
                let payload = vstd::slice::slice_to_vec(
                    vstd::slice::slice_subrange(r.data.as_slice(), p + 4, p + n),
                );
                r.pos = p + n;
                assert(payload@ =~= input.subrange(4, n as int));
                assert(r.data@.skip(r.pos as int) =~= input.skip(n as int));
                Ok(Some(payload))
            }
        },
    }
}

/// Reads one text packet; a single final line feed is removed. `None` on flush.
pub fn read_text_packet(r: &mut PktReader) -> (res: Result<Option<String>, HfsError>)
    ensures
        (text_view(res), final(r).remaining()) == spec_read_text(old(r).remaining()),
{
    let pkt = read_packet(r);
    match pkt {
        Err(e) => Err(e),
        Ok(None) => Ok(None),
        Ok(Some(data)) => {
            let ghost d = data@;
            match utf8_string(data) {
                None => Err(HfsError::InvalidUtf8),
                Some(mut s) => {
                    let ghost full = s@;
                    let last = string_pop(&mut s);
                    match last {
                        Some(c) => {
                            if c != '\n' {
                                string_push(&mut s, c);
                                assert(s@ =~= full);
                            }
                        },
                        None => {},
                    }
                    assert(s@ == strip_nl(decode_utf8(d)));
                    Ok(Some(s))
                },
            }
        },
    }
}

/// Reads text packets until a flush packet (or the end of the input).
pub fn read_until_flush(r: &mut PktReader) -> (res: Result<Vec<String>, HfsError>)
    ensures
        match res {
            Ok(v) => spec_read_until_flush(old(r).remaining()).0 == Ok::<Seq<Seq<char>>, HfsError>(string_views(v@)),
            Err(e) => spec_read_until_flush(old(r).remaining()).0 == Err::<Seq<Seq<char>>, HfsError>(e),
        },
        final(r).remaining() == spec_read_until_flush(old(r).remaining()).1,
{
    let ghost start = r.remaining();
    let mut packets: Vec<String> = Vec::new();
    loop
        invariant
            start == old(r).remaining(),
            spec_read_until_flush(start).1 == spec_read_until_flush(r.remaining()).1,
            spec_read_until_flush(start).0 == prepend_texts(string_views(packets@), spec_read_until_flush(r.remaining()).0),
        decreases r.remaining().len(),
    {
        let ghost cur = r.remaining();
        proof {
            lemma_read_packet_shrinks(cur);
        }
        let t = read_text_packet(r);
        match t {
            Err(e) => {
                assert(spec_read_until_flush(cur).0 == Err::<Seq<Seq<char>>, HfsError>(e));
                return Err(e);
            },
            Ok(None) => {
                assert(spec_read_until_flush(cur).0 == Ok::<Seq<Seq<char>>, HfsError>(Seq::empty()));
                assert(spec_read_until_flush(cur).1 == r.remaining());
                assert(string_views(packets@) + Seq::<Seq<char>>::empty() =~= string_views(packets@));
                return Ok(packets);
            },
            Ok(Some(text)) => {
                let ghost tv = text@;
                let ghost before = string_views(packets@);
                packets.push(text);
                assert(string_views(packets@) =~= before.push(tv));
                proof {
                    let r2 = spec_read_until_flush(r.remaining()).0;
                    match r2 {
                        Ok(ts) => {
                            assert(before + (seq![tv] + ts) =~= before.push(tv) + ts);
                        },
                        Err(_) => {},
                    }
                }
            },
        }
    }
}

} // verus!
