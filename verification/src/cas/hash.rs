use vstd::prelude::*;

use crate::error::HfsError;
use crate::text::{all_ascii, ascii_chars, ascii_string};

verus! {

/// The BLAKE3 digest of a byte sequence, as computed by `blake3::hash`.
pub uninterp spec fn blake3_digest(data: Seq<u8>) -> Seq<u8>;

/// Trusted: `blake3::hash` returns the 32-byte BLAKE3 digest of its input;
/// the digest is a function of the input bytes alone.
#[verifier::external_body]
fn blake3_hash(data: &[u8]) -> (res: [u8; 32])
    ensures
        res@ == blake3_digest(data@),
{
    *blake3::hash(data).as_bytes()
}

/// BLAKE3 hash of `data`.
pub fn hash_bytes(data: &[u8]) -> (res: [u8; 32])
    ensures
        res@ == blake3_digest(data@),
{
    blake3_hash(data)
}

/// The ASCII code of the lowercase hex digit for `n < 16`.
pub open spec fn hex_digit_byte(n: int) -> u8 {
    if n < 10 {
        (n + 48) as u8
    } else {
        (n + 87) as u8
    }
}

/// Lowercase hex encoding: two digits per byte, high nibble first.
pub open spec fn hex_encode(bytes: Seq<u8>) -> Seq<char> {
    Seq::new(
        2 * bytes.len(),
        |i: int|
            if i % 2 == 0 {
                hex_digit_byte((bytes[i / 2] / 16) as int) as char
            } else {
                hex_digit_byte((bytes[i / 2] % 16) as int) as char
            },
    )
}

/// `0-9`, `a-f` or `A-F`.
pub open spec fn is_hex_digit(c: char) -> bool {
    ('0' <= c && c <= '9') || ('a' <= c && c <= 'f') || ('A' <= c && c <= 'F')
}

/// The value of a hex digit.
pub open spec fn hex_value(c: char) -> int {
    if '0' <= c && c <= '9' {
        c as int - 48
    } else if 'a' <= c && c <= 'f' {
        c as int - 87
    } else {
        c as int - 55
    }
}

/// The bytes that a string of hex digits spells, two digits per byte.
pub open spec fn hex_decode(s: Seq<char>) -> Seq<u8> {
    Seq::new(s.len() / 2, |i: int| (hex_value(s[2 * i]) * 16 + hex_value(s[2 * i + 1])) as u8)
}

/// Exactly 64 hex digits (either case): the text form of a 32-byte hash.
pub open spec fn is_hash_hex(s: Seq<char>) -> bool {
    &&& s.len() == 64
    &&& forall|i: int| 0 <= i < s.len() ==> is_hex_digit(#[trigger] s[i])
}

fn hex_digit(n: u8) -> (res: u8)
    requires
        n < 16,
    ensures
        res == hex_digit_byte(n as int),
        res < 128,
{
    if n < 10 {
        n + 48
    } else {
        n + 87
    }
}

/// Appends the lowercase hex digits of a hash.
pub fn push_hex(out: &mut Vec<u8>, hash: &[u8; 32])
    requires
        all_ascii(old(out)@),
    ensures
        all_ascii(final(out)@),
        ascii_chars(final(out)@) == ascii_chars(old(out)@) + hex_encode(hash@),
{
    let ghost start = out@;
    let mut i: usize = 0;
    while i < 32
        invariant
            i <= 32,
            hash@.len() == 32,
            out@.len() == start.len() + 2 * i,
            all_ascii(out@),
            ascii_chars(out@) == ascii_chars(start) + hex_encode(hash@).take(2 * i),
        decreases 32 - i,
    {
        let b = hash[i];
        let hi = hex_digit(b / 16);
        let lo = hex_digit(b % 16);
        let ghost before = out@;
        out.push(hi);
        out.push(lo);
        proof {
            let e = hex_encode(hash@);
            assert((2 * i as int) / 2 == i as int);
            assert((2 * i as int + 1) / 2 == i as int);
            assert(e[2 * i as int] == hi as char);
            assert(e[2 * i + 1] == lo as char);
            assert(ascii_chars(out@) =~= ascii_chars(before).push(hi as char).push(lo as char));
            assert(e.take(2 * i + 2) =~= e.take(2 * i as int).push(hi as char).push(lo as char));
        }
        i += 1;
    }
    assert(hex_encode(hash@).take(64) =~= hex_encode(hash@));
}

/// Lowercase hex text of a hash.
pub fn hash_to_hex(hash: &[u8; 32]) -> (res: String)
    ensures
        res@ == hex_encode(hash@),
{
    let mut out: Vec<u8> = Vec::new();
    assert(ascii_chars(out@) =~= Seq::<char>::empty());
    push_hex(&mut out, hash);
    assert(ascii_chars(out@) =~= hex_encode(hash@));
    ascii_string(out)
}

fn hex_digit_value(c: char) -> (res: Option<u8>)
    ensures
        res is Some <==> is_hex_digit(c),
        res matches Some(v) ==> v as int == hex_value(c) && v < 16,
{
    if '0' <= c && c <= '9' {
        Some((c as u32 - 48) as u8)
    } else if 'a' <= c && c <= 'f' {
        Some((c as u32 - 87) as u8)
    } else if 'A' <= c && c <= 'F' {
        Some((c as u32 - 55) as u8)
    } else {
        None
    }
}

/// Parses the 64-digit hex text of a hash (digits of either case).
pub fn hex_to_hash(s: &str) -> (res: Result<[u8; 32], HfsError>)
    ensures
        res is Ok <==> is_hash_hex(s@),
        res matches Ok(h) ==> h@ == hex_decode(s@),
        res matches Err(e) ==> e == HfsError::InvalidHash,
{
    let chars = crate::text::chars_of(s);
    hex_chars_to_hash(&chars)
}

/// Parses 64 hex digits given as characters.
pub fn hex_chars_to_hash(chars: &Vec<char>) -> (res: Result<[u8; 32], HfsError>)
    ensures
        res is Ok <==> is_hash_hex(chars@),
        res matches Ok(h) ==> h@ == hex_decode(chars@),
        res matches Err(e) ==> e == HfsError::InvalidHash,
{
    if chars.len() != 64 {
        return Err(HfsError::InvalidHash);
    }
    let mut out = [0u8; 32];
    let mut i: usize = 0;
    while i < 32
        invariant
            i <= 32,
            chars@.len() == 64,
            out@.len() == 32,
            forall|j: int| 0 <= j < 2 * i ==> is_hex_digit(#[trigger] chars@[j]),
            forall|j: int| 0 <= j < i ==> #[trigger] out@[j] == hex_decode(chars@)[j],
        decreases 32 - i,
    {
        let hi = hex_digit_value(chars[2 * i]);
        let lo = hex_digit_value(chars[2 * i + 1]);
        match (hi, lo) {
            (Some(h), Some(l)) => {
                out[i] = h * 16 + l;
                assert forall|j: int| 0 <= j < 2 * (i + 1) implies is_hex_digit(#[trigger] chars@[j]) by {
                    if j == 2 * i {
                    } else if j == 2 * i + 1 {
                    }
                }
            },
            _ => {
                proof {
                    if hi is None {
                        assert(!is_hex_digit(chars@[2 * i as int]));
                    } else {
                        assert(!is_hex_digit(chars@[2 * i + 1]));
                    }
                }
                return Err(HfsError::InvalidHash);
            },
        }
        i += 1;
    }
    assert(out@ =~= hex_decode(chars@));
    Ok(out)
}

/// Hex text round trip: the text of a hash parses back to the same hash.
pub proof fn lemma_hex_roundtrip(h: Seq<u8>)
    requires
        h.len() == 32,
    ensures
        is_hash_hex(hex_encode(h)),
        hex_decode(hex_encode(h)) == h,
{
    let e = hex_encode(h);
    assert forall|i: int| 0 <= i < e.len() implies is_hex_digit(#[trigger] e[i]) by {
        let n: int = if i % 2 == 0 { (h[i / 2] / 16) as int } else { (h[i / 2] % 16) as int };
        assert(0 <= n < 16);
    }
    assert forall|i: int| 0 <= i < 32 implies #[trigger] hex_decode(e)[i] == h[i] by {
        let b = h[i];
        assert((2 * i) / 2 == i);
        assert((2 * i + 1) / 2 == i);
        assert((2 * i) % 2 == 0);
        assert((2 * i + 1) % 2 == 1);
        let hi = b / 16;
        let lo = b % 16;
        assert(hex_value(e[2 * i]) == hi);
        assert(hex_value(e[2 * i + 1]) == lo);
        assert(hi * 16 + lo == b);
    }
    assert(hex_decode(e) =~= h);
}

} // verus!
