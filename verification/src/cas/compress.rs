use vstd::prelude::*;

use crate::error::HfsError;

verus! {

/// The zstd level used for every chunk.
pub const COMPRESSION_LEVEL: i32 = 3;

/// The zstd frame that `zstd::encode_all` produces for `data` at `level`.
pub uninterp spec fn zstd_encoded(data: Seq<u8>, level: i32) -> Seq<u8>;

/// What `zstd::decode_all` gives back for `frame`: `None` when it fails.
pub uninterp spec fn zstd_decoded(frame: Seq<u8>) -> Option<Seq<u8>>;

/// zstd's worst-case compressed size for `n` input bytes
/// (`ZSTD_COMPRESSBOUND` in `zstd.h`).
pub open spec fn zstd_compress_bound(n: nat) -> nat {
    n + n / 256 + if n < 131072 {
        ((131072 - n) / 2048) as nat
    } else {
        0
    }
}

/// Trusted: `zstd::encode_all` compresses `data` into a zstd frame, which
/// decompresses to `data` again. Reading from a slice and writing into a
/// `Vec` cannot fail, and a level in `1..=22` is accepted, so the call
/// succeeds; the one failure the source leaves is zstd being unable to
/// allocate its context, which (like any allocation) is not stated. The
/// frame is no longer than zstd's worst-case bound.
#[verifier::external_body]
fn zstd_encode_all(data: &[u8], level: i32) -> (res: Option<Vec<u8>>)
    requires
        1 <= level <= 22,
    ensures
        res is Some,
        res matches Some(c) ==> c@ == zstd_encoded(data@, level) && zstd_decoded(c@) == Some(data@)
            && c@.len() <= zstd_compress_bound(data@.len()),
{
    zstd::encode_all(data, level).ok()
}

/// Trusted: `zstd::decode_all` decompresses a sequence of zstd frames; its
/// result is a function of the input bytes.
#[verifier::external_body]
fn zstd_decode_all(frame: &[u8]) -> (res: Option<Vec<u8>>)
    ensures
        res is Some <==> zstd_decoded(frame@) is Some,
        res matches Some(d) ==> zstd_decoded(frame@) == Some(d@),
{
    zstd::decode_all(frame).ok()
}

/// zstd-compresses `data` at `COMPRESSION_LEVEL`.
pub fn compress(data: &[u8]) -> (res: Result<Vec<u8>, HfsError>)
    ensures
        res matches Ok(c) && c@ == zstd_encoded(data@, COMPRESSION_LEVEL) && zstd_decoded(c@) == Some(data@)
            && c@.len() <= zstd_compress_bound(data@.len()),
{
    match zstd_encode_all(data, COMPRESSION_LEVEL) {
        Some(c) => Ok(c),
        None => Err(HfsError::Compression),
    }
}

/// Decompresses zstd data; `original_size` is only a capacity hint and does
/// not change the result.
pub fn decompress(data: &[u8], original_size: usize) -> (res: Result<Vec<u8>, HfsError>)
    ensures
        res is Ok <==> zstd_decoded(data@) is Some,
        res matches Ok(d) ==> zstd_decoded(data@) == Some(d@),
        res matches Err(e) ==> e == HfsError::Decompression,
{
    match zstd_decode_all(data) {
        Some(d) => Ok(d),
        None => Err(HfsError::Decompression),
    }
}

} // verus!
