use vstd::prelude::*;

verus! {

/// Every way in which an operation of the library can fail.
#[derive(Debug, Clone, Copy, PartialEq, Eq, Structural)]
pub enum HfsError {
    /// A hex string is not exactly 64 hex digits.
    InvalidHash,
    /// Pointer text is empty.
    MissingHeader,
    /// The first line of pointer text is not `hfs v1`.
    InvalidHeader,
    /// An `oid blake3:` line does not hold 64 hex digits.
    InvalidOid,
    /// A `size ` line does not hold a `u64`.
    InvalidSize,
    /// A `chunks ` line does not hold a `u32`.
    InvalidChunkCount,
    /// Pointer text has no oid line.
    MissingOid,
    /// Pointer text has no size line.
    MissingSize,
    /// Pointer text has no chunks line.
    MissingChunkCount,
    /// A pkt-line length is not four hex digits.
    InvalidPktHeader,
    /// A pkt-line length is 1, 2 or 3.
    InvalidPktLength,
    /// The input ended inside a pkt-line packet.
    UnexpectedEof,
    /// A text packet is not UTF-8.
    InvalidUtf8,
    /// No object is stored under the hash.
    MissingObject,
    /// No manifest is stored under the hash.
    MissingManifest,
    /// The MessagePack encoder failed.
    ManifestEncode,
    /// Bytes are not a MessagePack manifest.
    ManifestDecode,
    /// The client did not greet with `git-filter-client`.
    BadHandshake,
    /// The client does not speak version 2 of the filter protocol.
    UnsupportedVersion,
    /// The zstd encoder failed.
    Compression,
    /// Stored data is not a zstd stream.
    Decompression,
}

} // verus!
