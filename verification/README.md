# hfs

Heavy / Honest File Storage: large files in Git, split into content-defined
chunks (FastCDC), hashed with BLAKE3, compressed with zstd and kept in a
content-addressable store; Git itself only sees a small pointer file.

## Layout

- `src/` — the library, verified with Verus.
  - `cas/` — chunking, hashing, compression, the store (`Store`), and
    `ingest_bytes` / `materialize`, whose contracts state that materializing
    an ingested file gives its bytes back, provided the store holds nothing
    that conflicts with it (no BLAKE3 collision among its chunks or with
    what is stored).
  - `pointer.rs` — the pointer text format (`hfs v1`, `oid blake3:…`,
    `size …`, `chunks …`), with its round trip proved.
  - `manifest.rs` — the chunk list of a file, in MessagePack.
  - `filter/` — Git's pkt-line framing and the long-running filter process
    as a state machine (`FilterSession::step`): one packet in, the bytes to
    write back out.
  - `transfer/` — what to push and pull, given what is present where.
  - `cli/` — the decisions behind each command (`.gitattributes` edits,
    orphaned objects, pointer files).
  - `config.rs`, `backend/` — configuration values, remote key and path
    layout.
- `app/` — the `hfs` program around the library: argument parsing, files,
  standard input and output, `git`, S3 and the async transfers.
- `tests/` — tests of the library.
