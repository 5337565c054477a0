use hfs::error::HfsError;
use hfs::filter::pktline::{
    parse_pkt_len, read_packet, read_text_packet, read_until_flush, write_data_packet, write_flush,
    write_text_packet, PktReader,
};
use hfs::manifest::{ChunkRef, Manifest};
use hfs::pointer::Pointer;

// ---- pkt-line ----

#[test]
fn write_and_read_text_packet() {
    let mut buf = Vec::new();
    write_text_packet(&mut buf, "hello").unwrap();
    write_flush(&mut buf).unwrap();

    let mut reader = PktReader::new(buf);
    let text = read_text_packet(&mut reader).unwrap();
    assert_eq!(text, Some("hello".to_string()));
    let flush = read_text_packet(&mut reader).unwrap();
    assert!(flush.is_none());
}

#[test]
fn read_until_flush_works() {
    let mut buf = Vec::new();
    write_text_packet(&mut buf, "line1").unwrap();
    write_text_packet(&mut buf, "line2").unwrap();
    write_flush(&mut buf).unwrap();

    let mut reader = PktReader::new(buf);
    let lines = read_until_flush(&mut reader).unwrap();
    assert_eq!(lines, vec!["line1", "line2"]);
}

#[test]
fn packet_bytes_on_the_wire() {
    let mut buf = Vec::new();
    write_text_packet(&mut buf, "hello").unwrap();
    assert_eq!(buf, b"000ahello\n");
    buf.clear();
    write_data_packet(&mut buf, &[1, 2, 3]).unwrap();
    assert_eq!(buf, b"0007\x01\x02\x03");
    buf.clear();
    write_flush(&mut buf).unwrap();
    assert_eq!(buf, b"0000");
}

#[test]
fn data_packet_roundtrip() {
    let payload: Vec<u8> = (0..=255u8).collect();
    let mut buf = Vec::new();
    write_data_packet(&mut buf, &payload).unwrap();
    write_flush(&mut buf).unwrap();
    let mut reader = PktReader::new(buf);
    assert_eq!(read_packet(&mut reader).unwrap(), Some(payload));
    assert_eq!(read_packet(&mut reader).unwrap(), None);
    assert!(reader.is_at_end());
}

#[test]
fn read_packet_errors() {
    let mut r = PktReader::new(b"zzzz".to_vec());
    assert_eq!(read_packet(&mut r), Err(HfsError::InvalidPktHeader));
    let mut r = PktReader::new(b"0003".to_vec());
    assert_eq!(read_packet(&mut r), Err(HfsError::InvalidPktLength));
    let mut r = PktReader::new(b"0009ab".to_vec());
    assert_eq!(read_packet(&mut r), Err(HfsError::UnexpectedEof));
    let mut r = PktReader::new(b"0006\xff\xfe".to_vec());
    assert_eq!(read_text_packet(&mut r), Err(HfsError::InvalidUtf8));
}

#[test]
fn end_of_input_reads_as_flush() {
    let mut r = PktReader::new(Vec::new());
    assert_eq!(read_packet(&mut r), Ok(None));
    let mut r = PktReader::new(b"00".to_vec());
    assert_eq!(read_packet(&mut r), Ok(None));
}

#[test]
fn text_packet_keeps_inner_newlines() {
    let mut r = PktReader::new(b"0009a\nb\n\n".to_vec());
    assert_eq!(read_text_packet(&mut r).unwrap(), Some("a\nb\n".to_string()));
    let mut r = PktReader::new(b"0005x".to_vec());
    assert_eq!(read_text_packet(&mut r).unwrap(), Some("x".to_string()));
}

#[test]
fn pkt_length_header() {
    assert_eq!(parse_pkt_len(b"000a"), Some(10));
    assert_eq!(parse_pkt_len(b"FFFF"), Some(65535));
    assert_eq!(parse_pkt_len(b"00g0"), None);
}

// ---- pointers ----

#[test]
fn pointer_roundtrip() {
    let ptr = Pointer { version: 1, oid: [0xAB; 32], size: 123456, chunk_count: 5 };
    let encoded = ptr.encode();
    let decoded = Pointer::decode(&encoded).unwrap();
    assert_eq!(ptr, decoded);
}

#[test]
fn is_pointer_positive() {
    let ptr = Pointer { version: 1, oid: [0; 32], size: 0, chunk_count: 0 };
    let encoded = ptr.encode();
    assert!(Pointer::is_pointer(encoded.as_bytes()));
}

#[test]
fn is_pointer_negative() {
    assert!(!Pointer::is_pointer(b"not a pointer at all"));
    assert!(!Pointer::is_pointer(&vec![0u8; 1024]));
}

#[test]
fn decode_rejects_bad_header() {
    assert!(Pointer::decode("git-lfs v1\noid sha256:abc\n").is_err());
}

#[test]
fn pointer_text_format() {
    let ptr = Pointer { version: 1, oid: [0x01; 32], size: 42, chunk_count: 3 };
    let expected = format!("hfs v1\noid blake3:{}\nsize 42\nchunks 3\n", "01".repeat(32));
    assert_eq!(ptr.encode(), expected);
    assert!(ptr.encode().len() < 256);
}

#[test]
fn pointer_decode_errors() {
    let oid = "ab".repeat(32);
    assert_eq!(Pointer::decode(""), Err(HfsError::MissingHeader));
    assert_eq!(Pointer::decode("hfs v2\n"), Err(HfsError::InvalidHeader));
    assert_eq!(
        Pointer::decode(&format!("hfs v1\nsize 1\nchunks 1\n")),
        Err(HfsError::MissingOid)
    );
    assert_eq!(
        Pointer::decode(&format!("hfs v1\noid blake3:{oid}\nchunks 1\n")),
        Err(HfsError::MissingSize)
    );
    assert_eq!(
        Pointer::decode(&format!("hfs v1\noid blake3:{oid}\nsize 1\n")),
        Err(HfsError::MissingChunkCount)
    );
    assert_eq!(
        Pointer::decode(&format!("hfs v1\noid blake3:xyz\nsize 1\nchunks 1\n")),
        Err(HfsError::InvalidOid)
    );
    assert_eq!(
        Pointer::decode(&format!("hfs v1\noid blake3:{oid}\nsize x\nchunks 1\n")),
        Err(HfsError::InvalidSize)
    );
    assert_eq!(
        Pointer::decode(&format!("hfs v1\noid blake3:{oid}\nsize 1\nchunks -1\n")),
        Err(HfsError::InvalidChunkCount)
    );
}

#[test]
fn pointer_decode_tolerates_unknown_lines_and_spaces() {
    let oid = "cd".repeat(32);
    let text = format!("hfs v1\n  extra line\noid blake3:{oid}  \n size 7\nchunks 2\n");
    let p = Pointer::decode(&text).unwrap();
    assert_eq!(p, Pointer { version: 1, oid: [0xCD; 32], size: 7, chunk_count: 2 });
}

#[test]
fn is_pointer_size_limit() {
    let mut data = b"hfs v1".to_vec();
    assert!(Pointer::is_pointer(&data));
    data.resize(256, b'x');
    assert!(Pointer::is_pointer(&data));
    data.push(b'x');
    assert!(!Pointer::is_pointer(&data));
}

// ---- manifests ----

#[test]
fn manifest_roundtrip() {
    let manifest = Manifest {
        version: 1,
        file_size: 1024,
        chunk_size_avg: 512,
        chunks: vec![
            ChunkRef { hash: [1u8; 32], offset: 0, size: 100, original_size: 512 },
            ChunkRef { hash: [2u8; 32], offset: 512, size: 100, original_size: 512 },
        ],
    };

    let bytes = manifest.serialize().unwrap();
    let recovered = Manifest::deserialize(&bytes).unwrap();

    assert_eq!(recovered.version, 1);
    assert_eq!(recovered.file_size, 1024);
    assert_eq!(recovered.chunks.len(), 2);
    assert_eq!(recovered.chunks[0].hash, [1u8; 32]);
    assert_eq!(recovered.chunks[1].offset, 512);
}

#[test]
fn empty_manifest() {
    let manifest = Manifest { version: 1, file_size: 0, chunk_size_avg: 0, chunks: vec![] };
    let bytes = manifest.serialize().unwrap();
    let recovered = Manifest::deserialize(&bytes).unwrap();
    assert!(recovered.chunks.is_empty());
    assert_eq!(recovered.file_size, 0);
}

#[test]
fn manifest_is_a_messagepack_array() {
    let manifest = Manifest { version: 1, file_size: 0, chunk_size_avg: 0, chunks: vec![] };
    let bytes = manifest.serialize().unwrap();
    // fixarray of 4: version, file size, average, empty chunk list
    assert_eq!(bytes, vec![0x94, 0x01, 0x00, 0x00, 0x90]);
}

#[test]
fn manifest_deserialize_rejects_garbage() {
    assert!(matches!(Manifest::deserialize(b"\xff\xff"), Err(HfsError::ManifestDecode)));
}

#[test]
fn text_packets_read_back_in_order() {
    let texts = vec!["".to_string(), "a\n".to_string(), "version=2".to_string()];
    let mut buf = Vec::new();
    for t in &texts {
        write_text_packet(&mut buf, t).unwrap();
    }
    let without_flush = buf.clone();
    write_flush(&mut buf).unwrap();
    buf.extend_from_slice(b"0005x");
    let mut r = PktReader::new(buf);
    assert_eq!(read_until_flush(&mut r).unwrap(), texts);
    assert_eq!(read_packet(&mut r).unwrap(), Some(b"x".to_vec()));
    let mut r = PktReader::new(without_flush);
    assert_eq!(read_until_flush(&mut r).unwrap(), texts);
    assert!(r.is_at_end());
}

#[test]
fn longest_pointer_text() {
    let ptr = Pointer { version: 1, oid: [0xFF; 32], size: u64::MAX, chunk_count: u32::MAX };
    let text = ptr.encode();
    assert_eq!(text.len(), 127);
    assert!(Pointer::is_pointer(text.as_bytes()));
    assert_eq!(Pointer::decode(&text).unwrap(), ptr);
}
