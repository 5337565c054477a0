use hfs::cas::{self, Store};
use hfs::error::HfsError;
use hfs::filter::pktline::{read_packet, read_text_packet, PktReader};
use hfs::filter::process::{
    handle_clean, handle_smudge, read_content_packets, send_error_response, send_success_response, FilterSession,
};
use hfs::pointer::Pointer;

fn text(s: &str) -> Option<Vec<u8>> {
    Some(format!("{s}\n").into_bytes())
}

/// Reads a reply: its status line, then the data packets up to the flush.
fn parse_reply(out: Vec<u8>) -> (String, Vec<u8>) {
    let mut r = PktReader::new(out);
    let status = read_text_packet(&mut r).unwrap().unwrap();
    assert_eq!(read_packet(&mut r).unwrap(), None);
    let data = read_content_packets(&mut r).unwrap();
    assert_eq!(read_packet(&mut r).unwrap(), None);
    assert!(r.is_at_end());
    (status, data)
}

fn handshake(session: &mut FilterSession, store: &mut Store) {
    assert!(session.step(store, text("git-filter-client")).unwrap().is_empty());
    assert!(session.step(store, text("version=2")).unwrap().is_empty());
    let hello = session.step(store, None).unwrap();
    assert_eq!(hello, b"0016git-filter-server\n000eversion=2\n0000");
    assert!(session.step(store, text("capability=clean")).unwrap().is_empty());
    assert!(session.step(store, text("capability=smudge")).unwrap().is_empty());
    let caps = session.step(store, None).unwrap();
    assert_eq!(caps, b"0015capability=clean\n0016capability=smudge\n0000");
}

fn request(session: &mut FilterSession, store: &mut Store, command: &str, content: &[u8]) -> Vec<u8> {
    assert!(session.step(store, text(command)).unwrap().is_empty());
    assert!(session.step(store, text("pathname=big.bin")).unwrap().is_empty());
    assert!(session.step(store, None).unwrap().is_empty());
    for piece in content.chunks(1000) {
        assert!(session.step(store, Some(piece.to_vec())).unwrap().is_empty());
    }
    session.step(store, None).unwrap()
}

#[test]
fn clean_then_smudge_through_the_filter_process() {
    let mut store = Store::new(".hfs");
    let mut session = FilterSession::new();
    handshake(&mut session, &mut store);

    let content: Vec<u8> = (0..200_000u32).map(|i| (i % 251) as u8).collect();
    let (status, pointer_text) = parse_reply(request(&mut session, &mut store, "command=clean", &content));
    assert_eq!(status, "status=success");
    assert!(Pointer::is_pointer(&pointer_text));

    let (status, restored) = parse_reply(request(&mut session, &mut store, "command=smudge", &pointer_text));
    assert_eq!(status, "status=success");
    assert_eq!(restored, content);

    assert!(!session.is_done());
    assert!(session.step(&mut store, None).unwrap().is_empty());
    assert!(session.is_done());
}

#[test]
fn unknown_command_gets_an_error_status() {
    let mut store = Store::new(".hfs");
    let mut session = FilterSession::new();
    handshake(&mut session, &mut store);
    let out = request(&mut session, &mut store, "command=list_available_blobs", b"");
    assert_eq!(out, b"0011status=error\n00000000");
    let out = request(&mut session, &mut store, "not-a-command", b"abc");
    assert_eq!(out, b"0011status=error\n00000000");
    assert!(store.list_objects().unwrap().is_empty());
}

#[test]
fn handshake_errors() {
    let mut store = Store::new(".hfs");
    let mut s = FilterSession::new();
    s.step(&mut store, text("git-filter-server")).unwrap();
    assert_eq!(s.step(&mut store, None), Err(HfsError::BadHandshake));

    let mut s = FilterSession::new();
    assert_eq!(s.step(&mut store, None), Err(HfsError::BadHandshake));

    let mut s = FilterSession::new();
    s.step(&mut store, text("git-filter-client")).unwrap();
    s.step(&mut store, text("version=1")).unwrap();
    assert_eq!(s.step(&mut store, None), Err(HfsError::UnsupportedVersion));

    let mut s = FilterSession::new();
    assert_eq!(s.step(&mut store, Some(vec![0xff, 0xfe])), Err(HfsError::InvalidUtf8));
}

#[test]
fn only_announced_capabilities_are_echoed() {
    let mut store = Store::new(".hfs");
    let mut s = FilterSession::new();
    s.step(&mut store, text("git-filter-client")).unwrap();
    s.step(&mut store, text("version=2")).unwrap();
    s.step(&mut store, None).unwrap();
    s.step(&mut store, text("capability=smudge")).unwrap();
    s.step(&mut store, text("capability=delay")).unwrap();
    assert_eq!(s.step(&mut store, None).unwrap(), b"0016capability=smudge\n0000");
}

#[test]
fn clean_passes_pointers_through_and_smudge_passes_other_content() {
    let mut store = Store::new(".hfs");
    let ptr = Pointer { version: 1, oid: [3; 32], size: 1, chunk_count: 1 }.encode();
    assert_eq!(handle_clean(&mut store, ptr.as_bytes()).unwrap(), ptr.as_bytes());
    assert!(store.list_objects().unwrap().is_empty());
    assert_eq!(handle_smudge(&store, b"plain text").unwrap(), b"plain text");
    assert_eq!(handle_smudge(&store, ptr.as_bytes()), Err(HfsError::MissingManifest));
    assert_eq!(handle_smudge(&store, b"hfs v1\nbroken"), Err(HfsError::MissingOid));
}

#[test]
fn handle_clean_answers_the_pointer_text() {
    let mut store = Store::new(".hfs");
    let out = handle_clean(&mut store, b"file body").unwrap();
    let mut other = Store::new(".hfs");
    let (p, _) = cas::ingest_bytes(&mut other, b"file body").unwrap();
    assert_eq!(out, p.encode().into_bytes());
    assert_eq!(handle_smudge(&store, &out).unwrap(), b"file body");
}

#[test]
fn success_reply_splits_large_data() {
    let data = vec![9u8; 65516 + 10];
    let mut out = Vec::new();
    send_success_response(&mut out, &data).unwrap();
    assert_eq!(&out[..23], b"0013status=success\n0000");
    assert_eq!(&out[23..27], b"fff0");
    assert_eq!(&out[27 + 65516..27 + 65516 + 4], b"000e");
    assert!(out.ends_with(b"00000000"));
    let (status, back) = parse_reply(out);
    assert_eq!(status, "status=success");
    assert_eq!(back, data);

    let mut out = Vec::new();
    send_success_response(&mut out, b"").unwrap();
    assert_eq!(out, b"0013status=success\n000000000000");
    let mut out = Vec::new();
    send_error_response(&mut out).unwrap();
    assert_eq!(out, b"0011status=error\n00000000");
}

#[test]
fn cleaning_a_clean_answer_changes_nothing() {
    let mut store = Store::new(".hfs");
    let out = handle_clean(&mut store, b"some large file body").unwrap();
    assert!(Pointer::is_pointer(&out));
    let objects = store.list_objects().unwrap();
    let again = handle_clean(&mut store, &out).unwrap();
    assert_eq!(again, out);
    assert_eq!(store.list_objects().unwrap(), objects);
}
