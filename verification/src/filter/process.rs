use vstd::prelude::*;
use vstd::utf8::{decode_utf8, encode_utf8, encode_utf8_decode_utf8, encode_utf8_valid_utf8, valid_utf8};

use crate::cas::chunk::spec_chunks;
use crate::cas::hash::blake3_digest;
use crate::cas::store::{put_if_absent, Store, StoreView};
use crate::cas::{ingest_bytes, ingest_manifest, ingest_safe, materialize, objects_after, spec_materialize};
use crate::error::HfsError;
use crate::filter::pktline::{
    flush_pkt, pkt_frame, read_packet, spec_read_packet, strip_nl, text_payload, write_data_packet, write_flush,
    write_text_packet, PktReader,
};
use crate::manifest::msgpack_manifest;
use crate::pointer::{lemma_encoded_is_pointer, lemma_pointer_roundtrip, pointer_text, spec_decode, spec_is_pointer, Pointer};
use crate::text::{append_bytes, chars_of, has_prefix, starts_with, string_pop, string_push, sub_vec, utf8_string};

verus! {

/// Largest payload of one pkt-line data packet.
pub const MAX_PKT_DATA: usize = 65516;

/// A text packet.
pub open spec fn text_pkt(t: Seq<char>) -> Seq<u8> {
    pkt_frame(text_payload(t))
}

/// `data` as data packets of at most 65516 bytes (none for empty data).
pub open spec fn data_packets(data: Seq<u8>) -> Seq<u8>
    decreases data.len(),
{
    if data.len() == 0 {
        Seq::empty()
    } else if data.len() <= MAX_PKT_DATA {
        pkt_frame(data)
    } else {
        pkt_frame(data.take(MAX_PKT_DATA as int)) + data_packets(data.skip(MAX_PKT_DATA as int))
    }
}

/// The reply to a request that succeeded with output `data`.
pub open spec fn success_reply(data: Seq<u8>) -> Seq<u8> {
    text_pkt("status=success"@) + flush_pkt() + data_packets(data) + flush_pkt() + flush_pkt()
}

/// The reply to a request that could not be served.
pub open spec fn error_reply() -> Seq<u8> {
    text_pkt("status=error"@) + flush_pkt() + flush_pkt()
}

/// Writes the reply to a successful request: status, then the output in
/// data packets, then the closing flushes.
pub fn send_success_response(w: &mut Vec<u8>, data: &[u8]) -> (res: Result<(), HfsError>)
    ensures
        res is Ok,
        final(w)@ == old(w)@ + success_reply(data@),
{
    let ghost start = w@;
    let _ = write_text_packet(w, "status=success");
    let _ = write_flush(w);
    let ghost mid = w@;
    let mut pos: usize = 0;
    assert(data@.skip(0) =~= data@);
    while pos < data.len()
        invariant
            pos <= data@.len(),
            mid + data_packets(data@) == w@ + data_packets(data@.skip(pos as int)),
        decreases data@.len() - pos,
    {
        let rest = data.len() - pos;
        let take = if rest < MAX_PKT_DATA {
            rest
        } else {
            MAX_PKT_DATA
        };
        let piece = vstd::slice::slice_subrange(data, pos, pos + take);
        let ghost before = w@;
        let _ = write_data_packet(w, piece);
        proof {
            let r = data@.skip(pos as int);
            assert(piece@ =~= r.take(take as int));
            assert(r.skip(take as int) =~= data@.skip(pos + take));
            if r.len() <= MAX_PKT_DATA {
                assert(r.take(take as int) =~= r);
                assert(data@.skip(pos + take) =~= Seq::<u8>::empty());
                assert(data_packets(r) == pkt_frame(r));
            } else {
                assert(data_packets(r) == pkt_frame(r.take(MAX_PKT_DATA as int)) + data_packets(
                    r.skip(MAX_PKT_DATA as int),
                ));
            }
            assert(before + data_packets(r) =~= w@ + data_packets(data@.skip(pos + take)));
        }
        pos = pos + take;
    }
    assert(data@.skip(pos as int) =~= Seq::<u8>::empty());
    assert(data_packets(Seq::<u8>::empty()) =~= Seq::<u8>::empty());
    let _ = write_flush(w);
    let _ = write_flush(w);
    assert(w@ =~= start + success_reply(data@));
    Ok(())
}

/// Writes the reply to a request that could not be served.
pub fn send_error_response(w: &mut Vec<u8>) -> (res: Result<(), HfsError>)
    ensures
        res is Ok,
        final(w)@ == old(w)@ + error_reply(),
{
    let ghost start = w@;
    let _ = write_text_packet(w, "status=error");
    let _ = write_flush(w);
    let _ = write_flush(w);
    assert(w@ =~= start + error_reply());
    Ok(())
}

/// Reading packets until a flush (or the end of the input), their payloads
/// put together.
pub open spec fn spec_read_content(input: Seq<u8>) -> (Result<Seq<u8>, HfsError>, Seq<u8>)
    decreases input.len(),
{
    let (r, rest) = spec_read_packet(input);
    match r {
        Err(e) => (Err(e), rest),
        Ok(None) => (Ok(Seq::empty()), rest),
        Ok(Some(d)) => {
            proof {
                crate::filter::pktline::lemma_read_packet_shrinks(input);
            }
            let (r2, rest2) = spec_read_content(rest);
            match r2 {
                Err(e) => (Err(e), rest2),
                Ok(more) => (Ok(d + more), rest2),
            }
        },
    }
}

/// Reads data packets up to a flush and puts their payloads together.
pub fn read_content_packets(r: &mut PktReader) -> (res: Result<Vec<u8>, HfsError>)
    ensures
        match res {
            Ok(v) => spec_read_content(old(r).remaining()).0 == Ok::<Seq<u8>, HfsError>(v@),
            Err(e) => spec_read_content(old(r).remaining()).0 == Err::<Seq<u8>, HfsError>(e),
        },
        final(r).remaining() == spec_read_content(old(r).remaining()).1,
{
    let ghost start = r.remaining();
    let mut content: Vec<u8> = Vec::new();
    loop
        invariant
            start == old(r).remaining(),
            spec_read_content(start).1 == spec_read_content(r.remaining()).1,
            spec_read_content(start).0 == match spec_read_content(r.remaining()).0 {
                Ok(more) => Ok(content@ + more),
                Err(e) => Err(e),
            },
        decreases r.remaining().len(),
    {
        let ghost cur = r.remaining();
        proof {
            crate::filter::pktline::lemma_read_packet_shrinks(cur);
        }
        match read_packet(r) {
            Err(e) => {
                return Err(e);
            },
            Ok(None) => {
                assert(content@ + Seq::<u8>::empty() =~= content@);
                return Ok(content);
            },
            Ok(Some(data)) => {
                let ghost before = content@;
                append_bytes(&mut content, data.as_slice());
                proof {
                    match spec_read_content(r.remaining()).0 {
                        Ok(more) => {
                            assert(before + (data@ + more) =~= content@ + more);
                        },
                        Err(_) => {},
                    }
                }
            },
        }
    }
}

/// The pointer text that ingesting `data` produces.
pub open spec fn ingest_pointer_text(data: Seq<u8>) -> Seq<char> {
    pointer_text(
        blake3_digest(msgpack_manifest(ingest_manifest(data))),
        data.len() as u64,
        spec_chunks(data).len() as u32,
    )
}

/// What the clean filter answers for `content`: pointers pass through;
/// anything else is replaced by the text of its pointer.
pub open spec fn clean_output(content: Seq<u8>) -> Seq<u8> {
    if spec_is_pointer(content) {
        content
    } else {
        encode_utf8(ingest_pointer_text(content))
    }
}

/// The store after the clean filter ingested `content`.
pub open spec fn clean_store(s: StoreView, content: Seq<u8>) -> StoreView {
    if spec_is_pointer(content) {
        s
    } else {
        StoreView {
            root: s.root,
            objects: objects_after(s.objects, spec_chunks(content)),
            manifests: put_if_absent(
                s.manifests,
                blake3_digest(msgpack_manifest(ingest_manifest(content))),
                msgpack_manifest(ingest_manifest(content)),
            ),
        }
    }
}

/// What the smudge filter answers for `content`: non-pointers pass through;
/// a pointer is materialized from the store.
pub open spec fn spec_smudge(s: StoreView, content: Seq<u8>) -> Result<Seq<u8>, HfsError> {
    if !spec_is_pointer(content) {
        Ok(content)
    } else if !valid_utf8(content) {
        Err(HfsError::InvalidUtf8)
    } else {
        match spec_decode(decode_utf8(content)) {
            Err(e) => Err(e),
            Ok((oid, _, _)) => spec_materialize(s, oid),
        }
    }
}

/// The clean filter: a pointer passes through; other content is ingested
/// and its pointer text returned.
///
/// It always succeeds, and its answer is itself a pointer, so cleaning the
/// answer again gives it back and changes nothing. When content that is not
/// itself a pointer is cleaned into a store that holds nothing disagreeing
/// with it, smudging the answer gives the content back.
pub fn handle_clean(store: &mut Store, content: &[u8]) -> (res: Result<Vec<u8>, HfsError>)
    ensures
        match res {
            Ok(v) => {
                &&& v@ == clean_output(content@)
                &&& final(store)@ == clean_store(old(store)@, content@)
                &&& spec_is_pointer(v@)
                &&& clean_output(v@) == v@
                &&& clean_store(final(store)@, v@) == final(store)@
                &&& !spec_is_pointer(content@) && ingest_safe(old(store)@, content@) ==> spec_smudge(
                    final(store)@,
                    v@,
                ) == Ok::<Seq<u8>, HfsError>(content@)
            },
            Err(_) => false,
        },
{
    if Pointer::is_pointer(content) {
        return Ok(vstd::slice::slice_to_vec(content));
    }
    let (pointer, _manifest_bytes) = match ingest_bytes(store, content) {
        Ok(r) => r,
        Err(e) => return Err(e),
    };
    let text = pointer.encode();
    let out = vstd::slice::slice_to_vec(text.as_str().as_bytes());
    proof {
        let t = pointer.text();
        lemma_encoded_is_pointer(pointer.oid@, pointer.size, pointer.chunk_count);
        lemma_pointer_roundtrip(pointer.oid@, pointer.size, pointer.chunk_count);
        encode_utf8_valid_utf8(t);
        encode_utf8_decode_utf8(t);
    }
    Ok(out)
}

/// The smudge filter: non-pointer content passes through; a pointer is
/// decoded and its file materialized.
pub fn handle_smudge(store: &Store, content: &[u8]) -> (res: Result<Vec<u8>, HfsError>)
    ensures
        match res {
            Ok(v) => spec_smudge(store@, content@) == Ok::<Seq<u8>, HfsError>(v@),
            Err(e) => spec_smudge(store@, content@) == Err::<Seq<u8>, HfsError>(e),
        },
{
    if !Pointer::is_pointer(content) {
        return Ok(vstd::slice::slice_to_vec(content));
    }
    let text = match utf8_string(vstd::slice::slice_to_vec(content)) {
        Some(t) => t,
        None => return Err(HfsError::InvalidUtf8),
    };
    let pointer = match Pointer::decode(text.as_str()) {
        Ok(p) => p,
        Err(e) => return Err(e),
    };
    materialize(store, &pointer)
}

/// Where a filter session stands in Git's long-running process protocol.
#[derive(Debug, Clone, Copy, PartialEq, Eq, Structural)]
pub enum FilterPhase {
    /// Reading the client's greeting (`git-filter-client`, versions).
    Hello,
    /// Reading the client's capabilities.
    Capabilities,
    /// Waiting for the next `command=` packet.
    Command,
    /// Reading the request's metadata (pathname and the like), which is ignored.
    Metadata,
    /// Reading the request's content.
    Content,
    /// The client has no more requests.
    Done,
}

/// One run of the filter process: the decisions of the protocol, fed one
/// packet (or flush) at a time; the caller does the reading and writing.
pub struct FilterSession {
    phase: FilterPhase,
    lines: Vec<String>,
    command: Option<String>,
    content: Vec<u8>,
}

/// A session by its plain values.
pub struct SessionView {
    pub phase: FilterPhase,
    /// Greeting or capability lines read so far.
    pub lines: Seq<Seq<char>>,
    /// The current request's command; `None` when its first packet had no `command=`.
    pub command: Option<Seq<char>>,
    /// The current request's content read so far.
    pub content: Seq<u8>,
}

impl View for FilterSession {
    type V = SessionView;

    closed spec fn view(&self) -> SessionView {
        SessionView {
            phase: self.phase,
            lines: self.lines@.map_values(|l: String| l@),
            command: match self.command {
                Some(c) => Some(c@),
                None => None,
            },
            content: self.content@,
        }
    }
}

/// A session in `phase` with nothing read.
pub open spec fn fresh(phase: FilterPhase) -> SessionView {
    SessionView { phase, lines: Seq::empty(), command: None, content: Seq::empty() }
}

/// The text of a packet: UTF-8 without its final line feed.
pub open spec fn packet_text(d: Seq<u8>) -> Option<Seq<char>> {
    if valid_utf8(d) {
        Some(strip_nl(decode_utf8(d)))
    } else {
        None
    }
}

/// The command named by a request's first line, if it starts with `command=`.
pub open spec fn command_of(t: Seq<char>) -> Option<Seq<char>> {
    if has_prefix(t, "command="@) {
        Some(t.skip(8))
    } else {
        None
    }
}

/// The server's greeting.
pub open spec fn hello_reply() -> Seq<u8> {
    text_pkt("git-filter-server"@) + text_pkt("version=2"@) + flush_pkt()
}

/// The capabilities the server takes up: clean and smudge, where offered.
pub open spec fn caps_reply(lines: Seq<Seq<char>>) -> Seq<u8> {
    (if lines.contains("capability=clean"@) {
        text_pkt("capability=clean"@)
    } else {
        Seq::empty()
    }) + (if lines.contains("capability=smudge"@) {
        text_pkt("capability=smudge"@)
    } else {
        Seq::empty()
    }) + flush_pkt()
}

/// `s` with one more line read.
pub open spec fn with_line(s: SessionView, t: Seq<char>) -> SessionView {
    SessionView { lines: s.lines.push(t), ..s }
}

/// One step of the protocol on a packet (`None`: a flush, or the end of the
/// input), except the end of a request's content: the bytes to write back,
/// or the error that ends the process, and the next session.
pub open spec fn spec_step(s: SessionView, packet: Option<Seq<u8>>) -> (Result<Seq<u8>, HfsError>, SessionView) {
    match s.phase {
        FilterPhase::Hello => match packet {
            Some(d) => match packet_text(d) {
                None => (Err(HfsError::InvalidUtf8), s),
                Some(t) => (Ok(Seq::empty()), with_line(s, t)),
            },
            None => if s.lines.len() == 0 || s.lines[0] != "git-filter-client"@ {
                (Err(HfsError::BadHandshake), s)
            } else if !s.lines.contains("version=2"@) {
                (Err(HfsError::UnsupportedVersion), s)
            } else {
                (Ok(hello_reply()), fresh(FilterPhase::Capabilities))
            },
        },
        FilterPhase::Capabilities => match packet {
            Some(d) => match packet_text(d) {
                None => (Err(HfsError::InvalidUtf8), s),
                Some(t) => (Ok(Seq::empty()), with_line(s, t)),
            },
            None => (Ok(caps_reply(s.lines)), fresh(FilterPhase::Command)),
        },
        FilterPhase::Command => match packet {
            Some(d) => match packet_text(d) {
                None => (Err(HfsError::InvalidUtf8), s),
                Some(t) => (Ok(Seq::empty()), SessionView { command: command_of(t), ..fresh(FilterPhase::Metadata) }),
            },
            None => (Ok(Seq::empty()), fresh(FilterPhase::Done)),
        },
        FilterPhase::Metadata => match packet {
            Some(d) => match packet_text(d) {
                None => (Err(HfsError::InvalidUtf8), s),
                Some(_) => (Ok(Seq::empty()), s),
            },
            None => (Ok(Seq::empty()), SessionView { phase: FilterPhase::Content, content: Seq::empty(), ..s }),
        },
        FilterPhase::Content => match packet {
            Some(d) => (Ok(Seq::empty()), SessionView { content: s.content + d, ..s }),
            None => (Ok(Seq::empty()), s),
        },
        FilterPhase::Done => (Ok(Seq::empty()), s),
    }
}

/// Whether `s` is the view of the string literal `lit`.
fn string_is(s: &String, lit: &str) -> (res: bool)
    ensures
        res == (s@ == lit@),
{
    let l = lit.to_owned();
    *s == l
}

/// Whether some line is `lit`.
fn any_line_is(lines: &Vec<String>, lit: &str) -> (res: bool)
    ensures
        res == lines@.map_values(|l: String| l@).contains(lit@),
{
    let ghost views = lines@.map_values(|l: String| l@);
    let mut i: usize = 0;
    while i < lines.len()
        invariant
            i <= lines@.len(),
            views == lines@.map_values(|l: String| l@),
            forall|j: int| 0 <= j < i ==> views[j] != lit@,
        decreases lines@.len() - i,
    {
        if string_is(&lines[i], lit) {
            assert(views[i as int] == lit@);
            return true;
        }
        i += 1;
    }
    false
}

/// The text of a packet, or `None` when it is not UTF-8.
fn text_of(d: Vec<u8>) -> (res: Option<String>)
    ensures
        match res {
            Some(s) => packet_text(d@) == Some(s@),
            None => packet_text(d@) is None,
        },
{
    match utf8_string(d) {
        None => None,
        Some(mut s) => {
            let ghost full = s@;
            match string_pop(&mut s) {
                Some(c) => {
                    if c != '\n' {
                        string_push(&mut s, c);
                        assert(s@ =~= full);
                    }
                },
                None => {},
            }
            Some(s)
        },
    }
}

/// The command a request line names, if it starts with `command=`.
fn command_from(t: &String) -> (res: Option<String>)
    ensures
        match res {
            Some(c) => command_of(t@) == Some(c@),
            None => command_of(t@) is None,
        },
{
    proof {
        reveal_strlit("command=");
    }
    let v = chars_of(t.as_str());
    let p = chars_of("command=");
    if starts_with(&v, &p) {
        let rest = sub_vec(&v, 8, v.len());
        let mut out = String::new();
        let mut i: usize = 0;
        while i < rest.len()
            invariant
                i <= rest@.len(),
                out@ == rest@.take(i as int),
            decreases rest@.len() - i,
        {
            string_push(&mut out, rest[i]);
            assert(rest@.take(i as int + 1) =~= rest@.take(i as int).push(rest@[i as int]));
            i += 1;
        }
        assert(rest@.take(rest@.len() as int) =~= rest@);
        Some(out)
    } else {
        None
    }
}

impl FilterSession {
    /// A session about to read the client's greeting.
    pub fn new() -> (res: FilterSession)
        ensures
            res@ == fresh(FilterPhase::Hello),
    {
        let r = FilterSession { phase: FilterPhase::Hello, lines: Vec::new(), command: None, content: Vec::new() };
        assert(r@.lines =~= Seq::<Seq<char>>::empty());
        r
    }

    /// Whether the client has no more requests.
    pub fn is_done(&self) -> (res: bool)
        ensures
            res == (self@.phase == FilterPhase::Done),
    {
        self.phase == FilterPhase::Done
    }

    fn reset(&mut self, phase: FilterPhase)
        ensures
            final(self)@ == fresh(phase),
    {
        self.phase = phase;
        self.lines = Vec::new();
        self.command = None;
        self.content = Vec::new();
        assert(self@.lines =~= Seq::<Seq<char>>::empty());
    }

    /// Feeds one packet (`None`: a flush packet, or the end of the input) and
    /// returns the bytes to write back. At the end of a request's content the
    /// request is served: `clean` ingests into the store, `smudge` reads from
    /// it, and any other command gets an error reply.
    pub fn step(&mut self, store: &mut Store, packet: Option<Vec<u8>>) -> (res: Result<Vec<u8>, HfsError>)
        ensures
            match packet {
                None if old(self)@.phase == FilterPhase::Content => {
                    let content = old(self)@.content;
                    match old(self)@.command {
                        Some(c) if c == "clean"@ => match res {
                            Ok(out) => out@ == success_reply(clean_output(content)) && final(store)@ == clean_store(
                                old(store)@,
                                content,
                            ) && final(self)@ == fresh(FilterPhase::Command),
                            Err(_) => false,
                        },
                        Some(c) if c == "smudge"@ => final(store)@ == old(store)@ && match (res, spec_smudge(old(store)@, content)) {
                            (Ok(out), Ok(v)) => out@ == success_reply(v) && final(self)@ == fresh(FilterPhase::Command),
                            (Err(e), Err(e2)) => e == e2 && final(self)@ == old(self)@,
                            _ => false,
                        },
                        _ => {
                            &&& final(store)@ == old(store)@
                            &&& res matches Ok(out) && out@ == error_reply()
                            &&& final(self)@ == fresh(FilterPhase::Command)
                        },
                    }
                },
                _ => {
                    let pv = match packet {
                        Some(d) => Some(d@),
                        None => None,
                    };
                    &&& final(store)@ == old(store)@
                    &&& match (res, spec_step(old(self)@, pv)) {
                        (Ok(out), (Ok(o), next)) => out@ == o && final(self)@ == next,
                        (Err(e), (Err(e2), _)) => e == e2,
                        _ => false,
                    }
                },
            },
    {
        let mut out: Vec<u8> = Vec::new();
        match self.phase {
            FilterPhase::Hello | FilterPhase::Capabilities => {
                match packet {
                    Some(d) => {
                        match text_of(d) {
                            None => {
                                return Err(HfsError::InvalidUtf8);
                            },
                            Some(t) => {
                                let ghost before = self@.lines;
                                let ghost tv = t@;
                                let mut v: Vec<String> = Vec::new();
                                std::mem::swap(&mut v, &mut self.lines);
                                v.push(t);
                                self.lines = v;
                                assert(self@.lines =~= before.push(tv));
                            },
                        }
                    },
                    None => {
                        if self.phase == FilterPhase::Hello {
                            if self.lines.len() == 0 || !string_is(&self.lines[0], "git-filter-client") {
                                return Err(HfsError::BadHandshake);
                            }
                            if !any_line_is(&self.lines, "version=2") {
                                return Err(HfsError::UnsupportedVersion);
                            }
                            let _ = write_text_packet(&mut out, "git-filter-server");
                            let _ = write_text_packet(&mut out, "version=2");
                            let _ = write_flush(&mut out);
                            assert(out@ =~= hello_reply());
                            self.reset(FilterPhase::Capabilities);
                        } else {
                            let has_clean = any_line_is(&self.lines, "capability=clean");
                            let has_smudge = any_line_is(&self.lines, "capability=smudge");
                            if has_clean {
                                let _ = write_text_packet(&mut out, "capability=clean");
                            }
                            if has_smudge {
                                let _ = write_text_packet(&mut out, "capability=smudge");
                            }
                            let _ = write_flush(&mut out);
                            assert(out@ =~= caps_reply(self@.lines));
                            self.reset(FilterPhase::Command);
                        }
                    },
                }
            },
            FilterPhase::Command => {
                match packet {
                    Some(d) => {
                        match text_of(d) {
                            None => {
                                return Err(HfsError::InvalidUtf8);
                            },
                            Some(t) => {
                                let cmd = command_from(&t);
                                self.reset(FilterPhase::Metadata);
                                self.command = cmd;
                            },
                        }
                    },
                    None => {
                        self.reset(FilterPhase::Done);
                    },
                }
            },
            FilterPhase::Metadata => {
                match packet {
                    Some(d) => {
                        match text_of(d) {
                            None => {
                                return Err(HfsError::InvalidUtf8);
                            },
                            Some(_) => {},
                        }
                    },
                    None => {
                        self.phase = FilterPhase::Content;
                        self.content = Vec::new();
                    },
                }
            },
            FilterPhase::Content => {
                match packet {
                    Some(d) => {
                        append_bytes(&mut self.content, d.as_slice());
                    },
                    None => {
                        let is_clean = match &self.command {
                            Some(c) => string_is(c, "clean"),
                            None => false,
                        };
                        let is_smudge = match &self.command {
                            Some(c) => string_is(c, "smudge"),
                            None => false,
                        };
                        if is_clean {
                            let result = match handle_clean(store, self.content.as_slice()) {
                                Ok(r) => r,
                                Err(e) => {
                                    return Err(e);
                                },
                            };
                            let _ = send_success_response(&mut out, result.as_slice());
                        } else if is_smudge {
                            let result = match handle_smudge(store, self.content.as_slice()) {
                                Ok(r) => r,
                                Err(e) => {
                                    return Err(e);
                                },
                            };
                            let _ = send_success_response(&mut out, result.as_slice());
                        } else {
                            let _ = send_error_response(&mut out);
                        }
                        self.reset(FilterPhase::Command);
                    },
                }
            },
            FilterPhase::Done => {},
        }
        Ok(out)
    }
}

} // verus!
