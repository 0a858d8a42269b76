//! Server-Sent Events: the event text format, chunked framing, and the
//! per-request session that decides what the handler's start/send/end
//! calls write to the response stream.

use vstd::prelude::*;
use vstd::string::StringSliceAdditionalSpecFns;
use vstd::utf8::encode_utf8;
use crate::text::{
    append_bytes, ascii_bytes, find_byte, find_byte_in, first_index, hex_chars, lemma_first_index_range,
    lemma_split_from, push_ascii, push_hex, split_on,
};

verus! {

/// CR LF as bytes.
pub open spec fn crlf() -> Seq<u8> {
    seq![13u8, 10u8]
}

/// `s` up to its first carriage return.
pub open spec fn until_cr(s: Seq<u8>) -> Seq<u8> {
    s.take(first_index(s, 13u8))
}

/// `s` up to its first carriage return or line feed.
pub open spec fn until_line_break(s: Seq<u8>) -> Seq<u8> {
    let a = first_index(s, 13u8);
    let b = first_index(s, 10u8);
    s.take(if a <= b { a } else { b })
}

/// The `event:` line, absent for an empty name; the name is cut at its
/// first line break so that it cannot add fields.
pub open spec fn event_line(event: Seq<u8>) -> Seq<u8> {
    if event.len() == 0 {
        Seq::empty()
    } else {
        ascii_bytes("event: "@) + until_line_break(event) + crlf()
    }
}

/// One `data:` line per piece, each cut at its first carriage return.
pub open spec fn data_lines(ls: Seq<Seq<u8>>) -> Seq<u8>
    decreases ls.len(),
{
    if ls.len() == 0 {
        Seq::empty()
    } else {
        ascii_bytes("data: "@) + until_cr(ls[0]) + crlf() + data_lines(ls.drop_first())
    }
}

/// An event: the `event:` line, a `data:` line for each line of the data
/// (split at line feeds), and a blank line.
pub open spec fn format_event_spec(event: Seq<u8>, data: Seq<u8>) -> Seq<u8> {
    event_line(event) + data_lines(split_on(data, 10u8)) + crlf()
}

/// An event name cannot add fields: what the `event:` line keeps of it is a
/// prefix of the name without carriage return or line feed.
pub proof fn lemma_event_name_confined(event: Seq<u8>)
    ensures
        event.len() > 0 ==> event_line(event) == ascii_bytes("event: "@) + until_line_break(event) + crlf(),
        until_line_break(event).len() <= event.len(),
        until_line_break(event) == event.take(until_line_break(event).len() as int),
        forall|i: int| 0 <= i < until_line_break(event).len() ==> #[trigger] until_line_break(event)[i] != 13u8
            && until_line_break(event)[i] != 10u8,
{
    lemma_first_index_range(event, 13u8);
    lemma_first_index_range(event, 10u8);
}

/// Every event ends with a blank line: its last four bytes are CR LF CR LF.
pub proof fn lemma_event_ends_with_blank_line(event: Seq<u8>, data: Seq<u8>)
    ensures
        format_event_spec(event, data).len() >= 4,
        format_event_spec(event, data).skip(format_event_spec(event, data).len() - 4) == crlf() + crlf(),
{
    let ls = split_on(data, 10u8);
    assert(ls.len() >= 1) by {
        lemma_first_index_range(data, 10u8);
    }
    lemma_data_lines_end(ls);
    let d = data_lines(ls);
    let f = format_event_spec(event, data);
    assert(f == event_line(event) + d + crlf());
    assert(f.skip(f.len() - 4) =~= d.skip(d.len() - 2) + crlf());
}

proof fn lemma_data_lines_end(ls: Seq<Seq<u8>>)
    requires
        ls.len() >= 1,
    ensures
        data_lines(ls).len() >= 2,
        data_lines(ls).skip(data_lines(ls).len() - 2) == crlf(),
    decreases ls.len(),
{
    let head = ascii_bytes("data: "@) + until_cr(ls[0]) + crlf();
    let rest = data_lines(ls.drop_first());
    assert(data_lines(ls) == head + rest);
    if ls.len() == 1 {
        assert(ls.drop_first().len() == 0);
        assert(rest =~= Seq::<u8>::empty());
        assert(data_lines(ls).skip(data_lines(ls).len() - 2) =~= head.skip(head.len() - 2));
        assert(head.skip(head.len() - 2) =~= crlf());
    } else {
        lemma_data_lines_end(ls.drop_first());
        assert(data_lines(ls).skip(data_lines(ls).len() - 2) =~= rest.skip(rest.len() - 2));
    }
}

/// CR LF CR at `i` (the start of a blank line after a line break).
pub open spec fn cr_lf_cr_at(s: Seq<u8>, i: int) -> bool {
    0 <= i && i + 2 < s.len() && s[i] == 13u8 && s[i + 1] == 10u8 && s[i + 2] == 13u8
}

/// Lines that each end with CR LF, none of them empty and none holding a
/// carriage return before its end.
spec fn good_lines(s: Seq<u8>) -> bool {
    &&& s.len() >= 2
    &&& s[0] != 13u8
    &&& s[s.len() - 2] == 13u8
    &&& s[s.len() - 1] == 10u8
    &&& forall|i: int| !cr_lf_cr_at(s, i)
}

proof fn lemma_line_good(x: Seq<u8>)
    requires
        x.len() > 0,
        forall|i: int| 0 <= i < x.len() ==> x[i] != 13u8,
    ensures
        good_lines(x + crlf()),
{
    let s = x + crlf();
    assert forall|i: int| !cr_lf_cr_at(s, i) by {
        if 0 <= i && i + 2 < s.len() {
            assert(i < x.len());
            assert(s[i] == x[i]);
        }
    }
}

proof fn lemma_good_concat(a: Seq<u8>, b: Seq<u8>)
    requires
        good_lines(a),
        good_lines(b),
    ensures
        good_lines(a + b),
{
    let s = a + b;
    assert forall|i: int| !cr_lf_cr_at(s, i) by {
        if cr_lf_cr_at(s, i) {
            if i + 2 < a.len() {
                assert(cr_lf_cr_at(a, i));
            } else if i == a.len() - 2 {
                assert(s[i + 2] == b[0]);
            } else if i == a.len() - 1 {
                assert(s[i] == a[a.len() - 1]);
            } else {
                assert(cr_lf_cr_at(b, i - a.len()));
            }
        }
    }
}

proof fn lemma_data_lines_good(ls: Seq<Seq<u8>>)
    requires
        ls.len() >= 1,
    ensures
        good_lines(data_lines(ls)),
    decreases ls.len(),
{
    reveal_strlit("data: ");
    let prefix = ascii_bytes("data: "@);
    assert(prefix =~= seq![100u8, 97u8, 116u8, 97u8, 58u8, 32u8]);
    let piece = until_cr(ls[0]);
    lemma_first_index_range(ls[0], 13u8);
    let x = prefix + piece;
    assert forall|i: int| 0 <= i < x.len() implies x[i] != 13u8 by {
        if i >= prefix.len() {
            assert(x[i] == piece[i - prefix.len()]);
        }
    }
    lemma_line_good(x);
    let line = ascii_bytes("data: "@) + until_cr(ls[0]) + crlf();
    assert(line =~= x + crlf());
    let rest = data_lines(ls.drop_first());
    assert(data_lines(ls) == line + rest);
    if ls.len() == 1 {
        assert(rest =~= Seq::<u8>::empty());
        assert(data_lines(ls) =~= line);
    } else {
        lemma_data_lines_good(ls.drop_first());
        lemma_good_concat(line, rest);
    }
}

/// A blank line (CR LF CR LF) occurs in a formatted event only as its end,
/// so an event cannot end the stream's framing of events early.
pub proof fn lemma_blank_line_only_at_end(event: Seq<u8>, data: Seq<u8>)
    ensures
        forall|k: int|
            0 <= k && k + 4 <= format_event_spec(event, data).len() && #[trigger] format_event_spec(event, data).subrange(
                k,
                k + 4,
            ) == crlf() + crlf() ==> k == format_event_spec(event, data).len() - 4,
{
    let ls = split_on(data, 10u8);
    assert(ls.len() >= 1) by {
        lemma_first_index_range(data, 10u8);
    }
    lemma_data_lines_good(ls);
    let d = data_lines(ls);
    let e = event_line(event);
    let body = e + d;
    if event.len() > 0 {
        reveal_strlit("event: ");
        let prefix = ascii_bytes("event: "@);
        assert(prefix =~= seq![101u8, 118u8, 101u8, 110u8, 116u8, 58u8, 32u8]);
        lemma_event_name_confined(event);
        let name = until_line_break(event);
        let x = prefix + name;
        assert forall|i: int| 0 <= i < x.len() implies x[i] != 13u8 by {
            if i >= prefix.len() {
                assert(x[i] == name[i - prefix.len()]);
            }
        }
        lemma_line_good(x);
        assert(e =~= x + crlf());
        lemma_good_concat(e, d);
    } else {
        assert(e =~= Seq::<u8>::empty());
        assert(body =~= d);
    }
    let f = format_event_spec(event, data);
    assert(f == body + crlf());
    assert forall|k: int|
        0 <= k && k + 4 <= f.len() && #[trigger] f.subrange(k, k + 4) == crlf() + crlf() implies k == f.len() - 4 by {
        assert(f.subrange(k, k + 4)[0] == 13u8);
        assert(f.subrange(k, k + 4)[1] == 10u8);
        assert(f.subrange(k, k + 4)[2] == 13u8);
        assert(f[k] == 13u8 && f[k + 1] == 10u8 && f[k + 2] == 13u8);
        if k + 2 < body.len() {
            assert(f[k] == body[k] && f[k + 1] == body[k + 1] && f[k + 2] == body[k + 2]);
            assert(cr_lf_cr_at(body, k));
        } else if k == body.len() - 1 {
            assert(f[k] == body[body.len() - 1]);
        }
    }
}

/// Formats one event (without chunk framing).
pub fn format_event(event: &str, data: &str) -> (r: Vec<u8>)
    ensures
        r@ == format_event_spec(event.spec_bytes(), data.spec_bytes()),
{
    proof {
        reveal_strlit("event: ");
        reveal_strlit("data: ");
        reveal_strlit("\r\n");
    }
    let ev = event.as_bytes();
    let d = data.as_bytes();
    let mut buf: Vec<u8> = Vec::new();
    if ev.len() > 0 {
        let a = find_byte(ev, 0, 13u8);
        let b = find_byte(ev, 0, 10u8);
        let cut = if a <= b { a } else { b };
        push_ascii(&mut buf, "event: ");
        append_bytes(&mut buf, vstd::slice::slice_subrange(ev, 0, cut));
        push_ascii(&mut buf, "\r\n");
        proof {
            assert(ev@.skip(0) =~= ev@);
            assert(buf@ =~= event_line(ev@));
        }
    } else {
        assert(buf@ =~= event_line(ev@));
    }
    let len = d.len();
    let mut pos: usize = 0;
    proof {
        assert(d@.skip(0) =~= d@);
    }
    loop
        invariant_except_break
            len == d@.len(),
            pos <= len,
            "data: "@ == seq!['d', 'a', 't', 'a', ':', ' '],
            "\r\n"@ == seq!['\r', '\n'],
            format_event_spec(ev@, d@) == buf@ + data_lines(split_on(d@.skip(pos as int), 10u8)) + crlf(),
        ensures
            "\r\n"@ == seq!['\r', '\n'],
            format_event_spec(ev@, d@) == buf@ + crlf(),
        decreases len - pos,
    {
        let e = find_byte(d, pos, 10u8);
        let c = find_byte_in(d, pos, e, 13u8);
        proof {
            lemma_split_from(d@, 10u8, pos as int, e as int);
            assert(d@.skip(pos as int).take(e - pos) =~= d@.subrange(pos as int, e as int));
        }
        let ghost piece = d@.subrange(pos as int, e as int);
        let ghost ls = split_on(d@.skip(pos as int), 10u8);
        let ghost before = buf@;
        push_ascii(&mut buf, "data: ");
        append_bytes(&mut buf, vstd::slice::slice_subrange(d, pos, c));
        push_ascii(&mut buf, "\r\n");
        proof {
            assert(ls[0] == piece);
            assert(piece.take(c - pos) =~= d@.subrange(pos as int, c as int));
            assert(buf@ =~= before + ascii_bytes("data: "@) + until_cr(piece) + crlf());
        }
        if e == len {
            proof {
                assert(ls.drop_first() =~= Seq::<Seq<u8>>::empty());
                assert(data_lines(Seq::<Seq<u8>>::empty()) =~= Seq::<u8>::empty());
                assert(data_lines(ls) =~= ascii_bytes("data: "@) + until_cr(piece) + crlf());
                assert(format_event_spec(ev@, d@) =~= buf@ + crlf());
            }
            break;
        }
        proof {
            assert(ls.drop_first() =~= split_on(d@.skip(e + 1), 10u8));
        }
        pos = e + 1;
    }
    push_ascii(&mut buf, "\r\n");
    proof {
        assert(buf@ =~= format_event_spec(ev@, d@));
    }
    buf
}

// ───────────── chunked framing ─────────────

/// Head of one chunk: its length in lower-case hex, then CR LF.
pub open spec fn chunk_header_spec(len: nat) -> Seq<u8> {
    ascii_bytes(hex_chars(len)) + crlf()
}

/// The head written before a chunk of `len` bytes (the chunk itself and a
/// CR LF follow it).
pub fn chunk_header(len: usize) -> (r: Vec<u8>)
    ensures
        r@ == chunk_header_spec(len as nat),
{
    let mut buf: Vec<u8> = Vec::new();
    push_hex(&mut buf, len as u128);
    buf.push(13u8);
    buf.push(10u8);
    proof {
        assert(buf@ =~= chunk_header_spec(len as nat));
    }
    buf
}

/// One chunk: its head, the bytes, and CR LF.
pub open spec fn chunk_frame_spec(data: Seq<u8>) -> Seq<u8> {
    chunk_header_spec(data.len()) + data + crlf()
}

/// The bytes of one chunk carrying `data`.
pub fn chunk_frame(data: &[u8]) -> (r: Vec<u8>)
    ensures
        r@ == chunk_frame_spec(data@),
{
    let mut buf = chunk_header(data.len());
    append_bytes(&mut buf, data);
    buf.push(13u8);
    buf.push(10u8);
    proof {
        assert(buf@ =~= chunk_frame_spec(data@));
    }
    buf
}

/// The last chunk, which ends a chunked body.
pub open spec fn chunk_terminator_spec() -> Seq<u8> {
    ascii_bytes("0\r\n\r\n"@)
}

/// The bytes that end a chunked body.
pub fn chunk_terminator() -> (r: Vec<u8>)
    ensures
        r@ == chunk_terminator_spec(),
{
    proof {
        reveal_strlit("0\r\n\r\n");
    }
    let mut buf: Vec<u8> = Vec::new();
    push_ascii(&mut buf, "0\r\n\r\n");
    buf
}

// ───────────── the session ─────────────

/// Response head that switches a request to an event stream.
pub open spec fn sse_head_spec() -> Seq<u8> {
    ascii_bytes(
        "HTTP/1.1 200 OK\r\nContent-Type: text/event-stream\r\nCache-Control: no-cache\r\nConnection: keep-alive\r\nTransfer-Encoding: chunked\r\n\r\n"@,
    )
}

/// First chunk of a stream: asks the browser to reconnect after 3 s.
pub open spec fn retry_hint_spec() -> Seq<u8> {
    ascii_bytes("retry: 3000\r\n\r\n"@)
}

/// Whether the handler of the current request switched it to an event
/// stream, and whether that stream was ended.
pub struct SseSession {
    started: bool,
    ended: bool,
}

impl SseSession {
    /// The request was switched to an event stream.
    pub closed spec fn started(&self) -> bool {
        self.started
    }

    /// The stream got its final chunk; nothing more is sent on it.
    pub closed spec fn ended(&self) -> bool {
        self.ended
    }

    /// Events can be sent: the stream was started and not ended.
    pub open spec fn open(&self) -> bool {
        self.started() && !self.ended()
    }

    /// A session that has not started.
    pub fn new() -> (r: Self)
        ensures
            !r.started(),
            !r.ended(),
    {
        SseSession { started: false, ended: false }
    }

    /// Whether the request was switched to an event stream (also after the
    /// stream ended).
    pub fn was_started(&self) -> (r: bool)
        ensures
            r == self.started(),
    {
        self.started
    }

    /// A new request's stream is attached, or the stream is released: the
    /// session starts over, not started.
    pub fn reset(&mut self)
        ensures
            !final(self).started(),
            !final(self).ended(),
    {
        self.started = false;
        self.ended = false;
    }
}

/// First step of starting a stream: without an attached stream nothing is
/// written and starting fails; otherwise the response head is to be written.
pub fn start(has_stream: bool) -> (r: Option<Vec<u8>>)
    ensures
        !has_stream ==> r is None,
        has_stream ==> (r matches Some(h) && h@ == sse_head_spec()),
{
    if !has_stream {
        return None;
    }
    proof {
        reveal_strlit(
            "HTTP/1.1 200 OK\r\nContent-Type: text/event-stream\r\nCache-Control: no-cache\r\nConnection: keep-alive\r\nTransfer-Encoding: chunked\r\n\r\n",
        );
    }
    let mut buf: Vec<u8> = Vec::new();
    push_ascii(
        &mut buf,
        "HTTP/1.1 200 OK\r\nContent-Type: text/event-stream\r\nCache-Control: no-cache\r\nConnection: keep-alive\r\nTransfer-Encoding: chunked\r\n\r\n",
    );
    Some(buf)
}

/// Second step of starting a stream, once writing the head succeeded or
/// failed: on success the session is started and the chunk carrying the
/// retry hint is to be written (its write result is the result of
/// starting); on failure starting fails and the session is unchanged.
pub fn start_written(session: &mut SseSession, head_written: bool) -> (r: Option<Vec<u8>>)
    ensures
        !head_written ==> r is None && *final(session) == *old(session),
        head_written ==> final(session).open() && (r matches Some(c) && c@ == chunk_frame_spec(retry_hint_spec())),
{
    if !head_written {
        return None;
    }
    session.started = true;
    session.ended = false;
    proof {
        reveal_strlit("retry: 3000\r\n\r\n");
    }
    let mut hint: Vec<u8> = Vec::new();
    push_ascii(&mut hint, "retry: 3000\r\n\r\n");
    Some(chunk_frame(hint.as_slice()))
}

/// Sending an event: only on an open stream (started, not ended), as one
/// chunk holding the formatted event. The session stays as it is.
pub fn send(session: &SseSession, event: String, data: String) -> (r: Option<Vec<u8>>)
    ensures
        !session.open() ==> r is None,
        session.open() ==> (r matches Some(c) && c@ == chunk_frame_spec(
            format_event_spec(encode_utf8(event@), encode_utf8(data@)),
        )),
{
    if !session.started || session.ended {
        return None;
    }
    let e = format_event(event.as_str(), data.as_str());
    Some(chunk_frame(e.as_slice()))
}

/// Ending the stream: an open stream gets the final chunk and is ended, so
/// nothing more is sent on it, while the request stays marked as streamed;
/// otherwise nothing is written and the session stays as it is.
pub fn end(session: &mut SseSession) -> (r: Option<Vec<u8>>)
    ensures
        final(session).started() == old(session).started(),
        !final(session).open(),
        !old(session).open() ==> r is None && *final(session) == *old(session),
        old(session).open() ==> final(session).ended() && (r matches Some(c) && c@ == chunk_terminator_spec()),
{
    if !session.started || session.ended {
        return None;
    }
    session.ended = true;
    Some(chunk_terminator())
}

} // verus!
