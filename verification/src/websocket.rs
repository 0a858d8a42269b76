//! WebSocket support: the opening handshake, heartbeat settings, the
//! per-connection event loop decisions, structured events, and the
//! connection and room tables that sending and broadcasting go through.

use vstd::prelude::*;
use vstd::utf8::*;
use vstd::string::StringSliceAdditionalSpecFns;
use core::time::Duration;
use dashmap::DashMap;
use tokio::sync::mpsc::UnboundedSender;
use crate::runtime::{RoomCell, SenderCell, strings_view};
use crate::bridges::{
    connection_ids, connections_ids, sender_of, connections_insert, connections_len, connections_new,
    connections_remove, connections_sender, room_table, rooms_get, rooms_insert, rooms_len,
    rooms_names, rooms_new, rooms_set_members, sender_send,
    base64_encode, base64_standard, duration_from_secs, duration_of_secs, json_quoted, json_string,
    lossy_string, sha1, sha1_digest, to_lowercase, unicode_lowercase, utf8_lossy, utf8_str,
};
use crate::text::{
    append_bytes, ascii_bytes, dec_chars, dec_string, push_ascii,
    chars_vec, find_char, lemma_str_lines_from, starts_with, str_lines, string_of_range, strip_cr,
    trim, trim_bounds,
};

verus! {

broadcast use vstd::utf8::group_utf8_lib;

// ───────────── Sec-WebSocket-Key ─────────────

/// The header name that introduces the handshake key, lower-cased.
pub open spec fn key_prefix() -> Seq<char> {
    "sec-websocket-key:"@
}

/// A line whose Unicode-lower-cased text begins with `sec-websocket-key:`.
pub open spec fn is_key_line(l: Seq<char>) -> bool {
    starts_with(unicode_lowercase(l), key_prefix())
}

/// The line's UTF-8 bytes can be cut after the 18-byte header name.
pub open spec fn key_line_cuttable(l: Seq<char>) -> bool {
    is_char_boundary(encode_utf8(l), 18)
}

/// The value of a key line: its text after the first 18 bytes, trimmed.
pub open spec fn key_line_value(l: Seq<char>) -> Seq<char> {
    trim(decode_utf8(encode_utf8(l).skip(18)))
}

/// The first non-empty key value among the lines.
pub open spec fn scan_key(ls: Seq<Seq<char>>) -> Option<Seq<char>>
    decreases ls.len(),
{
    if ls.len() == 0 {
        None
    } else if is_key_line(ls[0]) && key_line_value(ls[0]).len() > 0 {
        Some(key_line_value(ls[0]))
    } else {
        scan_key(ls.drop_first())
    }
}

/// Every key line the scan reaches can be cut after the header name.
pub open spec fn scan_cuttable(ls: Seq<Seq<char>>) -> bool
    decreases ls.len(),
{
    if ls.len() == 0 {
        true
    } else if is_key_line(ls[0]) {
        key_line_cuttable(ls[0]) && (key_line_value(ls[0]).len() > 0 || scan_cuttable(ls.drop_first()))
    } else {
        scan_cuttable(ls.drop_first())
    }
}

/// The handshake key of a request: the trimmed value of the first line
/// (in `str::lines` order) whose lower-cased text starts with
/// `sec-websocket-key:` and whose value is not empty.
pub open spec fn websocket_key_spec(request: Seq<char>) -> Option<Seq<char>> {
    scan_key(str_lines(request))
}

/// The key lines the scan reaches can be cut after their 18-byte header
/// name (a line whose lower-cased form starts with the name while the line
/// itself has no character boundary there cannot be read).
pub open spec fn websocket_key_readable(request: Seq<char>) -> bool {
    scan_cuttable(str_lines(request))
}

/// A key line that cannot be cut after its header name was met.
pub struct KeyLineUncuttable;

/// Scans the request lines for the handshake key.
fn scan_websocket_key(request: &str) -> (r: Result<Option<String>, KeyLineUncuttable>)
    ensures
        r is Err <==> !websocket_key_readable(request@),
        r matches Ok(k) ==> (match k {
            Some(s) => websocket_key_spec(request@) == Some(s@),
            None => websocket_key_spec(request@) is None,
        }),
{
    let v = chars_vec(request);
    let n = v.len();
    let mut pos: usize = 0;
    proof {
        reveal_strlit("sec-websocket-key:");
        assert(v@.skip(0) =~= v@);
    }
    let p = chars_vec("sec-websocket-key:");
    while pos < n
        invariant
            v@ == request@,
            n == v@.len(),
            pos <= n,
            p@ == key_prefix(),
            p@.len() == 18,
            websocket_key_spec(request@) == scan_key(str_lines(v@.skip(pos as int))),
            websocket_key_readable(request@) == scan_cuttable(str_lines(v@.skip(pos as int))),
        decreases n - pos,
    {
        let e = find_char(&v, pos, '\n');
        let end = if e < n && e > pos && v[e - 1] == '\r' { e - 1 } else { e };
        proof {
            lemma_str_lines_from(v@, pos as int, e as int);
            let raw = v@.subrange(pos as int, e as int);
            if e < n {
                if e > pos && v@[e - 1] == '\r' {
                    assert(strip_cr(raw) =~= v@.subrange(pos as int, end as int));
                } else {
                    assert(strip_cr(raw) == raw);
                }
            }
        }
        let ghost line = v@.subrange(pos as int, end as int);
        let ghost ls = str_lines(v@.skip(pos as int));
        assert(ls[0] == line);
        assert(ls.drop_first() =~= if e < n { str_lines(v@.skip(e + 1)) } else { Seq::empty() });
        let line_str = request.substring_char(pos, end);
        let lower = to_lowercase(line_str);
        let lv = chars_vec(lower.as_str());
        let mut matches = lv.len() >= 18;
        let mut i: usize = 0;
        while matches && i < 18
            invariant
                lv@ == unicode_lowercase(line),
                p@ == key_prefix(),
                p@.len() == 18,
                0 <= i <= 18,
                matches ==> lv@.len() >= 18 && forall|k: int| 0 <= k < i ==> lv@[k] == p@[k],
                !matches ==> !starts_with(lv@, p@),
            decreases 18 - i,
        {
            if lv[i] != p[i] {
                matches = false;
                assert(lv@.take(18)[i as int] != p@[i as int]);
            }
            i = i + 1;
        }
        if matches {
            assert(lv@.take(18) =~= p@);
        }
        assert(matches == is_key_line(line));
        if matches {
            if !line_str.is_char_boundary(18) {
                return Err(KeyLineUncuttable);
            }
            let (_, rest) = line_str.split_at(18);
            proof {
                assert(encode_utf8(rest@) =~= encode_utf8(line).skip(18));
                assert(decode_utf8(encode_utf8(rest@)) == rest@);
            }
            let rv = chars_vec(rest);
            let (a, b) = trim_bounds(&rv, 0, rv.len());
            proof {
                assert(rv@.subrange(0, rv@.len() as int) =~= rv@);
                assert(key_line_cuttable(line));
                assert(key_line_value(line) == rv@.subrange(a as int, b as int));
            }
            if a < b {
                let key = string_of_range(rest, a, b);
                return Ok(Some(key));
            }
        }
        assert(!(is_key_line(line) && key_line_value(line).len() > 0));
        assert(is_key_line(line) ==> key_line_cuttable(line));
        if e == n {
            assert(ls.drop_first() =~= Seq::<Seq<char>>::empty());
            assert(scan_key(Seq::<Seq<char>>::empty()) is None);
            assert(scan_cuttable(Seq::<Seq<char>>::empty()));
            return Ok(None);
        }
        pos = e + 1;
    }
    proof {
        assert(v@.skip(pos as int) =~= Seq::<char>::empty());
        assert(str_lines(Seq::<char>::empty()) =~= Seq::<Seq<char>>::empty());
    }
    Ok(None)
}

/// Whether the handshake key of a request can be read (see
/// `websocket_key_readable`).
pub fn websocket_key_readable_exec(request: &str) -> (r: bool)
    ensures
        r == websocket_key_readable(request@),
{
    scan_websocket_key(request).is_ok()
}

/// The handshake key of a request, if a non-empty one is given.
pub fn extract_websocket_key(request: &str) -> (r: Option<String>)
    requires
        websocket_key_readable(request@),
    ensures
        match r {
            Some(s) => websocket_key_spec(request@) == Some(s@),
            None => websocket_key_spec(request@) is None,
        },
{
    match scan_websocket_key(request) {
        Ok(k) => k,
        Err(_) => None,
    }
}

/// The handshake key of a request, or `Err` where a key line cannot be
/// cut after its header name.
pub fn checked_websocket_key(request: &str) -> (r: Result<Option<String>, KeyLineUncuttable>)
    ensures
        r is Err <==> !websocket_key_readable(request@),
        r matches Ok(k) ==> (match k {
            Some(s) => websocket_key_spec(request@) == Some(s@),
            None => websocket_key_spec(request@) is None,
        }),
{
    if websocket_key_readable_exec(request) {
        Ok(extract_websocket_key(request))
    } else {
        Err(KeyLineUncuttable)
    }
}

// ───────────── handshake ─────────────

/// The GUID that RFC 6455 appends to the key.
pub open spec fn handshake_guid() -> Seq<char> {
    "258EAFA5-E914-47DA-95CA-C5AB0DC85B11"@
}

/// `Sec-WebSocket-Accept` for a key: Base64 of the SHA-1 digest of the
/// key's bytes followed by the GUID.
pub open spec fn accept_spec(key: Seq<char>) -> Seq<char> {
    base64_standard(sha1_digest(encode_utf8(key) + ascii_bytes(handshake_guid())))
}

/// Computes `Sec-WebSocket-Accept` for a handshake key.
pub fn compute_accept(key: &str) -> (r: String)
    ensures
        r@ == accept_spec(key@),
{
    proof {
        reveal_strlit("258EAFA5-E914-47DA-95CA-C5AB0DC85B11");
    }
    let mut concat: Vec<u8> = Vec::new();
    append_bytes(&mut concat, key.as_bytes());
    push_ascii(&mut concat, "258EAFA5-E914-47DA-95CA-C5AB0DC85B11");
    let digest = sha1(concat.as_slice());
    base64_encode(digest.as_slice())
}

/// Response that accepts an upgrade with the given accept value.
pub open spec fn switching_protocols_spec(accept: Seq<char>) -> Seq<u8> {
    ascii_bytes(
        "HTTP/1.1 101 Switching Protocols\r\nUpgrade: websocket\r\nConnection: Upgrade\r\nSec-WebSocket-Accept: "@,
    ) + encode_utf8(accept) + ascii_bytes("\r\n\r\n"@)
}

/// Response to an upgrade request without a key.
pub open spec fn upgrade_rejected_spec() -> Seq<u8> {
    ascii_bytes("HTTP/1.1 400 Bad Request\r\nContent-Length: 0\r\nConnection: close\r\n\r\n"@)
}

/// Outcome of the opening handshake.
pub enum Handshake {
    /// Write the response and continue with the WebSocket session.
    Accept(Vec<u8>),
    /// Write the response and close.
    Reject(Vec<u8>),
}

/// The opening handshake for a request head: with a key, a 101 response
/// carrying its accept value; without one, a 400 response. `Err` where a
/// key line of the lossy request text cannot be cut after its header name.
pub fn handshake(pre_read: &[u8]) -> (r: Result<Handshake, KeyLineUncuttable>)
    ensures
        r is Err <==> !websocket_key_readable(utf8_lossy(pre_read@)),
        r is Ok ==> match websocket_key_spec(utf8_lossy(pre_read@)) {
            Some(k) => r matches Ok(Handshake::Accept(b)) && b@ == switching_protocols_spec(accept_spec(k)),
            None => r matches Ok(Handshake::Reject(b)) && b@ == upgrade_rejected_spec(),
        },
{
    let text = lossy_string(pre_read);
    match checked_websocket_key(text.as_str()) {
        Err(e) => Err(e),
        Ok(None) => {
            proof {
                reveal_strlit("HTTP/1.1 400 Bad Request\r\nContent-Length: 0\r\nConnection: close\r\n\r\n");
            }
            let mut out: Vec<u8> = Vec::new();
            push_ascii(&mut out, "HTTP/1.1 400 Bad Request\r\nContent-Length: 0\r\nConnection: close\r\n\r\n");
            proof {
                assert(out@ =~= upgrade_rejected_spec());
            }
            Ok(Handshake::Reject(out))
        },
        Ok(Some(key)) => {
            let accept = compute_accept(key.as_str());
            proof {
                reveal_strlit(
                    "HTTP/1.1 101 Switching Protocols\r\nUpgrade: websocket\r\nConnection: Upgrade\r\nSec-WebSocket-Accept: ",
                );
                reveal_strlit("\r\n\r\n");
            }
            let mut out: Vec<u8> = Vec::new();
            push_ascii(
                &mut out,
                "HTTP/1.1 101 Switching Protocols\r\nUpgrade: websocket\r\nConnection: Upgrade\r\nSec-WebSocket-Accept: ",
            );
            append_bytes(&mut out, accept.as_str().as_bytes());
            push_ascii(&mut out, "\r\n\r\n");
            proof {
                assert(out@ =~= switching_protocols_spec(accept_spec(key@)));
            }
            Ok(Handshake::Accept(out))
        },
    }
}

// ───────────── heartbeat ─────────────

/// Heartbeat interval and timeout in seconds: both at least 1, and an
/// interval not below the timeout is lowered to `timeout - 1` (at least 1).
pub open spec fn heartbeat_secs(ping_interval_sec: u64, ping_timeout_sec: u64) -> (u64, u64) {
    let interval = if ping_interval_sec >= 1 { ping_interval_sec } else { 1 };
    let timeout = if ping_timeout_sec >= 1 { ping_timeout_sec } else { 1 };
    let interval = if interval >= timeout {
        if timeout - 1 >= 1 { (timeout - 1) as u64 } else { 1 }
    } else {
        interval
    };
    (interval, timeout)
}

/// The heartbeat settings keep a ping before every timeout: the interval is
/// at least one second and below the timeout whenever the timeout exceeds
/// one second; valid settings pass through unchanged.
pub proof fn lemma_heartbeat_sound(ping_interval_sec: u64, ping_timeout_sec: u64)
    ensures
        heartbeat_secs(ping_interval_sec, ping_timeout_sec).0 >= 1,
        heartbeat_secs(ping_interval_sec, ping_timeout_sec).1 >= 1,
        heartbeat_secs(ping_interval_sec, ping_timeout_sec).1 >= 2 ==> heartbeat_secs(
            ping_interval_sec,
            ping_timeout_sec,
        ).0 < heartbeat_secs(ping_interval_sec, ping_timeout_sec).1,
        1 <= ping_interval_sec < ping_timeout_sec ==> heartbeat_secs(ping_interval_sec, ping_timeout_sec)
            == (ping_interval_sec, ping_timeout_sec),
{
}

/// Heartbeat interval and timeout (see `heartbeat_secs`).
pub fn normalize_heartbeat_config(ping_interval_sec: u64, ping_timeout_sec: u64) -> (r: (Duration, Duration))
    ensures
        r == (
            duration_of_secs(heartbeat_secs(ping_interval_sec, ping_timeout_sec).0),
            duration_of_secs(heartbeat_secs(ping_interval_sec, ping_timeout_sec).1),
        ),
{
    let interval = if ping_interval_sec >= 1 { ping_interval_sec } else { 1 };
    let timeout = if ping_timeout_sec >= 1 { ping_timeout_sec } else { 1 };
    let interval = if interval >= timeout {
        if timeout - 1 >= 1 { timeout - 1 } else { 1 }
    } else {
        interval
    };
    (duration_from_secs(interval), duration_from_secs(timeout))
}

// ───────────── connection ids, structured events ─────────────

/// Connection id made of a nanosecond timestamp: `conn-` and its decimal digits.
pub fn conn_id_from_nanos(nanos: u128) -> (r: String)
    ensures
        r@ == "conn-"@ + dec_chars(nanos as nat),
{
    let digits = dec_string(nanos);
    let mut id = String::from_str("conn-");
    id.append(digits.as_str());
    id
}

/// The event text `{"event":<event>,"data":<data>,"ts":<ts>}`: the event
/// name as a JSON string, the data as given (it is meant to be JSON
/// already) or `null` when empty, the timestamp in decimal.
pub open spec fn emit_payload_spec(event: Seq<char>, data: Seq<char>, ts: u64) -> Seq<char> {
    "{\"event\":"@ + json_quoted(event) + ",\"data\":"@ + (if data.len() == 0 { "null"@ } else { data }) + ",\"ts\":"@
        + dec_chars(ts as nat) + "}"@
}

/// Builds a structured event (see `emit_payload_spec`).
pub fn emit_payload(event: &str, data: &str, ts: u64) -> (r: String)
    ensures
        r@ == emit_payload_spec(event@, data@, ts),
{
    let event_json = match json_string(event) {
        Ok(s) => s,
        Err(_) => String::from_str("\"event\""),
    };
    let mut out = String::from_str("{\"event\":");
    out.append(event_json.as_str());
    out.append(",\"data\":");
    if data.is_empty() {
        out.append("null");
    } else {
        out.append(data);
    }
    out.append(",\"ts\":");
    let digits = dec_string(ts as u128);
    out.append(digits.as_str());
    out.append("}");
    out
}

// ───────────── connection and room tables ─────────────

/// `s` without any occurrence of `x`, the other members in their order.
pub open spec fn without(s: Seq<Seq<char>>, x: Seq<char>) -> Seq<Seq<char>>
    decreases s.len(),
{
    if s.len() == 0 {
        s
    } else {
        let w = without(s.drop_last(), x);
        if s.last() == x {
            w
        } else {
            w.push(s.last())
        }
    }
}

/// Rooms after `conn` joins `room`: an existing room gains `conn` at the end
/// unless it is already a member; a new room starts with `conn` alone.
pub open spec fn join_spec(rooms: Map<Seq<char>, Seq<Seq<char>>>, conn: Seq<char>, room: Seq<char>) -> Map<
    Seq<char>,
    Seq<Seq<char>>,
> {
    if rooms.dom().contains(room) {
        if rooms[room].contains(conn) {
            rooms
        } else {
            rooms.insert(room, rooms[room].push(conn))
        }
    } else {
        rooms.insert(room, seq![conn])
    }
}

/// Rooms after `conn` leaves `room` (a room left empty stays in the table).
pub open spec fn leave_spec(rooms: Map<Seq<char>, Seq<Seq<char>>>, conn: Seq<char>, room: Seq<char>) -> Map<
    Seq<char>,
    Seq<Seq<char>>,
> {
    if rooms.dom().contains(room) {
        rooms.insert(room, without(rooms[room], conn))
    } else {
        rooms
    }
}

/// Rooms after `conn` is removed from all of them.
pub open spec fn purge_spec(rooms: Map<Seq<char>, Seq<Seq<char>>>, conn: Seq<char>) -> Map<
    Seq<char>,
    Seq<Seq<char>>,
> {
    Map::new(|r: Seq<char>| rooms.dom().contains(r), |r: Seq<char>| without(rooms[r], conn))
}

/// Number of members of `room`, 0 for an unknown room.
pub open spec fn count_spec(rooms: Map<Seq<char>, Seq<Seq<char>>>, room: Seq<char>) -> nat {
    if rooms.dom().contains(room) {
        rooms[room].len()
    } else {
        0
    }
}

/// `r` is a room that has `conn` as a member.
pub open spec fn is_room_of(rooms: Map<Seq<char>, Seq<Seq<char>>>, conn: Seq<char>, r: Seq<char>) -> bool {
    rooms.dom().contains(r) && rooms[r].contains(conn)
}

pub proof fn lemma_without(s: Seq<Seq<char>>, x: Seq<char>)
    ensures
        !without(s, x).contains(x),
        forall|y: Seq<char>| y != x ==> (without(s, x).contains(y) <==> s.contains(y)),
        s.no_duplicates() ==> without(s, x).no_duplicates(),
        !s.contains(x) ==> without(s, x) == s,
    decreases s.len(),
{
    if s.len() > 0 {
        let d = s.drop_last();
        let l = s.last();
        let w = without(d, x);
        let ws = without(s, x);
        lemma_without(d, x);
        assert(s =~= d.push(l));
        assert forall|y: Seq<char>| y != x implies (ws.contains(y) <==> s.contains(y)) by {
            if s.contains(y) {
                let k = choose|k: int| 0 <= k < s.len() && s[k] == y;
                if k < d.len() {
                    assert(d[k] == y);
                    assert(d.contains(y));
                    assert(w.contains(y));
                    let k2 = choose|k2: int| 0 <= k2 < w.len() && w[k2] == y;
                    if l != x {
                        assert(ws[k2] == y);
                    }
                } else {
                    assert(l == y);
                    assert(ws[ws.len() - 1] == y);
                }
            }
            if ws.contains(y) {
                let k = choose|k: int| 0 <= k < ws.len() && ws[k] == y;
                if l == x || k < w.len() {
                    assert(w[k] == y);
                    assert(w.contains(y));
                    assert(d.contains(y));
                    let k2 = choose|k2: int| 0 <= k2 < d.len() && d[k2] == y;
                    assert(s[k2] == y);
                } else {
                    assert(l == y);
                    assert(s[s.len() - 1] == y);
                }
            }
        }
        assert(!ws.contains(x)) by {
            if ws.contains(x) {
                let k = choose|k: int| 0 <= k < ws.len() && ws[k] == x;
                if l == x || k < w.len() {
                    assert(w[k] == x);
                    assert(w.contains(x));
                }
            }
        }
        if s.no_duplicates() {
            assert(d.no_duplicates()) by {
                assert forall|a: int, b: int| 0 <= a < d.len() && 0 <= b < d.len() && a != b implies d[a] != d[b] by {
                    assert(s[a] != s[b]);
                }
            }
            if l != x {
                assert(!d.contains(l)) by {
                    if d.contains(l) {
                        let k = choose|k: int| 0 <= k < d.len() && d[k] == l;
                        assert(s[k] == s[s.len() - 1]);
                    }
                }
                assert(!w.contains(l));
                assert forall|a: int, b: int| 0 <= a < ws.len() && 0 <= b < ws.len() && a != b implies ws[a] != ws[b] by {
                    if a == w.len() {
                        assert(w.contains(ws[b]));
                    } else if b == w.len() {
                        assert(w.contains(ws[a]));
                    } else {
                        assert(w[a] != w[b]);
                    }
                }
            }
        }
        if !s.contains(x) {
            assert(!d.contains(x)) by {
                if d.contains(x) {
                    let k = choose|k: int| 0 <= k < d.len() && d[k] == x;
                    assert(s[k] == x);
                }
            }
            assert(l != x);
        }
    } else {
        assert(!s.contains(x));
    }
}

proof fn lemma_push_contains(s: Seq<Seq<char>>, v: Seq<char>)
    ensures
        forall|x: Seq<char>| s.push(v).contains(x) <==> (s.contains(x) || x == v),
{
    assert forall|x: Seq<char>| s.push(v).contains(x) <==> (s.contains(x) || x == v) by {
        lemma_push_contains_at(s, v, x);
    }
}

proof fn lemma_push_contains_at(s: Seq<Seq<char>>, v: Seq<char>, x: Seq<char>)
    ensures
        s.push(v).contains(x) <==> (s.contains(x) || x == v),
{
    let t = s.push(v);
    if t.contains(x) {
        let k = choose|k: int| 0 <= k < t.len() && t[k] == x;
        if k < s.len() {
            assert(s[k] == x);
        }
    }
    if s.contains(x) {
        let k = choose|k: int| 0 <= k < s.len() && s[k] == x;
        assert(t[k] == x);
    }
    if x == v {
        assert(t[s.len() as int] == x);
    }
}

/// Whether `s` is among the strings of `v`.
fn contains_string(v: &Vec<String>, s: &String) -> (r: bool)
    ensures
        r == strings_view(v@).contains(s@),
{
    let mut i: usize = 0;
    while i < v.len()
        invariant
            0 <= i <= v@.len(),
            forall|k: int| 0 <= k < i ==> v@[k]@ != s@,
        decreases v@.len() - i,
    {
        if v[i] == *s {
            assert(strings_view(v@)[i as int] == s@);
            return true;
        }
        i = i + 1;
    }
    proof {
        if strings_view(v@).contains(s@) {
            let k = choose|k: int| 0 <= k < strings_view(v@).len() && strings_view(v@)[k] == s@;
            assert(v@[k]@ == s@);
        }
    }
    false
}

/// The strings of `v` other than `s`.
fn strings_without(v: &Vec<String>, s: &String) -> (r: Vec<String>)
    ensures
        strings_view(r@) == without(strings_view(v@), s@),
{
    let mut out: Vec<String> = Vec::new();
    let mut i: usize = 0;
    while i < v.len()
        invariant
            0 <= i <= v@.len(),
            strings_view(out@) == without(strings_view(v@).take(i as int), s@),
        decreases v@.len() - i,
    {
        let ghost before = strings_view(v@).take(i as int);
        proof {
            assert(strings_view(v@).take(i + 1).drop_last() =~= before);
            assert(strings_view(v@).take(i + 1).last() == v@[i as int]@);
        }
        if !(v[i] == *s) {
            out.push(v[i].clone());
            proof {
                assert(strings_view(out@) =~= without(before, s@).push(v@[i as int]@));
            }
        }
        i = i + 1;
    }
    proof {
        assert(strings_view(v@).take(v@.len() as int) =~= strings_view(v@));
    }
    out
}

/// The process-wide WebSocket state of a worker: its connections with their
/// outgoing queues, its rooms, and the connection and request counters.
pub struct Hub {
    connections: DashMap<String, SenderCell>,
    rooms: DashMap<String, RoomCell>,
    ws_count: i64,
    request_count: i64,
}

impl Hub {
    /// Ids of the open connections.
    pub closed spec fn connections(&self) -> Set<Seq<char>> {
        connection_ids(self.connections)
    }

    /// Room name to member ids.
    pub closed spec fn rooms(&self) -> Map<Seq<char>, Seq<Seq<char>>> {
        room_table(self.rooms)
    }

    /// The sender that the table holds for a connection.
    pub closed spec fn sender(&self, id: Seq<char>) -> UnboundedSender<Vec<u8>> {
        sender_of(self.connections, id)
    }

    /// The WebSocket connection counter.
    pub closed spec fn ws_count(&self) -> i64 {
        self.ws_count
    }

    /// The request counter.
    pub closed spec fn request_count(&self) -> i64 {
        self.request_count
    }

    /// No room lists a member twice.
    pub open spec fn wf(&self) -> bool {
        forall|r: Seq<char>| #[trigger] self.rooms().dom().contains(r) ==> self.rooms()[r].no_duplicates()
    }

    /// Empty tables, counters at 0.
    pub fn new() -> (r: Self)
        ensures
            r.wf(),
            r.connections() == Set::<Seq<char>>::empty(),
            r.rooms() == Map::<Seq<char>, Seq<Seq<char>>>::empty(),
            r.ws_count() == 0,
            r.request_count() == 0,
    {
        Hub { connections: connections_new(), rooms: rooms_new(), ws_count: 0, request_count: 0 }
    }

    /// Number of open connections.
    pub fn connection_count(&self) -> (r: usize)
        ensures
            r == self.connections().len(),
    {
        connections_len(&self.connections)
    }

    /// Number of rooms.
    pub fn room_total(&self) -> (r: usize)
        ensures
            r == self.rooms().dom().len(),
    {
        rooms_len(&self.rooms)
    }

    /// The WebSocket connection counter.
    pub fn ws_counter(&self) -> (r: i64)
        ensures
            r == self.ws_count(),
    {
        self.ws_count
    }

    /// The request counter.
    pub fn request_counter(&self) -> (r: i64)
        ensures
            r == self.request_count(),
    {
        self.request_count
    }

    /// Counts one handled request (wrapping like an atomic counter).
    pub fn count_request(&mut self)
        ensures
            final(self).request_count() == old(self).request_count().wrapping_add(1),
            final(self).ws_count() == old(self).ws_count(),
            final(self).connections() == old(self).connections(),
            forall|id: Seq<char>| #[trigger] final(self).sender(id) == old(self).sender(id),
            final(self).rooms() == old(self).rooms(),
    {
        self.request_count = self.request_count.wrapping_add(1);
    }
}

impl Default for Hub {
    /// Empty tables, counters at 0 (see `Hub::new`).
    fn default() -> (r: Self)
        ensures
            r.wf(),
            r.connections() == Set::<Seq<char>>::empty(),
            r.rooms() == Map::<Seq<char>, Seq<Seq<char>>>::empty(),
            r.ws_count() == 0,
            r.request_count() == 0,
    {
        Hub::new()
    }
}

/// Registers a new WebSocket connection with the sender of its outgoing
/// queue and counts it.
pub fn open_connection(hub: &mut Hub, conn_id: String, sender: UnboundedSender<Vec<u8>>)
    requires
        old(hub).wf(),
    ensures
        final(hub).wf(),
        final(hub).connections() == old(hub).connections().insert(conn_id@),
        final(hub).sender(conn_id@) == sender,
        forall|id: Seq<char>|
            id != conn_id@ && old(hub).connections().contains(id) ==> #[trigger] final(hub).sender(id) == old(
                hub,
            ).sender(id),
        final(hub).ws_count() == old(hub).ws_count().wrapping_add(1),
        final(hub).rooms() == old(hub).rooms(),
        final(hub).request_count() == old(hub).request_count(),
{
    connections_insert(&mut hub.connections, conn_id, SenderCell { sender });
    hub.ws_count = hub.ws_count.wrapping_add(1);
    assert(hub.rooms() == old(hub).rooms());
}

/// Adds a connection to a room (creating the room when needed).
pub fn join_room(hub: &mut Hub, conn_id: &str, room: &str)
    requires
        old(hub).wf(),
    ensures
        final(hub).wf(),
        final(hub).rooms() == join_spec(old(hub).rooms(), conn_id@, room@),
        final(hub).connections() == old(hub).connections(),
        forall|id: Seq<char>| #[trigger] final(hub).sender(id) == old(hub).sender(id),
        final(hub).ws_count() == old(hub).ws_count(),
        final(hub).request_count() == old(hub).request_count(),
{
    let conn = String::from_str(conn_id);
    match rooms_get(&hub.rooms, room) {
        Some(members) => {
            if !contains_string(&members, &conn) {
                let mut m = members;
                m.push(conn);
                proof {
                    assert(strings_view(m@) =~= hub.rooms()[room@].push(conn_id@));
                }
                rooms_set_members(&mut hub.rooms, room, m);
            }
        },
        None => {
            let mut v: Vec<String> = Vec::new();
            v.push(conn);
            proof {
                assert(strings_view(v@) =~= seq![conn_id@]);
            }
            rooms_insert(&mut hub.rooms, String::from_str(room), RoomCell { members: v });
        },
    }
    proof {
        let old_rooms = old(hub).rooms();
        assert forall|r: Seq<char>| #[trigger] hub.rooms().dom().contains(r) implies hub.rooms()[r].no_duplicates() by {
            if r == room@ && old_rooms.dom().contains(room@) && !old_rooms[room@].contains(conn_id@) {
                assert(old_rooms[room@].no_duplicates());
                let s = old_rooms[room@].push(conn_id@);
                assert forall|i: int, j: int| 0 <= i < s.len() && 0 <= j < s.len() && i != j implies s[i] != s[j] by {
                    if i == s.len() - 1 {
                        assert(!old_rooms[room@].contains(s[i]));
                    } else if j == s.len() - 1 {
                        assert(!old_rooms[room@].contains(s[j]));
                    }
                }
            } else if r == room@ && !old_rooms.dom().contains(room@) {
                assert(seq![conn_id@].no_duplicates());
            } else {
                assert(old_rooms.dom().contains(r));
            }
        }
    }
}

/// Removes a connection from a room.
pub fn leave_room(hub: &mut Hub, conn_id: &str, room: &str)
    requires
        old(hub).wf(),
    ensures
        final(hub).wf(),
        final(hub).rooms() == leave_spec(old(hub).rooms(), conn_id@, room@),
        final(hub).connections() == old(hub).connections(),
        forall|id: Seq<char>| #[trigger] final(hub).sender(id) == old(hub).sender(id),
        final(hub).ws_count() == old(hub).ws_count(),
        final(hub).request_count() == old(hub).request_count(),
{
    let conn = String::from_str(conn_id);
    match rooms_get(&hub.rooms, room) {
        Some(members) => {
            let kept = strings_without(&members, &conn);
            proof {
                lemma_without(hub.rooms()[room@], conn_id@);
            }
            rooms_set_members(&mut hub.rooms, room, kept);
        },
        None => {},
    }
    proof {
        assert forall|r: Seq<char>| #[trigger] hub.rooms().dom().contains(r) implies hub.rooms()[r].no_duplicates() by {
            assert(old(hub).rooms().dom().contains(r));
        }
    }
}

/// The rooms a connection belongs to, each once, in table order.
pub fn conn_rooms(hub: &Hub, conn_id: &str) -> (r: Vec<String>)
    ensures
        strings_view(r@).no_duplicates(),
        forall|room: Seq<char>| strings_view(r@).contains(room) <==> is_room_of(hub.rooms(), conn_id@, room),
{
    let conn = String::from_str(conn_id);
    let names = rooms_names(&hub.rooms);
    let ghost nv = strings_view(names@);
    let mut out: Vec<String> = Vec::new();
    let mut i: usize = 0;
    while i < names.len()
        invariant
            0 <= i <= names@.len(),
            nv == strings_view(names@),
            nv.no_duplicates(),
            nv.to_set() == hub.rooms().dom(),
            conn@ == conn_id@,
            strings_view(out@).no_duplicates(),
            forall|room: Seq<char>| strings_view(out@).contains(room) <==> (nv.take(i as int).contains(room)
                && is_room_of(hub.rooms(), conn_id@, room)),
        decreases names@.len() - i,
    {
        let ghost name = nv[i as int];
        proof {
            assert(nv.to_set().contains(name));
        }
        let members = match rooms_get(&hub.rooms, names[i].as_str()) {
            Some(m) => m,
            None => Vec::new(),
        };
        let is_member = contains_string(&members, &conn);
        assert(is_member == is_room_of(hub.rooms(), conn_id@, name));
        let ghost before = strings_view(out@);
        if is_member {
            out.push(names[i].clone());
        }
        proof {
            assert(nv.take(i + 1) =~= nv.take(i as int).push(name));
            if is_member {
                assert(strings_view(out@) =~= before.push(name));
                assert(!before.contains(name)) by {
                    if before.contains(name) {
                        assert(nv.take(i as int).contains(name));
                        let k = choose|k: int| 0 <= k < i && nv.take(i as int)[k] == name;
                        assert(nv[k] == nv[i as int]);
                    }
                }
                assert forall|a: int, b: int| 0 <= a < strings_view(out@).len() && 0 <= b < strings_view(out@).len()
                    && a != b implies strings_view(out@)[a] != strings_view(out@)[b] by {
                    if a == before.len() {
                        assert(strings_view(out@)[b] == before[b]);
                        assert(before.contains(before[b]));
                    } else if b == before.len() {
                        assert(strings_view(out@)[a] == before[a]);
                        assert(before.contains(before[a]));
                    } else {
                        assert(before[a] != before[b]);
                    }
                }
            } else {
                assert(strings_view(out@) =~= before);
            }
            lemma_push_contains(nv.take(i as int), name);
            if is_member {
                lemma_push_contains(before, name);
            }
            assert forall|room: Seq<char>| strings_view(out@).contains(room) <==> (nv.take(i + 1).contains(room)
                && is_room_of(hub.rooms(), conn_id@, room)) by {
                lemma_push_contains_at(nv.take(i as int), name, room);
                if is_member {
                    lemma_push_contains_at(before, name, room);
                }
            }
        }
        i = i + 1;
    }
    proof {
        assert(nv.take(names@.len() as int) =~= nv);
        assert forall|room: Seq<char>| is_room_of(hub.rooms(), conn_id@, room) implies nv.contains(room) by {
            assert(nv.to_set().contains(room));
        }
    }
    out
}

/// Number of members of a room, 0 for an unknown room.
pub fn room_count(hub: &Hub, room: &str) -> (r: usize)
    ensures
        r == count_spec(hub.rooms(), room@),
{
    match rooms_get(&hub.rooms, room) {
        Some(members) => members.len(),
        None => 0,
    }
}

// ───────────── sending ─────────────

/// One message to queue: the sender of a connection and the bytes for it.
pub struct Delivery {
    pub sender: UnboundedSender<Vec<u8>>,
    pub bytes: Vec<u8>,
}

/// The ids of `ids` that are open connections, in order.
pub open spec fn connected_ids(ids: Seq<Seq<char>>, conns: Set<Seq<char>>) -> Seq<Seq<char>>
    decreases ids.len(),
{
    if ids.len() == 0 {
        Seq::empty()
    } else if conns.contains(ids.last()) {
        connected_ids(ids.drop_last(), conns).push(ids.last())
    } else {
        connected_ids(ids.drop_last(), conns)
    }
}

/// Every id that `connected_ids` keeps is open and among `ids`; when all
/// ids are open, all are kept.
pub proof fn lemma_connected_ids(ids: Seq<Seq<char>>, conns: Set<Seq<char>>)
    ensures
        forall|k: int| 0 <= k < connected_ids(ids, conns).len() ==> conns.contains(#[trigger] connected_ids(ids, conns)[k])
            && ids.contains(connected_ids(ids, conns)[k]),
        (forall|k: int| 0 <= k < ids.len() ==> conns.contains(#[trigger] ids[k])) ==> connected_ids(ids, conns) == ids,
    decreases ids.len(),
{
    if ids.len() > 0 {
        let d = ids.drop_last();
        lemma_connected_ids(d, conns);
        let c = connected_ids(ids, conns);
        let cd = connected_ids(d, conns);
        assert forall|k: int| 0 <= k < c.len() implies conns.contains(#[trigger] c[k]) && ids.contains(c[k]) by {
            if k < cd.len() {
                assert(c[k] == cd[k]);
                let j = choose|j: int| 0 <= j < d.len() && d[j] == cd[k];
                assert(ids[j] == c[k]);
            } else {
                assert(c[k] == ids.last());
                assert(ids[ids.len() - 1] == c[k]);
            }
        }
        if forall|k: int| 0 <= k < ids.len() ==> conns.contains(#[trigger] ids[k]) {
            assert forall|k: int| 0 <= k < d.len() implies conns.contains(#[trigger] d[k]) by {
                assert(d[k] == ids[k]);
            }
            assert(conns.contains(ids[ids.len() - 1]));
            assert(ids =~= d.push(ids.last()));
        }
    }
}

/// `connected_ids` keeps exactly the open ids among `ids`, each as often as
/// it occurs there (so once each when `ids` has no repeats).
pub proof fn lemma_connected_ids_exact(ids: Seq<Seq<char>>, conns: Set<Seq<char>>)
    ensures
        forall|m: Seq<char>| #[trigger] connected_ids(ids, conns).contains(m) <==> (ids.contains(m) && conns.contains(m)),
        ids.no_duplicates() ==> connected_ids(ids, conns).no_duplicates(),
    decreases ids.len(),
{
    if ids.len() > 0 {
        let d = ids.drop_last();
        let l = ids.last();
        lemma_connected_ids_exact(d, conns);
        let c = connected_ids(ids, conns);
        let cd = connected_ids(d, conns);
        assert(ids =~= d.push(l));
        assert forall|m: Seq<char>| #[trigger] c.contains(m) <==> (ids.contains(m) && conns.contains(m)) by {
            lemma_push_contains_at(d, l, m);
            if conns.contains(l) {
                lemma_push_contains_at(cd, l, m);
            }
        }
        if ids.no_duplicates() {
            assert(d.no_duplicates()) by {
                assert forall|a: int, b: int| 0 <= a < d.len() && 0 <= b < d.len() && a != b implies d[a] != d[b] by {
                    assert(ids[a] != ids[b]);
                }
            }
            if conns.contains(l) {
                assert(!d.contains(l)) by {
                    if d.contains(l) {
                        let k = choose|k: int| 0 <= k < d.len() && d[k] == l;
                        assert(ids[k] == ids[ids.len() - 1]);
                    }
                }
                assert(!cd.contains(l));
                assert forall|a: int, b: int| 0 <= a < c.len() && 0 <= b < c.len() && a != b implies c[a] != c[b] by {
                    if a == cd.len() {
                        assert(cd.contains(c[b]));
                    } else if b == cd.len() {
                        assert(cd.contains(c[a]));
                    } else {
                        assert(cd[a] != cd[b]);
                    }
                }
            }
        }
    }
}

/// A room broadcast plans one message for each open member of the room and
/// for no one else: the ids `plan_deliveries` serves from `targets_room`
/// are, without repeats, exactly the room's members that are open.
pub proof fn lemma_room_plan_once_per_member(hub: Hub, room: Seq<char>)
    requires
        hub.wf(),
    ensures
        connected_ids(room_members(hub.rooms(), room), hub.connections()).no_duplicates(),
        forall|m: Seq<char>|
            #[trigger] connected_ids(room_members(hub.rooms(), room), hub.connections()).contains(m) <==> (
            is_room_of(hub.rooms(), m, room) && hub.connections().contains(m)),
{
    let ms = room_members(hub.rooms(), room);
    if hub.rooms().dom().contains(room) {
        assert(ms.no_duplicates());
    } else {
        assert(ms =~= Seq::<Seq<char>>::empty());
    }
    lemma_connected_ids_exact(ms, hub.connections());
}

/// A broadcast to everyone plans one message for each open connection: the
/// ids `plan_deliveries` serves from targets without repeats whose set is
/// the open connections (what `targets_all` gives) are all of them, once.
pub proof fn lemma_all_plan_once_per_connection(targets: Seq<Seq<char>>, conns: Set<Seq<char>>)
    requires
        targets.no_duplicates(),
        targets.to_set() == conns,
    ensures
        connected_ids(targets, conns) == targets,
        forall|m: Seq<char>| #[trigger] targets.contains(m) <==> conns.contains(m),
{
    lemma_connected_ids(targets, conns);
    assert forall|k: int| 0 <= k < targets.len() implies conns.contains(#[trigger] targets[k]) by {
        assert(targets.to_set().contains(targets[k]));
    }
    lemma_connected_ids(targets, conns);
    assert forall|m: Seq<char>| #[trigger] targets.contains(m) <==> conns.contains(m) by {
        assert(targets.to_set().contains(m) == targets.contains(m));
    }
}

/// The message for one connection, if it is open: its sender and `data`.
pub fn delivery_to(hub: &Hub, conn_id: &str, data: &[u8]) -> (r: Option<Delivery>)
    ensures
        r is Some <==> hub.connections().contains(conn_id@),
        r matches Some(d) ==> d.sender == hub.sender(conn_id@) && d.bytes@ == data@,
{
    match connections_sender(&hub.connections, conn_id) {
        Some(sender) => Some(Delivery { sender, bytes: vstd::slice::slice_to_vec(data) }),
        None => None,
    }
}

/// The messages for the open connections among `ids`, in order, each
/// carrying `data`.
pub fn plan_deliveries(hub: &Hub, ids: &Vec<String>, data: &[u8]) -> (r: Vec<Delivery>)
    ensures
        r@.len() == connected_ids(strings_view(ids@), hub.connections()).len(),
        forall|k: int|
            0 <= k < r@.len() ==> (#[trigger] r@[k]).sender == hub.sender(
                connected_ids(strings_view(ids@), hub.connections())[k],
            ) && r@[k].bytes@ == data@,
{
    let ghost iv = strings_view(ids@);
    let mut out: Vec<Delivery> = Vec::new();
    let mut i: usize = 0;
    while i < ids.len()
        invariant
            0 <= i <= ids@.len(),
            iv == strings_view(ids@),
            out@.len() == connected_ids(iv.take(i as int), hub.connections()).len(),
            forall|k: int|
                0 <= k < out@.len() ==> (#[trigger] out@[k]).sender == hub.sender(
                    connected_ids(iv.take(i as int), hub.connections())[k],
                ) && out@[k].bytes@ == data@,
        decreases ids@.len() - i,
    {
        let ghost before = connected_ids(iv.take(i as int), hub.connections());
        proof {
            assert(iv.take(i + 1).drop_last() =~= iv.take(i as int));
            assert(iv.take(i + 1).last() == ids@[i as int]@);
        }
        match delivery_to(hub, ids[i].as_str(), data) {
            Some(d) => {
                out.push(d);
                proof {
                    assert(connected_ids(iv.take(i + 1), hub.connections()) == before.push(ids@[i as int]@));
                }
            },
            None => {
                proof {
                    assert(connected_ids(iv.take(i + 1), hub.connections()) == before);
                }
            },
        }
        i = i + 1;
    }
    proof {
        assert(iv.take(ids@.len() as int) =~= iv);
    }
    out
}

/// Queues each message; gives, in order, whether each queue took its
/// message (a queue whose receiving task has gone refuses it).
pub fn deliver(plan: &Vec<Delivery>) -> (r: Vec<bool>)
    ensures
        r@.len() == plan@.len(),
{
    let mut outcomes: Vec<bool> = Vec::new();
    let mut i: usize = 0;
    while i < plan.len()
        invariant
            0 <= i <= plan@.len(),
            outcomes@.len() == i,
        decreases plan@.len() - i,
    {
        outcomes.push(sender_send(&plan[i].sender, plan[i].bytes.clone()));
        i = i + 1;
    }
    outcomes
}

/// Whether some message was taken.
pub fn any_sent(outcomes: &Vec<bool>) -> (r: bool)
    ensures
        r == outcomes@.contains(true),
{
    let mut i: usize = 0;
    while i < outcomes.len()
        invariant
            0 <= i <= outcomes@.len(),
            forall|k: int| 0 <= k < i ==> !outcomes@[k],
        decreases outcomes@.len() - i,
    {
        if outcomes[i] {
            proof {
                assert(outcomes@[i as int] == true);
            }
            return true;
        }
        i = i + 1;
    }
    false
}

/// Whom a broadcast to everyone goes to: every open connection, once.
pub fn targets_all(hub: &Hub) -> (r: Vec<String>)
    ensures
        strings_view(r@).no_duplicates(),
        strings_view(r@).to_set() == hub.connections(),
{
    connections_ids(&hub.connections)
}

/// The members of `room`, in order (none for an unknown room).
pub open spec fn room_members(rooms: Map<Seq<char>, Seq<Seq<char>>>, room: Seq<char>) -> Seq<Seq<char>> {
    if rooms.dom().contains(room) {
        rooms[room]
    } else {
        Seq::empty()
    }
}

/// Whom a broadcast to a room goes to: its members, in order (the open ones
/// among them get the message).
pub fn targets_room(hub: &Hub, room: &str) -> (r: Vec<String>)
    ensures
        strings_view(r@) == room_members(hub.rooms(), room@),
{
    match rooms_get(&hub.rooms, room) {
        Some(m) => m,
        None => {
            proof {
                assert(strings_view(Seq::<String>::empty()) =~= Seq::<Seq<char>>::empty());
            }
            Vec::new()
        },
    }
}

/// Queues a message for one connection: an open connection's sender gets
/// exactly `data` (see `delivery_to`), and the answer is whether its queue
/// took it; an unknown connection gets nothing and the answer is `false`.
pub fn send_to(hub: &Hub, conn_id: &str, data: &[u8]) -> (r: bool)
    ensures
        !hub.connections().contains(conn_id@) ==> !r,
{
    match delivery_to(hub, conn_id, data) {
        Some(d) => sender_send(&d.sender, d.bytes),
        None => false,
    }
}

/// Queues a message for every open connection, once each, with exactly
/// `data` (see `targets_all` and `plan_deliveries`); the answer is whether
/// at least one queue took it (see `any_sent`), so never for an empty table.
pub fn broadcast_all(hub: &Hub, data: &[u8]) -> (r: bool)
    ensures
        r ==> hub.connections().len() > 0,
{
    let targets = targets_all(hub);
    let plan = plan_deliveries(hub, &targets, data);
    let outcomes = deliver(&plan);
    let r = any_sent(&outcomes);
    proof {
        let tv = strings_view(targets@);
        if r {
            lemma_connected_ids(tv, hub.connections());
            assert(tv.len() > 0);
            assert(tv.to_set().contains(tv[0]));
            vstd::set_lib::lemma_set_empty_equivalency_len(tv.to_set());
        }
    }
    r
}

/// Queues a message for every open member of a room, in member order, with
/// exactly `data` (see `targets_room` and `plan_deliveries`); the answer is
/// whether at least one queue took it, so never for an unknown room or a
/// room without an open member.
pub fn broadcast_room(hub: &Hub, room: &str, data: &[u8]) -> (r: bool)
    ensures
        r ==> hub.rooms().dom().contains(room@) && exists|m: Seq<char>| #[trigger] hub.rooms()[room@].contains(m)
            && hub.connections().contains(m),
{
    let targets = targets_room(hub, room);
    let plan = plan_deliveries(hub, &targets, data);
    let outcomes = deliver(&plan);
    let r = any_sent(&outcomes);
    proof {
        let tv = strings_view(targets@);
        let c = connected_ids(tv, hub.connections());
        if r {
            lemma_connected_ids(tv, hub.connections());
            assert(c.len() > 0);
            assert(hub.connections().contains(c[0]) && tv.contains(c[0]));
            assert(tv.len() > 0);
            assert(hub.rooms()[room@].contains(c[0]));
        }
    }
    r
}

/// Forgets a closed connection: it leaves the connection table and every
/// room, and the connection counter goes down by one.
pub fn cleanup_connection(hub: &mut Hub, conn_id: &str)
    requires
        old(hub).wf(),
    ensures
        final(hub).wf(),
        final(hub).connections() == old(hub).connections().remove(conn_id@),
        forall|id: Seq<char>|
            id != conn_id@ && old(hub).connections().contains(id) ==> #[trigger] final(hub).sender(id) == old(
                hub,
            ).sender(id),
        final(hub).ws_count() == old(hub).ws_count().wrapping_sub(1),
        final(hub).rooms() == purge_spec(old(hub).rooms(), conn_id@),
        final(hub).request_count() == old(hub).request_count(),
{
    connections_remove(&mut hub.connections, conn_id);
    hub.ws_count = hub.ws_count.wrapping_sub(1);
    let ghost conns_after = hub.connections;
    let conn = String::from_str(conn_id);
    assert(hub.rooms() == old(hub).rooms());
    let names = rooms_names(&hub.rooms);
    let ghost nv = strings_view(names@);
    let ghost rooms0 = hub.rooms();
    let mut i: usize = 0;
    while i < names.len()
        invariant
            hub.connections == conns_after,
            0 <= i <= names@.len(),
            nv == strings_view(names@),
            nv.no_duplicates(),
            nv.to_set() == rooms0.dom(),
            conn@ == conn_id@,
            hub.rooms().dom() == rooms0.dom(),
            forall|r: Seq<char>| #[trigger] rooms0.dom().contains(r) ==> rooms0[r].no_duplicates(),
            forall|r: Seq<char>| #[trigger] hub.rooms().dom().contains(r) ==> hub.rooms()[r] == (if nv.take(
                i as int,
            ).contains(r) {
                without(rooms0[r], conn_id@)
            } else {
                rooms0[r]
            }),
            hub.connections() == old(hub).connections().remove(conn_id@),
            hub.ws_count() == old(hub).ws_count().wrapping_sub(1),
            hub.request_count() == old(hub).request_count(),
            rooms0 == old(hub).rooms(),
        decreases names@.len() - i,
    {
        let ghost name = nv[i as int];
        proof {
            assert(nv.to_set().contains(name));
            assert(!nv.take(i as int).contains(name)) by {
                if nv.take(i as int).contains(name) {
                    let k = choose|k: int| 0 <= k < i && nv.take(i as int)[k] == name;
                    assert(nv[k] == nv[i as int]);
                }
            }
        }
        let members = match rooms_get(&hub.rooms, names[i].as_str()) {
            Some(m) => m,
            None => Vec::new(),
        };
        let kept = strings_without(&members, &conn);
        let ghost before = hub.rooms();
        rooms_set_members(&mut hub.rooms, names[i].as_str(), kept);
        proof {
            assert(nv.take(i + 1) =~= nv.take(i as int).push(name));
            assert(hub.rooms().dom() =~= rooms0.dom());
            assert forall|r: Seq<char>| #[trigger] hub.rooms().dom().contains(r) implies hub.rooms()[r] == (if nv.take(
                i + 1,
            ).contains(r) {
                without(rooms0[r], conn_id@)
            } else {
                rooms0[r]
            }) by {
                if r != name {
                    if nv.take(i + 1).contains(r) {
                        let t1 = nv.take(i + 1);
                        let k = choose|k: int| 0 <= k < i + 1 && t1[k] == r;
                        assert(k < i);
                        assert(nv.take(i as int)[k] == r);
                    }
                    if nv.take(i as int).contains(r) {
                        let k = choose|k: int| 0 <= k < i && nv.take(i as int)[k] == r;
                        assert(nv.take(i + 1)[k] == r);
                    }
                } else {
                    assert(nv.take(i + 1)[i as int] == name);
                }
            }
        }
        i = i + 1;
    }
    proof {
        assert(nv.take(names@.len() as int) =~= nv);
        assert forall|r: Seq<char>| #[trigger] rooms0.dom().contains(r) implies nv.contains(r) by {
            assert(nv.to_set().contains(r));
        }
        assert(hub.rooms() =~= purge_spec(rooms0, conn_id@));
        assert forall|r: Seq<char>| #[trigger] hub.rooms().dom().contains(r) implies hub.rooms()[r].no_duplicates() by {
            lemma_without(rooms0[r], conn_id@);
        }
    }
}

// ───────────── laws of the room table ─────────────

/// After joining, the connection is a member of the room, which then has
/// at least one member.
pub proof fn lemma_join_makes_member(rooms: Map<Seq<char>, Seq<Seq<char>>>, conn: Seq<char>, room: Seq<char>)
    ensures
        is_room_of(join_spec(rooms, conn, room), conn, room),
        count_spec(join_spec(rooms, conn, room), room) >= 1,
{
    let j = join_spec(rooms, conn, room);
    if rooms.dom().contains(room) && !rooms[room].contains(conn) {
        assert(j[room][rooms[room].len() as int] == conn);
    } else if !rooms.dom().contains(room) {
        assert(j[room][0] == conn);
    }
}

/// Joining twice is joining once.
pub proof fn lemma_join_idempotent(rooms: Map<Seq<char>, Seq<Seq<char>>>, conn: Seq<char>, room: Seq<char>)
    ensures
        join_spec(join_spec(rooms, conn, room), conn, room) == join_spec(rooms, conn, room),
{
    lemma_join_makes_member(rooms, conn, room);
}

/// Joining adds one member, or none for a member already there.
pub proof fn lemma_join_count(rooms: Map<Seq<char>, Seq<Seq<char>>>, conn: Seq<char>, room: Seq<char>)
    ensures
        count_spec(join_spec(rooms, conn, room), room) == count_spec(rooms, room) + (if is_room_of(
            rooms,
            conn,
            room,
        ) {
            0int
        } else {
            1int
        }),
{
}

/// Joining or leaving one room leaves every other room as it was.
pub proof fn lemma_join_leave_local(
    rooms: Map<Seq<char>, Seq<Seq<char>>>,
    conn: Seq<char>,
    room: Seq<char>,
    other: Seq<char>,
)
    requires
        other != room,
    ensures
        join_spec(rooms, conn, room).dom().contains(other) == rooms.dom().contains(other),
        leave_spec(rooms, conn, room).dom().contains(other) == rooms.dom().contains(other),
        rooms.dom().contains(other) ==> join_spec(rooms, conn, room)[other] == rooms[other]
            && leave_spec(rooms, conn, room)[other] == rooms[other],
{
}

/// After leaving, the connection is no longer a member of the room, and
/// the other members stay.
pub proof fn lemma_leave_removes(rooms: Map<Seq<char>, Seq<Seq<char>>>, conn: Seq<char>, room: Seq<char>)
    ensures
        !is_room_of(leave_spec(rooms, conn, room), conn, room),
        forall|m: Seq<char>| m != conn && is_room_of(rooms, m, room) ==> is_room_of(leave_spec(rooms, conn, room), m, room),
{
    if rooms.dom().contains(room) {
        lemma_without(rooms[room], conn);
    }
}

/// Leaving undoes joining for a connection that was not a member.
pub proof fn lemma_leave_undoes_join(rooms: Map<Seq<char>, Seq<Seq<char>>>, conn: Seq<char>, room: Seq<char>)
    requires
        rooms.dom().contains(room),
        !rooms[room].contains(conn),
    ensures
        leave_spec(join_spec(rooms, conn, room), conn, room) == rooms,
{
    let s = rooms[room];
    assert(s.push(conn).drop_last() =~= s);
    lemma_without(s, conn);
    assert(without(s.push(conn), conn) == without(s, conn));
    assert(leave_spec(join_spec(rooms, conn, room), conn, room) =~= rooms);
}

/// A closed connection is in no room afterwards; no room disappears.
pub proof fn lemma_purge_removes_everywhere(rooms: Map<Seq<char>, Seq<Seq<char>>>, conn: Seq<char>)
    ensures
        forall|r: Seq<char>| !is_room_of(#[trigger] purge_spec(rooms, conn), conn, r),
        purge_spec(rooms, conn).dom() == rooms.dom(),
{
    assert forall|r: Seq<char>| !is_room_of(#[trigger] purge_spec(rooms, conn), conn, r) by {
        if rooms.dom().contains(r) {
            lemma_without(rooms[r], conn);
        }
    }
    assert(purge_spec(rooms, conn).dom() =~= rooms.dom());
}

// ───────────── the WebSocket session loop ─────────────

/// Largest message the session accepts (bytes).
pub const MAX_MESSAGE_SIZE: usize = 32 * 1024 * 1024;
/// Largest frame the session accepts (bytes).
pub const MAX_FRAME_SIZE: usize = 16 * 1024 * 1024;
/// Largest write buffer before sends fail (bytes).
pub const MAX_WRITE_BUFFER_SIZE: usize = 64 * 1024 * 1024;
/// Write buffer size (bytes).
pub const WRITE_BUFFER_SIZE: usize = 128 * 1024;

/// What happened to a WebSocket session.
pub enum WsEvent {
    /// The application queued a message for this connection.
    Outgoing(Vec<u8>),
    /// The connection's queue was closed on the application side.
    OutgoingClosed,
    /// A text frame arrived.
    Text(String),
    /// A binary frame arrived.
    Binary(Vec<u8>),
    /// A ping frame arrived.
    Ping(Vec<u8>),
    /// A pong frame arrived.
    Pong,
    /// A close frame arrived.
    Close,
    /// Some other frame arrived.
    OtherFrame,
    /// Reading from the peer failed.
    ReadFailed,
    /// The peer's stream ended.
    ReadEnded,
    /// The ping interval elapsed.
    PingDue,
    /// Nothing arrived for the whole timeout.
    TimedOut,
}

/// What the session does next. Whenever a send fails, the session stops.
pub enum WsAction {
    /// Send a text frame.
    SendText(String),
    /// Hand a message to the application's message handler.
    Deliver(String),
    /// Answer with a pong frame carrying this payload.
    SendPong(Vec<u8>),
    /// Send a ping frame with this payload.
    SendPing(Vec<u8>),
    /// Nothing to do.
    Ignore,
    /// Close the connection, then stop.
    CloseAndStop,
    /// Stop.
    Stop,
}

/// The session's decision for one event.
pub struct WsDecision {
    pub action: WsAction,
    /// Whether the event counts as a sign of life (restarting the timeout).
    pub refresh: bool,
}

/// Every frame that arrives refreshes the timeout; queued messages go out
/// as text (lossy UTF-8), text and binary frames go to the handler (a
/// binary frame as its UTF-8 text, or empty when it is not valid UTF-8),
/// pings are answered, a close frame closes, and read failures, the end of
/// the stream, a closed queue and the timeout stop the session.
pub fn ws_decide(event: WsEvent) -> (r: WsDecision)
    ensures
        match event {
            WsEvent::Outgoing(m) => !r.refresh && (r.action matches WsAction::SendText(t) && t@ == utf8_lossy(m@)),
            WsEvent::OutgoingClosed => !r.refresh && r.action is Stop,
            WsEvent::Text(t) => r.refresh && (r.action matches WsAction::Deliver(d) && d@ == t@),
            WsEvent::Binary(b) => r.refresh && (r.action matches WsAction::Deliver(d) && d@ == (if valid_utf8(b@) {
                decode_utf8(b@)
            } else {
                Seq::empty()
            })),
            WsEvent::Ping(p) => r.refresh && (r.action matches WsAction::SendPong(q) && q@ == p@),
            WsEvent::Pong => r.refresh && r.action is Ignore,
            WsEvent::Close => r.refresh && r.action is CloseAndStop,
            WsEvent::OtherFrame => r.refresh && r.action is Ignore,
            WsEvent::ReadFailed => !r.refresh && r.action is Stop,
            WsEvent::ReadEnded => !r.refresh && r.action is Stop,
            WsEvent::PingDue => !r.refresh && (r.action matches WsAction::SendPing(p) && p@.len() == 0),
            WsEvent::TimedOut => !r.refresh && r.action is Stop,
        },
{
    match event {
        WsEvent::Outgoing(m) => WsDecision { action: WsAction::SendText(lossy_string(m.as_slice())), refresh: false },
        WsEvent::OutgoingClosed => WsDecision { action: WsAction::Stop, refresh: false },
        WsEvent::Text(t) => WsDecision { action: WsAction::Deliver(t), refresh: true },
        WsEvent::Binary(b) => {
            let text = match utf8_str(b.as_slice()) {
                Some(s) => {
                    proof {
                        assert(decode_utf8(encode_utf8(s@)) == s@);
                    }
                    String::from_str(s)
                },
                None => String::new(),
            };
            WsDecision { action: WsAction::Deliver(text), refresh: true }
        },
        WsEvent::Ping(p) => WsDecision { action: WsAction::SendPong(p), refresh: true },
        WsEvent::Pong => WsDecision { action: WsAction::Ignore, refresh: true },
        WsEvent::Close => WsDecision { action: WsAction::CloseAndStop, refresh: true },
        WsEvent::OtherFrame => WsDecision { action: WsAction::Ignore, refresh: true },
        WsEvent::ReadFailed => WsDecision { action: WsAction::Stop, refresh: false },
        WsEvent::ReadEnded => WsDecision { action: WsAction::Stop, refresh: false },
        WsEvent::PingDue => WsDecision { action: WsAction::SendPing(Vec::new()), refresh: false },
        WsEvent::TimedOut => WsDecision { action: WsAction::Stop, refresh: false },
    }
}

} // verus!

