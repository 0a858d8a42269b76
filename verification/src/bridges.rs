//! Calls into the standard library and outside crates whose behaviour the
//! library relies on without proving it. Each item states what it assumes
//! of the call it makes.

use vstd::prelude::*;
use vstd::utf8::*;
use vstd::string::StringSliceAdditionalSpecFns;
use core::time::Duration;
use dashmap::DashMap;
use tokio::sync::mpsc::UnboundedSender;
use crate::runtime::{no_connections, no_rooms, RoomCell, SenderCell, strings_view};

verus! {

// ───────────── UTF-8 (std) ─────────────

/// `std::str::from_utf8`: succeeds exactly on valid UTF-8 and then views the
/// same bytes as text.
#[verifier::external_body]
pub(crate) fn utf8_str(bytes: &[u8]) -> (r: Option<&str>)
    ensures
        r is Some <==> valid_utf8(bytes@),
        r matches Some(s) ==> s.spec_bytes() == bytes@,
{
    match std::str::from_utf8(bytes) {
        Ok(s) => Some(s),
        Err(_) => None,
    }
}

/// The text that `String::from_utf8_lossy` makes of some bytes (invalid
/// sequences replaced by U+FFFD).
pub uninterp spec fn utf8_lossy(bytes: Seq<u8>) -> Seq<char>;

/// `String::from_utf8_lossy(..).into_owned()`: the result is named by
/// `utf8_lossy`; on valid UTF-8 it is the decoded text, as its
/// documentation states.
#[verifier::external_body]
pub(crate) fn lossy_string(bytes: &[u8]) -> (r: String)
    ensures
        r@ == utf8_lossy(bytes@),
        valid_utf8(bytes@) ==> r@ == decode_utf8(bytes@),
{
    String::from_utf8_lossy(bytes).into_owned()
}

/// The Unicode lower-case mapping that `str::to_lowercase` applies.
pub uninterp spec fn unicode_lowercase(s: Seq<char>) -> Seq<char>;

/// `str::to_lowercase`: the result is named by `unicode_lowercase`; for
/// ASCII text it is the ASCII lower-casing (the Unicode lower case of `A` to
/// `Z` is `a` to `z`, and other ASCII characters have no lower case of
/// their own); nothing more of the Unicode case tables is stated.
#[verifier::external_body]
pub(crate) fn to_lowercase(s: &str) -> (r: String)
    ensures
        r@ == unicode_lowercase(s@),
        is_ascii_chars(s@) ==> r@ == crate::text::lower_chars(s@),
{
    s.to_lowercase()
}

// ───────────── time (std) ─────────────

/// The `Duration` that `Duration::from_secs` makes of a number of seconds.
pub uninterp spec fn duration_of_secs(secs: u64) -> Duration;

/// `Duration::from_secs`: the result is named by `duration_of_secs`.
#[verifier::external_body]
pub(crate) fn duration_from_secs(secs: u64) -> (d: Duration)
    ensures
        d == duration_of_secs(secs),
{
    Duration::from_secs(secs)
}

// ───────────── hashing and encoding (sha1, base64) ─────────────

/// The SHA-1 digest of some bytes.
pub uninterp spec fn sha1_digest(data: Seq<u8>) -> Seq<u8>;

/// `sha1::Sha1::digest`: the 20-byte digest, named by `sha1_digest`.
#[verifier::external_body]
pub(crate) fn sha1(data: &[u8]) -> (r: Vec<u8>)
    ensures
        r@ == sha1_digest(data@),
        r@.len() == 20,
{
    <sha1::Sha1 as sha1::Digest>::digest(data).to_vec()
}

/// The character of a 6-bit value in the standard Base64 alphabet
/// (`A`-`Z`, `a`-`z`, `0`-`9`, `+`, `/`).
pub open spec fn base64_char(v: int) -> char {
    if v < 26 {
        (65 + v) as char
    } else if v < 52 {
        (97 + v - 26) as char
    } else if v < 62 {
        (48 + v - 52) as char
    } else if v == 62 {
        '+'
    } else {
        '/'
    }
}

/// The standard (RFC 4648, padded) Base64 text of some bytes: every group
/// of three bytes gives four characters of six bits each; a last group of
/// one or two bytes gives two or three characters and `=` to fill four.
pub open spec fn base64_standard(d: Seq<u8>) -> Seq<char>
    decreases d.len(),
{
    if d.len() == 0 {
        Seq::empty()
    } else if d.len() == 1 {
        seq![base64_char(d[0] as int / 4), base64_char((d[0] % 4) * 16), '=', '=']
    } else if d.len() == 2 {
        seq![
            base64_char(d[0] as int / 4),
            base64_char((d[0] % 4) * 16 + d[1] / 16),
            base64_char((d[1] % 16) * 4),
            '=',
        ]
    } else {
        seq![
            base64_char(d[0] as int / 4),
            base64_char((d[0] % 4) * 16 + d[1] / 16),
            base64_char((d[1] % 16) * 4 + d[2] / 64),
            base64_char(d[2] as int % 64),
        ] + base64_standard(d.skip(3))
    }
}

/// `base64::engine::general_purpose::STANDARD.encode`: the padded standard
/// Base64 text of the bytes (see `base64_standard`). Inputs whose encoded
/// length would not fit in `usize`
/// (on which the encoder panics) are excluded.
#[verifier::external_body]
pub(crate) fn base64_encode(data: &[u8]) -> (r: String)
    requires
        data@.len() <= usize::MAX / 4 * 3,
    ensures
        r@ == base64_standard(data@),
{
    base64::Engine::encode(&base64::engine::general_purpose::STANDARD, data)
}

// ───────────── JSON strings (serde_json) ─────────────

/// `serde_json::Error`, carried as an opaque value.
#[verifier::external_type_specification]
#[verifier::external_body]
pub struct ExJsonError(serde_json::Error);

/// How `serde_json` writes one character inside a JSON string: quote,
/// backslash and the control characters below U+0020 are escaped (`\b`,
/// `\t`, `\n`, `\f`, `\r`, or `\u00XX` with lower-case hex digits); every
/// other character is written as it is.
pub open spec fn json_escape_char(c: char) -> Seq<char> {
    let v = c as u32;
    if c == '"' {
        seq!['\\', '"']
    } else if c == '\\' {
        seq!['\\', '\\']
    } else if v == 0x08 {
        seq!['\\', 'b']
    } else if v == 0x09 {
        seq!['\\', 't']
    } else if v == 0x0A {
        seq!['\\', 'n']
    } else if v == 0x0C {
        seq!['\\', 'f']
    } else if v == 0x0D {
        seq!['\\', 'r']
    } else if v < 0x20 {
        seq!['\\', 'u', '0', '0', crate::text::hex_digit_char((v / 16) as nat), crate::text::hex_digit_char((v % 16) as nat)]
    } else {
        seq![c]
    }
}

/// The escaped characters of a string.
pub open spec fn json_escape_all(s: Seq<char>) -> Seq<char>
    decreases s.len(),
{
    if s.len() == 0 {
        Seq::empty()
    } else {
        json_escape_all(s.drop_last()) + json_escape_char(s.last())
    }
}

/// A string as a JSON string literal, the way `serde_json` writes it.
pub open spec fn json_quoted(s: Seq<char>) -> Seq<char> {
    seq!['"'] + json_escape_all(s) + seq!['"']
}

/// `serde_json::to_string` of a `&str`. Its source writes `"`, the escaped
/// characters and `"` into a `Vec<u8>`, which cannot fail, so the result is
/// always `Ok` with the quoted text.
#[verifier::external_body]
pub(crate) fn json_string(s: &str) -> (r: Result<String, serde_json::Error>)
    ensures
        r is Ok,
        r matches Ok(t) ==> t@ == json_quoted(s@),
{
    serde_json::to_string(s)
}

// ───────────── channels (tokio) ─────────────

/// `tokio::sync::mpsc::UnboundedSender`, carried as an opaque value.
#[verifier::external_type_specification]
#[verifier::external_body]
#[verifier::reject_recursive_types(T)]
pub struct ExUnboundedSender<T>(UnboundedSender<T>);

/// `UnboundedSender::send`: whether the message was queued. That depends on
/// whether the receiving task is still alive, so nothing is stated of it.
#[verifier::external_body]
pub(crate) fn sender_send(sender: &UnboundedSender<Vec<u8>>, data: Vec<u8>) -> (r: bool) {
    sender.send(data).is_ok()
}

// ───────────── concurrent maps (dashmap) ─────────────

/// `dashmap::DashMap`, whose contents are named by `room_table` and
/// `connection_ids` below.
#[verifier::external_type_specification]
#[verifier::external_body]
#[verifier::reject_recursive_types(K)]
#[verifier::reject_recursive_types(V)]
#[verifier::reject_recursive_types(S)]
pub struct ExDashMap<K, V, S>(DashMap<K, V, S>);

/// What a room table holds: room name to member ids.
pub uninterp spec fn room_table(m: DashMap<String, RoomCell>) -> Map<Seq<char>, Seq<Seq<char>>>;

/// What a connection table holds: the ids of its connections.
pub uninterp spec fn connection_ids(m: DashMap<String, SenderCell>) -> Set<Seq<char>>;

/// The sender that a connection table holds for an id.
pub uninterp spec fn sender_of(m: DashMap<String, SenderCell>, id: Seq<char>) -> UnboundedSender<Vec<u8>>;

/// `DashMap::new` for rooms: an empty table.
#[verifier::external_body]
pub(crate) fn rooms_new() -> (r: DashMap<String, RoomCell>)
    ensures
        room_table(r) == no_rooms(),
{
    DashMap::new()
}

/// `DashMap::get` for rooms: a copy of the members of a room, if present.
#[verifier::external_body]
pub(crate) fn rooms_get(m: &DashMap<String, RoomCell>, room: &str) -> (r: Option<Vec<String>>)
    ensures
        r is Some <==> room_table(*m).dom().contains(room@),
        r matches Some(v) ==> strings_view(v@) == room_table(*m)[room@],
{
    match m.get(room) {
        Some(cell) => Some(cell.members.clone()),
        None => None,
    }
}

/// `DashMap::insert` for rooms: the room now maps to the cell's members.
#[verifier::external_body]
pub(crate) fn rooms_insert(m: &mut DashMap<String, RoomCell>, room: String, cell: RoomCell)
    ensures
        room_table(*final(m)) == room_table(*old(m)).insert(room@, strings_view(cell.members@)),
{
    m.insert(room, cell);
}

/// `DashMap::get_mut` for rooms: replaces the members of a present room.
#[verifier::external_body]
pub(crate) fn rooms_set_members(m: &mut DashMap<String, RoomCell>, room: &str, members: Vec<String>)
    requires
        room_table(*old(m)).dom().contains(room@),
    ensures
        room_table(*final(m)) == room_table(*old(m)).insert(room@, strings_view(members@)),
{
    if let Some(mut cell) = m.get_mut(room) {
        cell.members = members;
    }
}

/// `DashMap::iter` for rooms: the room names, each once, in the map's order.
#[verifier::external_body]
pub(crate) fn rooms_names(m: &DashMap<String, RoomCell>) -> (r: Vec<String>)
    ensures
        strings_view(r@).no_duplicates(),
        strings_view(r@).to_set() == room_table(*m).dom(),
{
    m.iter().map(|entry| entry.key().clone()).collect()
}

/// `DashMap::len` for rooms: the number of rooms.
#[verifier::external_body]
pub(crate) fn rooms_len(m: &DashMap<String, RoomCell>) -> (r: usize)
    ensures
        r == room_table(*m).dom().len(),
{
    m.len()
}

/// `DashMap::new` for connections: an empty table.
#[verifier::external_body]
pub(crate) fn connections_new() -> (r: DashMap<String, SenderCell>)
    ensures
        connection_ids(r) == no_connections(),
{
    DashMap::new()
}

/// `DashMap::get` for connections: a handle (a clone, on the same channel)
/// on the sender that the table holds for the id, if the id is present.
#[verifier::external_body]
pub(crate) fn connections_sender(m: &DashMap<String, SenderCell>, id: &str) -> (r: Option<UnboundedSender<Vec<u8>>>)
    ensures
        r is Some <==> connection_ids(*m).contains(id@),
        r matches Some(s) ==> s == sender_of(*m, id@),
{
    match m.get(id) {
        Some(cell) => Some(cell.sender.clone()),
        None => None,
    }
}

/// `DashMap::insert` for connections: the id is now present and holds the
/// cell's sender; the other present ids keep theirs.
#[verifier::external_body]
pub(crate) fn connections_insert(m: &mut DashMap<String, SenderCell>, id: String, cell: SenderCell)
    ensures
        connection_ids(*final(m)) == connection_ids(*old(m)).insert(id@),
        sender_of(*final(m), id@) == cell.sender,
        forall|x: Seq<char>|
            x != id@ && connection_ids(*old(m)).contains(x) ==> #[trigger] sender_of(*final(m), x) == sender_of(
                *old(m),
                x,
            ),
{
    m.insert(id, cell);
}

/// `DashMap::remove` for connections: the id is no longer present; the
/// other present ids keep their senders.
#[verifier::external_body]
pub(crate) fn connections_remove(m: &mut DashMap<String, SenderCell>, id: &str)
    ensures
        connection_ids(*final(m)) == connection_ids(*old(m)).remove(id@),
        forall|x: Seq<char>|
            x != id@ && connection_ids(*old(m)).contains(x) ==> #[trigger] sender_of(*final(m), x) == sender_of(
                *old(m),
                x,
            ),
{
    m.remove(id);
}

/// `DashMap::iter` for connections: the ids, each once, in the map's order.
#[verifier::external_body]
pub(crate) fn connections_ids(m: &DashMap<String, SenderCell>) -> (r: Vec<String>)
    ensures
        strings_view(r@).no_duplicates(),
        strings_view(r@).to_set() == connection_ids(*m),
{
    m.iter().map(|entry| entry.key().clone()).collect()
}

/// `DashMap::len` for connections: the number of connections.
#[verifier::external_body]
pub(crate) fn connections_len(m: &DashMap<String, SenderCell>) -> (r: usize)
    ensures
        r == connection_ids(*m).len(),
{
    m.len()
}

} // verus!

