//! HTTP/1.1 request handling: header inspection, request-line parsing,
//! body framing, the reading state machines the connection loop drives,
//! and the fixed responses it writes.

use vstd::prelude::*;
use vstd::utf8::*;
use vstd::string::StringSliceAdditionalSpecFns;
use crate::bridges::{lossy_string, to_lowercase, unicode_lowercase, utf8_lossy, utf8_str};
use crate::text::{
    dec_chars, push_ascii, push_dec,
    append_bytes, find_bytes, first_occurrence, is_first_occurrence, contains_chars, occurs_at,
    lower_chars, lower_vec, parse_usize, parse_usize_range, trim, trim_bounds,
    crlf_layout, crlf_pieces, drop_trailing_blank, is_blank, join_crlf, layout_pieces,
    lemma_drop_trailing_blank, lemma_join_layout, lemma_layout_monotone, range_is_blank, split_crlf,
    chars_vec, next_word, string_of_range, ws_tokens,
    ascii_bytes, ascii_str_bytes, contains_lowered, contains_seq, find_byte,
    lemma_split_from, lower_bytes, split_on, starts_with, starts_with_lowered, first_index, lemma_first_index_range,
    lemma_first_index_found, lemma_first_index_absent, lower_byte, word_at, all_ws, lemma_first_token, is_ws,
};

verus! {

broadcast use vstd::utf8::group_utf8_lib;

/// Line feed.
pub open spec fn lf() -> u8 {
    10u8
}

// ───────────── keep-alive ─────────────

/// A header line whose lower-cased text begins with `connection:`.
pub open spec fn is_connection_line(l: Seq<u8>) -> bool {
    starts_with(lower_bytes(l), ascii_bytes("connection:"@))
}

/// The first line of `ls` that is a `Connection` header line.
pub open spec fn first_connection_line(ls: Seq<Seq<u8>>) -> Option<Seq<u8>>
    decreases ls.len(),
{
    if ls.len() == 0 {
        None
    } else if is_connection_line(ls[0]) {
        Some(ls[0])
    } else {
        first_connection_line(ls.drop_first())
    }
}

/// The value of a `Connection` line (case-insensitively) mentions `close`.
pub open spec fn connection_value_closes(l: Seq<u8>) -> bool {
    contains_seq(lower_bytes(l).skip(11), ascii_bytes("close"@))
}

/// The value of a `Connection` line (case-insensitively) mentions
/// `keep-alive`.
pub open spec fn connection_value_keeps_alive(l: Seq<u8>) -> bool {
    contains_seq(lower_bytes(l).skip(11), ascii_bytes("keep-alive"@))
}

/// The request line (the text before the first line feed) mentions
/// `http/1.1` case-insensitively.
pub open spec fn is_http_1_1_spec(h: Seq<u8>) -> bool {
    contains_seq(lower_bytes(split_on(h, lf())[0]), ascii_bytes("http/1.1"@))
}

/// Keep-alive decision for a request head: HTTP/1.1 keeps the connection
/// unless the first `Connection` line says `close`; an older request keeps
/// it only when that line says `keep-alive` and not `close`.
pub open spec fn wants_keep_alive_spec(h: Seq<u8>) -> bool {
    match first_connection_line(split_on(h, lf())) {
        Some(l) => !connection_value_closes(l) && (connection_value_keeps_alive(l) || is_http_1_1_spec(h)),
        None => is_http_1_1_spec(h),
    }
}

proof fn lemma_lower_idempotent(s: Seq<u8>)
    ensures
        lower_bytes(lower_bytes(s)) == lower_bytes(s),
{
    assert(lower_bytes(lower_bytes(s)) =~= lower_bytes(s));
}

/// Lower-casing keeps the lines: the lines of the lower-cased head are the
/// lower-cased lines.
proof fn lemma_split_lower(s: Seq<u8>)
    ensures
        split_on(lower_bytes(s), lf()).len() == split_on(s, lf()).len(),
        forall|i: int|
            0 <= i < split_on(s, lf()).len() ==> #[trigger] split_on(lower_bytes(s), lf())[i] == lower_bytes(
                split_on(s, lf())[i],
            ),
    decreases s.len(),
{
    let ls = lower_bytes(s);
    lemma_first_index_range(s, lf());
    let k = first_index(s, lf());
    if 0 <= k < s.len() {
        assert forall|m: int| 0 <= m < k implies ls[m] != lf() by {
            assert(s[m] != lf());
        }
        lemma_first_index_found(ls, lf(), k);
        lemma_split_lower(s.skip(k + 1));
        assert(ls.take(k) =~= lower_bytes(s.take(k)));
        assert(ls.skip(k + 1) =~= lower_bytes(s.skip(k + 1)));
        let a = split_on(s, lf());
        let b = split_on(ls, lf());
        assert(a == seq![s.take(k)] + split_on(s.skip(k + 1), lf()));
        assert(b == seq![ls.take(k)] + split_on(ls.skip(k + 1), lf()));
        assert forall|i: int| 0 <= i < a.len() implies #[trigger] b[i] == lower_bytes(a[i]) by {
            if i > 0 {
                assert(a[i] == split_on(s.skip(k + 1), lf())[i - 1]);
                assert(b[i] == split_on(ls.skip(k + 1), lf())[i - 1]);
            }
        }
    } else {
        assert forall|m: int| 0 <= m < ls.len() implies ls[m] != lf() by {
            assert(s[m] != lf());
        }
        lemma_first_index_absent(ls, lf());
    }
}

proof fn lemma_first_connection_lower(a: Seq<Seq<u8>>, b: Seq<Seq<u8>>)
    requires
        a.len() == b.len(),
        forall|i: int| 0 <= i < a.len() ==> #[trigger] b[i] == lower_bytes(a[i]),
    ensures
        first_connection_line(a) is None <==> first_connection_line(b) is None,
        first_connection_line(a) matches Some(l) ==> first_connection_line(b) == Some(lower_bytes(l)),
    decreases a.len(),
{
    if a.len() > 0 {
        lemma_lower_idempotent(a[0]);
        assert(b[0] == lower_bytes(a[0]));
        assert forall|i: int| 0 <= i < a.drop_first().len() implies #[trigger] b.drop_first()[i] == lower_bytes(
            a.drop_first()[i],
        ) by {
            assert(b[i + 1] == lower_bytes(a[i + 1]));
        }
        lemma_first_connection_lower(a.drop_first(), b.drop_first());
    }
}

/// The keep-alive decision does not depend on letter case: two heads that
/// differ only in the case of ASCII letters (`Connection: Close` and
/// `connection: close`, `HTTP/1.1` and `http/1.1`) get the same decision.
pub proof fn lemma_keep_alive_ignores_case(h1: Seq<u8>, h2: Seq<u8>)
    requires
        lower_bytes(h1) == lower_bytes(h2),
    ensures
        wants_keep_alive_spec(h1) == wants_keep_alive_spec(h2),
{
    lemma_keep_alive_lower(h1);
    lemma_keep_alive_lower(h2);
}

proof fn lemma_keep_alive_lower(h: Seq<u8>)
    ensures
        wants_keep_alive_spec(h) == wants_keep_alive_spec(lower_bytes(h)),
{
    let a = split_on(h, lf());
    let b = split_on(lower_bytes(h), lf());
    lemma_split_lower(h);
    lemma_first_connection_lower(a, b);
    lemma_first_index_range(h, lf());
    assert(a.len() >= 1);
    assert(b[0] == lower_bytes(a[0]));
    lemma_lower_idempotent(a[0]);
    match first_connection_line(a) {
        Some(l) => {
            lemma_lower_idempotent(l);
            assert(lower_bytes(lower_bytes(l)).skip(11) == lower_bytes(l).skip(11));
        },
        None => {},
    }
}

/// A `Connection` value that says `close`, in any letter case, closes the
/// connection: when the first `Connection` line holds `close` (after ASCII
/// lower-casing), the connection is not kept.
pub proof fn lemma_close_in_any_case(h: Seq<u8>)
    ensures
        (first_connection_line(split_on(h, lf())) matches Some(l) && contains_seq(
            lower_bytes(l).skip(11),
            seq![99u8, 108u8, 111u8, 115u8, 101u8],
        )) ==> !wants_keep_alive_spec(h),
{
    reveal_strlit("close");
    assert(ascii_bytes("close"@) =~= seq![99u8, 108u8, 111u8, 115u8, 101u8]);
}

/// Whether the client wants the connection kept open after this request.
///
/// The request head is read as bytes; matching is ASCII case-insensitive,
/// which gives the same answer as matching on its lossy UTF-8 text.
pub fn wants_keep_alive(header_bytes: &[u8]) -> (r: bool)
    ensures
        r == wants_keep_alive_spec(header_bytes@),
{
    let ghost h = header_bytes@;
    proof {
        reveal_strlit("connection:");
        reveal_strlit("keep-alive");
        reveal_strlit("close");
        reveal_strlit("http/1.1");
    }
    let conn = ascii_str_bytes("connection:");
    let keep = ascii_str_bytes("keep-alive");
    let close = ascii_str_bytes("close");
    let http11 = ascii_str_bytes("http/1.1");
    let len = header_bytes.len();
    let first_end = find_byte(header_bytes, 0, 10u8);
    let is_http_1_1 = contains_lowered(header_bytes, 0, first_end, http11);
    proof {
        lemma_split_from(h, lf(), 0, first_end as int);
        assert(h.skip(0) =~= h);
        assert(split_on(h, lf())[0] == h.subrange(0, first_end as int));
    }
    let mut pos: usize = 0;
    while pos <= len
        invariant
            len == h.len(),
            h == header_bytes@,
            pos <= len,
            conn@ == ascii_bytes("connection:"@),
            keep@ == ascii_bytes("keep-alive"@),
            close@ == ascii_bytes("close"@),
            is_http_1_1 == contains_seq(lower_bytes(split_on(h, lf())[0]), ascii_bytes("http/1.1"@)),
            first_connection_line(split_on(h, lf())) == first_connection_line(split_on(h.skip(pos as int), lf())),
            "connection:"@.len() == 11,
        decreases len + 1 - pos,
    {
        let e = find_byte(header_bytes, pos, 10u8);
        proof {
            lemma_split_from(h, lf(), pos as int, e as int);
        }
        let ghost line = h.subrange(pos as int, e as int);
        let ghost rest_lines = split_on(h.skip(pos as int), lf());
        assert(rest_lines[0] == line);
        assert(rest_lines.drop_first() =~= if e < len { split_on(h.skip(e + 1), lf()) } else { Seq::empty() });
        if starts_with_lowered(header_bytes, pos, e, conn) {
            assert(first_connection_line(rest_lines) == Some(line));
            let a = contains_lowered(header_bytes, pos + 11, e, keep);
            let b = contains_lowered(header_bytes, pos + 11, e, close);
            proof {
                assert(lower_bytes(line).skip(11) =~= lower_bytes(h.subrange(pos + 11, e as int)));
            }
            return !b && (a || is_http_1_1);
        }
        if e == len {
            assert(first_connection_line(Seq::<Seq<u8>>::empty()) == None::<Seq<u8>>);
            return is_http_1_1;
        }
        pos = e + 1;
    }
    is_http_1_1
}

// ───────────── request line ─────────────

/// The first line of a request head (the bytes before the first line feed).
pub open spec fn request_line(h: Seq<u8>) -> Seq<u8> {
    split_on(h, lf())[0]
}

/// Method and path of a request: the first two white-space separated words
/// of the lossy text of the request line, defaulting to `GET` and `/`.
pub open spec fn method_path_spec(h: Seq<u8>) -> (Seq<char>, Seq<char>) {
    let words = ws_tokens(utf8_lossy(request_line(h)));
    (
        if words.len() > 0 { words[0] } else { "GET"@ },
        if words.len() > 1 { words[1] } else { "/"@ },
    )
}

/// Method and path are read from the request text as they stand: when the
/// lossy text of the request line has words, the method is its first word
/// and the path its second, each a range of that text, character for
/// character, with only white space before the first and between the two;
/// a missing method is `GET` and a missing path is `/`.
pub proof fn lemma_method_path_words(h: Seq<u8>)
    ensures
        ({
            let t = utf8_lossy(request_line(h));
            let mp = method_path_spec(h);
            &&& ws_tokens(t).len() == 0 ==> mp.0 == "GET"@ && mp.1 == "/"@
            &&& ws_tokens(t).len() == 1 ==> mp.1 == "/"@ && exists|a0: int, b0: int|
                word_at(t, a0, b0) && all_ws(t, 0, a0) && mp.0 == t.subrange(a0, b0)
            &&& ws_tokens(t).len() >= 2 ==> exists|a0: int, b0: int, a1: int, b1: int|
                word_at(t, a0, b0) && all_ws(t, 0, a0) && mp.0 == t.subrange(a0, b0) && b0 < a1 && all_ws(
                    t,
                    b0,
                    a1,
                ) && word_at(t, a1, b1) && mp.1 == t.subrange(a1, b1)
        }),
{
    let t = utf8_lossy(request_line(h));
    let ws = ws_tokens(t);
    if ws.len() >= 1 {
        let (a0, b0) = lemma_first_token(t);
        assert(word_at(t, a0, b0) && all_ws(t, 0, a0) && method_path_spec(h).0 == t.subrange(a0, b0));
        if ws.len() >= 2 {
            let u = t.skip(b0);
            assert(ws_tokens(u).len() >= 1);
            let (c, d) = lemma_first_token(u);
            assert(ws[1] == ws_tokens(u)[0]);
            assert(u.subrange(c, d) =~= t.subrange(b0 + c, b0 + d));
            assert forall|k: int| b0 + c <= k < b0 + d implies !is_ws(#[trigger] t[k]) by {
                assert(t[k] == u[k - b0]);
            }
            if d < u.len() {
                assert(t[b0 + d] == u[d]);
            }
            assert forall|k: int| b0 <= k < b0 + c implies is_ws(#[trigger] t[k]) by {
                assert(t[k] == u[k - b0]);
            }
            if c == 0 {
                assert(u[0] == t[b0]);
            }
            assert(word_at(t, b0 + c, b0 + d));
            assert(all_ws(t, b0, b0 + c));
        }
    }
}

/// Reads method and path from the request line.
pub fn parse_method_path(bytes: &[u8]) -> (r: (String, String))
    ensures
        (r.0@, r.1@) == method_path_spec(bytes@),
{
    let ghost h = bytes@;
    let e = find_byte(bytes, 0, 10u8);
    proof {
        lemma_split_from(h, lf(), 0, e as int);
        assert(h.skip(0) =~= h);
    }
    let line = vstd::slice::slice_subrange(bytes, 0, e);
    let text = lossy_string(line);
    let t = text.as_str();
    let v = chars_vec(t);
    let (a0, b0) = next_word(&v, 0);
    proof {
        assert(v@.skip(0) =~= v@);
    }
    let method = if a0 < v.len() {
        string_of_range(t, a0, b0)
    } else {
        String::from_str("GET")
    };
    let path = if a0 < v.len() {
        let (a1, b1) = next_word(&v, b0);
        if a1 < v.len() {
            string_of_range(t, a1, b1)
        } else {
            String::from_str("/")
        }
    } else {
        String::from_str("/")
    };
    (method, path)
}

// ───────────── header block ─────────────

/// Header text handed to the application: the lossy text of the head split
/// at CR LF, without the request line and without trailing blank lines,
/// joined again with CR LF.
pub open spec fn headers_text_spec(h: Seq<u8>) -> Seq<char> {
    join_crlf(drop_trailing_blank(split_crlf(utf8_lossy(h)).drop_first()))
}

/// The header lines of a request head, without request line and final
/// blank lines.
pub fn extract_headers_text(header_bytes: &[u8]) -> (r: String)
    ensures
        r@ == headers_text_spec(header_bytes@),
{
    let text = lossy_string(header_bytes);
    let t = text.as_str();
    let v = chars_vec(t);
    let (st, en) = crlf_pieces(&v);
    let ghost p = layout_pieces(v@, st@, en@);
    let n = st.len();
    let mut m = n;
    while m > 1 && range_is_blank(&v, st[m - 1], en[m - 1])
        invariant
            1 <= m <= n,
            n == st@.len(),
            crlf_layout(v@, st@, en@),
            p == layout_pieces(v@, st@, en@),
            forall|k: int| m <= k < n ==> is_blank(#[trigger] p[k]),
        decreases m,
    {
        m = m - 1;
    }
    proof {
        let ls = p.drop_first();
        assert forall|k: int| m - 1 <= k < ls.len() implies is_blank(ls[k]) by {
            assert(ls[k] == p[k + 1]);
        }
        if m > 1 {
            assert(ls[m - 2] == p[m - 1]);
        }
        lemma_drop_trailing_blank(ls, m - 1);
        assert(ls.take(m - 1) =~= p.subrange(1, m as int));
    }
    if m <= 1 {
        proof {
            assert(p.subrange(1, 1) =~= Seq::<Seq<char>>::empty());
        }
        String::new()
    } else {
        proof {
            lemma_join_layout(v@, st@, en@, 1, m as int);
            lemma_layout_monotone(v@, st@, en@, 1, m - 1);
        }
        string_of_range(t, st[1], en[m - 1])
    }
}

// ───────────── body length ─────────────

/// The length a header line announces: a line that is valid UTF-8, whose
/// ASCII-lower-cased text begins with `content-length:` and whose trimmed
/// rest parses as `usize`.
pub open spec fn line_content_length(l: Seq<u8>) -> Option<nat> {
    if valid_utf8(l) && starts_with(lower_chars(decode_utf8(l)), "content-length:"@) {
        parse_usize(trim(lower_chars(decode_utf8(l)).skip(15)))
    } else {
        None
    }
}

/// The first length that a line of `ls` announces.
pub open spec fn first_content_length(ls: Seq<Seq<u8>>) -> Option<nat>
    decreases ls.len(),
{
    if ls.len() == 0 {
        None
    } else {
        match line_content_length(ls[0]) {
            Some(n) => Some(n),
            None => first_content_length(ls.drop_first()),
        }
    }
}

/// The body length a request head announces, 0 when none does.
pub open spec fn content_length_spec(h: Seq<u8>) -> nat {
    match first_content_length(split_on(h, lf())) {
        Some(n) => n,
        None => 0,
    }
}

/// The length announced by one header line.
fn line_content_length_exec(l: &[u8]) -> (r: Option<usize>)
    ensures
        r == (match line_content_length(l@) {
            Some(n) => Some(n as usize),
            None => None,
        }),
{
    match utf8_str(l) {
        None => None,
        Some(s) => {
            let v = lower_vec(&chars_vec(s));
            proof {
                reveal_strlit("content-length:");
                assert(decode_utf8(encode_utf8(s@)) == s@);
            }
            let p = chars_vec("content-length:");
            if v.len() < 15 {
                return None;
            }
            let mut i: usize = 0;
            while i < 15
                invariant
                    0 <= i <= 15,
                    15 <= v@.len(),
                    p@ == "content-length:"@,
                    p@.len() == 15,
                    valid_utf8(l@),
                    v@ == lower_chars(decode_utf8(l@)),
                    forall|k: int| 0 <= k < i ==> v@[k] == p@[k],
                decreases 15 - i,
            {
                if v[i] != p[i] {
                    assert(v@.take(15)[i as int] != p@[i as int]);
                    return None;
                }
                i = i + 1;
            }
            assert(v@.take(15) =~= p@);
            let (a, b) = trim_bounds(&v, 15, v.len());
            proof {
                assert(v@.subrange(15, v@.len() as int) =~= v@.skip(15));
            }
            parse_usize_range(&v, a, b)
        },
    }
}

/// The body length a request head announces (see `content_length_spec`).
pub fn content_length(header_bytes: &[u8]) -> (r: usize)
    ensures
        r == content_length_spec(header_bytes@),
{
    let ghost h = header_bytes@;
    let len = header_bytes.len();
    let mut pos: usize = 0;
    proof {
        assert(h.skip(0) =~= h);
    }
    while pos <= len
        invariant
            len == h.len(),
            h == header_bytes@,
            pos <= len,
            first_content_length(split_on(h, lf())) == first_content_length(split_on(h.skip(pos as int), lf())),
        decreases len + 1 - pos,
    {
        let e = find_byte(header_bytes, pos, 10u8);
        proof {
            lemma_split_from(h, lf(), pos as int, e as int);
        }
        let ghost rest_lines = split_on(h.skip(pos as int), lf());
        assert(rest_lines[0] == h.subrange(pos as int, e as int));
        assert(rest_lines.drop_first() =~= if e < len { split_on(h.skip(e + 1), lf()) } else { Seq::empty() });
        let line = vstd::slice::slice_subrange(header_bytes, pos, e);
        match line_content_length_exec(line) {
            Some(n) => {
                return n;
            },
            None => {},
        }
        if e == len {
            assert(first_content_length(Seq::<Seq<u8>>::empty()) == None::<nat>);
            return 0;
        }
        pos = e + 1;
    }
    0
}

// ───────────── reading the head ─────────────

/// CR LF CR LF, the blank line that ends a request head.
pub open spec fn blank_line() -> Seq<u8> {
    seq![13u8, 10u8, 13u8, 10u8]
}

/// Buffer size the head reader starts with.
pub open spec fn initial_head_capacity(header_max: nat) -> nat {
    if 32768 <= header_max + 4096 { 32768 } else { header_max + 4096 }
}

/// Buffer size after the head reader grows a full buffer of size `cap`.
pub open spec fn grown_head_capacity(cap: nat, header_max: nat) -> nat {
    if cap * 2 <= header_max + 4096 { cap * 2 } else { header_max + 4096 }
}

/// What one read means for a request head.
pub enum HeadStep {
    /// No blank line yet and still under the limit: read again.
    NeedMore,
    /// The head is complete (blank line seen, or the peer stopped sending
    /// after some bytes): all bytes received so far.
    Complete(Vec<u8>),
    /// The peer closed the connection before sending anything.
    Closed,
    /// The head exceeds the limit.
    TooLarge,
}

/// Marker for a head that outgrew its limit before a read.
pub struct HeadTooLarge;

/// Accumulates a request head from successive reads, growing its buffer the
/// way a fixed buffer of `capacity` bytes would be grown and bounded by
/// `header_max`.
pub struct HeadReader {
    data: Vec<u8>,
    cap: usize,
    header_max: usize,
}

impl HeadReader {
    /// Bytes received so far.
    pub closed spec fn received(&self) -> Seq<u8> {
        self.data@
    }

    /// Size of the buffer the next read fills.
    pub closed spec fn capacity(&self) -> nat {
        self.cap as nat
    }

    /// The head size limit.
    pub closed spec fn limit(&self) -> nat {
        self.header_max as nat
    }

    /// The reader's invariant.
    pub closed spec fn wf(&self) -> bool {
        &&& self.data@.len() <= self.cap
        &&& 1 <= self.cap <= self.header_max + 4096
        &&& self.header_max + 4096 <= usize::MAX
        &&& 2 * self.header_max <= usize::MAX
    }

    /// A reader with nothing received.
    pub fn new(header_max: usize) -> (r: Self)
        requires
            header_max + 4096 <= usize::MAX,
            2 * header_max <= usize::MAX,
        ensures
            r.wf(),
            r.received() == Seq::<u8>::empty(),
            r.capacity() == initial_head_capacity(header_max as nat),
            r.limit() == header_max,
    {
        let cap = if 32768 <= header_max + 4096 { 32768 } else { header_max + 4096 };
        HeadReader { data: Vec::new(), cap, header_max }
    }

    /// Prepares the next read: when the buffer is full it grows, unless it
    /// already reached the limit. Gives how many bytes the next read may take.
    pub fn room(&mut self) -> (r: Result<usize, HeadTooLarge>)
        requires
            old(self).wf(),
        ensures
            final(self).wf(),
            final(self).received() == old(self).received(),
            final(self).limit() == old(self).limit(),
            old(self).received().len() < old(self).capacity() ==> final(self).capacity() == old(self).capacity(),
            old(self).received().len() >= old(self).capacity() && old(self).capacity() < old(self).limit()
                ==> final(self).capacity() == grown_head_capacity(old(self).capacity(), old(self).limit()),
            r is Err <==> old(self).received().len() >= old(self).capacity() && old(self).capacity() >= old(self).limit(),
            r matches Ok(n) ==> n == final(self).capacity() - final(self).received().len() && n > 0,
    {
        let total = self.data.len();
        if total >= self.cap {
            if self.cap >= self.header_max {
                return Err(HeadTooLarge);
            }
            let limit = self.header_max + 4096;
            self.cap = if self.cap <= limit / 2 { self.cap * 2 } else { limit };
        }
        Ok(self.cap - total)
    }

    /// Takes the bytes of one read (none when the peer stopped sending).
    pub fn accept(&mut self, chunk: &[u8]) -> (r: HeadStep)
        requires
            old(self).wf(),
            old(self).received().len() + chunk@.len() <= old(self).capacity(),
        ensures
            final(self).wf(),
            final(self).capacity() == old(self).capacity(),
            final(self).limit() == old(self).limit(),
            chunk@.len() == 0 && old(self).received().len() == 0 ==> r is Closed,
            chunk@.len() == 0 && old(self).received().len() > 0 ==> (r matches HeadStep::Complete(v) && v@
                == old(self).received()),
            chunk@.len() > 0 ==> ({
                let d = old(self).received() + chunk@;
                let searched = d.take(if d.len() <= old(self).limit() { d.len() as int } else { old(self).limit() as int });
                &&& final(self).received() == d
                &&& if d.len() >= 4 && contains_seq(searched, blank_line()) {
                    r matches HeadStep::Complete(v) && v@ == d
                } else if d.len() >= old(self).limit() {
                    r is TooLarge
                } else {
                    r is NeedMore
                }
            }),
            forall|rest: Seq<Seq<u8>>|
                #[trigger] head_read(old(self).received(), seq![chunk@] + rest, old(self).limit()) == match r {
                    HeadStep::NeedMore => head_read(final(self).received(), rest, old(self).limit()),
                    HeadStep::Closed => HeadResult::Closed,
                    HeadStep::TooLarge => HeadResult::TooLarge,
                    HeadStep::Complete(v) => HeadResult::Complete(v@),
                },
    {
        proof {
            lemma_head_read_first(self.data@, chunk@, self.header_max as nat);
        }
        if chunk.len() == 0 {
            if self.data.len() == 0 {
                return HeadStep::Closed;
            }
            return HeadStep::Complete(self.data.clone());
        }
        append_bytes(&mut self.data, chunk);
        let total = self.data.len();
        if total >= 4 {
            let search_end = if total <= self.header_max { total } else { self.header_max };
            let pat: Vec<u8> = vec![13u8, 10u8, 13u8, 10u8];
            proof {
                assert(pat@ =~= blank_line());
            }
            if find_bytes(self.data.as_slice(), search_end, pat.as_slice()).is_some() {
                return HeadStep::Complete(self.data.clone());
            }
        }
        if total >= self.header_max {
            return HeadStep::TooLarge;
        }
        HeadStep::NeedMore
    }
}

/// The head limit bounds the memory a request head takes: a reader never
/// holds more than the limit plus 4096 bytes.
pub proof fn lemma_head_bounded(r: &HeadReader)
    requires
        r.wf(),
    ensures
        r.received().len() <= r.capacity() <= r.limit() + 4096,
{
}

// ───────────── reading the body ─────────────

/// How many bytes one body read asks for.
pub const BODY_READ_CHUNK: usize = 4096;

/// How a request body is to be read.
pub enum BodyStart {
    /// No length announced: the body is the lossy text of what arrived with
    /// the head.
    Done(String),
    /// The announced length exceeds the limit.
    TooLarge,
    /// Read until the announced length is reached or the peer stops.
    Reading(BodyReader),
}

/// Accumulates a request body of announced length.
pub struct BodyReader {
    data: Vec<u8>,
    expected: usize,
}

impl BodyReader {
    /// Bytes received so far.
    pub closed spec fn received(&self) -> Seq<u8> {
        self.data@
    }

    /// The announced body length.
    pub closed spec fn expected(&self) -> nat {
        self.expected as nat
    }

    /// Whether another read is needed.
    pub fn wants_more(&self) -> (r: bool)
        ensures
            r == (self.received().len() < self.expected()),
    {
        self.data.len() < self.expected
    }

    /// Takes the bytes of one read; says whether to keep reading.
    pub fn accept(&mut self, chunk: &[u8]) -> (r: bool)
        ensures
            final(self).expected() == old(self).expected(),
            final(self).received() == old(self).received() + chunk@,
            r == (chunk@.len() > 0 && final(self).received().len() < final(self).expected()),
            old(self).received().len() < old(self).expected() ==> forall|rest: Seq<Seq<u8>>|
                #[trigger] body_read(old(self).received(), old(self).expected(), seq![chunk@] + rest) == (if r {
                    body_read(final(self).received(), final(self).expected(), rest)
                } else {
                    final(self).received()
                }),
    {
        proof {
            lemma_body_read_first(self.data@, self.expected as nat, chunk@);
        }
        append_bytes(&mut self.data, chunk);
        chunk.len() > 0 && self.data.len() < self.expected
    }

    /// The body: the lossy text of at most the announced number of bytes.
    pub fn finish(self) -> (r: String)
        ensures
            r@ == utf8_lossy(
                if self.received().len() <= self.expected() {
                    self.received()
                } else {
                    self.received().take(self.expected() as int)
                },
            ),
    {
        let mut data = self.data;
        if data.len() > self.expected {
            data.truncate(self.expected);
        }
        lossy_string(data.as_slice())
    }
}

/// Decides how to read the body of a request whose head is `header_bytes`,
/// given the bytes that arrived after the head and the body size limit.
pub fn start_body(header_bytes: &[u8], pre_body: &[u8], body_max: usize) -> (r: BodyStart)
    ensures
        content_length_spec(header_bytes@) == 0 ==> (r matches BodyStart::Done(s) && s@ == utf8_lossy(pre_body@)),
        content_length_spec(header_bytes@) > body_max ==> r is TooLarge,
        0 < content_length_spec(header_bytes@) <= body_max ==> (r matches BodyStart::Reading(b)
            && b.received() == pre_body@ && b.expected() == content_length_spec(header_bytes@)),
{
    let cl = content_length(header_bytes);
    if cl == 0 {
        return BodyStart::Done(lossy_string(pre_body));
    }
    if cl > body_max {
        return BodyStart::TooLarge;
    }
    let mut data: Vec<u8> = Vec::new();
    append_bytes(&mut data, pre_body);
    BodyStart::Reading(BodyReader { data, expected: cl })
}

// ───────────── whole streams ─────────────

/// The bytes of all pieces, in order.
pub open spec fn concat_all(chunks: Seq<Seq<u8>>) -> Seq<u8>
    decreases chunks.len(),
{
    if chunks.len() == 0 {
        Seq::empty()
    } else {
        chunks[0] + concat_all(chunks.drop_first())
    }
}

/// The reads of a stream that delivers `s` and then ends: non-empty
/// pieces whose bytes are `s`, then one empty read.
pub open spec fn stream_reads(chunks: Seq<Seq<u8>>, s: Seq<u8>) -> bool {
    &&& chunks.len() >= 1
    &&& chunks.last().len() == 0
    &&& forall|i: int| 0 <= i < chunks.len() - 1 ==> (#[trigger] chunks[i]).len() > 0
    &&& concat_all(chunks) == s
}

proof fn lemma_stream_reads_step(chunks: Seq<Seq<u8>>, s: Seq<u8>)
    requires
        stream_reads(chunks, s),
    ensures
        chunks[0].len() == 0 ==> chunks.len() == 1 && s.len() == 0,
        chunks[0].len() > 0 ==> stream_reads(chunks.drop_first(), s.skip(chunks[0].len() as int)) && s == chunks[0]
            + s.skip(chunks[0].len() as int),
{
    let rest = chunks.drop_first();
    assert(concat_all(chunks) == chunks[0] + concat_all(rest));
    if chunks[0].len() == 0 {
        if chunks.len() > 1 {
            assert(chunks[0].len() > 0);
        }
        assert(rest.len() == 0);
        assert(concat_all(rest) =~= Seq::<u8>::empty());
        assert(s =~= Seq::<u8>::empty());
    } else {
        assert(chunks.len() > 1);
        assert(rest.last() == chunks.last());
        assert forall|i: int| 0 <= i < rest.len() - 1 implies (#[trigger] rest[i]).len() > 0 by {
            assert(rest[i] == chunks[i + 1]);
        }
        assert(s.skip(chunks[0].len() as int) =~= concat_all(rest));
        assert(s =~= chunks[0] + s.skip(chunks[0].len() as int));
    }
}

/// The body bytes a reader ends with, when it holds `received`, expects
/// `expected` bytes, and the next reads give `chunks`: it keeps reading while
/// it holds fewer than `expected` bytes and the stream has not ended (the
/// loop over `BodyReader::wants_more` and `BodyReader::accept`).
pub open spec fn body_read(received: Seq<u8>, expected: nat, chunks: Seq<Seq<u8>>) -> Seq<u8>
    decreases chunks.len(),
{
    if received.len() >= expected || chunks.len() == 0 || chunks[0].len() == 0 {
        received
    } else {
        body_read(received + chunks[0], expected, chunks.drop_first())
    }
}

/// `body_read` on a first read followed by any others.
proof fn lemma_body_read_first(received: Seq<u8>, expected: nat, chunk: Seq<u8>)
    ensures
        forall|rest: Seq<Seq<u8>>| #[trigger]
            body_read(received, expected, seq![chunk] + rest) == (if received.len() >= expected || chunk.len()
                == 0 {
                received
            } else {
                body_read(received + chunk, expected, rest)
            }),
{
    assert forall|rest: Seq<Seq<u8>>| #[trigger]
        body_read(received, expected, seq![chunk] + rest) == (if received.len() >= expected || chunk.len() == 0 {
            received
        } else {
            body_read(received + chunk, expected, rest)
        }) by {
        let cs = seq![chunk] + rest;
        assert(cs[0] == chunk);
        assert(cs.drop_first() =~= rest);
    }
}

/// At most `n` bytes of `s`.
pub open spec fn at_most(s: Seq<u8>, n: nat) -> Seq<u8> {
    if s.len() <= n {
        s
    } else {
        s.take(n as int)
    }
}

/// Reading a body to its end: whatever the pieces the rest of the stream
/// comes in, the body (before its lossy decoding by `BodyReader::finish`)
/// is the first `expected` bytes of what arrived with the head followed by
/// the stream, or all of them when the stream ends sooner.
pub proof fn lemma_body_read(received: Seq<u8>, expected: nat, chunks: Seq<Seq<u8>>, s: Seq<u8>)
    requires
        stream_reads(chunks, s),
    ensures
        at_most(body_read(received, expected, chunks), expected) == at_most(received + s, expected),
    decreases chunks.len(),
{
    lemma_stream_reads_step(chunks, s);
    if received.len() >= expected {
        assert((received + s).take(expected as int) =~= received.take(expected as int));
    } else if chunks[0].len() == 0 {
        assert(received + s =~= received);
    } else {
        let c = chunks[0];
        let rest = s.skip(c.len() as int);
        lemma_body_read(received + c, expected, chunks.drop_first(), rest);
        assert(received + c + rest =~= received + s);
    }
}

// ───────────── reading a whole head ─────────────

/// How reading a head ends.
pub enum HeadResult {
    /// More reads are needed.
    Pending,
    /// The peer closed the connection before sending anything.
    Closed,
    /// The head is over its limit.
    TooLarge,
    /// The head, with all bytes received so far.
    Complete(Seq<u8>),
}

/// The first `limit` bytes of `d` hold a blank line.
pub open spec fn blank_within(d: Seq<u8>, limit: nat) -> bool {
    d.len() >= 4 && contains_seq(d.take(if d.len() <= limit { d.len() as int } else { limit as int }), blank_line())
}

/// How a head reader holding `received` ends when the next reads give
/// `chunks` (the steps of `HeadReader::accept`).
pub open spec fn head_read(received: Seq<u8>, chunks: Seq<Seq<u8>>, limit: nat) -> HeadResult
    decreases chunks.len(),
{
    if chunks.len() == 0 {
        HeadResult::Pending
    } else if chunks[0].len() == 0 {
        if received.len() == 0 {
            HeadResult::Closed
        } else {
            HeadResult::Complete(received)
        }
    } else {
        let d = received + chunks[0];
        if blank_within(d, limit) {
            HeadResult::Complete(d)
        } else if d.len() >= limit {
            HeadResult::TooLarge
        } else {
            head_read(d, chunks.drop_first(), limit)
        }
    }
}

proof fn lemma_contains_prefix(a: Seq<u8>, b: Seq<u8>, p: Seq<u8>)
    requires
        a.len() <= b.len(),
        b.take(a.len() as int) == a,
        contains_seq(a, p),
    ensures
        contains_seq(b, p),
{
    let k = choose|k: int| occurs_at(a, p, k);
    assert(b.subrange(k, k + p.len()) =~= a.subrange(k, k + p.len()));
    assert(occurs_at(b, p, k));
}

proof fn lemma_head_read_from(r: Seq<u8>, chunks: Seq<Seq<u8>>, s: Seq<u8>, limit: nat)
    requires
        stream_reads(chunks, s),
        r.len() < limit,
        !blank_within(r, limit),
    ensures
        ({
            let t = r + s;
            &&& t.len() == 0 ==> head_read(r, chunks, limit) == HeadResult::Closed
            &&& blank_within(t, limit) ==> (head_read(r, chunks, limit) matches HeadResult::Complete(v) && v.len()
                <= t.len() && t.take(v.len() as int) == v && blank_within(v, limit))
            &&& !blank_within(t, limit) && t.len() >= limit ==> head_read(r, chunks, limit) == HeadResult::TooLarge
            &&& !blank_within(t, limit) && 0 < t.len() < limit ==> head_read(r, chunks, limit) == HeadResult::Complete(
                t,
            )
        }),
    decreases chunks.len(),
{
    lemma_stream_reads_step(chunks, s);
    let t = r + s;
    if chunks[0].len() == 0 {
        assert(t =~= r);
    } else {
        let c = chunks[0];
        let rest = s.skip(c.len() as int);
        let d = r + c;
        assert(t =~= d + rest);
        let m = if t.len() <= limit { t.len() as int } else { limit as int };
        let md = if d.len() <= limit { d.len() as int } else { limit as int };
        if blank_within(d, limit) {
            assert(t.take(m).take(md) =~= d.take(md));
            lemma_contains_prefix(d.take(md), t.take(m), blank_line());
            assert(t.take(d.len() as int) =~= d);
        } else if d.len() >= limit {
            assert(t.take(m) =~= d.take(md));
        } else {
            lemma_head_read_from(d, chunks.drop_first(), rest, limit);
        }
    }
}

/// `head_read` on a first read followed by any others.
proof fn lemma_head_read_first(received: Seq<u8>, chunk: Seq<u8>, limit: nat)
    ensures
        forall|rest: Seq<Seq<u8>>| #[trigger]
            head_read(received, seq![chunk] + rest, limit) == (if chunk.len() == 0 {
                if received.len() == 0 {
                    HeadResult::Closed
                } else {
                    HeadResult::Complete(received)
                }
            } else if blank_within(received + chunk, limit) {
                HeadResult::Complete(received + chunk)
            } else if (received + chunk).len() >= limit {
                HeadResult::TooLarge
            } else {
                head_read(received + chunk, rest, limit)
            }),
{
    assert forall|rest: Seq<Seq<u8>>| #[trigger]
        head_read(received, seq![chunk] + rest, limit) == (if chunk.len() == 0 {
            if received.len() == 0 {
                HeadResult::Closed
            } else {
                HeadResult::Complete(received)
            }
        } else if blank_within(received + chunk, limit) {
            HeadResult::Complete(received + chunk)
        } else if (received + chunk).len() >= limit {
            HeadResult::TooLarge
        } else {
            head_read(received + chunk, rest, limit)
        }) by {
        let cs = seq![chunk] + rest;
        assert(cs[0] == chunk);
        assert(cs.drop_first() =~= rest);
    }
}

/// Reading a whole head: whatever the pieces a stream comes in, the peer
/// closing at once gives `Closed`; a blank line within the first `limit`
/// bytes gives the bytes received up to some read, a prefix of the stream
/// holding that blank line; without one, a stream of at least `limit` bytes
/// gives `TooLarge` and a shorter one gives all its bytes. (With reads
/// bounded by `HeadReader::room`, the reader never holds more than
/// `limit + 4096` bytes: `lemma_head_bounded`.)
pub proof fn lemma_head_read(chunks: Seq<Seq<u8>>, s: Seq<u8>, limit: nat)
    requires
        stream_reads(chunks, s),
        limit > 0,
    ensures
        s.len() == 0 ==> head_read(Seq::empty(), chunks, limit) == HeadResult::Closed,
        blank_within(s, limit) ==> (head_read(Seq::empty(), chunks, limit) matches HeadResult::Complete(v) && v.len()
            <= s.len() && s.take(v.len() as int) == v && blank_within(v, limit)),
        !blank_within(s, limit) && s.len() >= limit ==> head_read(Seq::empty(), chunks, limit)
            == HeadResult::TooLarge,
        !blank_within(s, limit) && 0 < s.len() < limit ==> head_read(Seq::empty(), chunks, limit)
            == HeadResult::Complete(s),
{
    lemma_head_read_from(Seq::empty(), chunks, s, limit);
    assert(Seq::<u8>::empty() + s =~= s);
}

// ───────────── routing a request head ─────────────

/// What to do with a request head that was read completely.
pub enum HeadPlan {
    /// Hand the connection to the WebSocket handshake.
    Upgrade,
    /// No blank line ends the head: answer 400.
    BadRequest,
    /// An ordinary request whose head spans `..header_end`.
    Request { header_end: usize, keep_alive: bool },
}

/// The first 1024 bytes of `buf` (all of it when shorter).
pub open spec fn head_preview(buf: Seq<u8>) -> Seq<u8> {
    buf.take(if buf.len() <= 1024 { buf.len() as int } else { 1024 })
}

/// A head asks for a WebSocket upgrade when the Unicode-lower-cased lossy
/// text of its first 1024 bytes contains `upgrade: websocket`.
pub open spec fn is_upgrade_spec(buf: Seq<u8>) -> bool {
    contains_seq(unicode_lowercase(utf8_lossy(head_preview(buf))), "upgrade: websocket"@)
}

/// Whether a request head asks for a WebSocket upgrade.
pub fn is_websocket_upgrade(buf: &[u8]) -> (r: bool)
    ensures
        r == is_upgrade_spec(buf@),
{
    let n = if buf.len() <= 1024 { buf.len() } else { 1024 };
    let preview = vstd::slice::slice_subrange(buf, 0, n);
    proof {
        assert(preview@ =~= head_preview(buf@));
    }
    let text = lossy_string(preview);
    let lower = to_lowercase(text.as_str());
    let v = chars_vec(lower.as_str());
    proof {
        reveal_strlit("upgrade: websocket");
    }
    let pat = chars_vec("upgrade: websocket");
    contains_chars(&v, &pat)
}

/// End of the head: just past the first blank line, if there is one.
pub open spec fn header_end_spec(buf: Seq<u8>) -> Option<int> {
    match first_occurrence(buf, blank_line()) {
        Some(p) => Some(p + 4),
        None => None,
    }
}

/// Where the head ends (just past the first CR LF CR LF), if it does.
pub fn find_header_end(buf: &[u8]) -> (r: Option<usize>)
    ensures
        r is None <==> header_end_spec(buf@) is None,
        r matches Some(e) ==> header_end_spec(buf@) == Some(e as int) && 4 <= e <= buf@.len(),
{
    let pat: Vec<u8> = vec![13u8, 10u8, 13u8, 10u8];
    proof {
        assert(pat@ =~= blank_line());
        assert(buf@.take(buf@.len() as int) =~= buf@);
    }
    match find_bytes(buf, buf.len(), pat.as_slice()) {
        Some(p) => {
            proof {
                let t = buf@.take(buf@.len() as int);
                let k = choose|k: int| is_first_occurrence(t, blank_line(), k);
                assert(is_first_occurrence(t, blank_line(), k));
            }
            Some(p + 4)
        },
        None => None,
    }
}

/// Routes a completely read request head: upgrade requests go to the
/// WebSocket handshake; otherwise the head must end with a blank line.
pub fn plan_request(buf: &[u8]) -> (r: HeadPlan)
    ensures
        is_upgrade_spec(buf@) ==> r is Upgrade,
        !is_upgrade_spec(buf@) && header_end_spec(buf@) is None ==> r is BadRequest,
        !is_upgrade_spec(buf@) && header_end_spec(buf@) is Some ==> (r matches HeadPlan::Request { header_end, keep_alive }
            && header_end == header_end_spec(buf@)->0
            && keep_alive == wants_keep_alive_spec(buf@.take(header_end as int))),
{
    if is_websocket_upgrade(buf) {
        return HeadPlan::Upgrade;
    }
    match find_header_end(buf) {
        None => HeadPlan::BadRequest,
        Some(e) => {
            let head = vstd::slice::slice_subrange(buf, 0, e);
            assert(head@ =~= buf@.take(e as int));
            let keep_alive = wants_keep_alive(head);
            HeadPlan::Request { header_end: e, keep_alive }
        },
    }
}

// ───────────── fixed responses ─────────────

/// Body of a short error page: `<html><body><h1>{code} {text}</h1></body></html>`.
pub open spec fn simple_body_spec(code: u16, text: Seq<u8>) -> Seq<u8> {
    ascii_bytes("<html><body><h1>"@) + ascii_bytes(dec_chars(code as nat)) + ascii_bytes(" "@) + text
        + ascii_bytes("</h1></body></html>"@)
}

/// A complete `Connection: close` HTML response with the given status.
pub open spec fn simple_response_spec(code: u16, text: Seq<u8>) -> Seq<u8> {
    let body = simple_body_spec(code, text);
    ascii_bytes("HTTP/1.1 "@) + ascii_bytes(dec_chars(code as nat)) + ascii_bytes(" "@) + text
        + ascii_bytes("\r\nContent-Type: text/html; charset=utf-8\r\nContent-Length: "@) + ascii_bytes(
        dec_chars(body.len()),
    ) + ascii_bytes("\r\nConnection: close\r\n\r\n"@) + body
}

/// The bytes of a short error response (head followed by body).
pub fn simple_response(status_code: u16, status_text: &str) -> (r: Vec<u8>)
    ensures
        r@ == simple_response_spec(status_code, status_text.spec_bytes()),
{
    proof {
        reveal_strlit("<html><body><h1>");
        reveal_strlit(" ");
        reveal_strlit("</h1></body></html>");
        reveal_strlit("HTTP/1.1 ");
        reveal_strlit("\r\nContent-Type: text/html; charset=utf-8\r\nContent-Length: ");
        reveal_strlit("\r\nConnection: close\r\n\r\n");
    }
    let text = status_text.as_bytes();
    let mut body: Vec<u8> = Vec::new();
    push_ascii(&mut body, "<html><body><h1>");
    push_dec(&mut body, status_code as u128);
    push_ascii(&mut body, " ");
    append_bytes(&mut body, text);
    push_ascii(&mut body, "</h1></body></html>");
    let mut out: Vec<u8> = Vec::new();
    push_ascii(&mut out, "HTTP/1.1 ");
    push_dec(&mut out, status_code as u128);
    push_ascii(&mut out, " ");
    append_bytes(&mut out, text);
    push_ascii(&mut out, "\r\nContent-Type: text/html; charset=utf-8\r\nContent-Length: ");
    push_dec(&mut out, body.len() as u128);
    push_ascii(&mut out, "\r\nConnection: close\r\n\r\n");
    append_bytes(&mut out, body.as_slice());
    proof {
        assert(body@ =~= simple_body_spec(status_code, status_text.spec_bytes()));
        assert(out@ =~= simple_response_spec(status_code, status_text.spec_bytes()));
    }
    out
}

/// Why a request could not be read.
#[derive(PartialEq, Eq, Structural, Clone, Copy, Debug)]
pub enum ReadFailure {
    /// The head could not be read: it outgrew its limit or reading failed.
    HeadUnreadable,
    /// The head did not arrive in time.
    HeadTimedOut,
    /// The head has no blank line ending it.
    NoHeadEnd,
    /// The announced body is over the limit, or reading it failed.
    BodyRefused,
    /// The body did not arrive in time.
    BodyTimedOut,
}

/// The response written before closing a connection whose request could
/// not be read: 400 for a head that cannot be read or has no end, 408 for
/// a timeout, 413 for a refused body.
pub fn failure_response(failure: ReadFailure) -> (r: Vec<u8>)
    ensures
        failure == ReadFailure::HeadUnreadable ==> r@ == simple_response_spec(400, "Bad Request".spec_bytes()),
        failure == ReadFailure::NoHeadEnd ==> r@ == simple_response_spec(400, "Bad Request".spec_bytes()),
        failure == ReadFailure::HeadTimedOut ==> r@ == simple_response_spec(408, "Request Timeout".spec_bytes()),
        failure == ReadFailure::BodyTimedOut ==> r@ == simple_response_spec(408, "Request Timeout".spec_bytes()),
        failure == ReadFailure::BodyRefused ==> r@ == simple_response_spec(413, "Payload Too Large".spec_bytes()),
{
    match failure {
        ReadFailure::HeadUnreadable => simple_response(400, "Bad Request"),
        ReadFailure::NoHeadEnd => simple_response(400, "Bad Request"),
        ReadFailure::HeadTimedOut => simple_response(408, "Request Timeout"),
        ReadFailure::BodyTimedOut => simple_response(408, "Request Timeout"),
        ReadFailure::BodyRefused => simple_response(413, "Payload Too Large"),
    }
}

/// Body of the answer to a connection over the limit.
pub open spec fn busy_body() -> Seq<u8> {
    ascii_bytes("<html><body><h1>503 Service Unavailable</h1><p>Too many connections.</p></body></html>"@)
}

/// The answer to a connection over the limit: a 503 head announcing the
/// body's length, then the body.
pub open spec fn service_unavailable_spec() -> Seq<u8> {
    ascii_bytes(
        "HTTP/1.1 503 Service Unavailable\r\nContent-Type: text/html; charset=utf-8\r\nContent-Length: "@,
    ) + ascii_bytes(dec_chars(busy_body().len())) + ascii_bytes("\r\nConnection: close\r\n\r\n"@)
        + busy_body()
}

/// The bytes written to a connection refused for being over the limit.
pub fn service_unavailable_response() -> (r: Vec<u8>)
    ensures
        r@ == service_unavailable_spec(),
{
    proof {
        reveal_strlit("<html><body><h1>503 Service Unavailable</h1><p>Too many connections.</p></body></html>");
        reveal_strlit("HTTP/1.1 503 Service Unavailable\r\nContent-Type: text/html; charset=utf-8\r\nContent-Length: ");
        reveal_strlit("\r\nConnection: close\r\n\r\n");
    }
    let mut body: Vec<u8> = Vec::new();
    push_ascii(&mut body, "<html><body><h1>503 Service Unavailable</h1><p>Too many connections.</p></body></html>");
    let mut out: Vec<u8> = Vec::new();
    push_ascii(
        &mut out,
        "HTTP/1.1 503 Service Unavailable\r\nContent-Type: text/html; charset=utf-8\r\nContent-Length: ",
    );
    push_dec(&mut out, body.len() as u128);
    push_ascii(&mut out, "\r\nConnection: close\r\n\r\n");
    append_bytes(&mut out, body.as_slice());
    out
}

// ───────────── connection limit ─────────────

/// Counts the connections being served and admits a new one only while the
/// count stays within the limit.
pub struct ConnectionGate {
    active: i64,
    max: i64,
}

impl ConnectionGate {
    /// Connections being served.
    pub closed spec fn active(&self) -> int {
        self.active as int
    }

    /// The limit.
    pub closed spec fn max(&self) -> int {
        self.max as int
    }

    /// A gate with no connection and the given limit.
    pub fn new(max_connections: i64) -> (r: Self)
        ensures
            r.active() == 0,
            r.max() == max_connections,
    {
        ConnectionGate { active: 0, max: max_connections }
    }

    /// Connections being served.
    pub fn active_count(&self) -> (r: i64)
        ensures
            r == self.active(),
    {
        self.active
    }

    /// Counts a new connection if that keeps the count within the limit.
    pub fn try_admit(&mut self) -> (r: bool)
        requires
            old(self).active() < i64::MAX,
        ensures
            final(self).max() == old(self).max(),
            r == (old(self).active() + 1 <= old(self).max()),
            r ==> final(self).active() == old(self).active() + 1,
            !r ==> final(self).active() == old(self).active(),
            0 <= old(self).active() <= old(self).max() ==> 0 <= final(self).active() <= final(self).max(),
    {
        let current = self.active + 1;
        if current > self.max {
            return false;
        }
        self.active = current;
        true
    }

    /// Uncounts a connection that ended (wrapping like an atomic counter).
    pub fn release(&mut self)
        ensures
            final(self).max() == old(self).max(),
            final(self).active() == (old(self).active() as i64).wrapping_sub(1),
            old(self).active() > 0 ==> final(self).active() == old(self).active() - 1,
    {
        self.active = self.active.wrapping_sub(1);
    }
}

} // verus!
