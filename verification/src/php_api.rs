//! What the PHP-facing calls decide around the handlers: the response sent
//! when the HTTP handler gives none, and the statistics handed to PHP.

use vstd::prelude::*;
use vstd::string::StringSliceAdditionalSpecFns;
use vstd::utf8::encode_utf8;
use crate::text::{dec_chars, dec_string};
use crate::stats::{snapshot, snapshot_spec, stats_view};
use crate::websocket::Hub;

verus! {

/// The page sent when there is no HTTP handler, it failed, or it returned
/// no string. Its `Content-Length` is the byte length of its body: the 75
/// bytes of the fixed text plus those of the path.
pub open spec fn default_page_spec(path: Seq<char>) -> Seq<char> {
    "HTTP/1.1 200 OK\r\nContent-Type: text/html; charset=utf-8\r\nContent-Length: "@ + dec_chars(
        (75 + encode_utf8(path).len()) as nat,
    ) + "\r\nConnection: close\r\n\r\n<!doctype html><title>lychee-worker</title><h1>lychee-worker "@
        + path + "</h1><p>OK</p>"@
}

/// The page for `path` when no handler answered.
pub fn default_page(path: &str) -> (r: String)
    ensures
        r@ == default_page_spec(path@),
{
    let n = path.as_bytes().len() as u128;
    let mut out = String::from_str("HTTP/1.1 200 OK\r\nContent-Type: text/html; charset=utf-8\r\nContent-Length: ");
    let len_text = dec_string(75 + n);
    out.append(len_text.as_str());
    out.append("\r\nConnection: close\r\n\r\n<!doctype html><title>lychee-worker</title><h1>lychee-worker ");
    out.append(path);
    out.append("</h1><p>OK</p>");
    out
}

/// The response of an HTTP request: the string the handler returned, or
/// the default page when it returned none (no handler, a failed call, or a
/// result that is not a string).
pub fn http_response(handler_result: Option<String>, path: &str) -> (r: String)
    ensures
        handler_result matches Some(s) ==> r@ == s@,
        handler_result is None ==> r@ == default_page_spec(path@),
{
    match handler_result {
        Some(s) => s,
        None => default_page(path),
    }
}

/// The runtime statistics handed to PHP as key/value pairs (see
/// `snapshot`).
pub fn stats(hub: &Hub, rss_kb: Option<i64>) -> (r: Vec<(String, i64)>)
    ensures
        stats_view(r@) == snapshot_spec(
            hub.connections().len() as int,
            hub.ws_count(),
            hub.request_count(),
            hub.rooms().dom().len() as int,
            rss_kb,
        ),
{
    snapshot(hub, rss_kb)
}

} // verus!
