//! Runtime statistics: the counters of a worker as key/value pairs, and the
//! resident memory figure read from the kernel's process status text.

use vstd::prelude::*;
use crate::text::{
    all_digits, chars_vec, digits_value, is_digit, is_ws, char_is_ws, starts_with, starts_with_chars,
    trim, trim_bounds,
};
use crate::websocket::Hub;

verus! {

// ───────────── the snapshot ─────────────

/// Key/value pairs by their text.
pub open spec fn stats_view(v: Seq<(String, i64)>) -> Seq<(Seq<char>, i64)> {
    Seq::new(v.len(), |i: int| (v[i].0@, v[i].1))
}

/// The statistics of a worker: open connections, the WebSocket and request
/// counters, the number of rooms, and the resident memory in KB when known.
pub open spec fn snapshot_spec(connections: int, ws: i64, requests: i64, rooms: int, rss_kb: Option<i64>) -> Seq<
    (Seq<char>, i64),
> {
    seq![
        ("connections"@, connections as i64),
        ("ws"@, ws),
        ("requests"@, requests),
        ("rooms"@, rooms as i64),
    ] + match rss_kb {
        Some(kb) => seq![("memory_rss_kb"@, kb)],
        None => Seq::empty(),
    }
}

/// The statistics of `hub`, with the resident memory that the caller read
/// (none where the platform gives no figure).
pub fn snapshot(hub: &Hub, rss_kb: Option<i64>) -> (r: Vec<(String, i64)>)
    ensures
        stats_view(r@) == snapshot_spec(
            hub.connections().len() as int,
            hub.ws_count(),
            hub.request_count(),
            hub.rooms().dom().len() as int,
            rss_kb,
        ),
{
    let conn_len = hub.connection_count() as i64;
    let room_len = hub.room_total() as i64;
    let mut out: Vec<(String, i64)> = Vec::new();
    out.push((String::from_str("connections"), conn_len));
    out.push((String::from_str("ws"), hub.ws_counter()));
    out.push((String::from_str("requests"), hub.request_counter()));
    out.push((String::from_str("rooms"), room_len));
    match rss_kb {
        Some(kb) => {
            out.push((String::from_str("memory_rss_kb"), kb));
        },
        None => {},
    }
    proof {
        assert(stats_view(out@) =~= snapshot_spec(
            hub.connections().len() as int,
            hub.ws_count(),
            hub.request_count(),
            hub.rooms().dom().len() as int,
            rss_kb,
        ));
    }
    out
}

// ───────────── resident memory ─────────────

/// `c` is an ASCII letter or white space.
pub open spec fn is_unit_char(c: char) -> bool {
    ('a' <= c <= 'z') || ('A' <= c <= 'Z') || is_ws(c)
}

/// `s` without its trailing letters and white space (the unit after a
/// number).
pub open spec fn trim_end_units(s: Seq<char>) -> Seq<char>
    decreases s.len(),
{
    if s.len() > 0 && is_unit_char(s.last()) {
        trim_end_units(s.drop_last())
    } else {
        s
    }
}

/// A run of decimal digits with a sign, when it is non-empty and its value
/// is in the range of `i64`.
pub open spec fn signed_value(neg: bool, d: Seq<char>) -> Option<int> {
    if d.len() > 0 && all_digits(d) && (if neg {
        digits_value(d) <= 0x8000_0000_0000_0000
    } else {
        digits_value(d) <= 0x7fff_ffff_ffff_ffff
    }) {
        Some(
            if neg {
                -(digits_value(d) as int)
            } else {
                digits_value(d) as int
            },
        )
    } else {
        None
    }
}

/// `s` parsed as `i64` the way `str::parse::<i64>` does: an optional sign,
/// then at least one decimal digit, with a value in range.
pub open spec fn parse_i64(s: Seq<char>) -> Option<int> {
    if s.len() > 0 && s[0] == '-' {
        signed_value(true, s.drop_first())
    } else if s.len() > 0 && s[0] == '+' {
        signed_value(false, s.drop_first())
    } else {
        signed_value(false, s)
    }
}

/// The figure on a `VmRSS:` line: what follows the label, trimmed, without
/// its unit, trimmed again, as a number.
pub open spec fn rss_line_value(line: Seq<char>) -> Option<int> {
    parse_i64(trim(trim_end_units(trim(line.skip(6)))))
}

/// The resident memory in the status lines: the value on the first line
/// that starts with `VmRSS:`, none where there is no such line or its value
/// does not parse.
pub open spec fn vm_rss_spec(lines: Seq<Seq<char>>) -> Option<int>
    decreases lines.len(),
{
    if lines.len() == 0 {
        None
    } else if starts_with(lines[0], "VmRSS:"@) {
        rss_line_value(lines[0])
    } else {
        vm_rss_spec(lines.drop_first())
    }
}

proof fn lemma_digits_value_prefix(s: Seq<char>, i: int)
    requires
        0 <= i <= s.len(),
        all_digits(s),
    ensures
        digits_value(s.take(i)) <= digits_value(s),
    decreases s.len() - i,
{
    if i < s.len() {
        assert(s.drop_last().take(i) =~= s.take(i));
        assert(all_digits(s.drop_last())) by {
            assert forall|k: int| 0 <= k < s.drop_last().len() implies is_digit(#[trigger] s.drop_last()[k]) by {
                assert(s.drop_last()[k] == s[k]);
            }
        }
        lemma_digits_value_prefix(s.drop_last(), i);
    } else {
        assert(s.take(i) =~= s);
    }
}

/// Parses the characters `a..b` of `v` as `i64` (see `parse_i64`).
pub fn parse_i64_range(v: &Vec<char>, a: usize, b: usize) -> (r: Option<i64>)
    requires
        a <= b <= v@.len(),
    ensures
        r == (match parse_i64(v@.subrange(a as int, b as int)) {
            Some(n) => Some(n as i64),
            None => None::<i64>,
        }),
{
    let ghost s = v@.subrange(a as int, b as int);
    let mut i = a;
    let neg = i < b && v[i] == '-';
    if i < b && (v[i] == '-' || v[i] == '+') {
        i = i + 1;
    }
    let ghost d = v@.subrange(i as int, b as int);
    proof {
        if s.len() > 0 && (s[0] == '-' || s[0] == '+') {
            assert(s.drop_first() =~= d);
        } else {
            assert(s =~= d);
        }
        assert(parse_i64(s) == signed_value(neg, d));
    }
    if i == b {
        return None;
    }
    let mut k = i;
    while k < b
        invariant
            a <= i <= k <= b <= v@.len(),
            d == v@.subrange(i as int, b as int),
            parse_i64(v@.subrange(a as int, b as int)) == signed_value(neg, d),
            forall|j: int| i <= j < k ==> is_digit(v@[j]),
        decreases b - k,
    {
        if !('0' <= v[k] && v[k] <= '9') {
            assert(d[k - i] == v@[k as int]);
            assert(!all_digits(d));
            return None;
        }
        k = k + 1;
    }
    assert(all_digits(d)) by {
        assert forall|j: int| 0 <= j < d.len() implies is_digit(#[trigger] d[j]) by {
            assert(d[j] == v@[i + j]);
        }
    }
    let mut acc: u64 = 0;
    let mut k = i;
    while k < b
        invariant
            a <= i <= k <= b <= v@.len(),
            d == v@.subrange(i as int, b as int),
            parse_i64(v@.subrange(a as int, b as int)) == signed_value(neg, d),
            all_digits(d),
            d.len() > 0,
            acc == digits_value(d.take(k - i)),
        decreases b - k,
    {
        proof {
            assert(d[k - i] == v@[k as int]);
            assert(is_digit(d[k - i]));
        }
        let dig = ((v[k] as u32) - 48) as u64;
        proof {
            assert(d.take(k - i + 1).drop_last() =~= d.take(k - i));
            assert(d.take(k - i + 1).last() == d[k - i]);
        }
        match acc.checked_mul(10) {
            Some(m) => match m.checked_add(dig) {
                Some(x) => {
                    acc = x;
                },
                None => {
                    proof {
                        lemma_digits_value_prefix(d, k - i + 1);
                    }
                    return None;
                },
            },
            None => {
                proof {
                    lemma_digits_value_prefix(d, k - i + 1);
                }
                return None;
            },
        }
        k = k + 1;
    }
    proof {
        assert(d.take(b - i) =~= d);
    }
    if neg {
        if acc <= 0x8000_0000_0000_0000 {
            if acc == 0x8000_0000_0000_0000 {
                Some(i64::MIN)
            } else {
                Some(-(acc as i64))
            }
        } else {
            None
        }
    } else if acc <= 0x7fff_ffff_ffff_ffff {
        Some(acc as i64)
    } else {
        None
    }
}

/// Whether `c` is an ASCII letter or white space.
fn unit_char(c: char) -> (r: bool)
    ensures
        r == is_unit_char(c),
{
    ('a' <= c && c <= 'z') || ('A' <= c && c <= 'Z') || char_is_ws(c)
}

proof fn lemma_trim_end_units_take(s: Seq<char>, b: int)
    requires
        0 <= b <= s.len(),
        forall|k: int| b <= k < s.len() ==> is_unit_char(s[k]),
    ensures
        trim_end_units(s) == trim_end_units(s.take(b)),
    decreases s.len() - b,
{
    if b < s.len() {
        lemma_trim_end_units_take(s.drop_last(), b);
        assert(s.drop_last().take(b) =~= s.take(b));
    } else {
        assert(s.take(b) =~= s);
    }
}

/// The figure on one `VmRSS:` line (see `rss_line_value`).
pub fn rss_line_kb(line: &str) -> (r: Option<i64>)
    requires
        line@.len() >= 6,
    ensures
        r == (match rss_line_value(line@) {
            Some(n) => Some(n as i64),
            None => None::<i64>,
        }),
{
    let v = chars_vec(line);
    let n = v.len();
    let (a1, b1) = trim_bounds(&v, 6, n);
    let mut b2 = b1;
    while b2 > a1 && unit_char(v[b2 - 1])
        invariant
            6 <= a1 <= b2 <= b1 <= n,
            n == v@.len(),
            forall|k: int| b2 <= k < b1 ==> is_unit_char(v@[k]),
        decreases b2 - a1,
    {
        b2 = b2 - 1;
    }
    let ghost t1 = v@.subrange(a1 as int, b1 as int);
    proof {
        assert(v@.subrange(6, n as int) =~= line@.skip(6));
        lemma_trim_end_units_take(t1, b2 - a1);
        assert(t1.take(b2 - a1) =~= v@.subrange(a1 as int, b2 as int));
        let u = v@.subrange(a1 as int, b2 as int);
        if u.len() > 0 {
            assert(!is_unit_char(u.last()));
        }
        assert(trim_end_units(u) == u);
    }
    let (a3, b3) = trim_bounds(&v, a1, b2);
    parse_i64_range(&v, a3, b3)
}

/// The resident memory in KB from the lines of the process status text
/// (see `vm_rss_spec`).
pub fn vm_rss_kb(lines: &Vec<String>) -> (r: Option<i64>)
    ensures
        r == (match vm_rss_spec(crate::runtime::strings_view(lines@)) {
            Some(n) => Some(n as i64),
            None => None::<i64>,
        }),
{
    proof {
        reveal_strlit("VmRSS:");
    }
    let label = chars_vec("VmRSS:");
    let ghost ls = crate::runtime::strings_view(lines@);
    proof {
        assert(ls.skip(0) =~= ls);
    }
    let mut i: usize = 0;
    while i < lines.len()
        invariant
            i <= lines@.len(),
            ls == crate::runtime::strings_view(lines@),
            label@ == "VmRSS:"@,
            "VmRSS:"@.len() == 6,
            vm_rss_spec(ls) == vm_rss_spec(ls.skip(i as int)),
        decreases lines@.len() - i,
    {
        let lv = chars_vec(lines[i].as_str());
        let ghost rest = ls.skip(i as int);
        proof {
            assert(rest[0] == lines@[i as int]@);
            assert(rest.drop_first() =~= ls.skip(i + 1));
        }
        if starts_with_chars(&lv, &label) {
            return rss_line_kb(lines[i].as_str());
        }
        i = i + 1;
    }
    proof {
        assert(ls.skip(i as int).len() == 0);
    }
    None
}

} // verus!
