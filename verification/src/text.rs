//! Byte and character helpers shared by the protocol modules: searching,
//! line splitting, ASCII case folding, whitespace trimming and number
//! formatting, each with the sequence-level definition it computes.

use vstd::prelude::*;
use vstd::utf8::*;
use vstd::std_specs::iter::IteratorSpec;

verus! {

broadcast use vstd::utf8::group_utf8_lib;

// ───────────── searching ─────────────

/// `k` is the first position of `x` in `s`.
pub open spec fn is_first_index<T>(s: Seq<T>, x: T, k: int) -> bool {
    &&& 0 <= k < s.len()
    &&& s[k] == x
    &&& forall|m: int| 0 <= m < k ==> s[m] != x
}

/// The first position of `x` in `s`, or `s.len()` when `x` does not occur.
pub open spec fn first_index<T>(s: Seq<T>, x: T) -> int {
    if exists|k: int| is_first_index(s, x, k) {
        choose|k: int| is_first_index(s, x, k)
    } else {
        s.len() as int
    }
}

pub proof fn lemma_first_index_found<T>(s: Seq<T>, x: T, k: int)
    requires
        0 <= k < s.len(),
        s[k] == x,
        forall|m: int| 0 <= m < k ==> s[m] != x,
    ensures
        first_index(s, x) == k,
{
    assert(is_first_index(s, x, k));
    let j = choose|j: int| is_first_index(s, x, j);
    assert(is_first_index(s, x, j));
    if j < k {
        assert(s[j] != x);
    }
    if k < j {
        assert(s[k] != x);
    }
}

pub proof fn lemma_first_index_absent<T>(s: Seq<T>, x: T)
    requires
        forall|m: int| 0 <= m < s.len() ==> s[m] != x,
    ensures
        first_index(s, x) == s.len(),
{
    if exists|k: int| is_first_index(s, x, k) {
        let k = choose|k: int| is_first_index(s, x, k);
        assert(s[k] != x);
    }
}

pub proof fn lemma_first_index_range<T>(s: Seq<T>, x: T)
    ensures
        0 <= first_index(s, x) <= s.len(),
        first_index(s, x) < s.len() ==> is_first_index(s, x, first_index(s, x)),
        forall|m: int| 0 <= m < first_index(s, x) ==> s[m] != x,
{
    if exists|k: int| is_first_index(s, x, k) {
        let k = choose|k: int| is_first_index(s, x, k);
        assert(is_first_index(s, x, k));
    } else {
        assert forall|m: int| 0 <= m < s.len() implies s[m] != x by {
            if s[m] == x {
                // the first occurrence at or before m is a witness
                lemma_exists_first(s, x, m);
            }
        }
    }
}

proof fn lemma_exists_first<T>(s: Seq<T>, x: T, m: int)
    requires
        0 <= m < s.len(),
        s[m] == x,
    ensures
        exists|k: int| is_first_index(s, x, k),
    decreases m,
{
    if forall|j: int| 0 <= j < m ==> s[j] != x {
        assert(is_first_index(s, x, m));
    } else {
        let j = choose|j: int| 0 <= j < m && s[j] == x;
        lemma_exists_first(s, x, j);
    }
}

/// Splits `s` at every occurrence of `x`; `n` separators give `n + 1`
/// pieces, and an empty sequence gives one empty piece.
pub open spec fn split_on<T>(s: Seq<T>, x: T) -> Seq<Seq<T>>
    decreases s.len(),
{
    let k = first_index(s, x);
    if 0 <= k < s.len() {
        seq![s.take(k)] + split_on(s.skip(k + 1), x)
    } else {
        seq![s]
    }
}

/// One step of `split_on` at a found separator.
pub proof fn lemma_split_on_step<T>(s: Seq<T>, x: T, k: int)
    requires
        is_first_index(s, x, k),
    ensures
        split_on(s, x) == seq![s.take(k)] + split_on(s.skip(k + 1), x),
{
    lemma_first_index_found(s, x, k);
}

/// `split_on` of a sequence without separator.
pub proof fn lemma_split_on_last<T>(s: Seq<T>, x: T)
    requires
        forall|m: int| 0 <= m < s.len() ==> s[m] != x,
    ensures
        split_on(s, x) == seq![s],
{
    lemma_first_index_absent(s, x);
}

/// Exclusive position of the next `x` in `s` at or after `from`, or `s.len()`.
pub fn find_byte(s: &[u8], from: usize, x: u8) -> (r: usize)
    requires
        from <= s@.len(),
    ensures
        from <= r <= s@.len(),
        r < s@.len() ==> s@[r as int] == x,
        forall|m: int| from <= m < r ==> s@[m] != x,
        r - from == first_index(s@.skip(from as int), x),
{
    let mut i = from;
    while i < s.len()
        invariant
            from <= i <= s@.len(),
            forall|m: int| from <= m < i ==> s@[m] != x,
        decreases s@.len() - i,
    {
        if s[i] == x {
            proof {
                lemma_first_index_found(s@.skip(from as int), x, i - from);
            }
            return i;
        }
        i = i + 1;
    }
    proof {
        lemma_first_index_absent(s@.skip(from as int), x);
    }
    i
}

/// `pat` occurs in `s` at position `k`.
pub open spec fn occurs_at<T>(s: Seq<T>, pat: Seq<T>, k: int) -> bool {
    0 <= k && k + pat.len() <= s.len() && s.subrange(k, k + pat.len()) == pat
}

/// `pat` occurs somewhere in `s`.
pub open spec fn contains_seq<T>(s: Seq<T>, pat: Seq<T>) -> bool {
    exists|k: int| occurs_at(s, pat, k)
}

/// `s` begins with `pat`.
pub open spec fn starts_with<T>(s: Seq<T>, pat: Seq<T>) -> bool {
    pat.len() <= s.len() && s.take(pat.len() as int) == pat
}

// ───────────── ASCII ─────────────

/// The bytes of an ASCII character sequence.
pub open spec fn ascii_bytes(s: Seq<char>) -> Seq<u8> {
    Seq::new(s.len(), |i: int| s[i] as u8)
}

/// ASCII lower-casing of one byte; other bytes are kept.
pub open spec fn lower_byte(b: u8) -> u8 {
    if 65 <= b <= 90 {
        (b + 32) as u8
    } else {
        b
    }
}

/// ASCII lower-casing of a byte sequence.
pub open spec fn lower_bytes(s: Seq<u8>) -> Seq<u8> {
    Seq::new(s.len(), |i: int| lower_byte(s[i]))
}

pub fn to_lower_byte(b: u8) -> (r: u8)
    ensures
        r == lower_byte(b),
{
    if 65 <= b && b <= 90 {
        b + 32
    } else {
        b
    }
}

/// The bytes of an ASCII string slice.
pub fn ascii_str_bytes(s: &str) -> (r: &[u8])
    requires
        is_ascii_chars(s@),
    ensures
        r@ == ascii_bytes(s@),
{
    let b = s.as_bytes();
    proof {
        is_ascii_chars_encode_utf8(s@);
        assert(b@ =~= ascii_bytes(s@));
    }
    b
}

/// Whether `pat` occurs in the ASCII-lower-cased bytes `s[start..end]`.
pub fn contains_lowered(s: &[u8], start: usize, end: usize, pat: &[u8]) -> (r: bool)
    requires
        start <= end <= s@.len(),
    ensures
        r == contains_seq(lower_bytes(s@.subrange(start as int, end as int)), pat@),
{
    let ghost low = lower_bytes(s@.subrange(start as int, end as int));
    let n = end - start;
    let m = pat.len();
    if m > n {
        proof {
            assert forall|k: int| !occurs_at(low, pat@, k) by {}
        }
        return false;
    }
    if m == 0 {
        proof {
            assert(low.subrange(0, 0) =~= pat@);
            assert(occurs_at(low, pat@, 0));
        }
        return true;
    }
    let mut k: usize = 0;
    while k <= n - m
        invariant
            n == end - start,
            m == pat@.len(),
            0 < m <= n,
            start <= end <= s@.len(),
            low == lower_bytes(s@.subrange(start as int, end as int)),
            low.len() == n,
            0 <= k <= n - m + 1,
            forall|j: int| 0 <= j < k ==> !occurs_at(low, pat@, j),
        decreases n - m + 1 - k,
    {
        let mut j: usize = 0;
        let mut ok = true;
        while j < m
            invariant
                n == end - start,
                m == pat@.len(),
                m <= n,
                k <= n - m,
                start <= end <= s@.len(),
                low == lower_bytes(s@.subrange(start as int, end as int)),
                0 <= j <= m,
                ok ==> forall|t: int| 0 <= t < j ==> low[k + t] == pat@[t],
                !ok ==> !occurs_at(low, pat@, k as int),
            decreases m - j,
        {
            if to_lower_byte(s[start + k + j]) != pat[j] {
                ok = false;
                proof {
                    assert(low.subrange(k as int, k + m)[j as int] != pat@[j as int]);
                }
            }
            j = j + 1;
        }
        if ok {
            proof {
                assert(low.subrange(k as int, k + m) =~= pat@);
                assert(occurs_at(low, pat@, k as int));
            }
            return true;
        }
        k = k + 1;
    }
    proof {
        assert forall|j: int| !occurs_at(low, pat@, j) by {
            if 0 <= j < k {
            } else if j >= k {
                assert(j + m > n);
            }
        }
    }
    false
}

/// Whether the ASCII-lower-cased bytes `s[start..end]` begin with `pat`.
pub fn starts_with_lowered(s: &[u8], start: usize, end: usize, pat: &[u8]) -> (r: bool)
    requires
        start <= end <= s@.len(),
    ensures
        r == starts_with(lower_bytes(s@.subrange(start as int, end as int)), pat@),
{
    let ghost low = lower_bytes(s@.subrange(start as int, end as int));
    let m = pat.len();
    if m > end - start {
        return false;
    }
    let mut j: usize = 0;
    while j < m
        invariant
            m == pat@.len(),
            m <= end - start,
            start <= end <= s@.len(),
            low == lower_bytes(s@.subrange(start as int, end as int)),
            0 <= j <= m,
            forall|t: int| 0 <= t < j ==> low[t] == pat@[t],
        decreases m - j,
    {
        if to_lower_byte(s[start + j]) != pat[j] {
            proof {
                assert(low.take(m as int)[j as int] != pat@[j as int]);
            }
            return false;
        }
        j = j + 1;
    }
    proof {
        assert(low.take(m as int) =~= pat@);
    }
    true
}

} // verus!

verus! {

// ───────────── text of a string ─────────────

/// The characters of a string slice, one per element.
pub fn chars_vec(s: &str) -> (r: Vec<char>)
    ensures
        r@ == s@,
{
    broadcast use vstd::string::group_string_axioms, vstd::string::next_postcondition;
    let mut out: Vec<char> = Vec::new();
    for c in it: s.chars()
        invariant
            out@.len() == it.index(),
            forall|j: int| 0 <= j < out@.len() ==> out@[j] == it.seq()[j],
    {
        out.push(c);
    }
    proof {
        assert(out@ =~= s@);
    }
    out
}

} // verus!

verus! {

// ───────────── ASCII text ─────────────

/// The characters of ASCII bytes.
pub open spec fn ascii_chars(b: Seq<u8>) -> Seq<char> {
    Seq::new(b.len(), |i: int| b[i] as char)
}

/// A `String` holding ASCII bytes as text.
pub fn ascii_string(bytes: &[u8]) -> (r: String)
    requires
        forall|i: int| 0 <= i < bytes@.len() ==> bytes@[i] < 128,
    ensures
        r@ == ascii_chars(bytes@),
{
    let ghost c = ascii_chars(bytes@);
    proof {
        assert(is_ascii_chars(c));
        is_ascii_chars_encode_utf8(c);
        assert(encode_utf8(c) =~= bytes@);
    }
    match crate::bridges::utf8_str(bytes) {
        Some(s) => {
            proof {
                assert(decode_utf8(encode_utf8(s@)) == s@);
            }
            String::from_str(s)
        },
        None => {
            proof {
                assert(false);
            }
            String::new()
        },
    }
}

// ───────────── numbers ─────────────

/// The decimal digit character for `d < 10`.
pub open spec fn digit_char(d: nat) -> char {
    (48 + d) as char
}

/// Decimal notation of a natural number, without leading zeros.
pub open spec fn dec_chars(n: nat) -> Seq<char>
    decreases n,
{
    if n < 10 {
        seq![digit_char(n)]
    } else {
        dec_chars(n / 10).push(digit_char(n % 10))
    }
}

/// The lower-case hexadecimal digit character for `d < 16`.
pub open spec fn hex_digit_char(d: nat) -> char {
    if d < 10 {
        (48 + d) as char
    } else {
        (87 + d) as char
    }
}

/// Lower-case hexadecimal notation of a natural number, without leading zeros.
pub open spec fn hex_chars(n: nat) -> Seq<char>
    decreases n,
{
    if n < 16 {
        seq![hex_digit_char(n)]
    } else {
        hex_chars(n / 16).push(hex_digit_char(n % 16))
    }
}

pub proof fn lemma_dec_chars_ascii(n: nat)
    ensures
        dec_chars(n).len() >= 1,
        forall|i: int| 0 <= i < dec_chars(n).len() ==> '0' <= #[trigger] dec_chars(n)[i] <= '9',
    decreases n,
{
    if n >= 10 {
        lemma_dec_chars_ascii(n / 10);
    }
}

/// Appends the decimal notation of `n` to a byte buffer.
pub fn push_dec(buf: &mut Vec<u8>, n: u128)
    ensures
        final(buf)@ == old(buf)@ + ascii_bytes(dec_chars(n as nat)),
    decreases n,
{
    if n >= 10 {
        push_dec(buf, n / 10);
    }
    let d = (n % 10) as u8;
    buf.push(48 + d);
    proof {
        if n >= 10 {
            assert(ascii_bytes(dec_chars(n as nat)) =~= ascii_bytes(dec_chars((n / 10) as nat)).push((48 + d) as u8));
        } else {
            assert(ascii_bytes(dec_chars(n as nat)) =~= seq![(48 + d) as u8]);
        }
    }
}

/// Appends the lower-case hexadecimal notation of `n` to a byte buffer.
pub fn push_hex(buf: &mut Vec<u8>, n: u128)
    ensures
        final(buf)@ == old(buf)@ + ascii_bytes(hex_chars(n as nat)),
    decreases n,
{
    if n >= 16 {
        push_hex(buf, n / 16);
    }
    let d = (n % 16) as u8;
    let c: u8 = if d < 10 { 48 + d } else { 87 + d };
    buf.push(c);
    proof {
        assert(c == hex_digit_char(d as nat) as u8);
        if n >= 16 {
            assert(ascii_bytes(hex_chars(n as nat)) =~= ascii_bytes(hex_chars((n / 16) as nat)).push(c));
        } else {
            assert(ascii_bytes(hex_chars(n as nat)) =~= seq![c]);
        }
    }
}

/// Decimal notation of `n` as a `String`.
pub fn dec_string(n: u128) -> (r: String)
    ensures
        r@ == dec_chars(n as nat),
{
    let mut buf: Vec<u8> = Vec::new();
    push_dec(&mut buf, n);
    proof {
        lemma_dec_chars_ascii(n as nat);
        assert forall|i: int| 0 <= i < buf@.len() implies buf@[i] < 128 by {
            assert(dec_chars(n as nat)[i] <= '9');
        }
    }
    let r = ascii_string(buf.as_slice());
    proof {
        assert(ascii_chars(buf@) =~= dec_chars(n as nat)) by {
            assert forall|i: int| 0 <= i < buf@.len() implies ascii_chars(buf@)[i] == dec_chars(n as nat)[i] by {
                assert('0' <= dec_chars(n as nat)[i] <= '9');
            }
        }
    }
    r
}

} // verus!

verus! {

// ───────────── Unicode white space ─────────────

/// The characters with the Unicode `White_Space` property, which
/// `char::is_whitespace` tests.
pub open spec fn is_ws(c: char) -> bool {
    let v = c as u32;
    ||| (0x09 <= v <= 0x0D)
    ||| v == 0x20
    ||| v == 0x85
    ||| v == 0xA0
    ||| v == 0x1680
    ||| (0x2000 <= v <= 0x200A)
    ||| v == 0x2028
    ||| v == 0x2029
    ||| v == 0x202F
    ||| v == 0x205F
    ||| v == 0x3000
}

pub fn char_is_ws(c: char) -> (r: bool)
    ensures
        r == is_ws(c),
{
    let v = c as u32;
    (0x09 <= v && v <= 0x0D) || v == 0x20 || v == 0x85 || v == 0xA0 || v == 0x1680 || (0x2000 <= v
        && v <= 0x200A) || v == 0x2028 || v == 0x2029 || v == 0x202F || v == 0x205F || v == 0x3000
}

/// `s` without its leading white space.
pub open spec fn trim_start(s: Seq<char>) -> Seq<char>
    decreases s.len(),
{
    if s.len() > 0 && is_ws(s[0]) {
        trim_start(s.drop_first())
    } else {
        s
    }
}

/// `s` without its trailing white space.
pub open spec fn trim_end(s: Seq<char>) -> Seq<char>
    decreases s.len(),
{
    if s.len() > 0 && is_ws(s.last()) {
        trim_end(s.drop_last())
    } else {
        s
    }
}

/// `s` without leading and trailing white space, as `str::trim` gives it.
pub open spec fn trim(s: Seq<char>) -> Seq<char> {
    trim_end(trim_start(s))
}

pub proof fn lemma_trim_start_skip(s: Seq<char>, a: int)
    requires
        0 <= a <= s.len(),
        forall|k: int| 0 <= k < a ==> is_ws(s[k]),
    ensures
        trim_start(s) == trim_start(s.skip(a)),
    decreases a,
{
    if a > 0 {
        assert(s.skip(1) =~= s.drop_first());
        lemma_trim_start_skip(s.drop_first(), a - 1);
        assert(s.drop_first().skip(a - 1) =~= s.skip(a));
    } else {
        assert(s.skip(0) =~= s);
    }
}

pub proof fn lemma_trim_end_take(s: Seq<char>, b: int)
    requires
        0 <= b <= s.len(),
        forall|k: int| b <= k < s.len() ==> is_ws(s[k]),
    ensures
        trim_end(s) == trim_end(s.take(b)),
    decreases s.len() - b,
{
    if b < s.len() {
        assert(s.drop_last().len() == s.len() - 1);
        lemma_trim_end_take(s.drop_last(), b);
        assert(s.drop_last().take(b) =~= s.take(b));
    } else {
        assert(s.take(b) =~= s);
    }
}

/// Positions `a..b` of the trimmed part of `v`.
pub fn trim_bounds(v: &Vec<char>, from: usize, to: usize) -> (r: (usize, usize))
    requires
        from <= to <= v@.len(),
    ensures
        from <= r.0 <= r.1 <= to,
        v@.subrange(r.0 as int, r.1 as int) == trim(v@.subrange(from as int, to as int)),
{
    let ghost s = v@.subrange(from as int, to as int);
    let mut a = from;
    while a < to && char_is_ws(v[a])
        invariant
            from <= a <= to <= v@.len(),
            forall|k: int| from <= k < a ==> is_ws(v@[k]),
        decreases to - a,
    {
        a = a + 1;
    }
    proof {
        lemma_trim_start_skip(s, a - from);
        assert(s.skip(a - from) =~= v@.subrange(a as int, to as int));
        let t = v@.subrange(a as int, to as int);
        if t.len() > 0 {
            assert(!is_ws(t[0]));
        }
        assert(trim_start(t) == t);
    }
    let mut b = to;
    while b > a && char_is_ws(v[b - 1])
        invariant
            from <= a <= b <= to <= v@.len(),
            forall|k: int| b <= k < to ==> is_ws(v@[k]),
        decreases b - a,
    {
        b = b - 1;
    }
    proof {
        let t = v@.subrange(a as int, to as int);
        lemma_trim_end_take(t, b - a);
        assert(t.take(b - a) =~= v@.subrange(a as int, b as int));
        let u = v@.subrange(a as int, b as int);
        if u.len() > 0 {
            assert(!is_ws(u.last()));
        }
        assert(trim_end(u) == u);
    }
    (a, b)
}

} // verus!

verus! {

// ───────────── white-space separated words ─────────────

/// Length of the run of non-white-space characters that begins `s`.
pub open spec fn word_len(s: Seq<char>) -> nat
    decreases s.len(),
{
    if s.len() == 0 || is_ws(s[0]) {
        0
    } else {
        1 + word_len(s.drop_first())
    }
}

/// The words of `s`, as `str::split_whitespace` yields them.
pub open spec fn ws_tokens(s: Seq<char>) -> Seq<Seq<char>>
    decreases s.len(),
{
    if s.len() == 0 {
        Seq::empty()
    } else if is_ws(s[0]) {
        ws_tokens(s.drop_first())
    } else {
        proof {
            lemma_word_len_bound(s);
        }
        seq![s.take(word_len(s) as int)] + ws_tokens(s.skip(word_len(s) as int))
    }
}

pub proof fn lemma_word_len_bound(s: Seq<char>)
    ensures
        word_len(s) <= s.len(),
        s.len() > 0 && !is_ws(s[0]) ==> word_len(s) >= 1,
    decreases s.len(),
{
    if s.len() > 0 && !is_ws(s[0]) {
        lemma_word_len_bound(s.drop_first());
    }
}

proof fn lemma_word_len_exact(s: Seq<char>, b: int)
    requires
        0 <= b <= s.len(),
        forall|k: int| 0 <= k < b ==> !is_ws(s[k]),
        b == s.len() || is_ws(s[b]),
    ensures
        word_len(s) == b,
    decreases b,
{
    if b > 0 {
        lemma_word_len_exact(s.drop_first(), b - 1);
    }
}

proof fn lemma_tokens_skip_ws(s: Seq<char>, i: int, a: int)
    requires
        0 <= i <= a <= s.len(),
        forall|k: int| i <= k < a ==> is_ws(s[k]),
    ensures
        ws_tokens(s.skip(i)) == ws_tokens(s.skip(a)),
    decreases a - i,
{
    if i < a {
        assert(s.skip(i).drop_first() =~= s.skip(i + 1));
        lemma_tokens_skip_ws(s, i + 1, a);
    }
}

/// The next word of `v` at or after `from`: `(a, b)` with `a == v.len()`
/// when there is none.
pub fn next_word(v: &Vec<char>, from: usize) -> (r: (usize, usize))
    requires
        from <= v@.len(),
    ensures
        from <= r.0 <= r.1 <= v@.len(),
        r.0 == v@.len() ==> ws_tokens(v@.skip(from as int)) == Seq::<Seq<char>>::empty(),
        r.0 < v@.len() ==> ws_tokens(v@.skip(from as int)) == seq![v@.subrange(r.0 as int, r.1 as int)]
            + ws_tokens(v@.skip(r.1 as int)),
{
    let mut a = from;
    while a < v.len() && char_is_ws(v[a])
        invariant
            from <= a <= v@.len(),
            forall|k: int| from <= k < a ==> is_ws(v@[k]),
        decreases v@.len() - a,
    {
        a = a + 1;
    }
    proof {
        lemma_tokens_skip_ws(v@, from as int, a as int);
    }
    if a == v.len() {
        return (a, a);
    }
    let mut b = a;
    while b < v.len() && !char_is_ws(v[b])
        invariant
            a <= b <= v@.len(),
            forall|k: int| a <= k < b ==> !is_ws(v@[k]),
        decreases v@.len() - b,
    {
        b = b + 1;
    }
    proof {
        let t = v@.skip(a as int);
        lemma_word_len_exact(t, b - a);
        assert(t.take(b - a) =~= v@.subrange(a as int, b as int));
        assert(t.skip(b - a) =~= v@.skip(b as int));
    }
    (a, b)
}

/// A `String` holding the characters `a..b` of a string slice.
pub fn string_of_range(s: &str, a: usize, b: usize) -> (r: String)
    requires
        a <= b <= s@.len(),
    ensures
        r@ == s@.subrange(a as int, b as int),
{
    String::from_str(s.substring_char(a, b))
}

} // verus!

verus! {

// ───────────── CR LF separated pieces ─────────────

/// A carriage return followed by a line feed starts at `k`.
pub open spec fn crlf_at(s: Seq<char>, k: int) -> bool {
    0 <= k && k + 1 < s.len() && s[k] == '\r' && s[k + 1] == '\n'
}

/// `k` is the first position where a CR LF pair starts.
pub open spec fn is_first_crlf(s: Seq<char>, k: int) -> bool {
    crlf_at(s, k) && forall|m: int| 0 <= m < k ==> !crlf_at(s, m)
}

/// The first position where a CR LF pair starts, or `s.len()`.
pub open spec fn first_crlf(s: Seq<char>) -> int {
    if exists|k: int| is_first_crlf(s, k) {
        choose|k: int| is_first_crlf(s, k)
    } else {
        s.len() as int
    }
}

/// The pieces of `s` between CR LF pairs, as `str::split("\r\n")` yields them.
pub open spec fn split_crlf(s: Seq<char>) -> Seq<Seq<char>>
    decreases s.len(),
{
    let k = first_crlf(s);
    if 0 <= k && k + 1 < s.len() {
        seq![s.take(k)] + split_crlf(s.skip(k + 2))
    } else {
        seq![s]
    }
}

/// Pieces joined with CR LF, as `[&str]::join("\r\n")` gives them.
pub open spec fn join_crlf(ls: Seq<Seq<char>>) -> Seq<char>
    decreases ls.len(),
{
    if ls.len() == 0 {
        Seq::empty()
    } else if ls.len() == 1 {
        ls[0]
    } else {
        join_crlf(ls.drop_last()) + seq!['\r', '\n'] + ls.last()
    }
}

pub proof fn lemma_first_crlf_found(s: Seq<char>, k: int)
    requires
        is_first_crlf(s, k),
    ensures
        first_crlf(s) == k,
{
    let j = choose|j: int| is_first_crlf(s, j);
    assert(is_first_crlf(s, j));
    if j < k {
        assert(!crlf_at(s, j));
    }
    if k < j {
        assert(!crlf_at(s, k));
    }
}

pub proof fn lemma_first_crlf_absent(s: Seq<char>)
    requires
        forall|m: int| 0 <= m < s.len() ==> !crlf_at(s, m),
    ensures
        first_crlf(s) == s.len(),
{
    if exists|k: int| is_first_crlf(s, k) {
        let k = choose|k: int| is_first_crlf(s, k);
        assert(crlf_at(s, k));
    }
}

/// Only white space: `str::trim` leaves nothing.
pub open spec fn is_blank(s: Seq<char>) -> bool {
    trim(s).len() == 0
}

proof fn lemma_trim_end_keeps_nonws_first(t: Seq<char>)
    requires
        t.len() > 0,
        !is_ws(t[0]),
    ensures
        trim_end(t).len() > 0,
    decreases t.len(),
{
    if t.len() > 1 && is_ws(t.last()) {
        lemma_trim_end_keeps_nonws_first(t.drop_last());
    }
}

/// A sequence is blank exactly when all its characters are white space.
pub proof fn lemma_blank_iff_all_ws(s: Seq<char>)
    ensures
        is_blank(s) <==> forall|k: int| 0 <= k < s.len() ==> is_ws(s[k]),
{
    if forall|k: int| 0 <= k < s.len() ==> is_ws(s[k]) {
        lemma_trim_start_skip(s, s.len() as int);
        assert(s.skip(s.len() as int) =~= Seq::<char>::empty());
    } else {
        let k = choose|k: int| 0 <= k < s.len() && !is_ws(s[k]);
        lemma_first_non_ws(s, k);
    }
}

proof fn lemma_first_non_ws(s: Seq<char>, k: int)
    requires
        0 <= k < s.len(),
        !is_ws(s[k]),
    ensures
        !is_blank(s),
    decreases k,
{
    if forall|j: int| 0 <= j < k ==> is_ws(s[j]) {
        lemma_trim_start_skip(s, k);
        let t = s.skip(k);
        assert(t[0] == s[k]);
        assert(trim_start(t) == t);
        lemma_trim_end_keeps_nonws_first(t);
    } else {
        let j = choose|j: int| 0 <= j < k && !is_ws(s[j]);
        lemma_first_non_ws(s, j);
    }
}

/// Whether the characters `a..b` of `v` are all white space.
pub fn range_is_blank(v: &Vec<char>, a: usize, b: usize) -> (r: bool)
    requires
        a <= b <= v@.len(),
    ensures
        r == is_blank(v@.subrange(a as int, b as int)),
{
    let ghost s = v@.subrange(a as int, b as int);
    proof {
        lemma_blank_iff_all_ws(s);
    }
    let mut i = a;
    while i < b
        invariant
            a <= i <= b <= v@.len(),
            s == v@.subrange(a as int, b as int),
            forall|k: int| a <= k < i ==> is_ws(v@[k]),
        decreases b - i,
    {
        if !char_is_ws(v[i]) {
            assert(!is_ws(s[i - a]));
            assert(!(forall|k: int| 0 <= k < s.len() ==> is_ws(s[k])));
            proof {
                lemma_blank_iff_all_ws(s);
            }
            return false;
        }
        i = i + 1;
    }
    assert forall|k: int| 0 <= k < s.len() implies is_ws(s[k]) by {
        assert(s[k] == v@[a + k]);
    }
    true
}

} // verus!

verus! {

/// `st`/`en` give the start and end of each CR LF separated piece of `v`.
pub open spec fn crlf_layout(v: Seq<char>, st: Seq<usize>, en: Seq<usize>) -> bool {
    &&& st.len() == en.len()
    &&& st.len() >= 1
    &&& st[0] == 0
    &&& en.last() == v.len()
    &&& forall|i: int| 0 <= i < st.len() ==> #[trigger] st[i] <= en[i] <= v.len()
    &&& forall|i: int| 0 <= i < st.len() - 1 ==> #[trigger] en[i] + 2 == st[i + 1] && crlf_at(v, en[i] as int)
}

/// The pieces that a layout describes.
pub open spec fn layout_pieces(v: Seq<char>, st: Seq<usize>, en: Seq<usize>) -> Seq<Seq<char>> {
    Seq::new(st.len(), |i: int| v.subrange(st[i] as int, en[i] as int))
}

proof fn lemma_split_crlf_from(v: Seq<char>, pos: int, k: int)
    requires
        0 <= pos <= k,
        k + 1 < v.len(),
        crlf_at(v, k),
        forall|m: int| pos <= m < k ==> !crlf_at(v, m),
    ensures
        split_crlf(v.skip(pos)) == seq![v.subrange(pos, k)] + split_crlf(v.skip(k + 2)),
{
    let r = v.skip(pos);
    assert forall|m: int| 0 <= m < k - pos implies !crlf_at(r, m) by {
        assert(!crlf_at(v, m + pos));
    }
    assert(crlf_at(r, k - pos));
    lemma_first_crlf_found(r, k - pos);
    assert(r.take(k - pos) =~= v.subrange(pos, k));
    assert(r.skip(k - pos + 2) =~= v.skip(k + 2));
}

proof fn lemma_split_crlf_last(v: Seq<char>, pos: int)
    requires
        0 <= pos <= v.len(),
        forall|m: int| pos <= m < v.len() ==> !crlf_at(v, m),
    ensures
        split_crlf(v.skip(pos)) == seq![v.skip(pos)],
{
    let r = v.skip(pos);
    assert forall|m: int| 0 <= m < r.len() implies !crlf_at(r, m) by {
        assert(!crlf_at(v, m + pos));
    }
    lemma_first_crlf_absent(r);
}

/// The layout of the CR LF separated pieces of `v`.
pub fn crlf_pieces(v: &Vec<char>) -> (r: (Vec<usize>, Vec<usize>))
    ensures
        crlf_layout(v@, r.0@, r.1@),
        split_crlf(v@) == layout_pieces(v@, r.0@, r.1@),
{
    let n = v.len();
    let mut st: Vec<usize> = Vec::new();
    let mut en: Vec<usize> = Vec::new();
    let mut pos: usize = 0;
    let mut k: usize = 0;
    proof {
        assert(v@.skip(0) =~= v@);
    }
    while k < n
        invariant
            n == v@.len(),
            st@.len() == en@.len(),
            pos <= k <= n,
            forall|m: int| pos <= m < k ==> !crlf_at(v@, m),
            st@.len() == 0 ==> pos == 0,
            st@.len() > 0 ==> en@.last() + 2 == pos && crlf_at(v@, en@.last() as int),
            st@.len() > 0 ==> st@[0] == 0,
            forall|i: int| 0 <= i < st@.len() ==> #[trigger] st@[i] <= en@[i] <= n,
            forall|i: int| 0 <= i < st@.len() - 1 ==> #[trigger] en@[i] + 2 == st@[i + 1] && crlf_at(v@, en@[i] as int),
            split_crlf(v@) == layout_pieces(v@, st@, en@) + split_crlf(v@.skip(pos as int)),
        decreases n - k,
    {
        if k + 1 < n && v[k] == '\r' && v[k + 1] == '\n' {
            proof {
                lemma_split_crlf_from(v@, pos as int, k as int);
                let old_p = layout_pieces(v@, st@, en@);
                let new_p = layout_pieces(v@, st@.push(pos), en@.push(k));
                assert(new_p =~= old_p.push(v@.subrange(pos as int, k as int)));
                assert(old_p + split_crlf(v@.skip(pos as int)) =~= new_p + split_crlf(v@.skip(k + 2)));
            }
            st.push(pos);
            en.push(k);
            pos = k + 2;
            k = k + 2;
        } else {
            k = k + 1;
        }
    }
    proof {
        lemma_split_crlf_last(v@, pos as int);
        let old_p = layout_pieces(v@, st@, en@);
        let new_p = layout_pieces(v@, st@.push(pos), en@.push(n));
        assert(new_p =~= old_p.push(v@.subrange(pos as int, n as int)));
        assert(v@.skip(pos as int) =~= v@.subrange(pos as int, n as int));
    }
    st.push(pos);
    en.push(n);
    (st, en)
}

/// Joining consecutive pieces of a layout gives back the text they span.
#[verifier::spinoff_prover]
pub proof fn lemma_join_layout(v: Seq<char>, st: Seq<usize>, en: Seq<usize>, i: int, j: int)
    requires
        crlf_layout(v, st, en),
        0 <= i < j <= st.len(),
    ensures
        join_crlf(layout_pieces(v, st, en).subrange(i, j)) == v.subrange(st[i] as int, en[j - 1] as int),
    decreases j - i,
{
    let p = layout_pieces(v, st, en);
    if j == i + 1 {
        assert(p.subrange(i, j).len() == 1);
        assert(p.subrange(i, j)[0] == p[i]);
    } else {
        lemma_join_layout(v, st, en, i, j - 1);
        let q = p.subrange(i, j);
        assert(q.drop_last() =~= p.subrange(i, j - 1));
        assert(q.last() == p[j - 1]);
        let a = st[i] as int;
        let e1 = en[j - 2] as int;
        let s2 = st[j - 1] as int;
        let e2 = en[j - 1] as int;
        assert(st[j - 2] <= en[j - 2]);
        assert(en[j - 2] + 2 == st[j - 1]);
        assert(crlf_at(v, e1));
        assert(a <= e1) by {
            lemma_layout_monotone(v, st, en, i, j - 2);
        }
        lemma_concat_crlf(v, a, e1, e2);
    }
}

proof fn lemma_concat_crlf(v: Seq<char>, a: int, e1: int, e2: int)
    requires
        0 <= a <= e1,
        e1 + 2 <= e2 <= v.len(),
        crlf_at(v, e1),
    ensures
        v.subrange(a, e1) + seq!['\r', '\n'] + v.subrange(e1 + 2, e2) == v.subrange(a, e2),
{
    assert(v.subrange(a, e1) + seq!['\r', '\n'] + v.subrange(e1 + 2, e2) =~= v.subrange(a, e2));
}

pub proof fn lemma_layout_monotone(v: Seq<char>, st: Seq<usize>, en: Seq<usize>, i: int, j: int)
    requires
        crlf_layout(v, st, en),
        0 <= i <= j < st.len(),
    ensures
        st[i] <= en[j],
    decreases j - i,
{
    assert(st[j] <= en[j]);
    if i < j {
        lemma_layout_monotone(v, st, en, i, j - 1);
        assert(en[j - 1] + 2 == st[j]);
    }
}

/// `ls` without its trailing blank pieces.
pub open spec fn drop_trailing_blank(ls: Seq<Seq<char>>) -> Seq<Seq<char>>
    decreases ls.len(),
{
    if ls.len() > 0 && is_blank(ls.last()) {
        drop_trailing_blank(ls.drop_last())
    } else {
        ls
    }
}

pub proof fn lemma_drop_trailing_blank(ls: Seq<Seq<char>>, m: int)
    requires
        0 <= m <= ls.len(),
        forall|k: int| m <= k < ls.len() ==> is_blank(ls[k]),
        m == 0 || !is_blank(ls[m - 1]),
    ensures
        drop_trailing_blank(ls) == ls.take(m),
    decreases ls.len() - m,
{
    if m < ls.len() {
        lemma_drop_trailing_blank(ls.drop_last(), m);
        assert(ls.drop_last().take(m) =~= ls.take(m));
    } else {
        assert(ls.take(m) =~= ls);
    }
}

} // verus!

verus! {

// ───────────── ASCII case of characters, unsigned numbers ─────────────

/// ASCII lower-casing of one character, as `str::to_ascii_lowercase` does it.
pub open spec fn lower_char(c: char) -> char {
    if 'A' <= c <= 'Z' {
        ((c as u32) + 32) as char
    } else {
        c
    }
}

/// ASCII lower-casing of a character sequence.
pub open spec fn lower_chars(s: Seq<char>) -> Seq<char> {
    Seq::new(s.len(), |i: int| lower_char(s[i]))
}

pub fn to_lower_char(c: char) -> (r: char)
    ensures
        r == lower_char(c),
{
    if 'A' <= c && c <= 'Z' {
        let b = (c as u8) + 32;
        b as char
    } else {
        c
    }
}

/// The ASCII-lower-cased characters of `v`.
pub fn lower_vec(v: &Vec<char>) -> (r: Vec<char>)
    ensures
        r@ == lower_chars(v@),
{
    let mut out: Vec<char> = Vec::new();
    let mut i: usize = 0;
    while i < v.len()
        invariant
            0 <= i <= v@.len(),
            out@ =~= lower_chars(v@).take(i as int),
        decreases v@.len() - i,
    {
        out.push(to_lower_char(v[i]));
        i = i + 1;
    }
    out
}

/// A decimal digit character.
pub open spec fn is_digit(c: char) -> bool {
    '0' <= c <= '9'
}

/// The value of a sequence of decimal digit characters.
pub open spec fn digits_value(s: Seq<char>) -> nat
    decreases s.len(),
{
    if s.len() == 0 {
        0
    } else {
        digits_value(s.drop_last()) * 10 + ((s.last() as u32) - 48) as nat
    }
}

/// All characters are decimal digits.
pub open spec fn all_digits(d: Seq<char>) -> bool {
    forall|i: int| 0 <= i < d.len() ==> is_digit(#[trigger] d[i])
}

/// A non-empty run of decimal digits whose value fits in `usize`.
pub open spec fn parse_digits(d: Seq<char>) -> Option<nat> {
    if d.len() > 0 && all_digits(d) && digits_value(d) <= usize::MAX {
        Some(digits_value(d))
    } else {
        None
    }
}

/// `s` parsed as `usize` the way `str::parse::<usize>` does: an optional
/// `+`, then at least one decimal digit, with a value that fits.
pub open spec fn parse_usize(s: Seq<char>) -> Option<nat> {
    if s.len() > 0 && s[0] == '+' {
        parse_digits(s.drop_first())
    } else {
        parse_digits(s)
    }
}

proof fn lemma_digits_value_grows(s: Seq<char>, i: int)
    requires
        0 <= i <= s.len(),
        forall|k: int| 0 <= k < s.len() ==> is_digit(#[trigger] s[k]),
    ensures
        digits_value(s.take(i)) <= digits_value(s),
    decreases s.len() - i,
{
    if i < s.len() {
        assert(s.drop_last().take(i) =~= s.take(i));
        lemma_digits_value_grows(s.drop_last(), i);
    } else {
        assert(s.take(i) =~= s);
    }
}

/// Parses the characters `a..b` of `v` as `usize` (see `parse_usize`).
pub fn parse_usize_range(v: &Vec<char>, a: usize, b: usize) -> (r: Option<usize>)
    requires
        a <= b <= v@.len(),
    ensures
        r == (match parse_usize(v@.subrange(a as int, b as int)) {
            Some(n) => Some(n as usize),
            None => None,
        }),
{
    let ghost s = v@.subrange(a as int, b as int);
    let mut i = a;
    if i < b && v[i] == '+' {
        i = i + 1;
    }
    let ghost d = v@.subrange(i as int, b as int);
    proof {
        if s.len() > 0 && s[0] == '+' {
            assert(s.drop_first() =~= d);
        } else {
            assert(s =~= d);
        }
    }
    if i == b {
        return None;
    }
    let mut k = i;
    while k < b
        invariant
            a <= i <= k <= b <= v@.len(),
            d == v@.subrange(i as int, b as int),
            s == v@.subrange(a as int, b as int),
            (s.len() > 0 && s[0] == '+') ==> s.drop_first() == d,
            !(s.len() > 0 && s[0] == '+') ==> s == d,
            forall|j: int| i <= j < k ==> is_digit(v@[j]),
        decreases b - k,
    {
        if !('0' <= v[k] && v[k] <= '9') {
            assert(d[k - i] == v@[k as int]);
            assert(!is_digit(d[k - i]));
            assert(!all_digits(d));
            return None;
        }
        k = k + 1;
    }
    assert(forall|j: int| 0 <= j < d.len() ==> is_digit(#[trigger] d[j])) by {
        assert forall|j: int| 0 <= j < d.len() implies is_digit(#[trigger] d[j]) by {
            assert(d[j] == v@[i + j]);
        }
    }
    let mut acc: usize = 0;
    let mut k = i;
    while k < b
        invariant
            a <= i <= k <= b <= v@.len(),
            d == v@.subrange(i as int, b as int),
            s == v@.subrange(a as int, b as int),
            (s.len() > 0 && s[0] == '+') ==> s.drop_first() == d,
            !(s.len() > 0 && s[0] == '+') ==> s == d,
            forall|j: int| 0 <= j < d.len() ==> is_digit(#[trigger] d[j]),
            acc == digits_value(d.take(k - i)),
        decreases b - k,
    {
        proof {
            assert(d[k - i] == v@[k as int]);
            assert(is_digit(d[k - i]));
        }
        let dig = ((v[k] as u32) - 48) as usize;
        proof {
            assert(d.take(k - i + 1).drop_last() =~= d.take(k - i));
            assert(d.take(k - i + 1).last() == d[k - i]);
        }
        let m = acc.checked_mul(10);
        match m {
            Some(m) => match m.checked_add(dig) {
                Some(x) => {
                    acc = x;
                },
                None => {
                    proof {
                        lemma_digits_value_grows(d, k - i + 1);
                    }
                    return None;
                },
            },
            None => {
                proof {
                    lemma_digits_value_grows(d, k - i + 1);
                }
                return None;
            },
        }
        k = k + 1;
    }
    proof {
        assert(d.take(b - i) =~= d);
    }
    Some(acc)
}

} // verus!

verus! {

// ───────────── first occurrence of a pattern ─────────────

/// `k` is the first position where `pat` occurs in `s`.
pub open spec fn is_first_occurrence<T>(s: Seq<T>, pat: Seq<T>, k: int) -> bool {
    occurs_at(s, pat, k) && forall|m: int| 0 <= m < k ==> !occurs_at(s, pat, m)
}

/// The first position where `pat` occurs in `s`, if any.
pub open spec fn first_occurrence<T>(s: Seq<T>, pat: Seq<T>) -> Option<int> {
    if exists|k: int| is_first_occurrence(s, pat, k) {
        Some(choose|k: int| is_first_occurrence(s, pat, k))
    } else {
        None
    }
}

pub proof fn lemma_first_occurrence_found<T>(s: Seq<T>, pat: Seq<T>, k: int)
    requires
        is_first_occurrence(s, pat, k),
    ensures
        first_occurrence(s, pat) == Some(k),
{
    let j = choose|j: int| is_first_occurrence(s, pat, j);
    assert(is_first_occurrence(s, pat, j));
    if j < k {
        assert(!occurs_at(s, pat, j));
    }
    if k < j {
        assert(!occurs_at(s, pat, k));
    }
}

pub proof fn lemma_first_occurrence_absent<T>(s: Seq<T>, pat: Seq<T>)
    requires
        forall|m: int| !occurs_at(s, pat, m),
    ensures
        first_occurrence(s, pat) == None::<int>,
        !contains_seq(s, pat),
{
}

/// The first position at which `pat` occurs in `s[..end]`.
pub fn find_bytes(s: &[u8], end: usize, pat: &[u8]) -> (r: Option<usize>)
    requires
        end <= s@.len(),
        pat@.len() > 0,
    ensures
        r == (match first_occurrence(s@.take(end as int), pat@) {
            Some(k) => Some(k as usize),
            None => None,
        }),
        r is Some <==> contains_seq(s@.take(end as int), pat@),
{
    let ghost t = s@.take(end as int);
    let m = pat.len();
    if m > end {
        proof {
            assert forall|j: int| !occurs_at(t, pat@, j) by {}
            lemma_first_occurrence_absent(t, pat@);
        }
        return None;
    }
    let mut k: usize = 0;
    while k <= end - m
        invariant
            t == s@.take(end as int),
            end <= s@.len(),
            m == pat@.len(),
            0 < m <= end,
            0 <= k <= end - m + 1,
            forall|j: int| 0 <= j < k ==> !occurs_at(t, pat@, j),
        decreases end - m + 1 - k,
    {
        let mut j: usize = 0;
        let mut ok = true;
        while j < m
            invariant
                t == s@.take(end as int),
                end <= s@.len(),
                m == pat@.len(),
                k <= end - m,
                0 <= j <= m,
                ok ==> forall|q: int| 0 <= q < j ==> t[k + q] == pat@[q],
                !ok ==> !occurs_at(t, pat@, k as int),
            decreases m - j,
        {
            if s[k + j] != pat[j] {
                ok = false;
                proof {
                    assert(t.subrange(k as int, k + m)[j as int] != pat@[j as int]);
                }
            }
            j = j + 1;
        }
        if ok {
            proof {
                assert(t.subrange(k as int, k + m) =~= pat@);
                assert(is_first_occurrence(t, pat@, k as int));
                lemma_first_occurrence_found(t, pat@, k as int);
            }
            return Some(k);
        }
        k = k + 1;
    }
    proof {
        assert forall|j: int| !occurs_at(t, pat@, j) by {
            if j >= k {
                assert(j + m > end);
            }
        }
        lemma_first_occurrence_absent(t, pat@);
    }
    None
}

/// Whether `pat` occurs in the characters `v`.
pub fn contains_chars(v: &Vec<char>, pat: &Vec<char>) -> (r: bool)
    ensures
        r == contains_seq(v@, pat@),
{
    let n = v.len();
    let m = pat.len();
    if m > n {
        proof {
            assert forall|j: int| !occurs_at(v@, pat@, j) by {}
        }
        return false;
    }
    if m == 0 {
        proof {
            assert(v@.subrange(0, 0) =~= pat@);
            assert(occurs_at(v@, pat@, 0));
        }
        return true;
    }
    let mut k: usize = 0;
    while k <= n - m
        invariant
            n == v@.len(),
            m == pat@.len(),
            0 < m <= n,
            0 <= k <= n - m + 1,
            forall|j: int| 0 <= j < k ==> !occurs_at(v@, pat@, j),
        decreases n - m + 1 - k,
    {
        let mut j: usize = 0;
        let mut ok = true;
        while j < m
            invariant
                n == v@.len(),
                m == pat@.len(),
                k <= n - m,
                0 <= j <= m,
                ok ==> forall|q: int| 0 <= q < j ==> v@[k + q] == pat@[q],
                !ok ==> !occurs_at(v@, pat@, k as int),
            decreases m - j,
        {
            if v[k + j] != pat[j] {
                ok = false;
                proof {
                    assert(v@.subrange(k as int, k + m)[j as int] != pat@[j as int]);
                }
            }
            j = j + 1;
        }
        if ok {
            proof {
                assert(v@.subrange(k as int, k + m) =~= pat@);
                assert(occurs_at(v@, pat@, k as int));
            }
            return true;
        }
        k = k + 1;
    }
    proof {
        assert forall|j: int| !occurs_at(v@, pat@, j) by {
            if j >= k {
                assert(j + m > n);
            }
        }
    }
    false
}

} // verus!

verus! {

/// Appends bytes to a buffer.
pub fn append_bytes(buf: &mut Vec<u8>, s: &[u8])
    ensures
        final(buf)@ == old(buf)@ + s@,
{
    let mut i: usize = 0;
    while i < s.len()
        invariant
            0 <= i <= s@.len(),
            buf@ == old(buf)@ + s@.take(i as int),
        decreases s@.len() - i,
    {
        buf.push(s[i]);
        proof {
            assert(s@.take(i + 1) =~= s@.take(i as int).push(s@[i as int]));
            assert(old(buf)@ + s@.take(i + 1) =~= (old(buf)@ + s@.take(i as int)).push(s@[i as int]));
        }
        i = i + 1;
    }
    proof {
        assert(s@.take(s@.len() as int) =~= s@);
    }
}

} // verus!

verus! {

/// Appends the bytes of an ASCII string slice to a buffer.
pub fn push_ascii(buf: &mut Vec<u8>, s: &str)
    requires
        is_ascii_chars(s@),
    ensures
        final(buf)@ == old(buf)@ + ascii_bytes(s@),
{
    append_bytes(buf, ascii_str_bytes(s));
}

} // verus!

verus! {

/// Position of the next `x` in `v` at or after `from`, or `v.len()`.
pub fn find_char(v: &Vec<char>, from: usize, x: char) -> (r: usize)
    requires
        from <= v@.len(),
    ensures
        from <= r <= v@.len(),
        r < v@.len() ==> v@[r as int] == x,
        forall|m: int| from <= m < r ==> v@[m] != x,
        r - from == first_index(v@.skip(from as int), x),
{
    let mut i = from;
    while i < v.len()
        invariant
            from <= i <= v@.len(),
            forall|m: int| from <= m < i ==> v@[m] != x,
        decreases v@.len() - i,
    {
        if v[i] == x {
            proof {
                lemma_first_index_found(v@.skip(from as int), x, i - from);
            }
            return i;
        }
        i = i + 1;
    }
    proof {
        lemma_first_index_absent(v@.skip(from as int), x);
    }
    i
}

/// `l` without one final carriage return.
pub open spec fn strip_cr(l: Seq<char>) -> Seq<char> {
    if l.len() > 0 && l.last() == '\r' {
        l.drop_last()
    } else {
        l
    }
}

/// The lines of a text as `str::lines` yields them: split at line feeds,
/// each line that a line feed ends loses one final carriage return, and
/// a final line feed does not start an empty line.
pub open spec fn str_lines(s: Seq<char>) -> Seq<Seq<char>>
    decreases s.len(),
{
    if s.len() == 0 {
        Seq::empty()
    } else {
        let k = first_index(s, '\n');
        if 0 <= k < s.len() {
            seq![strip_cr(s.take(k))] + str_lines(s.skip(k + 1))
        } else {
            seq![s]
        }
    }
}

/// Unfolds `str_lines` on the rest of `v` from `pos`, where the next line
/// feed (or the end) is at `e`.
pub proof fn lemma_str_lines_from(v: Seq<char>, pos: int, e: int)
    requires
        0 <= pos < v.len(),
        pos <= e <= v.len(),
        e < v.len() ==> v[e] == '\n',
        forall|m: int| pos <= m < e ==> v[m] != '\n',
    ensures
        e < v.len() ==> str_lines(v.skip(pos)) == seq![strip_cr(v.subrange(pos, e))] + str_lines(v.skip(e + 1)),
        e == v.len() ==> str_lines(v.skip(pos)) == seq![v.subrange(pos, e)],
{
    let r = v.skip(pos);
    if e < v.len() {
        assert(is_first_index(r, '\n', e - pos));
        lemma_first_index_found(r, '\n', e - pos);
        assert(r.take(e - pos) =~= v.subrange(pos, e));
        assert(r.skip(e - pos + 1) =~= v.skip(e + 1));
    } else {
        lemma_first_index_absent(r, '\n');
        assert(r =~= v.subrange(pos, e));
    }
}

} // verus!

verus! {

/// Position of the first `x` in `s[from..to]`, or `to`.
pub fn find_byte_in(s: &[u8], from: usize, to: usize, x: u8) -> (r: usize)
    requires
        from <= to <= s@.len(),
    ensures
        from <= r <= to,
        r < to ==> s@[r as int] == x,
        forall|m: int| from <= m < r ==> s@[m] != x,
        r - from == first_index(s@.subrange(from as int, to as int), x),
{
    let mut i = from;
    while i < to
        invariant
            from <= i <= to <= s@.len(),
            forall|m: int| from <= m < i ==> s@[m] != x,
        decreases to - i,
    {
        if s[i] == x {
            proof {
                lemma_first_index_found(s@.subrange(from as int, to as int), x, i - from);
            }
            return i;
        }
        i = i + 1;
    }
    proof {
        lemma_first_index_absent(s@.subrange(from as int, to as int), x);
    }
    i
}

} // verus!


verus! {

// ───────────── pieces and patterns over characters ─────────────

/// Unfolds `split_on` on the rest of `d` from `pos`, where the next
/// separator is at `e` (or there is none and `e` is the end).
pub proof fn lemma_split_from<T>(d: Seq<T>, x: T, pos: int, e: int)
    requires
        0 <= pos <= e <= d.len(),
        e < d.len() ==> d[e] == x,
        forall|m: int| pos <= m < e ==> d[m] != x,
    ensures
        e < d.len() ==> split_on(d.skip(pos), x) == seq![d.subrange(pos, e)] + split_on(d.skip(e + 1), x),
        e == d.len() ==> split_on(d.skip(pos), x) == seq![d.subrange(pos, e)],
{
    let r = d.skip(pos);
    if e < d.len() {
        assert(is_first_index(r, x, e - pos));
        lemma_split_on_step(r, x, e - pos);
        assert(r.take(e - pos) =~= d.subrange(pos, e));
        assert(r.skip(e - pos + 1) =~= d.skip(e + 1));
    } else {
        lemma_split_on_last(r, x);
        assert(r =~= d.subrange(pos, e));
    }
}

/// `s` ends with `pat`.
pub open spec fn ends_with<T>(s: Seq<T>, pat: Seq<T>) -> bool {
    pat.len() <= s.len() && s.skip(s.len() - pat.len()) == pat
}

/// Whether `v` begins with `pat`.
pub fn starts_with_chars(v: &Vec<char>, pat: &Vec<char>) -> (r: bool)
    ensures
        r == starts_with(v@, pat@),
{
    if pat.len() > v.len() {
        return false;
    }
    let mut i: usize = 0;
    while i < pat.len()
        invariant
            pat@.len() <= v@.len(),
            i <= pat@.len(),
            forall|q: int| 0 <= q < i ==> v@[q] == pat@[q],
        decreases pat@.len() - i,
    {
        if v[i] != pat[i] {
            proof {
                assert(v@.take(pat@.len() as int)[i as int] != pat@[i as int]);
            }
            return false;
        }
        i = i + 1;
    }
    proof {
        assert(v@.take(pat@.len() as int) =~= pat@);
    }
    true
}

} // verus!

verus! {

// ───────────── where the words of a text lie ─────────────

/// `s[a..b]` is a word: non-empty, without white space, and ending at the
/// end of `s` or before white space.
pub open spec fn word_at(s: Seq<char>, a: int, b: int) -> bool {
    &&& 0 <= a < b <= s.len()
    &&& forall|k: int| a <= k < b ==> !is_ws(#[trigger] s[k])
    &&& (b == s.len() || is_ws(s[b]))
}

/// `s[a..b]` is all white space.
pub open spec fn all_ws(s: Seq<char>, a: int, b: int) -> bool {
    forall|k: int| a <= k < b ==> is_ws(#[trigger] s[k])
}

proof fn lemma_word_len_props(s: Seq<char>)
    ensures
        word_len(s) <= s.len(),
        forall|k: int| 0 <= k < word_len(s) ==> !is_ws(#[trigger] s[k]),
        word_len(s) == s.len() || is_ws(s[word_len(s) as int]),
    decreases s.len(),
{
    if s.len() > 0 && !is_ws(s[0]) {
        let t = s.drop_first();
        lemma_word_len_props(t);
        assert forall|k: int| 0 <= k < word_len(s) implies !is_ws(#[trigger] s[k]) by {
            if k > 0 {
                assert(s[k] == t[k - 1]);
            }
        }
        if word_len(t) < t.len() {
            assert(s[word_len(s) as int] == t[word_len(t) as int]);
        }
    }
}

/// The first word of `s` and where it lies: white space before it, and the
/// other words after it.
pub proof fn lemma_first_token(s: Seq<char>) -> (ab: (int, int))
    requires
        ws_tokens(s).len() >= 1,
    ensures
        word_at(s, ab.0, ab.1),
        all_ws(s, 0, ab.0),
        ws_tokens(s)[0] == s.subrange(ab.0, ab.1),
        ws_tokens(s).drop_first() == ws_tokens(s.skip(ab.1)),
    decreases s.len(),
{
    if is_ws(s[0]) {
        let t = s.drop_first();
        let (a, b) = lemma_first_token(t);
        assert forall|k: int| a + 1 <= k < b + 1 implies !is_ws(#[trigger] s[k]) by {
            assert(s[k] == t[k - 1]);
        }
        if b < t.len() {
            assert(s[b + 1] == t[b]);
        }
        assert forall|k: int| 0 <= k < a + 1 implies is_ws(#[trigger] s[k]) by {
            if k > 0 {
                assert(s[k] == t[k - 1]);
            }
        }
        assert(t.subrange(a, b) =~= s.subrange(a + 1, b + 1));
        assert(t.skip(b) =~= s.skip(b + 1));
        (a + 1, b + 1)
    } else {
        lemma_word_len_props(s);
        lemma_word_len_bound(s);
        let w = word_len(s) as int;
        assert(s.take(w) =~= s.subrange(0, w));
        (0, w)
    }
}

} // verus!
