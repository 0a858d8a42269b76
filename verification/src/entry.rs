//! What `lychee_worker_start` checks and builds before the runtime starts:
//! the comma-separated watch lists and the worker configuration with its
//! lower bounds.

use vstd::prelude::*;
use crate::runtime::{strings_view, WorkerConfig};
use crate::text::{
    chars_vec, find_char, first_index, is_ws, lemma_first_index_range, lemma_split_from, split_on, string_of_range,
    trim, trim_bounds, trim_end, trim_start,
};

verus! {

/// The trimmed pieces that are not blank, in order.
pub open spec fn nonblank_trimmed(ps: Seq<Seq<char>>) -> Seq<Seq<char>>
    decreases ps.len(),
{
    if ps.len() == 0 {
        Seq::empty()
    } else if trim(ps[0]).len() > 0 {
        seq![trim(ps[0])] + nonblank_trimmed(ps.drop_first())
    } else {
        nonblank_trimmed(ps.drop_first())
    }
}

/// A watch list: the comma-separated entries, trimmed, blank ones left out.
pub open spec fn watch_list_spec(s: Seq<char>) -> Seq<Seq<char>> {
    nonblank_trimmed(split_on(s, ','))
}

/// Parses a comma-separated watch list; an empty string gives no entries.
pub fn parse_watch_list(s: &str) -> (r: Vec<String>)
    ensures
        strings_view(r@) == watch_list_spec(s@),
{
    let v = chars_vec(s);
    let n = v.len();
    let mut out: Vec<String> = Vec::new();
    let mut pos: usize = 0;
    proof {
        assert(v@.skip(0) =~= v@);
        assert(strings_view(out@) =~= Seq::<Seq<char>>::empty());
    }
    loop
        invariant_except_break
            n == v@.len(),
            v@ == s@,
            pos <= n,
            watch_list_spec(s@) == strings_view(out@) + nonblank_trimmed(split_on(v@.skip(pos as int), ',')),
        ensures
            watch_list_spec(s@) == strings_view(out@),
        decreases n - pos,
    {
        let e = find_char(&v, pos, ',');
        let (a, b) = trim_bounds(&v, pos, e);
        let ghost piece = v@.subrange(pos as int, e as int);
        let ghost ps = split_on(v@.skip(pos as int), ',');
        proof {
            lemma_split_from(v@, ',', pos as int, e as int);
            assert(ps[0] == piece);
            assert(ps.drop_first() == (if e < n {
                split_on(v@.skip(e + 1), ',')
            } else {
                Seq::<Seq<char>>::empty()
            })) by {
                if e < n {
                    assert(ps.drop_first() =~= split_on(v@.skip(e + 1), ','));
                } else {
                    assert(ps.drop_first() =~= Seq::<Seq<char>>::empty());
                }
            }
        }
        let ghost before = strings_view(out@);
        if a < b {
            let t = string_of_range(s, a, b);
            out.push(t);
            proof {
                assert(strings_view(out@) =~= before + seq![trim(piece)]);
                assert(nonblank_trimmed(ps) == seq![trim(piece)] + nonblank_trimmed(ps.drop_first()));
            }
        } else {
            proof {
                assert(strings_view(out@) =~= before);
                assert(nonblank_trimmed(ps) == nonblank_trimmed(ps.drop_first()));
            }
        }
        if e == n {
            proof {
                assert(nonblank_trimmed(Seq::<Seq<char>>::empty()) =~= Seq::<Seq<char>>::empty());
                assert(watch_list_spec(s@) =~= strings_view(out@));
            }
            break;
        }
        proof {
            assert(watch_list_spec(s@) =~= strings_view(out@) + nonblank_trimmed(split_on(v@.skip(e + 1), ',')));
        }
        pos = e + 1;
    }
    out
}

proof fn lemma_trim_start_within(s: Seq<char>)
    ensures
        forall|i: int| 0 <= i < trim_start(s).len() ==> s.contains(#[trigger] trim_start(s)[i]),
    decreases s.len(),
{
    if s.len() > 0 && is_ws(s[0]) {
        let t = s.drop_first();
        lemma_trim_start_within(t);
        assert forall|i: int| 0 <= i < trim_start(s).len() implies s.contains(#[trigger] trim_start(s)[i]) by {
            let c = trim_start(s)[i];
            assert(trim_start(s) == trim_start(t));
            assert(t.contains(trim_start(t)[i]));
            let j = choose|j: int| 0 <= j < t.len() && t[j] == c;
            assert(s[j + 1] == c);
        }
    }
}

proof fn lemma_trim_end_within(s: Seq<char>)
    ensures
        forall|i: int| 0 <= i < trim_end(s).len() ==> s.contains(#[trigger] trim_end(s)[i]),
    decreases s.len(),
{
    if s.len() > 0 && is_ws(s.last()) {
        let t = s.drop_last();
        lemma_trim_end_within(t);
        assert forall|i: int| 0 <= i < trim_end(s).len() implies s.contains(#[trigger] trim_end(s)[i]) by {
            let c = trim_end(s)[i];
            assert(trim_end(s) == trim_end(t));
            assert(t.contains(trim_end(t)[i]));
            let j = choose|j: int| 0 <= j < t.len() && t[j] == c;
            assert(s[j] == c);
        }
    }
}

proof fn lemma_trim_within(s: Seq<char>)
    ensures
        forall|c: char| trim(s).contains(c) ==> s.contains(c),
{
    lemma_trim_start_within(s);
    lemma_trim_end_within(trim_start(s));
    assert forall|c: char| trim(s).contains(c) implies s.contains(c) by {
        let i = choose|i: int| 0 <= i < trim(s).len() && trim(s)[i] == c;
        assert(trim_start(s).contains(trim_end(trim_start(s))[i]));
        let j = choose|j: int| 0 <= j < trim_start(s).len() && trim_start(s)[j] == c;
        assert(s.contains(trim_start(s)[j]));
    }
}

proof fn lemma_pieces_without(s: Seq<char>, x: char)
    ensures
        forall|i: int| 0 <= i < split_on(s, x).len() ==> !(#[trigger] split_on(s, x)[i]).contains(x),
    decreases s.len(),
{
    lemma_first_index_range(s, x);
    let k = first_index(s, x);
    if 0 <= k < s.len() {
        lemma_pieces_without(s.skip(k + 1), x);
        let rest = split_on(s.skip(k + 1), x);
        assert(split_on(s, x) == seq![s.take(k)] + rest);
        assert forall|i: int| 0 <= i < split_on(s, x).len() implies !(#[trigger] split_on(s, x)[i]).contains(x) by {
            if i == 0 {
                if s.take(k).contains(x) {
                    let j = choose|j: int| 0 <= j < s.take(k).len() && s.take(k)[j] == x;
                    assert(s[j] != x);
                }
            } else {
                assert(split_on(s, x)[i] == rest[i - 1]);
            }
        }
    } else {
        assert(split_on(s, x) == seq![s]);
        if s.contains(x) {
            let j = choose|j: int| 0 <= j < s.len() && s[j] == x;
            assert(s[j] != x);
        }
    }
}

proof fn lemma_nonblank_trimmed_entries(ps: Seq<Seq<char>>)
    requires
        forall|i: int| 0 <= i < ps.len() ==> !(#[trigger] ps[i]).contains(','),
    ensures
        forall|i: int| 0 <= i < nonblank_trimmed(ps).len() ==> (#[trigger] nonblank_trimmed(ps)[i]).len() > 0
            && !nonblank_trimmed(ps)[i].contains(','),
    decreases ps.len(),
{
    if ps.len() > 0 {
        let rest = ps.drop_first();
        assert forall|i: int| 0 <= i < rest.len() implies !(#[trigger] rest[i]).contains(',') by {
            assert(rest[i] == ps[i + 1]);
        }
        lemma_nonblank_trimmed_entries(rest);
        lemma_trim_within(ps[0]);
        assert(!ps[0].contains(','));
        let r = nonblank_trimmed(ps);
        if trim(ps[0]).len() > 0 {
            assert(!trim(ps[0]).contains(','));
            assert(r == seq![trim(ps[0])] + nonblank_trimmed(rest));
            assert forall|i: int| 0 <= i < r.len() implies (#[trigger] r[i]).len() > 0 && !r[i].contains(',') by {
                if i > 0 {
                    assert(r[i] == nonblank_trimmed(rest)[i - 1]);
                } else {
                    assert(r[0] == trim(ps[0]));
                }
            }
        } else {
            assert(r == nonblank_trimmed(rest));
        }
    }
}

/// Every entry of a watch list is non-empty and holds no comma.
pub proof fn lemma_watch_list_entries(s: Seq<char>)
    ensures
        forall|i: int| 0 <= i < watch_list_spec(s).len() ==> (#[trigger] watch_list_spec(s)[i]).len() > 0
            && !watch_list_spec(s)[i].contains(','),
{
    lemma_pieces_without(s, ',');
    lemma_nonblank_trimmed_entries(split_on(s, ','));
}

/// Why `lychee_worker_start` refuses its arguments.
#[derive(PartialEq, Eq, Structural, Clone, Copy, Debug)]
pub enum StartError {
    /// The port is outside 0..=65535.
    InvalidPort,
    /// Fewer than one worker process was asked for.
    WorkerNumTooSmall,
}

impl StartError {
    /// The text of the exception thrown to PHP.
    pub fn message(&self) -> (r: String)
        ensures
            *self == StartError::InvalidPort ==> r@ == "invalid port"@,
            *self == StartError::WorkerNumTooSmall ==> r@ == "worker_num must be >= 1"@,
    {
        match self {
            StartError::InvalidPort => String::from_str("invalid port"),
            StartError::WorkerNumTooSmall => String::from_str("worker_num must be >= 1"),
        }
    }
}

/// The configuration built from valid arguments: the watch lists parsed,
/// the request timeout and the connection limit at least 1, the head limit
/// at least 4096 bytes and the body limit at least 65536 bytes; the other
/// numbers are converted as they are.
pub open spec fn config_matches(
    cfg: WorkerConfig,
    host: Seq<char>,
    port: i64,
    worker_num: i64,
    enable_queue: bool,
    watch_dirs: Seq<char>,
    watch_names: Seq<char>,
    watch_excludes: Seq<char>,
    watch_interval_ms: i64,
    ping_interval_sec: i64,
    ping_timeout_sec: i64,
    request_timeout_sec: i64,
    max_connections: i64,
    header_max_bytes: i64,
    body_max_bytes: i64,
) -> bool {
    &&& cfg.host@ == host
    &&& cfg.port == port
    &&& cfg.worker_num == worker_num as usize
    &&& strings_view(cfg.watch_dirs@) == watch_list_spec(watch_dirs)
    &&& strings_view(cfg.watch_names@) == watch_list_spec(watch_names)
    &&& strings_view(cfg.watch_excludes@) == watch_list_spec(watch_excludes)
    &&& cfg.watch_interval_ms == watch_interval_ms as u64
    &&& cfg.ping_interval_sec == ping_interval_sec as u64
    &&& cfg.ping_timeout_sec == ping_timeout_sec as u64
    &&& cfg.enable_queue == enable_queue
    &&& cfg.request_timeout_sec == (if request_timeout_sec < 1 { 1 } else { request_timeout_sec }) as u64
    &&& cfg.max_connections == (if max_connections < 1 { 1 } else { max_connections }) as usize
    &&& cfg.header_max_bytes == (if header_max_bytes < 4096 { 4096 } else { header_max_bytes }) as usize
    &&& cfg.body_max_bytes == (if body_max_bytes < 65536 { 65536 } else { body_max_bytes }) as usize
}

/// Checks the arguments of `lychee_worker_start` and builds the worker
/// configuration: the port is checked first, then the number of workers.
pub fn start_config(
    host: String,
    port: i64,
    worker_num: i64,
    enable_queue: bool,
    watch_dirs: &str,
    watch_names: &str,
    watch_excludes: &str,
    watch_interval_ms: i64,
    ping_interval_sec: i64,
    ping_timeout_sec: i64,
    request_timeout_sec: i64,
    max_connections: i64,
    header_max_bytes: i64,
    body_max_bytes: i64,
) -> (r: Result<WorkerConfig, StartError>)
    ensures
        !(0 <= port <= 65535) ==> r == Err::<WorkerConfig, StartError>(StartError::InvalidPort),
        (0 <= port <= 65535 && worker_num < 1) ==> r == Err::<WorkerConfig, StartError>(
            StartError::WorkerNumTooSmall,
        ),
        (0 <= port <= 65535 && worker_num >= 1) ==> (r matches Ok(cfg) && config_matches(
            cfg,
            host@,
            port,
            worker_num,
            enable_queue,
            watch_dirs@,
            watch_names@,
            watch_excludes@,
            watch_interval_ms,
            ping_interval_sec,
            ping_timeout_sec,
            request_timeout_sec,
            max_connections,
            header_max_bytes,
            body_max_bytes,
        )),
{
    if !(0 <= port && port <= 65535) {
        return Err(StartError::InvalidPort);
    }
    if worker_num < 1 {
        return Err(StartError::WorkerNumTooSmall);
    }
    let request_timeout = if request_timeout_sec < 1 { 1 } else { request_timeout_sec };
    let max_conns = if max_connections < 1 { 1 } else { max_connections };
    let header_max = if header_max_bytes < 4096 { 4096 } else { header_max_bytes };
    let body_max = if body_max_bytes < 65536 { 65536 } else { body_max_bytes };
    Ok(WorkerConfig {
        host,
        port: port as u16,
        worker_num: worker_num as usize,
        watch_dirs: parse_watch_list(watch_dirs),
        watch_names: parse_watch_list(watch_names),
        watch_excludes: parse_watch_list(watch_excludes),
        watch_interval_ms: watch_interval_ms as u64,
        ping_interval_sec: ping_interval_sec as u64,
        ping_timeout_sec: ping_timeout_sec as u64,
        enable_queue,
        request_timeout_sec: request_timeout as u64,
        max_connections: max_conns as usize,
        header_max_bytes: header_max as usize,
        body_max_bytes: body_max as usize,
    })
}

} // verus!

verus! {

/// The configuration that `start_config` builds keeps its lower bounds: a
/// request timeout of at least 1 s, at least one connection, a head limit of
/// at least 4096 bytes and a body limit of at least 65536 bytes (each limit
/// as long as the number given fits in `usize`).
pub proof fn lemma_config_minimums(
    cfg: WorkerConfig,
    host: Seq<char>,
    port: i64,
    worker_num: i64,
    enable_queue: bool,
    watch_dirs: Seq<char>,
    watch_names: Seq<char>,
    watch_excludes: Seq<char>,
    watch_interval_ms: i64,
    ping_interval_sec: i64,
    ping_timeout_sec: i64,
    request_timeout_sec: i64,
    max_connections: i64,
    header_max_bytes: i64,
    body_max_bytes: i64,
)
    requires
        config_matches(
            cfg,
            host,
            port,
            worker_num,
            enable_queue,
            watch_dirs,
            watch_names,
            watch_excludes,
            watch_interval_ms,
            ping_interval_sec,
            ping_timeout_sec,
            request_timeout_sec,
            max_connections,
            header_max_bytes,
            body_max_bytes,
        ),
    ensures
        cfg.request_timeout_sec >= 1,
        max_connections <= usize::MAX ==> cfg.max_connections >= 1,
        header_max_bytes <= usize::MAX ==> cfg.header_max_bytes >= 4096,
        body_max_bytes <= usize::MAX ==> cfg.body_max_bytes >= 65536,
{
}

} // verus!

verus! {

/// Each setting of the configuration comes from its own argument: the host,
/// port, worker count, queue switch, poll interval and both heartbeat
/// settings are the arguments given for them (numbers converted as they
/// are), and the watch lists are those of the matching strings.
pub proof fn lemma_config_fields_from_own_arguments(
    cfg: WorkerConfig,
    host: Seq<char>,
    port: i64,
    worker_num: i64,
    enable_queue: bool,
    watch_dirs: Seq<char>,
    watch_names: Seq<char>,
    watch_excludes: Seq<char>,
    watch_interval_ms: i64,
    ping_interval_sec: i64,
    ping_timeout_sec: i64,
    request_timeout_sec: i64,
    max_connections: i64,
    header_max_bytes: i64,
    body_max_bytes: i64,
)
    requires
        config_matches(
            cfg,
            host,
            port,
            worker_num,
            enable_queue,
            watch_dirs,
            watch_names,
            watch_excludes,
            watch_interval_ms,
            ping_interval_sec,
            ping_timeout_sec,
            request_timeout_sec,
            max_connections,
            header_max_bytes,
            body_max_bytes,
        ),
    ensures
        cfg.host@ == host,
        cfg.port as int == port,
        cfg.worker_num as int == worker_num as usize as int,
        cfg.enable_queue == enable_queue,
        cfg.watch_interval_ms as int == watch_interval_ms as u64 as int,
        0 <= ping_interval_sec ==> cfg.ping_interval_sec as int == ping_interval_sec,
        0 <= ping_timeout_sec ==> cfg.ping_timeout_sec as int == ping_timeout_sec,
        cfg.ping_interval_sec == ping_interval_sec as u64,
        cfg.ping_timeout_sec == ping_timeout_sec as u64,
        strings_view(cfg.watch_dirs@) == nonblank_trimmed(split_on(watch_dirs, ',')),
        strings_view(cfg.watch_names@) == nonblank_trimmed(split_on(watch_names, ',')),
        strings_view(cfg.watch_excludes@) == nonblank_trimmed(split_on(watch_excludes, ',')),
        1 <= request_timeout_sec ==> cfg.request_timeout_sec as int == request_timeout_sec,
        4096 <= header_max_bytes <= usize::MAX ==> cfg.header_max_bytes as int == header_max_bytes,
        65536 <= body_max_bytes <= usize::MAX ==> cfg.body_max_bytes as int == body_max_bytes,
        1 <= max_connections <= usize::MAX ==> cfg.max_connections as int == max_connections,
{
}

} // verus!
