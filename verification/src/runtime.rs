//! Worker configuration and the decisions of the prefork parent: file-name
//! patterns and watch filters, file modification tables, the commands and
//! restart plans of the children, the reaction to file changes; also the
//! cells that hold a connection's sender and a room's members, the lazily
//! filled global cell and the stop flag.

use vstd::prelude::*;
use tokio::sync::mpsc::UnboundedSender;
use crate::text::{chars_vec, contains_chars, contains_seq, dec_chars, dec_string, ends_with, starts_with};

verus! {

/// The views of a sequence of strings.
pub open spec fn strings_view(v: Seq<String>) -> Seq<Seq<char>> {
    Seq::new(v.len(), |i: int| v[i]@)
}

/// A room table without rooms.
pub open spec fn no_rooms() -> Map<Seq<char>, Seq<Seq<char>>> {
    Map::empty()
}

/// A connection table without connections.
pub open spec fn no_connections() -> Set<Seq<char>> {
    Set::empty()
}

/// Settings of a worker, as `lychee_worker_start` receives them.
pub struct WorkerConfig {
    pub host: String,
    pub port: u16,
    pub worker_num: usize,
    pub watch_dirs: Vec<String>,
    pub watch_names: Vec<String>,
    pub watch_excludes: Vec<String>,
    pub watch_interval_ms: u64,
    pub ping_interval_sec: u64,
    pub ping_timeout_sec: u64,
    pub enable_queue: bool,
    /// Total time allowed for one request (seconds): head, body, handler, response.
    pub request_timeout_sec: u64,
    /// Concurrent connections per child process; more are answered with 503.
    pub max_connections: usize,
    /// Largest request head in bytes.
    pub header_max_bytes: usize,
    /// Largest request body in bytes; a larger `Content-Length` is answered with 413.
    pub body_max_bytes: usize,
}

/// The sending half of a WebSocket connection's outgoing queue.
pub struct SenderCell {
    pub sender: UnboundedSender<Vec<u8>>,
}

/// Members of a room (connection ids).
pub struct RoomCell {
    pub members: Vec<String>,
}

impl RoomCell {
    /// A room without members.
    pub fn new() -> (r: Self)
        ensures
            r.members@ == Seq::<String>::empty(),
    {
        RoomCell { members: Vec::new() }
    }
}

impl Default for RoomCell {
    fn default() -> (r: Self)
        ensures
            r.members@ == Seq::<String>::empty(),
    {
        RoomCell::new()
    }
}


// ───────────── file-name patterns ─────────────

/// The glob language: `*` stands for any run of characters (possibly
/// empty), every other character for itself, and the pattern must cover the
/// whole name.
pub open spec fn glob_match(name: Seq<char>, pattern: Seq<char>) -> bool
    decreases pattern.len(), name.len(),
{
    if pattern.len() == 0 {
        name.len() == 0
    } else if pattern[0] == '*' {
        glob_match(name, pattern.drop_first()) || (name.len() > 0 && glob_match(name.drop_first(), pattern))
    } else {
        name.len() > 0 && name[0] == pattern[0] && glob_match(name.drop_first(), pattern.drop_first())
    }
}

/// One step of `glob_match` on the suffixes from `i` and `j`.
proof fn lemma_glob_step(name: Seq<char>, pattern: Seq<char>, i: int, j: int)
    requires
        0 <= i <= name.len(),
        0 <= j < pattern.len(),
    ensures
        glob_match(name.skip(i), pattern.skip(j)) == (if pattern[j] == '*' {
            glob_match(name.skip(i), pattern.skip(j + 1)) || (i < name.len() && glob_match(
                name.skip(i + 1),
                pattern.skip(j),
            ))
        } else {
            i < name.len() && name[i] == pattern[j] && glob_match(name.skip(i + 1), pattern.skip(j + 1))
        }),
{
    assert(pattern.skip(j).drop_first() =~= pattern.skip(j + 1));
    if i < name.len() {
        assert(name.skip(i).drop_first() =~= name.skip(i + 1));
    }
}

/// A simple glob match where `*` stands for any run of characters, as in
/// `*.php` (see `glob_match`).
pub fn matches_pattern(name: &str, pattern: &str) -> (r: bool)
    ensures
        r == glob_match(name@, pattern@),
{
    let nv = chars_vec(name);
    let pv = chars_vec(pattern);
    let n = nv.len();
    let m = pv.len();
    // `next[i]` and `next_end` hold the row of pattern suffix `j`: whether
    // the name from `i` (from `n` for `next_end`) matches the pattern from `j`.
    let mut next: Vec<bool> = Vec::new();
    let mut k: usize = 0;
    while k < n
        invariant
            n == nv@.len(),
            k <= n,
            next@.len() == k,
            forall|t: int| 0 <= t < k ==> !next@[t],
        decreases n - k,
    {
        next.push(false);
        k = k + 1;
    }
    let mut next_end = true;
    proof {
        assert(pv@.skip(m as int) =~= Seq::<char>::empty());
        assert(nv@.skip(n as int) =~= Seq::<char>::empty());
        assert forall|t: int| 0 <= t < n implies next@[t] == glob_match(nv@.skip(t), pv@.skip(m as int)) by {
            assert(nv@.skip(t).len() > 0);
        }
    }
    let mut j = m;
    while j > 0
        invariant
            n == nv@.len(),
            m == pv@.len(),
            nv@ == name@,
            pv@ == pattern@,
            j <= m,
            next@.len() == n,
            next_end == glob_match(nv@.skip(n as int), pv@.skip(j as int)),
            forall|t: int| 0 <= t < n ==> next@[t] == glob_match(nv@.skip(t), pv@.skip(j as int)),
        decreases j,
    {
        j = j - 1;
        let star = pv[j] == '*';
        proof {
            lemma_glob_step(nv@, pv@, n as int, j as int);
        }
        let cur_end = star && next_end;
        let mut cur: Vec<bool> = next.clone();
        let mut i = n;
        while i > 0
            invariant
                n == nv@.len(),
                m == pv@.len(),
                j < m,
                star == (pv@[j as int] == '*'),
                i <= n,
                next@.len() == n,
                cur@.len() == n,
                next_end == glob_match(nv@.skip(n as int), pv@.skip(j + 1)),
                cur_end == glob_match(nv@.skip(n as int), pv@.skip(j as int)),
                forall|t: int| 0 <= t < n ==> next@[t] == glob_match(nv@.skip(t), pv@.skip(j + 1)),
                forall|t: int| i <= t < n ==> cur@[t] == glob_match(nv@.skip(t), pv@.skip(j as int)),
            decreases i,
        {
            i = i - 1;
            proof {
                lemma_glob_step(nv@, pv@, i as int, j as int);
            }
            let later_same = if i + 1 == n { cur_end } else { cur[i + 1] };
            let later_next = if i + 1 == n { next_end } else { next[i + 1] };
            let v = if star {
                next[i] || later_same
            } else {
                nv[i] == pv[j] && later_next
            };
            cur.set(i, v);
        }
        next = cur;
        next_end = cur_end;
    }
    proof {
        assert(pv@.skip(0) =~= pv@);
        assert(nv@.skip(0) =~= nv@);
    }
    if n == 0 {
        next_end
    } else {
        next[0]
    }
}

/// Without `*`, a pattern matches exactly the name equal to it.
proof fn lemma_literal_pattern(name: Seq<char>, lit: Seq<char>)
    requires
        forall|i: int| 0 <= i < lit.len() ==> lit[i] != '*',
    ensures
        glob_match(name, lit) <==> name == lit,
    decreases lit.len(),
{
    if lit.len() == 0 {
        if name.len() == 0 {
            assert(name =~= lit);
        }
    } else {
        lemma_literal_pattern(name.drop_first(), lit.drop_first());
        if name.len() > 0 && name[0] == lit[0] && name.drop_first() == lit.drop_first() {
            assert forall|k: int| 0 <= k < name.len() implies name[k] == lit[k] by {
                if k > 0 {
                    assert(name[k] == name.drop_first()[k - 1]);
                    assert(lit[k] == lit.drop_first()[k - 1]);
                }
            }
            assert(name =~= lit);
        }
        if name == lit {
            assert(name.drop_first() =~= lit.drop_first());
        }
    }
}

/// `*` followed by `rest` matches exactly when some suffix of the name
/// matches `rest`.
proof fn lemma_leading_star(name: Seq<char>, rest: Seq<char>)
    ensures
        glob_match(name, seq!['*'] + rest) <==> exists|i: int| 0 <= i <= name.len() && #[trigger] glob_match(name.skip(i), rest),
    decreases name.len(),
{
    let p = seq!['*'] + rest;
    assert(p.drop_first() =~= rest);
    assert(p[0] == '*');
    assert(name.skip(0) =~= name);
    assert(glob_match(name, p) == (glob_match(name, rest) || (name.len() > 0 && glob_match(name.drop_first(), p))));
    if glob_match(name, rest) {
        assert(glob_match(name.skip(0), rest));
    }
    if name.len() > 0 {
        lemma_leading_star(name.drop_first(), rest);
        if glob_match(name.drop_first(), p) {
            let i = choose|i: int| 0 <= i <= name.drop_first().len() && #[trigger] glob_match(name.drop_first().skip(i), rest);
            assert(name.drop_first().skip(i) =~= name.skip(i + 1));
            assert(glob_match(name.skip(i + 1), rest));
        }
        if exists|i: int| 0 <= i <= name.len() && #[trigger] glob_match(name.skip(i), rest) {
            let i = choose|i: int| 0 <= i <= name.len() && #[trigger] glob_match(name.skip(i), rest);
            if i > 0 {
                assert(name.drop_first().skip(i - 1) =~= name.skip(i));
                assert(glob_match(name.drop_first().skip(i - 1), rest));
            }
        }
    } else {
        if exists|i: int| 0 <= i <= name.len() && #[trigger] glob_match(name.skip(i), rest) {
            let i = choose|i: int| 0 <= i <= name.len() && #[trigger] glob_match(name.skip(i), rest);
            assert(i == 0);
        }
    }
}

/// A pattern made of `*` and a suffix without `*` (such as `*.php`)
/// matches exactly the names that end with the suffix.
pub proof fn lemma_suffix_pattern(name: Seq<char>, suffix: Seq<char>)
    requires
        forall|i: int| 0 <= i < suffix.len() ==> suffix[i] != '*',
    ensures
        glob_match(name, seq!['*'] + suffix) <==> ends_with(name, suffix),
{
    lemma_leading_star(name, suffix);
    if ends_with(name, suffix) {
        let i = name.len() - suffix.len();
        lemma_literal_pattern(name.skip(i), suffix);
        assert(glob_match(name.skip(i), suffix));
    }
    if glob_match(name, seq!['*'] + suffix) {
        let i = choose|i: int| 0 <= i <= name.len() && #[trigger] glob_match(name.skip(i), suffix);
        lemma_literal_pattern(name.skip(i), suffix);
        assert(name.skip(i) == suffix);
        assert(i == name.len() - suffix.len());
    }
}

/// A trailing `*` matches any rest of the name.
proof fn lemma_star_matches_all(name: Seq<char>)
    ensures
        glob_match(name, seq!['*']),
    decreases name.len(),
{
    let p = seq!['*'];
    assert(p.drop_first() =~= Seq::<char>::empty());
    assert(p[0] == '*');
    if name.len() > 0 {
        lemma_star_matches_all(name.drop_first());
        assert(glob_match(name.drop_first(), p));
    } else {
        assert(glob_match(name, Seq::<char>::empty()));
        assert(glob_match(name, p.drop_first()));
    }
}

/// A pattern made of a prefix without `*` and `*` (such as `app*`)
/// matches exactly the names that start with the prefix.
pub proof fn lemma_prefix_pattern(name: Seq<char>, prefix: Seq<char>)
    requires
        forall|i: int| 0 <= i < prefix.len() ==> prefix[i] != '*',
    ensures
        glob_match(name, prefix + seq!['*']) <==> starts_with(name, prefix),
    decreases prefix.len(),
{
    let p = prefix + seq!['*'];
    if prefix.len() == 0 {
        assert(p =~= seq!['*']);
        lemma_star_matches_all(name);
        assert(name.take(0) =~= prefix);
    } else {
        assert(p[0] == prefix[0]);
        assert(p.drop_first() =~= prefix.drop_first() + seq!['*']);
        if name.len() > 0 {
            lemma_prefix_pattern(name.drop_first(), prefix.drop_first());
            if starts_with(name, prefix) {
                assert(name.take(prefix.len() as int)[0] == prefix[0]);
                assert(name.drop_first().take(prefix.len() - 1) =~= prefix.drop_first());
            }
            if name[0] == prefix[0] && starts_with(name.drop_first(), prefix.drop_first()) {
                assert forall|k: int| 0 <= k < prefix.len() implies name.take(prefix.len() as int)[k] == prefix[k] by {
                    if k > 0 {
                        assert(name.drop_first().take(prefix.len() - 1)[k - 1] == prefix.drop_first()[k - 1]);
                    }
                }
                assert(name.take(prefix.len() as int) =~= prefix);
            }
        }
    }
}

/// Whether a directory is skipped: its path contains one of the non-empty
/// exclude strings.
pub open spec fn dir_excluded_spec(dir: Seq<char>, excludes: Seq<Seq<char>>) -> bool {
    exists|i: int| 0 <= i < excludes.len() && excludes[i].len() > 0 && contains_seq(dir, #[trigger] excludes[i])
}

/// Decides whether a watched directory is skipped.
pub fn dir_excluded(dir: &str, excludes: &Vec<String>) -> (r: bool)
    ensures
        r == dir_excluded_spec(dir@, strings_view(excludes@)),
{
    let dv = chars_vec(dir);
    let ghost ex = strings_view(excludes@);
    let mut i: usize = 0;
    while i < excludes.len()
        invariant
            i <= excludes@.len(),
            ex == strings_view(excludes@),
            dv@ == dir@,
            forall|j: int| 0 <= j < i ==> !(ex[j].len() > 0 && contains_seq(dir@, #[trigger] ex[j])),
        decreases excludes@.len() - i,
    {
        let xv = chars_vec(excludes[i].as_str());
        if xv.len() > 0 && contains_chars(&dv, &xv) {
            proof {
                assert(ex[i as int] == xv@);
            }
            return true;
        }
        proof {
            assert(ex[i as int] == xv@);
        }
        i = i + 1;
    }
    false
}

/// A file name matches one of the patterns.
pub open spec fn matches_any_spec(file_name: Seq<char>, patterns: Seq<Seq<char>>) -> bool {
    exists|i: int| 0 <= i < patterns.len() && glob_match(file_name, #[trigger] patterns[i])
}

/// A file name matches one of the non-empty exclude patterns.
pub open spec fn name_excluded_spec(file_name: Seq<char>, excludes: Seq<Seq<char>>) -> bool {
    exists|i: int| 0 <= i < excludes.len() && excludes[i].len() > 0 && glob_match(file_name, #[trigger] excludes[i])
}

/// Whether a file is watched: its name matches no non-empty exclude
/// pattern, and there are no name patterns or it matches one of them.
pub open spec fn file_selected_spec(file_name: Seq<char>, names: Seq<Seq<char>>, excludes: Seq<Seq<char>>) -> bool {
    !name_excluded_spec(file_name, excludes) && (names.len() == 0 || matches_any_spec(file_name, names))
}

/// Whether a file name matches one of the patterns (empty ones skipped when
/// `skip_empty`).
fn matches_any(file_name: &str, patterns: &Vec<String>, skip_empty: bool) -> (r: bool)
    ensures
        skip_empty ==> r == name_excluded_spec(file_name@, strings_view(patterns@)),
        !skip_empty ==> r == matches_any_spec(file_name@, strings_view(patterns@)),
{
    let ghost nm = strings_view(patterns@);
    let mut i: usize = 0;
    while i < patterns.len()
        invariant
            i <= patterns@.len(),
            nm == strings_view(patterns@),
            forall|j: int| 0 <= j < i ==> !((!skip_empty || nm[j].len() > 0) && glob_match(file_name@, #[trigger] nm[j])),
        decreases patterns@.len() - i,
    {
        proof {
            assert(nm[i as int] == patterns@[i as int]@);
        }
        let p = patterns[i].as_str();
        let counted = !skip_empty || p.unicode_len() > 0;
        if counted && matches_pattern(file_name, p) {
            return true;
        }
        i = i + 1;
    }
    false
}

/// Decides whether a file found while scanning is watched.
pub fn file_selected(file_name: &str, names: &Vec<String>, excludes: &Vec<String>) -> (r: bool)
    ensures
        r == file_selected_spec(file_name@, strings_view(names@), strings_view(excludes@)),
{
    if matches_any(file_name, excludes, true) {
        return false;
    }
    if names.len() == 0 {
        return true;
    }
    matches_any(file_name, names, false)
}

// ───────────── modification times of watched files ─────────────

/// The paths of the entries, in order.
pub open spec fn keys_of(e: Seq<(String, i128)>) -> Seq<Seq<char>> {
    Seq::new(e.len(), |i: int| e[i].0@)
}

/// Modification times of the watched files, by path. A time is given as
/// nanoseconds from the Unix epoch, negative before it.
pub struct MtimeTable {
    entries: Vec<(String, i128)>,
}

proof fn lemma_index_of_unique(ks: Seq<Seq<char>>, j: int)
    requires
        ks.no_duplicates(),
        0 <= j < ks.len(),
    ensures
        ks.index_of(ks[j]) == j,
{
    assert(ks.contains(ks[j]));
    let i = ks.index_of(ks[j]);
    assert(0 <= i < ks.len() && ks[i] == ks[j]);
}

impl MtimeTable {
    /// No path occurs twice.
    pub closed spec fn wf(&self) -> bool {
        keys_of(self.entries@).no_duplicates()
    }

    /// Path to modification time.
    pub closed spec fn stamps(&self) -> Map<Seq<char>, i128> {
        let ks = keys_of(self.entries@);
        Map::new(|k: Seq<char>| ks.contains(k), |k: Seq<char>| self.entries@[ks.index_of(k)].1)
    }

    proof fn lemma_stamps(&self)
        requires
            self.wf(),
        ensures
            self.stamps().dom() == keys_of(self.entries@).to_set(),
            self.stamps().dom().finite(),
            self.stamps().dom().len() == self.entries@.len(),
            forall|j: int|
                0 <= j < self.entries@.len() ==> self.stamps()[#[trigger] self.entries@[j].0@]
                    == self.entries@[j].1,
    {
        let ks = keys_of(self.entries@);
        assert(self.stamps().dom() =~= ks.to_set());
        vstd::seq_lib::seq_to_set_is_finite(ks);
        ks.unique_seq_to_set();
        assert forall|j: int| 0 <= j < self.entries@.len() implies self.stamps()[#[trigger] self.entries@[j].0@]
            == self.entries@[j].1 by {
            assert(ks[j] == self.entries@[j].0@);
            lemma_index_of_unique(ks, j);
        }
    }

    /// No files.
    pub fn new() -> (r: Self)
        ensures
            r.wf(),
            r.stamps() == Map::<Seq<char>, i128>::empty(),
    {
        let r = MtimeTable { entries: Vec::new() };
        proof {
            assert(r.stamps() =~= Map::<Seq<char>, i128>::empty());
        }
        r
    }

    /// Number of files.
    pub fn len(&self) -> (r: usize)
        requires
            self.wf(),
        ensures
            r == self.stamps().dom().len(),
    {
        proof {
            self.lemma_stamps();
        }
        self.entries.len()
    }

    /// Records the time of a file, replacing an earlier one for the same path.
    pub fn insert(&mut self, path: String, stamp: i128)
        requires
            old(self).wf(),
        ensures
            final(self).wf(),
            final(self).stamps() == old(self).stamps().insert(path@, stamp),
    {
        let ghost old_e = self.entries@;
        let ghost ks = keys_of(old_e);
        let ghost old_stamps = self.stamps();
        let mut i: usize = 0;
        while i < self.entries.len()
            invariant
                self.entries@ == old_e,
                old_stamps == old(self).stamps(),
                old_stamps == Map::new(|k: Seq<char>| ks.contains(k), |k: Seq<char>| old_e[ks.index_of(k)].1),
                ks == keys_of(old_e),
                ks.no_duplicates(),
                i <= old_e.len(),
                forall|j: int| 0 <= j < i ==> ks[j] != path@,
            decreases old_e.len() - i,
        {
            if self.entries[i].0 == path {
                let ghost idx = i as int;
                proof {
                    assert(ks[idx] == path@);
                }
                self.entries.set(i, (path, stamp));
                proof {
                    let ne = self.entries@;
                    assert(keys_of(ne) =~= ks);
                    assert(self.stamps().dom() =~= old_stamps.insert(path@, stamp).dom());
                    assert forall|k: Seq<char>| self.stamps().dom().contains(k) implies #[trigger] self.stamps()[k]
                        == old_stamps.insert(path@, stamp)[k] by {
                        let j = ks.index_of(k);
                        assert(0 <= j < ks.len() && ks[j] == k);
                        lemma_index_of_unique(ks, j);
                        if k == path@ {
                            lemma_index_of_unique(ks, idx);
                            assert(j == idx);
                        } else {
                            assert(j != idx);
                        }
                    }
                    assert(self.stamps() =~= old_stamps.insert(path@, stamp));
                }
                return;
            }
            i = i + 1;
        }
        proof {
            assert(!ks.contains(path@));
        }
        self.entries.push((path, stamp));
        proof {
            let ne = self.entries@;
            let nks = keys_of(ne);
            assert(nks =~= ks.push(path@));
            assert(nks.no_duplicates()) by {
                assert forall|a: int, b: int| 0 <= a < nks.len() && 0 <= b < nks.len() && a != b implies nks[a]
                    != nks[b] by {
                    if a < ks.len() && b < ks.len() {
                        assert(ks[a] != ks[b]);
                    } else if a < ks.len() {
                        assert(ks.contains(ks[a]));
                    } else {
                        assert(ks.contains(ks[b]));
                    }
                }
            }
            assert forall|k: Seq<char>| #[trigger] self.stamps().dom().contains(k) <==> old(self).stamps().insert(
                path@,
                stamp,
            ).dom().contains(k) by {
                if k == path@ {
                    assert(nks[ks.len() as int] == k);
                }
                if ks.contains(k) {
                    let j = choose|j: int| 0 <= j < ks.len() && ks[j] == k;
                    assert(nks[j] == k);
                }
                if nks.contains(k) && k != path@ {
                    let j = choose|j: int| 0 <= j < nks.len() && nks[j] == k;
                    assert(ks[j] == k);
                }
            }
            assert forall|k: Seq<char>| self.stamps().dom().contains(k) implies #[trigger] self.stamps()[k]
                == old(self).stamps().insert(path@, stamp)[k] by {
                let j = nks.index_of(k);
                lemma_index_of_unique(nks, j);
                if k == path@ {
                    lemma_index_of_unique(nks, ks.len() as int);
                } else {
                    assert(j < ks.len());
                    assert(ks[j] == k);
                    lemma_index_of_unique(ks, j);
                }
            }
            assert(self.stamps() =~= old(self).stamps().insert(path@, stamp));
        }
    }

    /// Whether the files changed since `prev` was taken: the number of files
    /// differs, or a file of `self` is new or has another time. This is the
    /// case exactly when the two tables differ.
    pub fn differs(&self, prev: &MtimeTable) -> (r: bool)
        requires
            self.wf(),
            prev.wf(),
        ensures
            r == (self.stamps().dom().len() != prev.stamps().dom().len() || exists|k: Seq<char>|
                #[trigger] self.stamps().dom().contains(k) && (!prev.stamps().dom().contains(k)
                    || prev.stamps()[k] != self.stamps()[k])),
            r == (self.stamps() != prev.stamps()),
    {
        proof {
            self.lemma_stamps();
            prev.lemma_stamps();
        }
        let r = self.differs_by_entries(prev);
        proof {
            if !r {
                assert(self.stamps().dom().subset_of(prev.stamps().dom()));
                vstd::set_lib::lemma_subset_equality(self.stamps().dom(), prev.stamps().dom());
                assert(self.stamps() =~= prev.stamps());
            }
        }
        r
    }

    fn differs_by_entries(&self, prev: &MtimeTable) -> (r: bool)
        requires
            self.wf(),
            prev.wf(),
        ensures
            r == (self.stamps().dom().len() != prev.stamps().dom().len() || exists|k: Seq<char>|
                #[trigger] self.stamps().dom().contains(k) && (!prev.stamps().dom().contains(k)
                    || prev.stamps()[k] != self.stamps()[k])),
    {
        proof {
            self.lemma_stamps();
            prev.lemma_stamps();
        }
        if self.entries.len() != prev.entries.len() {
            return true;
        }
        proof {
            assert forall|j: int| 0 <= j < self.entries@.len() implies self.stamps().dom().contains(
                #[trigger] self.entries@[j].0@,
            ) by {
                assert(keys_of(self.entries@)[j] == self.entries@[j].0@);
            }
        }
        let mut i: usize = 0;
        while i < self.entries.len()
            invariant
                self.wf(),
                prev.wf(),
                i <= self.entries@.len(),
                self.stamps().dom().len() == prev.stamps().dom().len(),
                forall|j: int|
                    0 <= j < self.entries@.len() ==> self.stamps()[#[trigger] self.entries@[j].0@]
                        == self.entries@[j].1,
                forall|j: int| 0 <= j < self.entries@.len() ==> self.stamps().dom().contains(#[trigger] self.entries@[j].0@),
                forall|j: int|
                    0 <= j < i ==> prev.stamps().dom().contains(#[trigger] self.entries@[j].0@)
                        && prev.stamps()[self.entries@[j].0@] == self.entries@[j].1,
            decreases self.entries@.len() - i,
        {
            let found = prev.lookup(&self.entries[i].0);
            let same = match found {
                Some(t) => t == self.entries[i].1,
                None => false,
            };
            if !same {
                proof {
                    let k = self.entries@[i as int].0@;
                    assert(self.stamps().dom().contains(k));
                }
                return true;
            }
            i = i + 1;
        }
        proof {
            assert forall|k: Seq<char>| #[trigger] self.stamps().dom().contains(k) implies prev.stamps().dom().contains(k)
                && prev.stamps()[k] == self.stamps()[k] by {
                let ks = keys_of(self.entries@);
                let j = choose|j: int| 0 <= j < ks.len() && ks[j] == k;
                assert(self.entries@[j].0@ == k);
            }
        }
        false
    }

    /// The time recorded for `path`, if any.
    pub fn lookup(&self, path: &String) -> (r: Option<i128>)
        requires
            self.wf(),
        ensures
            r == (if self.stamps().dom().contains(path@) {
                Some(self.stamps()[path@])
            } else {
                None
            }),
    {
        proof {
            self.lemma_stamps();
        }
        let ghost ks = keys_of(self.entries@);
        let mut i: usize = 0;
        while i < self.entries.len()
            invariant
                ks == keys_of(self.entries@),
                self.wf(),
                i <= self.entries@.len(),
                forall|j: int| 0 <= j < i ==> ks[j] != path@,
            decreases self.entries@.len() - i,
        {
            if self.entries[i].0 == *path {
                proof {
                    self.lemma_stamps();
                    assert(ks[i as int] == path@);
                    assert(self.entries@[i as int].0@ == path@);
                }
                return Some(self.entries[i].1);
            }
            i = i + 1;
        }
        proof {
            assert(!ks.contains(path@));
        }
        None
    }
}


// ───────────── child processes ─────────────

/// The two kinds of child process, told apart when one is restarted.
#[derive(PartialEq, Eq, Structural, Clone, Copy, Debug)]
pub enum ChildKind {
    /// Serves HTTP and WebSocket.
    Http,
    /// Runs the PHP queue consumer.
    Queue,
}

/// The PHP subcommand that a child of `kind` runs.
pub open spec fn subcommand_spec(kind: ChildKind) -> Seq<char> {
    match kind {
        ChildKind::Http => "worker:child"@,
        ChildKind::Queue => "worker:queue"@,
    }
}

/// The environment variable set to `1` in a child of `kind`.
pub open spec fn env_key_spec(kind: ChildKind) -> Seq<char> {
    match kind {
        ChildKind::Http => "LYCHEE_WORKER_CHILD"@,
        ChildKind::Queue => "LYCHEE_WORKER_QUEUE"@,
    }
}

/// The arguments of `php` for a child of `kind`: the entry script and the
/// subcommand; an HTTP child also gets the host, port and number of
/// workers (the queue command declares no such options).
pub open spec fn child_args_spec(kind: ChildKind, script: Seq<char>, host: Seq<char>, port: u16, worker_num: usize) -> Seq<
    Seq<char>,
> {
    seq![script, subcommand_spec(kind)] + match kind {
        ChildKind::Http => seq![
            "--host"@,
            host,
            "--port"@,
            dec_chars(port as nat),
            "--worker-num"@,
            dec_chars(worker_num as nat),
        ],
        ChildKind::Queue => Seq::empty(),
    }
}

/// How to start a child: `php` with these arguments, and this environment
/// variable set to `1`.
pub struct ChildCommand {
    pub args: Vec<String>,
    pub env_key: String,
}

/// The entry script: the one named by the environment, else `think`.
pub open spec fn entry_script_spec(entry: Option<String>) -> Seq<char> {
    match entry {
        Some(s) => s@,
        None => "think"@,
    }
}

/// The command that starts a child of `kind`, given the entry script named
/// by the environment, if any.
pub fn child_command(kind: ChildKind, entry: Option<String>, cfg: &WorkerConfig) -> (r: ChildCommand)
    ensures
        strings_view(r.args@) == child_args_spec(kind, entry_script_spec(entry), cfg.host@, cfg.port, cfg.worker_num),
        r.env_key@ == env_key_spec(kind),
{
    let script = match entry {
        Some(s) => s,
        None => String::from_str("think"),
    };
    let ghost script_view = script@;
    let mut args: Vec<String> = Vec::new();
    args.push(script);
    let env_key = match kind {
        ChildKind::Http => {
            args.push(String::from_str("worker:child"));
            args.push(String::from_str("--host"));
            args.push(cfg.host.clone());
            args.push(String::from_str("--port"));
            args.push(dec_string(cfg.port as u128));
            args.push(String::from_str("--worker-num"));
            args.push(dec_string(cfg.worker_num as u128));
            String::from_str("LYCHEE_WORKER_CHILD")
        },
        ChildKind::Queue => {
            args.push(String::from_str("worker:queue"));
            String::from_str("LYCHEE_WORKER_QUEUE")
        },
    };
    proof {
        assert(strings_view(args@) =~= child_args_spec(kind, script_view, cfg.host@, cfg.port, cfg.worker_num));
    }
    ChildCommand { args, env_key }
}

/// The name of a kind in log lines.
pub fn child_label(kind: ChildKind) -> (r: &'static str)
    ensures
        kind == ChildKind::Http ==> r@ == "http"@,
        kind == ChildKind::Queue ==> r@ == "queue"@,
{
    match kind {
        ChildKind::Http => "http",
        ChildKind::Queue => "queue",
    }
}

/// The children a worker runs: `worker_num` HTTP children, then one queue
/// child when the queue is enabled.
pub open spec fn children_plan_spec(worker_num: nat, enable_queue: bool) -> Seq<ChildKind> {
    Seq::new(worker_num, |i: int| ChildKind::Http) + if enable_queue {
        seq![ChildKind::Queue]
    } else {
        Seq::empty()
    }
}

/// The children to start, at launch and after a file change.
pub fn children_plan(worker_num: usize, enable_queue: bool) -> (r: Vec<ChildKind>)
    ensures
        r@ == children_plan_spec(worker_num as nat, enable_queue),
{
    let mut out: Vec<ChildKind> = Vec::new();
    let mut i: usize = 0;
    while i < worker_num
        invariant
            i <= worker_num,
            out@ == Seq::new(i as nat, |j: int| ChildKind::Http),
        decreases worker_num - i,
    {
        out.push(ChildKind::Http);
        i = i + 1;
        proof {
            assert(out@ =~= Seq::new(i as nat, |j: int| ChildKind::Http));
        }
    }
    if enable_queue {
        out.push(ChildKind::Queue);
    }
    proof {
        assert(out@ =~= children_plan_spec(worker_num as nat, enable_queue));
    }
    out
}

/// The positions `< n` of the children still running, in order.
pub open spec fn kept_positions(exited: Seq<bool>, n: int) -> Seq<usize>
    decreases n,
{
    if n <= 0 {
        Seq::empty()
    } else if exited[n - 1] {
        kept_positions(exited, n - 1)
    } else {
        kept_positions(exited, n - 1).push((n - 1) as usize)
    }
}

/// The kinds of the children at positions `< n` that have exited, in order.
pub open spec fn exited_kinds(kinds: Seq<ChildKind>, exited: Seq<bool>, n: int) -> Seq<ChildKind>
    decreases n,
{
    if n <= 0 {
        Seq::empty()
    } else if exited[n - 1] {
        exited_kinds(kinds, exited, n - 1).push(kinds[n - 1])
    } else {
        exited_kinds(kinds, exited, n - 1)
    }
}

/// Splits the tracked children, given which of them have exited, into the
/// positions of those to keep and the kinds to start again. Every child is
/// in exactly one of the two.
pub fn reap_plan(kinds: &Vec<ChildKind>, exited: &Vec<bool>) -> (r: (Vec<usize>, Vec<ChildKind>))
    requires
        kinds@.len() == exited@.len(),
    ensures
        r.0@ == kept_positions(exited@, exited@.len() as int),
        r.1@ == exited_kinds(kinds@, exited@, exited@.len() as int),
        r.0@.len() + r.1@.len() == kinds@.len(),
        forall|j: int| 0 <= j < r.0@.len() ==> !exited@[#[trigger] r.0@[j] as int] && r.0@[j] < kinds@.len(),
{
    let mut kept: Vec<usize> = Vec::new();
    let mut restart: Vec<ChildKind> = Vec::new();
    let mut i: usize = 0;
    while i < exited.len()
        invariant
            kinds@.len() == exited@.len(),
            i <= exited@.len(),
            kept@ == kept_positions(exited@, i as int),
            restart@ == exited_kinds(kinds@, exited@, i as int),
            kept@.len() + restart@.len() == i,
            forall|j: int| 0 <= j < kept@.len() ==> !exited@[#[trigger] kept@[j] as int] && kept@[j] < i,
        decreases exited@.len() - i,
    {
        if exited[i] {
            restart.push(kinds[i]);
        } else {
            kept.push(i);
        }
        i = i + 1;
    }
    (kept, restart)
}

/// How many entries of `s` are of kind `k`.
pub open spec fn count_kind(s: Seq<ChildKind>, k: ChildKind) -> nat
    decreases s.len(),
{
    if s.len() == 0 {
        0
    } else {
        count_kind(s.drop_last(), k) + if s.last() == k {
            1nat
        } else {
            0nat
        }
    }
}

/// The kinds of the children at the given positions.
pub open spec fn kinds_at(kinds: Seq<ChildKind>, pos: Seq<usize>) -> Seq<ChildKind> {
    Seq::new(pos.len(), |j: int| kinds[pos[j] as int])
}

proof fn lemma_reap_counts_upto(kinds: Seq<ChildKind>, exited: Seq<bool>, n: int, k: ChildKind)
    requires
        kinds.len() == exited.len(),
        kinds.len() <= usize::MAX,
        0 <= n <= kinds.len(),
    ensures
        count_kind(kinds_at(kinds, kept_positions(exited, n)), k) + count_kind(exited_kinds(kinds, exited, n), k)
            == count_kind(kinds.take(n), k),
    decreases n,
{
    if n == 0 {
        assert(kinds_at(kinds, kept_positions(exited, 0)) =~= Seq::<ChildKind>::empty());
        assert(kinds.take(0) =~= Seq::<ChildKind>::empty());
    } else {
        lemma_reap_counts_upto(kinds, exited, n - 1, k);
        assert(kinds.take(n).drop_last() =~= kinds.take(n - 1));
        assert(kinds.take(n).last() == kinds[n - 1]);
        if !exited[n - 1] {
            let prev = kept_positions(exited, n - 1);
            assert(kinds_at(kinds, prev.push((n - 1) as usize)) =~= kinds_at(kinds, prev).push(kinds[n - 1]));
            assert(kinds_at(kinds, prev).push(kinds[n - 1]).drop_last() =~= kinds_at(kinds, prev));
        } else {
            let prev = exited_kinds(kinds, exited, n - 1);
            assert(prev.push(kinds[n - 1]).drop_last() =~= prev);
        }
    }
}

/// Restarting every exited child keeps the number of children of each
/// kind: the kept children and those started again have, together, as many
/// of each kind as there were before (for as many children as a `Vec`
/// can hold).
pub proof fn lemma_reap_keeps_kinds(kinds: Seq<ChildKind>, exited: Seq<bool>, k: ChildKind)
    requires
        kinds.len() == exited.len(),
        kinds.len() <= usize::MAX,
    ensures
        count_kind(kinds_at(kinds, kept_positions(exited, exited.len() as int)), k) + count_kind(
            exited_kinds(kinds, exited, exited.len() as int),
            k,
        ) == count_kind(kinds, k),
{
    lemma_reap_counts_upto(kinds, exited, kinds.len() as int, k);
    assert(kinds.take(kinds.len() as int) =~= kinds);
}

/// The decisions of the parent process between its sleeps: it remembers the
/// file times it last saw and which children a restart starts.
pub struct Supervisor {
    prev: MtimeTable,
    worker_num: usize,
    enable_queue: bool,
}

impl Supervisor {
    /// The file times last seen.
    pub closed spec fn seen(&self) -> Map<Seq<char>, i128> {
        self.prev.stamps()
    }

    /// The children that a restart starts.
    pub closed spec fn plan(&self) -> Seq<ChildKind> {
        children_plan_spec(self.worker_num as nat, self.enable_queue)
    }

    /// The table it holds is well formed.
    pub closed spec fn wf(&self) -> bool {
        self.prev.wf()
    }

    /// A supervisor for `cfg` that has seen the file times `initial`.
    pub fn new(cfg: &WorkerConfig, initial: MtimeTable) -> (r: Self)
        requires
            initial.wf(),
        ensures
            r.wf(),
            r.seen() == initial.stamps(),
            r.plan() == children_plan_spec(cfg.worker_num as nat, cfg.enable_queue),
    {
        Supervisor { prev: initial, worker_num: cfg.worker_num, enable_queue: cfg.enable_queue }
    }

    /// One check of the watched files: when their times differ from those
    /// last seen, all children are to be stopped and the plan started again,
    /// and the new times become those seen; otherwise nothing happens.
    pub fn files_checked(&mut self, current: MtimeTable) -> (r: Option<Vec<ChildKind>>)
        requires
            old(self).wf(),
            current.wf(),
        ensures
            final(self).wf(),
            final(self).plan() == old(self).plan(),
            current.stamps() != old(self).seen() ==> (r matches Some(p) && p@ == old(self).plan()
                && final(self).seen() == current.stamps()),
            current.stamps() == old(self).seen() ==> r is None && final(self).seen() == old(self).seen(),
    {
        if current.differs(&self.prev) {
            let plan = children_plan(self.worker_num, self.enable_queue);
            self.prev = current;
            Some(plan)
        } else {
            None
        }
    }
}

/// Whether this process is an HTTP child: the environment sets
/// `LYCHEE_WORKER_CHILD` to `1`.
pub fn is_http_child(child_env: Option<String>) -> (r: bool)
    ensures
        r == (child_env matches Some(v) && v@ == "1"@),
{
    proof {
        reveal_strlit("1");
    }
    match child_env {
        Some(v) => {
            let one = String::from_str("1");
            v == one
        },
        None => false,
    }
}


// ───────────── lazily filled global cells ─────────────

/// A cell that is filled with the default value on first use, so that a
/// process-wide table can be declared before anything runs.
pub struct GlobalMap<T> {
    pub slot: Option<T>,
}

impl<T> GlobalMap<T> {
    /// An empty cell.
    pub fn new() -> (r: Self)
        ensures
            r.slot is None,
    {
        GlobalMap { slot: None }
    }

    /// Fills an empty cell with the default value; a filled cell keeps its
    /// value.
    fn init_default(&mut self)
        where T: Default,
        ensures
            final(self).slot is Some,
            old(self).slot is Some ==> final(self).slot == old(self).slot,
            old(self).slot is None ==> call_ensures(T::default, (), final(self).slot->0),
    {
        if self.slot.is_none() {
            self.slot = Some(T::default());
        }
    }

    /// Runs `f` on the value, filling the cell first when it is empty.
    pub fn with<R>(&mut self, f: impl FnOnce(&T) -> R) -> (r: R)
        where T: Default,
        requires
            forall|t: &T| #[trigger] f.requires((t,)),
        ensures
            final(self).slot is Some,
            old(self).slot is Some ==> final(self).slot == old(self).slot,
            old(self).slot is None ==> call_ensures(T::default, (), final(self).slot->0),
            f.ensures((&final(self).slot->0,), r),
    {
        self.init_default();
        f(self.slot.as_ref().unwrap())
    }
}

/// The handle of the running worker: whether a stop was asked for.
pub struct WorkerRuntime {
    pub stop_flag: bool,
}

impl WorkerRuntime {
    /// A runtime with no stop asked for.
    pub fn new() -> (r: Self)
        ensures
            !r.stop_flag,
    {
        WorkerRuntime { stop_flag: false }
    }

    /// Asks for a graceful stop.
    pub fn stop(&mut self)
        ensures
            final(self).stop_flag,
    {
        self.stop_flag = true;
    }

    /// Whether a stop was asked for.
    pub fn stop_requested(&self) -> (r: bool)
        ensures
            r == self.stop_flag,
    {
        self.stop_flag
    }
}

} // verus!
