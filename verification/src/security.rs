//! Admission policies: rate limiting per sender, connection caps per
//! address, block/allow lists, and input validation for replicated keys
//! and values.
//!
//! The rate limiter keeps, per sender, the instants (milliseconds) of its
//! accepted requests within the last minute. A check first evicts instants
//! older than sixty seconds, then refuses when the remaining count reaches
//! the per-minute limit, then refuses when the count within the last
//! second reaches the burst limit, and otherwise records the new instant.
//! The sustained-rate check deliberately precedes the burst check.

use vstd::prelude::*;

verus! {

use vstd::string::StrSliceExecFns;
use crate::strings::{utf8_bytes, str_eq_chars};
use crate::whitelist::{PeerWhitelist, wl_active};

/// Tunable limits and lists for the inbound path.
#[derive(Debug)]
pub struct SecurityConfig {
    /// Accepted messages per sender per sliding minute.
    pub rate_limit_per_minute: u32,
    /// Accepted messages per sender per sliding second.
    pub rate_limit_burst: u32,
    /// Hard ceiling on a topic payload, in bytes.
    pub max_message_size: usize,
    /// Longest accepted key, in UTF-8 bytes.
    pub max_key_length: usize,
    /// Longest accepted value, in UTF-8 bytes.
    pub max_value_length: usize,
    /// Concurrent connections accepted from one remote address.
    pub max_connections_per_ip: usize,
    /// Idle timeout for connections, in seconds.
    pub connection_timeout_secs: u64,
    /// Identities refused outright.
    pub blocked_peers: Vec<String>,
    /// When present and no whitelist is attached: the only identities
    /// admitted.
    pub allowed_peers: Option<Vec<String>>,
}

/// Whether a list of identities holds `p`.
pub open spec fn id_listed(s: Seq<String>, p: Seq<char>) -> bool {
    exists|i: int| 0 <= i < s.len() && (#[trigger] s[i])@ == p
}

impl Default for SecurityConfig {
    /// The deployment defaults: 60 messages a minute with bursts of 10, a
    /// one-mebibyte payload ceiling, 256-byte keys, 64-kibibyte values,
    /// ten connections per address, no blocked and no allowed list.
    fn default() -> (c: SecurityConfig)
        ensures
            c.rate_limit_per_minute == 60,
            c.rate_limit_burst == 10,
            c.max_message_size == 1048576,
            c.max_key_length == 256,
            c.max_value_length == 65536,
            c.max_connections_per_ip == 10,
            c.connection_timeout_secs == 30,
            c.blocked_peers@.len() == 0,
            c.allowed_peers is None,
    {
        SecurityConfig {
            rate_limit_per_minute: 60,
            rate_limit_burst: 10,
            max_message_size: 1048576,
            max_key_length: 256,
            max_value_length: 65536,
            max_connections_per_ip: 10,
            connection_timeout_secs: 30,
            blocked_peers: Vec::new(),
            allowed_peers: None,
        }
    }
}

/// Refusals of the admission policies.
#[derive(Debug, Clone, Copy, PartialEq, Eq, Structural)]
pub enum AdmissionError {
    /// More than the per-minute allowance arrived in the last minute.
    RateLimitExceeded,
    /// More than the burst allowance arrived in the last second.
    BurstLimitExceeded,
    /// The sender is on the blocklist.
    PeerBlocked,
    /// A whitelist is attached and the sender is not on it.
    PeerNotWhitelisted,
    /// A static allowed list is configured and the sender is not on it.
    PeerNotAllowed,
    /// The remote address reached its connection cap.
    ConnectionLimitExceeded,
}

/// Instants within the sliding minute before `now`.
pub open spec fn retained_window(w: Seq<u64>, now: int) -> Seq<u64> {
    w.filter(|t: u64| t as int > now - 60000)
}

/// How many instants fall within the sliding second before `now`.
pub open spec fn burst_count(w: Seq<u64>, now: int) -> int {
    w.filter(|t: u64| t as int > now - 1000).len() as int
}

/// Whether a check at `now` against window `w` is admitted.
pub open spec fn rate_check_ok(w: Seq<u64>, now: int, per_minute: int, burst: int) -> bool {
    &&& retained_window(w, now).len() < per_minute
    &&& burst_count(retained_window(w, now), now) < burst
}

/// The window after a check at `now`: evicted, and extended by `now` when
/// the check was admitted.
pub open spec fn rate_check_next(w: Seq<u64>, now: int, per_minute: int, burst: int) -> Seq<u64> {
    if rate_check_ok(w, now, per_minute, burst) {
        retained_window(w, now).push(now as u64)
    } else {
        retained_window(w, now)
    }
}

/// A nondecreasing sequence of arrival instants: what a monotone clock
/// hands a sender's successive checks.
pub open spec fn times_sorted(times: Seq<u64>) -> bool {
    forall|i: int, j: int| 0 <= i <= j < times.len() ==> times[i] <= times[j]
}

/// The sender's window after a run of checks at the given instants,
/// starting from an empty record: each step is exactly the transition
/// `check_rate_limit` is specified by.
pub open spec fn rl_run(times: Seq<u64>, per_minute: int, burst: int) -> Seq<u64>
    decreases times.len(),
{
    if times.len() == 0 {
        Seq::empty()
    } else {
        rate_check_next(
            rl_run(times.drop_last(), per_minute, burst),
            times.last() as int,
            per_minute,
            burst,
        )
    }
}

/// Whether the check at position `k` of the run is admitted.
pub open spec fn rl_accepted(times: Seq<u64>, k: int, per_minute: int, burst: int) -> bool {
    rate_check_ok(rl_run(times.take(k), per_minute, burst), times[k] as int, per_minute, burst)
}

/// The instants of the admitted checks, in arrival order.
pub open spec fn rl_accepted_times(times: Seq<u64>, per_minute: int, burst: int) -> Seq<u64>
    decreases times.len(),
{
    if times.len() == 0 {
        Seq::empty()
    } else {
        let d = rl_accepted_times(times.drop_last(), per_minute, burst);
        if rl_accepted(times, times.len() - 1, per_minute, burst) {
            d.push(times.last())
        } else {
            d
        }
    }
}

/// Filtering instants above a lower cut, then above a higher one, keeps
/// exactly those above the higher one.
proof fn lemma_filter_gt_compose(s: Seq<u64>, a: int, b: int)
    requires
        a <= b,
    ensures
        s.filter(|x: u64| x as int > a).filter(|x: u64| x as int > b) == s.filter(
            |x: u64| x as int > b,
        ),
    decreases s.len(),
{
    reveal(Seq::filter);
    let pa = |x: u64| x as int > a;
    let pb = |x: u64| x as int > b;
    if s.len() == 0 {
        assert(s.filter(pa) =~= Seq::<u64>::empty());
    } else {
        let d = s.drop_last();
        lemma_filter_gt_compose(d, a, b);
        let last = s.last();
        if pa(last) {
            assert(s.filter(pa) == d.filter(pa).push(last));
            assert(s.filter(pa).drop_last() =~= d.filter(pa));
            assert(s.filter(pa).last() == last);
        } else {
            assert(s.filter(pa) == d.filter(pa));
        }
    }
}

/// A filter whose test implies another's, element by element, keeps no
/// more elements.
proof fn lemma_filter_len_implies(s: Seq<u64>, p: spec_fn(u64) -> bool, q: spec_fn(u64) -> bool)
    requires
        forall|i: int| 0 <= i < s.len() && p(#[trigger] s[i]) ==> q(s[i]),
    ensures
        s.filter(p).len() <= s.filter(q).len(),
    decreases s.len(),
{
    reveal(Seq::filter);
    if s.len() > 0 {
        lemma_filter_len_implies(s.drop_last(), p, q);
    }
}

/// Every admitted instant is at most the latest arrival.
proof fn lemma_accepted_times_bounded(times: Seq<u64>, per_minute: int, burst: int)
    requires
        times_sorted(times),
        times.len() > 0,
    ensures
        forall|i: int|
            0 <= i < rl_accepted_times(times, per_minute, burst).len() ==> (
            #[trigger] rl_accepted_times(times, per_minute, burst)[i]) <= times.last(),
    decreases times.len(),
{
    let acc = rl_accepted_times(times, per_minute, burst);
    let d = times.drop_last();
    let accd = rl_accepted_times(d, per_minute, burst);
    if d.len() > 0 {
        assert(times_sorted(d));
        lemma_accepted_times_bounded(d, per_minute, burst);
        assert(d.last() == times[times.len() - 2]);
        assert(d.last() <= times.last());
    }
    assert forall|i: int| 0 <= i < acc.len() implies (#[trigger] acc[i]) <= times.last() by {
        if rl_accepted(times, times.len() - 1, per_minute, burst) {
            if i < acc.len() - 1 {
                assert(acc[i] == accd[i]);
                assert(d.len() > 0);
                assert(accd[i] <= d.last());
            } else {
                assert(acc[i] == times.last());
            }
        } else {
            assert(acc[i] == accd[i]);
            assert(d.len() > 0);
            assert(accd[i] <= d.last());
        }
    }
}

/// The run's window holds exactly the admitted instants of the last
/// minute before the latest arrival.
proof fn lemma_rl_window(times: Seq<u64>, per_minute: int, burst: int)
    requires
        times_sorted(times),
        times.len() > 0,
    ensures
        rl_run(times, per_minute, burst) == rl_accepted_times(times, per_minute, burst).filter(
            |x: u64| x as int > times.last() as int - 60000,
        ),
    decreases times.len(),
{
    reveal(Seq::filter);
    let n = times.len() as int;
    let d = times.drop_last();
    let tn = times.last() as int;
    let acc = rl_accepted_times(times, per_minute, burst);
    let accd = rl_accepted_times(d, per_minute, burst);
    assert(times.take(n - 1) =~= d);
    if d.len() == 0 {
        assert(rl_run(d, per_minute, burst) =~= Seq::<u64>::empty());
        assert(accd =~= Seq::<u64>::empty());
        assert(retained_window(Seq::<u64>::empty(), tn) =~= Seq::<u64>::empty());
        if rl_accepted(times, n - 1, per_minute, burst) {
            assert(acc == Seq::<u64>::empty().push(times.last()));
            assert(acc.drop_last() =~= Seq::<u64>::empty());
            assert(acc.filter(|x: u64| x as int > tn - 60000) =~= rl_run(
                times,
                per_minute,
                burst,
            ));
        } else {
            assert(acc.filter(|x: u64| x as int > tn - 60000) =~= Seq::<u64>::empty());
        }
    } else {
        lemma_rl_window(d, per_minute, burst);
        let tprev = d.last() as int;
        assert(tprev <= tn) by {
            assert(d.last() == times[n - 2]);
            assert(times[n - 2] <= times[n - 1]);
        }
        // evicting at the newer instant supersedes the older eviction
        lemma_filter_gt_compose(accd, tprev - 60000, tn - 60000);
        assert(retained_window(rl_run(d, per_minute, burst), tn) == accd.filter(
            |x: u64| x as int > tn - 60000,
        ));
        if rl_accepted(times, n - 1, per_minute, burst) {
            assert(acc == accd.push(times.last()));
            assert(acc.drop_last() =~= accd);
            assert(acc.last() == times.last());
            assert(acc.filter(|x: u64| x as int > tn - 60000) == accd.filter(
                |x: u64| x as int > tn - 60000,
            ).push(times.last()));
            assert(rl_run(times, per_minute, burst) == retained_window(
                rl_run(d, per_minute, burst),
                tn,
            ).push(times.last()));
        } else {
            assert(acc == accd);
            assert(rl_run(times, per_minute, burst) == retained_window(
                rl_run(d, per_minute, burst),
                tn,
            ));
        }
    }
}

/// The counting step: when every admitted check keeps the window of
/// width `w` at or under `limit` at its own instant, then any sliding
/// window of width `w` holds at most `limit` admitted instants.
proof fn lemma_sliding_count(
    times: Seq<u64>,
    per_minute: int,
    burst: int,
    w: int,
    limit: int,
    t: int,
)
    requires
        times_sorted(times),
        0 < w,
        0 <= limit,
        forall|k: int|
            0 <= k < times.len() && rl_accepted(times, k, per_minute, burst)
                ==> rl_accepted_times(times.take(k + 1), per_minute, burst).filter(
                |x: u64| x as int > times[k] as int - w,
            ).len() <= limit,
    ensures
        rl_accepted_times(times, per_minute, burst).filter(
            |x: u64| t - w < x as int <= t,
        ).len() <= limit,
    decreases times.len(),
{
    reveal(Seq::filter);
    let pr = |x: u64| t - w < x as int <= t;
    if times.len() == 0 {
        assert(rl_accepted_times(times, per_minute, burst).filter(pr) =~= Seq::<u64>::empty());
    } else {
        let n = times.len() as int;
        let d = times.drop_last();
        let acc = rl_accepted_times(times, per_minute, burst);
        let accd = rl_accepted_times(d, per_minute, burst);
        assert forall|k: int|
            0 <= k < d.len() && rl_accepted(d, k, per_minute, burst) implies rl_accepted_times(
            d.take(k + 1),
            per_minute,
            burst,
        ).filter(|x: u64| x as int > d[k] as int - w).len() <= limit by {
            assert(d.take(k + 1) =~= times.take(k + 1));
            assert(d.take(k) =~= times.take(k));
            assert(rl_accepted(times, k, per_minute, burst));
        }
        lemma_sliding_count(d, per_minute, burst, w, limit, t);
        if rl_accepted(times, n - 1, per_minute, burst) && pr(times.last()) {
            // every admitted instant in the window at `t` was already in
            // the window of the final admitted check
            lemma_accepted_times_bounded(times, per_minute, burst);
            assert(times.take(n) =~= times);
            assert(acc.filter(|x: u64| x as int > times[n - 1] as int - w).len() <= limit);
            lemma_filter_len_implies(acc, pr, |x: u64| x as int > times[n - 1] as int - w);
        } else if rl_accepted(times, n - 1, per_minute, burst) {
            assert(acc == accd.push(times.last()));
            assert(acc.drop_last() =~= accd);
            assert(acc.filter(pr) == accd.filter(pr));
        } else {
            assert(acc == accd);
        }
    }
}

/// Law: under a monotone clock, a sender admitted by a run of checks
/// never places more than the per-minute allowance in any sliding minute
/// nor more than the burst allowance in any sliding second — whatever the
/// arrival instants and wherever the window is put.
pub proof fn lemma_rate_limit_sliding_window(
    times: Seq<u64>,
    per_minute: int,
    burst: int,
    t: int,
)
    requires
        times_sorted(times),
        0 <= per_minute,
        0 <= burst,
    ensures
        rl_accepted_times(times, per_minute, burst).filter(
            |x: u64| t - 60000 < x as int <= t,
        ).len() <= per_minute,
        rl_accepted_times(times, per_minute, burst).filter(
            |x: u64| t - 1000 < x as int <= t,
        ).len() <= burst,
{
    reveal(Seq::filter);
    assert forall|k: int|
        0 <= k < times.len() && rl_accepted(times, k, per_minute, burst) implies rl_accepted_times(
        times.take(k + 1),
        per_minute,
        burst,
    ).filter(|x: u64| x as int > times[k] as int - 60000).len() <= per_minute by {
        let pre = times.take(k + 1);
        assert(times_sorted(pre));
        assert(pre.len() == k + 1 && pre.last() == times[k]);
        assert(pre.drop_last() =~= times.take(k));
        lemma_rl_window(pre, per_minute, burst);
        let tk = times[k] as int;
        let wk = rl_run(times.take(k), per_minute, burst);
        assert(rl_run(pre, per_minute, burst) == rate_check_next(wk, tk, per_minute, burst));
        assert(retained_window(wk, tk).len() < per_minute);
    }
    lemma_sliding_count(times, per_minute, burst, 60000, per_minute, t);
    assert forall|k: int|
        0 <= k < times.len() && rl_accepted(times, k, per_minute, burst) implies rl_accepted_times(
        times.take(k + 1),
        per_minute,
        burst,
    ).filter(|x: u64| x as int > times[k] as int - 1000).len() <= burst by {
        let pre = times.take(k + 1);
        assert(times_sorted(pre));
        assert(pre.len() == k + 1 && pre.last() == times[k]);
        assert(pre.drop_last() =~= times.take(k));
        lemma_rl_window(pre, per_minute, burst);
        let tk = times[k] as int;
        let wk = rl_run(times.take(k), per_minute, burst);
        assert(rl_run(pre, per_minute, burst) == rate_check_next(wk, tk, per_minute, burst));
        let accp = rl_accepted_times(pre, per_minute, burst);
        lemma_filter_gt_compose(accp, tk - 60000, tk - 1000);
        let kept = retained_window(wk, tk);
        // the run after this admitted check is the minute window of the
        // admitted instants, and ends in this instant
        assert(accp.filter(|x: u64| x as int > tk - 60000) == kept.push(times[k]));
        assert((kept.push(times[k])).filter(|x: u64| x as int > tk - 1000) == kept.filter(
            |x: u64| x as int > tk - 1000,
        ).push(times[k])) by {
            assert((kept.push(times[k])).drop_last() =~= kept);
            assert((kept.push(times[k])).last() == times[k]);
        }
        assert(burst_count(kept, tk) < burst);
        assert(accp.filter(|x: u64| x as int > tk - 1000).len() <= burst);
    }
    lemma_sliding_count(times, per_minute, burst, 1000, burst, t);
}

/// Per-sender sliding-window rate limiter.
pub struct RateLimiter {
    requests: Vec<(String, Vec<u64>)>,
    config: SecurityConfig,
}

impl RateLimiter {
    /// The recorded instants for a sender.
    pub closed spec fn window(&self, p: Seq<char>) -> Seq<u64> {
        if exists|i: int| 0 <= i < self.requests@.len() && (#[trigger] self.requests@[i].0)@ == p {
            self.requests@[choose|i: int|
                0 <= i < self.requests@.len() && (#[trigger] self.requests@[i].0)@ == p].1@
        } else {
            Seq::empty()
        }
    }

    /// The limiter's configuration.
    pub closed spec fn cfg(&self) -> SecurityConfig {
        self.config
    }

    /// Senders are recorded at most once.
    pub closed spec fn wf(&self) -> bool {
        forall|i: int, j: int|
            0 <= i < j < self.requests@.len() ==> (#[trigger] self.requests@[i].0)@ != (
            #[trigger] self.requests@[j].0)@
    }

    /// Create a limiter with no recorded requests.
    pub fn new(config: SecurityConfig) -> (r: RateLimiter)
        ensures
            r.wf(),
            r.cfg() == config,
            forall|p: Seq<char>| #[trigger] r.window(p) == Seq::<u64>::empty(),
    {
        RateLimiter { requests: Vec::new(), config }
    }

    /// With unique sender rows, the row at an index is the window of its
    /// sender.
    proof fn lemma_window_at(&self, i: int)
        requires
            self.wf(),
            0 <= i < self.requests@.len(),
        ensures
            self.window(self.requests@[i].0@) == self.requests@[i].1@,
    {
        let p = self.requests@[i].0@;
        assert(exists|j: int|
            0 <= j < self.requests@.len() && (#[trigger] self.requests@[j].0)@ == p);
        let j = choose|j: int|
            0 <= j < self.requests@.len() && (#[trigger] self.requests@[j].0)@ == p;
        if j != i {
            if j < i {
                assert(self.requests@[j].0@ != self.requests@[i].0@);
            } else {
                assert(self.requests@[i].0@ != self.requests@[j].0@);
            }
        }
    }

    /// Index of the sender's row, if any.
    fn find_row(&self, peer_id: &str) -> (r: Option<usize>)
        requires
            self.wf(),
        ensures
            r matches Some(i) ==> i < self.requests@.len() && self.requests@[i as int].0@
                == peer_id@ && self.window(peer_id@) == self.requests@[i as int].1@,
            r is None ==> self.window(peer_id@) == Seq::<u64>::empty() && forall|j: int|
                0 <= j < self.requests@.len() ==> (#[trigger] self.requests@[j].0)@ != peer_id@,
    {
        let n = self.requests.len();
        let mut i: usize = 0;
        while i < n
            invariant
                self.wf(),
                n == self.requests@.len(),
                i <= n,
                forall|j: int| 0 <= j < i ==> (#[trigger] self.requests@[j].0)@ != peer_id@,
            decreases n - i,
        {
            if str_eq_chars(self.requests[i].0.as_str(), peer_id) {
                proof {
                    self.lemma_window_at(i as int);
                }
                return Some(i);
            }
            i += 1;
        }
        None
    }

    /// Admit or refuse a message from `peer_id` arriving at `now_ms`.
    /// Instants older than a minute are evicted first, in every outcome;
    /// the per-minute refusal takes precedence over the burst refusal; an
    /// admitted instant is recorded.
    pub fn check_rate_limit(&mut self, peer_id: &str, now_ms: u64) -> (r: Result<
        (),
        AdmissionError,
    >)
        requires
            old(self).wf(),
        ensures
            final(self).wf(),
            final(self).cfg() == old(self).cfg(),
            r is Ok <==> rate_check_ok(
                old(self).window(peer_id@),
                now_ms as int,
                old(self).cfg().rate_limit_per_minute as int,
                old(self).cfg().rate_limit_burst as int,
            ),
            r == Err::<(), AdmissionError>(AdmissionError::RateLimitExceeded) <==> retained_window(
                old(self).window(peer_id@),
                now_ms as int,
            ).len() >= old(self).cfg().rate_limit_per_minute,
            r == Err::<(), AdmissionError>(AdmissionError::BurstLimitExceeded) <==> retained_window(
                old(self).window(peer_id@),
                now_ms as int,
            ).len() < old(self).cfg().rate_limit_per_minute && burst_count(
                retained_window(old(self).window(peer_id@), now_ms as int),
                now_ms as int,
            ) >= old(self).cfg().rate_limit_burst,
            final(self).window(peer_id@) == rate_check_next(
                old(self).window(peer_id@),
                now_ms as int,
                old(self).cfg().rate_limit_per_minute as int,
                old(self).cfg().rate_limit_burst as int,
            ),
            forall|q: Seq<char>|
                q != peer_id@ ==> #[trigger] final(self).window(q) == old(self).window(q),
    {
        let found = self.find_row(peer_id);
        let idx: usize = match found {
            Option::Some(i) => i,
            Option::None => {
                self.requests.push((peer_id.to_owned(), Vec::new()));
                proof {
                    let m = self.requests@.len();
                    assert forall|i2: int, j2: int|
                        0 <= i2 < j2 < m implies (#[trigger] self.requests@[i2].0)@ != (
                    #[trigger] self.requests@[j2].0)@ by {
                        if j2 < m - 1 {
                            assert(self.requests@[i2] == old(self).requests@[i2]);
                            assert(self.requests@[j2] == old(self).requests@[j2]);
                        } else {
                            assert(self.requests@[i2] == old(self).requests@[i2]);
                            assert(old(self).window(peer_id@) == Seq::<u64>::empty());
                        }
                    }
                    self.lemma_window_at(m - 1);
                }
                self.requests.len() - 1
            },
        };
        let ghost pre = *self;
        let ghost w0 = old(self).window(peer_id@);
        proof {
            assert(pre.requests@[idx as int].1@ == w0);
        }
        let row = self.requests.remove(idx);
        let name = row.0;
        let w = row.1;
        proof {
            reveal(Seq::filter);
            assert(w@.subrange(0, 0).filter(|t2: u64| t2 as int > now_ms as int - 60000) =~= Seq::<
                u64,
            >::empty());
        }
        // evict instants older than one minute
        let wn = w.len();
        let mut kept: Vec<u64> = Vec::new();
        let mut i: usize = 0;
        while i < wn
            invariant
                wn == w@.len(),
                i <= wn,
                kept@ == w@.subrange(0, i as int).filter(
                    |t: u64| t as int > now_ms as int - 60000,
                ),
            decreases wn - i,
        {
            let t = w[i];
            proof {
                reveal(Seq::filter);
                let pred = |t2: u64| t2 as int > now_ms as int - 60000;
                let ss = w@.subrange(0, i + 1);
                assert(ss.drop_last() =~= w@.subrange(0, i as int));
                assert(ss.last() == w@[i as int]);
                assert(ss.filter(pred) == if pred(ss.last()) {
                    ss.drop_last().filter(pred).push(ss.last())
                } else {
                    ss.drop_last().filter(pred)
                });
            }
            if (t as u128) + 60000 > (now_ms as u128) {
                kept.push(t);
            }
            i += 1;
        }
        proof {
            assert(w@.subrange(0, w@.len() as int) =~= w@);
            assert(kept@ == retained_window(w0, now_ms as int));
        }
        // count the instants within the last second
        let kn = kept.len();
        let mut recent: usize = 0;
        proof {
            reveal(Seq::filter);
            assert(kept@.subrange(0, 0).filter(|t2: u64| t2 as int > now_ms as int - 1000) =~= Seq::<
                u64,
            >::empty());
        }
        let mut j: usize = 0;
        while j < kn
            invariant
                kn == kept@.len(),
                j <= kn,
                recent == kept@.subrange(0, j as int).filter(
                    |t: u64| t as int > now_ms as int - 1000,
                ).len(),
            decreases kn - j,
        {
            let t = kept[j];
            proof {
                reveal(Seq::filter);
                let pred = |t2: u64| t2 as int > now_ms as int - 1000;
                let ss = kept@.subrange(0, j + 1);
                assert(ss.drop_last() =~= kept@.subrange(0, j as int));
                assert(ss.last() == kept@[j as int]);
                assert(ss.filter(pred) == if pred(ss.last()) {
                    ss.drop_last().filter(pred).push(ss.last())
                } else {
                    ss.drop_last().filter(pred)
                });
                ss.lemma_filter_len(pred);
            }
            if (t as u128) + 1000 > (now_ms as u128) {
                recent += 1;
            }
            j += 1;
        }
        proof {
            assert(kept@.subrange(0, kept@.len() as int) =~= kept@);
            assert(recent == burst_count(retained_window(w0, now_ms as int), now_ms as int));
        }
        let result: Result<(), AdmissionError>;
        let mut kept = kept;
        if kept.len() >= self.config.rate_limit_per_minute as usize {
            result = Err(AdmissionError::RateLimitExceeded);
        } else if recent >= self.config.rate_limit_burst as usize {
            result = Err(AdmissionError::BurstLimitExceeded);
        } else {
            kept.push(now_ms);
            result = Ok(());
        }
        self.requests.insert(idx, (name, kept));
        proof {
            assert(self.requests@ =~= pre.requests@.update(
                idx as int,
                self.requests@[idx as int],
            ));
            assert(self.requests@[idx as int].0@ == peer_id@);
            assert forall|i2: int, j2: int|
                0 <= i2 < j2 < self.requests@.len() implies (
            #[trigger] self.requests@[i2].0)@ != (#[trigger] self.requests@[j2].0)@ by {
                assert(self.requests@[i2].0@ == pre.requests@[i2].0@);
                assert(self.requests@[j2].0@ == pre.requests@[j2].0@);
                assert(pre.requests@[i2].0@ != pre.requests@[j2].0@);
            }
            self.lemma_window_at(idx as int);
            assert(final(self).window(peer_id@) == rate_check_next(
                w0,
                now_ms as int,
                old(self).cfg().rate_limit_per_minute as int,
                old(self).cfg().rate_limit_burst as int,
            ));
            assert forall|q: Seq<char>|
                q != peer_id@ implies #[trigger] self.window(q) == old(self).window(q) by {
                if exists|k: int|
                    0 <= k < pre.requests@.len() && (#[trigger] pre.requests@[k].0)@ == q {
                    let k = choose|k: int|
                        0 <= k < pre.requests@.len() && (#[trigger] pre.requests@[k].0)@ == q;
                    pre.lemma_window_at(k);
                    assert(k != idx);
                    assert(self.requests@[k].0@ == q && self.requests@[k].1@
                        == pre.requests@[k].1@);
                    self.lemma_window_at(k);
                    if k < old(self).requests@.len() {
                        if exists|k0: int|
                            0 <= k0 < old(self).requests@.len() && (#[trigger] old(
                                self,
                            ).requests@[k0].0)@ == q {
                            let k0 = choose|k0: int|
                                0 <= k0 < old(self).requests@.len() && (#[trigger] old(
                                    self,
                                ).requests@[k0].0)@ == q;
                            old(self).lemma_window_at(k0);
                            assert(old(self).requests@[k] == pre.requests@[k]);
                            assert(k0 == k);
                        }
                    }
                } else {
                    assert(self.window(q) == Seq::<u64>::empty());
                    if exists|k0: int|
                        0 <= k0 < old(self).requests@.len() && (#[trigger] old(
                            self,
                        ).requests@[k0].0)@ == q {
                        let k0 = choose|k0: int|
                            0 <= k0 < old(self).requests@.len() && (#[trigger] old(
                                self,
                            ).requests@[k0].0)@ == q;
                        assert(pre.requests@[k0].0@ == q);
                    }
                    assert(old(self).window(q) == Seq::<u64>::empty());
                }
            }
        }
        result
    }
}

/// Whether a list of identities holds `p` (run-time check).
fn list_contains(v: &Vec<String>, s: &str) -> (r: bool)
    ensures
        r == id_listed(v@, s@),
{
    let n = v.len();
    let mut i: usize = 0;
    while i < n
        invariant
            n == v@.len(),
            i <= n,
            forall|j: int| 0 <= j < i ==> (#[trigger] v@[j])@ != s@,
        decreases n - i,
    {
        if str_eq_chars(v[i].as_str(), s) {
            return true;
        }
        i += 1;
    }
    false
}

/// The rows of an optionally attached whitelist.
pub open spec fn opt_wl(o: Option<&PeerWhitelist>) -> Seq<crate::whitelist::WhitelistEntry> {
    match o {
        Option::Some(w) => w@,
        Option::None => Seq::empty(),
    }
}

/// Whether the allow/deny policy admits a peer: never when blocked; with
/// a whitelist attached, exactly when whitelisted there; otherwise,
/// exactly when a configured allowed list (if any) holds it.
pub open spec fn peer_allowed(
    cfg: SecurityConfig,
    attached: bool,
    wl: Seq<crate::whitelist::WhitelistEntry>,
    p: Seq<char>,
    now: int,
) -> bool {
    &&& !id_listed(cfg.blocked_peers@, p)
    &&& (attached ==> wl_active(wl, p, now))
    &&& (!attached ==> (cfg.allowed_peers matches Some(l) ==> id_listed(l@, p)))
}

/// Connection admission and peer allow/deny policy. The blocklist always
/// wins; with a whitelist attached, membership there decides; otherwise a
/// static allowed list from the configuration decides, when one is set.
pub struct AccessControl {
    config: SecurityConfig,
    connections_per_ip: Vec<(String, usize)>,
    whitelist_attached: bool,
}

impl AccessControl {
    /// Live connections counted against a remote address.
    pub closed spec fn ip_count(&self, ip: Seq<char>) -> int {
        if exists|i: int|
            0 <= i < self.connections_per_ip@.len() && (
            #[trigger] self.connections_per_ip@[i].0)@ == ip {
            self.connections_per_ip@[choose|i: int|
                0 <= i < self.connections_per_ip@.len() && (
                #[trigger] self.connections_per_ip@[i].0)@ == ip].1 as int
        } else {
            0
        }
    }

    /// The access control's configuration.
    pub closed spec fn cfg(&self) -> SecurityConfig {
        self.config
    }

    /// Whether a whitelist is the source of allow decisions.
    pub closed spec fn attached(&self) -> bool {
        self.whitelist_attached
    }

    /// Addresses are counted at most once.
    pub closed spec fn wf(&self) -> bool {
        forall|i: int, j: int|
            0 <= i < j < self.connections_per_ip@.len() ==> (
            #[trigger] self.connections_per_ip@[i].0)@ != (
            #[trigger] self.connections_per_ip@[j].0)@
    }

    /// An access control deciding from the configuration alone.
    pub fn new(config: SecurityConfig) -> (r: AccessControl)
        ensures
            r.wf(),
            r.cfg() == config,
            !r.attached(),
            forall|ip: Seq<char>| #[trigger] r.ip_count(ip) == 0,
    {
        AccessControl { config, connections_per_ip: Vec::new(), whitelist_attached: false }
    }

    /// An access control that defers allow decisions to a whitelist,
    /// which callers hand to each check.
    pub fn with_whitelist(config: SecurityConfig) -> (r: AccessControl)
        ensures
            r.wf(),
            r.cfg() == config,
            r.attached(),
            forall|ip: Seq<char>| #[trigger] r.ip_count(ip) == 0,
    {
        AccessControl { config, connections_per_ip: Vec::new(), whitelist_attached: true }
    }

    /// Decide whether a peer may connect: the blocklist denies first; an
    /// attached whitelist must hold the peer; otherwise a configured
    /// allowed list must hold it, when one is set.
    pub fn check_peer_allowed(
        &self,
        peer_id: &str,
        whitelist: Option<&PeerWhitelist>,
        now: i64,
    ) -> (r: Result<(), AdmissionError>)
        requires
            whitelist matches Some(w) ==> w.wf(),
            self.attached() ==> whitelist is Some,
        ensures
            r is Ok <==> peer_allowed(
                self.cfg(),
                self.attached(),
                opt_wl(whitelist),
                peer_id@,
                now as int,
            ),
            r is Err ==> r == Err::<(), AdmissionError>(AdmissionError::PeerBlocked) || r
                == Err::<(), AdmissionError>(AdmissionError::PeerNotWhitelisted) || r == Err::<
                (),
                AdmissionError,
            >(AdmissionError::PeerNotAllowed),
            r == Err::<(), AdmissionError>(AdmissionError::PeerBlocked) <==> id_listed(
                self.cfg().blocked_peers@,
                peer_id@,
            ),
            self.attached() ==> (r is Ok <==> !id_listed(self.cfg().blocked_peers@, peer_id@)
                && wl_active(opt_wl(whitelist), peer_id@, now as int)),
            self.attached() ==> (r == Err::<(), AdmissionError>(
                AdmissionError::PeerNotWhitelisted,
            ) <==> !id_listed(self.cfg().blocked_peers@, peer_id@) && !wl_active(
                opt_wl(whitelist),
                peer_id@,
                now as int,
            )),
            !self.attached() ==> (r is Ok <==> !id_listed(self.cfg().blocked_peers@, peer_id@)
                && (self.cfg().allowed_peers matches Some(l) ==> id_listed(l@, peer_id@))),
            !self.attached() ==> (r == Err::<(), AdmissionError>(AdmissionError::PeerNotAllowed)
                <==> !id_listed(self.cfg().blocked_peers@, peer_id@) && (
            self.cfg().allowed_peers matches Some(l) && !id_listed(l@, peer_id@))),
    {
        if list_contains(&self.config.blocked_peers, peer_id) {
            return Err(AdmissionError::PeerBlocked);
        }
        if self.whitelist_attached {
            match whitelist {
                Option::Some(w) => {
                    if w.is_active(peer_id, now) {
                        Ok(())
                    } else {
                        Err(AdmissionError::PeerNotWhitelisted)
                    }
                },
                Option::None => {
                    proof {
                        assert(false);
                    }
                    Err(AdmissionError::PeerNotWhitelisted)
                },
            }
        } else {
            match &self.config.allowed_peers {
                Option::Some(l) => {
                    if list_contains(l, peer_id) {
                        Ok(())
                    } else {
                        Err(AdmissionError::PeerNotAllowed)
                    }
                },
                Option::None => Ok(()),
            }
        }
    }

    /// With unique address rows, the row at an index carries its address's
    /// count.
    proof fn lemma_count_at(&self, i: int)
        requires
            self.wf(),
            0 <= i < self.connections_per_ip@.len(),
        ensures
            self.ip_count(self.connections_per_ip@[i].0@) == self.connections_per_ip@[i].1 as int,
    {
        let p = self.connections_per_ip@[i].0@;
        assert(exists|j: int|
            0 <= j < self.connections_per_ip@.len() && (
            #[trigger] self.connections_per_ip@[j].0)@ == p);
        let j = choose|j: int|
            0 <= j < self.connections_per_ip@.len() && (
            #[trigger] self.connections_per_ip@[j].0)@ == p;
        if j != i {
            if j < i {
                assert(self.connections_per_ip@[j].0@ != self.connections_per_ip@[i].0@);
            } else {
                assert(self.connections_per_ip@[i].0@ != self.connections_per_ip@[j].0@);
            }
        }
    }

    /// Index of the address's row, if any.
    fn find_ip(&self, ip: &str) -> (r: Option<usize>)
        requires
            self.wf(),
        ensures
            r matches Some(i) ==> i < self.connections_per_ip@.len()
                && self.connections_per_ip@[i as int].0@ == ip@ && self.ip_count(ip@)
                == self.connections_per_ip@[i as int].1 as int,
            r is None ==> self.ip_count(ip@) == 0 && forall|j: int|
                0 <= j < self.connections_per_ip@.len() ==> (
                #[trigger] self.connections_per_ip@[j].0)@ != ip@,
    {
        let n = self.connections_per_ip.len();
        let mut i: usize = 0;
        while i < n
            invariant
                self.wf(),
                n == self.connections_per_ip@.len(),
                i <= n,
                forall|j: int|
                    0 <= j < i ==> (#[trigger] self.connections_per_ip@[j].0)@ != ip@,
            decreases n - i,
        {
            if str_eq_chars(self.connections_per_ip[i].0.as_str(), ip) {
                proof {
                    self.lemma_count_at(i as int);
                }
                return Some(i);
            }
            i += 1;
        }
        None
    }

    /// Frame: rewriting one address's row (or appending a row for a fresh
    /// address) changes no other address's count.
    proof fn lemma_ip_frame(&self, pre: AccessControl, ip: Seq<char>)
        requires
            self.wf(),
            pre.wf(),
            self.connections_per_ip@.len() >= pre.connections_per_ip@.len(),
            self.connections_per_ip@.len() <= pre.connections_per_ip@.len() + 1,
            forall|k: int|
                0 <= k < pre.connections_per_ip@.len() && (
                #[trigger] pre.connections_per_ip@[k].0)@ != ip ==> self.connections_per_ip@[k]
                    == pre.connections_per_ip@[k],
            forall|k: int|
                0 <= k < self.connections_per_ip@.len() && (
                #[trigger] self.connections_per_ip@[k].0)@ != ip
                    ==> k < pre.connections_per_ip@.len() && self.connections_per_ip@[k]
                    == pre.connections_per_ip@[k],
        ensures
            forall|q: Seq<char>| q != ip ==> #[trigger] self.ip_count(q) == pre.ip_count(q),
    {
        assert forall|q: Seq<char>| q != ip implies #[trigger] self.ip_count(q) == pre.ip_count(
            q,
        ) by {
            if exists|k: int|
                0 <= k < self.connections_per_ip@.len() && (
                #[trigger] self.connections_per_ip@[k].0)@ == q {
                let k = choose|k: int|
                    0 <= k < self.connections_per_ip@.len() && (
                    #[trigger] self.connections_per_ip@[k].0)@ == q;
                self.lemma_count_at(k);
                assert(pre.connections_per_ip@[k].0@ == q);
                pre.lemma_count_at(k);
            } else {
                if exists|k: int|
                    0 <= k < pre.connections_per_ip@.len() && (
                    #[trigger] pre.connections_per_ip@[k].0)@ == q {
                    let k = choose|k: int|
                        0 <= k < pre.connections_per_ip@.len() && (
                        #[trigger] pre.connections_per_ip@[k].0)@ == q;
                    assert(self.connections_per_ip@[k].0@ == q);
                }
            }
        }
    }

    /// Count a new connection from `ip`, unless the address is already at
    /// its cap.
    pub fn check_connection_limit(&mut self, ip: &str) -> (r: Result<(), AdmissionError>)
        requires
            old(self).wf(),
        ensures
            final(self).wf(),
            final(self).cfg() == old(self).cfg(),
            final(self).attached() == old(self).attached(),
            r is Ok <==> old(self).ip_count(ip@) < old(self).cfg().max_connections_per_ip,
            r is Err ==> r == Err::<(), AdmissionError>(AdmissionError::ConnectionLimitExceeded),
            r is Ok ==> final(self).ip_count(ip@) == old(self).ip_count(ip@) + 1,
            r is Err ==> final(self).ip_count(ip@) == old(self).ip_count(ip@),
            forall|q: Seq<char>|
                q != ip@ ==> #[trigger] final(self).ip_count(q) == old(self).ip_count(q),
    {
        let found = self.find_ip(ip);
        match found {
            Option::Some(i) => {
                let count = self.connections_per_ip[i].1;
                if count >= self.config.max_connections_per_ip {
                    proof {
                        self.lemma_ip_frame(*old(self), ip@);
                    }
                    Err(AdmissionError::ConnectionLimitExceeded)
                } else {
                    let row = self.connections_per_ip.remove(i);
                    self.connections_per_ip.insert(i, (row.0, count + 1));
                    proof {
                        assert(self.connections_per_ip@ =~= old(self).connections_per_ip@.update(
                            i as int,
                            self.connections_per_ip@[i as int],
                        ));
                        assert forall|i2: int, j2: int|
                            0 <= i2 < j2 < self.connections_per_ip@.len() implies (
                        #[trigger] self.connections_per_ip@[i2].0)@ != (
                        #[trigger] self.connections_per_ip@[j2].0)@ by {
                            assert(self.connections_per_ip@[i2].0@ == old(
                                self,
                            ).connections_per_ip@[i2].0@);
                            assert(self.connections_per_ip@[j2].0@ == old(
                                self,
                            ).connections_per_ip@[j2].0@);
                        }
                        self.lemma_count_at(i as int);
                        self.lemma_ip_frame(*old(self), ip@);
                    }
                    Ok(())
                }
            },
            Option::None => {
                if self.config.max_connections_per_ip == 0 {
                    proof {
                        self.lemma_ip_frame(*old(self), ip@);
                    }
                    Err(AdmissionError::ConnectionLimitExceeded)
                } else {
                    self.connections_per_ip.push((ip.to_owned(), 1));
                    proof {
                        let m = self.connections_per_ip@.len();
                        assert forall|i2: int, j2: int|
                            0 <= i2 < j2 < m implies (#[trigger] self.connections_per_ip@[i2].0)@
                            != (#[trigger] self.connections_per_ip@[j2].0)@ by {
                            if j2 < m - 1 {
                                assert(self.connections_per_ip@[i2] == old(
                                    self,
                                ).connections_per_ip@[i2]);
                                assert(self.connections_per_ip@[j2] == old(
                                    self,
                                ).connections_per_ip@[j2]);
                            } else {
                                assert(self.connections_per_ip@[i2] == old(
                                    self,
                                ).connections_per_ip@[i2]);
                            }
                        }
                        self.lemma_count_at(m - 1);
                        self.lemma_ip_frame(*old(self), ip@);
                    }
                    Ok(())
                }
            },
        }
    }

    /// Release one connection from `ip`, saturating at zero.
    pub fn release_connection(&mut self, ip: &str)
        requires
            old(self).wf(),
        ensures
            final(self).wf(),
            final(self).cfg() == old(self).cfg(),
            final(self).attached() == old(self).attached(),
            final(self).ip_count(ip@) == if old(self).ip_count(ip@) > 0 {
                old(self).ip_count(ip@) - 1
            } else {
                0
            },
            forall|q: Seq<char>|
                q != ip@ ==> #[trigger] final(self).ip_count(q) == old(self).ip_count(q),
    {
        let found = self.find_ip(ip);
        match found {
            Option::Some(i) => {
                let count = self.connections_per_ip[i].1;
                if count <= 1 {
                    self.connections_per_ip.remove(i);
                    proof {
                        old(self).connections_per_ip@.remove_ensures(i as int);
                        assert forall|i2: int, j2: int|
                            0 <= i2 < j2 < self.connections_per_ip@.len() implies (
                        #[trigger] self.connections_per_ip@[i2].0)@ != (
                        #[trigger] self.connections_per_ip@[j2].0)@ by {
                            let a = if i2 < i {
                                i2
                            } else {
                                i2 + 1
                            };
                            let b = if j2 < i {
                                j2
                            } else {
                                j2 + 1
                            };
                            assert(self.connections_per_ip@[i2] == old(
                                self,
                            ).connections_per_ip@[a]);
                            assert(self.connections_per_ip@[j2] == old(
                                self,
                            ).connections_per_ip@[b]);
                            assert(old(self).connections_per_ip@[a].0@ != old(
                                self,
                            ).connections_per_ip@[b].0@);
                        }
                        if exists|k: int|
                            0 <= k < self.connections_per_ip@.len() && (
                            #[trigger] self.connections_per_ip@[k].0)@ == ip@ {
                            let k = choose|k: int|
                                0 <= k < self.connections_per_ip@.len() && (
                                #[trigger] self.connections_per_ip@[k].0)@ == ip@;
                            let a = if k < i {
                                k
                            } else {
                                k + 1
                            };
                            assert(old(self).connections_per_ip@[a].0@ == ip@);
                            if a != i {
                                if a < i {
                                    assert(old(self).connections_per_ip@[a].0@ != old(
                                        self,
                                    ).connections_per_ip@[i as int].0@);
                                } else {
                                    assert(old(self).connections_per_ip@[i as int].0@ != old(
                                        self,
                                    ).connections_per_ip@[a].0@);
                                }
                            }
                        }
                        assert(self.ip_count(ip@) == 0);
                        assert forall|q: Seq<char>|
                            q != ip@ implies #[trigger] self.ip_count(q) == old(self).ip_count(
                            q,
                        ) by {
                            if exists|k: int|
                                0 <= k < self.connections_per_ip@.len() && (
                                #[trigger] self.connections_per_ip@[k].0)@ == q {
                                let k = choose|k: int|
                                    0 <= k < self.connections_per_ip@.len() && (
                                    #[trigger] self.connections_per_ip@[k].0)@ == q;
                                self.lemma_count_at(k);
                                let a = if k < i {
                                    k
                                } else {
                                    k + 1
                                };
                                assert(old(self).connections_per_ip@[a].0@ == q);
                                old(self).lemma_count_at(a);
                            } else {
                                if exists|k: int|
                                    0 <= k < old(self).connections_per_ip@.len() && (
                                    #[trigger] old(self).connections_per_ip@[k].0)@ == q {
                                    let k = choose|k: int|
                                        0 <= k < old(self).connections_per_ip@.len() && (
                                        #[trigger] old(self).connections_per_ip@[k].0)@ == q;
                                    assert(k != i);
                                    let b = if k < i {
                                        k
                                    } else {
                                        k - 1
                                    };
                                    assert(self.connections_per_ip@[b].0@ == q);
                                }
                            }
                        }
                    }
                } else {
                    let row = self.connections_per_ip.remove(i);
                    self.connections_per_ip.insert(i, (row.0, count - 1));
                    proof {
                        assert(self.connections_per_ip@ =~= old(self).connections_per_ip@.update(
                            i as int,
                            self.connections_per_ip@[i as int],
                        ));
                        assert forall|i2: int, j2: int|
                            0 <= i2 < j2 < self.connections_per_ip@.len() implies (
                        #[trigger] self.connections_per_ip@[i2].0)@ != (
                        #[trigger] self.connections_per_ip@[j2].0)@ by {
                            assert(self.connections_per_ip@[i2].0@ == old(
                                self,
                            ).connections_per_ip@[i2].0@);
                            assert(self.connections_per_ip@[j2].0@ == old(
                                self,
                            ).connections_per_ip@[j2].0@);
                        }
                        self.lemma_count_at(i as int);
                        self.lemma_ip_frame(*old(self), ip@);
                    }
                }
            },
            Option::None => {
            },
        }
    }
}

/// Validation failures for replicated keys and values.
#[derive(Debug, Clone, Copy, PartialEq, Eq, Structural)]
pub enum ValidationError {
    EmptyKey,
    KeyTooLong,
    ControlCharacter,
    UnsafePath,
    ValueTooLong,
}

/// Whether a character is a control character (the Unicode `Cc`
/// category: U+0000 through U+001F and U+007F through U+009F).
pub open spec fn is_control_char(c: char) -> bool {
    (c as u32) < 0x20 || (0x7f <= (c as u32) && (c as u32) < 0xa0)
}

/// Whether the text holds a control character other than tab or newline.
pub open spec fn has_bad_control(s: Seq<char>) -> bool {
    exists|i: int|
        0 <= i < s.len() && is_control_char(#[trigger] s[i]) && s[i] != '\t' && s[i] != '\n'
}

/// Whether the characters `a`, `b` occur adjacently in the text.
pub open spec fn has_pair(s: Seq<char>, a: char, b: char) -> bool {
    exists|i: int| 0 <= i && i + 1 < s.len() && #[trigger] s[i] == a && s[i + 1] == b
}

/// Whether a key passes validation: non-empty, within the byte budget,
/// free of control characters (tab and newline aside), and free of the
/// path shapes `..`, `//` and a leading `/`.
pub open spec fn key_ok(s: Seq<char>, max_len: int) -> bool {
    &&& s.len() > 0
    &&& utf8_bytes(s).len() <= max_len
    &&& !has_bad_control(s)
    &&& !has_pair(s, '.', '.')
    &&& !has_pair(s, '/', '/')
    &&& s[0] != '/'
}

/// Whether a character is a control character (run-time check).
fn char_is_control(c: char) -> (r: bool)
    ensures
        r == is_control_char(c),
{
    let u = c as u32;
    u < 0x20 || (0x7f <= u && u < 0xa0)
}

/// Validate a replicated key: it must be non-empty, at most `max_length`
/// UTF-8 bytes, free of control characters other than tab and newline,
/// and free of `..`, `//` and a leading `/`. The checks run in that
/// order, so the reported failure is the first that applies.
pub fn validate_key(key: &str, max_length: usize) -> (r: Result<(), ValidationError>)
    ensures
        r is Ok <==> key_ok(key@, max_length as int),
        r == Err::<(), ValidationError>(ValidationError::EmptyKey) <==> key@.len() == 0,
        r == Err::<(), ValidationError>(ValidationError::KeyTooLong) <==> key@.len() > 0
            && utf8_bytes(key@).len() > max_length,
        r == Err::<(), ValidationError>(ValidationError::ControlCharacter) <==> key@.len() > 0
            && utf8_bytes(key@).len() <= max_length && has_bad_control(key@),
        r == Err::<(), ValidationError>(ValidationError::UnsafePath) <==> key@.len() > 0
            && utf8_bytes(key@).len() <= max_length && !has_bad_control(key@) && (has_pair(
            key@,
            '.',
            '.',
        ) || has_pair(key@, '/', '/') || key@[0] == '/'),
{
    if key.is_empty() {
        return Err(ValidationError::EmptyKey);
    }
    let key_bytes = key.as_bytes_vec();
    if key_bytes.len() > max_length {
        return Err(ValidationError::KeyTooLong);
    }
    let n = key.unicode_len();
    let mut i: usize = 0;
    while i < n
        invariant
            n == key@.len(),
            key@.len() > 0,
            utf8_bytes(key@).len() <= max_length,
            i <= n,
            forall|j: int|
                0 <= j < i ==> !(is_control_char(#[trigger] key@[j]) && key@[j] != '\t'
                    && key@[j] != '\n'),
        decreases n - i,
    {
        let c = key.get_char(i);
        if char_is_control(c) && c != '\t' && c != '\n' {
            return Err(ValidationError::ControlCharacter);
        }
        i += 1;
    }
    let mut i: usize = 0;
    while n - i > 1
        invariant
            n == key@.len(),
            key@.len() > 0,
            utf8_bytes(key@).len() <= max_length,
            !has_bad_control(key@),
            i <= n,
            forall|j: int|
                0 <= j < i && j + 1 < n ==> !(#[trigger] key@[j] == '.' && key@[j + 1] == '.')
                    && !(key@[j] == '/' && key@[j + 1] == '/'),
        decreases n - i,
    {
        let c = key.get_char(i);
        let d = key.get_char(i + 1);
        if (c == '.' && d == '.') || (c == '/' && d == '/') {
            return Err(ValidationError::UnsafePath);
        }
        i += 1;
    }
    if key.get_char(0) == '/' {
        return Err(ValidationError::UnsafePath);
    }
    Ok(())
}

/// Validate a replicated value: at most `max_length` UTF-8 bytes.
pub fn validate_value(value: &str, max_length: usize) -> (r: Result<(), ValidationError>)
    ensures
        r is Ok <==> utf8_bytes(value@).len() <= max_length,
        r == Err::<(), ValidationError>(ValidationError::ValueTooLong) <==> utf8_bytes(
            value@,
        ).len() > max_length,
{
    let value_bytes = value.as_bytes_vec();
    if value_bytes.len() > max_length {
        Err(ValidationError::ValueTooLong)
    } else {
        Ok(())
    }
}

/// The sanitized form of operator input: control characters other than
/// tab and newline dropped, and at most `budget` characters kept.
pub open spec fn sanitize_spec(s: Seq<char>, budget: int) -> Seq<char>
    decreases s.len(),
{
    if s.len() == 0 || budget <= 0 {
        Seq::empty()
    } else if !(is_control_char(s[0]) && s[0] != '\t' && s[0] != '\n') {
        seq![s[0]] + sanitize_spec(s.drop_first(), budget - 1)
    } else {
        sanitize_spec(s.drop_first(), budget)
    }
}

/// Relies on `String::push`: appends one character.
#[verifier::external_body]
fn string_push_char(s: &mut String, c: char)
    ensures
        final(s)@ == old(s)@.push(c),
{
    s.push(c);
}

/// Drop control characters (tab and newline aside) from operator input
/// and keep at most 1024 characters.
pub fn sanitize_input(input: &str) -> (r: String)
    ensures
        r@ == sanitize_spec(input@, 1024),
{
    let n = input.unicode_len();
    let mut out = String::new();
    proof {
        assert(input@.skip(0) =~= input@);
    }
    let mut i: usize = 0;
    let mut budget: usize = 1024;
    while i < n && budget > 0
        invariant
            n == input@.len(),
            i <= n,
            budget <= 1024,
            out@ + sanitize_spec(input@.skip(i as int), budget as int) == sanitize_spec(
                input@,
                1024,
            ),
            budget == 0 ==> out@ == sanitize_spec(input@, 1024),
        decreases n - i,
    {
        let c = input.get_char(i);
        proof {
            assert(input@.skip(i as int).drop_first() =~= input@.skip(i + 1));
            assert(input@.skip(i as int)[0] == input@[i as int]);
            assert(input@.skip(i as int).len() > 0);
        }
        if !(char_is_control(c) && c != '\t' && c != '\n') {
            string_push_char(&mut out, c);
            proof {
                assert(seq![input@[i as int]] + sanitize_spec(input@.skip(i + 1), budget - 1)
                    =~= seq![input@[i as int]] + sanitize_spec(input@.skip(i + 1), budget - 1));
                assert(out@ + sanitize_spec(input@.skip(i + 1), budget - 1 as int)
                    =~= sanitize_spec(input@, 1024));
            }
            budget -= 1;
        }
        i += 1;
    }
    proof {
        if i >= n {
            assert(input@.skip(i as int) =~= Seq::<char>::empty());
            assert(out@ + sanitize_spec(Seq::empty(), budget as int) =~= out@);
        }
        assert(out@ =~= sanitize_spec(input@, 1024));
    }
    out
}

} // verus!
