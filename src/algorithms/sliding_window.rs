//! Sliding window log: the times of the admitted requests of a key, oldest
//! first; a request is admitted while fewer than `capacity` of them lie
//! within the last window.
use vstd::hash_map::StringHashMap;
use std::collections::VecDeque;
use vstd::prelude::*;

use crate::clock::{elapsed, elapsed_spec, Clock};
use crate::{RateLimitConfig, RateLimitError, RateLimiter};

verus! {

/// Drops from the front the times that are more than a window before `now`,
/// stopping at the first that is not.
pub open spec fn prune(log: Seq<u64>, now: u64, window: u64) -> Seq<u64>
    decreases log.len(),
{
    if log.len() > 0 && elapsed_spec(log[0], now) > window {
        prune(log.drop_first(), now, window)
    } else {
        log
    }
}

/// One check: prune, then log `now` if fewer than `capacity` remain.
pub open spec fn step(cfg: RateLimitConfig, log: Seq<u64>, now: u64) -> (Seq<u64>, bool) {
    let kept = prune(log, now, cfg.window.nanos);
    if kept.len() < cfg.max_requests {
        (kept.push(now), true)
    } else {
        (kept, false)
    }
}

/// One check of `key` against the map of all keys; a key seen for the first
/// time starts with an empty log.
pub open spec fn check(
    cfg: RateLimitConfig,
    m: Map<Seq<char>, Seq<u64>>,
    key: Seq<char>,
    now: u64,
) -> (Map<Seq<char>, Seq<u64>>, bool) {
    let s = if m.contains_key(key) { m[key] } else { Seq::<u64>::empty() };
    (m.insert(key, step(cfg, s, now).0), step(cfg, s, now).1)
}

/// Checks of one key at the given times, in order: the final log and the
/// number admitted.
pub open spec fn run(cfg: RateLimitConfig, log: Seq<u64>, times: Seq<u64>) -> (Seq<u64>, nat)
    decreases times.len(),
{
    if times.len() == 0 {
        (log, 0)
    } else {
        let prev = run(cfg, log, times.drop_last());
        let next = step(cfg, prev.0, times.last());
        (next.0, prev.1 + if next.1 { 1nat } else { 0nat })
    }
}

/// Pruning stops before any time at most a window old: when every entry from
/// `m` on is recent, pruning keeps a suffix that starts at or before `m`.
proof fn lemma_prune_keeps_recent(log: Seq<u64>, now: u64, window: u64, m: int) -> (k: int)
    requires
        0 <= m <= log.len(),
        forall|i: int| m <= i < log.len() ==> elapsed_spec(#[trigger] log[i], now) <= window,
    ensures
        0 <= k <= m,
        prune(log, now, window) == log.subrange(k, log.len() as int),
    decreases log.len(),
{
    if log.len() > 0 && elapsed_spec(log[0], now) > window {
        let rest = log.drop_first();
        assert forall|i: int| m - 1 <= i < rest.len() implies elapsed_spec(#[trigger] rest[i], now)
            <= window by {
            assert(rest[i] == log[i + 1]);
        }
        let k = lemma_prune_keeps_recent(rest, now, window, m - 1);
        assert(rest.subrange(k, rest.len() as int) =~= log.subrange(k + 1, log.len() as int));
        k + 1
    } else {
        assert(log.subrange(0, log.len() as int) =~= log);
        0
    }
}

/// Checks of `key` at the given times, in order, through the map of all
/// keys: the final map and the number admitted.
pub open spec fn check_all(
    cfg: RateLimitConfig,
    m: Map<Seq<char>, Seq<u64>>,
    key: Seq<char>,
    times: Seq<u64>,
) -> (Map<Seq<char>, Seq<u64>>, nat)
    decreases times.len(),
{
    if times.len() == 0 {
        (m, 0)
    } else {
        let prev = check_all(cfg, m, key, times.drop_last());
        let next = check(cfg, prev.0, key, times.last());
        (next.0, prev.1 + if next.1 { 1nat } else { 0nat })
    }
}

/// The state that checks of `key` start from: its own, or a fresh one made
/// at the first check.
pub open spec fn initial(cfg: RateLimitConfig, m: Map<Seq<char>, Seq<u64>>, key: Seq<char>, times: Seq<u64>) -> Seq<u64> {
    if m.contains_key(key) {
        m[key]
    } else {
        Seq::<u64>::empty()
    }
}

/// Keys are independent: checks of `key` through the map leave every other
/// key as it was, and take `key` along `run` from its initial state.
pub proof fn lemma_check_all_is_run(
    cfg: RateLimitConfig,
    m: Map<Seq<char>, Seq<u64>>,
    key: Seq<char>,
    times: Seq<u64>,
)
    requires
        times.len() > 0,
    ensures
        check_all(cfg, m, key, times).0 == m.insert(key, run(cfg, initial(cfg, m, key, times), times).0),
        check_all(cfg, m, key, times).1 == run(cfg, initial(cfg, m, key, times), times).1,
    decreases times.len(),
{
    let d = times.drop_last();
    if times.len() > 1 {
        lemma_check_all_is_run(cfg, m, key, d);
        assert(d[0] == times[0]);
        assert(initial(cfg, m, key, d) == initial(cfg, m, key, times));
        let init = initial(cfg, m, key, times);
        let a = run(cfg, init, d).0;
        let b = step(cfg, a, times.last()).0;
        let prev = check_all(cfg, m, key, d);
        assert(prev.0.contains_key(key) && prev.0[key] == a);
        assert(m.insert(key, a).insert(key, b) =~= m.insert(key, b));
        assert(check(cfg, prev.0, key, times.last()).0 == m.insert(key, b));
    } else {
        assert(d.len() == 0);
        assert(times.last() == times[0]);
        let init = initial(cfg, m, key, times);
        assert(check_all(cfg, m, key, d) == (m, 0nat));
        assert(run(cfg, init, d) == (init, 0nat));
        assert(run(cfg, init, times).0 == step(cfg, init, times[0]).0);
        assert(check_all(cfg, m, key, times).0 == check(cfg, m, key, times[0]).0);
    }
}

/// Capacity bound, exact: for any key whose log respects the capacity (a new
/// key, or any log that checks left), checks that all fall within one
/// window-length interval `[start, start + window]` admit at most `capacity`,
/// in whatever order they come.
pub proof fn lemma_admitted_bound(
    cfg: RateLimitConfig,
    m: Map<Seq<char>, Seq<u64>>,
    key: Seq<char>,
    times: Seq<u64>,
    start: u64,
)
    requires
        m.contains_key(key) ==> m[key].len() <= cfg.max_requests,
        times.len() > 0,
        forall|i: int|
            0 <= i < times.len() ==> start <= #[trigger] times[i] && times[i] - start
                <= cfg.window.nanos,
    ensures
        check_all(cfg, m, key, times).1 <= cfg.max_requests,
        check_all(cfg, m, key, times).0[key].len() <= cfg.max_requests,
{
    lemma_check_all_is_run(cfg, m, key, times);
    lemma_run_bound(cfg, initial(cfg, m, key, times), times, start);
}

/// The requests admitted during the run stay in the log, at its end.
proof fn lemma_run_bound(cfg: RateLimitConfig, log: Seq<u64>, times: Seq<u64>, start: u64)
    requires
        log.len() <= cfg.max_requests,
        forall|i: int|
            0 <= i < times.len() ==> start <= #[trigger] times[i] && times[i] - start
                <= cfg.window.nanos,
    ensures
        run(cfg, log, times).1 <= run(cfg, log, times).0.len() <= cfg.max_requests,
        forall|i: int|
            run(cfg, log, times).0.len() - run(cfg, log, times).1 <= i < run(
                cfg,
                log,
                times,
            ).0.len() ==> start <= #[trigger] run(cfg, log, times).0[i],
    decreases times.len(),
{
    if times.len() > 0 {
        let d = times.drop_last();
        assert forall|i: int| 0 <= i < d.len() implies start <= #[trigger] d[i] && d[i] - start
            <= cfg.window.nanos by {
            assert(d[i] == times[i]);
        }
        lemma_run_bound(cfg, log, d, start);
        let prev = run(cfg, log, d);
        let l = prev.0;
        let n = prev.1;
        let t = times.last();
        assert(t == times[times.len() - 1]);
        let m = l.len() - n;
        assert forall|i: int| m <= i < l.len() implies elapsed_spec(#[trigger] l[i], t)
            <= cfg.window.nanos by {
            assert(start <= l[i]);
        }
        let k = lemma_prune_keeps_recent(l, t, cfg.window.nanos, m);
        let kept = prune(l, t, cfg.window.nanos);
        assert forall|i: int| kept.len() - n <= i < kept.len() implies start <= #[trigger] kept[i] by {
            assert(kept[i] == l[i + k]);
        }
    }
}

/// Times in order, oldest first.
pub open spec fn sorted(log: Seq<u64>) -> bool {
    forall|i: int, j: int| 0 <= i <= j < log.len() ==> log[i] <= log[j]
}

/// What pruning keeps starts with a time at most a window old.
proof fn lemma_prune_front(log: Seq<u64>, now: u64, window: u64)
    ensures
        prune(log, now, window).len() > 0 ==> elapsed_spec(prune(log, now, window)[0], now)
            <= window,
    decreases log.len(),
{
    if log.len() > 0 && elapsed_spec(log[0], now) > window {
        lemma_prune_front(log.drop_first(), now, window);
    }
}

/// The log stays a log: when the times of a key's log are in order and none
/// is later than `now` (as with a clock that does not go backwards), a check
/// at `now` leaves the log in order, within the window that ends at `now`,
/// and no longer than `capacity` if it was not before.
pub proof fn lemma_check_keeps_log(
    cfg: RateLimitConfig,
    m: Map<Seq<char>, Seq<u64>>,
    key: Seq<char>,
    now: u64,
)
    requires
        m.contains_key(key) ==> sorted(m[key]) && m[key].len() <= cfg.max_requests && forall|i: int|
            0 <= i < m[key].len() ==> #[trigger] m[key][i] <= now,
    ensures
        ({
            let log = check(cfg, m, key, now).0[key];
            &&& sorted(log)
            &&& log.len() <= cfg.max_requests
            &&& forall|i: int| 0 <= i < log.len() ==> #[trigger] log[i] <= now && now - log[i] <= cfg.window.nanos
        }),
{
    let s = if m.contains_key(key) { m[key] } else { Seq::<u64>::empty() };
    let w = cfg.window.nanos;
    let k = lemma_prune_keeps_recent(s, now, w, s.len() as int);
    lemma_prune_front(s, now, w);
    let kept = prune(s, now, w);
    assert forall|i: int| 0 <= i < kept.len() implies #[trigger] kept[i] <= now && now - kept[i] <= w by {
        assert(kept[i] == s[i + k]);
        assert(kept[0] == s[k]);
    }
    assert(sorted(kept)) by {
        assert forall|i: int, j: int| 0 <= i <= j < kept.len() implies kept[i] <= kept[j] by {
            assert(kept[i] == s[i + k] && kept[j] == s[j + k]);
        }
    }
    let log = step(cfg, s, now).0;
    assert(log == check(cfg, m, key, now).0[key]);
    assert forall|i: int| 0 <= i < log.len() implies #[trigger] log[i] <= now && now - log[i] <= w by {
        if i < kept.len() {
            assert(log[i] == kept[i]);
        }
    }
    assert(sorted(log)) by {
        assert forall|i: int, j: int| 0 <= i <= j < log.len() implies log[i] <= log[j] by {
            if j < kept.len() {
                assert(log[i] == kept[i] && log[j] == kept[j]);
            } else if i < kept.len() {
                assert(log[i] == kept[i]);
            }
        }
    }
}

/// Reset: a check right after `reset(key)` behaves as a check of a key that
/// was never seen, in its decision and in the log it leaves for the key.
pub proof fn lemma_reset_then_check(
    cfg: RateLimitConfig,
    m: Map<Seq<char>, Seq<u64>>,
    unseen: Map<Seq<char>, Seq<u64>>,
    key: Seq<char>,
    now: u64,
)
    requires
        !unseen.contains_key(key),
    ensures
        check(cfg, m.remove(key), key, now).1 == check(cfg, unseen, key, now).1,
        check(cfg, m.remove(key), key, now).0[key] == check(cfg, unseen, key, now).0[key],
{
}

/// Sliding window limiter over an in-process map of keys.
pub struct SlidingWindow {
    config: RateLimitConfig,
    logs: StringHashMap<VecDeque<u64>>,
    clock: Clock,
}

impl View for SlidingWindow {
    type V = Map<Seq<char>, Seq<u64>>;

    closed spec fn view(&self) -> Map<Seq<char>, Seq<u64>> {
        self.logs@.map_values(|v: VecDeque<u64>| v@)
    }
}

impl SlidingWindow {
    pub closed spec fn config(&self) -> RateLimitConfig {
        self.config
    }

    /// A limiter with no key seen yet; the configuration must be valid
    /// (`RateLimitConfig::new` only builds valid ones).
    pub fn new(config: RateLimitConfig) -> (r: SlidingWindow)
        requires
            config.valid(),
        ensures
            r.config() == config,
            r@ == Map::<Seq<char>, Seq<u64>>::empty(),
    {
        let r = SlidingWindow { config, logs: StringHashMap::new(), clock: Clock::start() };
        assert(r@ =~= Map::<Seq<char>, Seq<u64>>::empty());
        r
    }

    /// The log of `key` without the times that have slid out of the window
    /// that ends at `now`; empty for a key not seen before.
    fn clean_old_requests(&self, key: &str, now: u64) -> (r: VecDeque<u64>)
        ensures
            r@ == prune(
                if self@.contains_key(key@) { self@[key@] } else { Seq::<u64>::empty() },
                now,
                self.config().window.nanos,
            ),
    {
        let window = self.config.window.nanos;
        let mut log: VecDeque<u64> = match self.logs.get(key) {
            Some(log) => {
                let copy = log.clone();
                assert(copy@ =~= log@);
                copy
            },
            None => VecDeque::new(),
        };
        let ghost start = log@;
        while log.len() > 0 && elapsed(log[0], now) > window
            invariant
                prune(log@, now, window) == prune(start, now, window),
            decreases log@.len(),
        {
            log.pop_front();
        }
        log
    }

    /// Checks `key` at time `now` (nanoseconds on this limiter's clock).
    pub fn allow_request_at(&mut self, key: &str, now: u64) -> (r: bool)
        ensures
            final(self).config() == old(self).config(),
            (final(self)@, r) == check(old(self).config(), old(self)@, key@, now),
    {
        let mut log = self.clean_old_requests(key, now);
        let allowed = (log.len() as u64) < self.config.max_requests;
        if allowed {
            log.push_back(now);
        }
        let ghost v = log@;
        self.logs.insert(String::from_str(key), log);
        assert(self@ =~= old(self)@.insert(key@, v));
        allowed
    }

    /// Checks `key` at the present time.
    pub fn allow_request(&mut self, key: &str) -> (r: Result<bool, RateLimitError>)
        ensures
            final(self).config() == old(self).config(),
            r is Ok,
            exists|now: u64|
                (final(self)@, r->Ok_0) == #[trigger] check(old(self).config(), old(self)@, key@, now),
    {
        let now = self.clock.now_nanos();
        Ok(self.allow_request_at(key, now))
    }

    pub fn reset(&mut self, key: &str)
        ensures
            final(self).config() == old(self).config(),
            final(self)@ == old(self)@.remove(key@),
    {
        self.logs.remove(key);
        assert(self@ =~= old(self)@.remove(key@));
    }
}

impl RateLimiter for SlidingWindow {
    fn allow_request(&mut self, key: &str) -> Result<bool, RateLimitError> {
        SlidingWindow::allow_request(self, key)
    }

    fn reset(&mut self, key: &str) {
        SlidingWindow::reset(self, key)
    }
}

} // verus!
