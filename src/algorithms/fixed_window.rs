//! Fixed window: a counter per key, reset lazily once a whole window has
//! passed since the window began.
use vstd::hash_map::StringHashMap;
use vstd::prelude::*;

use crate::clock::{elapsed, elapsed_spec, Clock};
use crate::{RateLimitConfig, RateLimitError, RateLimiter};

verus! {

/// Window of one key.
#[derive(Debug, Clone, Copy, PartialEq, Eq, Structural)]
pub struct WindowState {
    pub count: u64,
    pub window_start: u64,
}

/// A key seen for the first time starts a window now, with no request in it.
pub open spec fn fresh(now: u64) -> WindowState {
    WindowState { count: 0, window_start: now }
}

/// Starts a new window when the current one has run out. A key left alone
/// for many windows snaps to a window that starts now.
pub open spec fn roll(cfg: RateLimitConfig, s: WindowState, now: u64) -> WindowState {
    if elapsed_spec(s.window_start, now) >= cfg.window.nanos {
        WindowState { count: 0, window_start: now }
    } else {
        s
    }
}

/// One check: roll the window, then count the request if there is room.
pub open spec fn step(cfg: RateLimitConfig, s: WindowState, now: u64) -> (WindowState, bool) {
    let w = roll(cfg, s, now);
    if w.count < cfg.max_requests {
        (WindowState { count: (w.count + 1) as u64, window_start: w.window_start }, true)
    } else {
        (w, false)
    }
}

/// One check of `key` against the map of all keys.
pub open spec fn check(
    cfg: RateLimitConfig,
    m: Map<Seq<char>, WindowState>,
    key: Seq<char>,
    now: u64,
) -> (Map<Seq<char>, WindowState>, bool) {
    let s = if m.contains_key(key) { m[key] } else { fresh(now) };
    (m.insert(key, step(cfg, s, now).0), step(cfg, s, now).1)
}

/// Checks of one key at the given times, in order: the final state and the
/// number admitted.
pub open spec fn run(cfg: RateLimitConfig, s: WindowState, times: Seq<u64>) -> (WindowState, nat)
    decreases times.len(),
{
    if times.len() == 0 {
        (s, 0)
    } else {
        let prev = run(cfg, s, times.drop_last());
        let next = step(cfg, prev.0, times.last());
        (next.0, prev.1 + if next.1 { 1nat } else { 0nat })
    }
}

/// Checks of `key` at the given times, in order, through the map of all
/// keys: the final map and the number admitted.
pub open spec fn check_all(
    cfg: RateLimitConfig,
    m: Map<Seq<char>, WindowState>,
    key: Seq<char>,
    times: Seq<u64>,
) -> (Map<Seq<char>, WindowState>, nat)
    decreases times.len(),
{
    if times.len() == 0 {
        (m, 0)
    } else {
        let prev = check_all(cfg, m, key, times.drop_last());
        let next = check(cfg, prev.0, key, times.last());
        (next.0, prev.1 + if next.1 { 1nat } else { 0nat })
    }
}

/// The state that checks of `key` start from: its own, or a fresh one made
/// at the first check.
pub open spec fn initial(cfg: RateLimitConfig, m: Map<Seq<char>, WindowState>, key: Seq<char>, times: Seq<u64>) -> WindowState {
    if m.contains_key(key) {
        m[key]
    } else {
        fresh(times[0])
    }
}

/// Keys are independent: checks of `key` through the map leave every other
/// key as it was, and take `key` along `run` from its initial state.
pub proof fn lemma_check_all_is_run(
    cfg: RateLimitConfig,
    m: Map<Seq<char>, WindowState>,
    key: Seq<char>,
    times: Seq<u64>,
)
    requires
        times.len() > 0,
    ensures
        check_all(cfg, m, key, times).0 == m.insert(key, run(cfg, initial(cfg, m, key, times), times).0),
        check_all(cfg, m, key, times).1 == run(cfg, initial(cfg, m, key, times), times).1,
    decreases times.len(),
{
    let d = times.drop_last();
    if times.len() > 1 {
        lemma_check_all_is_run(cfg, m, key, d);
        assert(d[0] == times[0]);
        assert(initial(cfg, m, key, d) == initial(cfg, m, key, times));
        let init = initial(cfg, m, key, times);
        let a = run(cfg, init, d).0;
        let b = step(cfg, a, times.last()).0;
        let prev = check_all(cfg, m, key, d);
        assert(prev.0.contains_key(key) && prev.0[key] == a);
        assert(m.insert(key, a).insert(key, b) =~= m.insert(key, b));
        assert(check(cfg, prev.0, key, times.last()).0 == m.insert(key, b));
    } else {
        assert(d.len() == 0);
        assert(times.last() == times[0]);
        let init = initial(cfg, m, key, times);
        assert(check_all(cfg, m, key, d) == (m, 0nat));
        assert(run(cfg, init, d) == (init, 0nat));
        assert(run(cfg, init, times).0 == step(cfg, init, times[0]).0);
        assert(check_all(cfg, m, key, times).0 == check(cfg, m, key, times[0]).0);
    }
}

/// Capacity bound within one window: for any key, checks that all fall
/// inside the window the key starts from (its current one, or for a new key
/// the one its first check opens) admit, together with the requests that
/// window already holds, at most `capacity`.
pub proof fn lemma_admitted_bound(
    cfg: RateLimitConfig,
    m: Map<Seq<char>, WindowState>,
    key: Seq<char>,
    times: Seq<u64>,
)
    requires
        times.len() > 0,
        initial(cfg, m, key, times).count <= cfg.max_requests,
        forall|i: int|
            0 <= i < times.len() ==> initial(cfg, m, key, times).window_start <= #[trigger] times[i]
                < initial(cfg, m, key, times).window_start + cfg.window.nanos,
    ensures
        initial(cfg, m, key, times).count + check_all(cfg, m, key, times).1 <= cfg.max_requests,
{
    lemma_check_all_is_run(cfg, m, key, times);
    lemma_run_bound(cfg, initial(cfg, m, key, times), times);
}

/// Within one window the count only grows, by the number admitted.
proof fn lemma_run_bound(cfg: RateLimitConfig, s: WindowState, times: Seq<u64>)
    requires
        s.count <= cfg.max_requests,
        forall|i: int|
            0 <= i < times.len() ==> s.window_start <= #[trigger] times[i] < s.window_start
                + cfg.window.nanos,
    ensures
        s.count + run(cfg, s, times).1 <= cfg.max_requests,
        run(cfg, s, times).0.count == s.count + run(cfg, s, times).1,
        run(cfg, s, times).0.window_start == s.window_start,
    decreases times.len(),
{
    if times.len() > 0 {
        let d = times.drop_last();
        assert forall|i: int| 0 <= i < d.len() implies s.window_start <= #[trigger] d[i]
            < s.window_start + cfg.window.nanos by {
            assert(d[i] == times[i]);
        }
        lemma_run_bound(cfg, s, d);
        assert(times.last() == times[times.len() - 1]);
    }
}

/// Reset: a check right after `reset(key)` behaves as a check of a key that
/// was never seen, in its decision and in the state it leaves for the key.
pub proof fn lemma_reset_then_check(
    cfg: RateLimitConfig,
    m: Map<Seq<char>, WindowState>,
    unseen: Map<Seq<char>, WindowState>,
    key: Seq<char>,
    now: u64,
)
    requires
        !unseen.contains_key(key),
    ensures
        check(cfg, m.remove(key), key, now).1 == check(cfg, unseen, key, now).1,
        check(cfg, m.remove(key), key, now).0[key] == check(cfg, unseen, key, now).0[key],
{
}

/// Fixed window limiter over an in-process map of keys.
pub struct FixedWindow {
    config: RateLimitConfig,
    windows: StringHashMap<WindowState>,
    clock: Clock,
}

impl View for FixedWindow {
    type V = Map<Seq<char>, WindowState>;

    closed spec fn view(&self) -> Map<Seq<char>, WindowState> {
        self.windows@
    }
}

impl FixedWindow {
    pub closed spec fn config(&self) -> RateLimitConfig {
        self.config
    }

    /// A limiter with no key seen yet; the configuration must be valid
    /// (`RateLimitConfig::new` only builds valid ones).
    pub fn new(config: RateLimitConfig) -> (r: FixedWindow)
        requires
            config.valid(),
        ensures
            r.config() == config,
            r@ == Map::<Seq<char>, WindowState>::empty(),
    {
        FixedWindow { config, windows: StringHashMap::new(), clock: Clock::start() }
    }

    /// The window of `key` as a check at `now` sees it, after a lapsed
    /// window has been restarted.
    fn check_window(&self, key: &str, now: u64) -> (r: WindowState)
        ensures
            r == roll(
                self.config(),
                if self@.contains_key(key@) { self@[key@] } else { fresh(now) },
                now,
            ),
    {
        let s = match self.windows.get(key) {
            Some(s) => *s,
            None => WindowState { count: 0, window_start: now },
        };
        if elapsed(s.window_start, now) >= self.config.window.nanos {
            WindowState { count: 0, window_start: now }
        } else {
            s
        }
    }

    /// Checks `key` at time `now` (nanoseconds on this limiter's clock).
    pub fn allow_request_at(&mut self, key: &str, now: u64) -> (r: bool)
        ensures
            final(self).config() == old(self).config(),
            (final(self)@, r) == check(old(self).config(), old(self)@, key@, now),
    {
        let w = self.check_window(key, now);
        if w.count < self.config.max_requests {
            self.windows.insert(
                String::from_str(key),
                WindowState { count: w.count + 1, window_start: w.window_start },
            );
            true
        } else {
            self.windows.insert(String::from_str(key), w);
            false
        }
    }

    /// Checks `key` at the present time.
    pub fn allow_request(&mut self, key: &str) -> (r: Result<bool, RateLimitError>)
        ensures
            final(self).config() == old(self).config(),
            r is Ok,
            exists|now: u64|
                (final(self)@, r->Ok_0) == #[trigger] check(old(self).config(), old(self)@, key@, now),
    {
        let now = self.clock.now_nanos();
        Ok(self.allow_request_at(key, now))
    }

    pub fn reset(&mut self, key: &str)
        ensures
            final(self).config() == old(self).config(),
            final(self)@ == old(self)@.remove(key@),
    {
        self.windows.remove(key);
    }
}

impl RateLimiter for FixedWindow {
    fn allow_request(&mut self, key: &str) -> Result<bool, RateLimitError> {
        FixedWindow::allow_request(self, key)
    }

    fn reset(&mut self, key: &str) {
        FixedWindow::reset(self, key)
    }
}

} // verus!
