//! Leaky bucket: each admitted request adds one unit of water; the bucket
//! leaks continuously at `capacity / window` and never holds more than
//! `capacity`.
use vstd::hash_map::StringHashMap;
use vstd::prelude::*;

use crate::algorithms::{full, full_exec, gain, gain_exec, lemma_gain_adds, lemma_product_fits, unit};
use crate::clock::{elapsed, elapsed_spec, lemma_nondecreasing_drop_last, nondecreasing, Clock};
use crate::{RateLimitConfig, RateLimitError, RateLimiter};

verus! {

/// Bucket of one key. `level` is counted in fractional units of
/// `1 / window.nanos` of a unit of water, which makes the leak exact.
#[derive(Debug, Clone, Copy, PartialEq, Eq, Structural)]
pub struct BucketState {
    pub level: u128,
    pub last_update: u64,
}

/// A key seen for the first time starts with an empty bucket.
pub open spec fn fresh(now: u64) -> BucketState {
    BucketState { level: 0, last_update: now }
}

/// Removes what leaked since the last update, down to empty.
pub open spec fn drain(cfg: RateLimitConfig, s: BucketState, now: u64) -> BucketState {
    let leak = gain(cfg, elapsed_spec(s.last_update, now));
    BucketState {
        level: (if leak >= s.level { 0 } else { s.level - leak }) as u128,
        last_update: now,
    }
}

/// One check: leak, then add one unit if the bucket does not overflow.
pub open spec fn step(cfg: RateLimitConfig, s: BucketState, now: u64) -> (BucketState, bool) {
    let d = drain(cfg, s, now);
    if d.level + unit(cfg) <= full(cfg) {
        (BucketState { level: (d.level + unit(cfg)) as u128, last_update: now }, true)
    } else {
        (d, false)
    }
}

/// One check of `key` against the map of all keys.
pub open spec fn check(
    cfg: RateLimitConfig,
    m: Map<Seq<char>, BucketState>,
    key: Seq<char>,
    now: u64,
) -> (Map<Seq<char>, BucketState>, bool) {
    let s = if m.contains_key(key) { m[key] } else { fresh(now) };
    (m.insert(key, step(cfg, s, now).0), step(cfg, s, now).1)
}

/// Checks of one key at the given times, in order: the final state and the
/// number admitted.
pub open spec fn run(cfg: RateLimitConfig, s: BucketState, times: Seq<u64>) -> (BucketState, nat)
    decreases times.len(),
{
    if times.len() == 0 {
        (s, 0)
    } else {
        let prev = run(cfg, s, times.drop_last());
        let next = step(cfg, prev.0, times.last());
        (next.0, prev.1 + if next.1 { 1nat } else { 0nat })
    }
}

/// Checks of `key` at the given times, in order, through the map of all
/// keys: the final map and the number admitted.
pub open spec fn check_all(
    cfg: RateLimitConfig,
    m: Map<Seq<char>, BucketState>,
    key: Seq<char>,
    times: Seq<u64>,
) -> (Map<Seq<char>, BucketState>, nat)
    decreases times.len(),
{
    if times.len() == 0 {
        (m, 0)
    } else {
        let prev = check_all(cfg, m, key, times.drop_last());
        let next = check(cfg, prev.0, key, times.last());
        (next.0, prev.1 + if next.1 { 1nat } else { 0nat })
    }
}

/// The state that checks of `key` start from: its own, or a fresh one made
/// at the first check.
pub open spec fn initial(cfg: RateLimitConfig, m: Map<Seq<char>, BucketState>, key: Seq<char>, times: Seq<u64>) -> BucketState {
    if m.contains_key(key) {
        m[key]
    } else {
        fresh(times[0])
    }
}

/// Keys are independent: checks of `key` through the map leave every other
/// key as it was, and take `key` along `run` from its initial state.
pub proof fn lemma_check_all_is_run(
    cfg: RateLimitConfig,
    m: Map<Seq<char>, BucketState>,
    key: Seq<char>,
    times: Seq<u64>,
)
    requires
        times.len() > 0,
    ensures
        check_all(cfg, m, key, times).0 == m.insert(key, run(cfg, initial(cfg, m, key, times), times).0),
        check_all(cfg, m, key, times).1 == run(cfg, initial(cfg, m, key, times), times).1,
    decreases times.len(),
{
    let d = times.drop_last();
    if times.len() > 1 {
        lemma_check_all_is_run(cfg, m, key, d);
        assert(d[0] == times[0]);
        assert(initial(cfg, m, key, d) == initial(cfg, m, key, times));
        let init = initial(cfg, m, key, times);
        let a = run(cfg, init, d).0;
        let b = step(cfg, a, times.last()).0;
        let prev = check_all(cfg, m, key, d);
        assert(prev.0.contains_key(key) && prev.0[key] == a);
        assert(m.insert(key, a).insert(key, b) =~= m.insert(key, b));
        assert(check(cfg, prev.0, key, times.last()).0 == m.insert(key, b));
    } else {
        assert(d.len() == 0);
        assert(times.last() == times[0]);
        let init = initial(cfg, m, key, times);
        assert(check_all(cfg, m, key, d) == (m, 0nat));
        assert(run(cfg, init, d) == (init, 0nat));
        assert(run(cfg, init, times).0 == step(cfg, init, times[0]).0);
        assert(check_all(cfg, m, key, times).0 == check(cfg, m, key, times[0]).0);
    }
}

/// Capacity bound: for any key whose bucket does not overflow (a new key, or
/// any bucket that checks left), checks at nondecreasing times admit a number
/// `n` with `n * window <= capacity * window + span * capacity`, where `span`
/// is the time from the first check to the last: a burst of at most
/// `capacity`, then at most `capacity / window` per unit of time. The bucket
/// still does not overflow after them.
pub proof fn lemma_admitted_bound(
    cfg: RateLimitConfig,
    m: Map<Seq<char>, BucketState>,
    key: Seq<char>,
    times: Seq<u64>,
)
    requires
        cfg.valid(),
        m.contains_key(key) ==> m[key].level <= full(cfg),
        times.len() > 0,
        nondecreasing(times),
    ensures
        check_all(cfg, m, key, times).1 * unit(cfg) <= full(cfg) + gain(
            cfg,
            (times.last() - times[0]) as nat,
        ),
        check_all(cfg, m, key, times).0[key].level <= full(cfg),
{
    lemma_check_all_is_run(cfg, m, key, times);
    lemma_run_bound(cfg, initial(cfg, m, key, times), times);
}

proof fn lemma_run_bound(cfg: RateLimitConfig, s: BucketState, times: Seq<u64>)
    requires
        cfg.valid(),
        s.level <= full(cfg),
        times.len() > 0,
        nondecreasing(times),
    ensures
        run(cfg, s, times).1 * unit(cfg) <= run(cfg, s, times).0.level + gain(
            cfg,
            (times.last() - times[0]) as nat,
        ),
        run(cfg, s, times).0.level <= full(cfg),
        run(cfg, s, times).0.last_update == times.last(),
    decreases times.len(),
{
    lemma_nondecreasing_drop_last(times);
    lemma_product_fits(cfg.max_requests, cfg.window.nanos);
    let t = times.last();
    let d = times.drop_last();
    if times.len() == 1 {
        assert(d.len() == 0);
        lemma_gain_adds(cfg, 0, 0);
        lemma_gain_adds(cfg, elapsed_spec(s.last_update, t), 0);
        assert(run(cfg, s, d).1 == 0);
        assert(times.last() - times[0] == 0);
        let n = run(cfg, s, times).1;
        assert(n * unit(cfg) <= unit(cfg)) by (nonlinear_arith)
            requires
                n <= 1,
                unit(cfg) >= 0,
        ;
        assert(n == 0 ==> n * unit(cfg) == 0) by (nonlinear_arith);
        assert(n == 1 ==> n * unit(cfg) == unit(cfg)) by (nonlinear_arith);
        assert(gain(cfg, 0) == 0);
        assert(n <= 1);
    } else {
        lemma_run_bound(cfg, s, d);
        let prev = run(cfg, s, d);
        let e = elapsed_spec(prev.0.last_update, t);
        assert(e == t - d.last());
        lemma_gain_adds(cfg, e, (d.last() - times[0]) as nat);
        assert(e + (d.last() - times[0]) == t - times[0]);
        assert(prev.1 * unit(cfg) + unit(cfg) == (prev.1 + 1) * unit(cfg)) by (nonlinear_arith);
        let r = drain(cfg, prev.0, t);
        assert(r.level >= prev.0.level - gain(cfg, e));
        let g = gain(cfg, (times.last() - times[0]) as nat);
        assert(prev.1 * unit(cfg) <= r.level + g);
        let next = step(cfg, prev.0, t);
        if next.1 {
            assert(run(cfg, s, times).1 == prev.1 + 1);
            assert(run(cfg, s, times).0.level == r.level + unit(cfg));
        } else {
            assert(run(cfg, s, times).1 == prev.1);
        }
    }
}

/// A bucket that does not overflow is empty once a whole window has passed
/// since its last update: in a window it leaks `capacity` units.
pub proof fn lemma_empty_after_one_window(cfg: RateLimitConfig, s: BucketState, now: u64)
    requires
        cfg.valid(),
        s.level <= full(cfg),
        elapsed_spec(s.last_update, now) >= cfg.window.nanos,
    ensures
        drain(cfg, s, now).level == 0,
{
    let e = elapsed_spec(s.last_update, now);
    assert(gain(cfg, e) >= full(cfg)) by (nonlinear_arith)
        requires
            e >= cfg.window.nanos,
            cfg.max_requests >= 0,
            gain(cfg, e) == e * cfg.max_requests,
            full(cfg) == cfg.max_requests * cfg.window.nanos,
    ;
}

/// Reset: a check right after `reset(key)` behaves as a check of a key that
/// was never seen, in its decision and in the state it leaves for the key.
pub proof fn lemma_reset_then_check(
    cfg: RateLimitConfig,
    m: Map<Seq<char>, BucketState>,
    unseen: Map<Seq<char>, BucketState>,
    key: Seq<char>,
    now: u64,
)
    requires
        !unseen.contains_key(key),
    ensures
        check(cfg, m.remove(key), key, now).1 == check(cfg, unseen, key, now).1,
        check(cfg, m.remove(key), key, now).0[key] == check(cfg, unseen, key, now).0[key],
{
}

/// Leaky bucket limiter over an in-process map of keys.
pub struct LeakyBucket {
    config: RateLimitConfig,
    buckets: StringHashMap<BucketState>,
    clock: Clock,
}

impl View for LeakyBucket {
    type V = Map<Seq<char>, BucketState>;

    closed spec fn view(&self) -> Map<Seq<char>, BucketState> {
        self.buckets@
    }
}

impl LeakyBucket {
    pub closed spec fn config(&self) -> RateLimitConfig {
        self.config
    }

    /// A limiter with no key seen yet; the configuration must be valid
    /// (`RateLimitConfig::new` only builds valid ones).
    pub fn new(config: RateLimitConfig) -> (r: LeakyBucket)
        requires
            config.valid(),
        ensures
            r.config() == config,
            r@ == Map::<Seq<char>, BucketState>::empty(),
    {
        LeakyBucket { config, buckets: StringHashMap::new(), clock: Clock::start() }
    }

    /// The bucket of `key` as a check at `now` sees it, after the leak.
    fn update_bucket(&self, key: &str, now: u64) -> (r: BucketState)
        ensures
            r == drain(
                self.config(),
                if self@.contains_key(key@) { self@[key@] } else { fresh(now) },
                now,
            ),
    {
        let s = match self.buckets.get(key) {
            Some(s) => *s,
            None => BucketState { level: 0, last_update: now },
        };
        let leak = gain_exec(&self.config, elapsed(s.last_update, now));
        let level = if leak >= s.level {
            0
        } else {
            s.level - leak
        };
        BucketState { level, last_update: now }
    }

    /// Checks `key` at time `now` (nanoseconds on this limiter's clock).
    pub fn allow_request_at(&mut self, key: &str, now: u64) -> (r: bool)
        ensures
            final(self).config() == old(self).config(),
            (final(self)@, r) == check(old(self).config(), old(self)@, key@, now),
    {
        let bucket = self.update_bucket(key, now);
        let full = full_exec(&self.config);
        let unit = self.config.window.nanos as u128;
        if full >= unit && bucket.level <= full - unit {
            self.buckets.insert(
                String::from_str(key),
                BucketState { level: bucket.level + unit, last_update: now },
            );
            true
        } else {
            self.buckets.insert(String::from_str(key), bucket);
            false
        }
    }

    /// Checks `key` at the present time.
    pub fn allow_request(&mut self, key: &str) -> (r: Result<bool, RateLimitError>)
        ensures
            final(self).config() == old(self).config(),
            r is Ok,
            exists|now: u64|
                (final(self)@, r->Ok_0) == #[trigger] check(old(self).config(), old(self)@, key@, now),
    {
        let now = self.clock.now_nanos();
        Ok(self.allow_request_at(key, now))
    }

    pub fn reset(&mut self, key: &str)
        ensures
            final(self).config() == old(self).config(),
            final(self)@ == old(self)@.remove(key@),
    {
        self.buckets.remove(key);
    }
}

impl RateLimiter for LeakyBucket {
    fn allow_request(&mut self, key: &str) -> Result<bool, RateLimitError> {
        LeakyBucket::allow_request(self, key)
    }

    fn reset(&mut self, key: &str) {
        LeakyBucket::reset(self, key)
    }
}

} // verus!
