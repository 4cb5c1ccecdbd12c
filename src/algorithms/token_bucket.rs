//! Token bucket: tokens refill continuously at `capacity / window`, up to
//! `capacity`; a request takes one whole token.
use vstd::hash_map::StringHashMap;
use vstd::prelude::*;

use crate::algorithms::{full, full_exec, gain, gain_exec, lemma_gain_adds, lemma_product_fits, unit};
use crate::clock::{elapsed, elapsed_spec, lemma_nondecreasing_drop_last, nondecreasing, Clock};
use crate::{RateLimitConfig, RateLimitError, RateLimiter};

verus! {

/// Bucket of one key. `tokens` is counted in fractional units of
/// `1 / window.nanos` of a token, which makes the refill exact.
#[derive(Debug, Clone, Copy, PartialEq, Eq, Structural)]
pub struct BucketState {
    pub tokens: u128,
    pub last_refill: u64,
}

/// A key seen for the first time starts with a full bucket.
pub open spec fn fresh(cfg: RateLimitConfig, now: u64) -> BucketState {
    BucketState { tokens: full(cfg) as u128, last_refill: now }
}

/// Adds what accrued since the last refill, capped at a full bucket.
pub open spec fn refill(cfg: RateLimitConfig, s: BucketState, now: u64) -> BucketState {
    let sum = s.tokens + gain(cfg, elapsed_spec(s.last_refill, now));
    BucketState {
        tokens: (if sum >= full(cfg) { full(cfg) } else { sum }) as u128,
        last_refill: now,
    }
}

/// One check: refill, then take a whole token if there is one.
pub open spec fn step(cfg: RateLimitConfig, s: BucketState, now: u64) -> (BucketState, bool) {
    let r = refill(cfg, s, now);
    if r.tokens >= unit(cfg) {
        (BucketState { tokens: (r.tokens - unit(cfg)) as u128, last_refill: now }, true)
    } else {
        (r, false)
    }
}

/// One check of `key` against the map of all keys.
pub open spec fn check(
    cfg: RateLimitConfig,
    m: Map<Seq<char>, BucketState>,
    key: Seq<char>,
    now: u64,
) -> (Map<Seq<char>, BucketState>, bool) {
    let s = if m.contains_key(key) { m[key] } else { fresh(cfg, now) };
    (m.insert(key, step(cfg, s, now).0), step(cfg, s, now).1)
}

/// Checks of one key at the given times, in order: the final state and the
/// number admitted.
pub open spec fn run(cfg: RateLimitConfig, s: BucketState, times: Seq<u64>) -> (BucketState, nat)
    decreases times.len(),
{
    if times.len() == 0 {
        (s, 0)
    } else {
        let prev = run(cfg, s, times.drop_last());
        let next = step(cfg, prev.0, times.last());
        (next.0, prev.1 + if next.1 { 1nat } else { 0nat })
    }
}

/// Checks of `key` at the given times, in order, through the map of all
/// keys: the final map and the number admitted.
pub open spec fn check_all(
    cfg: RateLimitConfig,
    m: Map<Seq<char>, BucketState>,
    key: Seq<char>,
    times: Seq<u64>,
) -> (Map<Seq<char>, BucketState>, nat)
    decreases times.len(),
{
    if times.len() == 0 {
        (m, 0)
    } else {
        let prev = check_all(cfg, m, key, times.drop_last());
        let next = check(cfg, prev.0, key, times.last());
        (next.0, prev.1 + if next.1 { 1nat } else { 0nat })
    }
}

/// The state that checks of `key` start from: its own, or a fresh one made
/// at the first check.
pub open spec fn initial(cfg: RateLimitConfig, m: Map<Seq<char>, BucketState>, key: Seq<char>, times: Seq<u64>) -> BucketState {
    if m.contains_key(key) {
        m[key]
    } else {
        fresh(cfg, times[0])
    }
}

/// Keys are independent: checks of `key` through the map leave every other
/// key as it was, and take `key` along `run` from its initial state.
pub proof fn lemma_check_all_is_run(
    cfg: RateLimitConfig,
    m: Map<Seq<char>, BucketState>,
    key: Seq<char>,
    times: Seq<u64>,
)
    requires
        times.len() > 0,
    ensures
        check_all(cfg, m, key, times).0 == m.insert(key, run(cfg, initial(cfg, m, key, times), times).0),
        check_all(cfg, m, key, times).1 == run(cfg, initial(cfg, m, key, times), times).1,
    decreases times.len(),
{
    let d = times.drop_last();
    if times.len() > 1 {
        lemma_check_all_is_run(cfg, m, key, d);
        assert(d[0] == times[0]);
        assert(initial(cfg, m, key, d) == initial(cfg, m, key, times));
        let init = initial(cfg, m, key, times);
        let a = run(cfg, init, d).0;
        let b = step(cfg, a, times.last()).0;
        let prev = check_all(cfg, m, key, d);
        assert(prev.0.contains_key(key) && prev.0[key] == a);
        assert(m.insert(key, a).insert(key, b) =~= m.insert(key, b));
        assert(check(cfg, prev.0, key, times.last()).0 == m.insert(key, b));
    } else {
        assert(d.len() == 0);
        assert(times.last() == times[0]);
        let init = initial(cfg, m, key, times);
        assert(check_all(cfg, m, key, d) == (m, 0nat));
        assert(run(cfg, init, d) == (init, 0nat));
        assert(run(cfg, init, times).0 == step(cfg, init, times[0]).0);
        assert(check_all(cfg, m, key, times).0 == check(cfg, m, key, times[0]).0);
    }
}

/// Capacity bound: for any key, whatever its state, checks at nondecreasing
/// times admit a number `n` with `n * window <= capacity * window + span *
/// capacity`, where `span` is the time from the first check to the last. That
/// is, a burst of at most `capacity`, then at most `capacity / window` per
/// unit of time.
pub proof fn lemma_admitted_bound(
    cfg: RateLimitConfig,
    m: Map<Seq<char>, BucketState>,
    key: Seq<char>,
    times: Seq<u64>,
)
    requires
        cfg.valid(),
        times.len() > 0,
        nondecreasing(times),
    ensures
        check_all(cfg, m, key, times).1 * unit(cfg) <= full(cfg) + gain(
            cfg,
            (times.last() - times[0]) as nat,
        ),
{
    lemma_check_all_is_run(cfg, m, key, times);
    lemma_run_bound(cfg, initial(cfg, m, key, times), times);
}

/// After a pause: for any key, checks at nondecreasing times admit no more
/// than the tokens the bucket holds at the first check (what was left plus
/// what the pause refilled, capped at `capacity`) and what refills during
/// the checks: `n * window <= tokens + span * capacity`, with the tokens in
/// fractional units.
pub proof fn lemma_admitted_after_pause(
    cfg: RateLimitConfig,
    m: Map<Seq<char>, BucketState>,
    key: Seq<char>,
    times: Seq<u64>,
)
    requires
        cfg.valid(),
        times.len() > 0,
        nondecreasing(times),
    ensures
        check_all(cfg, m, key, times).1 * unit(cfg) <= refill(
            cfg,
            initial(cfg, m, key, times),
            times[0],
        ).tokens + gain(cfg, (times.last() - times[0]) as nat),
{
    lemma_check_all_is_run(cfg, m, key, times);
    lemma_run_bound(cfg, initial(cfg, m, key, times), times);
}

/// The bound along `run`, from any state, with what the bucket keeps.
pub(crate) proof fn lemma_run_bound(cfg: RateLimitConfig, s: BucketState, times: Seq<u64>)
    requires
        cfg.valid(),
        times.len() > 0,
        nondecreasing(times),
    ensures
        run(cfg, s, times).0.tokens + run(cfg, s, times).1 * unit(cfg) <= refill(
            cfg,
            s,
            times[0],
        ).tokens + gain(cfg, (times.last() - times[0]) as nat),
        refill(cfg, s, times[0]).tokens <= full(cfg),
        run(cfg, s, times).0.last_refill == times.last(),
    decreases times.len(),
{
    lemma_nondecreasing_drop_last(times);
    lemma_product_fits(cfg.max_requests, cfg.window.nanos);
    let t = times.last();
    let d = times.drop_last();
    if times.len() == 1 {
        assert(d.len() == 0);
        lemma_gain_adds(cfg, 0, 0);
        assert(run(cfg, s, d).1 == 0);
        assert(times.last() - times[0] == 0);
        let n = run(cfg, s, times).1;
        assert(n * unit(cfg) <= unit(cfg)) by (nonlinear_arith)
            requires
                n <= 1,
                unit(cfg) >= 0,
        ;
    } else {
        lemma_run_bound(cfg, s, d);
        let prev = run(cfg, s, d);
        let e = elapsed_spec(prev.0.last_refill, t);
        assert(e == t - d.last());
        lemma_gain_adds(cfg, e, (d.last() - times[0]) as nat);
        assert(e + (d.last() - times[0]) == t - times[0]);
        assert(prev.1 * unit(cfg) + unit(cfg) == (prev.1 + 1) * unit(cfg)) by (nonlinear_arith);
        let r = refill(cfg, prev.0, t);
        assert(r.tokens <= prev.0.tokens + gain(cfg, e));
    }
}

/// Reset: a check right after `reset(key)` behaves as a check of a key that
/// was never seen, in its decision and in the state it leaves for the key.
pub proof fn lemma_reset_then_check(
    cfg: RateLimitConfig,
    m: Map<Seq<char>, BucketState>,
    unseen: Map<Seq<char>, BucketState>,
    key: Seq<char>,
    now: u64,
)
    requires
        !unseen.contains_key(key),
    ensures
        check(cfg, m.remove(key), key, now).1 == check(cfg, unseen, key, now).1,
        check(cfg, m.remove(key), key, now).0[key] == check(cfg, unseen, key, now).0[key],
{
}

/// Token bucket limiter over an in-process map of keys.
pub struct TokenBucket {
    config: RateLimitConfig,
    buckets: StringHashMap<BucketState>,
    clock: Clock,
}

impl View for TokenBucket {
    type V = Map<Seq<char>, BucketState>;

    closed spec fn view(&self) -> Map<Seq<char>, BucketState> {
        self.buckets@
    }
}

impl TokenBucket {
    pub closed spec fn config(&self) -> RateLimitConfig {
        self.config
    }

    /// A limiter with no key seen yet; the configuration must be valid
    /// (`RateLimitConfig::new` only builds valid ones).
    pub fn new(config: RateLimitConfig) -> (r: TokenBucket)
        requires
            config.valid(),
        ensures
            r.config() == config,
            r@ == Map::<Seq<char>, BucketState>::empty(),
    {
        TokenBucket { config, buckets: StringHashMap::new(), clock: Clock::start() }
    }

    /// The bucket of `key` as a check at `now` sees it, after the refill.
    fn refill_tokens(&self, key: &str, now: u64) -> (r: BucketState)
        ensures
            r == refill(
                self.config(),
                if self@.contains_key(key@) { self@[key@] } else { fresh(self.config(), now) },
                now,
            ),
    {
        let full = full_exec(&self.config);
        let s = match self.buckets.get(key) {
            Some(s) => *s,
            None => BucketState { tokens: full, last_refill: now },
        };
        let add = gain_exec(&self.config, elapsed(s.last_refill, now));
        let tokens = if s.tokens >= full || add >= full - s.tokens {
            full
        } else {
            s.tokens + add
        };
        BucketState { tokens, last_refill: now }
    }

    /// Checks `key` at time `now` (nanoseconds on this limiter's clock).
    pub fn allow_request_at(&mut self, key: &str, now: u64) -> (r: bool)
        ensures
            final(self).config() == old(self).config(),
            (final(self)@, r) == check(old(self).config(), old(self)@, key@, now),
    {
        let bucket = self.refill_tokens(key, now);
        let unit = self.config.window.nanos as u128;
        if bucket.tokens >= unit {
            self.buckets.insert(
                String::from_str(key),
                BucketState { tokens: bucket.tokens - unit, last_refill: now },
            );
            true
        } else {
            self.buckets.insert(String::from_str(key), bucket);
            false
        }
    }

    /// Checks `key` at the present time.
    pub fn allow_request(&mut self, key: &str) -> (r: Result<bool, RateLimitError>)
        ensures
            final(self).config() == old(self).config(),
            r is Ok,
            exists|now: u64|
                (final(self)@, r->Ok_0) == #[trigger] check(old(self).config(), old(self)@, key@, now),
    {
        let now = self.clock.now_nanos();
        Ok(self.allow_request_at(key, now))
    }

    pub fn reset(&mut self, key: &str)
        ensures
            final(self).config() == old(self).config(),
            final(self)@ == old(self)@.remove(key@),
    {
        self.buckets.remove(key);
    }
}

impl RateLimiter for TokenBucket {
    fn allow_request(&mut self, key: &str) -> Result<bool, RateLimitError> {
        TokenBucket::allow_request(self, key)
    }

    fn reset(&mut self, key: &str) {
        TokenBucket::reset(self, key)
    }
}

} // verus!
