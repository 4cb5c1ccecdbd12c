//! The pure part of the remote atomic backend: how a key is named in the
//! store, how long an idle record lives, what the store's atomic procedure
//! computes, and the fail-open policy when the store cannot be reached.
use vstd::prelude::*;
use vstd::string::StringExecFns;

use crate::algorithms::token_bucket::{fresh, run, step, BucketState};
use crate::algorithms::{full, gain, unit};
use crate::clock::nondecreasing;
use crate::{RateLimitConfig, RateLimitError, NANOS_PER_SEC};

verus! {

/// Name of the record of `key` in the store: `rate_limit:` and the key.
pub fn remote_key(key: &str) -> (r: String)
    ensures
        r@ == "rate_limit:"@ + key@,
{
    let mut r = String::from_str("rate_limit:");
    r.append(key);
    r
}

/// Time to live of a record, in whole seconds: two windows, rounded up so
/// that a record never outlives less than two windows (and a window of any
/// positive length gives a positive time to live).
pub fn expiry_seconds(config: &RateLimitConfig) -> (r: u64)
    ensures
        r == (2 * config.window.nanos + NANOS_PER_SEC - 1) / NANOS_PER_SEC as int,
        config.window.nanos > 0 ==> r > 0,
        r * NANOS_PER_SEC >= 2 * config.window.nanos,
{
    let twice: u128 = 2 * config.window.nanos as u128;
    let secs: u128 = (twice + NANOS_PER_SEC as u128 - 1) / NANOS_PER_SEC as u128;
    assert(secs * NANOS_PER_SEC >= twice) by (nonlinear_arith)
        requires
            secs == (twice + NANOS_PER_SEC - 1) / NANOS_PER_SEC as int,
    ;
    secs as u64
}

/// What the store's procedure does with the record of one key at `now`: an
/// absent record counts as a full bucket refilled now, and the result is the
/// token bucket's check.
pub open spec fn procedure(cfg: RateLimitConfig, record: Option<BucketState>, now: u64) -> (
    BucketState,
    bool,
) {
    match record {
        Some(s) => step(cfg, s, now),
        None => step(cfg, fresh(cfg, now), now),
    }
}

/// Atomicity: the store runs each caller's procedure whole, one after
/// another, so concurrent checks of one key act as the procedure applied in
/// some order, each to the record the one before left. In that order, at
/// nondecreasing times, the number admitted `n` satisfies `n * window <=
/// capacity * window + span * capacity`, however many callers there are; all
/// at one instant, at most `capacity` are admitted.
pub proof fn lemma_atomic_checks_bound(cfg: RateLimitConfig, record: Option<BucketState>, times: Seq<u64>)
    requires
        cfg.valid(),
        times.len() > 0,
        nondecreasing(times),
    ensures
        ({
            let first = procedure(cfg, record, times[0]);
            let rest = run(cfg, first.0, times.drop_first());
            let n = rest.1 + if first.1 { 1nat } else { 0nat };
            &&& n * unit(cfg) <= full(cfg) + gain(cfg, (times.last() - times[0]) as nat)
            &&& times.last() == times[0] ==> n <= cfg.max_requests
        }),
{
    let s = match record {
        Some(s) => s,
        None => fresh(cfg, times[0]),
    };
    lemma_run_split(cfg, s, times);
    crate::algorithms::token_bucket::lemma_run_bound(cfg, s, times);
    let n = run(cfg, s, times).1;
    if times.last() == times[0] {
        crate::algorithms::lemma_gain_adds(cfg, 0, 0);
        assert(n <= cfg.max_requests) by (nonlinear_arith)
            requires
                n * unit(cfg) <= full(cfg),
                full(cfg) == cfg.max_requests * unit(cfg),
                unit(cfg) > 0,
        ;
    }
}

/// A run is its first check followed by the run of the rest.
proof fn lemma_run_split(cfg: RateLimitConfig, s: BucketState, times: Seq<u64>)
    requires
        times.len() > 0,
    ensures
        run(cfg, s, times) == ({
            let first = step(cfg, s, times[0]);
            let rest = run(cfg, first.0, times.drop_first());
            (rest.0, rest.1 + if first.1 { 1nat } else { 0nat })
        }),
    decreases times.len(),
{
    if times.len() > 1 {
        let d = times.drop_last();
        lemma_run_split(cfg, s, d);
        assert(d.drop_first() =~= times.drop_first().drop_last());
        assert(d[0] == times[0]);
        assert(times.drop_first().last() == times.last());
        let first = step(cfg, s, times[0]);
        let tail = times.drop_first();
        let inner = run(cfg, first.0, tail.drop_last());
        assert(inner == run(cfg, first.0, d.drop_first()));
        let last = step(cfg, inner.0, tail.last());
        assert(run(cfg, first.0, tail) == (last.0, inner.1 + if last.1 { 1nat } else { 0nat }));
        assert(run(cfg, s, d).0 == inner.0);
        assert(run(cfg, s, d).1 == inner.1 + if first.1 { 1nat } else { 0nat });
        assert(run(cfg, s, times) == (last.0, run(cfg, s, d).1 + if last.1 { 1nat } else { 0nat }));
    } else {
        assert(times.drop_last().len() == 0);
        assert(times.drop_first().len() == 0);
        assert(times.last() == times[0]);
        assert(run(cfg, s, times.drop_last()) == (s, 0nat));
        let first = step(cfg, s, times[0]);
        assert(run(cfg, first.0, times.drop_first()) == (first.0, 0nat));
        assert(run(cfg, s, times) == (first.0, if first.1 { 1nat } else { 0nat }));
    }
}

/// Fail-open: the decision of the remote backend when it answered, and
/// admission when it could not be reached; never an error.
pub fn check_with_fallback(outcome: Result<bool, RateLimitError>) -> (r: Result<bool, RateLimitError>)
    ensures
        r == Ok::<bool, RateLimitError>(
            match outcome {
                Ok(allowed) => allowed,
                Err(_) => true,
            },
        ),
{
    match outcome {
        Ok(allowed) => Ok(allowed),
        Err(_) => Ok(true),
    }
}

} // verus!
