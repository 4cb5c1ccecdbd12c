//! The four local algorithms, each keeping its per-key state in an in-process
//! map from key to state.
use vstd::prelude::*;

pub mod fixed_window;
pub mod leaky_bucket;
pub mod sliding_window;
pub mod token_bucket;

pub use fixed_window::FixedWindow;
pub use leaky_bucket::LeakyBucket;
pub use sliding_window::SlidingWindow;
pub use token_bucket::TokenBucket;

verus! {

/// A window expressed in nanoseconds: the fractional unit of the buckets.
/// One whole token (or one unit of water) is `unit(cfg)` fractional units.
pub open spec fn unit(cfg: crate::RateLimitConfig) -> int {
    cfg.window.nanos as int
}

/// A full bucket in fractional units: `capacity` whole tokens.
pub open spec fn full(cfg: crate::RateLimitConfig) -> int {
    cfg.max_requests as int * cfg.window.nanos as int
}

/// Rate in fractional units per nanosecond: `capacity / window` whole tokens
/// per nanosecond is `capacity` fractional units per nanosecond.
pub open spec fn gain(cfg: crate::RateLimitConfig, nanos: nat) -> int {
    nanos as int * cfg.max_requests as int
}

/// A product of two 64-bit numbers fits in 128 bits.
pub proof fn lemma_product_fits(a: u64, b: u64)
    ensures
        0 <= a as int * b as int <= u64::MAX as int * u64::MAX as int,
        u64::MAX as int * u64::MAX as int <= u128::MAX,
{
    assert(0 <= a as int * b as int <= u64::MAX as int * u64::MAX as int) by (nonlinear_arith)
        requires
            a <= u64::MAX,
            b <= u64::MAX,
    ;
}

/// Gains over two consecutive spans add up.
pub proof fn lemma_gain_adds(cfg: crate::RateLimitConfig, a: nat, b: nat)
    ensures
        gain(cfg, a) + gain(cfg, b) == gain(cfg, a + b),
        gain(cfg, a) >= 0,
{
    assert(a as int * cfg.max_requests as int + b as int * cfg.max_requests as int == (a + b) as int
        * cfg.max_requests as int) by (nonlinear_arith);
    assert(a as int * cfg.max_requests as int >= 0) by (nonlinear_arith);
}

/// `full` and `gain` computed in 128 bits.
pub fn full_exec(cfg: &crate::RateLimitConfig) -> (r: u128)
    ensures
        r == full(*cfg),
{
    proof {
        lemma_product_fits(cfg.max_requests, cfg.window.nanos);
    }
    cfg.max_requests as u128 * cfg.window.nanos as u128
}

pub fn gain_exec(cfg: &crate::RateLimitConfig, nanos: u64) -> (r: u128)
    ensures
        r == gain(*cfg, nanos as nat),
{
    proof {
        lemma_product_fits(nanos, cfg.max_requests);
    }
    nanos as u128 * cfg.max_requests as u128
}

} // verus!
