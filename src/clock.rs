//! Monotonic time, read through std's `Instant`.
use vstd::prelude::*;

verus! {

#[verifier::external_type_specification]
#[verifier::external_body]
pub struct ExInstant(std::time::Instant);

/// Relies on `Instant::now`: reads the monotonic clock; nothing is known of the value.
pub assume_specification[ std::time::Instant::now ]() -> std::time::Instant;

/// Relies on `Instant::elapsed`: the time since the instant, saturating at zero.
pub assume_specification[ std::time::Instant::elapsed ](this: &std::time::Instant) -> std::time::Duration;

/// Relies on `Duration::as_nanos`: the whole length in nanoseconds.
pub assume_specification[ core::time::Duration::as_nanos ](this: &core::time::Duration) -> u128;

/// A monotonic clock, counting nanoseconds from the moment it was started.
///
/// Only std's documentation says that the readings never go backwards; no
/// contract here states it, nor any relation between two readings. So the
/// contracts of the limiters' `allow_request` hold for whatever time the
/// clock gives, and the laws about sequences of checks take the order of
/// the times as a hypothesis.
pub struct Clock {
    origin: std::time::Instant,
}

impl Clock {
    /// Starts a clock now. Nothing is promised of the instant it holds.
    pub fn start() -> (r: Clock) {
        Clock { origin: std::time::Instant::now() }
    }

    /// Nanoseconds since the clock was started, saturating at `u64::MAX`.
    /// Nothing is promised of the value: not even that it is no smaller than
    /// an earlier reading.
    pub fn now_nanos(&self) -> (r: u64) {
        let elapsed = self.origin.elapsed();
        let n = elapsed.as_nanos();
        if n > u64::MAX as u128 {
            u64::MAX
        } else {
            n as u64
        }
    }
}

} // verus!

verus! {

/// Time from `since` to `now` in nanoseconds; zero when `now` comes first.
pub open spec fn elapsed_spec(since: u64, now: u64) -> nat {
    if now >= since {
        (now - since) as nat
    } else {
        0
    }
}

/// Time from `since` to `now` in nanoseconds, saturating at zero.
pub fn elapsed(since: u64, now: u64) -> (r: u64)
    ensures
        r == elapsed_spec(since, now),
{
    if now >= since {
        now - since
    } else {
        0
    }
}

} // verus!

verus! {

/// Times that never go backwards.
pub open spec fn nondecreasing(times: Seq<u64>) -> bool {
    forall|i: int, j: int| 0 <= i <= j < times.len() ==> times[i] <= times[j]
}

/// Dropping the last time keeps the order.
pub proof fn lemma_nondecreasing_drop_last(times: Seq<u64>)
    requires
        times.len() > 0,
        nondecreasing(times),
    ensures
        nondecreasing(times.drop_last()),
        times.len() > 1 ==> times.drop_last().last() <= times.last(),
        times.len() > 1 ==> times.drop_last()[0] == times[0],
        times[0] <= times.last(),
{
    let d = times.drop_last();
    assert forall|i: int, j: int| 0 <= i <= j < d.len() implies d[i] <= d[j] by {
        assert(d[i] == times[i] && d[j] == times[j]);
    }
}

} // verus!
