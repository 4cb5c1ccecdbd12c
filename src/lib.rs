//! Admission control for named request streams ("keys").
//!
//! Four interchangeable algorithms decide, per key, whether a request is
//! admitted against a configured capacity per window. Every decision is a pure
//! function of the key's state, the configuration and the current time, stated
//! as a spec function and proved for the executable code.
//!
//! Concurrency: every limiter takes `&mut self`, so a limiter has a single
//! owner at a time; callers that share one across threads put it behind their
//! own lock, which then covers refill, decision and write as one step.
use vstd::prelude::*;

pub mod algorithms;
pub mod clock;
pub mod remote;

verus! {

/// Length of time, held as a whole number of nanoseconds.
#[derive(Debug, Clone, Copy, PartialEq, Eq, Structural)]
pub struct Duration {
    pub nanos: u64,
}

/// Nanoseconds in one millisecond.
pub const NANOS_PER_MILLI: u64 = 1_000_000;

/// Nanoseconds in one second.
pub const NANOS_PER_SEC: u64 = 1_000_000_000;

/// Nanoseconds in one minute.
pub const NANOS_PER_MINUTE: u64 = 60_000_000_000;

impl Duration {
    pub fn from_nanos(nanos: u64) -> (r: Duration)
        ensures
            r.nanos == nanos,
    {
        Duration { nanos }
    }

    pub fn from_millis(millis: u64) -> (r: Duration)
        requires
            millis * NANOS_PER_MILLI <= u64::MAX,
        ensures
            r.nanos == millis * NANOS_PER_MILLI,
    {
        Duration { nanos: millis * NANOS_PER_MILLI }
    }

    pub fn from_secs(secs: u64) -> (r: Duration)
        requires
            secs * NANOS_PER_SEC <= u64::MAX,
        ensures
            r.nanos == secs * NANOS_PER_SEC,
    {
        Duration { nanos: secs * NANOS_PER_SEC }
    }

    pub fn as_nanos(&self) -> (r: u64)
        ensures
            r == self.nanos,
    {
        self.nanos
    }

    /// Whole seconds, rounded down.
    pub fn as_secs(&self) -> (r: u64)
        ensures
            r == self.nanos / NANOS_PER_SEC,
    {
        self.nanos / NANOS_PER_SEC
    }
}

/// Errors of the library.
#[derive(Debug, Clone, PartialEq, Eq)]
pub enum RateLimitError {
    /// A request was refused by the limit.
    LimitExceeded,
    /// A configuration was refused at construction.
    ConfigError(String),
    /// The remote store could not be reached, or its procedure failed.
    BackendUnavailable(String),
}

/// Capacity per window, shared by all algorithms.
#[derive(Debug, Clone, Copy, PartialEq, Eq, Structural)]
pub struct RateLimitConfig {
    pub max_requests: u64,
    pub window: Duration,
}

impl RateLimitConfig {
    /// A configuration that the limiters accept: at least one request per
    /// window, and a window longer than zero.
    pub open spec fn valid(&self) -> bool {
        self.max_requests > 0 && self.window.nanos > 0
    }

    /// Whether the limiters accept this configuration.
    pub fn is_valid(&self) -> (r: bool)
        ensures
            r == self.valid(),
    {
        self.max_requests > 0 && self.window.nanos > 0
    }

    /// Refuses a capacity of zero and a window of zero length.
    pub fn new(max_requests: u64, window: Duration) -> (r: Result<RateLimitConfig, RateLimitError>)
        ensures
            max_requests > 0 && window.nanos > 0 <==> r is Ok,
            r is Ok ==> r->Ok_0 == (RateLimitConfig { max_requests, window }) && r->Ok_0.valid(),
            r is Err ==> r->Err_0 is ConfigError,
    {
        if max_requests == 0 {
            return Err(RateLimitError::ConfigError(String::from_str("capacity must be positive")));
        }
        if window.nanos == 0 {
            return Err(RateLimitError::ConfigError(String::from_str("window must be longer than zero")));
        }
        Ok(RateLimitConfig { max_requests, window })
    }

    /// `max_requests` per second.
    pub fn per_second(max_requests: u64) -> (r: Result<RateLimitConfig, RateLimitError>)
        ensures
            max_requests > 0 <==> r is Ok,
            r is Ok ==> r->Ok_0 == (RateLimitConfig { max_requests, window: Duration { nanos: NANOS_PER_SEC } }),
            r is Err ==> r->Err_0 is ConfigError,
    {
        RateLimitConfig::new(max_requests, Duration::from_secs(1))
    }

    /// `max_requests` per minute.
    pub fn per_minute(max_requests: u64) -> (r: Result<RateLimitConfig, RateLimitError>)
        ensures
            max_requests > 0 <==> r is Ok,
            r is Ok ==> r->Ok_0 == (RateLimitConfig { max_requests, window: Duration { nanos: NANOS_PER_MINUTE } }),
            r is Err ==> r->Err_0 is ConfigError,
    {
        RateLimitConfig::new(max_requests, Duration::from_secs(60))
    }
}

/// The interface shared by every limiter, local or remote.
pub trait RateLimiter {
    /// Decides whether one request for `key` is admitted now, and records it.
    fn allow_request(&mut self, key: &str) -> Result<bool, RateLimitError>;

    /// Forgets all state of `key`; the next request for it starts afresh.
    fn reset(&mut self, key: &str);
}

/// The algorithms, by name.
#[derive(Debug, Clone, Copy, PartialEq, Eq, Structural)]
pub enum AlgorithmType {
    TokenBucket,
    LeakyBucket,
    FixedWindow,
    SlidingWindow,
}

} // verus!
