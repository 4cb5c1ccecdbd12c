use distributed_rate_limiter::algorithms::TokenBucket;
use distributed_rate_limiter::remote::{check_with_fallback, expiry_seconds, remote_key};
use distributed_rate_limiter::{Duration, RateLimitConfig, RateLimitError};

#[test]
fn remote_key_is_prefixed() {
    assert_eq!(remote_key("user_redis"), "rate_limit:user_redis");
    assert_eq!(remote_key(""), "rate_limit:");
}

#[test]
fn expiry_is_two_windows_rounded_up_to_whole_seconds() {
    assert_eq!(expiry_seconds(&RateLimitConfig::per_second(5).unwrap()), 2);
    assert_eq!(expiry_seconds(&RateLimitConfig::per_minute(5).unwrap()), 120);
    let half = RateLimitConfig::new(3, Duration::from_millis(1500)).unwrap();
    assert_eq!(expiry_seconds(&half), 3);
    let short = RateLimitConfig::new(3, Duration::from_millis(500)).unwrap();
    assert_eq!(expiry_seconds(&short), 1);
}

#[test]
fn fallback_opens_when_the_backend_is_unreachable() {
    let down = Err(RateLimitError::BackendUnavailable("connection refused".to_string()));
    assert_eq!(check_with_fallback(down), Ok(true));
}

#[test]
fn fallback_keeps_the_backend_decision() {
    assert_eq!(check_with_fallback(Ok(false)), Ok(false));
    assert_eq!(check_with_fallback(Ok(true)), Ok(true));
}

#[test]
fn serialized_checks_at_one_instant_admit_capacity() {
    let config = RateLimitConfig::per_second(5).unwrap();
    let mut shared = TokenBucket::new(config);
    let mut admitted = 0;
    for _caller in 0..40 {
        if shared.allow_request_at("shared", 7) {
            admitted += 1;
        }
    }
    assert_eq!(admitted, 5);
}
