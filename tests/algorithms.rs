use distributed_rate_limiter::algorithms::{FixedWindow, LeakyBucket, SlidingWindow, TokenBucket};
use distributed_rate_limiter::{Duration, RateLimitConfig, RateLimitError, RateLimiter, NANOS_PER_MILLI, NANOS_PER_SEC};

const MS: u64 = NANOS_PER_MILLI;

#[test]
fn test_fixed_window_allows_requests() {
    let config = RateLimitConfig::per_second(5).unwrap();
    let mut limiter = FixedWindow::new(config);

    for _ in 0..5 {
        assert!(limiter.allow_request("user1").unwrap());
    }

    assert!(!limiter.allow_request("user1").unwrap());
}

#[test]
fn test_fixed_window_resets() {
    let config = RateLimitConfig::new(3, Duration::from_millis(500)).unwrap();
    let mut limiter = FixedWindow::new(config);

    for _ in 0..3 {
        assert!(limiter.allow_request_at("user1", 0));
    }
    assert!(!limiter.allow_request_at("user1", 0));

    // 600 ms later the window has run out.
    assert!(limiter.allow_request_at("user1", 600 * MS));
}

#[test]
fn test_leaky_bucket_allows_requests() {
    let config = RateLimitConfig::per_second(3).unwrap();
    let mut limiter = LeakyBucket::new(config);

    assert!(limiter.allow_request("user1").unwrap(), "Request 1 should be allowed");
    assert!(limiter.allow_request("user1").unwrap(), "Request 2 should be allowed");
    assert!(limiter.allow_request("user1").unwrap(), "Request 3 should be allowed");

    assert!(!limiter.allow_request("user1").unwrap(), "4th request should be denied");
}

#[test]
fn test_leaky_bucket_leaks() {
    let config = RateLimitConfig::per_second(2).unwrap();
    let mut limiter = LeakyBucket::new(config);

    assert!(limiter.allow_request_at("user1", 0));
    assert!(limiter.allow_request_at("user1", 0));
    assert!(!limiter.allow_request_at("user1", 0));

    // 1100 ms later 2.2 units have leaked out.
    assert!(limiter.allow_request_at("user1", 1100 * MS));
    assert!(limiter.allow_request_at("user1", 1100 * MS));
}

#[test]
fn test_sliding_window_allows_requests() {
    let config = RateLimitConfig::per_second(5).unwrap();
    let mut limiter = SlidingWindow::new(config);

    for _ in 0..5 {
        assert!(limiter.allow_request("user1").unwrap());
    }

    assert!(!limiter.allow_request("user1").unwrap());
}

#[test]
fn test_sliding_window_slides() {
    let config = RateLimitConfig::new(3, Duration::from_millis(500)).unwrap();
    let mut limiter = SlidingWindow::new(config);

    for _ in 0..3 {
        assert!(limiter.allow_request_at("user1", 0));
    }
    assert!(!limiter.allow_request_at("user1", 0));

    // 600 ms later all three have slid out.
    assert!(limiter.allow_request_at("user1", 600 * MS));
}

#[test]
fn test_token_bucket_allows_requests() {
    let config = RateLimitConfig::per_second(5).unwrap();
    let mut limiter = TokenBucket::new(config);

    for _ in 0..5 {
        assert!(limiter.allow_request("user1").unwrap());
    }

    assert!(!limiter.allow_request("user1").unwrap());
}

#[test]
fn test_token_bucket_refills() {
    let config = RateLimitConfig::per_second(2).unwrap();
    let mut limiter = TokenBucket::new(config);

    assert!(limiter.allow_request_at("user1", 0));
    assert!(limiter.allow_request_at("user1", 0));
    assert!(!limiter.allow_request_at("user1", 0));

    // One second later two tokens are back.
    assert!(limiter.allow_request_at("user1", NANOS_PER_SEC));
}

#[test]
fn test_token_bucket_different_keys() {
    let config = RateLimitConfig::per_second(2).unwrap();
    let mut limiter = TokenBucket::new(config);

    assert!(limiter.allow_request("user1").unwrap());
    assert!(limiter.allow_request("user2").unwrap());
    assert!(limiter.allow_request("user1").unwrap());
    assert!(limiter.allow_request("user2").unwrap());
}

#[test]
fn token_bucket_burst_then_refill_of_two() {
    let config = RateLimitConfig::per_second(5).unwrap();
    let mut limiter = TokenBucket::new(config);
    for _ in 0..5 {
        assert!(limiter.allow_request_at("u", 0));
    }
    assert!(!limiter.allow_request_at("u", 0));
    // 400 ms at 5 per second refill exactly two tokens.
    assert!(limiter.allow_request_at("u", 400 * MS));
    assert!(limiter.allow_request_at("u", 400 * MS));
    assert!(!limiter.allow_request_at("u", 400 * MS));
}

#[test]
fn token_bucket_refill_is_exact_at_the_boundary() {
    let config = RateLimitConfig::per_second(2).unwrap();
    let mut limiter = TokenBucket::new(config);
    assert!(limiter.allow_request_at("u", 0));
    assert!(limiter.allow_request_at("u", 0));
    // One token takes 500 ms: one nanosecond short is not enough.
    assert!(!limiter.allow_request_at("u", 500 * MS - 1));
    assert!(limiter.allow_request_at("u", 500 * MS));
    assert!(!limiter.allow_request_at("u", 500 * MS));
}

#[test]
fn token_bucket_never_refills_past_capacity() {
    let config = RateLimitConfig::per_second(3).unwrap();
    let mut limiter = TokenBucket::new(config);
    assert!(limiter.allow_request_at("u", 0));
    let mut admitted = 0;
    for _ in 0..10 {
        if limiter.allow_request_at("u", 3600 * NANOS_PER_SEC) {
            admitted += 1;
        }
    }
    assert_eq!(admitted, 3);
}

#[test]
fn leaky_bucket_burst_then_leak() {
    let config = RateLimitConfig::per_second(3).unwrap();
    let mut limiter = LeakyBucket::new(config);
    for _ in 0..3 {
        assert!(limiter.allow_request_at("u", 0));
    }
    assert!(!limiter.allow_request_at("u", 0));
    // 1100 ms leak 3.3 units: the bucket is empty again.
    let mut admitted = 0;
    for _ in 0..5 {
        if limiter.allow_request_at("u", 1100 * MS) {
            admitted += 1;
        }
    }
    assert_eq!(admitted, 3);
}

#[test]
fn leaky_bucket_leaks_one_unit_per_third_of_a_second() {
    let config = RateLimitConfig::per_second(3).unwrap();
    let mut limiter = LeakyBucket::new(config);
    for _ in 0..3 {
        assert!(limiter.allow_request_at("u", 0));
    }
    assert!(!limiter.allow_request_at("u", 333 * MS));
    assert!(limiter.allow_request_at("u", 334 * MS));
    assert!(!limiter.allow_request_at("u", 334 * MS));
}

#[test]
fn fixed_window_scenario_three_per_half_second() {
    let config = RateLimitConfig::new(3, Duration::from_millis(500)).unwrap();
    let mut limiter = FixedWindow::new(config);
    for _ in 0..3 {
        assert!(limiter.allow_request_at("u", 0));
    }
    assert!(!limiter.allow_request_at("u", 499 * MS));
    assert!(limiter.allow_request_at("u", 500 * MS));
}

#[test]
fn fixed_window_admits_twice_capacity_across_a_boundary() {
    let config = RateLimitConfig::new(3, Duration::from_millis(500)).unwrap();
    let mut limiter = FixedWindow::new(config);
    let mut admitted = 0;
    for _ in 0..4 {
        if limiter.allow_request_at("u", 0) {
            admitted += 1;
        }
    }
    for _ in 0..4 {
        if limiter.allow_request_at("u", 500 * MS) {
            admitted += 1;
        }
    }
    assert_eq!(admitted, 6);
}

#[test]
fn fixed_window_snaps_to_the_current_window() {
    let config = RateLimitConfig::new(2, Duration::from_millis(100)).unwrap();
    let mut limiter = FixedWindow::new(config);
    assert!(limiter.allow_request_at("u", 0));
    assert!(limiter.allow_request_at("u", 0));
    // Untouched for many windows: the new window starts at 1050 ms, so
    // 1149 ms is still inside it.
    assert!(limiter.allow_request_at("u", 1050 * MS));
    assert!(limiter.allow_request_at("u", 1149 * MS));
    assert!(!limiter.allow_request_at("u", 1149 * MS));
}

#[test]
fn sliding_window_scenario_three_per_half_second() {
    let config = RateLimitConfig::new(3, Duration::from_millis(500)).unwrap();
    let mut limiter = SlidingWindow::new(config);
    assert!(limiter.allow_request_at("u", 0));
    assert!(limiter.allow_request_at("u", 100 * MS));
    assert!(limiter.allow_request_at("u", 200 * MS));
    assert!(!limiter.allow_request_at("u", 300 * MS));
    // At exactly one window the first entry is still inside.
    assert!(!limiter.allow_request_at("u", 500 * MS));
    assert!(limiter.allow_request_at("u", 500 * MS + 1));
    assert!(!limiter.allow_request_at("u", 500 * MS + 1));
}

#[test]
fn sliding_window_never_exceeds_capacity_in_a_window() {
    let config = RateLimitConfig::new(4, Duration::from_millis(500)).unwrap();
    let mut limiter = SlidingWindow::new(config);
    let mut admitted = 0;
    for i in 0..50u64 {
        if limiter.allow_request_at("u", i * 10 * MS) {
            admitted += 1;
        }
    }
    assert_eq!(admitted, 4);
}

#[test]
fn reset_makes_every_variant_start_afresh() {
    let config = RateLimitConfig::per_second(1).unwrap();

    let mut tb = TokenBucket::new(config);
    assert!(tb.allow_request_at("k", 0));
    assert!(!tb.allow_request_at("k", 0));
    tb.reset("k");
    assert!(tb.allow_request_at("k", 0));

    let mut lb = LeakyBucket::new(config);
    assert!(lb.allow_request_at("k", 0));
    assert!(!lb.allow_request_at("k", 0));
    lb.reset("k");
    assert!(lb.allow_request_at("k", 0));

    let mut fw = FixedWindow::new(config);
    assert!(fw.allow_request_at("k", 0));
    assert!(!fw.allow_request_at("k", 0));
    fw.reset("k");
    assert!(fw.allow_request_at("k", 0));

    let mut sw = SlidingWindow::new(config);
    assert!(sw.allow_request_at("k", 0));
    assert!(!sw.allow_request_at("k", 0));
    sw.reset("k");
    assert!(sw.allow_request_at("k", 0));
}

#[test]
fn reset_of_an_unknown_key_is_harmless() {
    let config = RateLimitConfig::per_second(1).unwrap();
    let mut limiter = FixedWindow::new(config);
    limiter.reset("never");
    limiter.reset("never");
    assert!(limiter.allow_request_at("never", 0));
}

fn drain(limiter: &mut dyn RateLimiter) -> u32 {
    let mut n = 0;
    for _ in 0..10 {
        if limiter.allow_request("k").unwrap() {
            n += 1;
        }
    }
    limiter.reset("k");
    n
}

#[test]
fn limiters_work_through_the_shared_interface() {
    let config = RateLimitConfig::per_minute(4).unwrap();
    assert_eq!(drain(&mut TokenBucket::new(config)), 4);
    assert_eq!(drain(&mut LeakyBucket::new(config)), 4);
    assert_eq!(drain(&mut FixedWindow::new(config)), 4);
    assert_eq!(drain(&mut SlidingWindow::new(config)), 4);
}

#[test]
fn config_constructors() {
    let c = RateLimitConfig::per_second(7).unwrap();
    assert_eq!(c.max_requests, 7);
    assert_eq!(c.window.as_nanos(), 1_000_000_000);
    let m = RateLimitConfig::per_minute(7).unwrap();
    assert_eq!(m.window.as_secs(), 60);
    let n = RateLimitConfig::new(3, Duration::from_millis(500)).unwrap();
    assert_eq!(n.window.as_nanos(), 500_000_000);
}

#[test]
fn config_refuses_zero_capacity_and_zero_window() {
    assert!(matches!(RateLimitConfig::per_second(0), Err(RateLimitError::ConfigError(_))));
    assert!(matches!(RateLimitConfig::per_minute(0), Err(RateLimitError::ConfigError(_))));
    assert!(matches!(
        RateLimitConfig::new(3, Duration::from_nanos(0)),
        Err(RateLimitError::ConfigError(_))
    ));
}

#[test]
fn token_bucket_scenario_five_per_second() {
    let config = RateLimitConfig::per_second(5).unwrap();
    let mut limiter = TokenBucket::new(config);
    for _ in 0..5 {
        assert!(limiter.allow_request_at("u", 0));
    }
    assert!(!limiter.allow_request_at("u", 0));
    assert!(limiter.allow_request_at("u", NANOS_PER_SEC));
    assert!(limiter.allow_request_at("u", NANOS_PER_SEC));
}

#[test]
fn token_bucket_after_a_pause_admits_only_what_refilled() {
    let config = RateLimitConfig::per_second(5).unwrap();
    let mut limiter = TokenBucket::new(config);
    for _ in 0..5 {
        assert!(limiter.allow_request_at("u", 0));
    }
    assert!(!limiter.allow_request_at("u", 0));
    // 300 ms refill 1.5 tokens: one request, and half a token left.
    assert!(limiter.allow_request_at("u", 300 * MS));
    assert!(!limiter.allow_request_at("u", 300 * MS));
    // 100 ms more complete the second token.
    assert!(limiter.allow_request_at("u", 400 * MS));
    assert!(!limiter.allow_request_at("u", 400 * MS));
}

#[test]
fn sliding_window_log_stays_within_capacity_under_load() {
    let config = RateLimitConfig::new(3, Duration::from_millis(100)).unwrap();
    let mut limiter = SlidingWindow::new(config);
    let mut admitted = 0;
    for i in 0..1000u64 {
        if limiter.allow_request_at("u", i * MS) {
            admitted += 1;
        }
    }
    // Entries leave once more than 100 ms old: three admitted per 101 ms.
    assert_eq!(admitted, 30);
}
