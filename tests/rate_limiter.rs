use order_book_aggregator::{AggregatorError, RateLimiter};

#[test]
fn rate_limiter_test_rate_limiter() {
    let mut rate_limiter = RateLimiter::new(1, 2, 0); // 1 request per 2 seconds
    // Use up 1 token
    assert!(rate_limiter.check_if_rate_limited(0).is_ok());
    // Next request should be rate limited with RateLimitExceeded error
    let res = rate_limiter.check_if_rate_limited(10);
    assert!(matches!(res, Err(AggregatorError::RateLimitExceeded(_))));
}

#[test]
fn window_restarts_after_the_interval() {
    let mut limiter = RateLimiter::new(2, 2, 1_000);
    assert!(limiter.check_if_rate_limited(1_000).is_ok());
    assert!(limiter.check_if_rate_limited(1_500).is_ok());
    assert!(limiter.check_if_rate_limited(2_999).is_err());
    // Two whole seconds after the window started.
    assert!(limiter.check_if_rate_limited(3_000).is_ok());
    assert!(limiter.check_if_rate_limited(3_001).is_ok());
    assert!(limiter.check_if_rate_limited(4_999).is_err());
    assert!(limiter.check_if_rate_limited(5_000).is_ok());
}

#[test]
fn refused_requests_do_not_use_the_budget() {
    let mut limiter = RateLimiter::new(1, 1, 0);
    assert!(limiter.check_if_rate_limited(0).is_ok());
    for t in 1..10 {
        assert!(limiter.check_if_rate_limited(t * 10).is_err());
    }
    assert!(limiter.check_if_rate_limited(1_000).is_ok());
}

#[test]
fn zero_budget_refuses_everything() {
    let mut limiter = RateLimiter::new(0, 1, 0);
    assert!(limiter.check_if_rate_limited(0).is_err());
    assert!(limiter.check_if_rate_limited(5_000).is_err());
}

#[test]
fn an_earlier_clock_reading_does_not_restart_the_window() {
    let mut limiter = RateLimiter::new(1, 1, 10_000);
    assert!(limiter.check_if_rate_limited(10_000).is_ok());
    assert!(limiter.check_if_rate_limited(5_000).is_err());
}
