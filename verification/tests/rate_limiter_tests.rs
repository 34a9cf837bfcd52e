use vaultcore::RateLimiter;

#[test]
fn eleventh_call_in_window_is_denied() {
    let mut limiter = RateLimiter::new(10, 60);
    for _ in 0..10 {
        assert!(limiter.should_allow(b"10.0.0.1", 0));
    }
    assert!(!limiter.should_allow(b"10.0.0.1", 30));
}

#[test]
fn window_elapse_resets_count_and_allows() {
    let mut limiter = RateLimiter::new(10, 60);
    for _ in 0..11 {
        limiter.should_allow(b"10.0.0.1", 0);
    }
    assert!(!limiter.should_allow(b"10.0.0.1", 60));
    assert!(limiter.should_allow(b"10.0.0.1", 61));
    // the reset window starts at the reset tick with a count of one
    for _ in 0..9 {
        assert!(limiter.should_allow(b"10.0.0.1", 61));
    }
    assert!(!limiter.should_allow(b"10.0.0.1", 61));
}

#[test]
fn clients_are_counted_independently() {
    let mut limiter = RateLimiter::new(2, 60);
    assert!(limiter.should_allow(b"10.0.0.1", 0));
    assert!(limiter.should_allow(b"10.0.0.1", 0));
    assert!(!limiter.should_allow(b"10.0.0.1", 0));
    assert!(limiter.should_allow(b"10.0.0.2", 0));
    assert!(limiter.should_allow(b"10.0.0.2", 0));
    assert!(!limiter.should_allow(b"10.0.0.2", 0));
}

#[test]
fn zero_limit_denies_from_the_first_call() {
    let mut limiter = RateLimiter::new(0, 60);
    assert!(!limiter.should_allow(b"10.0.0.1", 5));
}

#[test]
fn burst_across_window_boundary_can_double_the_limit() {
    let mut limiter = RateLimiter::new(3, 10);
    for _ in 0..3 {
        assert!(limiter.should_allow(b"c", 9));
    }
    assert!(!limiter.should_allow(b"c", 10));
    for _ in 0..3 {
        assert!(limiter.should_allow(b"c", 21));
    }
    assert!(!limiter.should_allow(b"c", 21));
}
