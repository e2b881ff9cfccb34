use arbvis::throttle::{
    backoff_for, classify_status, with_throttle, ErrorClassify, Outcome, RequestFailure, Retries,
    RetryStep, Throttle, BACKOFF_BASE_MS, BACKOFF_CAP_MS, MAX_FETCH_WORKERS,
    SCALE_UP_INTERVAL_SECS, SUCCESSES_TO_SCALE_UP, TIMEOUT_BACKOFF_MS, TIMEOUT_COOLDOWN_SECS,
};

/// The instant at which the tests take place.
const NOW: i64 = 1_700_000_000;

#[test]
fn record_rate_limit_halves_with_floor() {
    let mut t = Throttle::new(640);
    t.active_limit = 640;
    t.record_rate_limit(NOW);
    assert_eq!(t.active_limit(), 320);
    for _ in 0..20 {
        t.record_rate_limit(NOW);
    }
    assert_eq!(t.active_limit(), 10);
}

#[test]
fn record_rate_limit_small_max_floors_at_four() {
    let mut t = Throttle::new(8);
    t.active_limit = 8;
    for _ in 0..10 {
        t.record_rate_limit(NOW);
    }
    assert_eq!(t.active_limit(), 4);
}

#[test]
fn record_timeout_reduces_by_ten_percent_with_floor() {
    let mut t = Throttle::new(160);
    t.active_limit = 100;
    t.record_timeout(NOW);
    assert_eq!(t.active_limit(), 90);
    for _ in 0..200 {
        t.record_timeout(NOW);
    }
    assert_eq!(t.active_limit(), 10);
}

#[test]
fn record_timeout_at_floor_does_not_update_last_timeout() {
    let mut t = Throttle::new(160);
    t.active_limit = 10;
    t.last_timeout = 0;
    t.record_timeout(NOW);
    assert_eq!(t.last_timeout, 0);
    assert_eq!(t.active_limit(), 10);
}

#[test]
fn record_success_gated_by_scale_up_interval() {
    let mut t = Throttle::new(64);
    t.active_limit = 10;
    t.last_scale_up = NOW;
    for _ in 0..200 {
        t.record_success(NOW);
    }
    assert_eq!(t.active_limit(), 10);
}

#[test]
fn record_success_gated_by_rate_limit_cooldown() {
    let mut t = Throttle::new(64);
    t.active_limit = 10;
    t.last_rate_limit = NOW;
    for _ in 0..200 {
        t.record_success(NOW);
    }
    assert_eq!(t.active_limit(), 10);
}

#[test]
fn record_success_doubles_in_slow_start() {
    // Slow-start: no prior 429 or timeout → multiplicative growth (×2).
    let mut t = Throttle::new(64);
    t.active_limit = 10;
    for _ in 0..SUCCESSES_TO_SCALE_UP {
        t.record_success(NOW);
    }
    assert_eq!(t.active_limit(), 20);
    for _ in 0..(SUCCESSES_TO_SCALE_UP - 1) {
        t.record_success(NOW);
    }
    assert_eq!(
        t.active_limit(),
        20,
        "should not scale before the next success burst"
    );
}

#[test]
fn record_success_adds_one_after_backoff() {
    // Once any 429/timeout has been seen, slow-start ends and growth is +1.
    let mut t = Throttle::new(64);
    t.active_limit = 10;
    // Mark a timeout in the distant past so the cooldown gate is already passed
    // but slow-start is permanently exited.
    t.last_timeout = NOW - TIMEOUT_COOLDOWN_SECS - 1;
    for _ in 0..SUCCESSES_TO_SCALE_UP {
        t.record_success(NOW);
    }
    assert_eq!(t.active_limit(), 11);
}

#[test]
fn slow_start_caps_at_max_workers() {
    let mut t = Throttle::new(128);
    t.active_limit = 100;
    for _ in 0..SUCCESSES_TO_SCALE_UP {
        t.record_success(NOW);
    }
    // 100 × 2 = 200, clamped to max (128).
    assert_eq!(t.active_limit(), 128);
}

#[test]
fn record_success_no_op_at_max() {
    let mut t = Throttle::new(8);
    t.active_limit = 8;
    for _ in 0..1000 {
        t.record_success(NOW);
    }
    assert_eq!(t.active_limit(), 8);
}

#[test]
fn rate_limit_backoff_within_bounds() {
    let mut t = Throttle::new(16);
    for attempt in 1u32..=10 {
        let d = t.rate_limit_backoff(attempt);
        assert!(d >= BACKOFF_BASE_MS);
        assert!(d <= BACKOFF_CAP_MS);
    }
}

#[test]
fn acquire_parks_when_at_limit_and_wakes_on_release() {
    let mut t = Throttle::new(16);
    t.active_limit = 1;
    assert!(t.acquire());
    assert_eq!(t.in_flight(), 1);
    assert!(!t.acquire());
    assert_eq!(t.in_flight(), 1, "no second permit at the limit");
    t.release();
    assert!(t.acquire());
    t.release();
    assert_eq!(t.in_flight(), 0);
}

#[test]
fn acquire_wakes_on_scale_up() {
    let mut t = Throttle::new(16);
    t.active_limit = 1;
    assert!(t.acquire());
    assert!(!t.acquire());
    t.active_limit = 2;
    assert!(t.acquire());
    t.release();
    assert_eq!(t.in_flight(), 1);
}

#[test]
fn a_new_throttle_starts_small() {
    let t = Throttle::new(MAX_FETCH_WORKERS);
    assert_eq!(t.active_limit(), 4);
    assert_eq!(t.max_workers(), 128);
    assert_eq!(Throttle::new(0).max_workers(), 1);
    assert_eq!(Throttle::new(0).active_limit(), 1);
    let s = t.stats();
    assert_eq!(s.in_flight, 0);
    assert_eq!(s.total_rate_limits, 0);
}

#[test]
fn five_doublings_reach_the_ceiling() {
    let mut t = Throttle::new(MAX_FETCH_WORKERS);
    let mut now = NOW;
    let mut scaled = 0;
    for _ in 0..5 * SUCCESSES_TO_SCALE_UP {
        if t.record_success(now) {
            scaled += 1;
            now += SCALE_UP_INTERVAL_SECS;
        }
    }
    assert_eq!(scaled, 5);
    assert_eq!(t.active_limit(), 128);
}

#[test]
fn backoff_grows_with_the_attempt() {
    // The window above the base: 2000, 11 000, 47 000 and 191 000 ms.
    assert_eq!(backoff_for(1, 2000), 3000);
    assert_eq!(backoff_for(1, 2001), 1000);
    assert_eq!(backoff_for(2, 11_000), 12_000);
    assert_eq!(backoff_for(3, 47_000), 48_000);
    assert_eq!(backoff_for(4, 190_000), 64_000);
    assert_eq!(backoff_for(9, 62_999), 63_999);
    assert_eq!(backoff_for(0, 500), 1500);
}

#[test]
fn jitter_is_the_splitmix_sequence() {
    // The counter starts at zero, whose scattered value is 0xE220A8397B1DCDAF.
    let mut t = Throttle::new(16);
    let first = t.rate_limit_backoff(1);
    assert_eq!(first, 1000 + 0xE220_A839_7B1D_CDAFu64 % 2001);
    assert_eq!(t.jitter_nonce, 1);
}

#[test]
fn statuses_are_classified() {
    assert_eq!(classify_status(429), Outcome::RateLimit);
    for s in [500, 502, 503, 504] {
        assert_eq!(classify_status(s), Outcome::Timeout);
    }
    for s in [400, 404, 501, 505] {
        assert_eq!(classify_status(s), Outcome::Permanent);
    }
    let timed_out = RequestFailure { status: None, transport: true };
    assert_eq!(timed_out.classify(), Outcome::Timeout);
    let other = RequestFailure { status: None, transport: false };
    assert_eq!(other.classify(), Outcome::Permanent);
    let limited = RequestFailure { status: Some(429), transport: true };
    assert_eq!(limited.classify(), Outcome::RateLimit);
}

#[test]
fn rate_limits_are_retried_ten_times() {
    let mut t = Throttle::new(128);
    let mut r = Retries::none();
    for i in 1..=10 {
        let step = with_throttle(&mut t, &mut r, Some(Outcome::RateLimit), NOW);
        assert!(matches!(step, RetryStep::SleepThenRetry { .. }));
        assert_eq!(r.rate_limit_retries, i);
    }
    let step = with_throttle(&mut t, &mut r, Some(Outcome::RateLimit), NOW);
    assert_eq!(step, RetryStep::Finish);
    assert_eq!(t.stats().total_rate_limits, 11);
}

#[test]
fn transient_failures_are_retried_five_times() {
    let mut t = Throttle::new(128);
    let mut r = Retries::none();
    for _ in 0..5 {
        let step = with_throttle(&mut t, &mut r, Some(Outcome::Timeout), NOW);
        assert_eq!(step, RetryStep::SleepThenRetry { ms: TIMEOUT_BACKOFF_MS });
    }
    let step = with_throttle(&mut t, &mut r, Some(Outcome::Timeout), NOW);
    assert_eq!(step, RetryStep::Finish);
    assert_eq!(t.stats().total_timeouts, 6);
}

#[test]
fn success_and_permanent_failure_finish_at_once() {
    let mut t = Throttle::new(128);
    let mut r = Retries::none();
    assert_eq!(with_throttle(&mut t, &mut r, None, NOW), RetryStep::Finish);
    assert_eq!(t.successes_since_scale_up, 1);
    let step = with_throttle(&mut t, &mut r, Some(Outcome::Permanent), NOW);
    assert_eq!(step, RetryStep::Finish);
    assert_eq!(r.rate_limit_retries + r.timeout_retries, 0);
}

#[test]
fn sleepers_are_counted() {
    let mut t = Throttle::new(4);
    t.begin_backoff();
    t.begin_backoff();
    t.end_backoff();
    assert_eq!(t.stats().in_backoff, 1);
}
