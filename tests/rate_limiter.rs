use chrono::{Duration, TimeZone, Utc};
use pacman_core::rate_limiter::RateLimiter;

fn millis_at(secs: i64) -> i64 {
    Utc.timestamp_opt(secs, 0).unwrap().timestamp_millis()
}

#[test]
fn instant_submissions() {
    let mut limiter = RateLimiter::new(3, Duration::minutes(3).num_milliseconds());
    let time = millis_at(123456789);
    assert!(limiter.submit(time).is_ok());
    assert!(limiter.submit(time).is_ok());
    assert!(limiter.submit(time).is_ok());
    assert!(limiter.submit(time).is_err());
}

#[test]
fn spaced_out_submissions() {
    let mut limiter = RateLimiter::new(3, Duration::minutes(3).num_milliseconds());
    let time = millis_at(123456789);
    let at = |m: i64| time + Duration::minutes(m).num_milliseconds();
    assert!(limiter.submit(at(2)).is_ok());
    assert!(limiter.submit(at(4)).is_ok());
    assert!(limiter.submit(at(6)).is_ok());
    assert!(limiter.submit(at(8)).is_ok());
    assert!(limiter.submit(at(10)).is_ok());
    assert!(limiter.submit(at(12)).is_ok());
    assert!(limiter.submit(at(14)).is_ok());
    assert!(limiter.submit(at(16)).is_ok());
    assert!(limiter.submit(at(16)).is_ok());
    assert!(limiter.submit(at(16)).is_err());
    assert!(limiter.submit(at(18)).is_ok());
}

#[test]
fn two_per_ten_seconds() {
    let mut limiter = RateLimiter::new(2, 10_000);
    assert!(limiter.submit(0).is_ok());
    assert!(limiter.submit(1_000).is_ok());
    assert!(limiter.submit(2_000).is_err());
    assert!(limiter.submit(12_000).is_ok());
    assert!(limiter.submit(13_000).is_ok());
}

#[test]
fn window_edge_is_strict() {
    let mut limiter = RateLimiter::new(1, 10_000);
    assert!(limiter.submit(0).is_ok());
    assert!(limiter.submit(10_000).is_err());
    assert!(limiter.submit(10_001).is_ok());
}

#[test]
fn never_more_than_max_within_a_window() {
    let max = 3usize;
    let window = 5_000i64;
    let mut limiter = RateLimiter::new(max, window);
    let times: Vec<i64> = (0..200).map(|k| k * 700).collect();
    let mut admitted = Vec::new();
    for &t in &times {
        if limiter.submit(t).is_ok() {
            admitted.push(t);
        }
    }
    for &lo in &times {
        let hi = lo + window;
        let inside = admitted.iter().filter(|&&t| lo <= t && t <= hi).count();
        assert!(inside <= max);
    }
}

#[test]
fn reconfigure_keeps_entries() {
    let mut limiter = RateLimiter::new(1, 10_000);
    assert!(limiter.submit(0).is_ok());
    limiter.configure(1, 1_000);
    assert!(limiter.submit(500).is_err());
    assert!(limiter.submit(1_001).is_ok());
    limiter.configure(2, 1_000);
    assert!(limiter.submit(1_002).is_ok());
    assert!(limiter.submit(1_003).is_err());
}
