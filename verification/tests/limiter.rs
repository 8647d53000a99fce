use quotdd::limiter::RateLimits;

// 127.0.0.1 as an integer address key.
const LOCALHOST: u128 = 0x7F00_0001;

#[test]
fn ratelimit() {
    let mut limits = RateLimits::new();
    let ip = LOCALHOST;

    for _ in 0..10 {
        assert!(limits.accept(ip))
    }

    for _ in 0..10 {
        assert!(!limits.accept(ip))
    }

    limits.lower();

    assert!(!limits.accept(ip));

    limits.lower();

    assert!(limits.accept(ip));
}

#[test]
fn first_calls_admit_then_reject() {
    let mut limits = RateLimits::new();
    let ip: u128 = 42;
    for k in 0..25 {
        let admitted = limits.accept(ip);
        assert_eq!(admitted, k < 10);
    }
}

#[test]
fn fresh_address_admitted() {
    let mut limits = RateLimits::new();
    assert_eq!(limits.counter_of(7), 0);
    assert!(limits.accept(7));
    assert_eq!(limits.counter_of(7), 1);
}

#[test]
fn addresses_counted_apart() {
    let mut limits = RateLimits::new();
    for _ in 0..10 {
        assert!(limits.accept(1));
    }
    assert!(!limits.accept(1));
    assert!(limits.accept(2));
    assert_eq!(limits.counter_of(1), 11);
    assert_eq!(limits.counter_of(2), 1);
}

#[test]
fn decay_clamps_small_counters_to_zero() {
    let mut limits = RateLimits::new();
    for _ in 0..3 {
        limits.accept(5);
    }
    assert_eq!(limits.counter_of(5), 3);
    limits.lower();
    assert_eq!(limits.counter_of(5), 0);
    assert!(limits.accept(5));
    assert_eq!(limits.counter_of(5), 1);
}

#[test]
fn decay_keeps_the_remainder() {
    let mut limits = RateLimits::new();
    for _ in 0..15 {
        limits.accept(9);
    }
    limits.lower();
    assert_eq!(limits.counter_of(9), 5);
    assert!(limits.accept(9));
}
