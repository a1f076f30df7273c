//! The seeded generator behind every election timeout.

use quorum::rng::Rng;

#[test]
fn same_seed_same_stream() {
    let mut a = Rng::new(42);
    let mut b = Rng::new(42);
    for _ in 0..50 {
        assert_eq!(a.range(150, 300), b.range(150, 300));
    }
}

#[test]
fn stays_in_range() {
    let mut r = Rng::new(7);
    for _ in 0..1000 {
        let v = r.range(150, 300);
        assert!((150..=300).contains(&v));
    }
}

#[test]
fn empty_range_returns_min_and_keeps_state() {
    let mut a = Rng::new(5);
    let mut b = Rng::new(5);
    assert_eq!(a.range(10, 10), 10);
    assert_eq!(a.range(10, 3), 10);
    assert_eq!(a.range(150, 300), b.range(150, 300));
}

#[test]
fn zero_seed_is_replaced() {
    let mut a = Rng::new(0);
    let mut b = Rng::new(0x9E3779B97F4A7C15);
    for _ in 0..10 {
        assert_eq!(a.range(0, 1000), b.range(0, 1000));
    }
}

#[test]
fn first_draw_of_seed_one() {
    // xorshift64* from state 1: 1 ^ 1<<13 = 0x2001; ^ >>7 = 0x2041;
    // ^ <<17 = 0x40822041; times 0x2545F4914F6CDD1D modulo 2^64.
    let x: u64 = 0x40822041;
    let out = x.wrapping_mul(0x2545F4914F6CDD1D);
    let mut r = Rng::new(1);
    assert_eq!(r.range(0, 99), out % 100);
}

#[test]
fn full_span_draws_without_panicking() {
    let mut a = Rng::new(1);
    let mut b = Rng::new(1);
    for _ in 0..20 {
        let v = a.range(0, u64::MAX);
        let w = b.range(0, u64::MAX);
        assert_eq!(v, w);
    }
    let mut c = Rng::new(1);
    let first = c.range(0, u64::MAX);
    assert_eq!(first, 13473309256371520605);
}

#[test]
fn zero_seed_matches_its_replacement() {
    let mut a = Rng::new(0);
    let mut b = Rng::new(0x9E3779B97F4A7C15);
    for _ in 0..50 {
        assert_eq!(a.range(150, 300), b.range(150, 300));
    }
}
