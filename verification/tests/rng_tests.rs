use lib::rng::Rng;

#[test]
fn zero_seed_starts_at_one() {
    let mut r = Rng::new(0);
    assert_eq!(r.next_u64(), 1082269761);
}

#[test]
fn seed_42_first_draws() {
    let mut r = Rng::new(42);
    assert_eq!(r.next_u64(), 45454805674);
    assert_eq!(r.next_u64(), 11532217803599905471);
    assert_eq!(r.next_u64(), 10021416941527320954);
}

#[test]
fn next_usize_reduces_the_draw() {
    let mut r = Rng::new(42);
    assert_eq!(r.next_usize(5), 4);
    assert_eq!(r.next_usize(19), (11532217803599905471u64 % 19) as usize);
}

#[test]
fn next_usize_zero_draws_nothing() {
    let mut r = Rng::new(42);
    assert_eq!(r.next_usize(0), 0);
    assert_eq!(r.next_u64(), 45454805674);
}

#[test]
fn next_bool_compares_the_draw() {
    let mut a = Rng::new(42);
    assert!(a.next_bool(45454805675));
    let mut b = Rng::new(42);
    assert!(!b.next_bool(45454805674));
    let mut c = Rng::new(42);
    assert!(!c.next_bool(0));
    assert_eq!(c.next_u64(), 11532217803599905471);
}

#[test]
fn same_seed_same_stream() {
    let mut a = Rng::new(12345);
    let mut b = Rng::new(12345);
    for _ in 0..1000 {
        assert_eq!(a.next_u64(), b.next_u64());
    }
}

#[test]
fn draws_never_zero() {
    for seed in [0u64, 1, 2, 42, u64::MAX, 1 << 63] {
        let mut r = Rng::new(seed);
        for _ in 0..10000 {
            assert_ne!(r.next_u64(), 0);
        }
    }
}
