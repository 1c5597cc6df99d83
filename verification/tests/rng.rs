use rust_ps::rng::RNG;

#[test]
fn xorshift_sequence_from_one() {
    let mut r = RNG::new(1);
    assert_eq!(r.next_u64(), 1082269761);
    assert_eq!(r.next_u64(), 1152992998833853505);
    assert_eq!(r.next_u64(), 11177516664432764457);
}

#[test]
fn xorshift_known_step() {
    let mut r = RNG::new(88172645463325252);
    assert_eq!(r.next_u64(), 8748534153485358512);
}

#[test]
fn zero_seed_stays_zero() {
    let mut r = RNG::new(0);
    for _ in 0..5 {
        assert_eq!(r.next_u64(), 0);
    }
}

#[test]
fn nonzero_seed_never_gives_zero() {
    let mut r = RNG::new(12345);
    for _ in 0..10000 {
        assert_ne!(r.next_u64(), 0);
    }
}
