use rust_ps::prime::{MillerRabin, PollardRho};
use rust_ps::rng::RNG;

fn sorted<T: Ord>(mut v: Vec<T>) -> Vec<T> {
    v.sort();
    v
}

#[test]
fn is_prime_u8_every_value() {
    let mut count = 0;
    for n in 0..=255u8 {
        let expected = n >= 2 && (2..n).all(|d| n % d != 0);
        assert_eq!(n.is_prime(), expected, "{}", n);
        if expected {
            count += 1;
        }
    }
    assert_eq!(count, 54);
}

#[test]
fn is_prime_u16_values() {
    assert!(2003u16.is_prime());
    assert!(65521u16.is_prime());
    assert!(1999u16.is_prime());
    assert!(!65535u16.is_prime());
    assert!(!2047u16.is_prime());
}

#[test]
fn is_prime_u32_values() {
    assert!(7001u32.is_prime());
    assert!(4294967291u32.is_prime());
    assert!(2147483647u32.is_prime());
    assert!(!3215031751u32.is_prime());
    assert!(!25326001u32.is_prime());
}

#[test]
fn is_prime_u64_values() {
    assert!(300007u64.is_prime());
    assert!(1_000_000_007u64.is_prime());
    assert!(((1u64 << 61) - 1).is_prime());
    assert!(18446744073709551557u64.is_prime());
    assert!(!3215031751u64.is_prime());
    assert!(!341550071728321u64.is_prime());
    assert!(!600851475143u64.is_prime());
}

#[test]
fn is_prime_u64_rejects_primes_dividing_a_base() {
    // 407521 divides the base 9780504 and 299210837 divides 1795265022:
    // the round with that base sees 0 and fails.
    assert!(!407521u64.is_prime());
    assert!(!299210837u64.is_prime());
}

#[test]
fn naive_and_miller_rabin_parts() {
    assert!(97u64.naive_primality());
    assert!(!91u64.naive_primality());
    assert!(0u64.naive_primality());
    assert!(1u64.naive_primality());
    assert!(1_000_000_007u64.miller_rabin_test(2));
    assert!(2047u64.miller_rabin_test(2));
    assert!(!2047u64.miller_rabin_test(3));
    assert!(!407521u64.miller_rabin_test(9780504));
    assert!(1_000_000_007u64.miller_primality());
    assert_eq!(u64::mr_thres(), 300000);
    assert_eq!(u32::mr_thres(), 7000);
    assert_eq!(u16::mr_thres(), 2000);
    assert_eq!(u8::mr_thres(), 254);
}

#[test]
fn factorize_u64_values() {
    let mut rng = RNG::new(12345);
    assert_eq!(sorted(600851475143u64.factorize(&mut rng)), vec![71, 839, 1471, 6857]);
    assert_eq!(248832u64.factorize(&mut rng), vec![2, 2, 2, 2, 2, 2, 2, 2, 2, 2, 3, 3, 3, 3, 3]);
    assert_eq!((1u64 << 40).factorize(&mut rng), vec![2; 40]);
    assert_eq!(
        sorted(998244359987710471u64.factorize(&mut rng)),
        vec![998244353, 1000000007]
    );
    assert_eq!(0u64.factorize(&mut rng), Vec::<u64>::new());
    assert_eq!(1u64.factorize(&mut rng), Vec::<u64>::new());
}

#[test]
fn factorize_loses_primes_that_is_prime_rejects() {
    let mut rng = RNG::new(12345);
    assert_eq!(299210837u64.factorize(&mut rng), Vec::<u64>::new());
    assert_eq!(598421674u64.factorize(&mut rng), vec![2]);
    assert_eq!(1222563u64.factorize(&mut rng), vec![3]);
}

#[test]
fn factorize_narrow_types() {
    let mut rng = RNG::new(12345);
    assert_eq!(sorted(255u8.factorize(&mut rng)), vec![3, 5, 17]);
    assert_eq!(97u8.factorize(&mut rng), vec![97]);
    assert_eq!(2u8.factorize(&mut rng), vec![2]);
    assert_eq!(sorted(65535u16.factorize(&mut rng)), vec![3, 5, 17, 257]);
    assert_eq!(4294967291u32.factorize(&mut rng), vec![4294967291]);
    assert_eq!(sorted(3215031751u32.factorize(&mut rng)), vec![151, 751, 28351]);
}

#[test]
fn factorize_products_match() {
    let mut rng = RNG::new(987654321);
    for n in 2..3000u32 {
        let f = n.factorize(&mut rng);
        assert_eq!(f.iter().map(|&x| x as u64).product::<u64>(), n as u64);
        assert!(f.iter().all(|x| x.is_prime()));
    }
}

#[test]
fn rho_appends_to_existing_vector() {
    let mut rng = RNG::new(5);
    let mut arr = vec![7u64];
    (3u64 * 5 * 11).rho(&mut arr, &mut rng);
    assert_eq!(arr[0], 7);
    assert_eq!(sorted(arr[1..].to_vec()), vec![3, 5, 11]);
}

fn sieve(n: usize) -> Vec<bool> {
    let mut p = vec![true; n + 1];
    p[0] = false;
    if n >= 1 {
        p[1] = false;
    }
    let mut i = 2;
    while i * i <= n {
        if p[i] {
            let mut j = i * i;
            while j <= n {
                p[j] = false;
                j += i;
            }
        }
        i += 1;
    }
    p
}

#[test]
fn is_prime_u16_matches_sieve() {
    let p = sieve(65535);
    for n in 0..=65535u16 {
        assert_eq!(n.is_prime(), p[n as usize], "{}", n);
    }
}

#[test]
fn primes_pass_every_round_they_do_not_divide() {
    let p = sieve(5000);
    for n in 2..=5000u64 {
        if p[n as usize] {
            for a in [2u64, 3, 7, 61, 325, 9375, 28178, 450775, 9780504, 1795265022] {
                if a % n != 0 {
                    assert!(n.miller_rabin_test(a), "{} {}", n, a);
                }
            }
        }
    }
}

#[test]
fn is_prime_u32_accepts_large_primes() {
    for n in [4294967291u32, 4294967279, 4294967231, 2147483647, 1000000007, 998244353, 7001, 7013] {
        assert!(n.is_prime(), "{}", n);
    }
}

#[test]
fn factorize_u32_products_are_exact() {
    let mut rng = RNG::new(42);
    let mut x = 1u64;
    for _ in 0..200 {
        x = x.wrapping_mul(6364136223846793005).wrapping_add(1442695040888963407);
        let n = (x >> 32) as u32;
        let f = n.factorize(&mut rng);
        if n == 0 {
            assert!(f.is_empty());
        } else {
            assert_eq!(f.iter().map(|&v| v as u64).product::<u64>(), n as u64);
        }
    }
}

#[test]
fn factorize_leaves_the_generator_alone_for_trivial_inputs() {
    for n in [0u64, 1, 2, 1 << 20, 7, 7 << 5, 1_000_000_007] {
        let mut used = RNG::new(99);
        let f = n.factorize(&mut used);
        let mut fresh = RNG::new(99);
        assert_eq!(used.next_u64(), fresh.next_u64(), "{}", n);
        let twos = n.trailing_zeros() as usize;
        if n > 0 {
            assert!(f[..twos].iter().all(|&x| x == 2));
            assert!(f[twos..].iter().all(|&x| x % 2 == 1));
        }
    }
}

#[test]
fn factors_after_the_twos_are_odd() {
    let mut rng = RNG::new(5);
    for n in [12u64, 360, 1 << 10 | 3 << 11, 2 * 999_983 * 1_000_003] {
        let f = n.factorize(&mut rng);
        let twos = n.trailing_zeros() as usize;
        assert!(f[..twos].iter().all(|&x| x == 2));
        assert!(f[twos..].iter().all(|&x| x % 2 == 1));
        assert_eq!(f.iter().product::<u64>(), n);
    }
}
