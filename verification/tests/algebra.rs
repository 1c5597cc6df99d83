use rust_ps::algebra::{crt, ext_gcd, gcd, gcd_i128, gcd_i64, gcd_int, gcd_u128, lcm, lcm_i128, lcm_int, lcm_u128};

#[test]
fn gcd_of_common_values() {
    assert_eq!(gcd(12u64, 18), 6);
    assert_eq!(gcd(18u64, 12), 6);
    assert_eq!(gcd(17u64, 5), 1);
    assert_eq!(gcd(0u64, 5), 5);
    assert_eq!(gcd(5u64, 0), 5);
    assert_eq!(gcd(0u64, 0), 0);
    assert_eq!(gcd(u64::MAX, u64::MAX - 1), 1);
}

#[test]
fn lcm_of_common_values() {
    assert_eq!(lcm(4u64, 6), 12);
    assert_eq!(lcm(6u64, 4), 12);
    assert_eq!(lcm(7u64, 1), 7);
    assert_eq!(lcm(0u64, 9), 0);
    assert_eq!(lcm(0u64, 0), 0);
    assert_eq!(lcm(0u32, 0u32), 0);
    assert_eq!(lcm(1u64 << 32, 1 << 31), 1 << 32);
}

#[test]
fn gcd_and_lcm_on_narrow_types() {
    assert_eq!(gcd(12u8, 18u8), 6u8);
    assert_eq!(gcd(255u8, 85u8), 85u8);
    assert_eq!(gcd(65535u16, 4369u16), 4369u16);
    assert_eq!(gcd(4_000_000_000u32, 6_000_000u32), 2_000_000u32);
    assert_eq!(lcm(12u8, 18u8), 36u8);
    assert_eq!(lcm(255u16, 256u16), 65280u16);
    assert_eq!(lcm(65536u32, 65535u32), 4_294_901_760u32);
    assert_eq!(lcm(0u8, 0u8), 0u8);
}

#[test]
fn ext_gcd_bezout_coefficients() {
    assert_eq!(ext_gcd(240, 46), (2, -9, 47));
    assert_eq!(ext_gcd(46, 240), (2, 47, -9));
    assert_eq!(ext_gcd(0, 5), (5, 0, 1));
    assert_eq!(ext_gcd(5, 0), (5, 1, 0));
    assert_eq!(ext_gcd(-12, 18), (6, 1, 1));
    assert_eq!(ext_gcd(17, -5), (1, -2, -7));
    assert_eq!(ext_gcd(-4, 0), (4, -1, 0));
    assert_eq!(ext_gcd(0, -9), (9, 0, -1));
    for (a, b) in [(99i64, 78i64), (1_000_000_007, 998_244_353), (-35, -15), (1, 1)] {
        let (g, s, t) = ext_gcd(a, b);
        assert_eq!(a * s + b * t, g);
        assert!(g >= 0);
        assert_eq!(g as u64, gcd(a.unsigned_abs(), b.unsigned_abs()));
    }
}

#[test]
fn crt_solves_compatible_systems() {
    assert_eq!(crt(&[2, 3, 2], &[3, 5, 7]), Some(23));
    assert_eq!(crt(&[3, 5], &[4, 6]), Some(11));
    assert_eq!(crt(&[0], &[1]), Some(0));
    assert_eq!(crt(&[-1], &[5]), Some(4));
    assert_eq!(crt(&[7, 7], &[10, 10]), Some(7));
}

#[test]
fn crt_rejects_incompatible_systems() {
    assert_eq!(crt(&[1, 2], &[2, 4]), None);
    assert_eq!(crt(&[0, 1], &[6, 9]), None);
}

#[test]
fn crt_reads_the_shorter_length() {
    assert_eq!(crt(&[], &[]), Some(0));
    assert_eq!(crt(&[2, 3, 99], &[3, 5]), Some(8));
    assert_eq!(crt(&[2], &[3, 5]), Some(2));
}

#[test]
fn lcm_divides_every_common_multiple() {
    for x in 1..30u64 {
        for y in 1..30u64 {
            let l = lcm(x, y);
            assert_eq!(l % x, 0);
            assert_eq!(l % y, 0);
            for m in 1..=(x * y) {
                if m % x == 0 && m % y == 0 {
                    assert_eq!(m % l, 0);
                }
            }
        }
    }
}

#[test]
fn crt_solution_is_unique_below_the_lcm() {
    let r = [1i64, 5, 2];
    let m = [4i64, 6, 9];
    let v = crt(&r, &m);
    let sols: Vec<i64> = (0..36)
        .filter(|y| r.iter().zip(m.iter()).all(|(ri, mi)| (y - ri).rem_euclid(*mi) == 0))
        .collect();
    assert_eq!(sols, vec![v.unwrap()]);
    assert_eq!(v, Some(29));
}

#[test]
fn crt_takes_negative_moduli_by_their_absolute_value() {
    assert_eq!(crt(&[2, 3], &[-3, 5]), Some(8));
    assert_eq!(crt(&[1, 5, 2], &[-4, 6, -9]), Some(29));
    assert_eq!(crt(&[4], &[-1]), Some(0));
    assert_eq!(crt(&[1, 2], &[-2, -4]), None);
}

#[test]
fn crt_matches_a_search_over_small_signed_moduli() {
    let mods = [-6i64, -5, -4, -3, -2, -1, 1, 2, 3, 4, 5, 6];
    for &m1 in &mods {
        for &m2 in &mods {
            for r1 in -3i64..4 {
                for r2 in -3i64..4 {
                    let l = {
                        let (a, b) = (m1.unsigned_abs(), m2.unsigned_abs());
                        (a / gcd(a, b) * b) as i64
                    };
                    let expected = (0..l).find(|y| (y - r1) % m1 == 0 && (y - r2) % m2 == 0);
                    assert_eq!(crt(&[r1, r2], &[m1, m2]), expected, "{:?}", (r1, r2, m1, m2));
                }
            }
        }
    }
}

#[test]
fn signed_gcd_is_the_gcd_of_the_absolute_values() {
    assert_eq!(gcd_i64(12, -18), 6);
    assert_eq!(gcd_i64(4, -6), 2);
    assert_eq!(gcd_i64(-12, 18), 6);
    assert_eq!(gcd_i64(0, 0), 0);
    assert_eq!(gcd_i64(-5, 0), 5);
    assert_eq!(gcd_i64(0, -7), 7);
    assert_eq!(gcd_i64(-35, -15), 5);
    assert_eq!(gcd_i64(i64::MIN, 6), 2);
    for a in -30i64..30 {
        for b in -30i64..30 {
            assert_eq!(gcd_i64(a, b) as u64, gcd(a.unsigned_abs(), b.unsigned_abs()));
        }
    }
}

#[test]
fn crt_equals_crt_of_the_cut_slices() {
    let r = [2i64, 3, 2, 99, -7];
    let m = [3i64, 5, 7];
    assert_eq!(crt(&r, &m), crt(&r[..3], &m[..3]));
    assert_eq!(crt(&r, &m), Some(23));
    assert_eq!(crt(&[], &[4]), Some(0));
    assert_eq!(crt(&[1, 5], &[]), Some(0));
}

#[test]
fn gcd_and_lcm_on_every_width() {
    assert_eq!(gcd(12usize, 18usize), 6usize);
    assert_eq!(lcm(4usize, 6usize), 12usize);
    assert_eq!(gcd_u128(1u128 << 100, 6u128 << 90), 2u128 << 90);
    assert_eq!(lcm_u128(1u128 << 100, 3), 3u128 << 100);
    assert_eq!(lcm_u128(0, 0), 0);
    assert_eq!(gcd_int(-12i8, 18i8), 6i8);
    assert_eq!(gcd_int(4i16, -6i16), 2i16);
    assert_eq!(gcd_int(-35i32, -15i32), 5i32);
    assert_eq!(gcd_int(i64::MIN, 6i64), 2i64);
    assert_eq!(gcd_int(0isize, -7isize), 7isize);
    assert_eq!(lcm_int(-4i32, 6i32), 12i32);
    assert_eq!(lcm_int(0i8, 0i8), 0i8);
    assert_eq!(lcm_int(-3i64, -5i64), 15i64);
    assert_eq!(gcd_i128(-(1i128 << 100), 6i128 << 90), 2i128 << 90);
    assert_eq!(lcm_i128(-4, 6), 12);
    assert_eq!(lcm_i128(0, 0), 0);
}
