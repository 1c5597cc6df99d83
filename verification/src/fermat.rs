//! Fermat's little theorem, and with it the soundness of the Miller-Rabin
//! round: a prime passes the round to every base that it does not divide.
use crate::algebra::{
    ext_gcd_spec, gcd_spec, lemma_divisor_le, lemma_dvd_linear, lemma_ext_gcd_spec,
    lemma_gcd_divides, lemma_gcd_pos,
};
use crate::prime::{
    is_factorization, odd_part, prime, prime_test, product, strong_probable_prime, test_complete_for,
    two_adic, Word,
};
use vstd::arithmetic::div_mod::*;
use vstd::arithmetic::power::*;
use vstd::arithmetic::power2::*;
use vstd::prelude::*;

verus! {

/// Euclid's lemma: a prime that divides a product divides one of its factors.
pub proof fn lemma_prime_divides_product(p: nat, a: int, b: int)
    requires
        prime(p),
        (a * b) % (p as int) == 0,
    ensures
        a % (p as int) == 0 || b % (p as int) == 0,
{
    let pi = p as int;
    lemma_mod_bound(a, pi);
    lemma_fundamental_div_mod(a, pi);
    let r = a % pi;
    let q = a / pi;
    if r != 0 {
        let g = gcd_spec(r as nat, p);
        lemma_gcd_pos(r as nat, p);
        lemma_gcd_divides(r as nat, p);
        lemma_divisor_le(g as int, r);
        if g >= 2 {
            assert(p % g != 0);
        }
        assert(g == 1);
        lemma_ext_gcd_spec(r, pi);
        let (g2, s, t) = ext_gcd_spec(r, pi);
        assert(g2 == 1);
        // p divides r * b, since a * b = p * (q * b) + r * b
        lemma_dvd_linear(pi, a * b, pi, 1, -(q * b));
        assert(a * b * 1 + pi * (-(q * b)) == r * b) by (nonlinear_arith)
            requires
                a == pi * q + r,
        ;
        // b = (r * b) * s + p * (b * t)
        lemma_dvd_linear(pi, r * b, pi, s, b * t);
        assert((r * b) * s + pi * (b * t) == b) by (nonlinear_arith)
            requires
                r * s + pi * t == 1,
        ;
    }
}

/// The binomial coefficient `n` choose `k`, by Pascal's rule.
pub open spec fn binom(n: nat, k: nat) -> nat
    decreases n,
{
    if k == 0 {
        1
    } else if n == 0 {
        0
    } else {
        binom((n - 1) as nat, (k - 1) as nat) + binom((n - 1) as nat, k)
    }
}

/// `n` choose `k` is 0 for `k > n`.
pub proof fn lemma_binom_above(n: nat, k: nat)
    requires
        k > n,
    ensures
        binom(n, k) == 0,
    decreases n,
{
    if n > 0 {
        lemma_binom_above((n - 1) as nat, (k - 1) as nat);
        lemma_binom_above((n - 1) as nat, k);
    }
}

/// `n` choose `n` is 1.
pub proof fn lemma_binom_all(n: nat)
    ensures
        binom(n, n) == 1,
    decreases n,
{
    if n > 0 {
        lemma_binom_all((n - 1) as nat);
        lemma_binom_above((n - 1) as nat, n);
    }
}

/// The absorption identity `k * C(n, k) == n * C(n - 1, k - 1)`.
pub proof fn lemma_binom_absorb(n: nat, k: nat)
    requires
        n >= 1,
        k >= 1,
    ensures
        k * binom(n, k) == n * binom((n - 1) as nat, (k - 1) as nat),
    decreases n,
{
    let n1 = (n - 1) as nat;
    let k1 = (k - 1) as nat;
    if n == 1 {
        if k > 1 {
            lemma_binom_above(0, k1);
            lemma_binom_above(0, k);
            lemma_binom_above(1, k);
        }
    } else {
        let n2 = (n - 2) as nat;
        lemma_binom_absorb(n1, k);
        // k * C(n-1, k) == (n-1) * C(n-2, k-1)
        if k == 1 {
            assert(binom(n1, 0) == 1 && binom(n2, 0) == 1);
            assert(k * binom(n, k) == n * binom(n1, k1)) by (nonlinear_arith)
                requires
                    binom(n, k) == binom(n1, k1) + binom(n1, k),
                    k * binom(n1, k) == n1 * binom(n2, k1),
                    binom(n1, k1) == 1,
                    binom(n2, k1) == 1,
                    k == 1,
                    n1 == n - 1,
            ;
        } else {
            let k2 = (k - 2) as nat;
            lemma_binom_absorb(n1, k1);
            // (k-1) * C(n-1, k-1) == (n-1) * C(n-2, k-2)
            assert(binom(n1, k1) == binom(n2, k2) + binom(n2, k1));
            assert(k * binom(n, k) == n * binom(n1, k1)) by (nonlinear_arith)
                requires
                    binom(n, k) == binom(n1, k1) + binom(n1, k),
                    k * binom(n1, k) == n1 * binom(n2, k1),
                    k1 * binom(n1, k1) == n1 * binom(n2, k2),
                    binom(n1, k1) == binom(n2, k2) + binom(n2, k1),
                    k1 == k - 1,
                    n1 == n - 1,
            ;
        }
    }
}

/// A prime `p` divides `p` choose `k` for `0 < k < p`.
pub proof fn lemma_prime_divides_binom(p: nat, k: nat)
    requires
        prime(p),
        0 < k < p,
    ensures
        (binom(p, k) as int) % (p as int) == 0,
{
    lemma_binom_absorb(p, k);
    let c = binom((p - 1) as nat, (k - 1) as nat);
    lemma_mod_multiples_basic(c as int, p as int);
    assert((k * binom(p, k)) as int == (c * p) as int) by (nonlinear_arith)
        requires
            k * binom(p, k) == p * c,
    ;
    lemma_prime_divides_product(p, k as int, binom(p, k) as int);
    lemma_small_mod(k, p);
}

/// The partial binomial sum `C(n, 0) + C(n, 1) x + ... + C(n, m) x^m`.
pub open spec fn binom_sum(x: int, n: nat, m: nat) -> int
    decreases m,
{
    if m == 0 {
        binom(n, 0) as int
    } else {
        binom_sum(x, n, (m - 1) as nat) + binom(n, m) * pow(x, m)
    }
}

/// Pascal's rule on partial sums.
pub proof fn lemma_binom_sum_step(x: int, n: nat, m: nat)
    requires
        m >= 1,
    ensures
        binom_sum(x, n + 1, m) == x * binom_sum(x, n, (m - 1) as nat) + binom_sum(x, n, m),
    decreases m,
{
    let m1 = (m - 1) as nat;
    lemma_pow_adds(x, 1, m1);
    lemma_pow1(x);
    assert(pow(x, m) == x * pow(x, m1));
    if m == 1 {
        lemma_pow0(x);
        assert(binom((n + 1) as nat, 1) == binom(n, 0) + binom(n, 1));
        assert(binom_sum(x, n + 1, 0) == binom((n + 1) as nat, 0));
        assert(binom_sum(x, n, 0) == binom(n, 0));
        assert(binom_sum(x, n + 1, 1) == binom((n + 1) as nat, 0) + binom((n + 1) as nat, 1) * pow(x, 1));
        assert(binom_sum(x, n, 1) == binom(n, 0) + binom(n, 1) * pow(x, 1));
        assert(binom_sum(x, n + 1, m) == x * binom_sum(x, n, m1) + binom_sum(x, n, m)) by (nonlinear_arith)
            requires
                binom_sum(x, n + 1, 1) == 1 + (1 + binom(n, 1)) * x,
                binom_sum(x, n, 1) == 1 + binom(n, 1) * x,
                binom_sum(x, n, 0) == 1,
                m == 1,
                m1 == 0,
        ;
    } else {
        let m2 = (m - 2) as nat;
        lemma_binom_sum_step(x, n, m1);
        assert(binom((n + 1) as nat, m) == binom(n, m1) + binom(n, m));
        let a = binom_sum(x, n, m2);
        let b = binom_sum(x, n, m1);
        let c1 = binom(n, m1) as int;
        let c2 = binom(n, m) as int;
        let pm = pow(x, m);
        let pm1 = pow(x, m1);
        assert(binom_sum(x, n + 1, m) == x * b + binom_sum(x, n, m)) by (nonlinear_arith)
            requires
                binom_sum(x, n + 1, m) == binom_sum(x, n + 1, m1) + (c1 + c2) * pm,
                binom_sum(x, n + 1, m1) == x * a + b,
                b == a + c1 * pm1,
                binom_sum(x, n, m) == b + c2 * pm,
                pm == x * pm1,
        ;
    }
}

/// Partial sums stop growing past `n`.
pub proof fn lemma_binom_sum_beyond(x: int, n: nat, m: nat)
    requires
        m >= n,
    ensures
        binom_sum(x, n, m) == binom_sum(x, n, n),
    decreases m,
{
    if m > n {
        lemma_binom_sum_beyond(x, n, (m - 1) as nat);
        lemma_binom_above(n, m);
    }
}

/// The binomial theorem: `(x + 1)^n == sum of C(n, k) x^k`.
pub proof fn lemma_binomial(x: int, n: nat)
    ensures
        pow(x + 1, n) == binom_sum(x, n, n),
    decreases n,
{
    if n == 0 {
        lemma_pow0(x + 1);
    } else {
        let n1 = (n - 1) as nat;
        lemma_binomial(x, n1);
        lemma_pow_adds(x + 1, 1, n1);
        lemma_pow1(x + 1);
        lemma_binom_sum_step(x, n1, n);
        lemma_binom_sum_beyond(x, n1, n);
        let b = binom_sum(x, n1, n1);
        assert(pow(x + 1, n) == (x + 1) * b);
        assert((x + 1) * b == x * b + b) by (nonlinear_arith);
    }
}

/// All middle terms of `(x + 1)^p` are multiples of the prime `p`.
proof fn lemma_binom_sum_mod_prime(x: int, p: nat, m: nat)
    requires
        prime(p),
        m < p,
    ensures
        (binom_sum(x, p, m) - 1) % (p as int) == 0,
    decreases m,
{
    if m == 0 {
        lemma_mod_self_0(p as int);
        assert(binom_sum(x, p, 0) - 1 == 0);
        lemma_small_mod(0, p);
    } else {
        let m1 = (m - 1) as nat;
        lemma_binom_sum_mod_prime(x, p, m1);
        lemma_prime_divides_binom(p, m);
        lemma_dvd_linear(p as int, binom_sum(x, p, m1) - 1, binom(p, m) as int, 1, pow(x, m));
    }
}

/// `(x + 1)^p == x^p + 1 (mod p)` for a prime `p`.
pub proof fn lemma_freshman(x: int, p: nat)
    requires
        prime(p),
    ensures
        (pow(x + 1, p) - pow(x, p) - 1) % (p as int) == 0,
{
    let p1 = (p - 1) as nat;
    lemma_binomial(x, p);
    lemma_binom_sum_mod_prime(x, p, p1);
    lemma_binom_all(p);
    assert(binom_sum(x, p, p) == binom_sum(x, p, p1) + pow(x, p));
}

/// Fermat's little theorem: `a^p == a (mod p)` for a prime `p`.
pub proof fn lemma_fermat(a: nat, p: nat)
    requires
        prime(p),
    ensures
        (pow(a as int, p) - a) % (p as int) == 0,
    decreases a,
{
    if a == 0 {
        lemma0_pow(p);
        lemma_small_mod(0, p);
    } else {
        let a1 = (a - 1) as nat;
        lemma_fermat(a1, p);
        lemma_freshman(a1 as int, p);
        lemma_dvd_linear(
            p as int,
            pow(a1 as int + 1, p) - pow(a1 as int, p) - 1,
            pow(a1 as int, p) - a1,
            1,
            1,
        );
    }
}

/// `a^(p - 1) == 1 (mod p)` for a prime `p` that does not divide `a`.
pub proof fn lemma_fermat_unit(a: nat, p: nat)
    requires
        prime(p),
        a % p != 0,
    ensures
        pow(a as int, (p - 1) as nat) % (p as int) == 1,
{
    let p1 = (p - 1) as nat;
    lemma_fermat(a, p);
    lemma_pow_adds(a as int, 1, p1);
    lemma_pow1(a as int);
    let e = pow(a as int, p1);
    assert(pow(a as int, p) - a == (a as int) * (e - 1)) by (nonlinear_arith)
        requires
            pow(a as int, p) == (a as int) * e,
    ;
    lemma_prime_divides_product(p, a as int, e - 1);
    lemma_fundamental_div_mod(e - 1, p as int);
    lemma_fundamental_div_mod_converse(e, p as int, (e - 1) / (p as int), 1);
}

/// The square roots of 1 modulo a prime are 1 and -1.
pub proof fn lemma_sqrt_one(x: int, p: nat)
    requires
        prime(p),
        0 <= x < p,
        (x * x) % (p as int) == 1,
    ensures
        x == 1 || x == p - 1,
{
    let pi = p as int;
    lemma_fundamental_div_mod(x * x, pi);
    let q = (x * x) / pi;
    assert((x - 1) * (x + 1) == q * pi) by (nonlinear_arith)
        requires
            x * x == pi * q + 1,
    ;
    lemma_mod_multiples_basic(q, pi);
    lemma_prime_divides_product(p, x - 1, x + 1);
    if (x - 1) % pi == 0 {
        if x == 0 {
            lemma_fundamental_div_mod_converse(-1, pi, -1, pi - 1);
        } else {
            lemma_small_mod((x - 1) as nat, p);
        }
    } else {
        if x + 1 < pi {
            lemma_small_mod((x + 1) as nat, p);
        }
    }
}

/// `d` is its odd part times a power of two.
pub proof fn lemma_odd_part_split(d: nat)
    requires
        d >= 1,
    ensures
        odd_part(d) * pow2(two_adic(d)) == d,
        odd_part(d) >= 1,
    decreases d,
{
    if d % 2 == 0 {
        let h = (d / 2) as nat;
        lemma_odd_part_split(h);
        assert(two_adic(d) == 1 + two_adic(h));
        assert(odd_part(d) == odd_part(h));
        lemma_pow2_unfold(two_adic(d));
        assert((two_adic(d) - 1) as nat == two_adic(h));
        assert(odd_part(h) * pow2(two_adic(d)) == d) by (nonlinear_arith)
            requires
                odd_part(h) * pow2(two_adic(h)) == h,
                pow2(two_adic(d)) == 2 * pow2(two_adic(h)),
                d == 2 * h,
        ;
    } else {
        lemma_pow2(0);
        lemma_pow0(2);
        assert(odd_part(d) == d && two_adic(d) == 0);
        assert(d * pow2(0) == d);
    }
}

/// Squaring the round's value at step `r` gives the value at step `r + 1`.
proof fn lemma_round_square(a: nat, q: nat, r: nat, n: nat)
    requires
        n >= 1,
    ensures
        (pow(a as int, q * pow2(r)) % (n as int)) * (pow(a as int, q * pow2(r)) % (n as int)) % (
        n as int) == pow(a as int, q * pow2(r + 1)) % (n as int),
{
    let e = q * pow2(r);
    lemma_pow2_unfold(r + 1);
    assert(q * pow2(r + 1) == e + e) by (nonlinear_arith)
        requires
            pow2(r + 1) == 2 * pow2(r),
            e == q * pow2(r),
    ;
    lemma_pow_adds(a as int, e, e);
    lemma_mul_mod_noop(pow(a as int, e), pow(a as int, e), n as int);
}

/// Once the round's value is 1 at a step `r`, the round passes.
proof fn lemma_round_passes_from(n: nat, a: nat, r: nat)
    requires
        prime(n),
        r <= two_adic((n - 1) as nat),
        pow(a as int, odd_part((n - 1) as nat) * pow2(r)) % (n as int) == 1,
    ensures
        strong_probable_prime(n, a),
    decreases r,
{
    let d = (n - 1) as nat;
    let q = odd_part(d);
    if r == 0 {
        lemma_pow2(0);
        lemma_pow0(2);
        assert(q * pow2(0) == q);
    } else {
        let r1 = (r - 1) as nat;
        lemma_round_square(a, q, r1, n);
        let x = pow(a as int, q * pow2(r1)) % (n as int);
        lemma_mod_bound(pow(a as int, q * pow2(r1)), n as int);
        lemma_sqrt_one(x, n);
        if x == 1 {
            lemma_round_passes_from(n, a, r1);
        } else if r1 == 0 {
            lemma_pow2(0);
            lemma_pow0(2);
            assert(q * pow2(0) == q);
        } else {
            assert(1 <= r1 <= two_adic(d) && (pow(a as int, q * pow2(r1)) % (n as int)) == d);
        }
    }
}

/// A prime passes the Miller-Rabin round to every base that it does not divide.
pub proof fn lemma_prime_passes_round(n: nat, a: nat)
    requires
        prime(n),
        a % n != 0,
    ensures
        strong_probable_prime(n, a),
{
    let d = (n - 1) as nat;
    lemma_odd_part_split(d);
    lemma_fermat_unit(a, n);
    lemma_round_passes_from(n, a, two_adic(d));
}

/// A base smaller than `n` (and positive) is no multiple of `n`.
proof fn lemma_small_base(b: nat, n: nat)
    requires
        0 < b < n,
    ensures
        b % n != 0,
{
    lemma_small_mod(b, n);
}

/// `is_prime` on `u8` accepts every prime.
pub proof fn lemma_is_prime_u8_complete(n: nat)
    requires
        prime(n),
        n <= u8::MAX,
    ensures
        prime_test::<u8>(n),
{
    if n > 254 {
        lemma_small_base(2, n);
        lemma_prime_passes_round(n, 2);
    }
}

/// `2^e mod 255` for `e = 8 * k + j`: the power `2^8` is 1 modulo 255.
proof fn lemma_pow2_mod_255(k: nat, j: nat)
    requires
        j < 8,
    ensures
        pow(2, 8 * k + j) % 255 == pow2(j) % 255,
{
    lemma2_to64();
    lemma_pow_positive(2, 8);
    lemma_pow_positive(2, j);
    lemma_pow_adds(2, 8 * k, j);
    lemma_pow_multiplies(2, 8, k);
    assert(pow(2, 8) == 256);
    lemma_pow_mod_noop(256, k, 255);
    assert(256int % 255 == 1);
    lemma1_pow(k);
    lemma_small_mod(1, 255);
    assert(pow(2, 8 * k) % 255 == 1);
    lemma_mul_mod_noop_left(pow(2, 8 * k), pow(2, j), 255);
    assert((pow(2, 8 * k) % 255) * pow(2, j) == pow(2, j));
    assert(pow(2, 8 * k + j) == pow(2, 8 * k) * pow(2, j));
}

/// `is_prime` on `u8` is exact: it accepts a value if and only if it is prime.
pub proof fn lemma_is_prime_u8_exact(n: nat)
    requires
        n <= u8::MAX,
    ensures
        prime_test::<u8>(n) == prime(n),
{
    if n == 255 {
        lemma2_to64();
        assert(odd_part(127) == 127);
        assert(odd_part(254) == 127);
        assert(two_adic(127) == 0);
        assert(two_adic(254) == 1);
        lemma_pow2_mod_255(15, 7);
        assert(8 * 15 + 7 == 127);
        assert(pow(2, 127) % 255 == 128);
        lemma_pow2_mod_255(31, 6);
        assert(8 * 31 + 6 == 254);
        assert(pow(2, 254) % 255 == 64);
        assert(!strong_probable_prime(255, 2)) by {
            assert forall|r: nat| 1 <= r <= two_adic(254) implies #[trigger] (pow(2, 127 * pow2(r)) % 255)
                != 254 by {
                assert(r == 1);
                assert(127 * pow2(r) == 254);
            }
        }
        assert(255nat % 3 == 0);
    } else if n >= 2 && !prime(n) {
        assert(n <= 254);
    }
}

/// `is_prime` on `u16` accepts every prime.
pub proof fn lemma_is_prime_u16_complete(n: nat)
    requires
        prime(n),
        n <= u16::MAX,
    ensures
        prime_test::<u16>(n),
{
    if n > 2000 {
        lemma_small_base(2, n);
        lemma_small_base(3, n);
        lemma_prime_passes_round(n, 2);
        lemma_prime_passes_round(n, 3);
    }
}

/// `is_prime` on `u32` accepts every prime.
pub proof fn lemma_is_prime_u32_complete(n: nat)
    requires
        prime(n),
        n <= u32::MAX,
    ensures
        prime_test::<u32>(n),
{
    if n > 7000 {
        lemma_small_base(2, n);
        lemma_small_base(7, n);
        lemma_small_base(61, n);
        lemma_prime_passes_round(n, 2);
        lemma_prime_passes_round(n, 7);
        lemma_prime_passes_round(n, 61);
    }
}

/// A prime above 300000 divides neither 450775 nor a smaller base.
proof fn lemma_no_large_divisor(n: nat)
    requires
        prime(n),
        n > 300000,
    ensures
        450775nat % n != 0,
{
    if 450775nat % n == 0 {
        lemma_fundamental_div_mod(450775, n as int);
        let k = 450775int / (n as int);
        assert(k == 1) by (nonlinear_arith)
            requires
                450775 == n * k + 0,
                n > 300000,
        ;
        assert(n % 5 == 0);
    }
}

/// `is_prime` on `u64` accepts every prime that is at most the threshold or
/// divides neither 9780504 nor 1795265022 (the other bases have no prime
/// factor above the threshold).
pub proof fn lemma_is_prime_u64_complete(n: nat)
    requires
        prime(n),
        n <= u64::MAX,
        n > 300000 ==> 9780504nat % n != 0 && 1795265022nat % n != 0,
    ensures
        prime_test::<u64>(n),
{
    if n > 300000 {
        lemma_small_base(2, n);
        lemma_small_base(325, n);
        lemma_small_base(9375, n);
        lemma_small_base(28178, n);
        lemma_no_large_divisor(n);
        lemma_prime_passes_round(n, 2);
        lemma_prime_passes_round(n, 325);
        lemma_prime_passes_round(n, 9375);
        lemma_prime_passes_round(n, 28178);
        lemma_prime_passes_round(n, 450775);
        lemma_prime_passes_round(n, 9780504);
        lemma_prime_passes_round(n, 1795265022);
    }
}

/// A prime factor of a word's value fits the word.
proof fn lemma_factor_fits(n: nat, p: nat, max: nat)
    requires
        1 <= n <= max,
        p >= 2,
        n % p == 0,
    ensures
        p <= max,
{
    lemma_divisor_le(p as int, n as int);
}

/// Every prime factor of a `u8` value passes `is_prime`, so `factorize`
/// returns all of them.
pub proof fn lemma_u8_test_complete(n: nat)
    requires
        1 <= n <= u8::MAX,
    ensures
        test_complete_for::<u8>(n),
{
    assert forall|p: nat| prime(p) && #[trigger] (n % p) == 0 implies prime_test::<u8>(p) by {
        lemma_factor_fits(n, p, u8::MAX as nat);
        lemma_is_prime_u8_complete(p);
    }
}

/// Every prime factor of a `u16` value passes `is_prime`, so `factorize`
/// returns all of them.
pub proof fn lemma_u16_test_complete(n: nat)
    requires
        1 <= n <= u16::MAX,
    ensures
        test_complete_for::<u16>(n),
{
    assert forall|p: nat| prime(p) && #[trigger] (n % p) == 0 implies prime_test::<u16>(p) by {
        lemma_factor_fits(n, p, u16::MAX as nat);
        lemma_is_prime_u16_complete(p);
    }
}

/// Every prime factor of a `u32` value passes `is_prime`, so `factorize`
/// returns all of them.
pub proof fn lemma_u32_test_complete(n: nat)
    requires
        1 <= n <= u32::MAX,
    ensures
        test_complete_for::<u32>(n),
{
    assert forall|p: nat| prime(p) && #[trigger] (n % p) == 0 implies prime_test::<u32>(p) by {
        lemma_factor_fits(n, p, u32::MAX as nat);
        lemma_is_prime_u32_complete(p);
    }
}

/// Every prime factor of a `u64` value passes `is_prime` when those above the
/// threshold divide neither 9780504 nor 1795265022.
pub proof fn lemma_u64_test_complete(n: nat)
    requires
        1 <= n <= u64::MAX,
        forall|p: nat|
            prime(p) && #[trigger] (n % p) == 0 && p > 300000 ==> 9780504nat % p != 0
                && 1795265022nat % p != 0,
    ensures
        test_complete_for::<u64>(n),
{
    assert forall|p: nat| prime(p) && #[trigger] (n % p) == 0 implies prime_test::<u64>(p) by {
        lemma_factor_fits(n, p, u64::MAX as nat);
        lemma_is_prime_u64_complete(p);
    }
}

/// `factorize` on a `u8` value `n >= 1` returns factors whose product is `n`.
pub proof fn lemma_factorize_u8_exact(n: nat, f: Seq<u8>)
    requires
        1 <= n <= u8::MAX,
        is_factorization::<u8>(n, f),
    ensures
        product(f) == n,
{
    lemma_u8_test_complete(n);
}

/// `factorize` on a `u16` value `n >= 1` returns factors whose product is `n`.
pub proof fn lemma_factorize_u16_exact(n: nat, f: Seq<u16>)
    requires
        1 <= n <= u16::MAX,
        is_factorization::<u16>(n, f),
    ensures
        product(f) == n,
{
    lemma_u16_test_complete(n);
}

/// `factorize` on a `u32` value `n >= 1` returns factors whose product is `n`.
pub proof fn lemma_factorize_u32_exact(n: nat, f: Seq<u32>)
    requires
        1 <= n <= u32::MAX,
        is_factorization::<u32>(n, f),
    ensures
        product(f) == n,
{
    lemma_u32_test_complete(n);
}

/// `factorize` on a `u64` value `n >= 1` returns factors whose product is `n`
/// when no prime factor of `n` above the threshold divides 9780504 or
/// 1795265022.
pub proof fn lemma_factorize_u64_exact(n: nat, f: Seq<u64>)
    requires
        1 <= n <= u64::MAX,
        is_factorization::<u64>(n, f),
        forall|p: nat|
            prime(p) && #[trigger] (n % p) == 0 && p > 300000 ==> 9780504nat % p != 0
                && 1795265022nat % p != 0,
    ensures
        product(f) == n,
{
    lemma_u64_test_complete(n);
}

/// Every word that `factorize` returns on `u8` is prime.
pub proof fn lemma_factorize_u8_primes(n: nat, f: Seq<u8>)
    requires
        is_factorization::<u8>(n, f),
    ensures
        forall|i: int| 0 <= i < f.len() ==> prime(#[trigger] f[i] as nat),
{
    assert forall|i: int| 0 <= i < f.len() implies prime(#[trigger] f[i] as nat) by {
        assert(prime_test::<u8>(f[i].value()));
        lemma_is_prime_u8_exact(f[i] as nat);
    }
}

} // verus!
