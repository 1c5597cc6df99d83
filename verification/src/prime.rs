//! Primality: trial division, the Miller-Rabin test, and factorisation by
//! Pollard's rho method.
use crate::algebra::{gcd, gcd_spec, lemma_divisor_le, lemma_dvd_trans, lemma_gcd_divides, lemma_gcd_pos};
use crate::rng::{advanced, lemma_advanced_refl, lemma_advanced_step, lemma_advanced_trans, RNG};
use vstd::arithmetic::div_mod::*;
use vstd::arithmetic::mul::*;
use vstd::arithmetic::power::*;
use vstd::arithmetic::power2::*;
use vstd::prelude::*;

verus! {

/// `n` is a prime number.
pub open spec fn prime(n: nat) -> bool {
    n >= 2 && forall|d: nat| 2 <= d < n ==> #[trigger] (n % d) != 0
}

/// No `i >= 2` with `i * i <= n` divides `n`.
pub open spec fn no_small_factor(n: nat) -> bool {
    forall|i: nat| 2 <= i && i * i <= n ==> #[trigger] (n % i) != 0
}

/// The exponent of 2 in `d` (0 for `d == 0`).
pub open spec fn two_adic(d: nat) -> nat
    decreases d,
{
    if d > 0 && d % 2 == 0 {
        1 + two_adic(d / 2)
    } else {
        0
    }
}

/// `d` divided by its largest power-of-two factor.
pub open spec fn odd_part(d: nat) -> nat
    decreases d,
{
    if d > 0 && d % 2 == 0 {
        odd_part(d / 2)
    } else {
        d
    }
}

/// `n` is a strong probable prime to base `a`: with `n - 1 = q * 2^s` and `q`
/// odd, `a^q = 1` or `a^q = -1 (mod n)`, or `a^(q * 2^r) = -1 (mod n)` for some
/// `1 <= r <= s`.
pub open spec fn strong_probable_prime(n: nat, a: nat) -> bool {
    let d = (n - 1) as nat;
    let q = odd_part(d);
    let t = pow(a as int, q) % (n as int);
    ||| t == 1
    ||| t == d
    ||| exists|r: nat| 1 <= r <= two_adic(d) && #[trigger] (pow(a as int, q * pow2(r)) % (n as int)) == d
}

/// For `n >= 2`, having no factor up to its square root is being prime.
pub proof fn lemma_no_small_factor_prime(n: nat)
    requires
        n >= 2,
    ensures
        no_small_factor(n) <==> prime(n),
{
    if prime(n) {
        assert forall|i: nat| 2 <= i && i * i <= n implies #[trigger] (n % i) != 0 by {
            assert(i < n) by (nonlinear_arith)
                requires
                    2 <= i,
                    i * i <= n,
            ;
        }
    }
    if no_small_factor(n) && !prime(n) {
        let d = choose|d: nat| 2 <= d < n && #[trigger] (n % d) == 0;
        lemma_fundamental_div_mod(n as int, d as int);
        let e = (n / d) as nat;
        assert(n == d * e);
        assert(e >= 2) by (nonlinear_arith)
            requires
                n == d * e,
                d < n,
                2 <= d,
        ;
        lemma_mod_multiples_basic(d as int, e as int);
        assert(n % e == 0) by {
            assert(n == d * e);
            assert(((d * e) as int) % (e as int) == 0);
        }
        if d <= e {
            assert(d * d <= n) by (nonlinear_arith)
                requires
                    n == d * e,
                    d <= e,
            ;
            assert(n % d != 0);
        } else {
            assert(e * e <= n) by (nonlinear_arith)
                requires
                    n == d * e,
                    e < d,
            ;
            assert(n % e != 0);
        }
    }
}

/// Trial division: whether no `i >= 2` with `i * i <= n` divides `n`.
pub fn trial_division(n: u64) -> (r: bool)
    ensures
        r == no_small_factor(n as nat),
        n >= 2 ==> (r == prime(n as nat)),
{
    proof {
        if n >= 2 {
            lemma_no_small_factor_prime(n as nat);
        }
    }
    let mut i: u64 = 2;
    while i <= n / i
        invariant
            2 <= i,
            i <= n + 2,
            forall|j: nat| 2 <= j < i ==> #[trigger] ((n as nat) % j) != 0,
        decreases n + 2 - i,
    {
        if n % i == 0 {
            proof {
                lemma_fundamental_div_mod(n as int, i as int);
                assert(i * i <= n) by (nonlinear_arith)
                    requires
                        i <= n / i,
                        n == i * (n / i) + n % i,
                        n % i >= 0,
                        i >= 2,
                ;
                assert((n as nat) % (i as nat) == 0);
                assert(!no_small_factor(n as nat));
                if n >= 2 {
                    lemma_no_small_factor_prime(n as nat);
                }
            }
            return false;
        }
        proof {
            lemma_fundamental_div_mod(n as int, i as int);
            assert(2 * i <= n) by (nonlinear_arith)
                requires
                    i <= n / i,
                    n == i * (n / i) + n % i,
                    n % i >= 0,
                    i >= 2,
            ;
        }
        i += 1;
    }
    proof {
        lemma_fundamental_div_mod(n as int, i as int);
        lemma_mod_bound(n as int, i as int);
        assert forall|j: nat| 2 <= j && j * j <= n implies #[trigger] ((n as nat) % j) != 0 by {
            assert(j < i) by (nonlinear_arith)
                requires
                    n / i < i,
                    n == i * (n / i) + n % i,
                    n % i < i,
                    j * j <= n,
                    i >= 2,
                    j >= 2,
            ;
        }
    }
    true
}

/// One step of square-and-multiply keeps `ret * base^exp (mod n)`.
proof fn lemma_pow_mod_step(ret: int, base: int, exp: nat, n: int)
    requires
        n > 0,
        exp > 0,
    ensures
        exp % 2 == 1 ==> ((ret * base) % n * pow((base * base) % n, exp / 2)) % n == (ret * pow(base, exp)) % n,
        exp % 2 == 0 ==> (ret * pow((base * base) % n, exp / 2)) % n == (ret * pow(base, exp)) % n,
{
    let h = exp / 2;
    lemma_pow_multiplies(base, 2, h);
    lemma_square_is_pow2(base);
    lemma_pow_mod_noop(base * base, h, n);
    let p = pow(base * base, h);
    let pm = pow((base * base) % n, h);
    assert(pm % n == p % n);
    if exp % 2 == 1 {
        assert(exp == 1 + 2 * h);
        lemma_pow_adds(base, 1, 2 * h);
        lemma_pow1(base);
        assert(pow(base, exp) == base * p);
        lemma_mul_mod_noop((ret * base) % n, pm, n);
        lemma_mul_mod_noop(ret * base, p, n);
        lemma_mod_twice(ret * base, n);
        assert(((ret * base) % n * pm) % n == ((ret * base) * p) % n);
        assert((ret * base) * p == ret * (base * p)) by (nonlinear_arith);
    } else {
        assert(exp == 2 * h);
        lemma_mul_mod_noop(ret, pm, n);
        lemma_mul_mod_noop(ret, p, n);
    }
}

/// `a^e mod n` by square-and-multiply.
fn pow_mod(a: u64, e: u64, n: u64) -> (r: u64)
    requires
        n >= 2,
    ensures
        r == pow(a as int, e as nat) % (n as int),
{
    let mut base = a as u128;
    let mut exp = e as u128;
    let rem = n as u128;
    let mut ret: u128 = 1;
    proof {
        lemma_pow0(base as int);
    }
    while exp != 0
        invariant
            rem == n,
            n >= 2,
            base <= u64::MAX,
            ret < rem,
            (ret * pow(base as int, exp as nat)) % (n as int) == pow(a as int, e as nat) % (n as int),
        decreases exp,
    {
        proof {
            lemma_pow_mod_step(ret as int, base as int, exp as nat, n as int);
        }
        assert(exp & 1 == exp % 2) by (bit_vector);
        assert(exp >> 1 == exp / 2) by (bit_vector);
        assert(ret * base <= 0xffff_ffff_ffff_ffffu128 * 0xffff_ffff_ffff_ffffu128) by (nonlinear_arith)
            requires
                ret <= 0xffff_ffff_ffff_ffffu128,
                base <= 0xffff_ffff_ffff_ffffu128,
        ;
        assert(base * base <= 0xffff_ffff_ffff_ffffu128 * 0xffff_ffff_ffff_ffffu128) by (nonlinear_arith)
            requires
                base <= 0xffff_ffff_ffff_ffffu128,
        ;
        if exp & 1 != 0 {
            ret = ret * base % rem;
        }
        base = base * base % rem;
        exp >>= 1;
    }
    proof {
        lemma_pow0(base as int);
        lemma_small_mod(ret as nat, n as nat);
    }
    ret as u64
}

/// The odd part of `n - 1`, with the exponent of 2, as the halving loop finds them.
proof fn lemma_halve(d: nat, p: nat, s: nat)
    requires
        p > 0,
        p % 2 == 0,
        d == p * pow2(s),
        odd_part(p) == odd_part(d),
        two_adic(d) == s + two_adic(p),
    ensures
        d == (p / 2) * pow2(s + 1),
        odd_part((p / 2) as nat) == odd_part(d),
        two_adic(d) == (s + 1) + two_adic((p / 2) as nat),
{
    lemma_pow2_unfold(s + 1);
    let h = p / 2;
    assert(h * pow2(s + 1) == p * pow2(s)) by (nonlinear_arith)
        requires
            p == 2 * h,
            pow2(s + 1) == 2 * pow2(s),
    ;
}

/// Squaring `a^p mod n` gives `a^(2p) mod n`.
proof fn lemma_square_pow_mod(a: int, p: nat, n: int, t: int)
    requires
        n > 0,
        t == pow(a, p) % n,
    ensures
        (t * t) % n == pow(a, p * 2) % n,
{
    lemma_pow_adds(a, p, p);
    assert(p + p == p * 2);
    lemma_mul_mod_noop(pow(a, p), pow(a, p), n);
}

/// Whether `n` is a strong probable prime to base `a` (one round of Miller-Rabin).
fn mr_round(n: u64, a: u64) -> (r: bool)
    requires
        n >= 2,
    ensures
        r == strong_probable_prime(n as nat, a as nat),
{
    let d = n - 1;
    let mut p = d;
    let ghost mut s: nat = 0;
    proof {
        lemma_pow2_pos(0);
        assert(pow2(0) == 1) by {
            lemma_pow2(0);
            reveal(pow);
        }
    }
    while p % 2 == 0
        invariant
            d == n - 1,
            d >= 1,
            0 < p <= d,
            d == p * pow2(s),
            odd_part(p as nat) == odd_part(d as nat),
            two_adic(d as nat) == s + two_adic(p as nat),
        decreases p,
    {
        proof {
            lemma_halve(d as nat, p as nat, s);
        }
        p = p / 2;
        proof {
            s = s + 1;
        }
    }
    let ghost q: nat = p as nat;
    assert(q == odd_part(d as nat) && s == two_adic(d as nat));
    let mut t = pow_mod(a, p, n);
    let at_last = t == d || t == 1;
    let ghost t0 = t;
    let ghost mut j: nat = 0;
    proof {
        lemma_pow2_pos(s);
    }
    while p != d
        invariant
            d == n - 1,
            d >= 1,
            q > 0,
            q == odd_part(d as nat),
            s == two_adic(d as nat),
            q * pow2(s) == d,
            j <= s,
            0 < p <= d,
            p == q * pow2(j),
            t == pow(a as int, p as nat) % (n as int),
            forall|r: nat| 1 <= r <= j ==> #[trigger] (pow(a as int, q * pow2(r)) % (n as int)) != d,
        decreases d - p,
    {
        proof {
            if j == s {
                assert(p == d);
            }
            assert(j < s);
            if j + 1 < s {
                lemma_pow2_strictly_increases(j + 1, s);
            }
            lemma_pow2_unfold(j + 1);
            lemma_pow2_pos(j);
            assert(q * pow2(j + 1) <= q * pow2(s)) by (nonlinear_arith)
                requires
                    q > 0,
                    pow2(j + 1) <= pow2(s),
            ;
            assert(q * pow2(j + 1) == p * 2) by (nonlinear_arith)
                requires
                    p == q * pow2(j),
                    pow2(j + 1) == 2 * pow2(j),
            ;
            lemma_square_pow_mod(a as int, p as nat, n as int, t as int);
        }
        assert(p < 0x8000_0000_0000_0000) by {
            assert(q * pow2(j + 1) == p * 2) by (nonlinear_arith)
                requires
                    p == q * pow2(j),
                    pow2(j + 1) == 2 * pow2(j),
            ;
        }
        assert(p << 1 == p * 2) by (bit_vector)
            requires
                p < 0x8000_0000_0000_0000u64,
        ;
        assert((t as u128) * (t as u128) <= 0xffff_ffff_ffff_ffffu128 * 0xffff_ffff_ffff_ffffu128)
            by (nonlinear_arith)
            requires
                t <= 0xffff_ffff_ffff_ffffu64,
        ;
        p <<= 1;
        t = ((t as u128 * t as u128) % n as u128) as u64;
        proof {
            j = j + 1;
            assert(p == q * pow2(j)) by (nonlinear_arith)
                requires
                    p == q * pow2((j - 1) as nat) * 2,
                    pow2(j) == 2 * pow2((j - 1) as nat),
            ;
        }
        if t == n - 1 {
            return true;
        }
    }
    proof {
        if j < s {
            lemma_pow2_strictly_increases(j, s);
            assert(q * pow2(j) < q * pow2(s)) by (nonlinear_arith)
                requires
                    pow2(j) < pow2(s),
                    q > 0,
            ;
        }
        assert(j == s);
    }
    at_last
}

/// Unsigned machine words that primality and factorisation work on.
pub trait Word: Sized + Copy {
    /// The number the word stands for.
    spec fn value(self) -> nat;

    /// The largest value of the type.
    spec fn max_value() -> nat;

    /// The largest value fits in a `u64`.
    proof fn lemma_max_value()
        ensures
            Self::max_value() <= u64::MAX,
    ;

    /// The value, widened to `u64`.
    fn to_u64(self) -> (r: u64)
        ensures
            r == self.value(),
            r <= Self::max_value(),
    ;

    /// The word with value `v`.
    fn from_u64(v: u64) -> (r: Self)
        requires
            v <= Self::max_value(),
        ensures
            r.value() == v,
    ;
}

/// Primality tests: trial division up to a threshold, Miller-Rabin with a
/// fixed set of bases above it.
pub trait MillerRabin: Word {
    /// The largest value that `is_prime` decides by trial division.
    spec fn threshold() -> nat;

    /// `n` passes the Miller-Rabin rounds with every base of this type.
    spec fn passes_bases(n: nat) -> bool;

    /// The threshold lies between 2 and the largest value.
    proof fn lemma_threshold()
        ensures
            2 <= Self::threshold() <= Self::max_value(),
    ;

    /// The largest value that `is_prime` decides by trial division.
    fn mr_thres() -> (r: Self)
        ensures
            r.value() == Self::threshold(),
    ;

    /// Whether no `i >= 2` with `i * i <= self` divides `self`.
    fn naive_primality(self) -> (r: bool)
        ensures
            r == no_small_factor(self.value()),
    ;

    /// Whether `self` is a strong probable prime to base `a`.
    fn miller_rabin_test(self, a: Self) -> (r: bool)
        requires
            self.value() >= 2,
        ensures
            r == strong_probable_prime(self.value(), a.value()),
    ;

    /// Whether `self` passes the Miller-Rabin rounds with every base of the type.
    fn miller_primality(self) -> (r: bool)
        requires
            self.value() >= 2,
        ensures
            r == Self::passes_bases(self.value()),
    ;

    /// Whether `self` is prime: exact up to the threshold, the Miller-Rabin
    /// rounds above it.
    fn is_prime(self) -> (r: bool)
        ensures
            r == (if self.value() <= 1 {
                false
            } else if self.value() <= Self::threshold() {
                prime(self.value())
            } else {
                Self::passes_bases(self.value())
            }),
    {
        if self.to_u64() <= 1 {
            false
        } else if self.to_u64() <= Self::mr_thres().to_u64() {
            proof {
                lemma_no_small_factor_prime(self.value());
            }
            self.naive_primality()
        } else {
            self.miller_primality()
        }
    }
}

/// What `is_prime` answers for the value `n` of a word of type `T`.
pub open spec fn prime_test<T: MillerRabin>(n: nat) -> bool {
    if n <= 1 {
        false
    } else if n <= T::threshold() {
        prime(n)
    } else {
        T::passes_bases(n)
    }
}

impl Word for u8 {
    open spec fn value(self) -> nat {
        self as nat
    }

    open spec fn max_value() -> nat {
        u8::MAX as nat
    }

    proof fn lemma_max_value() {
    }

    fn to_u64(self) -> (r: u64) {
        self as u64
    }

    fn from_u64(v: u64) -> (r: Self) {
        v as u8
    }
}

impl Word for u16 {
    open spec fn value(self) -> nat {
        self as nat
    }

    open spec fn max_value() -> nat {
        u16::MAX as nat
    }

    proof fn lemma_max_value() {
    }

    fn to_u64(self) -> (r: u64) {
        self as u64
    }

    fn from_u64(v: u64) -> (r: Self) {
        v as u16
    }
}

impl Word for u32 {
    open spec fn value(self) -> nat {
        self as nat
    }

    open spec fn max_value() -> nat {
        u32::MAX as nat
    }

    proof fn lemma_max_value() {
    }

    fn to_u64(self) -> (r: u64) {
        self as u64
    }

    fn from_u64(v: u64) -> (r: Self) {
        v as u32
    }
}

impl Word for u64 {
    open spec fn value(self) -> nat {
        self as nat
    }

    open spec fn max_value() -> nat {
        u64::MAX as nat
    }

    proof fn lemma_max_value() {
    }

    fn to_u64(self) -> (r: u64) {
        self
    }

    fn from_u64(v: u64) -> (r: Self) {
        v
    }
}

impl Word for usize {
    open spec fn value(self) -> nat {
        self as nat
    }

    open spec fn max_value() -> nat {
        usize::MAX as nat
    }

    proof fn lemma_max_value() {
    }

    fn to_u64(self) -> (r: u64) {
        self as u64
    }

    fn from_u64(v: u64) -> (r: Self) {
        v as usize
    }
}

impl MillerRabin for u8 {
    open spec fn threshold() -> nat {
        254
    }

    open spec fn passes_bases(n: nat) -> bool {
        strong_probable_prime(n, 2)
    }

    proof fn lemma_threshold() {
    }

    fn mr_thres() -> (r: Self) {
        254
    }

    fn naive_primality(self) -> (r: bool) {
        trial_division(self as u64)
    }

    fn miller_rabin_test(self, a: Self) -> (r: bool) {
        mr_round(self as u64, a as u64)
    }

    fn miller_primality(self) -> (r: bool) {
        if !self.miller_rabin_test(2) {
            return false;
        }
        true
    }
}

impl MillerRabin for u16 {
    open spec fn threshold() -> nat {
        2000
    }

    open spec fn passes_bases(n: nat) -> bool {
        strong_probable_prime(n, 2) && strong_probable_prime(n, 3)
    }

    proof fn lemma_threshold() {
    }

    fn mr_thres() -> (r: Self) {
        2000
    }

    fn naive_primality(self) -> (r: bool) {
        trial_division(self as u64)
    }

    fn miller_rabin_test(self, a: Self) -> (r: bool) {
        mr_round(self as u64, a as u64)
    }

    fn miller_primality(self) -> (r: bool) {
        if !self.miller_rabin_test(2) {
            return false;
        }
        if !self.miller_rabin_test(3) {
            return false;
        }
        true
    }
}

impl MillerRabin for u32 {
    open spec fn threshold() -> nat {
        7000
    }

    open spec fn passes_bases(n: nat) -> bool {
        strong_probable_prime(n, 2) && strong_probable_prime(n, 7) && strong_probable_prime(n, 61)
    }

    proof fn lemma_threshold() {
    }

    fn mr_thres() -> (r: Self) {
        7000
    }

    fn naive_primality(self) -> (r: bool) {
        trial_division(self as u64)
    }

    fn miller_rabin_test(self, a: Self) -> (r: bool) {
        mr_round(self as u64, a as u64)
    }

    fn miller_primality(self) -> (r: bool) {
        if !self.miller_rabin_test(2) {
            return false;
        }
        if !self.miller_rabin_test(7) {
            return false;
        }
        if !self.miller_rabin_test(61) {
            return false;
        }
        true
    }
}

impl MillerRabin for u64 {
    open spec fn threshold() -> nat {
        300000
    }

    open spec fn passes_bases(n: nat) -> bool {
        &&& strong_probable_prime(n, 2)
        &&& strong_probable_prime(n, 325)
        &&& strong_probable_prime(n, 9375)
        &&& strong_probable_prime(n, 28178)
        &&& strong_probable_prime(n, 450775)
        &&& strong_probable_prime(n, 9780504)
        &&& strong_probable_prime(n, 1795265022)
    }

    proof fn lemma_threshold() {
    }

    fn mr_thres() -> (r: Self) {
        300000
    }

    fn naive_primality(self) -> (r: bool) {
        trial_division(self)
    }

    fn miller_rabin_test(self, a: Self) -> (r: bool) {
        mr_round(self, a)
    }

    fn miller_primality(self) -> (r: bool) {
        if !self.miller_rabin_test(2) {
            return false;
        }
        if !self.miller_rabin_test(325) {
            return false;
        }
        if !self.miller_rabin_test(9375) {
            return false;
        }
        if !self.miller_rabin_test(28178) {
            return false;
        }
        if !self.miller_rabin_test(450775) {
            return false;
        }
        if !self.miller_rabin_test(9780504) {
            return false;
        }
        if !self.miller_rabin_test(1795265022) {
            return false;
        }
        true
    }
}

/// `is_prime` on `u8` decides every value up to 254 by trial division, and
/// above it tests whether the value is a strong probable prime to base 2.
pub proof fn lemma_u8_is_prime_bases(n: nat)
    requires
        n <= u8::MAX,
    ensures
        prime_test::<u8>(n) == (n >= 2 && if n <= 254 {
            prime(n)
        } else {
            strong_probable_prime(n, 2)
        }),
{
}

/// `is_prime` on `u16` decides every value up to 2000 by trial division, and
/// above it tests whether the value is a strong probable prime to the bases
/// 2 and 3.
pub proof fn lemma_u16_is_prime_bases(n: nat)
    requires
        n <= u16::MAX,
    ensures
        prime_test::<u16>(n) == (n >= 2 && if n <= 2000 {
            prime(n)
        } else {
            strong_probable_prime(n, 2) && strong_probable_prime(n, 3)
        }),
{
}

/// `is_prime` on `u32` decides every value up to 7000 by trial division, and
/// above it tests whether the value is a strong probable prime to the bases
/// 2, 7 and 61 (the set that is exact below 4759123141, beyond `u32::MAX`).
pub proof fn lemma_u32_is_prime_bases(n: nat)
    requires
        n <= u32::MAX,
    ensures
        prime_test::<u32>(n) == (n >= 2 && if n <= 7000 {
            prime(n)
        } else {
            strong_probable_prime(n, 2) && (strong_probable_prime(n, 7) && strong_probable_prime(n, 61))
        }),
{
}

/// `is_prime` on `u64` decides every value up to 300000 by trial division, and
/// above it tests whether the value is a strong probable prime to the seven
/// bases 2, 325, 9375, 28178, 450775, 9780504 and 1795265022.
pub proof fn lemma_u64_is_prime_bases(n: nat)
    requires
        n <= u64::MAX,
    ensures
        prime_test::<u64>(n) == (n >= 2 && if n <= 300000 {
            prime(n)
        } else {
            &&& strong_probable_prime(n, 2)
            &&& strong_probable_prime(n, 325)
            &&& strong_probable_prime(n, 9375)
            &&& strong_probable_prime(n, 28178)
            &&& strong_probable_prime(n, 450775)
            &&& strong_probable_prime(n, 9780504)
            &&& strong_probable_prime(n, 1795265022)
        }),
{
}

/// Product of the values of a sequence of words.
pub open spec fn product<T: Word>(s: Seq<T>) -> nat
    decreases s.len(),
{
    if s.len() == 0 {
        1
    } else {
        product(s.drop_last()) * s.last().value()
    }
}

/// Every word of `s` passes `is_prime`.
pub open spec fn all_pass<T: MillerRabin>(s: Seq<T>) -> bool {
    forall|i: int| 0 <= i < s.len() ==> prime_test::<T>(#[trigger] s[i].value())
}

/// `is_prime` of type `T` accepts every prime factor of `n`.
pub open spec fn test_complete_for<T: MillerRabin>(n: nat) -> bool {
    forall|p: nat| prime(p) && #[trigger] (n % p) == 0 ==> prime_test::<T>(p)
}

/// What `rho` does to the vector: it appends words that pass `is_prime`
/// whose product divides `n`, and equals `n` when `n` is odd and `is_prime`
/// accepts every prime factor of `n`; for an odd `n` every word appended is odd.
pub open spec fn rho_appends<T: MillerRabin>(n: nat, before: Seq<T>, after: Seq<T>) -> bool {
    let added = after.subrange(before.len() as int, after.len() as int);
    &&& before.len() <= after.len()
    &&& after.subrange(0, before.len() as int) == before
    &&& all_pass(added)
    &&& n >= 1 ==> n % product(added) == 0
    &&& (n % 2 == 1 && test_complete_for::<T>(n)) ==> product(added) == n
    &&& n % 2 == 1 ==> forall|i: int| 0 <= i < added.len() ==> #[trigger] added[i].value() % 2 == 1
}

/// The product of a concatenation.
pub proof fn lemma_product_concat<T: Word>(a: Seq<T>, b: Seq<T>)
    ensures
        product(a + b) == product(a) * product(b),
    decreases b.len(),
{
    if b.len() == 0 {
        assert(a + b =~= a);
        assert(product(b) == 1);
        assert(product(a + b) == product(a));
    } else {
        lemma_product_concat(a, b.drop_last());
        assert((a + b).drop_last() =~= a + b.drop_last());
        assert((a + b).last() == b.last());
        let pa = product(a);
        let pb = product(b.drop_last());
        let l = b.last().value();
        assert(product(a + b) == product(a + b.drop_last()) * l);
        assert(product(b) == pb * l);
        assert(pa * pb * l == pa * (pb * l)) by (nonlinear_arith);
        assert(product(a + b) == pa * pb * l);
    }
}

/// Words that pass `is_prime` are at least 2, so their product is positive.
pub proof fn lemma_product_pos<T: MillerRabin>(s: Seq<T>)
    requires
        all_pass(s),
    ensures
        product(s) >= 1,
    decreases s.len(),
{
    if s.len() > 0 {
        assert(all_pass(s.drop_last())) by {
            assert forall|i: int| 0 <= i < s.drop_last().len() implies prime_test::<T>(
                #[trigger] s.drop_last()[i].value(),
            ) by {
                assert(s.drop_last()[i] == s[i]);
            }
        }
        lemma_product_pos(s.drop_last());
        assert(prime_test::<T>(s[s.len() - 1].value()));
        assert(product(s.drop_last()) * s.last().value() >= 1) by (nonlinear_arith)
            requires
                product(s.drop_last()) >= 1,
                s.last().value() >= 2,
        ;
    }
}

/// A divisor `d` of an odd `n` whose prime factors pass the test is odd and
/// its prime factors pass the test too.
proof fn lemma_complete_divisor<T: MillerRabin>(n: nat, d: nat)
    requires
        d > 0,
        n > 0,
        n % d == 0,
        n % 2 == 1,
        test_complete_for::<T>(n),
    ensures
        d % 2 == 1,
        test_complete_for::<T>(d),
{
    if d % 2 == 0 {
        lemma_dvd_trans(2, d as int, n as int);
    }
    assert forall|p: nat| prime(p) && #[trigger] (d % p) == 0 implies prime_test::<T>(p) by {
        lemma_dvd_trans(p as int, d as int, n as int);
        assert(n % p == 0);
    }
}

/// Two consecutive `rho` calls on `d` and `n / d` together do what one `rho`
/// call on `n` promises.
proof fn lemma_rho_combine<T: MillerRabin>(
    n: nat,
    d: nat,
    before: Seq<T>,
    mid: Seq<T>,
    after: Seq<T>,
)
    requires
        1 < d < n,
        n % d == 0,
        rho_appends(d, before, mid),
        rho_appends((n / d) as nat, mid, after),
    ensures
        rho_appends(n, before, after),
{
    let b = before.len() as int;
    let a1 = mid.subrange(b, mid.len() as int);
    let a2 = after.subrange(mid.len() as int, after.len() as int);
    let added = after.subrange(b, after.len() as int);
    assert(added == a1 + a2);
    assert(after.subrange(0, b) == before) by {
        assert(after.subrange(0, b) == after.subrange(0, mid.len() as int).subrange(0, b));
    }
    assert(all_pass(added)) by {
        assert forall|i: int| 0 <= i < added.len() implies prime_test::<T>(#[trigger] added[i].value()) by {
            if i < a1.len() {
                assert(added[i] == a1[i]);
            } else {
                assert(added[i] == a2[i - a1.len()]);
            }
        }
    }
    lemma_product_concat(a1, a2);
    lemma_product_pos(a1);
    lemma_product_pos(a2);
    let p1 = product(a1);
    let p2 = product(a2);
    let e = (n / d) as nat;
    lemma_fundamental_div_mod(n as int, d as int);
    assert(n == d * e);
    assert(e > 1) by (nonlinear_arith)
        requires
            n == d * e,
            d < n,
            d > 1,
    ;
    lemma_fundamental_div_mod(d as int, p1 as int);
    lemma_fundamental_div_mod(e as int, p2 as int);
    let u = d / p1;
    let v = e / p2;
    assert(n == (u * v) * (p1 * p2)) by (nonlinear_arith)
        requires
            n == d * e,
            d == p1 * u,
            e == p2 * v,
    ;
    assert(p1 * p2 > 0) by (nonlinear_arith)
        requires
            p1 >= 1,
            p2 >= 1,
    ;
    lemma_mod_multiples_basic((u * v) as int, (p1 * p2) as int);
    lemma_mod_multiples_basic(d as int, e as int);
    assert(d * e == e * d) by (nonlinear_arith);
    if n % 2 == 1 && test_complete_for::<T>(n) {
        lemma_complete_divisor::<T>(n, d);
        lemma_complete_divisor::<T>(n, e);
    }
    if n % 2 == 1 {
        if d % 2 == 0 {
            lemma_dvd_trans(2, d as int, n as int);
        }
        if e % 2 == 0 {
            lemma_dvd_trans(2, e as int, n as int);
        }
        assert forall|i: int| 0 <= i < added.len() implies #[trigger] added[i].value() % 2 == 1 by {
            if i < a1.len() {
                assert(added[i] == a1[i]);
            } else {
                assert(added[i] == a2[i - a1.len()]);
            }
        }
    }
}

/// An odd `n >= 2` with no odd factor `j >= 3` with `j * j <= n` is prime.
proof fn lemma_odd_trial_prime(n: nat)
    requires
        n >= 2,
        n % 2 == 1,
        forall|j: nat| 3 <= j && j % 2 == 1 && j * j <= n ==> #[trigger] (n % j) != 0,
    ensures
        prime(n),
{
    assert forall|i: nat| 2 <= i && i * i <= n implies #[trigger] (n % i) != 0 by {
        if i % 2 == 0 && n % i == 0 {
            lemma_dvd_trans(2, i as int, n as int);
        }
    }
    lemma_no_small_factor_prime(n);
}

/// Appends to `arr` the factors of `n` found by Pollard's rho method, with
/// `x -> x^2 - 1 (mod n)` as the sequence and trial division by odd numbers
/// when the method only finds `n` itself.
pub fn rho_core<T: MillerRabin>(n: u64, arr: &mut Vec<T>, rng: &mut RNG)
    requires
        n <= T::max_value(),
    ensures
        rho_appends::<T>(n as nat, old(arr)@, final(arr)@),
        advanced(old(rng)@, final(rng)@),
        (n <= 1 || prime_test::<T>(n as nat)) ==> final(rng)@ == old(rng)@,
    decreases n,
{
    let ghost before = arr@;
    let ghost r0 = rng@;
    proof {
        lemma_advanced_refl(r0);
    }
    if n <= 1 {
        proof {
            let added = arr@.subrange(before.len() as int, arr@.len() as int);
            assert(added =~= Seq::<T>::empty());
            assert(product(added) == 1);
            assert(arr@.subrange(0, before.len() as int) =~= before);
            assert((n as nat) % 1 == 0);
        }
        return;
    }
    let w = T::from_u64(n);
    if w.is_prime() {
        arr.push(w);
        proof {
            let added = arr@.subrange(before.len() as int, arr@.len() as int);
            assert(added =~= seq![w]);
            assert(arr@.subrange(0, before.len() as int) =~= before);
            assert(added.drop_last() =~= Seq::<T>::empty());
            assert(product(added.drop_last()) == 1);
            assert(added.len() == 1 && added.last() == w);
            assert(product(added) == product(added.drop_last()) * w.value());
            assert(product(added) == n);
            lemma_mod_self_0(n as int);
        }
        return;
    }
    let mut i: u64 = 0;
    let x0 = rng.next_u64();
    proof {
        lemma_advanced_step(r0, r0);
    }
    let mut x: u64 = x0 % n;
    let mut y: u64 = x;
    let mut k: u64 = 2;
    let mut d: u64 = 1;
    let mut reset_limit: u64 = 100000;
    loop
        invariant_except_break
            i < reset_limit,
        invariant
            2 <= n,
            x < n,
            y < n,
            100000 <= reset_limit,
            advanced(r0, rng@),
        ensures
            1 < d <= n,
            n % d == 0,
            advanced(r0, rng@),
        decreases u64::MAX - reset_limit, reset_limit - i,
    {
        i += 1;
        assert((x as u128) * (x as u128) <= 0xffff_ffff_ffff_ffffu128 * 0xffff_ffff_ffff_ffffu128)
            by (nonlinear_arith)
            requires
                x <= 0xffff_ffff_ffff_ffffu64,
        ;
        x = (((x as u128 * x as u128 % n as u128) + (n - 1) as u128) % n as u128) as u64;
        let diff = if y > x {
            y - x
        } else {
            x - y
        };
        d = gcd(diff, n);
        proof {
            lemma_gcd_pos(diff as nat, n as nat);
            lemma_gcd_divides(diff as nat, n as nat);
            lemma_divisor_le(d as int, n as int);
        }
        if d == n || i >= reset_limit {
            // reset
            if reset_limit > u64::MAX / 3 {
                d = n;
                proof {
                    lemma_mod_self_0(n as int);
                }
                break;
            }
            reset_limit = reset_limit * 3 / 2;
            i = 0;
            proof {
                lemma_advanced_step(r0, rng@);
            }
            x = rng.next_u64() % n;
            y = x;
        }
        if d != 1 {
            break;
        }
        if i == k {
            y = x;
            k <<= 1;
        }
    }
    if d != n {
        proof {
            lemma_div_decreases(n as int, d as int);
        }
        let ghost r1 = rng@;
        rho_core(d, arr, rng);
        let ghost mid = arr@;
        let ghost r2 = rng@;
        rho_core(n / d, arr, rng);
        proof {
            lemma_rho_combine::<T>(n as nat, d as nat, before, mid, arr@);
            lemma_advanced_trans(r0, r1, r2);
            lemma_advanced_trans(r0, r2, rng@);
        }
        return;
    }
    let mut i: u64 = 3;
    while i <= n / i
        invariant
            2 <= n,
            d == n,
            n <= T::max_value(),
            3 <= i,
            i % 2 == 1,
            arr@ == before,
            old(arr)@ == before,
            r0 == old(rng)@,
            advanced(r0, rng@),
            !prime_test::<T>(n as nat),
            forall|j: nat| 3 <= j < i && j % 2 == 1 ==> #[trigger] ((n as nat) % j) != 0,
        decreases n - i,
    {
        proof {
            lemma_fundamental_div_mod(n as int, i as int);
            assert(i * i <= n) by (nonlinear_arith)
                requires
                    i <= n / i,
                    n == i * (n / i) + n % i,
                    n % i >= 0,
                    i >= 3,
            ;
            assert(i + 2 < n) by (nonlinear_arith)
                requires
                    i * i <= n,
                    i >= 3,
            ;
        }
        if n % i == 0 {
            proof {
                assert(i < n);
            }
            proof {
                lemma_div_decreases(n as int, i as int);
            }
            let ghost r1 = rng@;
            rho_core(i, arr, rng);
            let ghost mid = arr@;
            let ghost r2 = rng@;
            rho_core(d / i, arr, rng);
            proof {
                lemma_rho_combine::<T>(n as nat, i as nat, before, mid, arr@);
                lemma_advanced_trans(r0, r1, r2);
                lemma_advanced_trans(r0, r2, rng@);
            }
            return;
        }
        i += 2;
    }
    proof {
        let added = arr@.subrange(before.len() as int, arr@.len() as int);
        assert(added =~= Seq::<T>::empty());
        assert(arr@.subrange(0, before.len() as int) =~= before);
        if n % 2 == 1 && test_complete_for::<T>(n as nat) {
            lemma_fundamental_div_mod(n as int, i as int);
            lemma_mod_bound(n as int, i as int);
            assert forall|j: nat| 3 <= j && j % 2 == 1 && j * j <= n implies #[trigger] ((n as nat) % j)
                != 0 by {
                assert(j < i) by (nonlinear_arith)
                    requires
                        n / i < i,
                        n == i * (n / i) + n % i,
                        n % i < i,
                        j * j <= n,
                        i >= 3,
                        j >= 3,
                ;
            }
            lemma_odd_trial_prime(n as nat);
            lemma_mod_self_0(n as int);
            assert((n as nat) % (n as nat) == 0);
        }
    }
}

/// What `factorize` returns for `n`: words that pass `is_prime`, the factors
/// 2 of `n` first and only odd words after them, with a product that divides
/// `n`, and equals `n` when `is_prime` accepts every prime factor of `n`;
/// nothing for `n <= 1`.
pub open spec fn is_factorization<T: MillerRabin>(n: nat, f: Seq<T>) -> bool {
    &&& all_pass(f)
    &&& n <= 1 ==> f.len() == 0
    &&& n >= 1 ==> n % product(f) == 0
    &&& (n >= 1 && test_complete_for::<T>(n)) ==> product(f) == n
    &&& n >= 1 ==> two_adic(n) <= f.len()
    &&& n >= 1 ==> forall|i: int| 0 <= i < two_adic(n) ==> #[trigger] f[i].value() == 2
    &&& n >= 1 ==> forall|i: int| two_adic(n) <= i < f.len() ==> #[trigger] f[i].value() % 2 == 1
}

/// Every word that `factorize` returns on `u64` is prime when at most 300000,
/// and above that a strong probable prime to all seven bases of `is_prime`.
pub proof fn lemma_factorize_u64_elements(n: nat, f: Seq<u64>)
    requires
        is_factorization::<u64>(n, f),
    ensures
        forall|i: int|
            0 <= i < f.len() ==> {
                let v = #[trigger] f[i] as nat;
                &&& v >= 2
                &&& v <= 300000 ==> prime(v)
                &&& v > 300000 ==> {
                    &&& strong_probable_prime(v, 2)
                    &&& strong_probable_prime(v, 325)
                    &&& strong_probable_prime(v, 9375)
                    &&& strong_probable_prime(v, 28178)
                    &&& strong_probable_prime(v, 450775)
                    &&& strong_probable_prime(v, 9780504)
                    &&& strong_probable_prime(v, 1795265022)
                }
            },
{
    assert forall|i: int| 0 <= i < f.len() implies {
        let v = #[trigger] f[i] as nat;
        &&& v >= 2
        &&& v <= 300000 ==> prime(v)
        &&& v > 300000 ==> {
            &&& strong_probable_prime(v, 2)
            &&& strong_probable_prime(v, 325)
            &&& strong_probable_prime(v, 9375)
            &&& strong_probable_prime(v, 28178)
            &&& strong_probable_prime(v, 450775)
            &&& strong_probable_prime(v, 9780504)
            &&& strong_probable_prime(v, 1795265022)
        }
    } by {
        assert(prime_test::<u64>(f[i].value()));
        lemma_u64_is_prime_bases(f[i] as nat);
    }
}

/// Every word that `factorize` returns on `u32` is prime when at most 7000,
/// and above that a strong probable prime to the bases 2, 7 and 61.
pub proof fn lemma_factorize_u32_elements(n: nat, f: Seq<u32>)
    requires
        is_factorization::<u32>(n, f),
    ensures
        forall|i: int|
            0 <= i < f.len() ==> {
                let v = #[trigger] f[i] as nat;
                &&& v >= 2
                &&& v <= 7000 ==> prime(v)
                &&& v > 7000 ==> strong_probable_prime(v, 2) && strong_probable_prime(v, 7)
                    && strong_probable_prime(v, 61)
            },
{
    assert forall|i: int| 0 <= i < f.len() implies {
        let v = #[trigger] f[i] as nat;
        &&& v >= 2
        &&& v <= 7000 ==> prime(v)
        &&& v > 7000 ==> strong_probable_prime(v, 2) && strong_probable_prime(v, 7)
            && strong_probable_prime(v, 61)
    } by {
        assert(prime_test::<u32>(f[i].value()));
        lemma_u32_is_prime_bases(f[i] as nat);
    }
}

/// The prime factors of a divisor of `n` are prime factors of `n`.
proof fn lemma_complete_any_divisor<T: MillerRabin>(n: nat, d: nat)
    requires
        d > 0,
        n > 0,
        n % d == 0,
        test_complete_for::<T>(n),
    ensures
        test_complete_for::<T>(d),
{
    assert forall|p: nat| prime(p) && #[trigger] (d % p) == 0 implies prime_test::<T>(p) by {
        lemma_dvd_trans(p as int, d as int, n as int);
        assert(n % p == 0);
    }
}

/// The factors of `n`: its factors 2, then those that [`rho_core`] finds in
/// the odd part.
pub fn factorize_core<T: MillerRabin>(n: u64, rng: &mut RNG) -> (r: Vec<T>)
    requires
        n <= T::max_value(),
    ensures
        is_factorization::<T>(n as nat, r@),
        advanced(old(rng)@, final(rng)@),
        (n <= 1 || odd_part(n as nat) == 1 || prime_test::<T>(odd_part(n as nat))) ==> final(rng)@
            == old(rng)@,
{
    let mut arr: Vec<T> = Vec::new();
    if n <= 1 {
        proof {
            lemma_advanced_refl(rng@);
        }
        return arr;
    }
    let mut m = n;
    proof {
        T::lemma_threshold();
        lemma_pow2(0);
        reveal(pow);
        assert(prime(2));
    }
    while m & 1 == 0
        invariant
            T::threshold() >= 2,
            2 <= T::max_value(),
            1 <= m <= n,
            n == m * pow2(arr@.len()),
            product(arr@) == pow2(arr@.len()),
            forall|i: int| 0 <= i < arr@.len() ==> #[trigger] arr@[i].value() == 2,
            all_pass(arr@),
            two_adic(n as nat) == arr@.len() + two_adic(m as nat),
            odd_part(n as nat) == odd_part(m as nat),
        decreases m,
    {
        assert(m & 1 == m % 2) by (bit_vector);
        assert(m >> 1 == m / 2) by (bit_vector);
        let ghost old_arr = arr@;
        m >>= 1;
        arr.push(T::from_u64(2));
        proof {
            lemma_pow2_unfold(arr@.len());
            assert(arr@.drop_last() == old_arr);
            assert(product(arr@) == product(old_arr) * arr@.last().value());
            assert(product(arr@) == pow2(old_arr.len()) * 2);
            assert(n == m * pow2(arr@.len())) by (nonlinear_arith)
                requires
                    n == (2 * m) * pow2(old_arr.len()),
                    pow2(arr@.len()) == 2 * pow2(old_arr.len()),
            ;
            assert(prime(2));
        }
    }
    assert(m & 1 == m % 2) by (bit_vector);
    assert(odd_part(m as nat) == m);
    assert(two_adic(m as nat) == 0);
    let ghost twos = arr@;
    rho_core(m, &mut arr, rng);
    proof {
        let added = arr@.subrange(twos.len() as int, arr@.len() as int);
        assert(arr@ == twos + added);
        lemma_product_concat(twos, added);
        lemma_product_pos(added);
        lemma_pow2_pos(twos.len());
        assert(all_pass(arr@)) by {
            assert forall|i: int| 0 <= i < arr@.len() implies prime_test::<T>(#[trigger] arr@[i].value()) by {
                if i < twos.len() {
                    assert(arr@[i] == twos[i]);
                } else {
                    assert(arr@[i] == added[i - twos.len()]);
                }
            }
        }
        assert forall|i: int| 0 <= i < two_adic(n as nat) implies #[trigger] arr@[i].value() == 2 by {
            assert(arr@[i] == twos[i]);
        }
        assert forall|i: int| two_adic(n as nat) <= i < arr@.len() implies #[trigger] arr@[i].value() % 2
            == 1 by {
            assert(arr@[i] == added[i - twos.len()]);
        }
        let pa = product(added);
        lemma_fundamental_div_mod(m as int, pa as int);
        let u = (m as int) / (pa as int);
        assert(n == u * (pow2(twos.len()) * pa)) by (nonlinear_arith)
            requires
                n == m * pow2(twos.len()),
                m == pa * u + 0,
        ;
        assert(pow2(twos.len()) * pa > 0) by (nonlinear_arith)
            requires
                pow2(twos.len()) > 0,
                pa >= 1,
        ;
        lemma_mod_multiples_basic(u, (pow2(twos.len()) * pa) as int);
        if test_complete_for::<T>(n as nat) {
            lemma_fundamental_div_mod(n as int, m as int);
            assert(n == pow2(twos.len()) * m) by (nonlinear_arith)
                requires
                    n == m * pow2(twos.len()),
            ;
            lemma_mod_multiples_basic(pow2(twos.len()) as int, m as int);
            lemma_complete_any_divisor::<T>(n as nat, m as nat);
        }
    }
    arr
}

/// Factorisation by Pollard's rho method.
pub trait PollardRho: MillerRabin {
    /// Appends to `arr` the factors of `self` that Pollard's rho method finds.
    fn rho(self, arr: &mut Vec<Self>, rng: &mut RNG)
        ensures
            rho_appends::<Self>(self.value(), old(arr)@, final(arr)@),
            advanced(old(rng)@, final(rng)@),
            (self.value() <= 1 || prime_test::<Self>(self.value())) ==> final(rng)@ == old(rng)@,
    {
        rho_core(self.to_u64(), arr, rng)
    }

    /// The prime factors of `self`, the factors 2 first.
    fn factorize(self, rng: &mut RNG) -> (r: Vec<Self>)
        ensures
            is_factorization::<Self>(self.value(), r@),
            advanced(old(rng)@, final(rng)@),
            (self.value() <= 1 || odd_part(self.value()) == 1 || prime_test::<Self>(
                odd_part(self.value()),
            )) ==> final(rng)@ == old(rng)@,
    {
        factorize_core(self.to_u64(), rng)
    }
}

impl PollardRho for u8 {

}

impl PollardRho for u16 {

}

impl PollardRho for u32 {

}

impl PollardRho for u64 {

}

} // verus!
