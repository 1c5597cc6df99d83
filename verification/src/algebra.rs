//! Greatest common divisor, least common multiple, the extended Euclidean
//! algorithm and the Chinese remainder theorem.
use vstd::arithmetic::div_mod::*;
use vstd::arithmetic::mul::*;
use crate::prime::Word;
use vstd::prelude::*;

verus! {

/// Absolute value.
pub open spec fn abs(a: int) -> nat {
    if a < 0 {
        (-a) as nat
    } else {
        a as nat
    }
}

/// The value fits in an `i64`.
pub open spec fn in_i64(v: int) -> bool {
    i64::MIN <= v <= i64::MAX
}

/// Greatest common divisor of two naturals, by Euclid's algorithm.
pub open spec fn gcd_spec(a: nat, b: nat) -> nat
    decreases b,
{
    if b == 0 {
        a
    } else {
        gcd_spec(b, a % b)
    }
}

/// Quotient of Rust's `/` on signed integers: rounds toward zero.
pub open spec fn tdiv(a: int, b: int) -> int {
    if a >= 0 {
        a / b
    } else {
        -((-a) / b)
    }
}

/// Remainder of Rust's `%` on signed integers: takes the sign of the dividend.
pub open spec fn trem(a: int, b: int) -> int {
    if a >= 0 {
        a % b
    } else {
        -((-a) % b)
    }
}

/// If `d` divides `a` and `b`, it divides every combination `a * x + b * y`.
pub proof fn lemma_dvd_linear(d: int, a: int, b: int, x: int, y: int)
    requires
        d > 0,
        a % d == 0,
        b % d == 0,
    ensures
        (a * x + b * y) % d == 0,
{
    lemma_fundamental_div_mod(a, d);
    lemma_fundamental_div_mod(b, d);
    let qa = a / d;
    let qb = b / d;
    assert(a * x + b * y == (qa * x + qb * y) * d) by (nonlinear_arith)
        requires
            a == d * qa,
            b == d * qb,
    ;
    lemma_mod_multiples_basic(qa * x + qb * y, d);
}

/// Divisibility is transitive.
pub proof fn lemma_dvd_trans(d: int, a: int, b: int)
    requires
        d > 0,
        a > 0,
        a % d == 0,
        b % a == 0,
    ensures
        b % d == 0,
{
    lemma_fundamental_div_mod(b, a);
    lemma_dvd_linear(d, a, 0, b / a, 0);
    assert(a * (b / a) + 0 * 0 == b);
}

/// Facts on Rust's signed quotient and remainder.
pub proof fn lemma_tdiv_trem(a: int, b: int)
    requires
        b != 0,
    ensures
        a == tdiv(a, b) * b + trem(a, b),
        abs(trem(a, b)) == abs(a) % abs(b),
        abs(trem(a, b)) < abs(b),
        abs(tdiv(a, b) * b) <= abs(a),
        a >= 0 ==> trem(a, b) >= 0,
        a < 0 ==> trem(a, b) <= 0,
        a >= 0 && b > 0 ==> tdiv(a, b) == a / b && trem(a, b) == a % b,
{
    let m = abs(b) as int;
    let x = abs(a) as int;
    let q = x / m;
    let r = x % m;
    lemma_fundamental_div_mod(x, m);
    lemma_mod_bound(x, m);
    assert(x == q * m + r) by (nonlinear_arith)
        requires
            x == m * (x / m) + x % m,
            q == x / m,
            r == x % m,
    ;
    if b < 0 {
        lemma_fundamental_div_mod(x, b);
        assert(0 <= x % b < m);
        assert(x == (-(x / b)) * m + x % b) by (nonlinear_arith)
            requires
                x == b * (x / b) + x % b,
                m == -b,
        ;
        lemma_fundamental_div_mod_converse(x, m, -(x / b), x % b);
    }
    // in every case the Euclidean parts of |a| by b are (sign(b) q, r)
    let qs = if b > 0 { q } else { -q };
    assert(x / b == qs && x % b == r);
    assert(x == qs * b + r) by (nonlinear_arith)
        requires
            x == q * m + r,
            m == abs(b),
            qs == (if b > 0 { q } else { -q }),
    ;
    if a >= 0 {
        assert(tdiv(a, b) == qs && trem(a, b) == r);
    } else {
        assert(tdiv(a, b) == -qs && trem(a, b) == -r);
        assert(a == (-qs) * b + (-r)) by (nonlinear_arith)
            requires
                x == qs * b + r,
                x == -a,
        ;
    }
    assert(abs(tdiv(a, b) * b) <= abs(a)) by (nonlinear_arith)
        requires
            a == tdiv(a, b) * b + trem(a, b),
            abs(trem(a, b)) < abs(b),
            a >= 0 ==> trem(a, b) >= 0,
            a < 0 ==> trem(a, b) <= 0,
            b != 0,
    ;
}

/// Rust's signed quotient of two `i64` fits in an `i64`, except `MIN / -1`.
pub proof fn lemma_tdiv_in_range(a: int, b: int)
    requires
        in_i64(a),
        in_i64(b),
        b != 0,
        !(a == i64::MIN && b == -1),
    ensures
        in_i64(tdiv(a, b)),
        in_i64(trem(a, b)),
        in_i64(tdiv(a, b) * b),
{
    lemma_tdiv_trem(a, b);
    let q = tdiv(a, b);
    assert(abs(q) <= abs(q * b)) by (nonlinear_arith)
        requires
            b != 0,
    ;
    if q == 0x8000_0000_0000_0000 {
        assert(abs(b) == 1) by (nonlinear_arith)
            requires
                abs(q * b) <= abs(a),
                abs(a) <= 0x8000_0000_0000_0000,
                q == 0x8000_0000_0000_0000,
                b != 0,
        ;
        assert(q * b == -q || q * b == q) by (nonlinear_arith)
            requires
                abs(b) == 1,
        ;
    }
}

/// Dividing an exact multiple gives the factor back.
pub proof fn lemma_tdiv_exact(k: int, b: int)
    requires
        b != 0,
    ensures
        tdiv(k * b, b) == k,
{
    lemma_tdiv_trem(k * b, b);
    let q = tdiv(k * b, b);
    let r = trem(k * b, b);
    assert((k - q) * b == r) by (nonlinear_arith)
        requires
            k * b == q * b + r,
    ;
    if k != q {
        assert(abs((k - q) * b) >= abs(b)) by (nonlinear_arith)
            requires
                k - q != 0,
                b != 0,
        ;
    }
}

/// `gcd_spec(a, b)` divides `a` and `b`.
pub proof fn lemma_gcd_divides(a: nat, b: nat)
    requires
        gcd_spec(a, b) > 0,
    ensures
        a % gcd_spec(a, b) == 0,
        b % gcd_spec(a, b) == 0,
    decreases b,
{
    let g = gcd_spec(a, b) as int;
    if b == 0 {
        lemma_mod_self_0(g);
    } else {
        lemma_gcd_divides(b, a % b);
        lemma_fundamental_div_mod(a as int, b as int);
        lemma_dvd_linear(g, b as int, (a % b) as int, (a / b) as int, 1);
        assert(b * (a / b) + (a % b) * 1 == a);
    }
}

/// Every common divisor of `a` and `b` divides `gcd_spec(a, b)`.
pub proof fn lemma_gcd_greatest(a: nat, b: nat, c: int)
    requires
        c > 0,
        (a as int) % c == 0,
        (b as int) % c == 0,
    ensures
        (gcd_spec(a, b) as int) % c == 0,
    decreases b,
{
    if b != 0 {
        let ai = a as int;
        let bi = b as int;
        let q = ai / bi;
        let r = ai % bi;
        lemma_fundamental_div_mod(ai, bi);
        lemma_dvd_linear(c, ai, bi, 1, -q);
        assert(ai * 1 + bi * (-q) == r) by (nonlinear_arith)
            requires
                ai == bi * q + r,
        ;
        lemma_gcd_greatest(b, a % b, c);
    }
}

/// The gcd is positive unless both arguments are zero.
pub proof fn lemma_gcd_pos(a: nat, b: nat)
    ensures
        gcd_spec(a, b) > 0 <==> (a > 0 || b > 0),
        gcd_spec(a, b) <= a || b > 0,
    decreases b,
{
    if b != 0 {
        lemma_gcd_pos(b, a % b);
    }
}

/// Euclid's step on absolute values with Rust's signed remainder.
pub proof fn lemma_gcd_trem_step(x: int, y: int)
    requires
        y != 0,
    ensures
        gcd_spec(abs(x), abs(y)) == gcd_spec(abs(y), abs(trem(x, y))),
{
    lemma_tdiv_trem(x, y);
}

/// The remainder loop of the extended Euclidean algorithm, started from the
/// pairs `(og, os)` and `(g, s)`: returns the last nonzero remainder and its
/// coefficient.
pub open spec fn egcd_loop(og: int, g: int, os: int, s: int) -> (int, int)
    decreases abs(g),
{
    if g == 0 {
        (og, os)
    } else {
        proof {
            lemma_tdiv_trem(og, g);
        }
        egcd_loop(g, trem(og, g), s, os - tdiv(og, g) * s)
    }
}

/// No step of the remainder loop leaves the range of `i64`.
pub open spec fn egcd_loop_fits(og: int, g: int, os: int, s: int) -> bool
    decreases abs(g),
{
    if g == 0 {
        true
    } else {
        proof {
            lemma_tdiv_trem(og, g);
        }
        let q = tdiv(og, g);
        &&& !(og == i64::MIN && g == -1)
        &&& in_i64(q * s)
        &&& in_i64(os - q * s)
        &&& egcd_loop_fits(g, trem(og, g), s, os - q * s)
    }
}

/// The last nonzero remainder of Euclid's algorithm on `a` and `b` with its
/// coefficients `(g, s, t)`, `a * s + b * t == g`, before the sign of `g` is
/// made nonnegative.
pub open spec fn egcd_raw(a: int, b: int) -> (int, int, int) {
    let (g, s) = egcd_loop(a, b, 1, 0);
    (g, s, if b != 0 { tdiv(g - s * a, b) } else { 0 })
}

/// What `ext_gcd(a, b)` returns: the triple of `egcd_raw`, negated when its
/// `g` is negative, so that `g` is the gcd.
pub open spec fn ext_gcd_spec(a: int, b: int) -> (int, int, int) {
    let (g, s, t) = egcd_raw(a, b);
    if g < 0 {
        (-g, -s, -t)
    } else {
        (g, s, t)
    }
}

/// `ext_gcd(a, b)` computes every intermediate value within `i64`.
pub open spec fn ext_gcd_fits(a: int, b: int) -> bool {
    let (g, s, t) = egcd_raw(a, b);
    &&& egcd_loop_fits(a, b, 1, 0)
    &&& b != 0 ==> {
        &&& in_i64(s * a)
        &&& in_i64(g - s * a)
        &&& !(g - s * a == i64::MIN && b == -1)
    }
    &&& g < 0 ==> in_i64(-g) && in_i64(-s) && in_i64(-t)
}

/// One step of the remainder loop keeps Bezout's identity.
proof fn lemma_bezout_step(a: int, b: int, og: int, g: int, os: int, s: int, ot: int, t: int, q: int, r: int)
    requires
        og == os * a + ot * b,
        g == s * a + t * b,
        og == q * g + r,
    ensures
        r == (os - q * s) * a + (ot - q * t) * b,
{
    assert(q * g == q * s * a + q * t * b) by (nonlinear_arith)
        requires
            g == s * a + t * b,
    ;
    assert((os - q * s) * a + (ot - q * t) * b == (os * a + ot * b) - (q * s * a + q * t * b))
        by (nonlinear_arith);
}

/// The remainder loop keeps Bezout's identity and the gcd: returns the
/// coefficient of `b` for the final remainder.
pub proof fn lemma_egcd_loop(a: int, b: int, og: int, g: int, os: int, s: int, ot: int, t: int) -> (rt: int)
    requires
        og == os * a + ot * b,
        g == s * a + t * b,
    ensures
        egcd_loop(og, g, os, s).0 == egcd_loop(og, g, os, s).1 * a + rt * b,
        abs(egcd_loop(og, g, os, s).0) == gcd_spec(abs(og), abs(g)),
        og >= 0 && g >= 0 ==> egcd_loop(og, g, os, s).0 >= 0,
    decreases abs(g),
{
    if g == 0 {
        ot
    } else {
        lemma_tdiv_trem(og, g);
        lemma_gcd_trem_step(og, g);
        let q = tdiv(og, g);
        let ns = os - q * s;
        let nt = ot - q * t;
        lemma_bezout_step(a, b, og, g, os, s, ot, t, q, trem(og, g));
        lemma_egcd_loop(a, b, g, trem(og, g), s, ns, t, nt)
    }
}

/// Bezout's identity and the gcd for the result of `ext_gcd_spec`.
pub proof fn lemma_ext_gcd_spec(a: int, b: int)
    ensures
        a * ext_gcd_spec(a, b).1 + b * ext_gcd_spec(a, b).2 == ext_gcd_spec(a, b).0,
        ext_gcd_spec(a, b).0 == gcd_spec(abs(a), abs(b)),
        a * egcd_raw(a, b).1 + b * egcd_raw(a, b).2 == egcd_raw(a, b).0,
        abs(egcd_raw(a, b).0) == gcd_spec(abs(a), abs(b)),
        a >= 0 && b >= 0 ==> egcd_raw(a, b).0 >= 0,
{
    let rt = lemma_egcd_loop(a, b, a, b, 1, 0, 0, 1);
    let (g, s) = egcd_loop(a, b, 1, 0);
    let t = egcd_raw(a, b).2;
    if b != 0 {
        assert(g - s * a == rt * b);
        lemma_tdiv_exact(rt, b);
    }
    assert(a * s + b * t == g) by (nonlinear_arith)
        requires
            g == s * a + rt * b,
            b != 0 ==> t == rt,
            b == 0 ==> t == 0,
    ;
    if g < 0 {
        assert(a * (-s) + b * (-t) == -g) by (nonlinear_arith)
            requires
                a * s + b * t == g,
        ;
    }
}

/// On nonnegative inputs the remainder loop stays within `i64`: the
/// coefficients keep `|os| * g + |s| * og == b` with opposite signs, so each
/// is at most `b`; at the end the coefficient of the gcd `G` has
/// `|S| * G <= b`.
proof fn lemma_egcd_fits_nonneg(a: int, b: int, og: int, g: int, os: int, s: int)
    requires
        0 < b <= i64::MAX,
        0 <= og,
        0 <= g,
        abs(os) * g + abs(s) * og == b,
        os * s <= 0,
        (os == 1 && s == 0 && g == b) || (g < og && abs(os) * og <= b),
    ensures
        egcd_loop_fits(og, g, os, s),
        egcd_loop(og, g, os, s).0 >= 1,
        abs(egcd_loop(og, g, os, s).1) * egcd_loop(og, g, os, s).0 <= b,
    decreases g,
{
    if g == 0 {
        assert(og >= 1);
    } else {
        lemma_tdiv_trem(og, g);
        let q = tdiv(og, g);
        let r = trem(og, g);
        assert(q >= 0 && 0 <= r < g);
        let s2 = os - q * s;
        // |s2| == |os| + q |s|, and s * s2 <= 0
        assert(abs(s2) == abs(os) + q * abs(s) && s * s2 <= 0) by (nonlinear_arith)
            requires
                s2 == os - q * s,
                os * s <= 0,
                q >= 0,
        ;
        assert(abs(s) * r + abs(s2) * g == b) by (nonlinear_arith)
            requires
                abs(os) * g + abs(s) * og == b,
                abs(s2) == abs(os) + q * abs(s),
                og == q * g + r,
        ;
        assert(abs(s) * g <= b) by (nonlinear_arith)
            requires
                abs(os) * g + abs(s) * og == b,
                (os == 1 && s == 0 && g == b) || (g < og),
                g >= 1,
        ;
        assert(abs(s2) <= b && q * abs(s) <= abs(s2)) by (nonlinear_arith)
            requires
                abs(s) * r + abs(s2) * g == b,
                abs(s2) == abs(os) + q * abs(s),
                g >= 1,
                r >= 0,
                q >= 0,
        ;
        assert(abs(q * s) == q * abs(s)) by (nonlinear_arith)
            requires
                q >= 0,
        ;
        lemma_egcd_fits_nonneg(a, b, g, r, s, s2);
    }
}

/// `ext_gcd(a, b)` computes within `i64` for nonnegative `a` and `b` with
/// `(a + 1) * b <= i64::MAX`: a simple bound under which `ext_gcd_fits` holds.
pub proof fn lemma_ext_gcd_fits_nonneg(a: int, b: int)
    requires
        0 <= a <= i64::MAX,
        0 <= b,
        (a + 1) * b <= i64::MAX,
    ensures
        ext_gcd_fits(a, b),
        b > 0 ==> abs(ext_gcd_spec(a, b).1) * ext_gcd_spec(a, b).0 <= b,
{
    lemma_ext_gcd_spec(a, b);
    if b > 0 {
        assert(b <= i64::MAX) by (nonlinear_arith)
            requires
                (a + 1) * b <= i64::MAX,
                a >= 0,
                b > 0,
        ;
        assert(abs(1) * b + abs(0) * a == b) by (nonlinear_arith)
            requires
                abs(1) == 1,
                abs(0) == 0,
        ;
        lemma_egcd_fits_nonneg(a, b, a, b, 1, 0);
        let (g, s) = egcd_loop(a, b, 1, 0);
        assert(abs(s) <= b) by (nonlinear_arith)
            requires
                abs(s) * g <= b,
                g >= 1,
        ;
        assert(abs(s * a) <= a * b) by (nonlinear_arith)
            requires
                abs(s) <= b,
                a >= 0,
        ;
        lemma_gcd_pos(abs(a), abs(b));
        lemma_gcd_divides(abs(a), abs(b));
        lemma_divisor_le(g, b);
        assert(a * b + b <= i64::MAX) by (nonlinear_arith)
            requires
                (a + 1) * b <= i64::MAX,
        ;
    }
}

/// `|x * y| == |x| * |y|`.
pub proof fn lemma_abs_mul(x: int, y: int)
    ensures
        abs(x * y) == abs(x) * abs(y),
{
    if x >= 0 && y >= 0 {
        assert(x * y >= 0) by (nonlinear_arith)
            requires
                x >= 0,
                y >= 0,
        ;
    } else if x >= 0 && y < 0 {
        assert(x * y == -(x * (-y)) && x * (-y) >= 0) by (nonlinear_arith)
            requires
                x >= 0,
                y < 0,
        ;
    } else if x < 0 && y >= 0 {
        assert(x * y == -((-x) * y) && (-x) * y >= 0) by (nonlinear_arith)
            requires
                x < 0,
                y >= 0,
        ;
    } else {
        assert(x * y == (-x) * (-y) && (-x) * (-y) > 0) by (nonlinear_arith)
            requires
                x < 0,
                y < 0,
        ;
    }
}

/// The sign pattern of consecutive coefficients in the remainder loop:
/// `x` and `y` have opposite signs when `og` and `g` have the same sign, and
/// the same sign otherwise.
pub open spec fn coeff_signs(x: int, y: int, og: int, g: int) -> bool {
    if (og < 0) == (g < 0) {
        x * y <= 0
    } else {
        x * y >= 0
    }
}

/// One step of the remainder loop on the coefficients: with the sign pattern,
/// the new coefficient's magnitude is the old one plus `|q|` times the other,
/// and the pattern carries over to the next pair of remainders.
proof fn lemma_coeff_step(os: int, s: int, og: int, g: int)
    requires
        g != 0,
        coeff_signs(os, s, og, g),
    ensures
        ({
            let q = tdiv(og, g);
            let r = trem(og, g);
            &&& abs(os - q * s) == abs(os) + abs(q) * abs(s)
            &&& abs(q * s) == abs(q) * abs(s)
            &&& abs(og) == abs(q) * abs(g) + abs(r)
            &&& r != 0 ==> coeff_signs(s, os - q * s, g, r)
        }),
{
    lemma_tdiv_trem(og, g);
    let q = tdiv(og, g);
    let r = trem(og, g);
    lemma_abs_mul(q, s);
    lemma_abs_mul(q, g);
    let same = (og < 0) == (g < 0);
    lemma_mod_decreases(abs(og), abs(g));
    assert(abs(r) <= abs(og));
    // the sign of q, and |og| == |q g| + |r|
    if og >= 0 && g > 0 {
        assert(q >= 0) by (nonlinear_arith)
            requires
                og == q * g + r,
                0 <= r < g,
                og >= 0,
        ;
        assert(q * g >= 0) by (nonlinear_arith)
            requires
                q >= 0,
                g > 0,
        ;
    } else if og >= 0 && g < 0 {
        assert(q <= 0) by (nonlinear_arith)
            requires
                og == q * g + r,
                0 <= r < -g,
                og >= 0,
        ;
        assert(q * g >= 0) by (nonlinear_arith)
            requires
                q <= 0,
                g < 0,
        ;
    } else if og < 0 && g > 0 {
        assert(q <= 0) by (nonlinear_arith)
            requires
                og == q * g + r,
                og <= r <= 0,
                g > 0,
        ;
        assert(q * g <= 0) by (nonlinear_arith)
            requires
                q <= 0,
                g > 0,
        ;
    } else {
        assert(q >= 0) by (nonlinear_arith)
            requires
                og == q * g + r,
                og <= r <= 0,
                g < 0,
        ;
        assert(q * g <= 0) by (nonlinear_arith)
            requires
                q >= 0,
                g < 0,
        ;
    }
    assert(same ==> q >= 0);
    assert(!same ==> q <= 0);
    let s2 = os - q * s;
    if same {
        assert(abs(s2) == abs(os) + abs(q * s)) by (nonlinear_arith)
            requires
                s2 == os - q * s,
                os * s <= 0,
                q >= 0,
                abs(q * s) == abs(q) * abs(s),
        ;
        assert(s * s2 <= 0) by (nonlinear_arith)
            requires
                s2 == os - q * s,
                os * s <= 0,
                q >= 0,
        ;
    } else {
        assert(abs(s2) == abs(os) + abs(q * s)) by (nonlinear_arith)
            requires
                s2 == os - q * s,
                os * s >= 0,
                q <= 0,
                abs(q * s) == abs(q) * abs(s),
        ;
        assert(s * s2 >= 0) by (nonlinear_arith)
            requires
                s2 == os - q * s,
                os * s >= 0,
                q <= 0,
        ;
    }
    // |og| == |q g| + |r|, as q g and r have the sign of og
    assert(abs(og) == abs(q * g) + abs(r));
    if r != 0 {
        assert((r < 0) == (og < 0));
    }
}

/// The remainder loop of `ext_gcd(a, b)` stays within `i64` for `a` and `b`
/// other than `i64::MIN`, `b != 0`: both coefficient sequences keep
/// `|os| * |g| + |s| * |og| == |b|` and `|ot| * |g| + |t| * |og| == |a|`.
/// At the end `|S| * |G| <= |b|`, and `|G - S * a| <= |a| * |b|` when `a != 0`.
proof fn lemma_egcd_bounds(
    a: int,
    b: int,
    og: int,
    g: int,
    os: int,
    s: int,
    ot: int,
    t: int,
)
    requires
        b != 0,
        i64::MIN < a <= i64::MAX,
        i64::MIN < b <= i64::MAX,
        i64::MIN < og <= i64::MAX,
        i64::MIN < g <= i64::MAX,
        og == os * a + ot * b,
        g == s * a + t * b,
        abs(os) * abs(g) + abs(s) * abs(og) == abs(b),
        abs(ot) * abs(g) + abs(t) * abs(og) == abs(a),
        g != 0 ==> coeff_signs(os, s, og, g),
        g != 0 ==> coeff_signs(ot, t, og, g),
        (os == 1 && s == 0 && ot == 0 && t == 1 && og == a && g == b) || (abs(g) < abs(og) && abs(os)
            * abs(og) <= abs(b) && (ot == 1 && og == b || abs(ot) * abs(og) <= abs(a))),
    ensures
        egcd_loop_fits(og, g, os, s),
        egcd_loop(og, g, os, s).0 != 0,
        abs(egcd_loop(og, g, os, s).1) * abs(egcd_loop(og, g, os, s).0) <= abs(b),
        a != 0 ==> abs(egcd_loop(og, g, os, s).0 - egcd_loop(og, g, os, s).1 * a) <= abs(a) * abs(b),
    decreases abs(g),
{
    if g == 0 {
        assert(og != 0);
        assert(og - os * a == ot * b);
        lemma_abs_mul(ot, b);
        if a != 0 {
            if ot == 1 && og == b {
                assert(abs(ot) * abs(b) <= abs(a) * abs(b)) by (nonlinear_arith)
                    requires
                        abs(ot) == 1,
                        abs(a) >= 1,
                ;
            } else {
                assert(abs(ot) * abs(b) <= abs(a) * abs(b)) by (nonlinear_arith)
                    requires
                        abs(ot) * abs(og) <= abs(a),
                        abs(og) >= 1,
                ;
            }
        }
    } else {
        lemma_tdiv_trem(og, g);
        lemma_coeff_step(os, s, og, g);
        lemma_coeff_step(ot, t, og, g);
        let q = tdiv(og, g);
        let r = trem(og, g);
        let s2 = os - q * s;
        let t2 = ot - q * t;
        assert(r == s2 * a + t2 * b) by (nonlinear_arith)
            requires
                og == os * a + ot * b,
                g == s * a + t * b,
                r == og - q * g,
                s2 == os - q * s,
                t2 == ot - q * t,
        ;
        assert(r == og - q * g);
        assert(abs(s) * abs(r) + abs(s2) * abs(g) == abs(b)) by (nonlinear_arith)
            requires
                abs(os) * abs(g) + abs(s) * abs(og) == abs(b),
                abs(s2) == abs(os) + abs(q) * abs(s),
                abs(og) == abs(q) * abs(g) + abs(r),
        ;
        assert(abs(t) * abs(r) + abs(t2) * abs(g) == abs(a)) by (nonlinear_arith)
            requires
                abs(ot) * abs(g) + abs(t) * abs(og) == abs(a),
                abs(t2) == abs(ot) + abs(q) * abs(t),
                abs(og) == abs(q) * abs(g) + abs(r),
        ;
        assert(abs(s) * abs(g) <= abs(b)) by (nonlinear_arith)
            requires
                abs(os) * abs(g) + abs(s) * abs(og) == abs(b),
                (s == 0) || (abs(g) < abs(og)),
        ;
        assert(abs(s2) <= abs(b) && abs(q) * abs(s) <= abs(s2)) by (nonlinear_arith)
            requires
                abs(s) * abs(r) + abs(s2) * abs(g) == abs(b),
                abs(s2) == abs(os) + abs(q) * abs(s),
                abs(g) >= 1,
        ;
        // the t clause of the next state
        if !(os == 1 && s == 0 && ot == 0 && t == 1 && og == a && g == b) {
            assert(abs(t) * abs(g) <= abs(a)) by (nonlinear_arith)
                requires
                    abs(ot) * abs(g) + abs(t) * abs(og) == abs(a),
                    abs(g) < abs(og),
            ;
        }
        assert(!(og == i64::MIN && g == -1));
        lemma_egcd_bounds(a, b, g, r, s, s2, t, t2);
    }
}

/// `ext_gcd(a, b)` computes within `i64` when neither argument is `i64::MIN`
/// and `|a| * |b| <= i64::MAX`: a simple bound under which `ext_gcd_fits`
/// holds, for inputs of any sign.
pub proof fn lemma_ext_gcd_fits(a: int, b: int)
    requires
        i64::MIN < a <= i64::MAX,
        i64::MIN < b <= i64::MAX,
        abs(a) * abs(b) <= i64::MAX,
    ensures
        ext_gcd_fits(a, b),
{
    lemma_ext_gcd_spec(a, b);
    lemma_ext_gcd_bounds(a, b);
    let (g, s, t) = egcd_raw(a, b);
    if b == 0 {
        assert(g == a && s == 1 && t == 0);
    } else {
        lemma_gcd_pos(abs(a), abs(b));
        lemma_gcd_divides(abs(a), abs(b));
        lemma_divisor_le(gcd_spec(abs(a), abs(b)) as int, abs(b) as int);
        assert(abs(g) <= abs(b));
        lemma_abs_mul(s, a);
        assert(abs(s) <= abs(b)) by (nonlinear_arith)
            requires
                abs(s) * abs(g) <= abs(b),
                abs(g) >= 1,
        ;
        assert(abs(s * a) <= abs(a) * abs(b)) by (nonlinear_arith)
            requires
                abs(s * a) == abs(s) * abs(a),
                abs(s) <= abs(b),
        ;
        assert(g - s * a == t * b) by (nonlinear_arith)
            requires
                a * s + b * t == g,
        ;
        lemma_abs_mul(t, b);
        if a == 0 {
            assert(g - s * a == g);
            assert(abs(a) == 0);
            assert(0nat % abs(b) == 0);
            assert(gcd_spec(0, abs(b)) == gcd_spec(abs(b), 0));
            assert(abs(g) == abs(b));
            assert(abs(t) * abs(b) == abs(g));
            assert(abs(t) == 1) by (nonlinear_arith)
                requires
                    abs(t) * abs(b) == abs(g),
                    abs(g) == abs(b),
                    abs(b) >= 1,
            ;
        } else {
            assert(abs(t) * abs(b) <= abs(a) * abs(b)) by (nonlinear_arith)
                requires
                    abs(t) <= abs(a),
            ;
        }
    }
}

/// Bounds on what `ext_gcd(a, b)` returns for `b != 0` and arguments other
/// than `i64::MIN`: `|s| * g <= |b|`, and `|t| * |b| <= |a| * |b|` when
/// `a != 0` (so `|t| <= |a|`).
pub proof fn lemma_ext_gcd_bounds(a: int, b: int)
    requires
        i64::MIN < a <= i64::MAX,
        i64::MIN < b <= i64::MAX,
    ensures
        b != 0 ==> abs(egcd_raw(a, b).1) * abs(egcd_raw(a, b).0) <= abs(b),
        b != 0 ==> abs(ext_gcd_spec(a, b).1) * ext_gcd_spec(a, b).0 <= abs(b),
        b != 0 && a != 0 ==> abs(egcd_raw(a, b).2) <= abs(a),
        b != 0 && a != 0 ==> abs(ext_gcd_spec(a, b).2) <= abs(a),
        b != 0 ==> egcd_raw(a, b).0 != 0,
        egcd_loop_fits(a, b, 1, 0),
{
    lemma_ext_gcd_spec(a, b);
    if b != 0 {
        assert(abs(1) * abs(b) + abs(0) * abs(a) == abs(b)) by (nonlinear_arith)
            requires
                abs(1) == 1,
                abs(0) == 0,
        ;
        assert(abs(0) * abs(b) + abs(1) * abs(a) == abs(a)) by (nonlinear_arith)
            requires
                abs(1) == 1,
                abs(0) == 0,
        ;
        assert(a == 1 * a + 0 * b && b == 0 * a + 1 * b);
        lemma_egcd_bounds(a, b, a, b, 1, 0, 0, 1);
        let (g, s, t) = egcd_raw(a, b);
        if a != 0 {
            lemma_tdiv_exact(t, b);
            assert(g - s * a == t * b) by (nonlinear_arith)
                requires
                    a * s + b * t == g,
            ;
            lemma_abs_mul(t, b);
            assert(abs(t) <= abs(a)) by (nonlinear_arith)
                requires
                    abs(t) * abs(b) <= abs(a) * abs(b),
                    abs(b) >= 1,
            ;
        }
    }
}

/// Euclid's algorithm on `u64`.
fn gcd_u64(x: u64, y: u64) -> (r: u64)
    ensures
        r == gcd_spec(x as nat, y as nat),
    decreases y,
{
    if y == 0 {
        x
    } else {
        let v = x % y;
        gcd_u64(y, v)
    }
}

/// Returns gcd(x, y).
pub fn gcd<T: Word>(x: T, y: T) -> (r: T)
    ensures
        r.value() == gcd_spec(x.value(), y.value()),
{
    let xv = x.to_u64();
    let yv = y.to_u64();
    let g = gcd_u64(xv, yv);
    proof {
        lemma_gcd_pos(xv as nat, yv as nat);
        if g > 0 {
            if xv > 0 {
                lemma_gcd_divides(xv as nat, yv as nat);
                lemma_divisor_le(g as int, xv as int);
            } else {
                lemma_gcd_divides(xv as nat, yv as nat);
                lemma_divisor_le(g as int, yv as int);
            }
        }
    }
    T::from_u64(g)
}

/// `|v|`, as a `u64`.
fn abs_u64(v: i64) -> (r: u64)
    ensures
        r == abs(v as int),
{
    if v < 0 {
        (0i128 - v as i128) as u64
    } else {
        v as u64
    }
}

/// Returns gcd(x, y) of two `i64`: the gcd of `|x|` and `|y|`, which must fit
/// in an `i64` (it does unless both are 0 or `i64::MIN`, one of them
/// `i64::MIN`).
pub fn gcd_i64(x: i64, y: i64) -> (r: i64)
    requires
        gcd_spec(abs(x as int), abs(y as int)) <= i64::MAX,
    ensures
        r >= 0,
        r == gcd_spec(abs(x as int), abs(y as int)),
{
    let g = gcd_u64(abs_u64(x), abs_u64(y));
    g as i64
}

/// Returns lcm(x, y): `x / gcd(x, y) * y`, and 0 when both are 0.
pub fn lcm<T: Word>(x: T, y: T) -> (r: T)
    requires
        gcd_spec(x.value(), y.value()) > 0 ==> x.value() / gcd_spec(x.value(), y.value()) * y.value()
            <= T::max_value(),
    ensures
        r.value() == (if gcd_spec(x.value(), y.value()) == 0 {
            0
        } else {
            x.value() / gcd_spec(x.value(), y.value()) * y.value()
        }),
        r.value() * gcd_spec(x.value(), y.value()) == x.value() * y.value(),
{
    let xv = x.to_u64();
    let yv = y.to_u64();
    let g = gcd_u64(xv, yv);
    proof {
        lemma_gcd_pos(xv as nat, yv as nat);
    }
    if g == 0 {
        return T::from_u64(0);
    }
    proof {
        lemma_gcd_divides(xv as nat, yv as nat);
        lemma_fundamental_div_mod(xv as int, g as int);
        let q = xv as int / g as int;
        assert((q * yv) * g == xv * yv) by (nonlinear_arith)
            requires
                xv == g * q + 0,
        ;
        assert(q * yv <= T::max_value());
        T::lemma_max_value();
    }
    T::from_u64(xv / g * yv)
}

/// Euclid's algorithm on `u128`: returns gcd(x, y).
pub fn gcd_u128(x: u128, y: u128) -> (r: u128)
    ensures
        r == gcd_spec(x as nat, y as nat),
    decreases y,
{
    if y == 0 {
        x
    } else {
        let v = x % y;
        gcd_u128(y, v)
    }
}

/// Returns lcm(x, y) on `u128`: `x / gcd(x, y) * y`, and 0 when both are 0.
pub fn lcm_u128(x: u128, y: u128) -> (r: u128)
    requires
        gcd_spec(x as nat, y as nat) > 0 ==> (x as nat) / gcd_spec(x as nat, y as nat) * y <= u128::MAX,
    ensures
        r == (if gcd_spec(x as nat, y as nat) == 0 {
            0
        } else {
            (x as nat) / gcd_spec(x as nat, y as nat) * y
        }),
        r * gcd_spec(x as nat, y as nat) == x * y,
{
    let g = gcd_u128(x, y);
    proof {
        lemma_gcd_pos(x as nat, y as nat);
    }
    if g == 0 {
        return 0;
    }
    proof {
        lemma_gcd_divides(x as nat, y as nat);
        lemma_fundamental_div_mod(x as int, g as int);
        let q = x as int / g as int;
        assert((q * y) * g == x * y) by (nonlinear_arith)
            requires
                x == g * q + 0,
        ;
    }
    x / g * y
}

/// `|v|`, as a `u128`.
fn abs_u128(v: i128) -> (r: u128)
    ensures
        r == abs(v as int),
{
    if v < 0 {
        if v == i128::MIN {
            0x8000_0000_0000_0000_0000_0000_0000_0000
        } else {
            (-v) as u128
        }
    } else {
        v as u128
    }
}

/// Returns gcd(x, y) of two `i128`: the gcd of `|x|` and `|y|`, which must
/// fit in an `i128`.
pub fn gcd_i128(x: i128, y: i128) -> (r: i128)
    requires
        gcd_spec(abs(x as int), abs(y as int)) <= i128::MAX,
    ensures
        r == gcd_spec(abs(x as int), abs(y as int)),
{
    let g = gcd_u128(abs_u128(x), abs_u128(y));
    g as i128
}

/// Returns lcm(x, y) of two `i128`: `|x| / gcd * |y|`, and 0 when both are
/// 0; it must fit in an `i128`.
pub fn lcm_i128(x: i128, y: i128) -> (r: i128)
    requires
        gcd_spec(abs(x as int), abs(y as int)) > 0 ==> abs(x as int) / gcd_spec(abs(x as int), abs(y as int))
            * abs(y as int) <= i128::MAX,
    ensures
        r == (if gcd_spec(abs(x as int), abs(y as int)) == 0 {
            0
        } else {
            abs(x as int) / gcd_spec(abs(x as int), abs(y as int)) * abs(y as int)
        }),
{
    let xv = abs_u128(x);
    let yv = abs_u128(y);
    let l = lcm_u128(xv, yv);
    l as i128
}

/// Signed machine words that `gcd_int` and `lcm_int` work on.
pub trait SignedWord: Sized + Copy {
    /// The number the word stands for.
    spec fn value(self) -> int;

    /// The largest value of the type.
    spec fn max_value() -> int;

    /// The range of the type lies within that of `i64`.
    proof fn lemma_range()
        ensures
            1 <= Self::max_value() <= i64::MAX,
    ;

    /// The value, widened to `i64`.
    fn to_i64(self) -> (r: i64)
        ensures
            r == self.value(),
            -Self::max_value() - 1 <= r <= Self::max_value(),
    ;

    /// The word with value `v`.
    fn from_i64(v: i64) -> (r: Self)
        requires
            -Self::max_value() - 1 <= v <= Self::max_value(),
        ensures
            r.value() == v,
    ;
}

impl SignedWord for i8 {
    open spec fn value(self) -> int {
        self as int
    }

    open spec fn max_value() -> int {
        i8::MAX as int
    }

    proof fn lemma_range() {
    }

    fn to_i64(self) -> (r: i64) {
        self as i64
    }

    fn from_i64(v: i64) -> (r: Self) {
        v as i8
    }
}

impl SignedWord for i16 {
    open spec fn value(self) -> int {
        self as int
    }

    open spec fn max_value() -> int {
        i16::MAX as int
    }

    proof fn lemma_range() {
    }

    fn to_i64(self) -> (r: i64) {
        self as i64
    }

    fn from_i64(v: i64) -> (r: Self) {
        v as i16
    }
}

impl SignedWord for i32 {
    open spec fn value(self) -> int {
        self as int
    }

    open spec fn max_value() -> int {
        i32::MAX as int
    }

    proof fn lemma_range() {
    }

    fn to_i64(self) -> (r: i64) {
        self as i64
    }

    fn from_i64(v: i64) -> (r: Self) {
        v as i32
    }
}

impl SignedWord for i64 {
    open spec fn value(self) -> int {
        self as int
    }

    open spec fn max_value() -> int {
        i64::MAX as int
    }

    proof fn lemma_range() {
    }

    fn to_i64(self) -> (r: i64) {
        self
    }

    fn from_i64(v: i64) -> (r: Self) {
        v
    }
}

impl SignedWord for isize {
    open spec fn value(self) -> int {
        self as int
    }

    open spec fn max_value() -> int {
        isize::MAX as int
    }

    proof fn lemma_range() {
    }

    fn to_i64(self) -> (r: i64) {
        self as i64
    }

    fn from_i64(v: i64) -> (r: Self) {
        v as isize
    }
}

/// Returns gcd(x, y) of two signed words: the gcd of `|x|` and `|y|`, which
/// must fit in the type (it does unless the minimum value is involved).
pub fn gcd_int<T: SignedWord>(x: T, y: T) -> (r: T)
    requires
        gcd_spec(abs(x.value()), abs(y.value())) <= T::max_value(),
    ensures
        r.value() == gcd_spec(abs(x.value()), abs(y.value())),
{
    proof {
        T::lemma_range();
    }
    let g = gcd_i64(x.to_i64(), y.to_i64());
    T::from_i64(g)
}

/// Returns lcm(x, y) of two signed words: `|x| / gcd * |y|`, nonnegative,
/// and 0 when both are 0; it must fit in the type.
pub fn lcm_int<T: SignedWord>(x: T, y: T) -> (r: T)
    requires
        gcd_spec(abs(x.value()), abs(y.value())) > 0 ==> abs(x.value()) / gcd_spec(
            abs(x.value()),
            abs(y.value()),
        ) * abs(y.value()) <= T::max_value(),
    ensures
        r.value() == (if gcd_spec(abs(x.value()), abs(y.value())) == 0 {
            0
        } else {
            abs(x.value()) / gcd_spec(abs(x.value()), abs(y.value())) * abs(y.value())
        }),
{
    proof {
        T::lemma_range();
    }
    let xv = abs_u64(x.to_i64());
    let yv = abs_u64(y.to_i64());
    let g = gcd_u64(xv, yv);
    proof {
        lemma_gcd_pos(xv as nat, yv as nat);
    }
    if g == 0 {
        return T::from_i64(0);
    }
    proof {
        lemma_gcd_divides(xv as nat, yv as nat);
        lemma_fundamental_div_mod(xv as int, g as int);
        let q = xv as int / g as int;
        assert(q * yv <= T::max_value());
    }
    let l = xv / g * yv;
    T::from_i64(l as i64)
}

/// `ext_gcd(a, b)` returns `(g, s, t)` such that `g == gcd(a, b)` and `a*s + b*t == g`.
pub fn ext_gcd(a: i64, b: i64) -> (res: (i64, i64, i64))
    requires
        ext_gcd_fits(a as int, b as int),
    ensures
        res.0 == ext_gcd_spec(a as int, b as int).0,
        res.1 == ext_gcd_spec(a as int, b as int).1,
        res.2 == ext_gcd_spec(a as int, b as int).2,
        a * res.1 + b * res.2 == res.0,
        res.0 == gcd_spec(abs(a as int), abs(b as int)),
{
    let (mut s, mut old_s): (i64, i64) = (0, 1);
    let (mut g, mut old_g): (i64, i64) = (b, a);
    let ghost mut t: int = 1;
    let ghost mut old_t: int = 0;
    while g != 0
        invariant
            egcd_loop(old_g as int, g as int, old_s as int, s as int) == egcd_loop(
                a as int,
                b as int,
                1,
                0,
            ),
            egcd_loop_fits(old_g as int, g as int, old_s as int, s as int),
            old_g == old_s * a + old_t * b,
            g == s * a + t * b,
            gcd_spec(abs(old_g as int), abs(g as int)) == gcd_spec(abs(a as int), abs(b as int)),
            a >= 0 && b >= 0 ==> old_g >= 0 && g >= 0,
        decreases abs(g as int),
    {
        proof {
            lemma_tdiv_trem(old_g as int, g as int);
            lemma_tdiv_in_range(old_g as int, g as int);
            lemma_gcd_trem_step(old_g as int, g as int);
        }
        let q = old_g / g;
        assert(q == tdiv(old_g as int, g as int));
        let new_r = old_g - q * g;
        let new_s = old_s - q * s;
        proof {
            let new_t = old_t - q * t;
            assert(new_r == new_s * a + new_t * b) by (nonlinear_arith)
                requires
                    old_g == old_s * a + old_t * b,
                    g == s * a + t * b,
                    new_r == old_g - q * g,
                    new_s == old_s - q * s,
                    new_t == old_t - q * t,
            ;
            old_t = t;
            t = new_t;
        }
        old_g = g;
        g = new_r;
        old_s = s;
        s = new_s;
    }
    let t_out = if b != 0 {
        proof {
            assert(old_g - old_s * a == old_t * b);
            lemma_tdiv_exact(old_t, b as int);
            lemma_tdiv_in_range(old_g - old_s * a, b as int);
        }
        (old_g - old_s * a) / b
    } else {
        0
    };
    proof {
        if b != 0 {
            assert(t_out == old_t);
        } else {
            assert(t_out == 0);
        }
        assert(a * old_s + b * t_out == old_g) by (nonlinear_arith)
            requires
                old_g == old_s * a + old_t * b,
                b != 0 ==> t_out == old_t,
                b == 0 ==> t_out == 0,
        ;
        lemma_ext_gcd_spec(a as int, b as int);
    }
    if old_g < 0 {
        (-old_g, -old_s, -t_out)
    } else {
        (old_g, old_s, t_out)
    }
}

/// `n` is a multiple of `d`.
pub open spec fn dvd(d: int, n: int) -> bool {
    n % d == 0
}

/// `x` and `y` are congruent modulo `m` (that is, modulo `|m|`).
pub open spec fn congruent(x: int, y: int, m: int) -> bool {
    dvd(abs(m) as int, x - y)
}

/// `x` solves the first `k` congruences `x = r[i] (mod m[i])`.
pub open spec fn solves(x: int, r: Seq<i64>, m: Seq<i64>, k: int) -> bool {
    forall|i: int| 0 <= i < k ==> #[trigger] congruent(x, r[i] as int, m[i] as int)
}

/// Least common multiple of the absolute values of the first `k` moduli.
pub open spec fn lcm_prefix(m: Seq<i64>, k: nat) -> int
    decreases k,
{
    if k == 0 {
        1
    } else {
        let p = lcm_prefix(m, (k - 1) as nat);
        let a = abs(m[k - 1] as int);
        (p * a) / (gcd_spec(p as nat, a) as int)
    }
}

/// Number of congruences that `crt` reads: the shorter of its two slices.
pub open spec fn crt_len(r: Seq<i64>, m: Seq<i64>) -> nat {
    if r.len() < m.len() {
        r.len()
    } else {
        m.len()
    }
}

/// One merge step of `crt`: from the solution `x` modulo `mp` of the congruences
/// so far, and the congruence `x = b (mod mi)`, to the merged pair, or `None`
/// when they are incompatible.
pub open spec fn crt_step(x: int, mp: int, b: int, mi: int) -> Option<(int, int)> {
    let (g, s, _t) = ext_gcd_spec(mp, mi);
    if trem(b - x, mi) % g != 0 {
        None
    } else {
        Some((x + mp * ((s * ((b - x) % mi)) / g), (mp * mi) / (gcd_spec(abs(mp), abs(mi)) as int)))
    }
}

/// The pair `(x, modulus)` that `crt` holds after `k` congruences.
pub open spec fn crt_state(r: Seq<i64>, m: Seq<i64>, k: nat) -> Option<(int, int)>
    decreases k,
{
    if k == 0 {
        Some((0, 1))
    } else {
        match crt_state(r, m, (k - 1) as nat) {
            None => None,
            Some((x, mp)) => crt_step(x, mp, r[k - 1] as int, m[k - 1] as int),
        }
    }
}

/// One merge step computes every intermediate value within `i64`.
pub open spec fn crt_step_fits(x: int, mp: int, b: int, mi: int) -> bool {
    let (g, s, _t) = ext_gcd_spec(mp, mi);
    let d = (b - x) % mi;
    let e = (s * d) / g;
    &&& ext_gcd_fits(mp, mi)
    &&& in_i64(b - x)
    &&& !(b - x == i64::MIN && mi == -1)
    &&& trem(b - x, mi) % g == 0 ==> {
        &&& in_i64(s * d)
        &&& in_i64(e)
        &&& in_i64(mp * e)
        &&& in_i64(x + mp * e)
        &&& in_i64(mp * mi)
    }
}

/// `crt` computes every intermediate value of its first `k` steps within `i64`.
pub open spec fn crt_fits(r: Seq<i64>, m: Seq<i64>, k: nat) -> bool
    decreases k,
{
    if k == 0 {
        true
    } else {
        &&& crt_fits(r, m, (k - 1) as nat)
        &&& match crt_state(r, m, (k - 1) as nat) {
            None => true,
            Some((x, mp)) => crt_step_fits(x, mp, r[k - 1] as int, m[k - 1] as int),
        }
    }
}

/// What holds of the pair `(x, mp)` after `k` congruences: `|mp|` is the
/// least common multiple of their moduli, `x` solves them, every solution is
/// `x` modulo `mp`, and `x` is still 0 while `|mp|` is 1.
pub open spec fn crt_inv(r: Seq<i64>, m: Seq<i64>, k: nat, x: int, mp: int) -> bool {
    &&& mp != 0
    &&& abs(mp) == lcm_prefix(m, k)
    &&& solves(x, r, m, k as int)
    &&& forall|i: int| 0 <= i < k ==> #[trigger] dvd(abs(m[i] as int) as int, abs(mp) as int)
    &&& forall|y: int| #[trigger] solves(y, r, m, k as int) ==> congruent(y, x, mp)
    &&& abs(mp) == 1 ==> x == 0
}

/// The least common multiple of `a` and `b` divides each of their common multiples.
pub proof fn lemma_lcm_divides(a: int, b: int, g: int, s: int, t: int, l: int)
    requires
        a > 0,
        b > 0,
        g > 0,
        a % g == 0,
        b % g == 0,
        a * s + b * t == g,
        l % a == 0,
        l % b == 0,
    ensures
        (a * b) / g == a * (b / g),
        (a * b) / g > 0,
        l % ((a * b) / g) == 0,
        ((a * b) / g) % a == 0,
        ((a * b) / g) % b == 0,
{
    lemma_fundamental_div_mod(a, g);
    lemma_fundamental_div_mod(b, g);
    lemma_fundamental_div_mod(l, a);
    lemma_fundamental_div_mod(l, b);
    let a1 = a / g;
    let b1 = b / g;
    let u = l / a;
    let v = l / b;
    assert(a1 * s + b1 * t == 1) by (nonlinear_arith)
        requires
            a == g * a1,
            b == g * b1,
            a * s + b * t == g,
            g > 0,
    ;
    assert(a1 * u == b1 * v) by (nonlinear_arith)
        requires
            a == g * a1,
            b == g * b1,
            l == a * u,
            l == b * v,
            g > 0,
    ;
    let w = v * s + t * u;
    assert(u == b1 * w) by (nonlinear_arith)
        requires
            a1 * s + b1 * t == 1,
            a1 * u == b1 * v,
            w == v * s + t * u,
    ;
    assert(a * b == (a * b1) * g) by (nonlinear_arith)
        requires
            b == g * b1,
    ;
    lemma_div_multiples_vanish(a * b1, g);
    assert(b1 > 0) by (nonlinear_arith)
        requires
            b == g * b1,
            g > 0,
            b > 0,
    ;
    assert(a * b1 > 0) by (nonlinear_arith)
        requires
            a > 0,
            b1 > 0,
    ;
    assert(l == w * (a * b1)) by (nonlinear_arith)
        requires
            l == a * u,
            u == b1 * w,
    ;
    lemma_mod_multiples_basic(w, a * b1);
    lemma_mod_multiples_basic(b1, a);
    assert(a * b1 == b1 * a) by (nonlinear_arith);
    assert(a * b1 == a1 * b) by (nonlinear_arith)
        requires
            a == g * a1,
            b == g * b1,
    ;
    lemma_mod_multiples_basic(a1, b);
}

/// The Euclidean remainder by `g` depends only on `|g|`.
pub proof fn lemma_mod_abs(v: int, g: int)
    requires
        g != 0,
    ensures
        v % g == v % (abs(g) as int),
        v == g * (v / g) + v % g,
        0 <= v % g < abs(g),
{
    lemma_fundamental_div_mod(v, g);
    let a = abs(g) as int;
    assert(0 <= v % g < a);
    if g < 0 {
        assert(v == (-(v / g)) * a + v % g) by (nonlinear_arith)
            requires
                v == g * (v / g) + v % g,
                a == -g,
        ;
        lemma_fundamental_div_mod_converse(v, a, -(v / g), v % g);
    }
}

/// A positive `d` that divides `|n|` divides `n`.
pub proof fn lemma_dvd_abs(d: int, n: int)
    requires
        d > 0,
        (abs(n) as int) % d == 0,
    ensures
        n % d == 0,
{
    if n < 0 {
        lemma_dvd_linear(d, abs(n) as int, 0, -1, 0);
        assert((abs(n) as int) * (-1) + 0 * 0 == n);
    }
}

/// `|a|` times `s` with the sign of `a * g` is `a * s` with the sign of `g`.
proof fn lemma_abs_mul_sign(a: int, s: int, g: int)
    requires
        a != 0,
        g != 0,
    ensures
        (abs(a) as int) * (if (a > 0) == (g > 0) { s } else { -s }) == (if g > 0 { a * s } else { -(a * s) }),
{
    if a > 0 {
        if g <= 0 {
            assert(a * (-s) == -(a * s)) by (nonlinear_arith);
        }
    } else {
        if g > 0 {
            assert((-a) * (-s) == a * s) by (nonlinear_arith);
        } else {
            assert((-a) * s == -(a * s)) by (nonlinear_arith);
        }
    }
}

/// The product of two nonzero numbers is the product of their absolute
/// values, with the sign given by their signs.
proof fn lemma_mul_abs(a: int, b: int)
    requires
        a != 0,
        b != 0,
    ensures
        a * b == (if (a > 0) == (b > 0) { (abs(a) * abs(b)) as int } else { -((abs(a) * abs(b)) as int) }),
{
    if a > 0 && b < 0 {
        assert(a * b == -(a * (-b))) by (nonlinear_arith);
    } else if a < 0 && b > 0 {
        assert(a * b == -((-a) * b)) by (nonlinear_arith);
    } else if a < 0 && b < 0 {
        assert(a * b == (-a) * (-b)) by (nonlinear_arith);
    }
}

/// One merge step keeps `crt_inv`, or finds that the first `k + 1` congruences
/// have no common solution.
pub proof fn lemma_crt_step(r: Seq<i64>, m: Seq<i64>, k: nat, x: int, mp: int)
    requires
        k < r.len(),
        k < m.len(),
        forall|i: int| 0 <= i <= k ==> m[i] != 0,
        crt_inv(r, m, k, x, mp),
    ensures
        match crt_step(x, mp, r[k as int] as int, m[k as int] as int) {
            Some((x2, mp2)) => crt_inv(r, m, k + 1, x2, mp2),
            None => forall|y: int| !#[trigger] solves(y, r, m, (k + 1) as int),
        },
{
    let b = r[k as int] as int;
    let mi = m[k as int] as int;
    let aa = abs(mp) as int;
    let bb = abs(mi) as int;
    let (g, s, t) = ext_gcd_spec(mp, mi);
    lemma_ext_gcd_spec(mp, mi);
    lemma_gcd_pos(abs(mp), abs(mi));
    lemma_gcd_divides(abs(mp), abs(mi));
    let gg = gcd_spec(abs(mp), abs(mi)) as int;
    assert(abs(g) == gg);
    assert(gg > 0);
    lemma_dvd_abs(gg, mp);
    lemma_dvd_abs(gg, mi);
    lemma_tdiv_trem(b - x, mi);
    let tr = trem(b - x, mi);
    let tq = tdiv(b - x, mi);
    lemma_mod_abs(tr, g);
    // the compatibility test: |g| divides b - x
    if tr % g == 0 {
        lemma_dvd_linear(gg, tr, mi, 1, tq);
        assert(tr * 1 + mi * tq == b - x) by (nonlinear_arith)
            requires
                b - x == tq * mi + tr,
        ;
    } else {
        assert forall|y: int| !#[trigger] solves(y, r, m, (k + 1) as int) by {
            if solves(y, r, m, (k + 1) as int) {
                assert forall|i: int| 0 <= i < k implies #[trigger] congruent(
                    y,
                    r[i] as int,
                    m[i] as int,
                ) by {
                    assert(congruent(y, r[i] as int, m[i] as int));
                }
                assert(solves(y, r, m, k as int));
                assert(congruent(y, x, mp));
                assert(congruent(y, b, mi));
                lemma_dvd_trans(gg, aa, y - x);
                lemma_dvd_trans(gg, bb, y - b);
                lemma_dvd_linear(gg, y - x, y - b, 1, -1);
                lemma_dvd_linear(gg, b - x, mi, 1, -tq);
                assert((b - x) * 1 + mi * (-tq) == tr) by (nonlinear_arith)
                    requires
                        b - x == tq * mi + tr,
                ;
                assert((y - x) * 1 + (y - b) * (-1) == b - x);
            }
        }
        return;
    }
    // compatible: build the merged solution
    lemma_mod_abs(b - x, mi);
    lemma_mod_bound(b - x, bb);
    lemma_fundamental_div_mod(b - x, bb);
    let d = (b - x) % mi;
    let qd = (b - x) / bb;
    assert(d == (b - x) % bb);
    lemma_dvd_linear(gg, b - x, bb, 1, -qd);
    assert((b - x) * 1 + bb * (-qd) == d) by (nonlinear_arith)
        requires
            b - x == bb * qd + d,
    ;
    lemma_mod_abs(d, g);
    let d1 = d / g;
    assert(d == g * d1);
    lemma_dvd_linear(gg, d, 0, s, 0);
    assert(d * s + 0 * 0 == s * d) by (nonlinear_arith);
    lemma_mod_abs(s * d, g);
    let e = (s * d) / g;
    assert(s * d == g * e);
    // mp * e == d - mi * t * d1, cancelling g
    assert(g * (mp * e) == g * (d - mi * t * d1)) by (nonlinear_arith)
        requires
            s * d == g * e,
            mp * s + mi * t == g,
            d == g * d1,
    ;
    assert(mp * e == d - mi * t * d1) by (nonlinear_arith)
        requires
            g * (mp * e) == g * (d - mi * t * d1),
            g != 0,
    ;
    let x2 = x + mp * e;
    // x2 - b is a multiple of |mi|
    lemma_mod_self_0(bb);
    lemma_mod_self_0(aa);
    lemma_dvd_abs(bb, mi);
    lemma_dvd_abs(aa, mp);
    lemma_dvd_linear(bb, bb, mi, -qd, -(t * d1));
    assert(bb * (-qd) + mi * (-(t * d1)) == x2 - b) by (nonlinear_arith)
        requires
            x2 == x + mp * e,
            mp * e == d - mi * t * d1,
            b - x == bb * qd + d,
    ;
    assert(congruent(x2, b, mi));
    // x2 - x is a multiple of |mp|
    lemma_dvd_linear(aa, mp, 0, e, 0);
    assert(mp * e + 0 * 0 == x2 - x);
    assert(dvd(aa, x2 - x));
    // the new modulus
    let s2 = if (mp > 0) == (g > 0) { s } else { -s };
    let t2 = if (mi > 0) == (g > 0) { t } else { -t };
    lemma_abs_mul_sign(mp, s, g);
    lemma_abs_mul_sign(mi, t, g);
    assert(aa * s2 + bb * t2 == gg);
    let q = (aa * bb) / gg;
    lemma_mod_multiples_basic(bb, aa);
    lemma_mod_multiples_basic(aa, bb);
    assert(bb * aa == aa * bb) by (nonlinear_arith);
    lemma_lcm_divides(aa, bb, gg, s2, t2, aa * bb);
    lemma_fundamental_div_mod(aa * bb, gg);
    assert((aa * bb) % gg == 0) by {
        lemma_dvd_linear(gg, bb, 0, aa, 0);
        assert(bb * aa + 0 * 0 == aa * bb) by (nonlinear_arith);
    }
    assert(aa * bb == gg * q);
    lemma_mul_abs(mp, mi);
    let sq = if (mp > 0) == (mi > 0) { q } else { -q };
    assert(mp * mi == gg * sq) by (nonlinear_arith)
        requires
            aa * bb == gg * q,
            mp * mi == (if (mp > 0) == (mi > 0) { aa * bb } else { -(aa * bb) }),
            sq == (if (mp > 0) == (mi > 0) { q } else { -q }),
    ;
    lemma_div_multiples_vanish(sq, gg);
    let mp2 = (mp * mi) / gg;
    assert(mp2 == sq);
    assert(abs(mp2) == q);
    assert(abs(mp2) == lcm_prefix(m, k + 1));
    assert forall|i: int| 0 <= i < k + 1 implies #[trigger] dvd(abs(m[i] as int) as int, abs(mp2) as int) by {
        if i < k {
            assert(dvd(abs(m[i] as int) as int, aa));
            lemma_dvd_trans(abs(m[i] as int) as int, aa, q);
        }
    }
    assert forall|i: int| 0 <= i < k + 1 implies #[trigger] congruent(
        x2,
        r[i] as int,
        m[i] as int,
    ) by {
        if i < k {
            let mi_abs = abs(m[i] as int) as int;
            assert(congruent(x, r[i] as int, m[i] as int));
            assert(dvd(mi_abs, aa));
            lemma_dvd_trans(mi_abs, aa, x2 - x);
            lemma_dvd_linear(mi_abs, x - r[i], x2 - x, 1, 1);
            assert((x - r[i]) * 1 + (x2 - x) * 1 == x2 - r[i]);
        }
    }
    assert(solves(x2, r, m, (k + 1) as int));
    assert forall|y: int| #[trigger] solves(y, r, m, (k + 1) as int) implies congruent(y, x2, mp2) by {
        assert forall|i: int| 0 <= i < k implies #[trigger] congruent(y, r[i] as int, m[i] as int) by {
            assert(congruent(y, r[i] as int, m[i] as int));
        }
        assert(solves(y, r, m, k as int));
        assert(congruent(y, x, mp));
        assert(congruent(y, b, mi));
        lemma_dvd_linear(aa, y - x, x2 - x, 1, -1);
        assert((y - x) * 1 + (x2 - x) * (-1) == y - x2);
        lemma_dvd_linear(bb, y - b, x2 - b, 1, -1);
        assert((y - b) * 1 + (x2 - b) * (-1) == y - x2);
        lemma_lcm_divides(aa, bb, gg, s2, t2, y - x2);
    }
    // the solution stays 0 while the modulus is 1
    if q == 1 {
        lemma_divisor_le(aa, q);
        lemma_divisor_le(bb, q);
        assert(aa == 1 && bb == 1);
        assert(x == 0);
        assert(d == 0);
        assert(s * d == 0) by (nonlinear_arith)
            requires
                d == 0,
        ;
        assert(e == 0) by (nonlinear_arith)
            requires
                s * d == g * e,
                s * d == 0,
                g != 0,
        ;
        assert(mp * e == 0) by (nonlinear_arith)
            requires
                e == 0,
        ;
        assert(x2 == 0);
    }
}

/// `crt_state` after `k` congruences satisfies `crt_inv`, or the first `k`
/// congruences have no common solution.
pub proof fn lemma_crt_state(r: Seq<i64>, m: Seq<i64>, k: nat)
    requires
        k <= r.len(),
        k <= m.len(),
        forall|i: int| 0 <= i < k ==> m[i] != 0,
    ensures
        match crt_state(r, m, k) {
            Some((x, mp)) => crt_inv(r, m, k, x, mp),
            None => forall|y: int| !#[trigger] solves(y, r, m, k as int),
        },
    decreases k,
{
    if k == 0 {
        assert forall|y: int| #[trigger] solves(y, r, m, 0) implies congruent(y, 0, 1) by {
            lemma_mod_multiples_basic(y, 1);
        }
        assert(solves(0, r, m, 0));
        assert(crt_inv(r, m, 0, 0, 1));
    } else {
        let k1 = (k - 1) as nat;
        lemma_crt_state(r, m, k1);
        match crt_state(r, m, k1) {
            Some((x, mp)) => {
                lemma_crt_step(r, m, k1, x, mp);
                assert(crt_state(r, m, k) == crt_step(x, mp, r[k1 as int] as int, m[k1 as int] as int));
                assert(k1 + 1 == k);
            },
            None => {
                assert forall|y: int| !#[trigger] solves(y, r, m, k as int) by {
                    if solves(y, r, m, k as int) {
                        assert forall|i: int| 0 <= i < k1 implies #[trigger] congruent(
                            y,
                            r[i] as int,
                            m[i] as int,
                        ) by {
                            assert(congruent(y, r[i] as int, m[i] as int));
                        }
                        assert(solves(y, r, m, k1 as int));
                    }
                }
            },
        }
    }
}

/// The first steps of a computation that fits also fit.
pub proof fn lemma_crt_fits_prefix(r: Seq<i64>, m: Seq<i64>, j: nat, n: nat)
    requires
        j <= n,
        crt_fits(r, m, n),
    ensures
        crt_fits(r, m, j),
    decreases n - j,
{
    if j < n {
        lemma_crt_fits_prefix(r, m, j, (n - 1) as nat);
    }
}

/// A solution of the first `n` congruences solves the first `j`.
pub proof fn lemma_solves_prefix(y: int, r: Seq<i64>, m: Seq<i64>, j: int, n: int)
    requires
        0 <= j <= n,
        solves(y, r, m, n),
    ensures
        solves(y, r, m, j),
{
    assert forall|i: int| 0 <= i < j implies #[trigger] congruent(y, r[i] as int, m[i] as int) by {
        assert(congruent(y, r[i] as int, m[i] as int));
    }
}

/// A positive divisor of a positive number is at most that number.
pub proof fn lemma_divisor_le(d: int, n: int)
    requires
        d > 0,
        n > 0,
        n % d == 0,
    ensures
        d <= n,
{
    lemma_fundamental_div_mod(n, d);
    let q = n / d;
    assert(d <= n) by (nonlinear_arith)
        requires
            n == d * q + 0,
            d > 0,
            n > 0,
    ;
}

/// The least common multiple does not shrink when a nonzero modulus is added.
pub proof fn lemma_lcm_prefix_grows(m: Seq<i64>, k: nat)
    requires
        k < m.len(),
        forall|i: int| 0 <= i <= k ==> m[i] != 0,
    ensures
        lcm_prefix(m, k) >= 1,
        lcm_prefix(m, k) <= lcm_prefix(m, k + 1),
    decreases k,
{
    if k > 0 {
        lemma_lcm_prefix_grows(m, (k - 1) as nat);
    }
    let p = lcm_prefix(m, k);
    let a = abs(m[k as int] as int) as int;
    lemma_gcd_pos(p as nat, a as nat);
    lemma_gcd_divides(p as nat, a as nat);
    let g = gcd_spec(p as nat, a as nat) as int;
    lemma_divisor_le(g, a);
    lemma_fundamental_div_mod(a, g);
    let a1 = a / g;
    assert(p * a == (p * a1) * g) by (nonlinear_arith)
        requires
            a == g * a1 + 0,
    ;
    lemma_div_multiples_vanish(p * a1, g);
    assert((p * a1) * g == g * (p * a1)) by (nonlinear_arith);
    assert(a1 >= 1) by (nonlinear_arith)
        requires
            a == g * a1,
            a >= 1,
            g >= 1,
    ;
    assert(p <= p * a1) by (nonlinear_arith)
        requires
            p >= 1,
            a1 >= 1,
    ;
}

/// The lcm of a prefix is at most that of a longer prefix.
pub proof fn lemma_lcm_prefix_mono(m: Seq<i64>, j: nat, n: nat)
    requires
        j <= n <= m.len(),
        forall|i: int| 0 <= i < n ==> m[i] != 0,
    ensures
        1 <= lcm_prefix(m, j) <= lcm_prefix(m, n),
    decreases n - j,
{
    if j < n {
        lemma_lcm_prefix_grows(m, j);
        lemma_lcm_prefix_mono(m, j + 1, n);
    } else if n > 0 {
        lemma_lcm_prefix_grows(m, (n - 1) as nat);
    }
}

/// What the first `k` steps of `crt` keep under the bounds of
/// `lemma_crt_fits_bounded`: they fit, the modulus is the positive lcm, and
/// `|x| <= k * bd * bd`.
proof fn lemma_crt_fits_bounded_steps(r: Seq<i64>, m: Seq<i64>, n: nat, bd: int, rb: int, k: nat)
    requires
        k <= n,
        n <= r.len(),
        n <= m.len(),
        bd >= 1,
        rb >= 0,
        forall|i: int| 0 <= i < n ==> 0 < #[trigger] m[i] <= bd && -rb <= r[i] <= rb,
        lcm_prefix(m, n) <= bd,
        (n + 1) * (bd * bd) + rb <= i64::MAX,
    ensures
        crt_fits(r, m, k),
        crt_state(r, m, k) matches Some((x, mp)) ==> {
            &&& mp == lcm_prefix(m, k)
            &&& 1 <= mp <= bd
            &&& -(k * (bd * bd)) <= x <= k * (bd * bd)
        },
    decreases k,
{
    lemma_crt_state(r, m, k);
    lemma_lcm_prefix_mono(m, k, n);
    if k > 0 {
        let k1 = (k - 1) as nat;
        lemma_crt_fits_bounded_steps(r, m, n, bd, rb, k1);
        lemma_crt_state(r, m, k1);
        lemma_lcm_prefix_mono(m, k1, n);
        match crt_state(r, m, k1) {
            None => {},
            Some((x, mp)) => {
                let b = r[k1 as int] as int;
                let mi = m[k1 as int] as int;
                assert(0 < mi <= bd && -rb <= b <= rb);
                let kb = k1 * (bd * bd);
                let bb = bd * bd;
                assert(bd <= bb && 1 <= bb) by (nonlinear_arith)
                    requires
                        bd >= 1,
                        bb == bd * bd,
                ;
                assert((n + 1) * bb == n * bb + bb) by (nonlinear_arith);
                assert(k1 * bb + bb <= n * bb) by (nonlinear_arith)
                    requires
                        k1 + 1 <= n,
                        bb >= 1,
                ;
                assert((mp + 1) * mi <= bb + bb) by (nonlinear_arith)
                    requires
                        1 <= mp <= bd,
                        0 < mi <= bd,
                        bb == bd * bd,
                ;
                lemma_ext_gcd_fits_nonneg(mp, mi);
                lemma_ext_gcd_spec(mp, mi);
                let (g, s, t) = ext_gcd_spec(mp, mi);
                lemma_gcd_pos(abs(mp), abs(mi));
                lemma_gcd_divides(abs(mp), abs(mi));
                assert(g >= 1);
                assert(abs(s) * g <= mi);
                assert(abs(s) <= mi) by (nonlinear_arith)
                    requires
                        abs(s) * g <= mi,
                        g >= 1,
                ;
                let d = (b - x) % mi;
                lemma_mod_bound(b - x, mi);
                assert(abs(s * d) <= bb) by (nonlinear_arith)
                    requires
                        abs(s) <= mi,
                        0 <= d < mi,
                        mi <= bd,
                        bb == bd * bd,
                ;
                let e = (s * d) / g;
                if trem(b - x, mi) % g == 0 {
                    lemma_tdiv_trem(b - x, mi);
                    let tq = tdiv(b - x, mi);
                    let tr = trem(b - x, mi);
                    lemma_fundamental_div_mod(b - x, mi);
                    let qd = (b - x) / mi;
                    // g divides d, so g divides s * d exactly
                    lemma_dvd_abs(g, mi);
                    lemma_dvd_linear(g, tr, mi, 1, tq);
                    assert(tr * 1 + mi * tq == b - x) by (nonlinear_arith)
                        requires
                            b - x == tq * mi + tr,
                    ;
                    lemma_dvd_linear(g, b - x, mi, 1, -qd);
                    assert((b - x) * 1 + mi * (-qd) == d) by (nonlinear_arith)
                        requires
                            b - x == mi * qd + d,
                    ;
                    lemma_dvd_linear(g, d, 0, s, 0);
                    assert(d * s + 0 * 0 == s * d) by (nonlinear_arith);
                    lemma_fundamental_div_mod(s * d, g);
                    assert(s * d == g * e);
                    assert(abs(e) <= abs(s * d)) by (nonlinear_arith)
                        requires
                            s * d == g * e,
                            g >= 1,
                    ;
                    // mp * mi is g times the new lcm, which is at most bd
                    let l2 = lcm_prefix(m, k);
                    assert(l2 == (mp * mi) / g);
                    lemma_fundamental_div_mod(mp, g);
                    let mp1 = mp / g;
                    assert(mp == g * mp1);
                    assert(mp * mi == g * (mp1 * mi)) by (nonlinear_arith)
                        requires
                            mp == g * mp1,
                    ;
                    lemma_div_multiples_vanish(mp1 * mi, g);
                    assert(l2 == mp1 * mi);
                    lemma_divisor_le(g, mi);
                    assert(mp1 >= 1) by (nonlinear_arith)
                        requires
                            mp == g * mp1,
                            mp >= 1,
                            g >= 1,
                    ;
                    assert(mp * mi <= bb) by (nonlinear_arith)
                        requires
                            mp * mi == g * l2,
                            g <= mi,
                            mi <= bd,
                            l2 <= bd,
                            l2 >= 1,
                            bb == bd * bd,
                    ;
                    lemma_divisor_le(g, mi);
                    // |mp * e| <= l2 * d <= bd * bd
                    assert(abs(mp * e) <= bb) by (nonlinear_arith)
                        requires
                            s * d == g * e,
                            abs(s) * g <= mi,
                            mp == g * mp1,
                            l2 == mp1 * mi,
                            0 <= d < mi,
                            l2 <= bd,
                            mi <= bd,
                            g >= 1,
                            mp1 >= 1,
                            bb == bd * bd,
                    ;
                    assert(mp * mi >= 1) by (nonlinear_arith)
                        requires
                            mp >= 1,
                            mi >= 1,
                    ;
                }
                assert(crt_state(r, m, k) == crt_step(x, mp, b, mi));
                if crt_state(r, m, k) is Some {
                    let (x2, mp2) = crt_state(r, m, k)->0;
                    assert(mp2 == (mp * mi) / g);
                    assert(mp2 >= 0) by (nonlinear_arith)
                        requires
                            mp * mi >= 1,
                            g >= 1,
                            mp2 == (mp * mi) / g,
                    ;
                    assert(k * bb == k1 * bb + bb) by (nonlinear_arith)
                        requires
                            k == k1 + 1,
                    ;
                }
            },
        }
    }
}

/// `crt` computes within `i64` when its moduli are positive and at most `bd`,
/// their least common multiple is at most `bd`, every remainder is at most
/// `rb` in absolute value, and `(n + 1) * bd * bd + rb` fits in an `i64` for
/// the number `n` of pairs read: a simple bound under which `crt_fits` holds.
pub proof fn lemma_crt_fits_bounded(r: Seq<i64>, m: Seq<i64>, bd: int, rb: int)
    requires
        bd >= 1,
        rb >= 0,
        forall|i: int| 0 <= i < crt_len(r, m) ==> 0 < #[trigger] m[i] <= bd && -rb <= r[i] <= rb,
        lcm_prefix(m, crt_len(r, m)) <= bd,
        (crt_len(r, m) + 1) * (bd * bd) + rb <= i64::MAX,
    ensures
        crt_fits(r, m, crt_len(r, m)),
{
    lemma_crt_fits_bounded_steps(r, m, crt_len(r, m), bd, rb, crt_len(r, m));
}

/// The product of the absolute values of the first `k` moduli.
pub open spec fn moduli_product(m: Seq<i64>, k: nat) -> int
    decreases k,
{
    if k == 0 {
        1
    } else {
        moduli_product(m, (k - 1) as nat) * abs(m[k - 1] as int)
    }
}

/// The least common multiple of the first `k` moduli is at most their
/// product, and each of them is at most the product.
pub proof fn lemma_lcm_prefix_le_product(m: Seq<i64>, k: nat)
    requires
        k <= m.len(),
        forall|i: int| 0 <= i < k ==> m[i] != 0,
    ensures
        1 <= lcm_prefix(m, k) <= moduli_product(m, k),
        forall|i: int| 0 <= i < k ==> abs(#[trigger] m[i] as int) <= moduli_product(m, k),
    decreases k,
{
    lemma_lcm_prefix_mono(m, k, k);
    if k > 0 {
        let k1 = (k - 1) as nat;
        lemma_lcm_prefix_le_product(m, k1);
        let p = lcm_prefix(m, k1);
        let pr = moduli_product(m, k1);
        let a = abs(m[k1 as int] as int) as int;
        lemma_gcd_pos(p as nat, a as nat);
        let g = gcd_spec(p as nat, a as nat) as int;
        lemma_div_shrinks(p * a, g);
        assert(p * a >= 0) by (nonlinear_arith)
            requires
                p >= 1,
                a >= 1,
        ;
        assert(p * a <= pr * a) by (nonlinear_arith)
            requires
                p <= pr,
                a >= 1,
        ;
        assert(a <= pr * a && pr <= pr * a) by (nonlinear_arith)
            requires
                pr >= 1,
                a >= 1,
        ;
        assert forall|i: int| 0 <= i < k implies abs(#[trigger] m[i] as int) <= moduli_product(m, k) by {
            if i < k1 {
                assert(abs(m[i] as int) <= pr);
            }
        }
    }
}

/// `crt` computes within `i64` when its moduli are positive, every remainder
/// is at most `rb` in absolute value, and, with `P` the product of the moduli
/// read and `n` their number, `(n + 1) * P * P + rb` fits in an `i64`.
pub proof fn lemma_crt_fits_product(r: Seq<i64>, m: Seq<i64>, rb: int)
    requires
        rb >= 0,
        forall|i: int| 0 <= i < crt_len(r, m) ==> 0 < #[trigger] m[i] && -rb <= r[i] <= rb,
        (crt_len(r, m) + 1) * (moduli_product(m, crt_len(r, m)) * moduli_product(m, crt_len(r, m)))
            + rb <= i64::MAX,
    ensures
        crt_fits(r, m, crt_len(r, m)),
{
    let n = crt_len(r, m);
    lemma_lcm_prefix_le_product(m, n);
    let pr = moduli_product(m, n);
    assert forall|i: int| 0 <= i < n implies 0 < #[trigger] m[i] <= pr && -rb <= r[i] <= rb by {
        assert(abs(m[i] as int) <= pr);
    }
    lemma_crt_fits_bounded(r, m, pr, rb);
}

/// Euclidean division by a positive number moves toward zero.
pub proof fn lemma_div_shrinks(v: int, g: int)
    requires
        g >= 1,
    ensures
        v >= 0 ==> 0 <= v / g <= v,
        v < 0 ==> v <= v / g <= 0,
{
    lemma_fundamental_div_mod(v, g);
    lemma_mod_bound(v, g);
    let q = v / g;
    let r = v % g;
    assert(v >= 0 ==> 0 <= q <= v) by (nonlinear_arith)
        requires
            v == g * q + r,
            0 <= r < g,
            g >= 1,
    ;
    assert(v < 0 ==> v <= q <= 0) by (nonlinear_arith)
        requires
            v == g * q + r,
            0 <= r < g,
            g >= 1,
    ;
}

/// What `crt(r, m)` returns: the state after all the pairs it reads, reduced
/// modulo the final modulus (`None` once a pair is incompatible).
pub open spec fn crt_spec(r: Seq<i64>, m: Seq<i64>) -> Option<int> {
    match crt_state(r, m, crt_len(r, m)) {
        None => None,
        Some((x, mp)) => Some(x % mp),
    }
}

/// Once a pair is incompatible, the state stays `None`.
pub proof fn lemma_crt_state_none(r: Seq<i64>, m: Seq<i64>, k: nat, n: nat)
    requires
        k <= n,
        crt_state(r, m, k) is None,
    ensures
        crt_state(r, m, n) is None,
    decreases n - k,
{
    if k < n {
        lemma_crt_state_none(r, m, k + 1, n);
    }
}

/// `crt` ignores the surplus pairs of the longer slice: `crt(r, m)` equals
/// `crt(&r[..n], &m[..n])` for `n` the shorter length; and `crt(&[], &[])` is
/// `Some(0)`.
pub proof fn lemma_crt_cut_law(r: Seq<i64>, m: Seq<i64>)
    ensures
        crt_spec(r, m) == crt_spec(r.take(crt_len(r, m) as int), m.take(crt_len(r, m) as int)),
        crt_spec(Seq::empty(), Seq::empty()) == Some(0int),
{
    let n = crt_len(r, m);
    let r2 = r.take(n as int);
    let m2 = m.take(n as int);
    assert(crt_len(r2, m2) == n);
    lemma_crt_agree(r, m, r2, m2, n);
    assert(crt_state(Seq::<i64>::empty(), Seq::<i64>::empty(), 0) == Some((0int, 1int)));
    assert(0int % 1int == 0);
}

/// `crt(r, m)` returns `Some(x)` such that `x = r[i] mod m[i]` for all `i`. If such `x` doesn't
/// exist, then it returns `None`.
///
/// The congruences are those of the pairs `(r[i], m[i])` for `i` below the
/// shorter length, each modulo `|m[i]|`; `x` is the least nonnegative
/// solution, and the solutions are exactly the numbers congruent to `x`
/// modulo the least common multiple of the moduli.
pub fn crt(r: &[i64], m: &[i64]) -> (res: Option<i64>)
    requires
        forall|i: int| 0 <= i < crt_len(r@, m@) ==> m@[i] != 0,
        crt_fits(r@, m@, crt_len(r@, m@)),
    ensures
        res matches Some(v) ==> crt_spec(r@, m@) == Some(v as int),
        res is None ==> crt_spec(r@, m@) is None,
        res is Some <==> exists|y: int| solves(y, r@, m@, crt_len(r@, m@) as int),
        res matches Some(v) ==> {
            &&& 0 <= v < lcm_prefix(m@, crt_len(r@, m@))
            &&& solves(v as int, r@, m@, crt_len(r@, m@) as int)
            &&& forall|y: int|
                solves(y, r@, m@, crt_len(r@, m@) as int) ==> congruent(
                    y,
                    v as int,
                    lcm_prefix(m@, crt_len(r@, m@)),
                )
        },
{
    let n = if r.len() < m.len() {
        r.len()
    } else {
        m.len()
    };
    let ghost nn = n as int;
    let (mut x, mut m_prod): (i64, i64) = (0, 1);
    let mut k: usize = 0;
    proof {
        lemma_crt_state(r@, m@, 0);
    }
    while k < n
        invariant
            n == crt_len(r@, m@),
            nn == n,
            n <= r@.len(),
            n <= m@.len(),
            k <= n,
            forall|i: int| 0 <= i < n ==> m@[i] != 0,
            crt_fits(r@, m@, n as nat),
            crt_state(r@, m@, k as nat) == Some((x as int, m_prod as int)),
            crt_inv(r@, m@, k as nat, x as int, m_prod as int),
        decreases n - k,
    {
        let bi = r[k];
        let mi = m[k];
        proof {
            lemma_crt_fits_prefix(r@, m@, (k + 1) as nat, n as nat);
            lemma_crt_step(r@, m@, k as nat, x as int, m_prod as int);
            lemma_ext_gcd_spec(m_prod as int, mi as int);
            lemma_gcd_pos(abs(m_prod as int), abs(mi as int));
            lemma_gcd_divides(abs(m_prod as int), abs(mi as int));
        }
        let (g, s, _t) = ext_gcd(m_prod, mi);
        assert(g != 0);
        proof {
            lemma_tdiv_in_range(bi - x, mi as int);
            lemma_tdiv_trem(bi - x, mi as int);
        }
        let diff = bi - x;
        let tr = diff % mi;
        if tr.checked_rem_euclid(g).unwrap() != 0 {
            proof {
                assert(crt_step(x as int, m_prod as int, bi as int, mi as int) is None);
                assert(crt_state(r@, m@, (k + 1) as nat) is None);
                lemma_crt_state_none(r@, m@, (k + 1) as nat, n as nat);
                assert forall|y: int| !solves(y, r@, m@, nn) by {
                    if solves(y, r@, m@, nn) {
                        lemma_solves_prefix(y, r@, m@, k + 1, nn);
                    }
                }
            }
            return None;
        }
        let ghost mp0 = m_prod as int;
        let ghost x0 = x as int;
        proof {
            lemma_mod_abs(diff as int, mi as int);
        }
        let d = diff.checked_rem_euclid(mi).unwrap();
        let sd = s * d;
        let e = sd.checked_div_euclid(g).unwrap();
        x += m_prod * e;
        proof {
            let ua = abs(mp0);
            let ub = abs(mi as int);
            let gg = gcd_spec(ua, ub);
            lemma_gcd_pos(ua, ub);
            lemma_gcd_divides(ua, ub);
            lemma_divisor_le(gg as int, ua as int);
            lemma_divisor_le(gg as int, ub as int);
            assert(gg < 0x8000_0000_0000_0000) by {
                if gg >= 0x8000_0000_0000_0000 {
                    assert(ua * ub >= 0x8000_0000_0000_0000 * 0x8000_0000_0000_0000) by (nonlinear_arith)
                        requires
                            ua >= 0x8000_0000_0000_0000,
                            ub >= 0x8000_0000_0000_0000,
                    ;
                    lemma_mul_abs(mp0, mi as int);
                }
            }
            lemma_div_shrinks((mp0 * mi) as int, gg as int);
        }
        let gi = gcd_i64(m_prod, mi);
        m_prod = (m_prod * mi).checked_div_euclid(gi).unwrap();
        proof {
            assert(crt_step(x0, mp0, bi as int, mi as int) == Some((x as int, m_prod as int)));
        }
        k += 1;
    }
    proof {
        lemma_mod_abs(x as int, m_prod as int);
        if m_prod == -1 {
            assert(x == 0);
        }
    }
    let v = x.checked_rem_euclid(m_prod).unwrap();
    proof {
        let mp = abs(m_prod as int) as int;
        lemma_fundamental_div_mod(x as int, mp);
        let q = (x as int) / mp;
        lemma_mod_multiples_basic(q, mp);
        assert(v == (x as int) % mp);
        assert((x - v) as int == q * mp) by (nonlinear_arith)
            requires
                x == mp * q + v,
        ;
        assert(congruent(x as int, v as int, m_prod as int));
        assert forall|i: int| 0 <= i < nn implies #[trigger] congruent(
            v as int,
            r@[i] as int,
            m@[i] as int,
        ) by {
            let mi_abs = abs(m@[i] as int) as int;
            assert(congruent(x as int, r@[i] as int, m@[i] as int));
            assert(dvd(mi_abs, mp));
            lemma_dvd_trans(mi_abs, mp, (x - v) as int);
            lemma_dvd_linear(mi_abs, x - r@[i], (x - v) as int, 1, -1);
            assert((x - r@[i]) * 1 + (x - v) * (-1) == v - r@[i]);
        }
        assert(solves(v as int, r@, m@, nn));
        assert forall|y: int| solves(y, r@, m@, nn) implies congruent(
            y,
            v as int,
            lcm_prefix(m@, nn as nat),
        ) by {
            assert(congruent(y, x as int, m_prod as int));
            lemma_dvd_linear(mp, y - x, (x - v) as int, 1, 1);
            assert((y - x) * 1 + (x - v) * 1 == y - v);
        }
    }
    Some(v)
}

/// The first `k` steps of `crt` depend only on the first `k` pairs: slices
/// that agree there have the same state, fit condition and lcm after `k` steps.
pub proof fn lemma_crt_agree(r: Seq<i64>, m: Seq<i64>, r2: Seq<i64>, m2: Seq<i64>, k: nat)
    requires
        forall|i: int| 0 <= i < k ==> r[i] == r2[i] && m[i] == m2[i],
    ensures
        crt_state(r, m, k) == crt_state(r2, m2, k),
        crt_fits(r, m, k) == crt_fits(r2, m2, k),
        lcm_prefix(m, k) == lcm_prefix(m2, k),
        forall|y: int| solves(y, r, m, k as int) == solves(y, r2, m2, k as int),
    decreases k,
{
    if k > 0 {
        let k1 = (k - 1) as nat;
        assert(r[k1 as int] == r2[k1 as int] && m[k1 as int] == m2[k1 as int]);
        lemma_crt_agree(r, m, r2, m2, k1);
    }
    assert forall|y: int| solves(y, r, m, k as int) == solves(y, r2, m2, k as int) by {
        if solves(y, r, m, k as int) {
            assert forall|i: int| 0 <= i < k implies #[trigger] congruent(y, r2[i] as int, m2[i] as int) by {
                assert(congruent(y, r[i] as int, m[i] as int));
            }
        }
        if solves(y, r2, m2, k as int) {
            assert forall|i: int| 0 <= i < k implies #[trigger] congruent(y, r[i] as int, m[i] as int) by {
                assert(congruent(y, r2[i] as int, m2[i] as int));
            }
        }
    }
}

/// `crt` of two slices reads only the pairs below the shorter length: for
/// the slices cut to that length, its requirements and the result that its
/// contract describes are the same.
pub proof fn lemma_crt_cut(r: Seq<i64>, m: Seq<i64>)
    ensures
        ({
            let n = crt_len(r, m);
            let r2 = r.take(n as int);
            let m2 = m.take(n as int);
            &&& crt_len(r2, m2) == n
            &&& crt_fits(r, m, n) == crt_fits(r2, m2, n)
            &&& lcm_prefix(m, n) == lcm_prefix(m2, n)
            &&& forall|y: int| solves(y, r, m, n as int) == solves(y, r2, m2, n as int)
            &&& (forall|i: int| 0 <= i < n ==> m[i] != 0) == (forall|i: int| 0 <= i < n ==> m2[i] != 0)
        }),
{
    let n = crt_len(r, m);
    let r2 = r.take(n as int);
    let m2 = m.take(n as int);
    assert(r2.len() == n && m2.len() == n);
    assert(forall|i: int| 0 <= i < n ==> r[i] == r2[i] && m[i] == m2[i]);
    lemma_crt_agree(r, m, r2, m2, n);
    assert((forall|i: int| 0 <= i < n ==> m[i] != 0) == (forall|i: int| 0 <= i < n ==> m2[i] != 0));
}

/// Only one value meets the `Some` part of `crt`'s contract: a solution in
/// `[0, L)` to which every solution is congruent modulo `L`, where `L` is the
/// least common multiple of the moduli.
pub proof fn lemma_crt_result_unique(r: Seq<i64>, m: Seq<i64>, n: int, v1: int, v2: int)
    requires
        0 <= v1 < lcm_prefix(m, n as nat),
        0 <= v2 < lcm_prefix(m, n as nat),
        solves(v1, r, m, n),
        forall|y: int| solves(y, r, m, n) ==> congruent(y, v2, lcm_prefix(m, n as nat)),
    ensures
        v1 == v2,
{
    let l = lcm_prefix(m, n as nat);
    assert(congruent(v1, v2, l));
    assert(abs(l) == l);
    if v1 >= v2 {
        lemma_small_mod((v1 - v2) as nat, l as nat);
    } else {
        lemma_dvd_linear(l, v1 - v2, 0, -1, 0);
        assert((v1 - v2) * (-1) + 0 * 0 == v2 - v1);
        lemma_small_mod((v2 - v1) as nat, l as nat);
    }
}

/// What `lcm(x, y)` returns for positive `x` and `y` is a common multiple of
/// both that divides every common multiple.
pub proof fn lemma_lcm_least(x: nat, y: nat, l: int)
    requires
        x > 0,
        y > 0,
        l % (x as int) == 0,
        l % (y as int) == 0,
    ensures
        ((x / gcd_spec(x, y) * y) as int) % (x as int) == 0,
        ((x / gcd_spec(x, y) * y) as int) % (y as int) == 0,
        l % ((x / gcd_spec(x, y) * y) as int) == 0,
{
    let g = gcd_spec(x, y);
    lemma_gcd_pos(x, y);
    lemma_gcd_divides(x, y);
    lemma_ext_gcd_spec(x as int, y as int);
    let (g2, s, t) = ext_gcd_spec(x as int, y as int);
    assert(g2 == g);
    lemma_lcm_divides(x as int, y as int, g as int, s, t, l);
    lemma_fundamental_div_mod(x as int, g as int);
    let q = x / g;
    assert(((x * y) as int) / (g as int) == q * y) by {
        assert(x * y == (q * y) * g) by (nonlinear_arith)
            requires
                x == g * q + 0,
        ;
        lemma_div_multiples_vanish((q * y) as int, g as int);
        assert((q * y) * g == g * (q * y)) by (nonlinear_arith);
    }
}

} // verus!
