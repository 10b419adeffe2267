//! How far a rounded result lies from the exact one.
//!
//! A result that is neither too small nor too large for a normal scalar is
//! rounded by at most one part in 2<sup>24</sup>. Two quantities of which
//! neither exceeds the other by more than `k` steps of one part in
//! 2<sup>23</sup> are called close to the degree `k`; the relation is kept
//! by sums, products and square roots, which is how the error of a whole
//! computation is bounded.

use crate::order::{lemma_nearest_monotone, lemma_round_exact};
use crate::round::{
    gap,
    lemma_nearest_root_rounds,
    lemma_nearest_rounds,
    lemma_pattern_units,
    lemma_round_zero,
    lemma_rounds_unique,
    rounds,
};
use crate::scalar::{lemma_magnitude_order, Scalar, FRACTIONS, INFINITY_BITS, ONE_BITS};
use crate::vec::Vec3;
use vstd::arithmetic::power::{lemma_pow0, lemma_pow1, lemma_pow_adds, lemma_pow_positive, pow};
use vstd::arithmetic::power2::{lemma2_to64, lemma_pow2_adds, lemma_pow2_pos, pow2};
use vstd::prelude::*;

verus! {

/// 2<sup>23</sup>: one part in so many is the step of the relation.
pub open spec fn parts() -> int {
    0x80_0000
}

/// `a` and `b` are not negative, and neither exceeds the other by more than
/// `k` times one part in 2<sup>23</sup>, compounded:
/// `a <= b * (1 + 2^-23)^k` and `b <= a * (1 + 2^-23)^k`.
pub open spec fn close(a: int, b: int, k: nat) -> bool {
    &&& 0 <= a
    &&& 0 <= b
    &&& a * pow(parts(), k) <= b * pow(parts() + 1, k)
    &&& b * pow(parts(), k) <= a * pow(parts() + 1, k)
}

/// The two factors of the relation are positive, and the lower one is not
/// the greater.
pub proof fn lemma_factors(k: nat)
    ensures
        0 < pow(parts(), k) <= pow(parts() + 1, k),
    decreases k,
{
    lemma_pow_positive(parts(), k);
    lemma_pow_positive(parts() + 1, k);
    if k == 0 {
        lemma_pow0(parts());
        lemma_pow0(parts() + 1);
    } else {
        lemma_factors((k - 1) as nat);
        lemma_pow_adds(parts(), 1, (k - 1) as nat);
        lemma_pow_adds(parts() + 1, 1, (k - 1) as nat);
        lemma_pow1(parts());
        lemma_pow1(parts() + 1);
        let lo = pow(parts(), (k - 1) as nat);
        let hi = pow(parts() + 1, (k - 1) as nat);
        assert(parts() * lo <= (parts() + 1) * hi) by (nonlinear_arith)
            requires
                0 < lo <= hi,
                parts() > 0,
        ;
    }
}

/// Every quantity that is not negative is close to itself.
pub proof fn lemma_close_self(a: int, k: nat)
    requires
        0 <= a,
    ensures
        close(a, a, k),
{
    lemma_factors(k);
    let lo = pow(parts(), k);
    let hi = pow(parts() + 1, k);
    assert(a * lo <= a * hi) by (nonlinear_arith)
        requires
            0 <= a,
            lo <= hi,
    ;
}

/// What is close to a degree is close to every higher degree.
pub proof fn lemma_close_weaken(a: int, b: int, k: nat, j: nat)
    requires
        close(a, b, k),
        k <= j,
    ensures
        close(a, b, j),
{
    lemma_factors(k);
    lemma_factors((j - k) as nat);
    lemma_pow_adds(parts(), k, (j - k) as nat);
    lemma_pow_adds(parts() + 1, k, (j - k) as nat);
    let lo = pow(parts(), k);
    let hi = pow(parts() + 1, k);
    let lo2 = pow(parts(), (j - k) as nat);
    let hi2 = pow(parts() + 1, (j - k) as nat);
    assert(a * (lo * lo2) <= b * (hi * hi2) && b * (lo * lo2) <= a * (hi * hi2))
        by (nonlinear_arith)
        requires
            0 <= a,
            0 <= b,
            a * lo <= b * hi,
            b * lo <= a * hi,
            0 < lo2 <= hi2,
            0 < hi,
    ;
}

/// Closeness carries over, and the degrees add up.
pub proof fn lemma_close_chain(a: int, b: int, c: int, k: nat, j: nat)
    requires
        close(a, b, k),
        close(b, c, j),
    ensures
        close(a, c, k + j),
{
    lemma_factors(k);
    lemma_factors(j);
    lemma_pow_adds(parts(), k, j);
    lemma_pow_adds(parts() + 1, k, j);
    let lo = pow(parts(), k);
    let hi = pow(parts() + 1, k);
    let lo2 = pow(parts(), j);
    let hi2 = pow(parts() + 1, j);
    assert(a * (lo * lo2) <= c * (hi * hi2)) by (nonlinear_arith)
        requires
            a * lo <= b * hi,
            b * lo2 <= c * hi2,
            0 < lo2,
            0 < hi,
    ;
    assert(c * (lo * lo2) <= a * (hi * hi2)) by (nonlinear_arith)
        requires
            b * lo <= a * hi,
            c * lo2 <= b * hi2,
            0 < lo,
            0 < hi2,
    ;
}

/// Sums of close quantities are close.
pub proof fn lemma_close_sum(a: int, b: int, c: int, d: int, k: nat)
    requires
        close(a, b, k),
        close(c, d, k),
    ensures
        close(a + c, b + d, k),
{
    let lo = pow(parts(), k);
    let hi = pow(parts() + 1, k);
    assert((a + c) * lo == a * lo + c * lo && (b + d) * hi == b * hi + d * hi && (b + d) * lo == b
        * lo + d * lo && (a + c) * hi == a * hi + c * hi) by (nonlinear_arith);
}

/// Products of close quantities are close, and the degrees add up.
pub proof fn lemma_close_product(a: int, b: int, k: nat, c: int, d: int, j: nat)
    requires
        close(a, b, k),
        close(c, d, j),
    ensures
        close(a * c, b * d, k + j),
{
    lemma_factors(k);
    lemma_factors(j);
    lemma_pow_adds(parts(), k, j);
    lemma_pow_adds(parts() + 1, k, j);
    let lo = pow(parts(), k);
    let hi = pow(parts() + 1, k);
    let lo2 = pow(parts(), j);
    let hi2 = pow(parts() + 1, j);
    assert((a * c) * (lo * lo2) == (a * lo) * (c * lo2) && (b * d) * (hi * hi2) == (b * hi) * (d
        * hi2) && (b * d) * (lo * lo2) == (b * lo) * (d * lo2) && (a * c) * (hi * hi2) == (a * hi)
        * (c * hi2)) by (nonlinear_arith);
    assert((a * lo) * (c * lo2) <= (b * hi) * (d * hi2)) by (nonlinear_arith)
        requires
            0 <= a * lo <= b * hi,
            0 <= c * lo2 <= d * hi2,
    ;
    assert((b * lo) * (d * lo2) <= (a * hi) * (c * hi2)) by (nonlinear_arith)
        requires
            0 <= b * lo <= a * hi,
            0 <= d * lo2 <= c * hi2,
    ;
    assert(0 <= a * lo && 0 <= c * lo2 && 0 <= b * lo && 0 <= d * lo2 && 0 <= a * c && 0 <= b * d)
        by (nonlinear_arith)
        requires
            0 <= a,
            0 <= b,
            0 <= c,
            0 <= d,
            0 < lo,
            0 < lo2,
    ;
}

/// A common factor does not change closeness.
pub proof fn lemma_close_scale(a: int, b: int, k: nat, t: int)
    requires
        close(a, b, k),
        0 <= t,
    ensures
        close(a * t, b * t, k),
{
    lemma_close_self(t, 0);
    lemma_close_product(a, b, k, t, t, 0);
}

/// A common factor can be taken away.
pub proof fn lemma_close_cancel(a: int, b: int, k: nat, t: int)
    requires
        close(a * t, b * t, k),
        0 < t,
        0 <= a,
        0 <= b,
    ensures
        close(a, b, k),
{
    let lo = pow(parts(), k);
    let hi = pow(parts() + 1, k);
    assert(a * lo <= b * hi) by (nonlinear_arith)
        requires
            (a * t) * lo <= (b * t) * hi,
            0 < t,
    ;
    assert(b * lo <= a * hi) by (nonlinear_arith)
        requires
            (b * t) * lo <= (a * t) * hi,
            0 < t,
    ;
}

/// Quantities whose squares are close to an even degree are close to half
/// that degree.
pub proof fn lemma_close_root(a: int, b: int, k: nat)
    requires
        0 <= a,
        0 <= b,
        close(a * a, b * b, 2 * k),
    ensures
        close(a, b, k),
{
    lemma_factors(k);
    lemma_pow_adds(parts(), k, k);
    lemma_pow_adds(parts() + 1, k, k);
    let lo = pow(parts(), k);
    let hi = pow(parts() + 1, k);
    assert((a * a) * (lo * lo) == (a * lo) * (a * lo) && (b * b) * (hi * hi) == (b * hi) * (b * hi)
        && (b * b) * (lo * lo) == (b * lo) * (b * lo) && (a * a) * (hi * hi) == (a * hi) * (a * hi))
        by (nonlinear_arith);
    assert(0 <= a * lo && 0 <= b * hi && 0 <= b * lo && 0 <= a * hi) by (nonlinear_arith)
        requires
            0 <= a,
            0 <= b,
            0 < lo,
            0 < hi,
    ;
    crate::round::lemma_square_order(a * lo, b * hi);
    crate::round::lemma_square_order(b * lo, a * hi);
}

/// The scalar of `2^a` units, for a normal power of two.
pub open spec fn power_of_two(a: nat) -> Scalar {
    Scalar { bits: ((a - 23) * FRACTIONS + FRACTIONS) as u32 }
}

/// A power of two from `2^23` to `2^276` units is a scalar.
pub proof fn lemma_power_of_two(a: nat)
    requires
        23 <= a <= 276,
    ensures
        power_of_two(a).magnitude() == pow2(a),
        !power_of_two(a).sign(),
        power_of_two(a).is_finite_spec(),
        power_of_two(a).abs_bits() >= FRACTIONS,
{
    lemma2_to64();
    lemma_pattern_units((a - 23) as nat, FRACTIONS as nat);
    lemma_pow2_adds(23, (a - 23) as nat);
}

/// Around a normal scalar the scalars lie no farther apart than one part
/// in 2<sup>23</sup> of it.
pub proof fn lemma_spacing(r: Scalar)
    requires
        FRACTIONS <= r.abs_bits() < INFINITY_BITS,
    ensures
        ({
            let up = Scalar { bits: (r.abs_bits() + 1) as u32 };
            let down = Scalar { bits: (r.abs_bits() - 1) as u32 };
            let step = pow2((r.exponent() - 1) as nat);
            &&& !up.is_nan_spec()
            &&& !down.is_nan_spec()
            &&& up.magnitude() == r.magnitude() + step
            &&& r.magnitude() - step <= down.magnitude() < r.magnitude()
            &&& parts() * step <= r.magnitude()
            &&& 0 < step
        }),
{
    let e = r.exponent();
    let f = r.fraction();
    let k = (e - 1) as nat;
    let q = (FRACTIONS + f) as nat;
    let b = r.abs_bits();
    assert(b == e * FRACTIONS + f);
    lemma_pow2_pos(k);
    lemma_pattern_units(k, q);
    lemma_pattern_units(k, q + 1);
    let step = pow2(k) as int;
    assert((q + 1) * pow2(k) == q * pow2(k) + step) by (nonlinear_arith)
        requires
            step == pow2(k),
    ;
    assert(parts() * step <= q * pow2(k)) by (nonlinear_arith)
        requires
            step == pow2(k),
            q >= parts(),
            step > 0,
    ;
    let here = Scalar { bits: (k * FRACTIONS + q) as u32 };
    assert(here.bits == b);
    assert(here.magnitude() == r.magnitude());
    if f > 0 {
        lemma_pattern_units(k, (q - 1) as nat);
        assert((q - 1) * pow2(k) == q * pow2(k) - step) by (nonlinear_arith)
            requires
                step == pow2(k),
        ;
    } else if k == 0 {
        lemma2_to64();
        let down = Scalar { bits: (b - 1) as u32 };
        assert(down.exponent() == 0);
        assert(down.fraction() == FRACTIONS - 1);
    } else {
        lemma_pattern_units((k - 1) as nat, (2 * FRACTIONS - 1) as nat);
        vstd::arithmetic::power2::lemma_pow2_unfold(k);
        let less = pow2((k - 1) as nat) as int;
        assert((2 * FRACTIONS - 1) * less == q * (2 * less) - less && less <= 2 * less)
            by (nonlinear_arith)
            requires
                q == FRACTIONS,
                less >= 0,
        ;
        lemma_pow2_pos((k - 1) as nat);
    }
}

/// Rounding leaves a result between the powers of two that it lies
/// between.
pub proof fn lemma_round_keeps_bounds(r: Scalar, negative: bool, num: int, den: int, a: nat, b: nat)
    requires
        den > 0,
        rounds(r, negative, num, den),
        23 <= a <= 276,
        23 <= b <= 276,
        pow2(a) * den <= num <= pow2(b) * den,
    ensures
        pow2(a) <= r.magnitude() <= pow2(b),
        FRACTIONS <= r.abs_bits() < INFINITY_BITS,
{
    crate::round::lemma_rounds_is_nearest(r, negative, num, den);
    lemma_power_of_two(a);
    lemma_power_of_two(b);
    lemma_power_of_two(23);
    lemma_power_of_two(276);
    lemma_pow2_pos(a);
    lemma_pow2_pos(b);
    lemma_round_exact(power_of_two(a), den);
    lemma_round_exact(power_of_two(b), den);
    lemma_nearest_monotone(false, pow2(a) * den, negative, num, den);
    lemma_nearest_monotone(negative, num, false, pow2(b) * den, den);
    lemma_magnitude_order(power_of_two(23), power_of_two(a));
    lemma_magnitude_order(power_of_two(a), power_of_two(23));
    lemma_magnitude_order(power_of_two(b), power_of_two(276));
    lemma_magnitude_order(power_of_two(276), power_of_two(b));
    lemma_magnitude_order(r, power_of_two(23));
    lemma_magnitude_order(power_of_two(23), r);
    lemma_magnitude_order(r, power_of_two(276));
    lemma_magnitude_order(power_of_two(276), r);
    assert(0 <= pow2(a) * den) by (nonlinear_arith)
        requires
            pow2(a) > 0,
            den > 0,
    ;
}

/// A rounded result is close to the exact one, where that one is neither
/// too small for a normal scalar nor too large for a finite one.
pub proof fn lemma_rounding_error(r: Scalar, negative: bool, num: int, den: int)
    requires
        den > 0,
        rounds(r, negative, num, den),
        pow2(23) * den <= num <= pow2(276) * den,
    ensures
        close(r.magnitude() * den, num, 1),
        pow2(23) <= r.magnitude() <= pow2(276),
{
    lemma_round_keeps_bounds(r, negative, num, den, 23, 276);
    lemma_spacing(r);
    let up = Scalar { bits: (r.abs_bits() + 1) as u32 };
    let down = Scalar { bits: (r.abs_bits() - 1) as u32 };
    let step = pow2((r.exponent() - 1) as nat) as int;
    let here = r.magnitude() * den;
    let above = up.magnitude() * den;
    let below = down.magnitude() * den;
    let room = step * den;
    assert(gap(r, num, den) <= gap(up, num, den));
    assert(gap(r, num, den) <= gap(down, num, den));
    assert(above == here + room && here - room <= below < here && parts() * room <= here && 0
        <= here) by (nonlinear_arith)
        requires
            up.magnitude() == r.magnitude() + step,
            r.magnitude() - step <= down.magnitude() < r.magnitude(),
            parts() * step <= r.magnitude(),
            here == r.magnitude() * den,
            above == up.magnitude() * den,
            below == down.magnitude() * den,
            room == step * den,
            den > 0,
    ;
    assert(2 * (num - here) <= room && 2 * (here - num) <= room);
    lemma_pow1(parts());
    lemma_pow1(parts() + 1);
    lemma2_to64();
    lemma_pow2_pos(23);
    assert(0 <= num) by (nonlinear_arith)
        requires
            pow2(23) * den <= num,
            pow2(23) > 0,
            den > 0,
    ;
}

/// A rounded square root is close to the exact one: their squares are close
/// to the second degree.
pub proof fn lemma_root_error(r: Scalar, n: int)
    requires
        crate::round::rounds_root(r, n),
        pow2(46) <= n <= pow2(552),
    ensures
        close((r.magnitude() * r.magnitude()) as int, n, 2),
        pow2(23) <= r.magnitude() <= pow2(276),
{
    let low = power_of_two(23);
    let high = power_of_two(276);
    lemma_power_of_two(23);
    lemma_power_of_two(276);
    lemma2_to64();
    lemma_pow2_adds(23, 23);
    lemma_pow2_adds(276, 276);
    let m = r.magnitude() as int;
    let lo = pow2(23) as int;
    let hi = pow2(276) as int;
    assert(crate::round::root_side(r, low, n) == (m + lo) * (m + lo) - 4 * n);
    assert(crate::round::root_side(r, high, n) == (m + hi) * (m + hi) - 4 * n);
    if m < lo {
        crate::round::lemma_square_order(m + lo, 2 * lo);
        assert((2 * lo) * (2 * lo) == 4 * (lo * lo)) by (nonlinear_arith);
        assert(false);
    }
    if m > hi {
        crate::round::lemma_square_order(2 * hi, m + hi);
        assert((2 * hi) * (2 * hi) == 4 * (hi * hi)) by (nonlinear_arith);
        assert(false);
    }
    lemma_magnitude_order(r, low);
    lemma_magnitude_order(low, r);
    lemma_magnitude_order(r, high);
    lemma_magnitude_order(high, r);
    lemma_spacing(r);
    let up = Scalar { bits: (r.abs_bits() + 1) as u32 };
    let down = Scalar { bits: (r.abs_bits() - 1) as u32 };
    let step = pow2((r.exponent() - 1) as nat) as int;
    let above = up.magnitude() as int;
    let below = down.magnitude() as int;
    assert(crate::round::root_side(r, up, n) >= 0);
    assert(crate::round::root_side(r, down, n) <= 0);
    // (2m - step)^2 <= 4n <= (2m + step)^2
    crate::round::lemma_square_order(2 * m - step, m + below);
    assert((2 * m - step) * (2 * m - step) <= 4 * n <= (2 * m + step) * (2 * m + step));
    let b = parts();
    lemma_pow_adds(b, 1, 1);
    lemma_pow_adds(b + 1, 1, 1);
    lemma_pow1(b);
    lemma_pow1(b + 1);
    // 2 m b <= (2m - step)(b + 1) and (2m + step) b <= 2 m (b + 1)
    assert(0 <= 2 * m * b <= (2 * m - step) * (b + 1) && 0 <= (2 * m + step) * b <= 2 * m * (b
        + 1)) by (nonlinear_arith)
        requires
            b * step <= m,
            0 < step,
            b == 0x80_0000,
            0 <= m,
    ;
    crate::round::lemma_square_order(2 * m * b, (2 * m - step) * (b + 1));
    crate::round::lemma_square_order((2 * m + step) * b, 2 * m * (b + 1));
    assert((m * m) * (b * b) <= n * ((b + 1) * (b + 1))) by (nonlinear_arith)
        requires
            (2 * m * b) * (2 * m * b) <= ((2 * m - step) * (b + 1)) * ((2 * m - step) * (b + 1)),
            (2 * m - step) * (2 * m - step) <= 4 * n,
            b > 0,
    ;
    assert(n * (b * b) <= (m * m) * ((b + 1) * (b + 1))) by (nonlinear_arith)
        requires
            ((2 * m + step) * b) * ((2 * m + step) * b) <= (2 * m * (b + 1)) * (2 * m * (b + 1)),
            4 * n <= (2 * m + step) * (2 * m + step),
            b > 0,
    ;
    lemma_pow2_pos(46);
    assert(0 <= m * m) by (nonlinear_arith);
}

/// The compounded factor stays below `1 / (1 - k / 2^23)`.
proof fn lemma_factor_bound(k: nat)
    requires
        k < parts(),
    ensures
        pow(parts() + 1, k) * (parts() - k) <= pow(parts(), k) * parts(),
    decreases k,
{
    let b = parts();
    if k == 0 {
        lemma_pow0(b);
        lemma_pow0(b + 1);
    } else {
        lemma_factor_bound((k - 1) as nat);
        lemma_factors((k - 1) as nat);
        lemma_pow_adds(b, 1, (k - 1) as nat);
        lemma_pow_adds(b + 1, 1, (k - 1) as nat);
        lemma_pow1(b);
        lemma_pow1(b + 1);
        let lo = pow(b, (k - 1) as nat);
        let hi = pow(b + 1, (k - 1) as nat);
        assert(((b + 1) * hi) * (b - k) <= (b * lo) * b) by (nonlinear_arith)
            requires
                hi * (b - (k - 1)) <= lo * b,
                0 < hi,
                0 < lo,
                0 < k < b,
                b == 0x80_0000,
        ;
    }
}

/// Quantities that are close to a moderate degree differ by less than a
/// factor of two.
pub proof fn lemma_close_within_double(a: int, b: int, k: nat)
    requires
        close(a, b, k),
        k <= 64,
    ensures
        a <= 2 * b,
        b <= 2 * a,
{
    lemma_factor_bound(k);
    lemma_factors(k);
    let lo = pow(parts(), k);
    let hi = pow(parts() + 1, k);
    assert(hi <= 2 * lo) by (nonlinear_arith)
        requires
            hi * (parts() - k) <= lo * parts(),
            k <= 64,
            parts() == 0x80_0000,
            0 < lo,
            0 < hi,
    ;
    assert(a <= 2 * b && b <= 2 * a) by (nonlinear_arith)
        requires
            a * lo <= b * hi,
            b * lo <= a * hi,
            hi <= 2 * lo,
            0 < lo,
            0 <= a,
            0 <= b,
    ;
}

/// A scalar that is zero, or finite with a magnitude from `2^a` to `2^b`
/// units.
pub open spec fn within(x: Scalar, a: nat, b: nat) -> bool {
    &&& x.is_finite_spec()
    &&& x.magnitude() == 0 || pow2(a) <= x.magnitude() <= pow2(b)
}

/// The product of two scalars within bounds is close to the exact product
/// and lies within the bounds that follow.
pub proof fn lemma_product_close(x: Scalar, y: Scalar, ax: nat, bx: nat, ay: nat, by: nat)
    requires
        within(x, ax, bx),
        within(y, ay, by),
        ax + ay >= 172,
        bx + by <= 425,
        ax <= bx,
        ay <= by,
    ensures
        within(x.mul_spec(y), (ax + ay - 149) as nat, (bx + by - 149) as nat),
        x.mul_spec(y).sign() == (x.sign() != y.sign()),
        x.mul_spec(y).magnitude() == 0 <==> x.magnitude() == 0 || y.magnitude() == 0,
        close(
            (x.mul_spec(y).magnitude() * pow2(149)) as int,
            (x.magnitude() * y.magnitude()) as int,
            1,
        ),
{
    let u = pow2(149) as int;
    let p = x.mul_spec(y);
    let num = (x.magnitude() * y.magnitude()) as int;
    let negative = x.sign() != y.sign();
    lemma_pow2_pos(149);
    lemma_nearest_rounds(negative, num, u);
    lemma_magnitude_order(p, Scalar { bits: 0 });
    if x.magnitude() == 0 || y.magnitude() == 0 {
        assert(num == 0) by (nonlinear_arith)
            requires
                num == x.magnitude() * y.magnitude(),
                x.magnitude() == 0 || y.magnitude() == 0,
        ;
        let z = crate::arith::zero(negative);
        lemma_round_zero(z, negative, u);
        lemma_rounds_unique(p, z, negative, num, u);
        assert(p.magnitude() * pow2(149) == 0) by (nonlinear_arith)
            requires
                p.magnitude() == 0,
        ;
        lemma_close_self(0, 1);
    } else {
        let lo = (ax + ay - 149) as nat;
        let hi = (bx + by - 149) as nat;
        lemma_pow2_adds(ax, ay);
        lemma_pow2_adds(bx, by);
        lemma_pow2_adds(lo, 149);
        lemma_pow2_adds(hi, 149);
        lemma_pow2_pos(ax);
        lemma_pow2_pos(ay);
        assert(pow2(lo) * u <= num <= pow2(hi) * u) by (nonlinear_arith)
            requires
                num == x.magnitude() * y.magnitude(),
                pow2(ax) <= x.magnitude() <= pow2(bx),
                pow2(ay) <= y.magnitude() <= pow2(by),
                pow2(lo) * u == pow2(ax) * pow2(ay),
                pow2(hi) * u == pow2(bx) * pow2(by),
                pow2(ax) > 0,
                pow2(ay) > 0,
        ;
        lemma_round_keeps_bounds(p, negative, num, u, lo, hi);
        lemma_bounds_in_range(lo, hi, num, u);
        lemma_rounding_error(p, negative, num, u);
        lemma_pow2_pos(lo);
    }
}

/// A result between normal powers of two is in the range of
/// `lemma_rounding_error`.
proof fn lemma_bounds_in_range(a: nat, b: nat, num: int, den: int)
    requires
        23 <= a,
        b <= 276,
        den > 0,
        pow2(a) * den <= num <= pow2(b) * den,
    ensures
        pow2(23) * den <= num <= pow2(276) * den,
{
    if a > 23 {
        vstd::arithmetic::power2::lemma_pow2_strictly_increases(23, a);
    }
    if b < 276 {
        vstd::arithmetic::power2::lemma_pow2_strictly_increases(b, 276);
    }
    assert(pow2(23) * den <= pow2(a) * den && pow2(b) * den <= pow2(276) * den)
        by (nonlinear_arith)
        requires
            pow2(23) <= pow2(a),
            pow2(b) <= pow2(276),
            den > 0,
    ;
}

/// The sum of two scalars that are not negative and lie within bounds is
/// close to the exact sum and lies within the bounds that follow.
pub proof fn lemma_sum_close(x: Scalar, y: Scalar, a: nat, b: nat)
    requires
        within(x, a, b),
        within(y, a, b),
        !x.sign(),
        !y.sign(),
        23 <= a <= b,
        b <= 275,
    ensures
        within(x.add_spec(y), a, b + 1),
        !x.add_spec(y).sign(),
        x.add_spec(y).magnitude() == 0 <==> x.magnitude() == 0 && y.magnitude() == 0,
        close(x.add_spec(y).magnitude() as int, (x.magnitude() + y.magnitude()) as int, 1),
{
    let s = x.add_spec(y);
    let sum = x.units() + y.units();
    lemma_magnitude_order(s, Scalar { bits: 0 });
    if sum == 0 {
        lemma_close_self(0, 1);
    } else {
        lemma_nearest_rounds(false, sum, 1);
        vstd::arithmetic::power2::lemma_pow2_unfold(b + 1);
        lemma_pow2_pos(a);
        assert(pow2(a) * 1 <= sum <= pow2(b + 1) * 1);
        lemma_round_keeps_bounds(s, false, sum, 1, a, b + 1);
        lemma_bounds_in_range(a, b + 1, sum, 1);
        lemma_rounding_error(s, false, sum, 1);
        assert(s.magnitude() * 1 == s.magnitude());
    }
}

/// Wider bounds hold as well.
pub proof fn lemma_within_wider(x: Scalar, a: nat, b: nat, c: nat, d: nat)
    requires
        within(x, a, b),
        c <= a,
        b <= d,
    ensures
        within(x, c, d),
{
    if c < a {
        vstd::arithmetic::power2::lemma_pow2_strictly_increases(c, a);
    }
    if b < d {
        vstd::arithmetic::power2::lemma_pow2_strictly_increases(b, d);
    }
}

/// The sum of the squares of the magnitudes of the components, in square
/// units.
pub open spec fn square_sum(v: Vec3) -> int {
    (v.0[0].magnitude() * v.0[0].magnitude() + v.0[1].magnitude() * v.0[1].magnitude()
        + v.0[2].magnitude() * v.0[2].magnitude()) as int
}

/// Every component lies within the bounds.
pub open spec fn all_within(v: Vec3, a: nat, b: nat) -> bool {
    within(v.0[0], a, b) && within(v.0[1], a, b) && within(v.0[2], a, b)
}

/// Every component is zero.
pub open spec fn is_zero(v: Vec3) -> bool {
    v.0[0].magnitude() == 0 && v.0[1].magnitude() == 0 && v.0[2].magnitude() == 0
}

/// The square of the length of a vector within bounds is close to the
/// exact one, to the third degree.
pub proof fn lemma_len_square_close(v: Vec3, a: nat, b: nat)
    requires
        all_within(v, a, b),
        86 <= a <= b,
        b <= 211,
    ensures
        within(v.len_square_spec(), (2 * a - 149) as nat, (2 * b - 147) as nat),
        !v.len_square_spec().sign(),
        v.len_square_spec().magnitude() == 0 <==> is_zero(v),
        close((v.len_square_spec().magnitude() * pow2(149)) as int, square_sum(v), 3),
{
    let u = pow2(149) as int;
    let x = v.0[0];
    let y = v.0[1];
    let z = v.0[2];
    let lo = (2 * a - 149) as nat;
    let hi = (2 * b - 149) as nat;
    lemma_product_close(x, x, a, b, a, b);
    lemma_product_close(y, y, a, b, a, b);
    lemma_product_close(z, z, a, b, a, b);
    let qx = x.mul_spec(x);
    let qy = y.mul_spec(y);
    let qz = z.mul_spec(z);
    lemma_sum_close(qx, qy, lo, hi);
    let first = qx.add_spec(qy);
    lemma_within_wider(qz, lo, hi, lo, hi + 1);
    lemma_sum_close(first, qz, lo, hi + 1);
    let s = first.add_spec(qz);
    assert(s == v.len_square_spec());
    lemma_pow2_pos(149);
    assert(x.magnitude() * x.magnitude() == 0 <==> x.magnitude() == 0) by (nonlinear_arith);
    // the first two squares
    let ex = (x.magnitude() * x.magnitude()) as int;
    let ey = (y.magnitude() * y.magnitude()) as int;
    let ez = (z.magnitude() * z.magnitude()) as int;
    lemma_close_sum((qx.magnitude() * u) as int, ex, (qy.magnitude() * u) as int, ey, 1);
    lemma_close_scale(first.magnitude() as int, (qx.magnitude() + qy.magnitude()) as int, 1, u);
    assert((qx.magnitude() + qy.magnitude()) * u == qx.magnitude() * u + qy.magnitude() * u)
        by (nonlinear_arith);
    lemma_close_chain(
        first.magnitude() * u,
        (qx.magnitude() + qy.magnitude()) * u,
        ex + ey,
        1,
        1,
    );
    // and the third
    lemma_close_weaken((qz.magnitude() * u) as int, ez, 1, 2);
    lemma_close_sum(first.magnitude() * u, ex + ey, (qz.magnitude() * u) as int, ez, 2);
    lemma_close_scale(s.magnitude() as int, (first.magnitude() + qz.magnitude()) as int, 1, u);
    assert((first.magnitude() + qz.magnitude()) * u == first.magnitude() * u + qz.magnitude() * u)
        by (nonlinear_arith);
    lemma_close_chain(
        s.magnitude() * u,
        (first.magnitude() + qz.magnitude()) * u,
        ex + ey + ez,
        1,
        2,
    );
}

/// The square root of a positive scalar within bounds: its square is close
/// to the radicand, and it lies within the bounds that follow.
pub proof fn lemma_root_close(s: Scalar, a: nat, b: nat)
    requires
        within(s, a, b),
        s.magnitude() != 0,
        !s.sign(),
        23 <= a <= b,
        b <= 276,
    ensures
        within(s.sqrt_spec(), ((a + 147) / 2) as nat, ((b + 151) / 2) as nat),
        s.sqrt_spec().magnitude() != 0,
        !s.sqrt_spec().sign(),
        close(
            (s.sqrt_spec().magnitude() * s.sqrt_spec().magnitude()) as int,
            (s.magnitude() * pow2(149)) as int,
            2,
        ),
{
    let u = pow2(149) as int;
    let n = (s.magnitude() * pow2(149)) as int;
    let l = s.sqrt_spec();
    let m = l.magnitude() as int;
    let lo = ((a + 147) / 2) as nat;
    let hi = ((b + 151) / 2) as nat;
    lemma_nearest_root_rounds(n);
    lemma_pow2_pos(149);
    lemma_pow2_adds(a, 149);
    lemma_pow2_adds(b, 149);
    lemma_pow2_pos(a);
    assert(pow2(a + 149) <= n <= pow2(b + 149)) by (nonlinear_arith)
        requires
            n == s.magnitude() * u,
            pow2(a) <= s.magnitude() <= pow2(b),
            pow2(a + 149) == pow2(a) * u,
            pow2(b + 149) == pow2(b) * u,
            u > 0,
    ;
    if a + 149 > 46 {
        vstd::arithmetic::power2::lemma_pow2_strictly_increases(46, a + 149);
    }
    if b + 149 < 552 {
        vstd::arithmetic::power2::lemma_pow2_strictly_increases(b + 149, 552);
    }
    lemma_root_error(l, n);
    lemma_close_within_double(m * m, n, 2);
    lemma_power_of_two(23);
    lemma_magnitude_order(l, power_of_two(23));
    lemma_magnitude_order(power_of_two(23), l);
    lemma_power_of_two(276);
    lemma_magnitude_order(l, power_of_two(276));
    lemma_magnitude_order(power_of_two(276), l);
    // 2^(2 lo) <= 2^(a + 148) <= 2 m^2, and m^2 <= 2 n <= 2^(b + 150) <= 2^(2 hi)
    lemma_pow2_adds(lo, lo);
    lemma_pow2_adds(hi, hi);
    vstd::arithmetic::power2::lemma_pow2_unfold(a + 149);
    vstd::arithmetic::power2::lemma_pow2_unfold(b + 150);
    if 2 * lo < a + 148 {
        vstd::arithmetic::power2::lemma_pow2_strictly_increases(2 * lo, a + 148);
    }
    if b + 150 < 2 * hi {
        vstd::arithmetic::power2::lemma_pow2_strictly_increases(b + 150, 2 * hi);
    }
    lemma_pow2_pos(lo);
    lemma_pow2_pos(hi);
    crate::round::lemma_square_order(pow2(lo) as int, m);
    crate::round::lemma_square_order(m, pow2(hi) as int);
}

/// One over a scalar within bounds: its product with the scalar is close to
/// one, and it lies within the bounds that follow.
pub proof fn lemma_reciprocal_close(l: Scalar, a: nat, b: nat)
    requires
        within(l, a, b),
        l.magnitude() != 0,
        22 <= a <= b,
        b <= 275,
    ensures
        ({
            let k = (Scalar { bits: ONE_BITS }).div_spec(l);
            &&& within(k, (298 - b) as nat, (298 - a) as nat)
            &&& k.magnitude() != 0
            &&& k.sign() == l.sign()
            &&& close((k.magnitude() * l.magnitude()) as int, pow2(298) as int, 1)
        }),
{
    let one = Scalar { bits: ONE_BITS };
    let k = one.div_spec(l);
    let den = l.magnitude() as int;
    lemma2_to64();
    lemma_pow2_adds(23, 126);
    lemma_pow2_adds(149, 149);
    assert(one.exponent() == 127);
    assert(one.fraction() == 0);
    assert(one.magnitude() == pow2(149));
    let num = (one.magnitude() * pow2(149)) as int;
    assert(num == pow2(298));
    lemma_nearest_rounds(one.sign() != l.sign(), num, den);
    lemma_pow2_adds((298 - b) as nat, b);
    lemma_pow2_adds((298 - a) as nat, a);
    lemma_pow2_pos((298 - b) as nat);
    lemma_pow2_pos((298 - a) as nat);
    assert(pow2((298 - b) as nat) * den <= num <= pow2((298 - a) as nat) * den)
        by (nonlinear_arith)
        requires
            num == pow2((298 - b) as nat) * pow2(b),
            num == pow2((298 - a) as nat) * pow2(a),
            pow2(a) <= den <= pow2(b),
            pow2((298 - b) as nat) > 0,
            pow2((298 - a) as nat) > 0,
    ;
    lemma_round_keeps_bounds(k, one.sign() != l.sign(), num, den, (298 - b) as nat, (298 - a) as nat);
    lemma_bounds_in_range((298 - b) as nat, (298 - a) as nat, num, den);
    lemma_rounding_error(k, one.sign() != l.sign(), num, den);
    lemma_magnitude_order(l, Scalar { bits: 0 });
}

/// The unit vector of a vector has length one, up to rounding. Let the
/// vector not be zero, and let its components that are not zero lie
/// between `2^a` and `2^b` units in magnitude, where `2^a` units are at
/// least `2^-63`, `2^b` units at most `2^62`, and `2^b` no more than `2^61`
/// times `2^a`, so that no square on the way is too small or too large.
/// Then the length of its unit vector is a positive number within seven
/// parts in 2<sup>23</sup> of one.
pub proof fn lemma_unit_length(v: Vec3, a: nat, b: nat)
    requires
        all_within(v, a, b),
        !is_zero(v),
        86 <= a <= b,
        b <= 211,
        b - a <= 61,
    ensures
        !v.unit_spec().len_spec().is_nan_spec(),
        !v.unit_spec().len_spec().sign(),
        close(v.unit_spec().len_spec().magnitude() as int, pow2(149) as int, 7),
{
    let u = pow2(149) as int;
    lemma_pow2_pos(149);
    // the length of v
    lemma_len_square_close(v, a, b);
    let s = v.len_square_spec();
    lemma_root_close(s, (2 * a - 149) as nat, (2 * b - 147) as nat);
    let l = v.len_spec();
    let lm = l.magnitude() as int;
    let x2 = square_sum(v);
    lemma_close_chain(lm * lm, s.magnitude() * u, x2, 2, 3);
    // one over it
    lemma_reciprocal_close(l, (a - 1) as nat, b + 2);
    let k = (Scalar { bits: ONE_BITS }).div_spec(l);
    let km = k.magnitude() as int;
    // the unit vector and the squares of its components
    let w = v.unit_spec();
    let ka = (296 - b) as nat;
    let kb = (299 - a) as nat;
    lemma_product_close(v.0[0], k, a, b, ka, kb);
    lemma_product_close(v.0[1], k, a, b, ka, kb);
    lemma_product_close(v.0[2], k, a, b, ka, kb);
    assert(w.0[0] == v.0[0].mul_spec(k) && w.0[1] == v.0[1].mul_spec(k) && w.0[2]
        == v.0[2].mul_spec(k));
    lemma_scaled_square(v.0[0].magnitude() as int, km, w.0[0].magnitude() as int, u);
    lemma_scaled_square(v.0[1].magnitude() as int, km, w.0[1].magnitude() as int, u);
    lemma_scaled_square(v.0[2].magnitude() as int, km, w.0[2].magnitude() as int, u);
    let w2 = square_sum(w);
    let kk = km * km;
    let uu = u * u;
    let a0 = (w.0[0].magnitude() * w.0[0].magnitude()) * uu;
    let a1 = (w.0[1].magnitude() * w.0[1].magnitude()) * uu;
    let a2 = (w.0[2].magnitude() * w.0[2].magnitude()) * uu;
    let b0 = (v.0[0].magnitude() * v.0[0].magnitude()) * kk;
    let b1 = (v.0[1].magnitude() * v.0[1].magnitude()) * kk;
    let b2 = (v.0[2].magnitude() * v.0[2].magnitude()) * kk;
    lemma_close_sum(a0, b0, a1, b1, 2);
    lemma_close_sum(a0 + a1, b0 + b1, a2, b2, 2);
    assert(a0 + a1 + a2 == w2 * uu && b0 + b1 + b2 == x2 * kk) by (nonlinear_arith)
        requires
            a0 == (w.0[0].magnitude() * w.0[0].magnitude()) * uu,
            a1 == (w.0[1].magnitude() * w.0[1].magnitude()) * uu,
            a2 == (w.0[2].magnitude() * w.0[2].magnitude()) * uu,
            b0 == (v.0[0].magnitude() * v.0[0].magnitude()) * kk,
            b1 == (v.0[1].magnitude() * v.0[1].magnitude()) * kk,
            b2 == (v.0[2].magnitude() * v.0[2].magnitude()) * kk,
            w2 == w.0[0].magnitude() * w.0[0].magnitude() + w.0[1].magnitude() * w.0[1].magnitude()
                + w.0[2].magnitude() * w.0[2].magnitude(),
            x2 == v.0[0].magnitude() * v.0[0].magnitude() + v.0[1].magnitude() * v.0[1].magnitude()
                + v.0[2].magnitude() * v.0[2].magnitude(),
    ;
    // the square of the length of v times the square of one over it is one
    assert(0 <= kk) by (nonlinear_arith)
        requires
            kk == km * km,
    ;
    lemma_close_scale(lm * lm, x2, 5, kk);
    lemma_close_product(km * lm, pow2(298) as int, 1, km * lm, pow2(298) as int, 1);
    lemma_pow2_adds(149, 149);
    assert((km * lm) * (km * lm) == (lm * lm) * kk && pow2(298) * pow2(298) == uu * uu)
        by (nonlinear_arith)
        requires
            kk == km * km,
            uu == u * u,
            pow2(298) == u * u,
    ;
    lemma_close_chain(x2 * kk, (lm * lm) * kk, uu * uu, 5, 2);
    lemma_close_chain(w2 * uu, x2 * kk, uu * uu, 2, 7);
    assert(0 < uu) by (nonlinear_arith)
        requires
            uu == u * u,
            u > 0,
    ;
    assert(0 <= w2 && 0 <= x2) by (nonlinear_arith)
        requires
            w2 == w.0[0].magnitude() * w.0[0].magnitude() + w.0[1].magnitude() * w.0[1].magnitude()
                + w.0[2].magnitude() * w.0[2].magnitude(),
            x2 == v.0[0].magnitude() * v.0[0].magnitude() + v.0[1].magnitude() * v.0[1].magnitude()
                + v.0[2].magnitude() * v.0[2].magnitude(),
    ;
    lemma_close_cancel(w2, uu, 9, uu);
    // the length of the unit vector
    let d = (b - a) as nat;
    lemma_len_square_close(w, (147 - d) as nat, 150 + d);
    let t = w.len_square_spec();
    lemma_close_chain(t.magnitude() * u, w2, uu, 3, 9);
    lemma_close_cancel(t.magnitude() as int, u, 12, u);
    lemma_root_close(t, (145 - 2 * d) as nat, 153 + 2 * d);
    let r = w.len_spec();
    let rm = r.magnitude() as int;
    lemma_close_scale(t.magnitude() as int, u, 12, u);
    lemma_close_chain(rm * rm, t.magnitude() * u, uu, 2, 12);
    lemma_close_root(rm, u, 7);
}

/// The square of a product that is close to a product is close to the
/// product of the squares.
proof fn lemma_scaled_square(x: int, k: int, w: int, u: int)
    requires
        close(w * u, x * k, 1),
    ensures
        close((w * w) * (u * u), (x * x) * (k * k), 2),
{
    lemma_close_product(w * u, x * k, 1, w * u, x * k, 1);
    assert((w * u) * (w * u) == (w * w) * (u * u) && (x * k) * (x * k) == (x * x) * (k * k))
        by (nonlinear_arith);
}

} // verus!
