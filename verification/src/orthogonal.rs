//! The cross product is orthogonal to its factors, up to rounding.
//!
//! In exact arithmetic the dot product of `a x b` with `a` or with `b` is
//! zero. Computed with scalars it is what the roundings on the way leave
//! over, and that is small against the products it is made of.

use crate::accuracy::{
    close,
    lemma_power_of_two,
    lemma_product_close,
    lemma_rounding_error,
    parts,
    power_of_two,
    within,
};
use crate::order::{lemma_nearest_monotone, lemma_neg_units, lemma_round_exact};
use crate::round::{gap, lemma_nearest_rounds, nearest, rounds};
use crate::scalar::{lemma_magnitude_order, Scalar};
use crate::vec::Vec3;
use vstd::arithmetic::power::{lemma_pow1, pow};
use vstd::arithmetic::power2::{lemma2_to64, lemma_pow2_adds, lemma_pow2_pos, pow2};
use vstd::prelude::*;

verus! {

/// The absolute value.
pub open spec fn absolute(x: int) -> int {
    if x < 0 {
        -x
    } else {
        x
    }
}

/// 2<sup>22</sup>: errors are counted in parts of so many.
pub open spec fn fine() -> int {
    0x40_0000
}

/// Close quantities differ by no more than one part in 2<sup>22</sup>.
proof fn lemma_close_difference(r: int, n: int)
    requires
        close(r, n, 1),
    ensures
        absolute(r - n) * fine() <= n,
{
    lemma_pow1(parts());
    lemma_pow1(parts() + 1);
    let lo = pow(parts(), 1);
    let hi = pow(parts() + 1, 1);
    assert(r * 0x80_0000 <= n * 0x80_0001 && n * 0x80_0000 <= r * 0x80_0001) by (nonlinear_arith)
        requires
            r * lo <= n * hi,
            n * lo <= r * hi,
            lo == 0x80_0000,
            hi == 0x80_0001,
    ;
}

/// A result below a power of two does not round above it.
proof fn lemma_round_below(r: Scalar, negative: bool, num: int, den: int, c: nat)
    requires
        den > 0,
        rounds(r, negative, num, den),
        23 <= c <= 276,
        0 <= num <= pow2(c) * den,
    ensures
        r.magnitude() <= pow2(c),
        r.is_finite_spec(),
{
    crate::round::lemma_rounds_is_nearest(r, negative, num, den);
    lemma_power_of_two(c);
    lemma_power_of_two(276);
    lemma_round_exact(power_of_two(c), den);
    lemma_nearest_monotone(negative, num, false, pow2(c) * den, den);
    lemma_magnitude_order(power_of_two(c), power_of_two(276));
    lemma_magnitude_order(power_of_two(276), power_of_two(c));
    lemma_magnitude_order(r, power_of_two(276));
    lemma_magnitude_order(power_of_two(276), r);
}

/// The product of two scalars within bounds, with its sign: it differs from
/// the exact product by no more than one part in 2<sup>22</sup> of it.
pub proof fn lemma_signed_product(x: Scalar, y: Scalar)
    requires
        within(x, 86, 190),
        within(y, 86, 190),
    ensures
        x.mul_spec(y).is_finite_spec(),
        x.mul_spec(y).magnitude() <= pow2(231),
        absolute(x.mul_spec(y).units() * pow2(149) - x.units() * y.units()) * fine() <= absolute(
            x.units() * y.units(),
        ),
{
    let p = x.mul_spec(y);
    let u = pow2(149) as int;
    lemma_product_close(x, y, 86, 190, 86, 190);
    let r = (p.magnitude() * pow2(149)) as int;
    let n = (x.magnitude() * y.magnitude()) as int;
    lemma_close_difference(r, n);
    lemma_pow2_pos(231);
    assert(x.units() * y.units() == if x.sign() != y.sign() {
        -n
    } else {
        n
    }) by (nonlinear_arith)
        requires
            n == x.magnitude() * y.magnitude(),
            x.units() == if x.sign() {
                -(x.magnitude() as int)
            } else {
                x.magnitude() as int
            },
            y.units() == if y.sign() {
                -(y.magnitude() as int)
            } else {
                y.magnitude() as int
            },
    ;
    assert(p.units() * u == if p.sign() {
        -r
    } else {
        r
    }) by (nonlinear_arith)
        requires
            r == p.magnitude() * u,
            p.units() == if p.sign() {
                -(p.magnitude() as int)
            } else {
                p.magnitude() as int
            },
    ;
}

/// The sum of two finite scalars differs from the exact sum by no more than
/// one part in 2<sup>22</sup> of it, and stays below the power of two that
/// the exact sum stays below.
pub proof fn lemma_signed_sum(x: Scalar, y: Scalar, c: nat)
    requires
        x.is_finite_spec(),
        y.is_finite_spec(),
        23 <= c <= 276,
        absolute(x.units() + y.units()) <= pow2(c),
    ensures
        x.add_spec(y).is_finite_spec(),
        x.add_spec(y).magnitude() <= pow2(c),
        absolute(x.add_spec(y).units() - (x.units() + y.units())) * fine() <= absolute(
            x.units() + y.units(),
        ),
{
    let s = x.add_spec(y);
    let sum = x.units() + y.units();
    let n = absolute(sum);
    lemma_pow2_pos(c);
    lemma2_to64();
    if sum != 0 {
        lemma_nearest_rounds(sum < 0, n, 1);
        assert(s == nearest(sum < 0, n, 1));
        lemma_round_below(s, sum < 0, n, 1, c);
        if n >= pow2(23) {
            crate::accuracy::lemma_power_of_two(276);
            if c < 276 {
                vstd::arithmetic::power2::lemma_pow2_strictly_increases(c, 276);
            }
            lemma_rounding_error(s, sum < 0, n, 1);
            assert(s.magnitude() * 1 == s.magnitude());
            lemma_close_difference(s.magnitude() as int, n);
        } else {
            // a small sum is a scalar itself
            let exact = Scalar { bits: n as u32 };
            assert(exact.exponent() == 0);
            assert(exact.fraction() == n);
            assert(exact.magnitude() == n);
            lemma_round_exact(exact, 1);
            assert(exact.magnitude() * 1 == n);
            assert(gap(s, n, 1) <= gap(exact, n, 1));
            assert(s.magnitude() * 1 == s.magnitude());
        }
    }
}

/// The difference of two finite scalars, as their sum.
pub proof fn lemma_signed_difference(x: Scalar, y: Scalar, c: nat)
    requires
        x.is_finite_spec(),
        y.is_finite_spec(),
        23 <= c <= 276,
        absolute(x.units() - y.units()) <= pow2(c),
    ensures
        x.sub_spec(y).is_finite_spec(),
        x.sub_spec(y).magnitude() <= pow2(c),
        absolute(x.sub_spec(y).units() - (x.units() - y.units())) * fine() <= absolute(
            x.units() - y.units(),
        ),
{
    lemma_neg_units(y);
    lemma_signed_sum(x, y.neg_spec(), c);
}

/// The product of two finite scalars that may be too small for a normal
/// scalar: it differs from the exact product by no more than one part in
/// 2<sup>22</sup> of it and one unit.
pub proof fn lemma_loose_product(x: Scalar, y: Scalar, c: nat)
    requires
        x.is_finite_spec(),
        y.is_finite_spec(),
        23 <= c <= 276,
        absolute(x.units() * y.units()) <= pow2(c) * pow2(149),
    ensures
        x.mul_spec(y).is_finite_spec(),
        x.mul_spec(y).magnitude() <= pow2(c),
        absolute(x.mul_spec(y).units() * pow2(149) - x.units() * y.units()) * fine() <= absolute(
            x.units() * y.units(),
        ) + fine() * pow2(149),
{
    let p = x.mul_spec(y);
    let u = pow2(149) as int;
    let n = (x.magnitude() * y.magnitude()) as int;
    let negative = x.sign() != y.sign();
    lemma_pow2_pos(149);
    lemma_pow2_pos(c);
    lemma2_to64();
    assert(x.units() * y.units() == if negative {
        -n
    } else {
        n
    }) by (nonlinear_arith)
        requires
            negative == (x.sign() != y.sign()),
            n == x.magnitude() * y.magnitude(),
            x.units() == if x.sign() {
                -(x.magnitude() as int)
            } else {
                x.magnitude() as int
            },
            y.units() == if y.sign() {
                -(y.magnitude() as int)
            } else {
                y.magnitude() as int
            },
    ;
    assert(0 <= n) by (nonlinear_arith)
        requires
            n == x.magnitude() * y.magnitude(),
    ;
    lemma_nearest_rounds(negative, n, u);
    assert(p == nearest(negative, n, u));
    lemma_round_below(p, negative, n, u, c);
    let r = p.magnitude() * u;
    assert(p.units() * u == if p.sign() {
        -r
    } else {
        r
    }) by (nonlinear_arith)
        requires
            r == p.magnitude() * u,
            p.units() == if p.sign() {
                -(p.magnitude() as int)
            } else {
                p.magnitude() as int
            },
    ;
    if n >= pow2(23) * u {
        if c < 276 {
            vstd::arithmetic::power2::lemma_pow2_strictly_increases(c, 276);
        }
        assert(pow2(c) * u <= pow2(276) * u) by (nonlinear_arith)
            requires
                pow2(c) <= pow2(276),
                u > 0,
        ;
        lemma_rounding_error(p, negative, n, u);
        lemma_close_difference(r, n);
    } else {
        // below the normal scalars the scalars are one unit apart
        let whole = n / u;
        vstd::arithmetic::div_mod::lemma_fundamental_div_mod(n, u);
        vstd::arithmetic::div_mod::lemma_mod_bound(n, u);
        vstd::arithmetic::div_mod::lemma_div_pos_is_pos(n, u);
        assert(whole < pow2(23)) by (nonlinear_arith)
            requires
                n == u * whole + n % u,
                0 <= n % u,
                n < pow2(23) * u,
                u > 0,
        ;
        let under = Scalar { bits: whole as u32 };
        assert(under.exponent() == 0);
        assert(under.fraction() == whole);
        assert(under.magnitude() == whole);
        assert(gap(p, n, u) <= gap(under, n, u));
        assert(under.magnitude() * u == u * whole) by (nonlinear_arith)
            requires
                under.magnitude() == whole,
        ;
        assert(gap(under, n, u) < u);
        assert(absolute(r - n) < u);
        assert(absolute(r - n) * fine() <= fine() * u) by (nonlinear_arith)
            requires
                0 <= absolute(r - n) < u,
                fine() > 0,
        ;
    }
}

/// The absolute value of a product is the product of the absolute values.
proof fn lemma_absolute_product(a: int, b: int)
    ensures
        absolute(a * b) == absolute(a) * absolute(b),
        absolute(a) >= 0,
{
    assert(absolute(a * b) == absolute(a) * absolute(b)) by (nonlinear_arith)
        requires
            absolute(a) == if a < 0 {
                -a
            } else {
                a
            },
            absolute(b) == if b < 0 {
                -b
            } else {
                b
            },
            absolute(a * b) == if a * b < 0 {
                -(a * b)
            } else {
                a * b
            },
    ;
}

/// How the errors of the two products and of the difference add up in one
/// component of a cross product: `c` stands for it, `p` and `q` for the
/// rounded products, `pp` and `qq` for the exact ones in square units.
proof fn lemma_component_algebra(pp: int, qq: int, p: int, q: int, c: int, u: int)
    requires
        u > 0,
        absolute(p * u - pp) * fine() <= absolute(pp),
        absolute(q * u - qq) * fine() <= absolute(qq),
        absolute(c - (p - q)) * fine() <= absolute(p - q),
    ensures
        absolute(c * u - (pp - qq)) * fine() <= 3 * (absolute(pp) + absolute(qq)),
        absolute(c * u) <= 2 * (absolute(pp) + absolute(qq)),
{
    let s = fine();
    let m = absolute(pp) + absolute(qq);
    let e1 = absolute(p * u - pp);
    let e2 = absolute(q * u - qq);
    let e3 = absolute(c - (p - q));
    lemma_absolute_product(p - q, u);
    lemma_absolute_product(c - (p - q), u);
    assert((p - q) * u == p * u - q * u && (c - (p - q)) * u == c * u - (p * u - q * u))
        by (nonlinear_arith);
    let spread = absolute(p - q) * u;
    assert(spread <= m + e1 + e2);
    assert(e1 * s + e2 * s <= m);
    // e3 * u * s <= spread
    assert((e3 * u) * s <= spread) by (nonlinear_arith)
        requires
            e3 * s <= absolute(p - q),
            spread == absolute(p - q) * u,
            u > 0,
    ;
    let e = absolute(c * u - (pp - qq));
    assert(e <= e3 * u + e1 + e2);
    assert(e * s <= (e3 * u) * s + e1 * s + e2 * s) by (nonlinear_arith)
        requires
            e <= e3 * u + e1 + e2,
            s > 0,
    ;
    assert((e1 + e2) * s == e1 * s + e2 * s) by (nonlinear_arith);
}

/// How the error of a component and of its product with a component of the
/// third vector add up: `t` stands for that product, `xx` for the exact one
/// in cubic units, `mm` for the size of what it is made of.
proof fn lemma_term_algebra(xx: int, mm: int, c: int, cu: int, z: int, t: int, u: int)
    requires
        u > 0,
        0 <= mm,
        cu == c * u,
        absolute(cu * z - xx) * fine() <= 3 * mm,
        absolute(cu * z) <= 2 * mm,
        absolute(xx) <= mm,
        absolute(t * u - c * z) * fine() <= absolute(c * z) + fine() * u,
    ensures
        absolute(t * (u * u) - xx) * fine() <= 5 * mm + fine() * (u * u),
        absolute(t * (u * u)) <= 2 * mm + u * u,
{
    let s = fine();
    let e4 = absolute(t * u - c * z);
    lemma_absolute_product(t * u - c * z, u);
    lemma_absolute_product(c * z, u);
    assert((t * u - c * z) * u == t * (u * u) - cu * z && (c * z) * u == cu * z)
        by (nonlinear_arith)
        requires
            cu == c * u,
    ;
    let first = absolute(t * (u * u) - cu * z);
    assert(first == e4 * u);
    assert(first * s <= absolute(cu * z) + s * (u * u)) by (nonlinear_arith)
        requires
            first == e4 * u,
            e4 * s <= absolute(c * z) + s * u,
            absolute(cu * z) == absolute(c * z) * u,
            u > 0,
    ;
    let e = absolute(t * (u * u) - xx);
    let second = absolute(cu * z - xx);
    assert(e <= first + second);
    assert(e * s <= first * s + second * s) by (nonlinear_arith)
        requires
            e <= first + second,
            s > 0,
    ;
    assert(e * s <= 5 * mm + s * (u * u));
    let size = absolute(t * (u * u));
    assert(size <= mm + e);
    assert(size * s <= mm * s + e * s) by (nonlinear_arith)
        requires
            size <= mm + e,
            s > 0,
    ;
    assert(size * s <= (2 * mm + u * u) * s) by (nonlinear_arith)
        requires
            size * s <= mm * s + 5 * mm + s * (u * u),
            s == 0x40_0000,
            0 <= mm,
    ;
    assert(size <= 2 * mm + u * u) by (nonlinear_arith)
        requires
            size * s <= (2 * mm + u * u) * s,
            s > 0,
    ;
}

/// How the errors of the three terms and of the two sums add up in the dot
/// product, where the exact terms cancel.
proof fn lemma_dot_algebra(
    x0: int,
    x1: int,
    x2: int,
    m0: int,
    m1: int,
    m2: int,
    t0: int,
    t1: int,
    t2: int,
    d1: int,
    d: int,
    w: int,
)
    requires
        w > 0,
        x0 + x1 + x2 == 0,
        absolute(t0 * w - x0) * fine() <= 5 * m0 + fine() * w,
        absolute(t1 * w - x1) * fine() <= 5 * m1 + fine() * w,
        absolute(t2 * w - x2) * fine() <= 5 * m2 + fine() * w,
        absolute(t0 * w) <= 2 * m0 + w,
        absolute(t1 * w) <= 2 * m1 + w,
        absolute(t2 * w) <= 2 * m2 + w,
        absolute(d1 - (t0 + t1)) * fine() <= absolute(t0 + t1),
        absolute(d - (d1 + t2)) * fine() <= absolute(d1 + t2),
    ensures
        absolute(d * w) * fine() <= 11 * (m0 + m1 + m2) + 4 * fine() * w,
{
    let s = fine();
    let m = m0 + m1 + m2;
    let e1 = absolute(d1 - (t0 + t1));
    let e2 = absolute(d - (d1 + t2));
    let size = absolute(t0 * w) + absolute(t1 * w) + absolute(t2 * w);
    lemma_absolute_product(t0 + t1, w);
    lemma_absolute_product(d1 + t2, w);
    lemma_absolute_product(d1 - (t0 + t1), w);
    lemma_absolute_product(d - (d1 + t2), w);
    lemma_absolute_product(d1, w);
    assert((t0 + t1) * w == t0 * w + t1 * w && (d1 + t2) * w == d1 * w + t2 * w && (d1 - (t0 + t1))
        * w == d1 * w - (t0 * w + t1 * w) && (d - (d1 + t2)) * w == d * w - (d1 * w + t2 * w))
        by (nonlinear_arith);
    // the first sum
    let g1 = e1 * w;
    assert(g1 * s <= absolute(t0 * w) + absolute(t1 * w)) by (nonlinear_arith)
        requires
            g1 == e1 * w,
            e1 * s <= absolute(t0 + t1),
            absolute(t0 + t1) * w <= absolute(t0 * w) + absolute(t1 * w),
            w > 0,
    ;
    assert(g1 <= absolute(t0 * w) + absolute(t1 * w)) by (nonlinear_arith)
        requires
            g1 * s <= absolute(t0 * w) + absolute(t1 * w),
            s == 0x40_0000,
            g1 >= 0,
    ;
    assert(absolute(d1 * w) <= 2 * (absolute(t0 * w) + absolute(t1 * w)));
    // the second sum
    let g2 = e2 * w;
    assert(g2 * s <= absolute(d1 * w) + absolute(t2 * w)) by (nonlinear_arith)
        requires
            g2 == e2 * w,
            e2 * s <= absolute(d1 + t2),
            absolute(d1 + t2) * w <= absolute(d1 * w) + absolute(t2 * w),
            w > 0,
    ;
    let whole = t0 * w + t1 * w + t2 * w;
    assert(absolute(d * w - whole) <= g1 + g2);
    assert((g1 + g2) * s <= 3 * size) by (nonlinear_arith)
        requires
            g1 * s <= absolute(t0 * w) + absolute(t1 * w),
            g2 * s <= absolute(d1 * w) + absolute(t2 * w),
            absolute(d1 * w) <= 2 * (absolute(t0 * w) + absolute(t1 * w)),
            size == absolute(t0 * w) + absolute(t1 * w) + absolute(t2 * w),
            absolute(t2 * w) >= 0,
    ;
    // the exact terms cancel
    let left = absolute(t0 * w - x0) + absolute(t1 * w - x1) + absolute(t2 * w - x2);
    assert(absolute(whole) <= left);
    assert(left * s <= 5 * m + 3 * s * w) by (nonlinear_arith)
        requires
            left == absolute(t0 * w - x0) + absolute(t1 * w - x1) + absolute(t2 * w - x2),
            absolute(t0 * w - x0) * s <= 5 * m0 + s * w,
            absolute(t1 * w - x1) * s <= 5 * m1 + s * w,
            absolute(t2 * w - x2) * s <= 5 * m2 + s * w,
            m == m0 + m1 + m2,
    ;
    let total = absolute(d * w);
    assert(total <= absolute(whole) + g1 + g2);
    assert(total * s <= left * s + (g1 + g2) * s) by (nonlinear_arith)
        requires
            total <= left + g1 + g2,
            s > 0,
    ;
    assert(size <= 2 * m + 3 * w);
    assert(3 * size <= 6 * m + 9 * w);
    assert(total * s <= 11 * m + 4 * s * w) by (nonlinear_arith)
        requires
            total * s <= left * s + (g1 + g2) * s,
            left * s <= 5 * m + 3 * s * w,
            (g1 + g2) * s <= 3 * size,
            3 * size <= 6 * m + 9 * w,
            s == 0x40_0000,
            w > 0,
    ;
}

/// The size of what one term of the dot product is made of: the two
/// products of a component of the cross product, each times a component of
/// the third vector, in absolute value and in cubic units.
pub open spec fn term_size(x1: Scalar, y1: Scalar, x2: Scalar, y2: Scalar, z: Scalar) -> int {
    (absolute(x1.units() * y1.units()) + absolute(x2.units() * y2.units())) * absolute(z.units())
}

/// What one term of the dot product would be in exact arithmetic, in cubic
/// units.
pub open spec fn term_exact(x1: Scalar, y1: Scalar, x2: Scalar, y2: Scalar, z: Scalar) -> int {
    (x1.units() * y1.units() - x2.units() * y2.units()) * z.units()
}

/// One component `x1*y1 - x2*y2` of a cross product, times a component `z`
/// of a third vector: how far the result lies from the exact one.
proof fn lemma_cross_term(x1: Scalar, y1: Scalar, x2: Scalar, y2: Scalar, z: Scalar)
    requires
        within(x1, 86, 190),
        within(y1, 86, 190),
        within(x2, 86, 190),
        within(y2, 86, 190),
        within(z, 86, 190),
    ensures
        ({
            let t = x1.mul_spec(y1).sub_spec(x2.mul_spec(y2)).mul_spec(z);
            let w = pow2(149) * pow2(149);
            &&& t.is_finite_spec()
            &&& t.magnitude() <= pow2(273)
            &&& absolute(t.units() * w - term_exact(x1, y1, x2, y2, z)) * fine() <= 5 * term_size(
                x1,
                y1,
                x2,
                y2,
                z,
            ) + fine() * w
            &&& absolute(t.units() * w) <= 2 * term_size(x1, y1, x2, y2, z) + w
        }),
{
    let u = pow2(149) as int;
    let p = x1.mul_spec(y1);
    let q = x2.mul_spec(y2);
    let c = p.sub_spec(q);
    let t = c.mul_spec(z);
    let pp = x1.units() * y1.units();
    let qq = x2.units() * y2.units();
    let m = absolute(pp) + absolute(qq);
    lemma_pow2_pos(149);
    lemma_signed_product(x1, y1);
    lemma_signed_product(x2, y2);
    vstd::arithmetic::power2::lemma_pow2_unfold(232);
    lemma_signed_difference(p, q, 232);
    lemma_component_algebra(pp, qq, p.units(), q.units(), c.units(), u);
    // the component times z
    lemma_pow2_adds(232, 190);
    lemma_pow2_adds(273, 149);
    lemma_absolute_product(c.units(), z.units());
    lemma_pow2_pos(190);
    assert(absolute(c.units() * z.units()) <= pow2(273) * pow2(149)) by (nonlinear_arith)
        requires
            absolute(c.units() * z.units()) == absolute(c.units()) * absolute(z.units()),
            0 <= absolute(c.units()) <= pow2(232),
            0 <= absolute(z.units()) <= pow2(190),
            pow2(232) * pow2(190) == pow2(273) * pow2(149),
    ;
    lemma_loose_product(c, z, 273);
    let cu = c.units() * u;
    let zz = z.units();
    lemma_absolute_product(cu - (pp - qq), zz);
    lemma_absolute_product(cu, zz);
    lemma_absolute_product(pp - qq, zz);
    assert((cu - (pp - qq)) * zz == cu * zz - (pp - qq) * zz) by (nonlinear_arith);
    let size = m * absolute(zz);
    assert(absolute(cu * zz - (pp - qq) * zz) * fine() <= 3 * size && absolute(cu * zz) <= 2 * size
        && absolute((pp - qq) * zz) <= size && 0 <= size) by (nonlinear_arith)
        requires
            absolute(cu * zz - (pp - qq) * zz) == absolute(cu - (pp - qq)) * absolute(zz),
            absolute(cu * zz) == absolute(cu) * absolute(zz),
            absolute((pp - qq) * zz) == absolute(pp - qq) * absolute(zz),
            absolute(cu - (pp - qq)) * fine() <= 3 * m,
            absolute(cu) <= 2 * m,
            absolute(pp - qq) <= m,
            size == m * absolute(zz),
            0 <= absolute(zz),
            0 <= m,
    ;
    lemma_term_algebra((pp - qq) * zz, size, c.units(), cu, zz, t.units(), u);
}

/// The dot product of a cross product `a x b` with a vector `c` for which
/// the exact product is zero.
proof fn lemma_triple_small(a: Vec3, b: Vec3, c: Vec3)
    requires
        crate::accuracy::all_within(a, 86, 190),
        crate::accuracy::all_within(b, 86, 190),
        crate::accuracy::all_within(c, 86, 190),
        triple_exact(a, b, c) == 0,
    ensures
        a.cross_spec(b).dot_spec(c).is_finite_spec(),
        absolute(a.cross_spec(b).dot_spec(c).units() * (pow2(149) * pow2(149))) * fine() <= 11
            * triple_size(a, b, c) + 4 * fine() * (pow2(149) * pow2(149)),
{
    let w = pow2(149) * pow2(149);
    lemma_pow2_pos(149);
    assert(w > 0) by (nonlinear_arith)
        requires
            w == pow2(149) * pow2(149),
            pow2(149) > 0,
    ;
    lemma_cross_term(a.0[1], b.0[2], a.0[2], b.0[1], c.0[0]);
    lemma_cross_term(a.0[2], b.0[0], a.0[0], b.0[2], c.0[1]);
    lemma_cross_term(a.0[0], b.0[1], a.0[1], b.0[0], c.0[2]);
    let cr = a.cross_spec(b);
    let t0 = cr.0[0].mul_spec(c.0[0]);
    let t1 = cr.0[1].mul_spec(c.0[1]);
    let t2 = cr.0[2].mul_spec(c.0[2]);
    vstd::arithmetic::power2::lemma_pow2_unfold(274);
    vstd::arithmetic::power2::lemma_pow2_unfold(275);
    lemma_signed_sum(t0, t1, 274);
    let d1 = t0.add_spec(t1);
    lemma_signed_sum(d1, t2, 275);
    let d = d1.add_spec(t2);
    assert(d == cr.dot_spec(c));
    lemma_dot_algebra(
        term_exact(a.0[1], b.0[2], a.0[2], b.0[1], c.0[0]),
        term_exact(a.0[2], b.0[0], a.0[0], b.0[2], c.0[1]),
        term_exact(a.0[0], b.0[1], a.0[1], b.0[0], c.0[2]),
        term_size(a.0[1], b.0[2], a.0[2], b.0[1], c.0[0]),
        term_size(a.0[2], b.0[0], a.0[0], b.0[2], c.0[1]),
        term_size(a.0[0], b.0[1], a.0[1], b.0[0], c.0[2]),
        t0.units(),
        t1.units(),
        t2.units(),
        d1.units(),
        d.units(),
        w as int,
    );
}

/// The triple product `(a x b) . c` in exact arithmetic, in cubic units.
pub open spec fn triple_exact(a: Vec3, b: Vec3, c: Vec3) -> int {
    term_exact(a.0[1], b.0[2], a.0[2], b.0[1], c.0[0]) + term_exact(
        a.0[2],
        b.0[0],
        a.0[0],
        b.0[2],
        c.0[1],
    ) + term_exact(a.0[0], b.0[1], a.0[1], b.0[0], c.0[2])
}

/// The size of what the triple product is made of: the six products of
/// three components, in absolute value and in cubic units.
pub open spec fn triple_size(a: Vec3, b: Vec3, c: Vec3) -> int {
    term_size(a.0[1], b.0[2], a.0[2], b.0[1], c.0[0]) + term_size(
        a.0[2],
        b.0[0],
        a.0[0],
        b.0[2],
        c.0[1],
    ) + term_size(a.0[0], b.0[1], a.0[1], b.0[0], c.0[2])
}

/// The cross product is orthogonal to both of its factors, up to rounding.
/// Let the components of `a` and `b` be zero or lie between `2^-63` and
/// `2^41` in magnitude. Then the dot product of `a x b` with `a`, and that
/// with `b`, is a finite number of no more than eleven parts in
/// 2<sup>22</sup> of the six products that it is made of, and four units.
pub proof fn lemma_cross_orthogonal(a: Vec3, b: Vec3)
    requires
        crate::accuracy::all_within(a, 86, 190),
        crate::accuracy::all_within(b, 86, 190),
    ensures
        a.cross_spec(b).dot_spec(a).is_finite_spec(),
        a.cross_spec(b).dot_spec(b).is_finite_spec(),
        absolute(a.cross_spec(b).dot_spec(a).units() * (pow2(149) * pow2(149))) * fine() <= 11
            * triple_size(a, b, a) + 4 * fine() * (pow2(149) * pow2(149)),
        absolute(a.cross_spec(b).dot_spec(b).units() * (pow2(149) * pow2(149))) * fine() <= 11
            * triple_size(a, b, b) + 4 * fine() * (pow2(149) * pow2(149)),
{
    let a0 = a.0[0].units();
    let a1 = a.0[1].units();
    let a2 = a.0[2].units();
    let b0 = b.0[0].units();
    let b1 = b.0[1].units();
    let b2 = b.0[2].units();
    assert((a1 * b2 - a2 * b1) * a0 + (a2 * b0 - a0 * b2) * a1 + (a0 * b1 - a1 * b0) * a2 == 0)
        by (nonlinear_arith);
    assert((a1 * b2 - a2 * b1) * b0 + (a2 * b0 - a0 * b2) * b1 + (a0 * b1 - a1 * b0) * b2 == 0)
        by (nonlinear_arith);
    lemma_triple_small(a, b, a);
    lemma_triple_small(a, b, b);
}

} // verus!
