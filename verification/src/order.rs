//! Rounding keeps the order.
//!
//! Of two exact results the lower never rounds to the higher scalar, so
//! sums and quotients are ordered as their exact values are. It follows
//! that the near root of a sphere does not come out after the far one.

use crate::arith::{infinity, zero};
use crate::round::{
    gap,
    lemma_nearest_root_rounds,
    lemma_nearest_rounds,
    lemma_round_zero,
    lemma_rounds_unique,
    nearest,
    rounds,
};
use crate::scalar::{lemma_magnitude_order, Scalar, INFINITY_BITS};
use crate::vec::Vec3;
use vstd::arithmetic::power2::{lemma_pow2_pos, pow2};
use vstd::prelude::*;

verus! {

/// A number or NaN, but no number below zero and no negative zero.
pub open spec fn not_negative(x: Scalar) -> bool {
    x.is_nan_spec() || !x.sign()
}

/// `a <= b`, unless one of them is NaN.
pub open spec fn ordered(a: Scalar, b: Scalar) -> bool {
    a.is_nan_spec() || b.is_nan_spec() || a.units() <= b.units()
}

/// Of two results of one sign the one that is smaller in magnitude does not
/// round to the scalar that is larger in magnitude.
pub proof fn lemma_nearest_monotone(neg1: bool, num1: int, neg2: bool, num2: int, den: int)
    requires
        den > 0,
        0 <= num1 <= num2,
    ensures
        nearest(neg1, num1, den).magnitude() <= nearest(neg2, num2, den).magnitude(),
{
    let r1 = nearest(neg1, num1, den);
    let r2 = nearest(neg2, num2, den);
    lemma_nearest_rounds(neg1, num1, den);
    lemma_nearest_rounds(neg2, num2, den);
    if r1.magnitude() > r2.magnitude() {
        lemma_magnitude_order(r1, r2);
        lemma_magnitude_order(r2, r1);
        let a = r2.magnitude() * den;
        let b = r1.magnitude() * den;
        assert(a < b) by (nonlinear_arith)
            requires
                r2.magnitude() < r1.magnitude(),
                den > 0,
                a == r2.magnitude() * den,
                b == r1.magnitude() * den,
        ;
        assert(gap(r1, num1, den) <= gap(r2, num1, den));
        assert(gap(r2, num2, den) <= gap(r1, num2, den));
        // both results lie on the middle of the two scalars
        assert(2 * num1 == a + b && 2 * num2 == a + b);
        assert(gap(r2, num1, den) == gap(r1, num1, den));
        assert(gap(r1, num2, den) == gap(r2, num2, den));
        assert(r1.abs_bits() % 2 == 0);
        assert(r2.abs_bits() % 2 == 0);
        let mid = Scalar { bits: (r2.abs_bits() + 1) as u32 };
        assert(mid.abs_bits() == r2.abs_bits() + 1);
        lemma_magnitude_order(r2, mid);
        lemma_magnitude_order(mid, r1);
        let c = mid.magnitude() * den;
        assert(a < c < b) by (nonlinear_arith)
            requires
                r2.magnitude() < mid.magnitude() < r1.magnitude(),
                den > 0,
                a == r2.magnitude() * den,
                b == r1.magnitude() * den,
                c == mid.magnitude() * den,
        ;
        assert(gap(r1, num1, den) <= gap(mid, num1, den));
        assert(false);
    }
}

/// Of two results the lower does not round to the higher scalar. A result
/// is given by its sign and its magnitude `num / den`.
pub proof fn lemma_nearest_keeps_order(neg1: bool, num1: int, neg2: bool, num2: int, den: int)
    requires
        den > 0,
        0 <= num1,
        0 <= num2,
        (if neg1 {
            -num1
        } else {
            num1
        }) <= (if neg2 {
            -num2
        } else {
            num2
        }),
    ensures
        nearest(neg1, num1, den).units() <= nearest(neg2, num2, den).units(),
        !nearest(neg1, num1, den).is_nan_spec(),
        !nearest(neg2, num2, den).is_nan_spec(),
{
    lemma_nearest_rounds(neg1, num1, den);
    lemma_nearest_rounds(neg2, num2, den);
    if neg1 && neg2 {
        lemma_nearest_monotone(neg2, num2, neg1, num1, den);
    } else if !neg1 && !neg2 {
        lemma_nearest_monotone(neg1, num1, neg2, num2, den);
    } else if !neg1 && neg2 {
        assert(num1 == 0 && num2 == 0);
        lemma_nearest_monotone(neg1, num1, neg2, num2, den);
        lemma_nearest_monotone(neg2, num2, neg1, num1, den);
        lemma_round_zero(Scalar { bits: 0 }, false, den);
        lemma_rounds_unique(nearest(false, 0, den), Scalar { bits: 0 }, false, 0, den);
    }
}

/// No scalar that is a number has more units than infinity.
pub proof fn lemma_units_bounded(x: Scalar)
    requires
        !x.is_nan_spec(),
    ensures
        -pow2(277) <= x.units() <= pow2(277),
        x.magnitude() == pow2(277) <==> x.is_infinite_spec(),
{
    let inf = Scalar { bits: INFINITY_BITS };
    vstd::arithmetic::power2::lemma2_to64();
    vstd::arithmetic::power2::lemma_pow2_adds(23, 254);
    assert(inf.exponent() == 255);
    assert(inf.fraction() == 0);
    lemma_magnitude_order(x, inf);
}

/// The units of a negated scalar are the negated units.
pub proof fn lemma_neg_units(x: Scalar)
    ensures
        x.neg_spec().units() == -x.units(),
        x.neg_spec().magnitude() == x.magnitude(),
        x.neg_spec().sign() != x.sign(),
        x.neg_spec().is_nan_spec() == x.is_nan_spec(),
        x.neg_spec().is_infinite_spec() == x.is_infinite_spec(),
{
}

/// The units of a finite sum are those of the rounded exact sum.
pub proof fn lemma_sum_units(a: Scalar, b: Scalar)
    requires
        a.is_finite_spec(),
        b.is_finite_spec(),
    ensures
        ({
            let sum = a.units() + b.units();
            a.add_spec(b).units() == if sum < 0 {
                nearest(true, -sum, 1).units()
            } else {
                nearest(false, sum, 1).units()
            }
        }),
        !a.add_spec(b).is_nan_spec(),
{
    let sum = a.units() + b.units();
    if sum == 0 {
        lemma_round_zero(Scalar { bits: 0 }, false, 1);
        lemma_nearest_rounds(false, 0, 1);
        lemma_rounds_unique(nearest(false, 0, 1), Scalar { bits: 0 }, false, 0, 1);
    } else if sum < 0 {
        lemma_nearest_rounds(true, -sum, 1);
    } else {
        lemma_nearest_rounds(false, sum, 1);
    }
}

/// With `s` at least zero, `h - s` does not come out above `h + s`.
pub proof fn lemma_difference_below_sum(h: Scalar, s: Scalar)
    requires
        !s.is_nan_spec(),
        s.units() >= 0,
    ensures
        ordered(h.sub_spec(s), h.add_spec(s)),
{
    let u = h.sub_spec(s);
    let w = h.add_spec(s);
    let m = s.neg_spec();
    lemma_neg_units(s);
    if h.is_nan_spec() {
    } else if h.is_infinite_spec() {
        assert(u.is_nan_spec() || u == h);
        assert(w.is_nan_spec() || w == h);
    } else if s.is_infinite_spec() {
        lemma_magnitude_order(s, Scalar { bits: 0 });
        assert(!s.sign());
        assert(w == s);
        assert(u == m);
        lemma_units_bounded(w);
        lemma_units_bounded(u);
    } else {
        lemma_sum_units(h, m);
        lemma_sum_units(h, s);
        let lo = h.units() - s.units();
        let hi = h.units() + s.units();
        lemma_nearest_keeps_order(
            lo < 0,
            if lo < 0 {
                -lo
            } else {
                lo
            },
            hi < 0,
            if hi < 0 {
                -hi
            } else {
                hi
            },
            1,
        );
    }
}

/// Dividing by a divisor that is not negative keeps the order.
pub proof fn lemma_quotients_ordered(u: Scalar, w: Scalar, a: Scalar)
    requires
        ordered(u, w),
        not_negative(a),
    ensures
        ordered(u.div_spec(a), w.div_spec(a)),
{
    let low = u.div_spec(a);
    let high = w.div_spec(a);
    if a.is_nan_spec() || u.is_nan_spec() || w.is_nan_spec() {
    } else {
        lemma_units_bounded(u);
        lemma_units_bounded(w);
        lemma_units_bounded(a);
        lemma_magnitude_order(u, Scalar { bits: 0 });
        lemma_magnitude_order(w, Scalar { bits: 0 });
        lemma_magnitude_order(a, Scalar { bits: 0 });
        if a.is_infinite_spec() {
        } else if u.is_infinite_spec() || w.is_infinite_spec() {
            if !low.is_nan_spec() && !high.is_nan_spec() {
                lemma_units_bounded(low);
                lemma_units_bounded(high);
                lemma_units_bounded(infinity(true));
                lemma_units_bounded(infinity(false));
            }
        } else if a.magnitude() == 0 {
            if u.magnitude() != 0 && w.magnitude() != 0 {
                lemma_units_bounded(infinity(true));
                lemma_units_bounded(infinity(false));
            }
        } else {
            let p = pow2(149) as int;
            lemma_pow2_pos(149);
            let below = u.magnitude() * p;
            let above = w.magnitude() * p;
            assert(0 <= below && 0 <= above && (if u.sign() {
                -below
            } else {
                below
            }) <= (if w.sign() {
                -above
            } else {
                above
            })) by (nonlinear_arith)
                requires
                    u.units() <= w.units(),
                    u.units() == if u.sign() {
                        -(u.magnitude() as int)
                    } else {
                        u.magnitude() as int
                    },
                    w.units() == if w.sign() {
                        -(w.magnitude() as int)
                    } else {
                        w.magnitude() as int
                    },
                    below == u.magnitude() * p,
                    above == w.magnitude() * p,
                    p > 0,
            ;
            lemma_nearest_keeps_order(u.sign(), below, w.sign(), above, a.magnitude() as int);
        }
    }
}

/// A square is not negative.
pub proof fn lemma_square_not_negative(x: Scalar)
    ensures
        not_negative(x.mul_spec(x)),
{
    if !x.is_nan_spec() && !x.is_infinite_spec() {
        lemma_pow2_pos(149);
        lemma_nearest_rounds(false, (x.magnitude() * x.magnitude()) as int, pow2(149) as int);
    }
}

/// A sum of scalars that are not negative is not negative.
pub proof fn lemma_sum_not_negative(a: Scalar, b: Scalar)
    requires
        not_negative(a),
        not_negative(b),
    ensures
        not_negative(a.add_spec(b)),
{
    if !a.is_nan_spec() && !b.is_nan_spec() && !a.is_infinite_spec() && !b.is_infinite_spec() {
        let sum = a.units() + b.units();
        if sum > 0 {
            lemma_nearest_rounds(false, sum, 1);
        }
    }
}

/// The square of a length is not negative.
pub proof fn lemma_len_square_not_negative(v: Vec3)
    ensures
        not_negative(v.len_square_spec()),
{
    lemma_square_not_negative(v.0[0]);
    lemma_square_not_negative(v.0[1]);
    lemma_square_not_negative(v.0[2]);
    lemma_sum_not_negative(v.0[0].mul_spec(v.0[0]), v.0[1].mul_spec(v.0[1]));
    lemma_sum_not_negative(
        v.0[0].mul_spec(v.0[0]).add_spec(v.0[1].mul_spec(v.0[1])),
        v.0[2].mul_spec(v.0[2]),
    );
}

/// The square root of a number that is at least zero is a number that is
/// at least zero.
pub proof fn lemma_sqrt_not_negative(x: Scalar)
    requires
        !x.is_nan_spec(),
        x.units() >= 0,
    ensures
        !x.sqrt_spec().is_nan_spec(),
        x.sqrt_spec().units() >= 0,
{
    lemma_magnitude_order(x, Scalar { bits: 0 });
    if x.magnitude() != 0 && !x.is_infinite_spec() {
        lemma_nearest_root_rounds((x.magnitude() * pow2(149)) as int);
    }
}

/// A scalar rounds to itself.
pub proof fn lemma_round_exact(x: Scalar, den: int)
    requires
        den > 0,
        !x.is_nan_spec(),
    ensures
        rounds(x, x.sign(), x.magnitude() * den, den),
        nearest(x.sign(), x.magnitude() * den, den) == x,
{
    let num = x.magnitude() * den;
    assert forall|s: Scalar| !s.is_nan_spec() implies gap(x, num, den) <= #[trigger] gap(
        s,
        num,
        den,
    ) && (s.abs_bits() != x.abs_bits() ==> gap(s, num, den) != gap(x, num, den)) by {
        lemma_magnitude_order(s, x);
        assert(s.magnitude() != x.magnitude() ==> s.magnitude() * den != x.magnitude() * den)
            by (nonlinear_arith)
            requires
                den > 0,
        ;
    }
    crate::round::lemma_rounds_is_nearest(x, x.sign(), num, den);
}

/// The nearest scalar of the opposite sign is the negated nearest scalar.
pub proof fn lemma_nearest_neg(negative: bool, num: int, den: int)
    requires
        den > 0,
    ensures
        nearest(!negative, num, den) == nearest(negative, num, den).neg_spec(),
{
    let r = nearest(negative, num, den);
    lemma_nearest_rounds(negative, num, den);
    lemma_nearest_rounds(!negative, num, den);
    lemma_neg_units(r);
    let m = r.neg_spec();
    assert(m.abs_bits() == r.abs_bits());
    assert forall|s: Scalar| !s.is_nan_spec() implies gap(m, num, den) <= #[trigger] gap(
        s,
        num,
        den,
    ) by {
        assert(gap(r, num, den) <= gap(s, num, den));
    }
    assert(rounds(m, !negative, num, den));
    lemma_rounds_unique(m, nearest(!negative, num, den), !negative, num, den);
}

/// Times minus one is the negation, for every number.
pub proof fn lemma_times_minus_one(x: Scalar)
    requires
        !x.is_nan_spec(),
    ensures
        x.mul_spec(Scalar { bits: crate::hittable::MINUS_ONE_BITS }) == x.neg_spec(),
{
    let minus_one = Scalar { bits: crate::hittable::MINUS_ONE_BITS };
    vstd::arithmetic::power2::lemma2_to64();
    vstd::arithmetic::power2::lemma_pow2_adds(23, 126);
    assert(minus_one.exponent() == 127);
    assert(minus_one.fraction() == 0);
    assert(minus_one.magnitude() == pow2(149));
    lemma_neg_units(x);
    lemma_magnitude_order(x, Scalar { bits: 0 });
    lemma_pow2_pos(149);
    assert(minus_one.sign());
    assert(!minus_one.is_nan_spec() && !minus_one.is_infinite_spec());
    if !x.is_infinite_spec() {
        lemma_round_exact(x.neg_spec(), pow2(149) as int);
        assert((x.magnitude() * minus_one.magnitude()) as int == x.neg_spec().magnitude() * (pow2(
            149,
        ) as int));
        assert(x.mul_spec(minus_one) == nearest(
            !x.sign(),
            (x.magnitude() * minus_one.magnitude()) as int,
            pow2(149) as int,
        ));
    } else {
        assert(x.mul_spec(minus_one) == infinity(!x.sign()));
    }
}

/// Negating one factor negates the product.
pub proof fn lemma_mul_neg(a: Scalar, b: Scalar)
    ensures
        a.mul_spec(b.neg_spec()).is_nan_spec() == a.mul_spec(b).is_nan_spec(),
        !a.mul_spec(b).is_nan_spec() ==> a.mul_spec(b.neg_spec()) == a.mul_spec(b).neg_spec(),
{
    lemma_neg_units(b);
    if !a.is_nan_spec() && !b.is_nan_spec() {
        if a.is_infinite_spec() || b.is_infinite_spec() {
        } else {
            lemma_pow2_pos(149);
            let num = (a.magnitude() * b.magnitude()) as int;
            lemma_nearest_rounds(a.sign() != b.sign(), num, pow2(149) as int);
            lemma_nearest_neg(a.sign() != b.sign(), num, pow2(149) as int);
        }
    }
}

/// Negating both terms negates the sum, up to the sign of a zero.
pub proof fn lemma_add_neg(a: Scalar, b: Scalar)
    ensures
        a.neg_spec().add_spec(b.neg_spec()).is_nan_spec() == a.add_spec(b).is_nan_spec(),
        !a.add_spec(b).is_nan_spec() ==> a.neg_spec().add_spec(b.neg_spec()).units() == -a.add_spec(
            b,
        ).units(),
{
    lemma_neg_units(a);
    lemma_neg_units(b);
    if !a.is_nan_spec() && !b.is_nan_spec() {
        if a.is_infinite_spec() || b.is_infinite_spec() {
        } else {
            let sum = a.units() + b.units();
            if sum < 0 {
                lemma_nearest_rounds(true, -sum, 1);
                lemma_nearest_neg(true, -sum, 1);
                lemma_neg_units(nearest(true, -sum, 1));
            } else if sum > 0 {
                lemma_nearest_rounds(false, sum, 1);
                lemma_nearest_neg(false, sum, 1);
                lemma_neg_units(nearest(false, sum, 1));
            }
        }
    }
}

/// The dot product with the opposite vector is the opposite dot product,
/// up to the sign of a zero.
pub proof fn lemma_dot_opposite(d: Vec3, n: Vec3)
    requires
        !n.0[0].is_nan_spec(),
        !n.0[1].is_nan_spec(),
        !n.0[2].is_nan_spec(),
    ensures
        ({
            let opposite = n.mul_scalar_spec(Scalar { bits: crate::hittable::MINUS_ONE_BITS });
            &&& d.dot_spec(opposite).is_nan_spec() == d.dot_spec(n).is_nan_spec()
            &&& !d.dot_spec(n).is_nan_spec() ==> d.dot_spec(opposite).units() == -d.dot_spec(
                n,
            ).units()
        }),
{
    let opposite = n.mul_scalar_spec(Scalar { bits: crate::hittable::MINUS_ONE_BITS });
    lemma_times_minus_one(n.0[0]);
    lemma_times_minus_one(n.0[1]);
    lemma_times_minus_one(n.0[2]);
    let px = d.0[0].mul_spec(n.0[0]);
    let py = d.0[1].mul_spec(n.0[1]);
    let pz = d.0[2].mul_spec(n.0[2]);
    let qx = d.0[0].mul_spec(opposite.0[0]);
    let qy = d.0[1].mul_spec(opposite.0[1]);
    let qz = d.0[2].mul_spec(opposite.0[2]);
    lemma_mul_neg(d.0[0], n.0[0]);
    lemma_mul_neg(d.0[1], n.0[1]);
    lemma_mul_neg(d.0[2], n.0[2]);
    if !px.is_nan_spec() && !py.is_nan_spec() && !pz.is_nan_spec() {
        lemma_add_neg(px, py);
        let s = px.add_spec(py);
        let t = qx.add_spec(qy);
        if !s.is_nan_spec() {
            lemma_neg_units(s);
            lemma_neg_units(pz);
            lemma_sum_of_same_units(t, qz, s.neg_spec(), pz.neg_spec());
            lemma_add_neg(s, pz);
        }
    }
}

/// Adding or taking away a zero leaves a number as it is, up to the sign of
/// a zero.
pub proof fn lemma_add_zero(x: Scalar, z: Scalar)
    requires
        z.magnitude() == 0,
    ensures
        x.add_spec(z).is_nan_spec() == x.is_nan_spec(),
        x.sub_spec(z).is_nan_spec() == x.is_nan_spec(),
        !x.is_nan_spec() ==> x.add_spec(z).units() == x.units() && x.sub_spec(z).units()
            == x.units(),
        !x.is_nan_spec() && x.magnitude() != 0 ==> x.add_spec(z) == x && x.sub_spec(z) == x,
{
    lemma_magnitude_order(z, Scalar { bits: 0 });
    lemma_magnitude_order(x, Scalar { bits: 0 });
    lemma_neg_units(z);
    lemma_magnitude_order(z.neg_spec(), Scalar { bits: 0 });
    if !x.is_nan_spec() && !x.is_infinite_spec() && x.magnitude() != 0 {
        lemma_round_exact(x, 1);
        assert(x.magnitude() * 1 == x.magnitude());
    }
}

/// A quotient depends on the units of its dividend only, up to the sign of
/// a zero.
pub proof fn lemma_quotient_of_same_units(a: Scalar, b: Scalar, d: Scalar)
    requires
        a.is_nan_spec() == b.is_nan_spec(),
        !a.is_nan_spec() ==> a.units() == b.units(),
    ensures
        a.div_spec(d).is_nan_spec() == b.div_spec(d).is_nan_spec(),
        !a.div_spec(d).is_nan_spec() ==> a.div_spec(d).units() == b.div_spec(d).units(),
{
    if !a.is_nan_spec() {
        lemma_magnitude_order(a, b);
        lemma_magnitude_order(a, Scalar { bits: 0 });
        lemma_magnitude_order(b, Scalar { bits: 0 });
        lemma_magnitude_order(d, Scalar { bits: 0 });
        if a.magnitude() == 0 && !d.is_nan_spec() && !d.is_infinite_spec() && d.magnitude() != 0 {
            lemma_round_zero(zero(a.sign() != d.sign()), a.sign() != d.sign(), d.magnitude() as int);
            lemma_round_zero(zero(b.sign() != d.sign()), b.sign() != d.sign(), d.magnitude() as int);
            lemma_nearest_rounds(a.sign() != d.sign(), 0, d.magnitude() as int);
            lemma_nearest_rounds(b.sign() != d.sign(), 0, d.magnitude() as int);
            lemma_rounds_unique(
                nearest(a.sign() != d.sign(), 0, d.magnitude() as int),
                zero(a.sign() != d.sign()),
                a.sign() != d.sign(),
                0,
                d.magnitude() as int,
            );
            lemma_rounds_unique(
                nearest(b.sign() != d.sign(), 0, d.magnitude() as int),
                zero(b.sign() != d.sign()),
                b.sign() != d.sign(),
                0,
                d.magnitude() as int,
            );
            assert(a.magnitude() * pow2(149) == 0) by (nonlinear_arith)
                requires
                    a.magnitude() == 0,
            ;
            assert(b.magnitude() * pow2(149) == 0) by (nonlinear_arith)
                requires
                    b.magnitude() == 0,
            ;
        }
    }
}

/// A sum depends on the units of its terms only, up to the sign of a zero.
pub proof fn lemma_sum_of_same_units(a: Scalar, b: Scalar, c: Scalar, d: Scalar)
    requires
        !a.is_nan_spec(),
        !c.is_nan_spec(),
        a.units() == c.units(),
        b == d,
    ensures
        a.add_spec(b).is_nan_spec() == c.add_spec(d).is_nan_spec(),
        !a.add_spec(b).is_nan_spec() ==> a.add_spec(b).units() == c.add_spec(d).units(),
{
    lemma_magnitude_order(a, c);
    lemma_magnitude_order(a, Scalar { bits: 0 });
    lemma_magnitude_order(c, Scalar { bits: 0 });
}

} // verus!
