//! IEEE-754 binary32 numbers, held by their bit patterns.
//!
//! A pattern has a sign bit, eight exponent bits and twenty-three fraction
//! bits. Every finite pattern stands for a whole number of units of
//! 2<sup>-149</sup>, the smallest positive value of the format, so the model
//! of a number is a mathematical integer: [`Scalar::units`]. The operations
//! here are the ones whose result is exact: classification, comparison and
//! negation.

use vstd::arithmetic::mul::{lemma_mul_inequality, lemma_mul_strict_inequality};
use vstd::arithmetic::power2::{
    lemma_pow2_pos,
    lemma_pow2_strictly_increases,
    lemma_pow2_unfold,
    pow2,
};
use vstd::prelude::*;

verus! {

/// The pattern of the sign bit alone.
pub const SIGN_BIT: u32 = 0x8000_0000;

/// The pattern of positive infinity: all exponent bits, no fraction bit.
pub const INFINITY_BITS: u32 = 0x7f80_0000;

/// The number of patterns that share one exponent: 2<sup>23</sup>.
pub const FRACTIONS: u32 = 0x0080_0000;

/// The pattern of one.
pub const ONE_BITS: u32 = 0x3f80_0000;

/// A binary32 number.
#[derive(Clone, Copy, Debug)]
pub struct Scalar {
    pub bits: u32,
}

impl Scalar {
    /// The sign bit: set for negative numbers and for negative zero.
    pub open spec fn sign(self) -> bool {
        self.bits >= SIGN_BIT
    }

    /// The pattern without its sign bit.
    pub open spec fn abs_bits(self) -> u32 {
        if self.bits >= SIGN_BIT {
            (self.bits - SIGN_BIT) as u32
        } else {
            self.bits
        }
    }

    /// The exponent field, from 0 to 255.
    pub open spec fn exponent(self) -> nat {
        (self.abs_bits() / FRACTIONS) as nat
    }

    /// The fraction field, below 2<sup>23</sup>.
    pub open spec fn fraction(self) -> nat {
        (self.abs_bits() % FRACTIONS) as nat
    }

    /// Not a number: all exponent bits and some fraction bit.
    pub open spec fn is_nan_spec(self) -> bool {
        self.abs_bits() > INFINITY_BITS
    }

    /// Zero, subnormal or normal: neither infinite nor NaN.
    pub open spec fn is_finite_spec(self) -> bool {
        self.abs_bits() < INFINITY_BITS
    }

    /// The absolute value in units of 2<sup>-149</sup>. Infinity counts as
    /// 2<sup>277</sup> units, which is above every finite value.
    pub open spec fn magnitude(self) -> nat {
        if self.exponent() == 0 {
            self.fraction()
        } else {
            ((FRACTIONS + self.fraction()) * pow2((self.exponent() - 1) as nat)) as nat
        }
    }

    /// The value in units of 2<sup>-149</sup>. Both zeros have no units.
    pub open spec fn units(self) -> int {
        if self.sign() {
            -(self.magnitude() as int)
        } else {
            self.magnitude() as int
        }
    }

    /// `self < other` as the format defines it: false when either is NaN.
    pub open spec fn lt_spec(self, other: Scalar) -> bool {
        !self.is_nan_spec() && !other.is_nan_spec() && self.units() < other.units()
    }

    /// `self <= other` as the format defines it: false when either is NaN.
    pub open spec fn le_spec(self, other: Scalar) -> bool {
        !self.is_nan_spec() && !other.is_nan_spec() && self.units() <= other.units()
    }

    /// The number with the opposite sign bit.
    pub open spec fn neg_spec(self) -> Scalar {
        if self.bits >= SIGN_BIT {
            Scalar { bits: (self.bits - SIGN_BIT) as u32 }
        } else {
            Scalar { bits: (self.bits + SIGN_BIT) as u32 }
        }
    }

    /// The number with the given pattern.
    pub fn from_bits(bits: u32) -> (r: Scalar)
        ensures
            r.bits == bits,
    {
        Scalar { bits }
    }

    /// The pattern of this number.
    pub fn to_bits(self) -> (r: u32)
        ensures
            r == self.bits,
    {
        self.bits
    }

    /// Positive zero.
    pub fn zero() -> (r: Scalar)
        ensures
            r.bits == 0,
            r.units() == 0,
            !r.is_nan_spec(),
    {
        Scalar { bits: 0 }
    }

    /// One.
    pub fn one() -> (r: Scalar)
        ensures
            r.bits == ONE_BITS,
    {
        Scalar { bits: ONE_BITS }
    }

    /// Positive infinity.
    pub fn infinity() -> (r: Scalar)
        ensures
            r.bits == INFINITY_BITS,
            !r.sign(),
            !r.is_nan_spec(),
            !r.is_finite_spec(),
    {
        Scalar { bits: INFINITY_BITS }
    }

    fn magnitude_bits(self) -> (r: u32)
        ensures
            r == self.abs_bits(),
    {
        if self.bits >= SIGN_BIT {
            self.bits - SIGN_BIT
        } else {
            self.bits
        }
    }

    /// Whether this is not a number.
    #[verifier::when_used_as_spec(is_nan_spec)]
    pub fn is_nan(self) -> (r: bool)
        ensures
            r == self.is_nan_spec(),
    {
        self.magnitude_bits() > INFINITY_BITS
    }

    /// `self < other`.
    pub fn lt(self, other: Scalar) -> (r: bool)
        ensures
            r == self.lt_spec(other),
    {
        if self.is_nan() || other.is_nan() {
            return false;
        }
        let a = self.magnitude_bits();
        let b = other.magnitude_bits();
        proof {
            lemma_magnitude_order(self, other);
            lemma_magnitude_order(other, self);
        }
        if self.bits >= SIGN_BIT {
            if other.bits >= SIGN_BIT {
                b < a
            } else {
                a != 0 || b != 0
            }
        } else {
            if other.bits >= SIGN_BIT {
                false
            } else {
                a < b
            }
        }
    }

    /// `self <= other`.
    pub fn le(self, other: Scalar) -> (r: bool)
        ensures
            r == self.le_spec(other),
    {
        if self.is_nan() || other.is_nan() {
            return false;
        }
        let a = self.magnitude_bits();
        let b = other.magnitude_bits();
        proof {
            lemma_magnitude_order(self, other);
            lemma_magnitude_order(other, self);
        }
        if self.bits >= SIGN_BIT {
            if other.bits >= SIGN_BIT {
                b <= a
            } else {
                true
            }
        } else {
            if other.bits >= SIGN_BIT {
                a == 0 && b == 0
            } else {
                a <= b
            }
        }
    }

    /// The number with the opposite sign: the same magnitude, and NaN stays
    /// NaN.
    pub fn neg(self) -> (r: Scalar)
        ensures
            r == self.neg_spec(),
            r.units() == -self.units(),
            r.magnitude() == self.magnitude(),
            r.sign() != self.sign(),
            r.is_nan_spec() == self.is_nan_spec(),
    {
        if self.bits >= SIGN_BIT {
            Scalar { bits: self.bits - SIGN_BIT }
        } else {
            Scalar { bits: self.bits + SIGN_BIT }
        }
    }
}

/// Among patterns of one exponent the magnitude grows with the fraction, and
/// every pattern of a higher exponent lies above all of a lower one.
pub proof fn lemma_magnitude_increases(a: Scalar, b: Scalar)
    requires
        a.abs_bits() < b.abs_bits(),
    ensures
        a.magnitude() < b.magnitude(),
{
    let ea = a.exponent();
    let eb = b.exponent();
    let fa = a.fraction();
    let fb = b.fraction();
    assert(a.abs_bits() == ea * FRACTIONS + fa);
    assert(b.abs_bits() == eb * FRACTIONS + fb);
    assert(ea <= eb);
    if ea == eb {
        if ea > 0 {
            let p = pow2((ea - 1) as nat);
            lemma_pow2_pos((ea - 1) as nat);
            lemma_mul_strict_inequality(
                (FRACTIONS + fa) as int,
                (FRACTIONS + fb) as int,
                p as int,
            );
        }
    } else {
        let q = pow2((eb - 1) as nat);
        lemma_pow2_pos((eb - 1) as nat);
        assert(b.magnitude() >= FRACTIONS * q) by {
            lemma_mul_inequality(FRACTIONS as int, (FRACTIONS + fb) as int, q as int);
        }
        if ea == 0 {
            assert(FRACTIONS * q >= FRACTIONS * 1) by (nonlinear_arith)
                requires
                    q >= 1,
            ;
        } else {
            let p = pow2((ea - 1) as nat);
            lemma_pow2_pos((ea - 1) as nat);
            lemma_pow2_unfold(ea);
            if ea < eb - 1 {
                lemma_pow2_strictly_increases(ea, (eb - 1) as nat);
            }
            assert(pow2(ea) <= q);
            assert((FRACTIONS + fa) * p < 2 * FRACTIONS * p) by {
                lemma_mul_strict_inequality(
                    (FRACTIONS + fa) as int,
                    2 * FRACTIONS as int,
                    p as int,
                );
            }
            assert(2 * FRACTIONS * p == FRACTIONS * pow2(ea)) by (nonlinear_arith)
                requires
                    pow2(ea) == 2 * p,
            ;
            assert(FRACTIONS * pow2(ea) <= FRACTIONS * q) by (nonlinear_arith)
                requires
                    pow2(ea) <= q,
            ;
        }
    }
}

/// The magnitudes of two numbers are ordered as their patterns without the
/// sign bit are, and only the zeros have magnitude zero.
pub proof fn lemma_magnitude_order(a: Scalar, b: Scalar)
    ensures
        a.abs_bits() < b.abs_bits() <==> a.magnitude() < b.magnitude(),
        a.abs_bits() == b.abs_bits() <==> a.magnitude() == b.magnitude(),
        a.magnitude() == 0 <==> a.abs_bits() == 0,
{
    if a.abs_bits() < b.abs_bits() {
        lemma_magnitude_increases(a, b);
    }
    if b.abs_bits() < a.abs_bits() {
        lemma_magnitude_increases(b, a);
    }
    let z = Scalar { bits: 0 };
    assert(z.magnitude() == 0);
    if a.abs_bits() > 0 {
        lemma_magnitude_increases(z, a);
    }
}

} // verus!
