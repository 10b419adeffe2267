//! Arithmetic on scalars: each result is the exact one, rounded to the
//! nearest scalar.
//!
//! A result that is not a number has the pattern [`NAN_BITS`], whatever the
//! operands were.

use crate::round::{
    brackets,
    lemma_round_zero,
    lemma_rounds_is_nearest,
    isqrt,
    nearest,
    nearest_root,
    normalize,
    brackets_root,
    round_root_pack,
    round_pack,
    scale,
    two_pow,
};
use crate::scalar::{lemma_magnitude_order, Scalar, FRACTIONS, INFINITY_BITS, SIGN_BIT};
use vstd::arithmetic::power2::{lemma2_to64, lemma_pow2_adds, lemma_pow2_pos, pow2};
use vstd::prelude::*;

verus! {

/// The pattern of the NaN that the operations return.
pub const NAN_BITS: u32 = 0x7fc0_0000;

/// The NaN that the operations return.
pub open spec fn nan() -> Scalar {
    Scalar { bits: NAN_BITS }
}

/// Infinity with the given sign.
pub open spec fn infinity(negative: bool) -> Scalar {
    Scalar {
        bits: if negative {
            (SIGN_BIT + INFINITY_BITS) as u32
        } else {
            INFINITY_BITS
        },
    }
}

/// Zero with the given sign.
pub open spec fn zero(negative: bool) -> Scalar {
    Scalar {
        bits: if negative {
            SIGN_BIT
        } else {
            0
        },
    }
}

impl Scalar {
    /// Positive or negative infinity.
    pub open spec fn is_infinite_spec(self) -> bool {
        self.abs_bits() == INFINITY_BITS
    }

    /// The product: NaN if an operand is NaN or if zero meets infinity,
    /// infinity if an operand is infinite, else the exact product rounded.
    /// The sign is negative where the signs of the operands differ.
    pub open spec fn mul_spec(self, other: Scalar) -> Scalar {
        let negative = self.sign() != other.sign();
        if self.is_nan_spec() || other.is_nan_spec() {
            nan()
        } else if self.is_infinite_spec() || other.is_infinite_spec() {
            if self.magnitude() == 0 || other.magnitude() == 0 {
                nan()
            } else {
                infinity(negative)
            }
        } else {
            nearest(negative, (self.magnitude() * other.magnitude()) as int, pow2(149) as int)
        }
    }

    /// The sum: NaN if an operand is NaN or if the operands are the two
    /// infinities, an infinite operand if there is one, else the exact sum
    /// rounded. A sum of exactly zero is positive zero, unless both operands
    /// are negative zero.
    pub open spec fn add_spec(self, other: Scalar) -> Scalar {
        if self.is_nan_spec() || other.is_nan_spec() {
            nan()
        } else if self.is_infinite_spec() {
            if other.is_infinite_spec() && other.sign() != self.sign() {
                nan()
            } else {
                self
            }
        } else if other.is_infinite_spec() {
            other
        } else {
            let sum = self.units() + other.units();
            if sum == 0 {
                zero(self.sign() && other.sign())
            } else if sum < 0 {
                nearest(true, -sum, 1)
            } else {
                nearest(false, sum, 1)
            }
        }
    }

    /// The quotient: NaN if an operand is NaN, if both are infinite or if
    /// both are zero; infinity where the dividend is infinite or the divisor
    /// zero; zero where the divisor is infinite; else the exact quotient
    /// rounded. The sign is negative where the signs of the operands differ.
    pub open spec fn div_spec(self, other: Scalar) -> Scalar {
        let negative = self.sign() != other.sign();
        if self.is_nan_spec() || other.is_nan_spec() {
            nan()
        } else if self.is_infinite_spec() {
            if other.is_infinite_spec() {
                nan()
            } else {
                infinity(negative)
            }
        } else if other.is_infinite_spec() {
            zero(negative)
        } else if other.magnitude() == 0 {
            if self.magnitude() == 0 {
                nan()
            } else {
                infinity(negative)
            }
        } else {
            nearest(negative, (self.magnitude() * pow2(149)) as int, other.magnitude() as int)
        }
    }

    /// The square root: NaN of a NaN and of a negative number, a zero of the
    /// same zero, infinity of infinity, else the exact root rounded.
    pub open spec fn sqrt_spec(self) -> Scalar {
        if self.is_nan_spec() {
            nan()
        } else if self.magnitude() == 0 {
            self
        } else if self.sign() {
            nan()
        } else if self.is_infinite_spec() {
            self
        } else {
            nearest_root((self.magnitude() * pow2(149)) as int)
        }
    }

    /// The scalar nearest to the whole number `n`.
    pub open spec fn from_usize_spec(n: usize) -> Scalar {
        nearest(false, n * pow2(149), 1)
    }

    /// The difference: the sum of `self` and the negated `other`.
    pub open spec fn sub_spec(self, other: Scalar) -> Scalar {
        self.add_spec(other.neg_spec())
    }

    /// The pattern without its sign bit, the leading bits and the exponent
    /// of a finite scalar: its magnitude is `leading * 2^exponent` units.
    pub(crate) fn parts(self) -> (r: (u32, u64, u32))
        ensures
            r.0 == self.abs_bits(),
            r.2 == if self.exponent() == 0 || self.exponent() == 255 {
                0
            } else {
                self.exponent() - 1
            },
            self.is_finite_spec() ==> {
                &&& self.magnitude() == r.1 * pow2(r.2 as nat)
                &&& r.1 < 2 * FRACTIONS
                &&& r.2 <= 253
                &&& (r.1 == 0 <==> self.abs_bits() == 0)
                &&& (r.2 > 0 ==> r.1 >= FRACTIONS)
            },
    {
        let abs: u32 = if self.bits >= SIGN_BIT {
            self.bits - SIGN_BIT
        } else {
            self.bits
        };
        let e: u32 = abs / FRACTIONS;
        let f: u32 = abs % FRACTIONS;
        proof {
            lemma2_to64();
        }
        if e == 0 {
            assert(f * pow2(0) == f) by (nonlinear_arith)
                requires
                    pow2(0) == 1,
            ;
            (abs, f as u64, 0)
        } else if e == 255 {
            (abs, 0, 0)
        } else {
            (abs, (FRACTIONS + f) as u64, e - 1)
        }
    }

    /// `self * other`.
    pub fn mul(self, other: Scalar) -> (r: Scalar)
        ensures
            r == self.mul_spec(other),
    {
        let negative = (self.bits >= SIGN_BIT) != (other.bits >= SIGN_BIT);
        let sign: u32 = if negative {
            SIGN_BIT
        } else {
            0
        };
        let (a, ma, ea) = self.parts();
        let (b, mb, eb) = other.parts();
        proof {
            lemma_magnitude_order(self, Scalar { bits: 0 });
            lemma_magnitude_order(other, Scalar { bits: 0 });
        }
        if a > INFINITY_BITS || b > INFINITY_BITS {
            return Scalar { bits: NAN_BITS };
        }
        if a == INFINITY_BITS || b == INFINITY_BITS {
            if a == 0 || b == 0 {
                return Scalar { bits: NAN_BITS };
            }
            return Scalar { bits: sign + INFINITY_BITS };
        }
        let ghost num = (self.magnitude() * other.magnitude()) as int;
        let ghost den = pow2(149) as int;
        proof {
            lemma_pow2_pos(149);
            assert(ma * mb < 0x1_0000_0000_0000) by (nonlinear_arith)
                requires
                    ma < 0x100_0000,
                    mb < 0x100_0000,
            ;
        }
        let p: u64 = ma * mb;
        if p == 0 {
            let r = Scalar { bits: sign };
            proof {
                assert(ma == 0 || mb == 0) by (nonlinear_arith)
                    requires
                        ma * mb == 0,
                ;
                assert(num == 0) by (nonlinear_arith)
                    requires
                        num == self.magnitude() * other.magnitude(),
                        self.magnitude() == 0 || other.magnitude() == 0,
                ;
                lemma_round_zero(r, negative, den);
                lemma_rounds_is_nearest(r, negative, num, den);
            }
            return r;
        }
        let (m, n) = normalize(p);
        let x: u32 = ea + eb + 107 - n;
        proof {
            let pa = pow2(ea as nat) as int;
            let pb = pow2(eb as nat) as int;
            lemma_pow2_adds(ea as nat, eb as nat);
            lemma_pow2_adds(n as nat, x as nat);
            lemma_pow2_adds((ea + eb + 107) as nat, 149);
            lemma_pow2_adds((ea + eb) as nat, 256);
            assert(num == p * pow2((ea + eb) as nat)) by (nonlinear_arith)
                requires
                    num == (ma * pa) * (mb * pb),
                    p == ma * mb,
                    pow2((ea + eb) as nat) == pa * pb,
            ;
            assert((m * pow2(x as nat)) * den == num * pow2(256)) by (nonlinear_arith)
                requires
                    m == p * pow2(n as nat),
                    pow2(n as nat) * pow2(x as nat) == pow2((ea + eb + 107) as nat),
                    pow2((ea + eb + 107) as nat) * den == pow2((ea + eb + 256) as nat),
                    pow2((ea + eb + 256) as nat) == pow2((ea + eb) as nat) * pow2(256),
                    num == p * pow2((ea + eb) as nat),
            ;
            lemma_brackets_exact(m as int, x as nat, num, den);
        }
        round_pack(negative, m, x, false, Ghost(0), Ghost(num), Ghost(den))
    }
}

impl Scalar {
    /// `self + other`.
    pub fn add(self, other: Scalar) -> (r: Scalar)
        ensures
            r == self.add_spec(other),
    {
        let (a, ma, ea) = self.parts();
        let (b, mb, eb) = other.parts();
        let na = self.bits >= SIGN_BIT;
        let nb = other.bits >= SIGN_BIT;
        if a > INFINITY_BITS || b > INFINITY_BITS {
            return Scalar { bits: NAN_BITS };
        }
        if a == INFINITY_BITS {
            if b == INFINITY_BITS && na != nb {
                return Scalar { bits: NAN_BITS };
            }
            return self;
        }
        if b == INFINITY_BITS {
            return other;
        }
        proof {
            lemma_magnitude_order(self, other);
            lemma_magnitude_order(other, self);
        }
        // the operand of the larger magnitude comes first
        let (negative, m1, e1, m2, e2) = if a >= b {
            (na, ma, ea, mb, eb)
        } else {
            (nb, mb, eb, ma, ea)
        };
        let same = na == nb;
        let ghost sum = self.units() + other.units();
        let ghost num: int = if same {
            m1 * pow2(e1 as nat) + m2 * pow2(e2 as nat)
        } else {
            m1 * pow2(e1 as nat) - m2 * pow2(e2 as nat)
        };
        assert(e1 >= e2);
        assert(num == if sum < 0 {
            -sum
        } else {
            sum
        });
        assert(sum != 0 ==> (sum < 0 <==> negative));
        proof {
            lemma2_to64();
            vstd::arithmetic::power2::lemma2_to64_rest();
        }
        let top: u64 = m1 * 0x40_0000_0000;
        let (low, sticky) = shifted(m2 * 0x40_0000_0000, e1 - e2);
        let ghost lost = (m2 * pow2(38)) % (pow2((e1 - e2) as nat) as int);
        proof {
            assert(pow2(38) == 0x40_0000_0000);
            assert(m2 * pow2(38) == m2 * 0x40_0000_0000);
            assert(m1 * pow2(38) == top);
            lemma_pow2_pos((e1 - e2) as nat);
            vstd::arithmetic::div_mod::lemma_mod_bound(
                m2 * pow2(38),
                pow2((e1 - e2) as nat) as int,
            );
            assert(sticky <==> lost > 0);
            lemma_aligned_order(m1 as int, e1 as nat, m2 as int, e2 as nat, low as int, lost);
        }
        let total: u64 = if same {
            top + low
        } else if sticky {
            top - low - 1
        } else {
            top - low
        };
        proof {
            lemma_aligned_total(
                m1 as int,
                e1 as nat,
                m2 as int,
                e2 as nat,
                same,
                low as int,
                lost,
                total as int,
                num,
            );
            lemma_pow2_pos(e1 as nat);
        }
        if total == 0 {
            proof {
                assert(num == 0) by (nonlinear_arith)
                    requires
                        0 <= num * pow2(38) < (0 + 1) * pow2(e1 as nat),
                        !sticky,
                        sticky <==> 0 * pow2(e1 as nat) < num * pow2(38),
                        pow2(38) > 0,
                ;
            }
            return Scalar {
                bits: if na && nb {
                    SIGN_BIT
                } else {
                    0
                },
            };
        }
        let (m, n) = normalize(total);
        let x: u32 = e1 + 218 - n;
        proof {
            if sticky {
                assert(total >= 0x1000_0000_0000_0000);
                if n >= 4 {
                    if n > 4 {
                        vstd::arithmetic::power2::lemma_pow2_strictly_increases(4, n as nat);
                    }
                    assert(total * pow2(n as nat) >= 0x1000_0000_0000_0000 * 16)
                        by (nonlinear_arith)
                        requires
                            total >= 0x1000_0000_0000_0000,
                            pow2(n as nat) >= 16,
                    ;
                }
                assert(n <= 3);
            }
            assert(num > 0) by (nonlinear_arith)
                requires
                    total > 0,
                    total * pow2(e1 as nat) <= num * pow2(38),
                    pow2(e1 as nat) > 0,
            ;
            lemma_brackets_aligned(
                total as int,
                n as nat,
                m as int,
                e1 as nat,
                x as nat,
                sticky,
                num,
            );
        }
        let ghost g: nat = if sticky {
            n as nat
        } else {
            0
        };
        round_pack(negative, m, x, sticky, Ghost(g), Ghost(num), Ghost(1))
    }

    /// `self - other`.
    pub fn sub(self, other: Scalar) -> (r: Scalar)
        ensures
            r == self.sub_spec(other),
    {
        self.add(other.neg())
    }
}

/// Shifts the leading bits of a finite scalar that is not zero up to 24
/// places and tells by how much.
fn leading(m: u64) -> (r: (u64, u32))
    requires
        0 < m < 2 * FRACTIONS,
    ensures
        r.0 == m * pow2(r.1 as nat),
        FRACTIONS <= r.0 < 2 * FRACTIONS,
        r.1 <= 23,
{
    let (v, n) = normalize(m);
    proof {
        lemma2_to64();
        vstd::arithmetic::power2::lemma2_to64_rest();
        lemma_pow2_pos(n as nat);
        if n < 40 {
            if n < 39 {
                vstd::arithmetic::power2::lemma_pow2_strictly_increases(n as nat, 39);
            }
            assert(m * pow2(n as nat) < 0x100_0000 * 0x80_0000_0000) by (nonlinear_arith)
                requires
                    m < 0x100_0000,
                    pow2(n as nat) <= 0x80_0000_0000,
                    0 < m,
            ;
        }
        lemma_pow2_adds((n - 40) as nat, 40);
        assert(v == (m * pow2((n - 40) as nat)) * 0x100_0000_0000) by (nonlinear_arith)
            requires
                v == m * pow2(n as nat),
                pow2(n as nat) == pow2((n - 40) as nat) * 0x100_0000_0000,
        ;
    }
    (v / 0x100_0000_0000, n - 40)
}

impl Scalar {
    /// `self / other`.
    pub fn div(self, other: Scalar) -> (r: Scalar)
        ensures
            r == self.div_spec(other),
    {
        let negative = (self.bits >= SIGN_BIT) != (other.bits >= SIGN_BIT);
        let sign: u32 = if negative {
            SIGN_BIT
        } else {
            0
        };
        let (a, ma, ea) = self.parts();
        let (b, mb, eb) = other.parts();
        proof {
            lemma_magnitude_order(self, Scalar { bits: 0 });
            lemma_magnitude_order(other, Scalar { bits: 0 });
        }
        if a > INFINITY_BITS || b > INFINITY_BITS {
            return Scalar { bits: NAN_BITS };
        }
        if a == INFINITY_BITS {
            if b == INFINITY_BITS {
                return Scalar { bits: NAN_BITS };
            }
            return Scalar { bits: sign + INFINITY_BITS };
        }
        if b == INFINITY_BITS {
            return Scalar { bits: sign };
        }
        if b == 0 {
            if a == 0 {
                return Scalar { bits: NAN_BITS };
            }
            return Scalar { bits: sign + INFINITY_BITS };
        }
        let ghost num = (self.magnitude() * pow2(149)) as int;
        let ghost den = other.magnitude() as int;
        if a == 0 {
            let r = Scalar { bits: sign };
            proof {
                assert(num == 0) by (nonlinear_arith)
                    requires
                        num == self.magnitude() * pow2(149),
                        self.magnitude() == 0,
                ;
                lemma_round_zero(r, negative, den);
                lemma_rounds_is_nearest(r, negative, num, den);
            }
            return r;
        }
        let (la, ta) = leading(ma);
        let (lb, tb) = leading(mb);
        let q: u64 = (la * 0x100_0000_0000) / lb;
        let rest: u64 = (la * 0x100_0000_0000) % lb;
        proof {
            vstd::arithmetic::div_mod::lemma_fundamental_div_mod(
                (la * 0x100_0000_0000) as int,
                lb as int,
            );
            assert(q >= 0x80_0000_0000) by (nonlinear_arith)
                requires
                    la * 0x100_0000_0000 == lb * q + rest,
                    rest < lb,
                    lb < 0x100_0000,
                    la >= 0x80_0000,
            ;
        }
        let (m, n) = normalize(q);
        proof {
            lemma2_to64();
            vstd::arithmetic::power2::lemma2_to64_rest();
            if n > 24 {
                if n > 25 {
                    vstd::arithmetic::power2::lemma_pow2_strictly_increases(25, n as nat);
                }
                assert(q * pow2(n as nat) >= 0x80_0000_0000 * 0x200_0000) by (nonlinear_arith)
                    requires
                        q >= 0x80_0000_0000,
                        pow2(n as nat) >= 0x200_0000,
                ;
            }
        }
        let x: u32 = (365 + ea + tb) - (eb + ta) - n;
        proof {
            lemma_brackets_quotient(
                ma as int,
                ea as nat,
                ta as nat,
                la as int,
                mb as int,
                eb as nat,
                tb as nat,
                lb as int,
                q as int,
                rest as int,
                n as nat,
                m as int,
                x as nat,
            );
        }
        round_pack(negative, m, x, rest != 0, Ghost(n as nat), Ghost(num), Ghost(den))
    }
}

impl Scalar {
    /// The square root of `self`.
    pub fn sqrt(self) -> (r: Scalar)
        ensures
            r == self.sqrt_spec(),
    {
        let (a, ma, ea) = self.parts();
        proof {
            lemma_magnitude_order(self, Scalar { bits: 0 });
        }
        if a > INFINITY_BITS {
            return Scalar { bits: NAN_BITS };
        }
        if a == 0 {
            return self;
        }
        if self.bits >= SIGN_BIT {
            return Scalar { bits: NAN_BITS };
        }
        if a == INFINITY_BITS {
            return self;
        }
        let (la, ta) = leading(ma);
        // the exponent of the radicand, made even
        let e: u32 = ea + 149 - ta;
        let odd = e % 2 == 1;
        let lead: u64 = if odd {
            2 * la
        } else {
            la
        };
        let half: u32 = e / 2;
        let v: u64 = lead * 0x40_0000_0000;
        let root = isqrt(v);
        let inexact = root * root != v;
        proof {
            assert(root >= 0x4000_0000) by (nonlinear_arith)
                requires
                    v < (root + 1) * (root + 1),
                    v >= 0x80_0000 * 0x40_0000_0000,
                    0 <= root,
            ;
        }
        let (m, n) = normalize(root);
        proof {
            lemma2_to64();
            vstd::arithmetic::power2::lemma2_to64_rest();
            if n > 33 {
                if n > 34 {
                    vstd::arithmetic::power2::lemma_pow2_strictly_increases(34, n as nat);
                }
                assert(root * pow2(n as nat) >= 0x4000_0000 * 0x4_0000_0000) by (nonlinear_arith)
                    requires
                        root >= 0x4000_0000,
                        pow2(n as nat) >= 0x4_0000_0000,
                ;
            }
        }
        let x: u32 = half + 237 - n;
        let ghost radicand = (self.magnitude() * pow2(149)) as int;
        proof {
            lemma_brackets_root(
                ma as int,
                ea as nat,
                ta as nat,
                la as int,
                lead as int,
                half as nat,
                v as int,
                root as int,
                n as nat,
                m as int,
                x as nat,
            );
        }
        round_root_pack(m, x, inexact, Ghost(n as nat), Ghost(radicand))
    }
}

impl Scalar {
    /// The scalar nearest to the whole number `n`: `n` itself where it has
    /// no more than 24 significant bits.
    pub fn from_usize(n: usize) -> (r: Scalar)
        ensures
            r == Self::from_usize_spec(n),
    {
        let ghost num = n * pow2(149);
        if n == 0 {
            let r = Scalar { bits: 0 };
            proof {
                assert(num == 0) by (nonlinear_arith)
                    requires
                        num == n * pow2(149),
                        n == 0,
                ;
                lemma_round_zero(r, false, 1);
                lemma_rounds_is_nearest(r, false, num, 1);
            }
            return r;
        }
        let (m, shift) = normalize(n as u64);
        let x: u32 = 405 - shift;
        proof {
            lemma_pow2_adds(shift as nat, x as nat);
            lemma_pow2_adds(149, 256);
            assert((m * pow2(x as nat)) * 1 == num * pow2(256)) by (nonlinear_arith)
                requires
                    m == n * pow2(shift as nat),
                    pow2(shift as nat) * pow2(x as nat) == pow2(149) * pow2(256),
                    num == n * pow2(149),
            ;
            lemma_brackets_exact(m as int, x as nat, num, 1);
        }
        round_pack(false, m, x, false, Ghost(0), Ghost(num), Ghost(1))
    }
}

/// The whole part of a square root, handed over for rounding.
proof fn lemma_brackets_root(
    ma: int,
    ea: nat,
    ta: nat,
    la: int,
    lead: int,
    half: nat,
    v: int,
    root: int,
    n: nat,
    m: int,
    x: nat,
)
    requires
        0 < ma,
        la == ma * pow2(ta),
        ta <= 23,
        lead == if (ea + 149 - ta) % 2 == 1 {
            2 * la
        } else {
            la
        },
        half == (ea + 149 - ta) / 2,
        v == lead * pow2(38),
        0 <= root,
        root * root <= v < (root + 1) * (root + 1),
        m == root * pow2(n),
        x + n == half + 237,
    ensures
        brackets_root(m, n, x, root * root != v, (ma * pow2(ea)) * pow2(149)),
{
    let e = (ea + 149 - ta) as nat;
    let radicand = (ma * pow2(ea)) * pow2(149);
    let w = pow2(256) as int;
    let c = pow2(half + 237) as int;
    let px = pow2(x) as int;
    let pn = pow2(n) as int;
    lemma2_to64();
    lemma_pow2_pos(half + 237);
    lemma_pow2_pos(x);
    lemma_pow2_pos(n);
    lemma_pow2_adds(n, x);
    assert(pn * px == c);
    // radicand * w * w == v * c * c
    lemma_pow2_adds(256, 256);
    lemma_pow2_adds(half + 237, half + 237);
    lemma_pow2_adds(ea, 149);
    lemma_pow2_adds(ea + 149, 512);
    lemma_pow2_adds(ta, e);
    lemma_pow2_adds(ta + e, 512);
    assert(ta + e == ea + 149);
    if e % 2 == 1 {
        assert(2 * half + 1 == e);
        lemma_pow2_adds(1, 38);
        lemma_pow2_adds(39, 2 * half + 474);
        assert(pow2(e + 512) == (2 * pow2(38)) * pow2(2 * half + 474));
    } else {
        assert(2 * half == e);
        lemma_pow2_adds(38, 2 * half + 474);
        assert(pow2(e + 512) == pow2(38) * pow2(2 * half + 474));
    }
    assert(c * c == pow2(2 * half + 474));
    lemma_pow2_adds(e, 512);
    let pe = pow2(e) as int;
    let big = pow2(e + 512) as int;
    let f: int = if e % 2 == 1 {
        2
    } else {
        1
    };
    assert(radicand == la * pe) by (nonlinear_arith)
        requires
            radicand == (ma * pow2(ea)) * pow2(149),
            pow2(ea) * pow2(149) == pow2(ta) * pe,
            la == ma * pow2(ta),
    ;
    assert(radicand * (w * w) == la * big) by (nonlinear_arith)
        requires
            radicand == la * pe,
            w * w == pow2(512),
            pe * pow2(512) == big,
    ;
    assert(big == (f * pow2(38)) * (c * c));
    assert(la * big == v * (c * c)) by (nonlinear_arith)
        requires
            big == (f * pow2(38)) * (c * c),
            v == lead * pow2(38),
            lead == f * la,
    ;
    assert((m * px) * (m * px) == (root * root) * (c * c)) by (nonlinear_arith)
        requires
            m == root * pn,
            pn * px == c,
    ;
    assert(((m + pn) * px) * ((m + pn) * px) == ((root + 1) * (root + 1)) * (c * c))
        by (nonlinear_arith)
        requires
            m == root * pn,
            pn * px == c,
    ;
    let cc = c * c;
    assert(cc > 0) by (nonlinear_arith)
        requires
            c > 0,
            cc == c * c,
    ;
    assert((root * root) * cc <= v * cc < ((root + 1) * (root + 1)) * cc && (root * root != v
        <==> (root * root) * cc < v * cc)) by (nonlinear_arith)
        requires
            root * root <= v < (root + 1) * (root + 1),
            cc > 0,
    ;
    vstd::arithmetic::div_mod::lemma_mod_multiples_basic(root, pn);
}

/// A quotient of leading bits, handed over for rounding.
proof fn lemma_brackets_quotient(
    ma: int,
    ea: nat,
    ta: nat,
    la: int,
    mb: int,
    eb: nat,
    tb: nat,
    lb: int,
    q: int,
    rest: int,
    n: nat,
    m: int,
    x: nat,
)
    requires
        0 < ma,
        0 < mb,
        la == ma * pow2(ta),
        lb == mb * pow2(tb),
        ta <= 23,
        tb <= 23,
        eb <= 253,
        la * pow2(40) == lb * q + rest,
        0 <= rest < lb,
        0 < q,
        m == q * pow2(n),
        n <= 38,
        x + n + eb + ta == 365 + ea + tb,
    ensures
        brackets(m, n, x, rest != 0, (ma * pow2(ea)) * pow2(149), mb * pow2(eb)),
{
    let num = (ma * pow2(ea)) * pow2(149);
    let den = mb * pow2(eb);
    let w = pow2(256) as int;
    let l = pow2((365 + ea - ta) as nat) as int;
    let px = pow2(x) as int;
    let pn = pow2(n) as int;
    lemma_pow2_pos((365 + ea - ta) as nat);
    lemma_pow2_pos(x);
    lemma_pow2_pos(n);
    lemma_pow2_pos(eb);
    lemma_pow2_pos(tb);
    // 2^n * 2^x * 2^eb == 2^tb * l
    lemma_pow2_adds(n, x);
    lemma_pow2_adds(n + x, eb);
    lemma_pow2_adds(tb, (365 + ea - ta) as nat);
    assert(pn * px * pow2(eb) == pow2(tb) * l);
    // 2^ea * 2^149 * 2^256 == 2^ta * 2^40 * l
    lemma_pow2_adds(ea, 149);
    lemma_pow2_adds(ea + 149, 256);
    lemma_pow2_adds(ta, 40);
    lemma_pow2_adds(ta + 40, (365 + ea - ta) as nat);
    assert(pow2(ea) * pow2(149) * w == pow2(ta) * pow2(40) * l);
    assert((m * px) * den == (q * lb) * l) by (nonlinear_arith)
        requires
            m == q * pn,
            den == mb * pow2(eb),
            lb == mb * pow2(tb),
            pn * px * pow2(eb) == pow2(tb) * l,
    ;
    assert(((m + pn) * px) * den == ((q + 1) * lb) * l) by (nonlinear_arith)
        requires
            m == q * pn,
            den == mb * pow2(eb),
            lb == mb * pow2(tb),
            pn * px * pow2(eb) == pow2(tb) * l,
    ;
    assert(num * w == (la * pow2(40)) * l) by (nonlinear_arith)
        requires
            num == (ma * pow2(ea)) * pow2(149),
            la == ma * pow2(ta),
            pow2(ea) * pow2(149) * w == pow2(ta) * pow2(40) * l,
    ;
    assert((q * lb) * l <= (la * pow2(40)) * l < ((q + 1) * lb) * l && (rest != 0 <==> (q * lb) * l
        < (la * pow2(40)) * l)) by (nonlinear_arith)
        requires
            la * pow2(40) == lb * q + rest,
            0 <= rest < lb,
            l > 0,
    ;
    assert(den > 0) by (nonlinear_arith)
        requires
            den == mb * pow2(eb),
            mb > 0,
            pow2(eb) > 0,
    ;
    vstd::arithmetic::div_mod::lemma_mod_multiples_basic(q, pn);
}

/// Shifts `full` down by `d` places and tells whether anything was lost.
fn shifted(full: u64, d: u32) -> (r: (u64, bool))
    requires
        full < 0x4000_0000_0000_0000,
    ensures
        r.0 == full as int / (pow2(d as nat) as int),
        r.1 <==> full as int % (pow2(d as nat) as int) != 0,
{
    proof {
        lemma2_to64();
        vstd::arithmetic::power2::lemma2_to64_rest();
        lemma_pow2_pos(d as nat);
    }
    if d >= 64 {
        proof {
            vstd::arithmetic::power2::lemma_pow2_strictly_increases(62, d as nat);
            vstd::arithmetic::div_mod::lemma_basic_div(full as int, pow2(d as nat) as int);
            vstd::arithmetic::div_mod::lemma_small_mod(full as nat, pow2(d as nat));
        }
        (0, full != 0)
    } else {
        let t = two_pow(d);
        (full / t, full % t != 0)
    }
}

/// The smaller operand, shifted into the places of the larger one, does not
/// exceed it; what the shift lost lies more than 38 places down.
proof fn lemma_aligned_order(m1: int, e1: nat, m2: int, e2: nat, low: int, lost: int)
    requires
        e1 >= e2,
        0 <= m1 < 2 * FRACTIONS,
        0 <= m2 < 2 * FRACTIONS,
        e1 > 0 ==> m1 >= FRACTIONS,
        m1 * pow2(e1) >= m2 * pow2(e2),
        low == (m2 * pow2(38)) / (pow2((e1 - e2) as nat) as int),
        lost == (m2 * pow2(38)) % (pow2((e1 - e2) as nat) as int),
    ensures
        0 <= low,
        m1 * pow2(38) >= low,
        lost > 0 ==> m1 * pow2(38) > low,
        lost > 0 ==> m1 * pow2(38) - low - 1 >= 0x1000_0000_0000_0000,
        m1 * pow2(38) + low < 0x8000_0000_0000_0000,
{
    let d = (e1 - e2) as nat;
    let t = pow2(d) as int;
    let full = m2 * pow2(38);
    lemma2_to64();
    vstd::arithmetic::power2::lemma2_to64_rest();
    lemma_pow2_pos(d);
    lemma_pow2_pos(e1);
    lemma_pow2_pos(e2);
    lemma_pow2_adds(d, e2);
    vstd::arithmetic::div_mod::lemma_fundamental_div_mod(full, t);
    vstd::arithmetic::div_mod::lemma_mod_bound(full, t);
    assert(low * t + lost == full) by (nonlinear_arith)
        requires
            full == t * low + lost,
    ;
    assert(0 <= low) by (nonlinear_arith)
        requires
            low * t + lost == full,
            lost < t,
            full >= 0,
            t > 0,
    ;
    assert(low <= full) by (nonlinear_arith)
        requires
            low * t + lost == full,
            0 <= lost,
            t >= 1,
            low >= 0,
    ;
    // in multiples of 2^e2: m1 * 2^38 * t >= full >= low * t
    assert(m1 * pow2(38) >= low && (lost > 0 ==> m1 * pow2(38) > low)) by (nonlinear_arith)
        requires
            m1 * (t * pow2(e2)) >= m2 * pow2(e2),
            low * t + lost == m2 * pow2(38),
            0 <= lost,
            pow2(e2) > 0,
            t > 0,
            pow2(38) > 0,
    ;
    if lost > 0 {
        if d <= 38 {
            lemma_pow2_adds(d, (38 - d) as nat);
            assert(full == t * (m2 * pow2((38 - d) as nat)) + 0) by (nonlinear_arith)
                requires
                    full == m2 * pow2(38),
                    pow2(38) == t * pow2((38 - d) as nat),
            ;
            vstd::arithmetic::div_mod::lemma_fundamental_div_mod_converse(
                full,
                t,
                m2 * pow2((38 - d) as nat),
                0,
            );
        }
        assert(d >= 39);
        if d > 39 {
            vstd::arithmetic::power2::lemma_pow2_strictly_increases(39, d);
        }
        assert(low < 0x100_0000) by (nonlinear_arith)
            requires
                low * t <= m2 * 0x40_0000_0000,
                m2 < 0x100_0000,
                t >= 0x80_0000_0000,
                low >= 0,
        ;
    }
}

/// The sum or difference of the aligned operands, as far as it was kept,
/// brackets the exact one.
proof fn lemma_aligned_total(
    m1: int,
    e1: nat,
    m2: int,
    e2: nat,
    same: bool,
    low: int,
    lost: int,
    total: int,
    num: int,
)
    requires
        e1 >= e2,
        0 <= m1,
        0 <= m2,
        low == (m2 * pow2(38)) / (pow2((e1 - e2) as nat) as int),
        lost == (m2 * pow2(38)) % (pow2((e1 - e2) as nat) as int),
        num == if same {
            m1 * pow2(e1) + m2 * pow2(e2)
        } else {
            m1 * pow2(e1) - m2 * pow2(e2)
        },
        total == if same {
            m1 * pow2(38) + low
        } else if lost > 0 {
            m1 * pow2(38) - low - 1
        } else {
            m1 * pow2(38) - low
        },
    ensures
        total * pow2(e1) <= num * pow2(38) < (total + 1) * pow2(e1),
        lost > 0 <==> total * pow2(e1) < num * pow2(38),
        lost >= 0,
{
    let d = (e1 - e2) as nat;
    let t = pow2(d) as int;
    let pow_big = pow2(e1) as int;
    let pow_small = pow2(e2) as int;
    let full = m2 * pow2(38);
    let rest = lost * pow_small;
    lemma_pow2_pos(d);
    lemma_pow2_pos(e2);
    lemma_pow2_adds(d, e2);
    vstd::arithmetic::div_mod::lemma_fundamental_div_mod(full, t);
    vstd::arithmetic::div_mod::lemma_mod_bound(full, t);
    assert((m2 * pow_small) * pow2(38) == low * pow_big + rest) by (nonlinear_arith)
        requires
            m2 * pow2(38) == t * low + lost,
            pow_big == t * pow_small,
            rest == lost * pow_small,
    ;
    assert(0 <= rest < pow_big && (lost > 0 <==> rest > 0)) by (nonlinear_arith)
        requires
            0 <= lost < t,
            pow_big == t * pow_small,
            rest == lost * pow_small,
            pow_small > 0,
    ;
    assert((m1 * pow_big) * pow2(38) == (m1 * pow2(38)) * pow_big) by (nonlinear_arith);
    assert(num * pow2(38) == if same {
        (m1 * pow_big) * pow2(38) + (m2 * pow_small) * pow2(38)
    } else {
        (m1 * pow_big) * pow2(38) - (m2 * pow_small) * pow2(38)
    }) by (nonlinear_arith)
        requires
            num == if same {
                m1 * pow_big + m2 * pow_small
            } else {
                m1 * pow_big - m2 * pow_small
            },
    ;
    assert(total * pow_big == if same {
        (m1 * pow2(38)) * pow_big + low * pow_big
    } else if lost > 0 {
        (m1 * pow2(38)) * pow_big - low * pow_big - pow_big
    } else {
        (m1 * pow2(38)) * pow_big - low * pow_big
    }) by (nonlinear_arith)
        requires
            total == if same {
                m1 * pow2(38) + low
            } else if lost > 0 {
                m1 * pow2(38) - low - 1
            } else {
                m1 * pow2(38) - low
            },
    ;
    assert((total + 1) * pow_big == total * pow_big + pow_big) by (nonlinear_arith);
}

/// A sum that was formed 38 places above the leading bits of its larger
/// operand, handed over for rounding.
proof fn lemma_brackets_aligned(
    total: int,
    n: nat,
    m: int,
    e: nat,
    x: nat,
    inexact: bool,
    num: int,
)
    requires
        total >= 0,
        m == total * pow2(n),
        x + n == e + 218,
        total * pow2(e) <= num * pow2(38) < (total + 1) * pow2(e),
        inexact <==> total * pow2(e) < num * pow2(38),
    ensures
        brackets(
            m,
            if inexact {
                n
            } else {
                0
            },
            x,
            inexact,
            num,
            1,
        ),
{
    let w = pow2(256) as int;
    let pe = pow2(e) as int;
    let pn = pow2(n) as int;
    let px = pow2(x) as int;
    let p218 = pow2(218) as int;
    lemma2_to64();
    lemma_pow2_pos(218);
    lemma_pow2_pos(x);
    lemma_pow2_pos(n);
    lemma_pow2_adds(38, 218);
    lemma_pow2_adds(e, 218);
    lemma_pow2_adds(n, x);
    assert(pe * p218 == pn * px);
    assert(num * w == (num * pow2(38)) * p218) by (nonlinear_arith)
        requires
            w == pow2(38) * p218,
    ;
    assert((total * pe) * p218 == m * px) by (nonlinear_arith)
        requires
            pe * p218 == pn * px,
            m == total * pn,
    ;
    assert(((total + 1) * pe) * p218 == (m + pn) * px) by (nonlinear_arith)
        requires
            pe * p218 == pn * px,
            m == total * pn,
    ;
    assert(m * px <= num * w < (m + pn) * px && (inexact <==> m * px < num * w))
        by (nonlinear_arith)
        requires
            num * w == (num * pow2(38)) * p218,
            (total * pe) * p218 == m * px,
            ((total + 1) * pe) * p218 == (m + pn) * px,
            total * pe <= num * pow2(38) < (total + 1) * pe,
            inexact <==> total * pe < num * pow2(38),
            p218 > 0,
    ;
    assert((m * px) * 1 == m * px);
    assert(((m + pn) * px) * 1 == (m + pn) * px);
    if inexact {
        vstd::arithmetic::div_mod::lemma_mod_multiples_basic(total, pn);
    } else {
        assert((m + 1) * px > m * px) by (nonlinear_arith)
            requires
                px > 0,
        ;
        assert(((m + 1) * px) * 1 == (m + 1) * px);
    }
}

/// A result that is a whole multiple of `2^x / 2^256` needs no bracket wider
/// than itself.
pub(crate) proof fn lemma_brackets_exact(m: int, x: nat, num: int, den: int)
    requires
        m >= 0,
        den > 0,
        (m * pow2(x)) * den == num * pow2(scale()),
    ensures
        brackets(m, 0, x, false, num, den),
{
    lemma2_to64();
    lemma_pow2_pos(x);
    assert(((m + 1) * pow2(x)) * den > (m * pow2(x)) * den) by (nonlinear_arith)
        requires
            pow2(x) > 0,
            den > 0,
    ;
}

} // verus!
