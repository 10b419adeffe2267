//! Rounding to the nearest scalar.
//!
//! The result of an arithmetic operation is a rational number of units that
//! is, in general, no scalar. The format rounds it to the nearest scalar and,
//! where two are equally near, to the one with the even pattern. Infinity
//! takes part as the scalar of 2<sup>277</sup> units, which is the rule of
//! the format for results that are too large.

use crate::scalar::{lemma_magnitude_order, Scalar, FRACTIONS, INFINITY_BITS, SIGN_BIT};
use vstd::arithmetic::power2::{
    lemma2_to64,
    lemma2_to64_rest,
    lemma_pow2_adds,
    lemma_pow2_pos,
    lemma_pow2_strictly_increases,
    lemma_pow2_unfold,
    pow2,
};
use vstd::prelude::*;

verus! {

/// How far the magnitude of `s` lies from `num / den` units, in `den`-ths of
/// a unit.
pub open spec fn gap(s: Scalar, num: int, den: int) -> int {
    if s.magnitude() * den >= num {
        s.magnitude() * den - num
    } else {
        num - s.magnitude() * den
    }
}

/// `r` is what a result of magnitude `num / den` units rounds to: no scalar
/// is nearer, a scalar that is as near has an odd pattern, and the sign is
/// the given one.
pub open spec fn rounds(r: Scalar, negative: bool, num: int, den: int) -> bool {
    &&& !r.is_nan_spec()
    &&& r.sign() == negative
    &&& forall|s: Scalar| !s.is_nan_spec() ==> gap(r, num, den) <= #[trigger] gap(s, num, den)
    &&& forall|s: Scalar|
        !s.is_nan_spec() && s.abs_bits() != r.abs_bits() && #[trigger] gap(s, num, den) == gap(
            r,
            num,
            den,
        ) ==> r.abs_bits() % 2 == 0
}

/// The scalar that a result of magnitude `num / den` units rounds to.
pub open spec fn nearest(negative: bool, num: int, den: int) -> Scalar {
    choose|r: Scalar| rounds(r, negative, num, den)
}

/// A result rounds to one scalar only.
pub proof fn lemma_rounds_unique(a: Scalar, b: Scalar, negative: bool, num: int, den: int)
    requires
        den > 0,
        rounds(a, negative, num, den),
        rounds(b, negative, num, den),
    ensures
        a == b,
{
    if a.abs_bits() != b.abs_bits() {
        assert(gap(a, num, den) <= gap(b, num, den));
        assert(gap(b, num, den) <= gap(a, num, den));
        let (lo, hi) = if a.abs_bits() < b.abs_bits() {
            (a, b)
        } else {
            (b, a)
        };
        let mid = Scalar { bits: (lo.abs_bits() + 1) as u32 };
        assert(mid.abs_bits() == lo.abs_bits() + 1);
        lemma_magnitude_order(lo, mid);
        lemma_magnitude_order(mid, hi);
        lemma_magnitude_order(lo, hi);
        assert(lo.magnitude() < mid.magnitude() < hi.magnitude());
        assert(lo.magnitude() * den < mid.magnitude() * den < hi.magnitude() * den)
            by (nonlinear_arith)
            requires
                lo.magnitude() < mid.magnitude() < hi.magnitude(),
                den > 0,
        ;
        assert(!mid.is_nan_spec());
        assert(gap(a, num, den) <= gap(mid, num, den));
        assert(false);
    }
    assert(a.bits == b.bits);
}

/// A scalar that a result rounds to is the nearest one.
pub proof fn lemma_rounds_is_nearest(r: Scalar, negative: bool, num: int, den: int)
    requires
        den > 0,
        rounds(r, negative, num, den),
    ensures
        r == nearest(negative, num, den),
{
    lemma_rounds_unique(r, nearest(negative, num, den), negative, num, den);
}

/// The pattern up to `n` whose magnitude lies nearest to `num / den` units,
/// the even one of two that are equally near.
pub open spec fn nearest_upto(num: int, den: int, n: nat) -> Scalar
    decreases n,
{
    if n == 0 {
        Scalar { bits: 0 }
    } else {
        let before = nearest_upto(num, den, (n - 1) as nat);
        let next = Scalar { bits: n as u32 };
        if gap(next, num, den) < gap(before, num, den) || (gap(next, num, den) == gap(
            before,
            num,
            den,
        ) && n % 2 == 0) {
            next
        } else {
            before
        }
    }
}

/// Among the patterns up to `n` none lies nearer to the result than
/// `nearest_upto`, and where another lies as near, `nearest_upto` is even.
proof fn lemma_nearest_upto(num: int, den: int, n: nat)
    requires
        den > 0,
        n <= INFINITY_BITS,
    ensures
        nearest_upto(num, den, n).bits <= n,
        forall|s: Scalar|
            s.abs_bits() <= n ==> gap(nearest_upto(num, den, n), num, den) <= #[trigger] gap(
                s,
                num,
                den,
            ),
        forall|s: Scalar|
            s.abs_bits() <= n && s.abs_bits() != nearest_upto(num, den, n).bits && #[trigger] gap(
                s,
                num,
                den,
            ) == gap(nearest_upto(num, den, n), num, den) ==> nearest_upto(num, den, n).bits % 2
                == 0,
    decreases n,
{
    let r = nearest_upto(num, den, n);
    if n == 0 {
        assert forall|s: Scalar| s.abs_bits() <= n implies gap(r, num, den) <= #[trigger] gap(
            s,
            num,
            den,
        ) by {
            lemma_magnitude_order(s, r);
        }
    } else {
        lemma_nearest_upto(num, den, (n - 1) as nat);
        let before = nearest_upto(num, den, (n - 1) as nat);
        let next = Scalar { bits: n as u32 };
        assert forall|s: Scalar| s.abs_bits() <= n implies gap(r, num, den) <= #[trigger] gap(
            s,
            num,
            den,
        ) by {
            if s.abs_bits() == n {
                lemma_magnitude_order(s, next);
            }
        }
        assert forall|s: Scalar|
            s.abs_bits() <= n && s.abs_bits() != r.bits && #[trigger] gap(s, num, den) == gap(
                r,
                num,
                den,
            ) implies r.bits % 2 == 0 by {
            if s.abs_bits() == n {
                lemma_magnitude_order(s, next);
            }
            if r.bits != n && s.abs_bits() == n {
                // the pattern before `next` ties with it: they are neighbours
                assert(r == before);
                assert(n % 2 == 1);
                if before.bits < n - 1 {
                    let mid = Scalar { bits: (n - 1) as u32 };
                    lemma_magnitude_order(before, mid);
                    lemma_magnitude_order(mid, next);
                    lemma_magnitude_order(before, next);
                    let a = before.magnitude() * den;
                    let b = mid.magnitude() * den;
                    let c = next.magnitude() * den;
                    assert(a < b < c) by (nonlinear_arith)
                        requires
                            before.magnitude() < mid.magnitude() < next.magnitude(),
                            den > 0,
                            a == before.magnitude() * den,
                            b == mid.magnitude() * den,
                            c == next.magnitude() * den,
                    ;
                    assert(gap(before, num, den) <= gap(mid, num, den));
                    assert(false);
                }
            }
        }
    }
}

/// Every result rounds to some scalar: the nearest one exists.
pub proof fn lemma_nearest_rounds(negative: bool, num: int, den: int)
    requires
        den > 0,
    ensures
        rounds(nearest(negative, num, den), negative, num, den),
{
    lemma_nearest_upto(num, den, INFINITY_BITS as nat);
    let best = nearest_upto(num, den, INFINITY_BITS as nat);
    let r = Scalar {
        bits: if negative {
            (best.bits + SIGN_BIT) as u32
        } else {
            best.bits
        },
    };
    assert(r.abs_bits() == best.bits);
    assert(r.magnitude() == best.magnitude());
    assert forall|s: Scalar| !s.is_nan_spec() implies gap(r, num, den) <= #[trigger] gap(
        s,
        num,
        den,
    ) by {}
    assert(rounds(r, negative, num, den));
}

/// The exponent of the scale in which the operations hand their results
/// over for rounding: a result is a multiple of `2^x / 2^256` units.
pub open spec fn scale() -> nat {
    256
}

/// `num / den` units lies at or above `m * 2^x / 2^256` and below
/// `(m + 2^g) * 2^x / 2^256`, and `inexact` tells whether it lies above.
pub open spec fn brackets(m: int, g: nat, x: nat, inexact: bool, num: int, den: int) -> bool {
    &&& den > 0
    &&& m >= 0
    &&& m % (pow2(g) as int) == 0
    &&& (m * pow2(x)) * den <= num * pow2(scale())
    &&& num * pow2(scale()) < ((m + pow2(g)) * pow2(x)) * den
    &&& inexact <==> (m * pow2(x)) * den < num * pow2(scale())
}

/// The pattern of exponent field `k + 1` whose leading 24 bits are `q`, or
/// for `k == 0` the pattern `q` itself, stands for `q * 2^k` units.
pub proof fn lemma_pattern_units(k: nat, q: nat)
    requires
        k <= 253,
        q <= 2 * FRACTIONS,
        k >= 1 ==> q >= FRACTIONS,
    ensures
        k * FRACTIONS + q <= INFINITY_BITS,
        (Scalar { bits: (k * FRACTIONS + q) as u32 }).magnitude() == q * pow2(k),
        (Scalar { bits: (k * FRACTIONS + q) as u32 }).abs_bits() == k * FRACTIONS + q,
{
    let s = Scalar { bits: (k * FRACTIONS + q) as u32 };
    lemma2_to64();
    if k == 0 {
        if q == 2 * FRACTIONS {
            assert(s.exponent() == 2);
            assert(s.fraction() == 0);
        } else if q >= FRACTIONS {
            assert(s.exponent() == 1);
            assert(s.fraction() == q - FRACTIONS);
        } else {
            assert(s.exponent() == 0);
            assert(s.fraction() == q);
        }
    } else if q == 2 * FRACTIONS {
        assert(s.exponent() == k + 2);
        assert(s.fraction() == 0);
        lemma_pow2_unfold(k + 1);
        assert(FRACTIONS * (2 * pow2(k)) == (2 * FRACTIONS) * pow2(k)) by (nonlinear_arith);
    } else {
        assert(s.exponent() == k + 1);
        assert(s.fraction() == q - FRACTIONS);
    }
}

/// Of two multiples of `g`, the lower lies a whole `g` below the higher.
proof fn lemma_multiples_apart(a: int, b: int, g: int)
    requires
        g > 0,
        a % g == 0,
        b % g == 0,
        a < b,
    ensures
        a + g <= b,
{
    vstd::arithmetic::div_mod::lemma_fundamental_div_mod(a, g);
    vstd::arithmetic::div_mod::lemma_fundamental_div_mod(b, g);
    let x = a / g;
    let y = b / g;
    assert(x < y) by (nonlinear_arith)
        requires
            g * x < g * y,
            g > 0,
    ;
    assert(g * (x + 1) <= g * y) by (nonlinear_arith)
        requires
            x + 1 <= y,
            g > 0,
    ;
    assert(g * (x + 1) == g * x + g) by (nonlinear_arith);
}

/// A power of two is a multiple of every lower power of two.
proof fn lemma_pow2_multiple(g: nat, s: nat)
    requires
        g <= s,
    ensures
        pow2(s) % pow2(g) == 0,
{
    lemma_pow2_adds(g, (s - g) as nat);
    lemma_pow2_pos(g);
    vstd::arithmetic::div_mod::lemma_mod_multiples_basic(pow2((s - g) as nat) as int, pow2(g) as int);
    assert(pow2(g) * pow2((s - g) as nat) == pow2((s - g) as nat) * pow2(g)) by (nonlinear_arith);
}

/// Where a result lies between two neighbouring multiples of the spacing:
/// at or above `lo`, below `lo + t`, and on which side of the middle.
proof fn lemma_sides(
    q: int,
    t: int,
    h: int,
    rem: int,
    g: int,
    m: int,
    d: int,
    n: int,
) by (nonlinear_arith)
    requires
        t == 2 * h,
        m == q * t + rem,
        0 <= rem < t,
        0 < g,
        0 < d,
        0 <= q,
        m * d <= n < (m + g) * d,
        rem + g <= t,
        rem < h ==> rem + g <= h,
        rem > h ==> rem >= h + g,
    ensures
        (q * t) * d <= n < ((q + 1) * t) * d,
        rem < h ==> 2 * n < (q * t) * d + ((q + 1) * t) * d,
        rem > h ==> 2 * n > (q * t) * d + ((q + 1) * t) * d,
        rem == h ==> 2 * n >= (q * t) * d + ((q + 1) * t) * d,
        rem == h ==> (2 * n == (q * t) * d + ((q + 1) * t) * d <==> n == m * d),
{
}

/// Rounding between neighbours. A result that lies between the scalars of
/// `q` and `q + 1` times the spacing rounds to the nearer of the two, which
/// the remainder `rem` of its leading part tells: below half a spacing it
/// is the lower one, above half the upper one, and on the half the one with
/// the even pattern, unless something more follows.
pub proof fn lemma_round_between(
    negative: bool,
    num: int,
    den: int,
    m: int,
    g: nat,
    x: nat,
    inexact: bool,
    s: nat,
    k: nat,
    q: int,
    rem: int,
    up: bool,
    r: Scalar,
)
    requires
        brackets(m, g, x, inexact, num, den),
        g <= 38,
        s >= 40,
        s + x == k + scale(),
        k <= 253,
        m == q * pow2(s) + rem,
        0 <= rem < pow2(s),
        0 <= q < 2 * FRACTIONS,
        k >= 1 ==> q >= FRACTIONS,
        up <==> (rem > pow2((s - 1) as nat) || (rem == pow2((s - 1) as nat) && (inexact || q % 2
            == 1))),
        r.sign() == negative,
        r.abs_bits() == k * FRACTIONS + q + if up {
            1int
        } else {
            0int
        },
    ensures
        rounds(r, negative, num, den),
{
    let t = pow2(s) as int;
    let h = pow2((s - 1) as nat) as int;
    let gv = pow2(g) as int;
    let w = pow2(scale()) as int;
    let d = pow2(x) * den;
    let n = num * w;
    lemma_pow2_pos(s);
    lemma_pow2_pos(g);
    lemma_pow2_pos(x);
    lemma_pow2_pos(scale());
    lemma_pow2_pos(k);
    lemma_pow2_unfold(s);
    lemma_pow2_multiple(g, s);
    lemma_pow2_multiple(g, (s - 1) as nat);
    assert(d > 0) by (nonlinear_arith)
        requires
            d == pow2(x) * den,
            pow2(x) > 0,
            den > 0,
    ;
    // the remainder is a multiple of 2^g as the leading part is
    assert(rem % gv == 0) by {
        assert((q * t) % gv == 0) by {
            vstd::arithmetic::div_mod::lemma_fundamental_div_mod(t, gv);
            assert(q * t == (q * (t / gv)) * gv) by (nonlinear_arith)
                requires
                    t == gv * (t / gv),
            ;
            vstd::arithmetic::div_mod::lemma_mod_multiples_basic(q * (t / gv), gv);
        }
        vstd::arithmetic::div_mod::lemma_fundamental_div_mod(m, gv);
        vstd::arithmetic::div_mod::lemma_fundamental_div_mod(q * t, gv);
        assert(rem == (m / gv - (q * t) / gv) * gv) by (nonlinear_arith)
            requires
                rem == m - q * t,
                m == gv * (m / gv),
                q * t == gv * ((q * t) / gv),
        ;
        vstd::arithmetic::div_mod::lemma_mod_multiples_basic(m / gv - (q * t) / gv, gv);
    }
    lemma_multiples_apart(rem, t, gv);
    if rem < h {
        lemma_multiples_apart(rem, h, gv);
    }
    if rem > h {
        lemma_multiples_apart(h, rem, gv);
    }
    assert(m * d == (m * pow2(x)) * den) by (nonlinear_arith)
        requires
            d == pow2(x) * den,
    ;
    assert((m + gv) * d == ((m + gv) * pow2(x)) * den) by (nonlinear_arith)
        requires
            d == pow2(x) * den,
    ;
    lemma_sides(q, t, h, rem, gv, m, d, n);
    // the two neighbours
    let lo = Scalar { bits: (k * FRACTIONS + q) as u32 };
    let hi = Scalar { bits: (k * FRACTIONS + q + 1) as u32 };
    lemma_pattern_units(k, q as nat);
    lemma_pattern_units(k, (q + 1) as nat);
    let la = lo.magnitude() * den;
    let ha = hi.magnitude() * den;
    lemma_pow2_adds(k, scale());
    lemma_pow2_adds(s, x);
    assert(pow2(k) * w == t * pow2(x));
    assert(la * w == (q * t) * d) by (nonlinear_arith)
        requires
            la == (q * pow2(k)) * den,
            pow2(k) * w == t * pow2(x),
            d == pow2(x) * den,
    ;
    assert(ha * w == ((q + 1) * t) * d) by (nonlinear_arith)
        requires
            ha == ((q + 1) * pow2(k)) * den,
            pow2(k) * w == t * pow2(x),
            d == pow2(x) * den,
    ;
    assert(la <= num < ha) by (nonlinear_arith)
        requires
            la * w <= num * w < ha * w,
            w > 0,
    ;
    assert(rem < h ==> 2 * num < la + ha) by (nonlinear_arith)
        requires
            rem < h ==> 2 * (num * w) < la * w + ha * w,
            w > 0,
    ;
    assert(rem > h ==> 2 * num > la + ha) by (nonlinear_arith)
        requires
            rem > h ==> 2 * (num * w) > la * w + ha * w,
            w > 0,
    ;
    assert(rem == h ==> 2 * num >= la + ha) by (nonlinear_arith)
        requires
            rem == h ==> 2 * (num * w) >= la * w + ha * w,
            w > 0,
    ;
    assert(rem == h && !inexact ==> 2 * num == la + ha) by (nonlinear_arith)
        requires
            rem == h && !inexact ==> 2 * (num * w) == la * w + ha * w,
            w > 0,
    ;
    assert(rem == h && inexact ==> 2 * num != la + ha) by (nonlinear_arith)
        requires
            rem == h && inexact ==> 2 * (num * w) != la * w + ha * w,
            w > 0,
    ;
    assert(gap(lo, num, den) == num - la);
    assert(gap(hi, num, den) == ha - num);
    assert forall|c: Scalar| !c.is_nan_spec() implies (if c.abs_bits() <= lo.abs_bits() {
        gap(c, num, den) >= num - la && (c.abs_bits() < lo.abs_bits() ==> gap(c, num, den) > num
            - la)
    } else {
        gap(c, num, den) >= ha - num && (c.abs_bits() > hi.abs_bits() ==> gap(c, num, den) > ha
            - num)
    }) by {
        lemma_magnitude_order(c, lo);
        lemma_magnitude_order(c, hi);
        lemma_magnitude_order(lo, c);
        lemma_magnitude_order(hi, c);
        let ca = c.magnitude() * den;
        assert(c.magnitude() <= lo.magnitude() ==> ca <= la) by (nonlinear_arith)
            requires
                ca == c.magnitude() * den,
                la == lo.magnitude() * den,
                den > 0,
        ;
        assert(c.magnitude() < lo.magnitude() ==> ca < la) by (nonlinear_arith)
            requires
                ca == c.magnitude() * den,
                la == lo.magnitude() * den,
                den > 0,
        ;
        assert(c.magnitude() >= hi.magnitude() ==> ca >= ha) by (nonlinear_arith)
            requires
                ca == c.magnitude() * den,
                ha == hi.magnitude() * den,
                den > 0,
        ;
        assert(c.magnitude() > hi.magnitude() ==> ca > ha) by (nonlinear_arith)
            requires
                ca == c.magnitude() * den,
                ha == hi.magnitude() * den,
                den > 0,
        ;
    }
    assert(r.abs_bits() == if up {
        hi.abs_bits()
    } else {
        lo.abs_bits()
    });
    lemma_magnitude_order(r, lo);
    lemma_magnitude_order(r, hi);
    assert((k * FRACTIONS) % 2 == 0) by (nonlinear_arith)
        requires
            FRACTIONS == 0x80_0000,
    ;
    assert forall|c: Scalar| !c.is_nan_spec() implies gap(r, num, den) <= #[trigger] gap(
        c,
        num,
        den,
    ) by {}
    assert forall|c: Scalar|
        !c.is_nan_spec() && c.abs_bits() != r.abs_bits() && #[trigger] gap(c, num, den) == gap(
            r,
            num,
            den,
        ) implies r.abs_bits() % 2 == 0 by {}
}

/// A result of at least 2^277 units rounds to infinity.
pub proof fn lemma_round_overflow(r: Scalar, negative: bool, num: int, den: int)
    requires
        den > 0,
        num >= pow2(277) * den,
        r.sign() == negative,
        r.abs_bits() == INFINITY_BITS,
    ensures
        rounds(r, negative, num, den),
{
    lemma2_to64();
    lemma_pow2_adds(23, 254);
    assert(r.exponent() == 255);
    assert(r.fraction() == 0);
    assert(r.magnitude() == pow2(277));
    assert forall|c: Scalar| !c.is_nan_spec() implies gap(r, num, den) <= #[trigger] gap(
        c,
        num,
        den,
    ) && (c.abs_bits() != r.abs_bits() ==> gap(r, num, den) < gap(c, num, den)) by {
        lemma_magnitude_order(c, r);
        assert(c.magnitude() <= r.magnitude() ==> c.magnitude() * den <= r.magnitude() * den)
            by (nonlinear_arith)
            requires
                den > 0,
        ;
        assert(c.magnitude() < r.magnitude() ==> c.magnitude() * den < r.magnitude() * den)
            by (nonlinear_arith)
            requires
                den > 0,
        ;
    }
}

/// A result of no units at all is a zero.
pub proof fn lemma_round_zero(r: Scalar, negative: bool, den: int)
    requires
        den > 0,
        r.sign() == negative,
        r.abs_bits() == 0,
    ensures
        rounds(r, negative, 0, den),
{
    assert(r.magnitude() == 0);
    assert(r.magnitude() * den == 0) by (nonlinear_arith)
        requires
            r.magnitude() == 0,
    ;
    assert forall|c: Scalar| !c.is_nan_spec() implies gap(r, 0, den) <= #[trigger] gap(c, 0, den)
        && (c.abs_bits() != r.abs_bits() ==> gap(r, 0, den) < gap(c, 0, den)) by {
        lemma_magnitude_order(c, r);
        assert(c.magnitude() > 0 ==> c.magnitude() * den > 0) by (nonlinear_arith)
            requires
                den > 0,
        ;
        assert(c.magnitude() * den >= 0) by (nonlinear_arith)
            requires
                den > 0,
        ;
    }
}

/// `2^n` as a machine word.
pub(crate) fn two_pow(n: u32) -> (r: u64)
    requires
        n < 64,
    ensures
        r == pow2(n as nat),
        r > 0,
{
    proof {
        vstd::bits::lemma_u64_pow2_no_overflow(n as nat);
        vstd::bits::lemma_u64_shl_is_mul(1, n as u64);
    }
    1u64 << n
}

/// Shifts `m` up until its highest bit is bit 63 and tells by how much.
pub(crate) fn normalize(m: u64) -> (r: (u64, u32))
    requires
        m > 0,
    ensures
        r.0 == m * pow2(r.1 as nat),
        r.0 >= 0x8000_0000_0000_0000,
        r.1 <= 63,
{
    let mut v: u64 = m;
    let mut n: u32 = 0;
    proof {
        lemma2_to64();
    }
    if v < 0x1_0000_0000 {
        v = v * 0x1_0000_0000;
        n = n + 32;
    }
    assert(v == m * pow2(n as nat));
    if v < 0x1_0000_0000_0000 {
        proof {
            lemma_pow2_adds(n as nat, 16);
            assert((m * pow2(n as nat)) * 0x1_0000 == m * (pow2(n as nat) * 0x1_0000))
                by (nonlinear_arith);
        }
        v = v * 0x1_0000;
        n = n + 16;
    }
    assert(v == m * pow2(n as nat));
    if v < 0x100_0000_0000_0000 {
        proof {
            lemma_pow2_adds(n as nat, 8);
            assert((m * pow2(n as nat)) * 0x100 == m * (pow2(n as nat) * 0x100))
                by (nonlinear_arith);
        }
        v = v * 0x100;
        n = n + 8;
    }
    assert(v == m * pow2(n as nat));
    if v < 0x1000_0000_0000_0000 {
        proof {
            lemma_pow2_adds(n as nat, 4);
            assert((m * pow2(n as nat)) * 0x10 == m * (pow2(n as nat) * 0x10))
                by (nonlinear_arith);
        }
        v = v * 0x10;
        n = n + 4;
    }
    assert(v == m * pow2(n as nat));
    if v < 0x4000_0000_0000_0000 {
        proof {
            lemma_pow2_adds(n as nat, 2);
            assert((m * pow2(n as nat)) * 4 == m * (pow2(n as nat) * 4)) by (nonlinear_arith);
        }
        v = v * 4;
        n = n + 2;
    }
    assert(v == m * pow2(n as nat));
    if v < 0x8000_0000_0000_0000 {
        proof {
            lemma_pow2_adds(n as nat, 1);
            assert((m * pow2(n as nat)) * 2 == m * (pow2(n as nat) * 2)) by (nonlinear_arith);
        }
        v = v * 2;
        n = n + 1;
    }
    (v, n)
}

/// How a result with the leading bits `m` at `2^x / 2^256` was packed into
/// a pattern: its 24 leading bits `q` at the spacing `2^k`, the remainder
/// `rem` below them, and whether it was rounded up.
pub struct Packing {
    pub s: nat,
    pub k: nat,
    pub q: int,
    pub rem: int,
    pub up: bool,
    pub overflow: bool,
}

/// `r` is the pattern that packing `m` at `2^x / 2^256` leads to.
pub open spec fn packed(r: Scalar, negative: bool, m: int, x: nat, inexact: bool, p: Packing) -> bool {
    &&& r.sign() == negative
    &&& if p.overflow {
        x >= 470 && r.abs_bits() == INFINITY_BITS
    } else {
        &&& p.s >= 40
        &&& p.s + x == p.k + scale()
        &&& p.k <= 253
        &&& m == p.q * pow2(p.s) + p.rem
        &&& 0 <= p.rem < pow2(p.s)
        &&& 0 <= p.q < 2 * FRACTIONS
        &&& (p.k >= 1 ==> p.q >= FRACTIONS)
        &&& (p.up <==> (p.rem > pow2((p.s - 1) as nat) || (p.rem == pow2((p.s - 1) as nat) && (
        inexact || p.q % 2 == 1))))
        &&& r.abs_bits() == p.k * FRACTIONS + p.q + if p.up {
            1int
        } else {
            0int
        }
    }
}

/// Packs a result whose leading 64 bits are `m` into a pattern.
pub(crate) fn pack(negative: bool, m: u64, x: u32, inexact: bool) -> (out: (Scalar, Ghost<Packing>))
    requires
        m >= 0x8000_0000_0000_0000,
        x <= 4096,
    ensures
        packed(out.0, negative, m as int, x as nat, inexact, out.1@),
{
    let sign: u32 = if negative {
        SIGN_BIT
    } else {
        0
    };
    proof {
        lemma2_to64();
        lemma2_to64_rest();
    }
    let ghost s: nat;
    let ghost k: nat;
    let q: u64;
    let rem: u64;
    let up: bool;
    let base: u32;
    if x >= 216 {
        let e = x - 216;
        if e >= 254 {
            let r = Scalar { bits: sign + INFINITY_BITS };
            return (
                r,
                Ghost(Packing { s: 0, k: 0, q: 0, rem: 0, up: false, overflow: true }),
            );
        }
        q = m / 0x100_0000_0000;
        rem = m % 0x100_0000_0000;
        up = rem > 0x80_0000_0000 || (rem == 0x80_0000_0000 && (inexact || q % 2 == 1));
        base = e * FRACTIONS;
        proof {
            s = 40;
            k = e as nat;
            assert(m == q * pow2(40) + rem);
        }
    } else {
        let shift = 256 - x;
        if shift > 64 {
            q = 0;
            rem = m;
            up = false;
            proof {
                assert(m == 0 * pow2(shift as nat) + rem) by (nonlinear_arith)
                    requires
                        m == rem,
                ;
                lemma_pow2_strictly_increases(64, shift as nat);
                if shift > 65 {
                    lemma_pow2_strictly_increases(64, (shift - 1) as nat);
                }
            }
        } else if shift == 64 {
            q = 0;
            rem = m;
            up = rem > 0x8000_0000_0000_0000 || (rem == 0x8000_0000_0000_0000 && inexact);
            proof {
                assert(m == 0 * pow2(shift as nat) + rem) by (nonlinear_arith)
                    requires
                        m == rem,
                ;
            }
        } else {
            let t = two_pow(shift);
            let h = two_pow(shift - 1);
            q = m / t;
            rem = m % t;
            up = rem > h || (rem == h && (inexact || q % 2 == 1));
            proof {
                lemma_pow2_adds(shift as nat, (64 - shift) as nat);
                if shift > 41 {
                    lemma_pow2_strictly_increases((64 - shift) as nat, 23);
                }
                vstd::arithmetic::div_mod::lemma_fundamental_div_mod(m as int, t as int);
                assert(m == q * pow2(shift as nat) + rem) by (nonlinear_arith)
                    requires
                        m == t * (m / t) + m % t,
                        q == m / t,
                        rem == m % t,
                        t == pow2(shift as nat),
                ;
                assert(q < pow2((64 - shift) as nat)) by (nonlinear_arith)
                    requires
                        q * t <= m,
                        m < pow2(shift as nat) * pow2((64 - shift) as nat),
                        t == pow2(shift as nat),
                        t > 0,
                ;
            }
        }
        base = 0;
        proof {
            s = shift as nat;
            k = 0;
        }
    }
    let bits: u32 = base + (q as u32) + if up {
        1
    } else {
        0
    };
    let r = Scalar { bits: sign + bits };
    proof {
        lemma_pattern_units(k, q as nat);
    }
    (r, Ghost(Packing { s, k, q: q as int, rem: rem as int, up, overflow: false }))
}

/// Rounds a result whose leading 64 bits are `m`: the scalar nearest to
/// `num / den` units, which lies between `m` and `m + 2^g` times
/// `2^x / 2^256`.
pub(crate) fn round_pack(
    negative: bool,
    m: u64,
    x: u32,
    inexact: bool,
    Ghost(g): Ghost<nat>,
    Ghost(num): Ghost<int>,
    Ghost(den): Ghost<int>,
) -> (r: Scalar)
    requires
        m >= 0x8000_0000_0000_0000,
        x <= 4096,
        g <= 38,
        brackets(m as int, g, x as nat, inexact, num, den),
    ensures
        rounds(r, negative, num, den),
        r == nearest(negative, num, den),
{
    let (r, Ghost(p)) = pack(negative, m, x, inexact);
    proof {
        if p.overflow {
            let w = pow2(256) as int;
            lemma2_to64();
            lemma2_to64_rest();
            lemma_pow2_pos(256);
            lemma_pow2_pos(x as nat);
            lemma_pow2_adds(63, x as nat);
            if 63 + x > 533 {
                lemma_pow2_strictly_increases(533, (63 + x) as nat);
            }
            lemma_pow2_adds(277, 256);
            assert(pow2(277) * w <= m * pow2(x as nat)) by (nonlinear_arith)
                requires
                    pow2(277) * w <= pow2(63) * pow2(x as nat),
                    m >= pow2(63),
                    pow2(x as nat) > 0,
            ;
            assert(num >= pow2(277) * den) by (nonlinear_arith)
                requires
                    (m * pow2(x as nat)) * den <= num * w,
                    pow2(277) * w <= m * pow2(x as nat),
                    den > 0,
                    w > 0,
            ;
            lemma_round_overflow(r, negative, num, den);
        } else {
            lemma_round_between(
                negative,
                num,
                den,
                m as int,
                g,
                x as nat,
                inexact,
                p.s,
                p.k,
                p.q,
                p.rem,
                p.up,
                r,
            );
        }
        lemma_rounds_is_nearest(r, negative, num, den);
    }
    r
}

/// Where the square root of `n` lies against the middle of two magnitudes:
/// above it where this is negative, on it where this is zero, below it
/// where this is positive.
pub open spec fn root_side(a: Scalar, b: Scalar, n: int) -> int {
    (a.magnitude() + b.magnitude()) * (a.magnitude() + b.magnitude()) - 4 * n
}

/// `r` is what the square root of `n` square units rounds to: it is not
/// negative, no scalar is nearer to the root, and a scalar that is as near
/// has an odd pattern.
pub open spec fn rounds_root(r: Scalar, n: int) -> bool {
    &&& !r.is_nan_spec()
    &&& !r.sign()
    &&& forall|s: Scalar|
        !s.is_nan_spec() ==> {
            &&& s.magnitude() > r.magnitude() ==> #[trigger] root_side(r, s, n) >= 0
            &&& s.magnitude() < r.magnitude() ==> root_side(r, s, n) <= 0
            &&& s.magnitude() != r.magnitude() && root_side(r, s, n) == 0 ==> r.abs_bits() % 2
                == 0
        }
}

/// The scalar that the square root of `n` square units rounds to.
pub open spec fn nearest_root(n: int) -> Scalar {
    choose|r: Scalar| rounds_root(r, n)
}

/// Squares grow with their roots.
pub proof fn lemma_square_order(a: int, b: int)
    requires
        0 <= a,
        0 <= b,
    ensures
        a <= b <==> a * a <= b * b,
        a < b <==> a * a < b * b,
{
    assert(a <= b ==> a * a <= b * b) by (nonlinear_arith)
        requires
            0 <= a,
            0 <= b,
    ;
    assert(a < b ==> a * a < b * b) by (nonlinear_arith)
        requires
            0 <= a,
            0 <= b,
    ;
    assert(b <= a ==> b * b <= a * a) by (nonlinear_arith)
        requires
            0 <= a,
            0 <= b,
    ;
    assert(b < a ==> b * b < a * a) by (nonlinear_arith)
        requires
            0 <= a,
            0 <= b,
    ;
}

/// A square root rounds to one scalar only.
pub proof fn lemma_rounds_root_unique(a: Scalar, b: Scalar, n: int)
    requires
        rounds_root(a, n),
        rounds_root(b, n),
    ensures
        a == b,
{
    if a.abs_bits() != b.abs_bits() {
        let (lo, hi) = if a.abs_bits() < b.abs_bits() {
            (a, b)
        } else {
            (b, a)
        };
        lemma_magnitude_order(lo, hi);
        lemma_magnitude_order(hi, lo);
        assert(root_side(lo, hi, n) >= 0);
        assert(root_side(hi, lo, n) <= 0);
        assert(root_side(lo, hi, n) == root_side(hi, lo, n));
        assert(lo.abs_bits() % 2 == 0);
        assert(hi.abs_bits() % 2 == 0);
        let mid = Scalar { bits: (lo.abs_bits() + 1) as u32 };
        assert(mid.abs_bits() == lo.abs_bits() + 1);
        lemma_magnitude_order(lo, mid);
        lemma_magnitude_order(mid, hi);
        assert(root_side(lo, mid, n) >= 0);
        lemma_square_order(
            (lo.magnitude() + mid.magnitude()) as int,
            (lo.magnitude() + hi.magnitude()) as int,
        );
        assert(false);
    }
}

/// A scalar that a square root rounds to is the nearest one.
pub proof fn lemma_rounds_is_nearest_root(r: Scalar, n: int)
    requires
        rounds_root(r, n),
    ensures
        r == nearest_root(n),
{
    lemma_rounds_root_unique(r, nearest_root(n), n);
}

/// The pattern up to `k` whose magnitude lies nearest to the square root of
/// `n`, the even one of two that are equally near.
pub open spec fn nearest_root_upto(n: int, k: nat) -> Scalar
    decreases k,
{
    if k == 0 {
        Scalar { bits: 0 }
    } else {
        let before = nearest_root_upto(n, (k - 1) as nat);
        let next = Scalar { bits: k as u32 };
        if root_side(before, next, n) < 0 || (root_side(before, next, n) == 0 && k % 2 == 0) {
            next
        } else {
            before
        }
    }
}

/// What `rounds_root` asks of `r` against one other scalar.
pub open spec fn root_not_farther(r: Scalar, s: Scalar, n: int) -> bool {
    &&& s.magnitude() > r.magnitude() ==> root_side(r, s, n) >= 0
    &&& s.magnitude() < r.magnitude() ==> root_side(r, s, n) <= 0
    &&& s.magnitude() != r.magnitude() && root_side(r, s, n) == 0 ==> r.abs_bits() % 2 == 0
}

/// Among the patterns up to `k` none lies nearer to the root than
/// `nearest_root_upto`.
proof fn lemma_nearest_root_upto(n: int, k: nat)
    requires
        k <= INFINITY_BITS,
    ensures
        nearest_root_upto(n, k).bits <= k,
        forall|s: Scalar|
            s.abs_bits() <= k ==> #[trigger] root_not_farther(nearest_root_upto(n, k), s, n),
    decreases k,
{
    let r = nearest_root_upto(n, k);
    if k == 0 {
        assert forall|s: Scalar| s.abs_bits() <= k implies #[trigger] root_not_farther(r, s, n) by {
            lemma_magnitude_order(s, r);
        }
    } else {
        lemma_nearest_root_upto(n, (k - 1) as nat);
        let before = nearest_root_upto(n, (k - 1) as nat);
        let next = Scalar { bits: k as u32 };
        lemma_magnitude_order(before, next);
        let bm = before.magnitude() as int;
        let nm = next.magnitude() as int;
        assert forall|s: Scalar| s.abs_bits() <= k implies #[trigger] root_not_farther(r, s, n) by {
            lemma_magnitude_order(s, next);
            lemma_magnitude_order(s, before);
            lemma_magnitude_order(before, s);
            let sm = s.magnitude() as int;
            if s.abs_bits() < k {
                assert(root_not_farther(before, s, n));
                if sm <= bm {
                    lemma_square_order(sm + nm, bm + nm);
                } else {
                    // between `before` and `next`: nearer to the root than `next`
                    lemma_square_order(bm + sm, bm + nm);
                    lemma_square_order(sm + nm, nm + nm);
                    lemma_square_order(bm + nm, sm + nm);
                }
            }
            if r.bits != k && s.abs_bits() == k && root_side(r, s, n) == 0 {
                assert(k % 2 == 1);
                if before.bits < k - 1 {
                    let mid = Scalar { bits: (k - 1) as u32 };
                    lemma_magnitude_order(before, mid);
                    lemma_magnitude_order(mid, next);
                    assert(root_not_farther(before, mid, n));
                    lemma_square_order(bm + mid.magnitude(), bm + nm);
                    assert(false);
                }
            }
        }
    }
}

/// Every square root rounds to some scalar.
pub proof fn lemma_nearest_root_rounds(n: int)
    ensures
        rounds_root(nearest_root(n), n),
{
    lemma_nearest_root_upto(n, INFINITY_BITS as nat);
    let r = nearest_root_upto(n, INFINITY_BITS as nat);
    assert forall|s: Scalar| !s.is_nan_spec() implies {
        &&& s.magnitude() > r.magnitude() ==> #[trigger] root_side(r, s, n) >= 0
        &&& s.magnitude() < r.magnitude() ==> root_side(r, s, n) <= 0
        &&& s.magnitude() != r.magnitude() && root_side(r, s, n) == 0 ==> r.abs_bits() % 2 == 0
    } by {
        assert(root_not_farther(r, s, n));
    }
    assert(rounds_root(r, n));
}

/// The root of `n` square units lies at or above `m * 2^x / 2^256` and below
/// `(m + 2^g) * 2^x / 2^256`, and `inexact` tells whether it lies above.
pub open spec fn brackets_root(m: int, g: nat, x: nat, inexact: bool, n: int) -> bool {
    &&& m >= 0
    &&& m % (pow2(g) as int) == 0
    &&& (m * pow2(x)) * (m * pow2(x)) <= n * (pow2(scale()) * pow2(scale()))
    &&& n * (pow2(scale()) * pow2(scale())) < ((m + pow2(g)) * pow2(x)) * ((m + pow2(g)) * pow2(x))
    &&& inexact <==> (m * pow2(x)) * (m * pow2(x)) < n * (pow2(scale()) * pow2(scale()))
}

/// Rounding a square root between neighbours, as `lemma_round_between` does
/// it for a quotient.
pub proof fn lemma_round_root_between(
    n: int,
    m: int,
    g: nat,
    x: nat,
    inexact: bool,
    p: Packing,
    r: Scalar,
)
    requires
        brackets_root(m, g, x, inexact, n),
        g <= 38,
        packed(r, false, m, x, inexact, p),
        !p.overflow,
    ensures
        rounds_root(r, n),
{
    let s = p.s;
    let k = p.k;
    let q = p.q;
    let rem = p.rem;
    let t = pow2(s) as int;
    let h = pow2((s - 1) as nat) as int;
    let gv = pow2(g) as int;
    let w = pow2(scale()) as int;
    let px = pow2(x) as int;
    let nn = n * (w * w);
    lemma_pow2_pos(s);
    lemma_pow2_pos(g);
    lemma_pow2_pos(x);
    lemma_pow2_pos(scale());
    lemma_pow2_pos(k);
    lemma_pow2_unfold(s);
    lemma_pow2_multiple(g, s);
    lemma_pow2_multiple(g, (s - 1) as nat);
    assert(rem % gv == 0) by {
        assert((q * t) % gv == 0) by {
            vstd::arithmetic::div_mod::lemma_fundamental_div_mod(t, gv);
            assert(q * t == (q * (t / gv)) * gv) by (nonlinear_arith)
                requires
                    t == gv * (t / gv),
            ;
            vstd::arithmetic::div_mod::lemma_mod_multiples_basic(q * (t / gv), gv);
        }
        vstd::arithmetic::div_mod::lemma_fundamental_div_mod(m, gv);
        vstd::arithmetic::div_mod::lemma_fundamental_div_mod(q * t, gv);
        assert(rem == (m / gv - (q * t) / gv) * gv) by (nonlinear_arith)
            requires
                rem == m - q * t,
                m == gv * (m / gv),
                q * t == gv * ((q * t) / gv),
        ;
        vstd::arithmetic::div_mod::lemma_mod_multiples_basic(m / gv - (q * t) / gv, gv);
    }
    lemma_multiples_apart(rem, t, gv);
    if rem < h {
        lemma_multiples_apart(rem, h, gv);
    }
    if rem > h {
        lemma_multiples_apart(h, rem, gv);
    }
    let lo = Scalar { bits: (k * FRACTIONS + q) as u32 };
    let hi = Scalar { bits: (k * FRACTIONS + q + 1) as u32 };
    lemma_pattern_units(k, q as nat);
    lemma_pattern_units(k, (q + 1) as nat);
    lemma_pow2_adds(k, scale());
    lemma_pow2_adds(s, x);
    let l = lo.magnitude() as int;
    let u = hi.magnitude() as int;
    // the neighbours, the ends of the bracket and the middle, in one scale
    let lw = l * w;
    let uw = u * w;
    let mp = m * px;
    let ep = (m + gv) * px;
    let mid = (q * t + h) * px;
    assert(lw == (q * t) * px && uw == ((q + 1) * t) * px) by (nonlinear_arith)
        requires
            l == q * pow2(k),
            u == (q + 1) * pow2(k),
            pow2(k) * w == t * px,
            lw == l * w,
            uw == u * w,
    ;
    assert(0 <= lw <= mp && ep <= uw && lw + uw == 2 * mid && 0 <= mid) by (nonlinear_arith)
        requires
            lw == (q * t) * px,
            uw == ((q + 1) * t) * px,
            mp == m * px,
            ep == (m + gv) * px,
            mid == (q * t + h) * px,
            m == q * t + rem,
            0 <= rem,
            rem + gv <= t,
            t == 2 * h,
            px > 0,
            0 <= q,
            0 < t,
    ;
    assert(rem < h ==> ep <= mid) by (nonlinear_arith)
        requires
            ep == (m + gv) * px,
            mid == (q * t + h) * px,
            m == q * t + rem,
            rem < h ==> rem + gv <= h,
            px > 0,
    ;
    assert((rem > h ==> mp > mid) && (rem == h ==> mp == mid)) by (nonlinear_arith)
        requires
            mp == m * px,
            mid == (q * t + h) * px,
            m == q * t + rem,
            px > 0,
    ;
    assert(0 <= mp < ep) by (nonlinear_arith)
        requires
            mp == m * px,
            ep == (m + gv) * px,
            m >= 0,
            gv > 0,
            px > 0,
    ;
    lemma_square_order(lw, mp);
    lemma_square_order(ep, uw);
    lemma_square_order(ep, mid);
    lemma_square_order(mid, mp);
    lemma_square_order(mp, mid);
    assert(mp * mp <= nn < ep * ep && (inexact <==> mp * mp < nn));
    assert(lw * lw == (l * l) * (w * w) && uw * uw == (u * u) * (w * w) && (lw + uw) * (lw + uw)
        == ((l + u) * (l + u)) * (w * w)) by (nonlinear_arith)
        requires
            lw == l * w,
            uw == u * w,
    ;
    assert((lw + uw) * (lw + uw) == 4 * (mid * mid)) by (nonlinear_arith)
        requires
            lw + uw == 2 * mid,
    ;
    let ww = w * w;
    assert(ww > 0) by (nonlinear_arith)
        requires
            w > 0,
            ww == w * w,
    ;
    let side = (l + u) * (l + u) - 4 * n;
    assert(l * l <= n < u * u) by (nonlinear_arith)
        requires
            (l * l) * ww <= n * ww < (u * u) * ww,
            ww > 0,
    ;
    assert((rem < h ==> side > 0) && (rem > h ==> side < 0) && (rem == h ==> side <= 0) && (rem
        == h && !inexact ==> side == 0) && (rem == h && inexact ==> side < 0)) by (nonlinear_arith)
        requires
            side == (l + u) * (l + u) - 4 * n,
            ((l + u) * (l + u)) * ww == 4 * (mid * mid),
            rem < h ==> n * ww < mid * mid,
            rem > h ==> n * ww > mid * mid,
            rem == h ==> n * ww >= mid * mid,
            rem == h && !inexact ==> n * ww == mid * mid,
            rem == h && inexact ==> n * ww > mid * mid,
            ww > 0,
    ;
    assert(r.abs_bits() == if p.up {
        hi.abs_bits()
    } else {
        lo.abs_bits()
    });
    lemma_magnitude_order(r, lo);
    lemma_magnitude_order(r, hi);
    lemma_magnitude_order(lo, hi);
    assert((k * FRACTIONS) % 2 == 0) by (nonlinear_arith)
        requires
            FRACTIONS == 0x80_0000,
    ;
    let rm = r.magnitude() as int;
    assert forall|c: Scalar| !c.is_nan_spec() implies {
        &&& c.magnitude() > r.magnitude() ==> #[trigger] root_side(r, c, n) >= 0
        &&& c.magnitude() < r.magnitude() ==> root_side(r, c, n) <= 0
        &&& c.magnitude() != r.magnitude() && root_side(r, c, n) == 0 ==> r.abs_bits() % 2 == 0
    } by {
        lemma_magnitude_order(c, lo);
        lemma_magnitude_order(c, hi);
        lemma_magnitude_order(lo, c);
        lemma_magnitude_order(hi, c);
        let cm = c.magnitude() as int;
        if c.abs_bits() < lo.abs_bits() {
            // below both neighbours: the middle of c and r lies below the root
            assert(cm < l);
            lemma_square_order(rm + cm, l + rm);
            lemma_square_order(l + rm, l + u);
            lemma_square_order(l + rm, 2 * l);
            assert((2 * l) * (2 * l) == 4 * (l * l)) by (nonlinear_arith);
            assert(root_side(r, c, n) < 0);
        } else if c.abs_bits() > hi.abs_bits() {
            assert(cm > u);
            lemma_square_order(u + rm, rm + cm);
            lemma_square_order(l + u, u + rm);
            lemma_square_order(2 * u, u + rm);
            assert((2 * u) * (2 * u) == 4 * (u * u)) by (nonlinear_arith);
            assert(root_side(r, c, n) > 0);
        } else {
            assert(cm == l || cm == u);
        }
    }
}

/// Rounds a square root whose leading 64 bits are `m`.
pub(crate) fn round_root_pack(
    m: u64,
    x: u32,
    inexact: bool,
    Ghost(g): Ghost<nat>,
    Ghost(n): Ghost<int>,
) -> (r: Scalar)
    requires
        m >= 0x8000_0000_0000_0000,
        x < 470,
        g <= 38,
        brackets_root(m as int, g, x as nat, inexact, n),
    ensures
        rounds_root(r, n),
        r == nearest_root(n),
{
    let (r, Ghost(p)) = pack(false, m, x, inexact);
    proof {
        lemma_round_root_between(n, m as int, g, x as nat, inexact, p, r);
        lemma_rounds_is_nearest_root(r, n);
    }
    r
}

/// The whole part of the square root of `v`.
pub(crate) fn isqrt(v: u64) -> (r: u64)
    ensures
        r * r <= v < (r + 1) * (r + 1),
        r < 0x1_0000_0000,
{
    let mut r: u64 = 0;
    let mut j: u32 = 32;
    proof {
        lemma2_to64();
    }
    while j > 0
        invariant
            j <= 32,
            r * r <= v,
            v < (r + pow2(j as nat)) * (r + pow2(j as nat)),
            r + pow2(j as nat) <= 0x1_0000_0000,
        decreases j,
    {
        let half = two_pow(j - 1);
        proof {
            lemma_pow2_unfold(j as nat);
        }
        let t = r + half;
        assert(t * t < 0x1_0000_0000 * 0x1_0000_0000) by (nonlinear_arith)
            requires
                0 <= t < 0x1_0000_0000,
        ;
        if t * t <= v {
            r = t;
        }
        j = j - 1;
    }
    proof {
        lemma2_to64();
    }
    r
}

} // verus!
