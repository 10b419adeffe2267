//! The pseudo-random stream behind the sub-pixel jitter.

use crate::hittable::Interval;
use crate::arith::lemma_brackets_exact;
use crate::round::{gap, lemma_round_zero, normalize, round_pack, rounds};
use crate::scalar::{lemma_magnitude_order, Scalar, ONE_BITS};
use vstd::arithmetic::power2::{lemma2_to64, lemma_pow2_adds, lemma_pow2_pos, pow2};
use vstd::prelude::*;

verus! {

/// First stage of the generator: `x ^ (x << 13)`.
pub open spec fn stage_left13(x: u32) -> u32 {
    x ^ (x << 13)
}

/// Second stage of the generator: `x ^ (x >> 17)`.
pub open spec fn stage_right17(x: u32) -> u32 {
    x ^ (x >> 17)
}

/// Third stage of the generator: `x ^ (x << 5)`.
pub open spec fn stage_left5(x: u32) -> u32 {
    x ^ (x << 5)
}

/// One step of the 32-bit xorshift generator with the shifts 13, 17 and 5.
pub open spec fn xorshift_spec(x: u32) -> u32 {
    stage_left5(stage_right17(stage_left13(x)))
}

/// The state that `xorshift_spec` maps to `y`.
pub open spec fn xorshift_inverse(y: u32) -> u32 {
    let b = y ^ (y << 5) ^ (y << 10) ^ (y << 15) ^ (y << 20) ^ (y << 25) ^ (y << 30);
    let a = b ^ (b >> 17);
    a ^ (a << 13) ^ (a << 26)
}

/// The state after `n` steps from `x`.
pub open spec fn xorshift_iter(x: u32, n: nat) -> u32
    decreases n,
{
    if n == 0 {
        x
    } else {
        xorshift_spec(xorshift_iter(x, (n - 1) as nat))
    }
}

/// Advances the generator by one step.
#[verifier::when_used_as_spec(xorshift_spec)]
pub fn xorshift(x: u32) -> (r: u32)
    ensures
        r == xorshift_spec(x),
{
    let a: u32 = x ^ (x << 13);
    let b: u32 = a ^ (a >> 17);
    b ^ (b << 5)
}

/// Each stage of the generator is undone by a fixed combination of shifts.
proof fn lemma_stages_invert(x: u32)
    ensures
        ({
            let y = stage_left13(x);
            y ^ (y << 13) ^ (y << 26)
        }) == x,
        ({
            let y = stage_right17(x);
            y ^ (y >> 17)
        }) == x,
        ({
            let y = stage_left5(x);
            y ^ (y << 5) ^ (y << 10) ^ (y << 15) ^ (y << 20) ^ (y << 25) ^ (y << 30)
        }) == x,
{
    assert(({
        let y = x ^ (x << 13);
        y ^ (y << 13) ^ (y << 26)
    }) == x) by (bit_vector);
    assert(({
        let y = x ^ (x >> 17);
        y ^ (y >> 17)
    }) == x) by (bit_vector);
    assert(({
        let y = x ^ (x << 5);
        y ^ (y << 5) ^ (y << 10) ^ (y << 15) ^ (y << 20) ^ (y << 25) ^ (y << 30)
    }) == x) by (bit_vector);
}

/// A step of the generator loses nothing: the state before it can be
/// computed from the state after it.
pub proof fn lemma_xorshift_inverse(x: u32)
    ensures
        xorshift_inverse(xorshift_spec(x)) == x,
{
    let a = stage_left13(x);
    let b = stage_right17(a);
    lemma_stages_invert(x);
    lemma_stages_invert(a);
    lemma_stages_invert(b);
}

/// Two different states never step to the same state.
pub proof fn lemma_xorshift_injective(a: u32, b: u32)
    requires
        xorshift_spec(a) == xorshift_spec(b),
    ensures
        a == b,
{
    lemma_xorshift_inverse(a);
    lemma_xorshift_inverse(b);
}

/// Zero is the one state that the generator cannot leave, and no other state
/// ever reaches it.
pub proof fn lemma_xorshift_zero(x: u32)
    ensures
        xorshift_spec(x) == 0 <==> x == 0,
{
    assert(xorshift_spec(0) == 0) by (bit_vector);
    if xorshift_spec(x) == 0 {
        lemma_xorshift_injective(x, 0);
    }
}

/// Two different seeds stay different after any number of steps.
pub proof fn lemma_xorshift_iter_injective(a: u32, b: u32, n: nat)
    requires
        xorshift_iter(a, n) == xorshift_iter(b, n),
    ensures
        a == b,
    decreases n,
{
    if n > 0 {
        lemma_xorshift_injective(xorshift_iter(a, (n - 1) as nat), xorshift_iter(b, (n - 1) as nat));
        lemma_xorshift_iter_injective(a, b, (n - 1) as nat);
    }
}

/// Stepping `m` times and then `n` times is stepping `m + n` times.
pub proof fn lemma_xorshift_iter_add(x: u32, m: nat, n: nat)
    ensures
        xorshift_iter(xorshift_iter(x, m), n) == xorshift_iter(x, m + n),
    decreases n,
{
    if n > 0 {
        lemma_xorshift_iter_add(x, m, (n - 1) as nat);
    }
}

/// The distance, in units, between a scalar and the value of `v` units.
pub open spec fn distance(s: Scalar, v: int) -> int {
    if s.units() >= v {
        s.units() - v
    } else {
        v - s.units()
    }
}

/// `x / 2^32` in the units of a scalar: a whole number of them.
pub open spec fn unit_value(x: u32) -> int {
    x * pow2(117)
}

/// `r` is the scalar in `[0, 1)` that is nearest to `x / 2^32`; of two that
/// are equally near, it is the one with the even pattern.
pub open spec fn is_unit_of(r: Scalar, x: u32) -> bool {
    &&& r.bits < ONE_BITS
    &&& forall|s: Scalar|
        s.bits < ONE_BITS ==> distance(r, unit_value(x)) <= #[trigger] distance(s, unit_value(x))
    &&& forall|s: Scalar|
        s.bits < ONE_BITS && s.bits != r.bits && #[trigger] distance(s, unit_value(x)) == distance(
            r,
            unit_value(x),
        ) ==> r.bits % 2 == 0
}

/// The scalar in `[0, 1)` that is nearest to `x / 2^32`.
pub open spec fn unit_spec(x: u32) -> Scalar {
    choose|r: Scalar| is_unit_of(r, x)
}

/// Maps a 32-bit value to `[0, 1)`: the scalar nearest to `x / 2^32` that is
/// below one. That is `x / 2^32` rounded, except for the values above
/// `1 - 2^-25`, which would round to one and are given the last scalar
/// before it.
pub fn unit_f32_from_u32(x: u32) -> (r: Scalar)
    ensures
        is_unit_of(r, x),
        r == unit_spec(x),
{
    let ghost v = unit_value(x);
    let rounded = if x == 0 {
        proof {
            assert(v == 0) by (nonlinear_arith)
                requires
                    v == x * pow2(117),
                    x == 0,
            ;
            lemma_round_zero(Scalar { bits: 0 }, false, 1);
        }
        Scalar { bits: 0 }
    } else {
        let (m, n) = normalize(x as u64);
        proof {
            lemma_pow2_adds(n as nat, (373 - n) as nat);
            lemma_pow2_adds(117, 256);
            assert((m * pow2((373 - n) as nat)) * 1 == v * pow2(256)) by (nonlinear_arith)
                requires
                    m == x * pow2(n as nat),
                    pow2(n as nat) * pow2((373 - n) as nat) == pow2(117) * pow2(256),
                    v == x * pow2(117),
            ;
            lemma_brackets_exact(m as int, (373 - n) as nat, v, 1);
        }
        round_pack(false, m, 373 - n, false, Ghost(0), Ghost(v), Ghost(1))
    };
    let r = if rounded.bits >= ONE_BITS {
        Scalar { bits: ONE_BITS - 1 }
    } else {
        rounded
    };
    proof {
        lemma_unit_below_one(x, rounded, r);
        lemma_unit_unique(x, r, unit_spec(x));
    }
    r
}

/// The rounded value of `x / 2^32`, kept below one, is the nearest scalar
/// below one.
proof fn lemma_unit_below_one(x: u32, rounded: Scalar, r: Scalar)
    requires
        rounds(rounded, false, unit_value(x), 1),
        r.bits == if rounded.bits >= ONE_BITS {
            (ONE_BITS - 1) as u32
        } else {
            rounded.bits
        },
    ensures
        is_unit_of(r, x),
{
    let v = unit_value(x);
    let one = Scalar { bits: ONE_BITS };
    lemma2_to64();
    lemma_pow2_adds(23, 126);
    lemma_pow2_adds(32, 117);
    assert(one.exponent() == 127);
    assert(one.fraction() == 0);
    assert(one.units() == pow2(149));
    lemma_pow2_pos(117);
    assert(0 <= v < pow2(149)) by (nonlinear_arith)
        requires
            v == x * pow2(117),
            pow2(149) == 0x1_0000_0000 * pow2(117),
            0 <= x < 0x1_0000_0000,
            pow2(117) > 0,
    ;
    assert forall|s: Scalar| !s.sign() implies gap(s, v, 1) == #[trigger] distance(s, v) by {
        assert(s.magnitude() * 1 == s.magnitude());
    }
    lemma_magnitude_order(rounded, one);
    lemma_magnitude_order(one, rounded);
    assert(gap(rounded, v, 1) <= gap(one, v, 1));
    if rounded.bits >= ONE_BITS {
        // it was rounded up to one: nothing below one lies above the value
        assert(rounded.bits == ONE_BITS);
        let last = Scalar { bits: (ONE_BITS - 1) as u32 };
        lemma_magnitude_order(last, one);
        assert(gap(one, v, 1) <= gap(last, v, 1));
        assert(last.units() <= v);
        assert forall|s: Scalar| s.bits < ONE_BITS implies distance(r, v) <= #[trigger] distance(
            s,
            v,
        ) && (s.bits != r.bits ==> distance(r, v) < distance(s, v)) by {
            lemma_magnitude_order(s, last);
        }
    } else {
        assert forall|s: Scalar| s.bits < ONE_BITS implies distance(r, v) <= #[trigger] distance(
            s,
            v,
        ) by {
            assert(gap(r, v, 1) <= gap(s, v, 1));
        }
        assert forall|s: Scalar|
            s.bits < ONE_BITS && s.bits != r.bits && #[trigger] distance(s, v) == distance(
                r,
                v,
            ) implies r.bits % 2 == 0 by {
            assert(gap(s, v, 1) == gap(r, v, 1));
        }
    }
}

/// Only one scalar is the unit value of `x`.
pub proof fn lemma_unit_unique(x: u32, a: Scalar, b: Scalar)
    requires
        is_unit_of(a, x),
        is_unit_of(b, x),
    ensures
        a == b,
{
    let v = unit_value(x);
    if a.bits != b.bits {
        assert(distance(a, v) <= distance(b, v));
        assert(distance(b, v) <= distance(a, v));
        assert(a.bits % 2 == 0);
        assert(b.bits % 2 == 0);
        lemma_magnitude_order(a, b);
        lemma_magnitude_order(b, a);
        let (lo, hi) = if a.bits < b.bits {
            (a, b)
        } else {
            (b, a)
        };
        let mid = Scalar { bits: (lo.bits + 1) as u32 };
        lemma_magnitude_order(lo, mid);
        lemma_magnitude_order(mid, hi);
        assert(lo.units() < mid.units() < hi.units());
        assert(distance(mid, v) < distance(a, v));
        assert(distance(a, v) <= distance(mid, v));
    }
}

/// Maps a 32-bit value into an interval: `start + (end - start) * u`, where
/// `u` is the unit value of `x`.
pub fn f32_from_u32(x: u32, r: Interval) -> (v: Scalar)
    ensures
        v == r.start.add_spec(r.end.sub_spec(r.start).mul_spec(unit_spec(x))),
{
    r.start.add(r.end.sub(r.start).mul(unit_f32_from_u32(x)))
}

/// What a draw of two coordinates from `seed` results in.
pub open spec fn is_sample_of(out: (u32, [Scalar; 2]), seed: u32) -> bool {
    &&& out.0 == xorshift_iter(seed, 2)
    &&& is_unit_of(out.1[0], xorshift_iter(seed, 1))
    &&& is_unit_of(out.1[1], xorshift_iter(seed, 2))
}

/// The point of the unit square that is drawn from `seed`.
pub open spec fn jitter_spec(seed: u32) -> [Scalar; 2] {
    [unit_spec(xorshift_iter(seed, 1)), unit_spec(xorshift_iter(seed, 2))]
}

/// Draws a point of the unit square: the generator is stepped once for `x`
/// and once more for `y`. Returns the state after the second step with the
/// pair `[x, y]`.
pub fn sample_square(seed: u32) -> (out: (u32, [Scalar; 2]))
    ensures
        is_sample_of(out, seed),
        out.1 == jitter_spec(seed),
{
    proof {
        reveal_with_fuel(xorshift_iter, 3);
    }
    let ghost seed0 = seed;
    let seed = xorshift(seed);
    let x = unit_f32_from_u32(seed);
    let seed = xorshift(seed);
    let y = unit_f32_from_u32(seed);
    let out = (seed, [x, y]);
    assert(out.1 =~= jitter_spec(seed0));
    out
}

/// The same seed gives the same draw, every time.
pub proof fn lemma_sample_square_deterministic(
    seed: u32,
    a: (u32, [Scalar; 2]),
    b: (u32, [Scalar; 2]),
)
    requires
        is_sample_of(a, seed),
        is_sample_of(b, seed),
    ensures
        a == b,
{
    lemma_unit_unique(xorshift_iter(seed, 1), a.1[0], b.1[0]);
    lemma_unit_unique(xorshift_iter(seed, 2), a.1[1], b.1[1]);
    assert(a.1 =~= b.1);
}

/// Different seeds give different draws: the states that they leave behind
/// differ.
pub proof fn lemma_sample_square_injective(
    seed_a: u32,
    seed_b: u32,
    a: (u32, [Scalar; 2]),
    b: (u32, [Scalar; 2]),
)
    requires
        is_sample_of(a, seed_a),
        is_sample_of(b, seed_b),
        seed_a != seed_b,
    ensures
        a.0 != b.0,
{
    if a.0 == b.0 {
        lemma_xorshift_iter_injective(seed_a, seed_b, 2);
    }
}

} // verus!
