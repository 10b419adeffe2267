//! Linear RGB colours and their encodings for output.

use crate::scalar::{lemma_magnitude_order, Scalar, FRACTIONS, SIGN_BIT};
use crate::vec::Vec3;
use vstd::arithmetic::div_mod::{
    lemma_basic_div,
    lemma_div_by_multiple,
    lemma_div_denominator,
    lemma_div_is_ordered,
};
use vstd::arithmetic::mul::{
    lemma_mul_inequality,
    lemma_mul_is_associative,
    lemma_mul_strict_inequality,
};
use vstd::arithmetic::power2::{
    lemma2_to64,
    lemma_pow2_adds,
    lemma_pow2_pos,
    lemma_pow2_strictly_increases,
    pow2,
};
use vstd::bits::lemma_u32_shr_is_div;
use vstd::prelude::*;

verus! {

/// The pattern of 0.9999, the highest value that a channel is encoded from.
/// It lies below one so that no channel ever reaches the number of levels.
pub const CEILING_BITS: u32 = 0x3f7f_f972;

/// The exponent of the unit of a scalar: a scalar of `u` units is
/// `u / 2^149`.
pub open spec fn unit_exponent() -> nat {
    149
}

/// The channel value clamped to `[0, 0.9999]`, in units. NaN has no clamped
/// value and is not asked for one.
pub open spec fn clamped_units(x: Scalar) -> int {
    let ceiling = Scalar { bits: CEILING_BITS }.units();
    if x.units() < 0 {
        0
    } else if x.units() > ceiling {
        ceiling
    } else {
        x.units()
    }
}

/// The level of a channel among `2^depth`: `clamp(x, 0, 0.9999) * 2^depth`,
/// rounded down. NaN has level zero.
pub open spec fn level_spec(x: Scalar, depth: nat) -> nat {
    if x.is_nan_spec() {
        0
    } else {
        ((clamped_units(x) * pow2(depth)) / (pow2(unit_exponent()) as int)) as nat
    }
}

/// The more significant byte of a 16-bit level.
pub open spec fn high_byte(v: u16) -> u8 {
    (v / 256) as u8
}

/// The less significant byte of a 16-bit level.
pub open spec fn low_byte(v: u16) -> u8 {
    (v % 256) as u8
}

/// A colour: three channels, each meant to lie in `[0, 1)`.
#[derive(Clone, Copy, Debug)]
pub struct Color {
    pub r: Scalar,
    pub g: Scalar,
    pub b: Scalar,
}

impl Color {
    /// The six bytes of the colour at sixteen bits a channel: red, green,
    /// blue, each with its more significant byte first.
    pub open spec fn rgb16_spec(self) -> Seq<u8> {
        let r = level_spec(self.r, 16) as u16;
        let g = level_spec(self.g, 16) as u16;
        let b = level_spec(self.b, 16) as u16;
        seq![high_byte(r), low_byte(r), high_byte(g), low_byte(g), high_byte(b), low_byte(b)]
    }

    /// The three bytes of the colour at eight bits a channel.
    pub open spec fn rgb8_spec(self) -> Seq<u8> {
        seq![
            level_spec(self.r, 8) as u8,
            level_spec(self.g, 8) as u8,
            level_spec(self.b, 8) as u8,
        ]
    }

    /// The channels as the components of a vector: red, green, blue.
    pub open spec fn to_vec3_spec(self) -> Vec3 {
        Vec3([self.r, self.g, self.b])
    }

    /// The colour whose channels are the components of `v`.
    pub open spec fn from_vec3_spec(v: Vec3) -> Color {
        Color { r: v.0[0], g: v.0[1], b: v.0[2] }
    }

    /// Black.
    pub open spec fn black() -> Color {
        Color { r: Scalar { bits: 0 }, g: Scalar { bits: 0 }, b: Scalar { bits: 0 } }
    }

    /// Black.
    pub fn new() -> (c: Color)
        ensures
            c == Self::black(),
    {
        Color { r: Scalar::zero(), g: Scalar::zero(), b: Scalar::zero() }
    }

    /// Encodes the colour at sixteen bits a channel, big-endian.
    pub fn to_rgb16(self) -> (bytes: [u8; 6])
        ensures
            bytes@ == self.rgb16_spec(),
    {
        let r = channel16(self.r);
        let g = channel16(self.g);
        let b = channel16(self.b);
        let bytes = [
            (r / 256) as u8,
            (r % 256) as u8,
            (g / 256) as u8,
            (g % 256) as u8,
            (b / 256) as u8,
            (b % 256) as u8,
        ];
        assert(bytes@ =~= self.rgb16_spec());
        bytes
    }

    /// Encodes the colour at eight bits a channel.
    pub fn to_rgb8(self) -> (bytes: [u8; 3])
        ensures
            bytes@ == self.rgb8_spec(),
    {
        let bytes = [channel8(self.r), channel8(self.g), channel8(self.b)];
        assert(bytes@ =~= self.rgb8_spec());
        bytes
    }

    /// The channels as the components of a vector: red, green, blue.
    pub fn to_vec3(self) -> (v: Vec3)
        ensures
            v == self.to_vec3_spec(),
            v.0[0] == self.r,
            v.0[1] == self.g,
            v.0[2] == self.b,
    {
        Vec3([self.r, self.g, self.b])
    }

    /// The colour whose channels are the components of `v`.
    pub fn from_vec3(v: Vec3) -> (c: Color)
        ensures
            c == Self::from_vec3_spec(v),
            c.r == v.0[0],
            c.g == v.0[1],
            c.b == v.0[2],
    {
        Color { r: v.0[0], g: v.0[1], b: v.0[2] }
    }
}

/// Going to a vector and back, either way round, changes nothing.
pub proof fn lemma_vec3_round_trip(c: Color, v: Vec3)
    ensures
        Color::from_vec3_spec(c.to_vec3_spec()) == c,
        Color::from_vec3_spec(v).to_vec3_spec() == v,
{
    assert(Color::from_vec3_spec(v).to_vec3_spec().0 =~= v.0);
}

/// The level of a channel among 65536.
pub fn channel16(x: Scalar) -> (v: u16)
    ensures
        v == level_spec(x, 16),
{
    let v = level(x, 16);
    proof {
        lemma2_to64();
    }
    v as u16
}

/// The level of a channel among 256.
pub fn channel8(x: Scalar) -> (v: u8)
    ensures
        v == level_spec(x, 8),
{
    let v = level(x, 8);
    proof {
        lemma2_to64();
    }
    v as u8
}

fn level(x: Scalar, depth: u32) -> (v: u32)
    requires
        depth <= 16,
    ensures
        v == level_spec(x, depth as nat),
        v < pow2(depth as nat),
{
    proof {
        lemma_level_bound(x, depth as nat);
    }
    if x.is_nan() || x.bits >= SIGN_BIT {
        proof {
            lemma_pow2_pos(depth as nat);
            lemma_pow2_pos(149);
            lemma_basic_div(0, pow2(149) as int);
            if !x.is_nan_spec() {
                assert(clamped_units(x) == 0);
                assert(clamped_units(x) * pow2(depth as nat) == 0);
            }
        }
        return 0;
    }
    let b: u32 = if x.bits > CEILING_BITS {
        CEILING_BITS
    } else {
        x.bits
    };
    let e: u32 = b / FRACTIONS;
    let f: u32 = b % FRACTIONS;
    proof {
        let c = Scalar { bits: b };
        lemma_magnitude_order(Scalar { bits: CEILING_BITS }, x);
        assert(clamped_units(x) == c.units());
        lemma_level_formula(c, depth as nat);
    }
    if e == 0 {
        return 0;
    }
    let shift: u32 = 150 - depth - e;
    if shift >= 32 {
        proof {
            lemma2_to64();
            lemma_pow2_strictly_increases(24, shift as nat);
            lemma_basic_div((FRACTIONS + f) as int, pow2(shift as nat) as int);
        }
        return 0;
    }
    proof {
        lemma_u32_shr_is_div((FRACTIONS + f) as u32, shift);
    }
    (FRACTIONS + f) >> shift
}

/// Scaling a multiple of a power of two down by a higher power of two
/// leaves the quotient by the difference.
proof fn lemma_scale_down(m: int, a: nat, b: nat)
    requires
        0 <= m,
        a <= b,
    ensures
        (m * pow2(a)) / (pow2(b) as int) == m / (pow2((b - a) as nat) as int),
{
    let pa = pow2(a) as int;
    let pd = pow2((b - a) as nat) as int;
    lemma_pow2_pos(a);
    lemma_pow2_pos((b - a) as nat);
    lemma_pow2_adds(a, (b - a) as nat);
    assert(pow2(b) == pa * pd);
    assert(m * pa >= 0) by (nonlinear_arith)
        requires
            m >= 0,
            pa > 0,
    ;
    lemma_div_denominator(m * pa, pa, pd);
    lemma_div_by_multiple(m, pa);
}

/// The level of a channel between zero and the ceiling, read off its
/// exponent and fraction: the leading 24 bits shifted right by
/// `150 - depth - exponent` places.
pub proof fn lemma_level_formula(c: Scalar, depth: nat)
    requires
        c.bits <= CEILING_BITS,
        depth <= 16,
    ensures
        c.exponent() <= 126,
        clamped_units(c) == c.units(),
        level_spec(c, depth) == (c.units() * pow2(depth)) / (pow2(unit_exponent()) as int),
        level_spec(c, depth) == if c.exponent() == 0 {
            0
        } else {
            (FRACTIONS + c.fraction()) as int / (pow2((150 - depth - c.exponent()) as nat) as int)
        },
{
    lemma_magnitude_order(c, Scalar { bits: CEILING_BITS });
    lemma_pow2_pos(depth);
    lemma_pow2_pos(149);
    assert(0 <= c.units() * pow2(depth)) by (nonlinear_arith)
        requires
            0 <= c.units(),
            0 < pow2(depth),
    ;
    lemma_div_is_ordered(0, c.units() * pow2(depth), pow2(149) as int);
    lemma_basic_div(0, pow2(149) as int);
    let e = c.exponent();
    let f = c.fraction();
    if e == 0 {
        lemma2_to64();
        lemma_pow2_pos(depth);
        lemma_pow2_adds(23, depth);
        lemma_pow2_strictly_increases(23 + depth, 149);
        assert(f * pow2(depth) < pow2(23) * pow2(depth)) by {
            lemma_mul_strict_inequality(f as int, pow2(23) as int, pow2(depth) as int);
        }
        assert(0 <= f * pow2(depth)) by (nonlinear_arith)
            requires
                f >= 0,
                pow2(depth) > 0,
        ;
        lemma_basic_div((f * pow2(depth)) as int, pow2(149) as int);
    } else {
        let m = (FRACTIONS + f) as int;
        let a = (e - 1 + depth) as nat;
        lemma_pow2_adds((e - 1) as nat, depth);
        assert(c.units() * pow2(depth) == m * pow2(a)) by {
            lemma_mul_is_associative(m, pow2((e - 1) as nat) as int, pow2(depth) as int);
        }
        lemma_scale_down(m, a, 149);
    }
}

/// A level stays below the number of levels, and at sixteen bits below
/// 65530: full scale is never put out.
pub proof fn lemma_level_bound(x: Scalar, depth: nat)
    requires
        depth <= 16,
    ensures
        level_spec(x, depth) < pow2(depth),
        level_spec(x, 16) <= 65529,
        level_spec(x, 8) <= 255,
{
    lemma_level_at_most_ceiling(x, depth);
    lemma_level_at_most_ceiling(x, 16);
    lemma_level_at_most_ceiling(x, 8);
    let top = Scalar { bits: CEILING_BITS };
    lemma_level_formula(top, depth);
    lemma_level_formula(top, 16);
    lemma_level_formula(top, 8);
    assert(top.exponent() == 126);
    assert(top.fraction() == 0x7f_f972);
    lemma2_to64();
    assert(level_spec(top, 16) == 0xff_f972int / 256);
    assert(level_spec(top, 8) == 0xff_f972int / 65536);
    let s = (24 - depth) as nat;
    lemma_pow2_adds(s, depth);
    lemma_pow2_pos(s);
    lemma_pow2_pos(depth);
    assert(level_spec(top, depth) == 0xff_f972int / (pow2(s) as int));
    assert(0xff_f972int / (pow2(s) as int) < pow2(depth)) by (nonlinear_arith)
        requires
            pow2(s) * pow2(depth) == 0x100_0000,
            pow2(s) > 0,
            pow2(depth) > 0,
    ;
}

/// No channel has a higher level than one at the ceiling.
proof fn lemma_level_at_most_ceiling(x: Scalar, depth: nat)
    ensures
        level_spec(x, depth) <= level_spec(Scalar { bits: CEILING_BITS }, depth),
{
    let top = Scalar { bits: CEILING_BITS };
    lemma_pow2_pos(depth);
    lemma_pow2_pos(149);
    lemma_magnitude_order(Scalar { bits: 0 }, top);
    assert(clamped_units(top) == top.units());
    let cx = if x.is_nan_spec() {
        0
    } else {
        clamped_units(x)
    };
    assert(0 <= cx <= top.units());
    lemma_mul_inequality(cx, top.units(), pow2(depth) as int);
    lemma_mul_inequality(0, cx, pow2(depth) as int);
    lemma_div_is_ordered(cx * pow2(depth), top.units() * pow2(depth), pow2(149) as int);
    lemma_div_is_ordered(0, cx * pow2(depth), pow2(149) as int);
    if x.is_nan_spec() {
        assert(0int / (pow2(149) as int) == 0) by {
            lemma_basic_div(0, pow2(149) as int);
        }
    }
}

/// A brighter channel never gets a lower level.
pub proof fn lemma_level_monotone(x: Scalar, y: Scalar, depth: nat)
    requires
        x.le_spec(y),
    ensures
        level_spec(x, depth) <= level_spec(y, depth),
{
    lemma_pow2_pos(depth);
    lemma_pow2_pos(149);
    let top = Scalar { bits: CEILING_BITS };
    lemma_magnitude_order(Scalar { bits: 0 }, top);
    lemma_mul_inequality(clamped_units(x), clamped_units(y), pow2(depth) as int);
    lemma_mul_inequality(0, clamped_units(x), pow2(depth) as int);
    lemma_div_is_ordered(
        clamped_units(x) * pow2(depth),
        clamped_units(y) * pow2(depth),
        pow2(149) as int,
    );
    lemma_div_is_ordered(0, clamped_units(x) * pow2(depth), pow2(149) as int);
    lemma_div_is_ordered(0, clamped_units(y) * pow2(depth), pow2(149) as int);
    lemma_basic_div(0, pow2(149) as int);
}

} // verus!
