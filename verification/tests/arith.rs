use raytracer::sampler::xorshift;
use raytracer::scalar::Scalar;

const SPECIAL: [u32; 30] = [
    0x0000_0000,
    0x8000_0000,
    0x0000_0001,
    0x8000_0001,
    0x0000_0002,
    0x0000_0003,
    0x007f_ffff,
    0x0080_0000,
    0x0080_0001,
    0x00ff_ffff,
    0x0100_0000,
    0x3f00_0000,
    0x3f7f_ffff,
    0x3f80_0000,
    0x3f80_0001,
    0x3fc0_0000,
    0x4000_0000,
    0x4040_0000,
    0xbf80_0000,
    0xc000_0000,
    0x7f7f_ffff,
    0xff7f_ffff,
    0x7f00_0000,
    0x7f80_0000,
    0xff80_0000,
    0x7fc0_0000,
    0xffc0_0001,
    0x1f80_0000,
    0x5f80_0000,
    0x3400_0000,
];

/// Patterns of every kind: any bits, numbers near one, numbers of nearby
/// exponents, subnormal numbers and the special values.
fn patterns(count: usize) -> Vec<u32> {
    let mut out: Vec<u32> = SPECIAL.to_vec();
    let mut x: u32 = 0xDEADBEEF;
    for i in 0..count {
        x = xorshift(x);
        let v = match i % 5 {
            0 => x,
            1 => 0x3f00_0000 + (x % 0x0100_0000),
            2 => (x & 0x8000_0000) | (0x3000_0000 + (x % 0x2000_0000)),
            3 => (x & 0x8000_0000) | (x % 0x0100_0000),
            _ => (x & 0x807f_ffff) | (((x >> 23) % 8 + 124) << 23),
        };
        out.push(v);
    }
    out
}

fn same(got: Scalar, want: f32) -> bool {
    if want.is_nan() {
        got.is_nan()
    } else {
        got.to_bits() == want.to_bits()
    }
}

#[test]
fn products_of_plain_numbers() {
    let s = |x: f32| Scalar::from_bits(x.to_bits());
    assert_eq!(s(2.0).mul(s(3.0)).to_bits(), 6.0f32.to_bits());
    assert_eq!(s(-2.0).mul(s(3.0)).to_bits(), (-6.0f32).to_bits());
    assert_eq!(s(0.5).mul(s(0.5)).to_bits(), 0.25f32.to_bits());
    assert_eq!(s(0.1).mul(s(0.1)).to_bits(), (0.1f32 * 0.1f32).to_bits());
    assert_eq!(s(-0.0).mul(s(5.0)).to_bits(), (-0.0f32).to_bits());
    assert_eq!(s(f32::MAX).mul(s(2.0)).to_bits(), f32::INFINITY.to_bits());
    assert!(s(f32::INFINITY).mul(s(0.0)).is_nan());
    assert_eq!(s(f32::INFINITY).mul(s(0.0)).to_bits(), 0x7fc0_0000);
}

#[test]
fn products_agree_with_the_machine() {
    let ps = patterns(700);
    for a in &ps {
        for b in &ps {
            let want = f32::from_bits(*a) * f32::from_bits(*b);
            let got = Scalar::from_bits(*a).mul(Scalar::from_bits(*b));
            assert!(same(got, want), "{:#x} * {:#x}: got {:#x}, want {:#x}", a, b, got.to_bits(), want.to_bits());
        }
    }
}

#[test]
fn sums_of_plain_numbers() {
    let s = |x: f32| Scalar::from_bits(x.to_bits());
    assert_eq!(s(2.0).add(s(3.0)).to_bits(), 5.0f32.to_bits());
    assert_eq!(s(2.0).sub(s(3.0)).to_bits(), (-1.0f32).to_bits());
    assert_eq!(s(0.1).add(s(0.2)).to_bits(), (0.1f32 + 0.2f32).to_bits());
    assert_eq!(s(1.0).add(s(1e-10)).to_bits(), 1.0f32.to_bits());
    assert_eq!(s(1.0).sub(s(1.0)).to_bits(), 0.0f32.to_bits());
    assert_eq!(s(-1.0).add(s(1.0)).to_bits(), 0.0f32.to_bits());
    assert_eq!(s(-0.0).add(s(-0.0)).to_bits(), (-0.0f32).to_bits());
    assert_eq!(s(-0.0).add(s(0.0)).to_bits(), 0.0f32.to_bits());
    assert_eq!(s(f32::MAX).add(s(f32::MAX)).to_bits(), f32::INFINITY.to_bits());
    assert!(s(f32::INFINITY).sub(s(f32::INFINITY)).is_nan());
    assert_eq!(s(f32::INFINITY).add(s(f32::INFINITY)).to_bits(), f32::INFINITY.to_bits());
}

#[test]
fn sums_agree_with_the_machine() {
    let ps = patterns(700);
    for a in &ps {
        for b in &ps {
            let want = f32::from_bits(*a) + f32::from_bits(*b);
            let got = Scalar::from_bits(*a).add(Scalar::from_bits(*b));
            assert!(same(got, want), "{:#x} + {:#x}: got {:#x}, want {:#x}", a, b, got.to_bits(), want.to_bits());
        }
    }
}

#[test]
fn differences_agree_with_the_machine() {
    let ps = patterns(700);
    for a in &ps {
        for b in &ps {
            let want = f32::from_bits(*a) - f32::from_bits(*b);
            let got = Scalar::from_bits(*a).sub(Scalar::from_bits(*b));
            assert!(same(got, want), "{:#x} - {:#x}: got {:#x}, want {:#x}", a, b, got.to_bits(), want.to_bits());
        }
    }
}

#[test]
fn quotients_of_plain_numbers() {
    let s = |x: f32| Scalar::from_bits(x.to_bits());
    assert_eq!(s(6.0).div(s(3.0)).to_bits(), 2.0f32.to_bits());
    assert_eq!(s(1.0).div(s(3.0)).to_bits(), (1.0f32 / 3.0f32).to_bits());
    assert_eq!(s(-1.0).div(s(0.0)).to_bits(), f32::NEG_INFINITY.to_bits());
    assert_eq!(s(1.0).div(s(-0.0)).to_bits(), f32::NEG_INFINITY.to_bits());
    assert_eq!(s(0.0).div(s(-5.0)).to_bits(), (-0.0f32).to_bits());
    assert_eq!(s(5.0).div(s(f32::INFINITY)).to_bits(), 0.0f32.to_bits());
    assert!(s(0.0).div(s(0.0)).is_nan());
    assert!(s(f32::INFINITY).div(s(f32::INFINITY)).is_nan());
    assert_eq!(s(1.0).div(s(600.0)).to_bits(), (1.0f32 / 600.0f32).to_bits());
}

#[test]
fn quotients_agree_with_the_machine() {
    let ps = patterns(700);
    for a in &ps {
        for b in &ps {
            let want = f32::from_bits(*a) / f32::from_bits(*b);
            let got = Scalar::from_bits(*a).div(Scalar::from_bits(*b));
            assert!(same(got, want), "{:#x} / {:#x}: got {:#x}, want {:#x}", a, b, got.to_bits(), want.to_bits());
        }
    }
}

#[test]
fn roots_of_plain_numbers() {
    let s = |x: f32| Scalar::from_bits(x.to_bits());
    assert_eq!(s(4.0).sqrt().to_bits(), 2.0f32.to_bits());
    assert_eq!(s(2.0).sqrt().to_bits(), 2.0f32.sqrt().to_bits());
    assert_eq!(s(0.25).sqrt().to_bits(), 0.5f32.to_bits());
    assert_eq!(s(0.0).sqrt().to_bits(), 0.0f32.to_bits());
    assert_eq!(s(-0.0).sqrt().to_bits(), (-0.0f32).to_bits());
    assert_eq!(s(f32::INFINITY).sqrt().to_bits(), f32::INFINITY.to_bits());
    assert!(s(-1.0).sqrt().is_nan());
    assert!(s(f32::NEG_INFINITY).sqrt().is_nan());
    assert!(s(f32::NAN).sqrt().is_nan());
}

#[test]
fn roots_agree_with_the_machine() {
    for a in patterns(400000) {
        let want = f32::from_bits(a).sqrt();
        let got = Scalar::from_bits(a).sqrt();
        assert!(same(got, want), "sqrt {:#x}: got {:#x}, want {:#x}", a, got.to_bits(), want.to_bits());
    }
}

#[test]
fn whole_numbers() {
    for n in [0usize, 1, 2, 3, 100, 399, 400, 599, 600, 0xff_ffff, 0x100_0000, 0x100_0001, 0x100_0003, 0x1ff_ffff, 0xffff_ffff, 0x1_0000_0000, usize::MAX, usize::MAX / 3] {
        assert_eq!(Scalar::from_usize(n).to_bits(), (n as f32).to_bits(), "n = {}", n);
    }
    let mut x: u32 = 0xDEADBEEF;
    for _ in 0..100000 {
        x = xorshift(x);
        let n = ((x as usize) << 32 | xorshift(x) as usize) >> (x % 64);
        assert_eq!(Scalar::from_usize(n).to_bits(), (n as f32).to_bits(), "n = {}", n);
    }
}
