use raytracer::sampler::xorshift;
use raytracer::scalar::Scalar;

fn s(x: f32) -> Scalar {
    Scalar::from_bits(x.to_bits())
}

const SPECIAL: [u32; 16] = [
    0x0000_0000,
    0x8000_0000,
    0x0000_0001,
    0x8000_0001,
    0x007f_ffff,
    0x0080_0000,
    0x3f80_0000,
    0xbf80_0000,
    0x7f7f_ffff,
    0xff7f_ffff,
    0x7f80_0000,
    0xff80_0000,
    0x7fc0_0000,
    0xffc0_0000,
    0x7f80_0001,
    0x3f7f_f972,
];

#[test]
fn order_of_plain_numbers() {
    assert!(s(1.0).lt(s(2.0)));
    assert!(!s(2.0).lt(s(1.0)));
    assert!(!s(1.0).lt(s(1.0)));
    assert!(s(1.0).le(s(1.0)));
    assert!(s(-2.0).lt(s(-1.0)));
    assert!(s(-1.0).lt(s(1.0)));
    assert!(!s(1.0).le(s(-1.0)));
}

#[test]
fn both_zeros_are_equal() {
    assert!(!s(-0.0).lt(s(0.0)));
    assert!(!s(0.0).lt(s(-0.0)));
    assert!(s(-0.0).le(s(0.0)));
    assert!(s(0.0).le(s(-0.0)));
}

#[test]
fn nan_is_not_ordered() {
    let nan = s(f32::NAN);
    assert!(nan.is_nan());
    assert!(!nan.lt(s(1.0)));
    assert!(!s(1.0).lt(nan));
    assert!(!nan.le(nan));
    assert!(!s(f32::INFINITY).is_nan());
}

#[test]
fn order_agrees_with_the_machine_on_special_values() {
    for a in SPECIAL {
        for b in SPECIAL {
            let (x, y) = (f32::from_bits(a), f32::from_bits(b));
            assert_eq!(Scalar::from_bits(a).lt(Scalar::from_bits(b)), x < y, "{} < {}", x, y);
            assert_eq!(Scalar::from_bits(a).le(Scalar::from_bits(b)), x <= y, "{} <= {}", x, y);
        }
        assert_eq!(Scalar::from_bits(a).is_nan(), f32::from_bits(a).is_nan());
    }
}

#[test]
fn order_agrees_with_the_machine_on_a_stream() {
    let mut a: u32 = 0xDEADBEEF;
    let mut b: u32 = 0x1234567;
    for _ in 0..200000 {
        a = xorshift(a);
        b = xorshift(b);
        let (x, y) = (f32::from_bits(a), f32::from_bits(b));
        assert_eq!(Scalar::from_bits(a).lt(Scalar::from_bits(b)), x < y);
        assert_eq!(Scalar::from_bits(a).le(Scalar::from_bits(b)), x <= y);
    }
}

#[test]
fn negation_flips_the_sign() {
    assert_eq!(s(1.5).neg().to_bits(), (-1.5f32).to_bits());
    assert_eq!(s(-1.5).neg().to_bits(), 1.5f32.to_bits());
    assert_eq!(s(0.0).neg().to_bits(), (-0.0f32).to_bits());
    assert_eq!(s(f32::INFINITY).neg().to_bits(), f32::NEG_INFINITY.to_bits());
    assert!(s(f32::NAN).neg().is_nan());
    for a in SPECIAL {
        if !f32::from_bits(a).is_nan() {
            assert_eq!(Scalar::from_bits(a).neg().to_bits(), (f32::from_bits(a) * -1.0).to_bits());
        }
    }
}

#[test]
fn constants() {
    assert_eq!(Scalar::zero().to_bits(), 0.0f32.to_bits());
    assert_eq!(Scalar::infinity().to_bits(), f32::INFINITY.to_bits());
}
