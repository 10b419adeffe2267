use raytracer::color::{channel16, channel8, Color};
use raytracer::sampler::xorshift;
use raytracer::scalar::Scalar;
use raytracer::vec::Vec3;

fn s(x: f32) -> Scalar {
    Scalar::from_bits(x.to_bits())
}

fn color(r: f32, g: f32, b: f32) -> Color {
    Color { r: s(r), g: s(g), b: s(b) }
}

fn machine16(x: f32) -> u16 {
    (x.clamp(0.0, 0.9999) * 65536.0).floor() as u16
}

fn machine8(x: f32) -> u8 {
    (x.clamp(0.0, 0.9999) * 256.0).floor() as u8
}

#[test]
fn new_is_black() {
    let c = Color::new();
    assert_eq!(c.r.to_bits(), 0);
    assert_eq!(c.g.to_bits(), 0);
    assert_eq!(c.b.to_bits(), 0);
    assert_eq!(c.to_rgb16(), [0, 0, 0, 0, 0, 0]);
}

#[test]
fn sixteen_bit_encoding_of_zero_half_and_ceiling() {
    let bytes = color(0.0, 0.5, 0.9999).to_rgb16();
    assert_eq!(bytes, [0x00, 0x00, 0x80, 0x00, 0xFF, 0xF9]);
}

#[test]
fn one_never_comes_out_at_full_scale() {
    assert_eq!(color(1.0, 2.0, f32::INFINITY).to_rgb16(), [0xFF, 0xF9, 0xFF, 0xF9, 0xFF, 0xF9]);
    assert_eq!(color(1.0, 2.0, f32::INFINITY).to_rgb8(), [255, 255, 255]);
}

#[test]
fn negative_and_nan_channels_are_zero() {
    assert_eq!(color(-1.0, -0.0, f32::NAN).to_rgb16(), [0, 0, 0, 0, 0, 0]);
    assert_eq!(color(f32::NEG_INFINITY, -1e-40, -f32::NAN).to_rgb8(), [0, 0, 0]);
}

#[test]
fn eight_bit_encoding() {
    assert_eq!(color(0.0, 0.5, 0.9999).to_rgb8(), [0, 128, 255]);
    assert_eq!(color(0.25, 0.75, 0.1).to_rgb8(), [64, 192, 25]);
}

#[test]
fn small_values_round_down() {
    assert_eq!(channel16(s(1.0 / 65536.0)), 1);
    assert_eq!(channel16(s(0.99 / 65536.0)), 0);
    assert_eq!(channel16(s(1e-40)), 0);
    assert_eq!(channel8(s(1.0 / 256.0)), 1);
    assert_eq!(channel8(s(0.99 / 256.0)), 0);
}

#[test]
fn channels_agree_with_the_machine() {
    let mut a: u32 = 0xDEADBEEF;
    for _ in 0..200000 {
        a = xorshift(a);
        // a pattern of any kind, and one between 2^-20 and 2
        for bits in [a, 0x3580_0000 + (a % 0x0a80_0000)] {
            let x = f32::from_bits(bits);
            assert_eq!(channel16(Scalar::from_bits(bits)), machine16(x), "x = {}", x);
            assert_eq!(channel8(Scalar::from_bits(bits)), machine8(x), "x = {}", x);
        }
    }
}

#[test]
fn levels_grow_with_the_channel() {
    let mut last = 0u16;
    for i in 0..=1000 {
        let v = channel16(s(i as f32 / 1000.0));
        assert!(v >= last);
        assert!(v <= 65529);
        last = v;
    }
}

#[test]
fn vector_round_trip() {
    let c = color(0.1, 0.2, 0.3);
    let v = c.to_vec3();
    assert_eq!(v.0[0].to_bits(), 0.1f32.to_bits());
    assert_eq!(v.0[1].to_bits(), 0.2f32.to_bits());
    assert_eq!(v.0[2].to_bits(), 0.3f32.to_bits());
    let d = Color::from_vec3(v);
    assert_eq!(d.r.to_bits(), c.r.to_bits());
    assert_eq!(d.g.to_bits(), c.g.to_bits());
    assert_eq!(d.b.to_bits(), c.b.to_bits());
    let w = Vec3([s(3.0), s(2.0), s(1.0)]);
    let e = Color::from_vec3(w);
    assert_eq!(e.r.to_bits(), 3.0f32.to_bits());
    assert_eq!(e.b.to_bits(), 1.0f32.to_bits());
}
