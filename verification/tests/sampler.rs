use raytracer::hittable::Interval;
use raytracer::sampler::{f32_from_u32, sample_square, unit_f32_from_u32, xorshift};
use raytracer::scalar::Scalar;

fn unit_by_division(x: u32) -> f32 {
    ((x as f64) / 4294967296.0) as f32
}

#[test]
fn xorshift_known_values() {
    assert_eq!(xorshift(1), 270369);
    assert_eq!(xorshift(2), 540738);
    assert_eq!(xorshift(0xDEADBEEF), 0x477d20b7);
    assert_eq!(xorshift(0xFFFFFFFF), 0x3e01f);
    assert_eq!(xorshift(0x80000000), 0x80084000);
}

#[test]
fn xorshift_keeps_zero_and_only_zero() {
    assert_eq!(xorshift(0), 0);
    let mut x: u32 = 1;
    for _ in 0..100000 {
        x = xorshift(x);
        assert_ne!(x, 0);
    }
}

#[test]
fn xorshift_is_injective_on_a_range() {
    let mut seen: Vec<u32> = (0..4096u32).map(xorshift).collect();
    seen.sort();
    seen.dedup();
    assert_eq!(seen.len(), 4096);
}

#[test]
fn unit_of_edge_values() {
    assert_eq!(unit_f32_from_u32(0).to_bits(), 0.0f32.to_bits());
    assert_eq!(unit_f32_from_u32(0x80000000).to_bits(), 0.5f32.to_bits());
    assert_eq!(unit_f32_from_u32(0x40000000).to_bits(), 0.25f32.to_bits());
    assert_eq!(unit_f32_from_u32(1).to_bits(), 0x2f80_0000);
    assert_eq!(unit_f32_from_u32(3).to_bits(), 0x3040_0000);
}

#[test]
fn unit_rounds_to_nearest_even() {
    // 2^24 + 1 lies halfway between two neighbours: the even one wins.
    assert_eq!(unit_f32_from_u32(0x0100_0001).to_bits(), unit_by_division(0x0100_0000).to_bits());
    // 2^24 + 3 lies halfway too, and the even neighbour is the upper one.
    assert_eq!(unit_f32_from_u32(0x0100_0003).to_bits(), unit_by_division(0x0100_0004).to_bits());
    assert_eq!(unit_f32_from_u32(0x0100_0002).to_bits(), unit_by_division(0x0100_0002).to_bits());
}

#[test]
fn unit_stays_below_one() {
    let top = 0x3f7f_ffff;
    assert_eq!(unit_f32_from_u32(0xFFFF_FFFF).to_bits(), top);
    assert_eq!(unit_f32_from_u32(0xFFFF_FF80).to_bits(), top);
    assert_eq!(unit_f32_from_u32(0xFFFF_FF7F).to_bits(), top);
    assert_eq!(unit_f32_from_u32(0xFFFF_FF00).to_bits(), top);
    assert!(f32::from_bits(unit_f32_from_u32(0xFFFF_FFFF).to_bits()) < 1.0);
}

#[test]
fn unit_agrees_with_division_in_double_precision() {
    let mut x: u32 = 0xDEADBEEF;
    for _ in 0..200000 {
        x = xorshift(x);
        let y = x >> (x & 31);
        for v in [x, y] {
            if v < 0xFFFF_FF80 {
                assert_eq!(unit_f32_from_u32(v).to_bits(), unit_by_division(v).to_bits(), "x = {}", v);
            }
        }
    }
}

#[test]
fn sample_square_draws_x_then_y() {
    let (seed, [x, y]) = sample_square(0xDEADBEEF);
    assert_eq!(seed, 0x8e1d9142);
    assert_eq!(x.to_bits(), unit_by_division(0x477d20b7).to_bits());
    assert_eq!(y.to_bits(), unit_by_division(0x8e1d9142).to_bits());
}

#[test]
fn sample_square_is_deterministic() {
    for seed in [1u32, 2, 0xDEADBEEF, 0xFFFF_FFFF] {
        let (s1, [x1, y1]) = sample_square(seed);
        let (s2, [x2, y2]) = sample_square(seed);
        assert_eq!(s1, s2);
        assert_eq!(x1.to_bits(), x2.to_bits());
        assert_eq!(y1.to_bits(), y2.to_bits());
    }
}

#[test]
fn sample_square_separates_seeds() {
    let mut outs: Vec<u32> = (1..2000u32).map(|s| sample_square(s).0).collect();
    outs.sort();
    outs.dedup();
    assert_eq!(outs.len(), 1999);
}

#[test]
fn sample_square_threads_the_seed() {
    let (s1, _) = sample_square(7);
    let (s2, [x, _]) = sample_square(s1);
    assert_eq!(s2, xorshift(xorshift(xorshift(xorshift(7)))));
    assert_eq!(x.to_bits(), unit_f32_from_u32(xorshift(s1)).to_bits());
}

#[test]
fn value_in_an_interval() {
    let r = Interval { start: Scalar::from_bits(2.0f32.to_bits()), end: Scalar::from_bits(6.0f32.to_bits()) };
    assert_eq!(f32_from_u32(0, r).to_bits(), 2.0f32.to_bits());
    assert_eq!(f32_from_u32(0x8000_0000, r).to_bits(), 4.0f32.to_bits());
    assert_eq!(f32_from_u32(0x4000_0000, r).to_bits(), 3.0f32.to_bits());
    let x = 0x1234_5678;
    let want = 2.0f32 + (6.0f32 - 2.0f32) * unit_by_division(x);
    assert_eq!(f32_from_u32(x, r).to_bits(), want.to_bits());
}
