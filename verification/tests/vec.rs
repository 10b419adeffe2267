use raytracer::ray::Ray;
use raytracer::sampler::xorshift;
use raytracer::scalar::Scalar;
use raytracer::vec::Vec3;

fn s(x: f32) -> Scalar {
    Scalar::from_bits(x.to_bits())
}

fn f(x: Scalar) -> f32 {
    f32::from_bits(x.to_bits())
}

fn v(a: [f32; 3]) -> Vec3 {
    Vec3([s(a[0]), s(a[1]), s(a[2])])
}

fn floats(v: Vec3) -> [f32; 3] {
    [f(v.0[0]), f(v.0[1]), f(v.0[2])]
}

fn bits(a: [f32; 3]) -> [u32; 3] {
    [a[0].to_bits(), a[1].to_bits(), a[2].to_bits()]
}

/// Vectors with components between -8 and 8.
fn vectors(count: usize) -> Vec<[f32; 3]> {
    let mut x: u32 = 0xDEADBEEF;
    let mut out = Vec::new();
    for _ in 0..count {
        let mut c = [0.0f32; 3];
        for i in 0..3 {
            x = xorshift(x);
            c[i] = (x as f32 / 4294967296.0 - 0.5) * 16.0;
        }
        out.push(c);
    }
    out
}

#[test]
fn new_is_the_zero_vector() {
    assert_eq!(bits(floats(Vec3::new())), bits([0.0, 0.0, 0.0]));
}

#[test]
fn sum_difference_and_scaling() {
    let a = v([1.0, 2.0, 3.0]);
    let b = v([0.5, -4.0, 10.0]);
    assert_eq!(floats(a.add(b)), [1.5, -2.0, 13.0]);
    assert_eq!(floats(a.sub(b)), [0.5, 6.0, -7.0]);
    assert_eq!(floats(a.mul_scalar(s(-2.0))), [-2.0, -4.0, -6.0]);
}

#[test]
fn dot_and_cross_of_the_axes() {
    let x = v([1.0, 0.0, 0.0]);
    let y = v([0.0, 1.0, 0.0]);
    let z = v([0.0, 0.0, 1.0]);
    assert_eq!(f(x.dot(y)), 0.0);
    assert_eq!(f(x.dot(x)), 1.0);
    assert_eq!(floats(x.cross(y)), [0.0, 0.0, 1.0]);
    assert_eq!(floats(y.cross(z)), [1.0, 0.0, 0.0]);
    assert_eq!(floats(z.cross(x)), [0.0, 1.0, 0.0]);
    assert_eq!(floats(y.cross(x)), [0.0, 0.0, -1.0]);
    assert_eq!(f(v([1.0, 2.0, 3.0]).dot(v([4.0, -5.0, 6.0]))), 12.0);
    assert_eq!(floats(v([1.0, 2.0, 3.0]).cross(v([4.0, 5.0, 6.0]))), [-3.0, 6.0, -3.0]);
}

#[test]
fn lengths() {
    assert_eq!(f(v([3.0, 4.0, 0.0]).len_square()), 25.0);
    assert_eq!(f(v([3.0, 4.0, 0.0]).len()), 5.0);
    assert_eq!(f(v([1.0, 2.0, 2.0]).len()), 3.0);
    assert_eq!(floats(v([0.0, 0.0, -2.0]).unit()), [0.0, 0.0, -1.0]);
    assert_eq!(floats(v([3.0, 4.0, 0.0]).unit()), [3.0 * (1.0f32 / 5.0), 4.0 * (1.0f32 / 5.0), 0.0]);
}

#[test]
fn unit_of_the_zero_vector_is_not_a_number() {
    let u = v([0.0, 0.0, 0.0]).unit();
    assert!(u.0[0].is_nan() && u.0[1].is_nan() && u.0[2].is_nan());
}

#[test]
fn operations_agree_with_the_machine() {
    let vs = vectors(300);
    for (i, a) in vs.iter().enumerate() {
        let b = &vs[(i * 7 + 3) % vs.len()];
        let (va, vb) = (v(*a), v(*b));
        let [a0, a1, a2] = *a;
        let [b0, b1, b2] = *b;
        assert_eq!(bits(floats(va.add(vb))), bits([a0 + b0, a1 + b1, a2 + b2]));
        assert_eq!(bits(floats(va.sub(vb))), bits([a0 - b0, a1 - b1, a2 - b2]));
        assert_eq!(bits(floats(va.mul_scalar(s(b0)))), bits([a0 * b0, a1 * b0, a2 * b0]));
        assert_eq!(f(va.dot(vb)).to_bits(), (a0 * b0 + a1 * b1 + a2 * b2).to_bits());
        assert_eq!(f(va.len_square()).to_bits(), (a0 * a0 + a1 * a1 + a2 * a2).to_bits());
        assert_eq!(f(va.len()).to_bits(), (a0 * a0 + a1 * a1 + a2 * a2).sqrt().to_bits());
        assert_eq!(
            bits(floats(va.cross(vb))),
            bits([a1 * b2 - a2 * b1, a2 * b0 - a0 * b2, a0 * b1 - a1 * b0])
        );
        let k = 1.0 / (a0 * a0 + a1 * a1 + a2 * a2).sqrt();
        assert_eq!(bits(floats(va.unit())), bits([a0 * k, a1 * k, a2 * k]));
        let ray = Ray { orig: va, dir: vb };
        assert_eq!(bits(floats(ray.at(s(a2)))), bits([a0 + b0 * a2, a1 + b1 * a2, a2 + b2 * a2]));
    }
}

#[test]
fn unit_vectors_have_length_one() {
    for a in vectors(2000) {
        let l = f(v(a).unit().len());
        assert!((l - 1.0).abs() <= 4.0 * f32::EPSILON, "length {} of the unit of {:?}", l, a);
    }
}

#[test]
fn cross_product_is_orthogonal_to_its_factors() {
    let vs = vectors(2000);
    for (i, a) in vs.iter().enumerate() {
        let b = &vs[(i * 13 + 5) % vs.len()];
        let (va, vb) = (v(*a), v(*b));
        let c = va.cross(vb);
        let scale = f(va.len()) * f(vb.len()) * f(va.len()).max(f(vb.len()));
        assert!(f(c.dot(va)).abs() <= 8.0 * f32::EPSILON * scale);
        assert!(f(c.dot(vb)).abs() <= 8.0 * f32::EPSILON * scale);
    }
}

#[test]
fn ray_at_walks_along_the_direction() {
    let ray = Ray { orig: v([1.0, 2.0, 3.0]), dir: v([0.0, 0.0, -2.0]) };
    assert_eq!(floats(ray.at(s(0.0))), [1.0, 2.0, 3.0]);
    assert_eq!(floats(ray.at(s(1.5))), [1.0, 2.0, 0.0]);
    assert_eq!(floats(ray.at(s(-1.0))), [1.0, 2.0, 5.0]);
}
