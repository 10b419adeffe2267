use raytracer::camera::Camera;
use raytracer::color::Color;
use raytracer::ray::Ray;
use raytracer::scalar::Scalar;
use raytracer::shade::{color_lerp, ray_color};
use raytracer::sphere::Sphere;
use raytracer::vec::Vec3;
use raytracer::world::World;

fn s(x: f32) -> Scalar {
    Scalar::from_bits(x.to_bits())
}

fn f(x: Scalar) -> f32 {
    f32::from_bits(x.to_bits())
}

fn v(x: f32, y: f32, z: f32) -> Vec3 {
    Vec3([s(x), s(y), s(z)])
}

fn color(r: f32, g: f32, b: f32) -> Color {
    Color { r: s(r), g: s(g), b: s(b) }
}

fn channels(c: Color) -> [f32; 3] {
    [f(c.r), f(c.g), f(c.b)]
}

fn sky(dir: [f32; 3]) -> [f32; 3] {
    let k = 1.0 / (dir[0] * dir[0] + dir[1] * dir[1] + dir[2] * dir[2]).sqrt();
    let n = 0.5 * (dir[1] * k + 1.0);
    [1.0 * (1.0 - n) + 0.5 * n, 1.0 * (1.0 - n) + 0.7 * n, 1.0 * (1.0 - n) + 1.0 * n]
}

fn one_sphere() -> World {
    World { spheres: vec![Sphere { center: v(0.0, 0.0, -1.0), radius: s(0.5) }] }
}

#[test]
fn lerp_at_the_ends_and_in_the_middle() {
    let a = color(1.0, 0.0, 0.25);
    let b = color(0.0, 1.0, 0.75);
    assert_eq!(channels(color_lerp(s(0.0), a, b)), [1.0, 0.0, 0.25]);
    assert_eq!(channels(color_lerp(s(1.0), a, b)), [0.0, 1.0, 0.75]);
    assert_eq!(channels(color_lerp(s(0.5), a, b)), [0.5, 0.5, 0.5]);
    assert_eq!(channels(color_lerp(s(0.25), a, b)), [0.75, 0.25, 0.375]);
}

#[test]
fn sky_is_white_below_and_blue_above() {
    let w = World::new();
    let down = Ray { orig: v(0.0, 0.0, 0.0), dir: v(0.0, -3.0, 0.0) };
    let up = Ray { orig: v(0.0, 0.0, 0.0), dir: v(0.0, 2.0, 0.0) };
    let level = Ray { orig: v(0.0, 0.0, 0.0), dir: v(0.0, 0.0, -1.0) };
    assert_eq!(channels(ray_color(&down, &w)), [1.0, 1.0, 1.0]);
    assert_eq!(channels(ray_color(&up, &w)), [0.5, 0.7, 1.0]);
    assert_eq!(channels(ray_color(&level, &w)), [0.75, 1.0 * 0.5 + 0.7 * 0.5, 1.0]);
}

#[test]
fn sky_follows_the_gradient() {
    let w = World::new();
    for dir in [[0.3f32, 0.4, -1.0], [-2.0, 0.1, -0.5], [0.0, -0.7, -0.2], [1.5, 1.5, 1.5]] {
        let ray = Ray { orig: v(0.0, 0.0, 0.0), dir: v(dir[0], dir[1], dir[2]) };
        let got = channels(ray_color(&ray, &w));
        let want = sky(dir);
        assert_eq!(got.map(f32::to_bits), want.map(f32::to_bits));
    }
}

#[test]
fn ray_through_the_image_centre_is_shaded_by_the_normal() {
    // one sphere of radius 0.5, one unit down the view axis
    let w = one_sphere();
    let ray = Ray { orig: v(0.0, 0.0, 0.0), dir: v(0.0, 0.0, -1.0) };
    // the normal at the hit is (0, 0, 1): half white, half that
    assert_eq!(channels(ray_color(&ray, &w)), [0.5, 0.5, 1.0]);
    assert_ne!(channels(ray_color(&ray, &w)), channels(ray_color(&ray, &World::new())));
}

#[test]
fn centre_ray_of_a_one_pixel_image_hits_the_sphere() {
    let camera = Camera::new(1, 1, s(2.0), s(1.0));
    let ray = camera.ray(0, 0, [s(0.0), s(0.0)]);
    assert_eq!([f(ray.dir.0[0]), f(ray.dir.0[1]), f(ray.dir.0[2])], [0.0, 0.0, -1.0]);
    assert_eq!(channels(ray_color(&ray, &one_sphere())), [0.5, 0.5, 1.0]);
}

#[test]
fn centre_ray_of_an_odd_image_hits_the_sphere() {
    let camera = Camera::new(5, 3, s(2.0), s(1.0));
    let ray = camera.ray(1, 2, [s(0.0), s(0.0)]);
    let shaded = channels(ray_color(&ray, &one_sphere()));
    let sky = channels(ray_color(&ray, &World::new()));
    assert_ne!(shaded, sky);
    for (got, want) in shaded.iter().zip([0.5f32, 0.5, 1.0]) {
        assert!((got - want).abs() < 1e-6);
    }
}

#[test]
fn hit_behind_the_origin_does_not_count() {
    let w = World { spheres: vec![Sphere { center: v(0.0, 0.0, 2.0), radius: s(0.5) }] };
    let ray = Ray { orig: v(0.0, 0.0, 0.0), dir: v(0.0, 0.0, -1.0) };
    assert_eq!(channels(ray_color(&ray, &w)), channels(ray_color(&ray, &World::new())));
}
