use raytracer::camera::Camera;
use raytracer::scalar::Scalar;
use raytracer::vec::Vec3;

fn s(x: f32) -> Scalar {
    Scalar::from_bits(x.to_bits())
}

fn bits(v: Vec3) -> [u32; 3] {
    [v.0[0].to_bits(), v.0[1].to_bits(), v.0[2].to_bits()]
}

fn floats(v: Vec3) -> [f32; 3] {
    bits(v).map(f32::from_bits)
}

/// The camera of the given size, computed by the machine.
struct Reference {
    pixel00: [f32; 3],
    du: [f32; 3],
    dv: [f32; 3],
}

fn reference(width: usize, height: usize, viewport_height: f32, focal: f32) -> Reference {
    let viewport_width = viewport_height * ((width as f32) / (height as f32));
    let viewport_u = [viewport_width, 0.0, 0.0];
    let viewport_v = [0.0, -viewport_height, 0.0];
    let ku = 1.0 / (width as f32);
    let kv = 1.0 / (height as f32);
    let du = viewport_u.map(|c| c * ku);
    let dv = viewport_v.map(|c| c * kv);
    let mut ul = [0.0 - 0.0, 0.0 - 0.0, 0.0 - focal];
    for i in 0..3 {
        ul[i] = ul[i] - viewport_u[i] * 0.5;
    }
    for i in 0..3 {
        ul[i] = ul[i] - viewport_v[i] * 0.5;
    }
    let mut pixel00 = [0.0f32; 3];
    for i in 0..3 {
        pixel00[i] = ul[i] + (du[i] + dv[i]) * 0.5;
    }
    Reference { pixel00, du, dv }
}

fn reference_dir(r: &Reference, row: usize, col: usize, x: f32, y: f32) -> [f32; 3] {
    let mut d = [0.0f32; 3];
    for i in 0..3 {
        d[i] = (r.pixel00[i] + r.du[i] * (col as f32 + x)) + r.dv[i] * (row as f32 + y);
        d[i] = d[i] - 0.0;
    }
    d
}

#[test]
fn camera_of_the_full_image() {
    let c = Camera::new(600, 400, s(2.0), s(1.0));
    assert_eq!(floats(c.center), [0.0, 0.0, 0.0]);
    assert_eq!(floats(c.pixel_delta_u), [3.0 * (1.0f32 / 600.0), 0.0, 0.0]);
    assert_eq!(floats(c.pixel_delta_v), [0.0, -2.0 * (1.0f32 / 400.0), -0.0]);
    let r = reference(600, 400, 2.0, 1.0);
    assert_eq!(bits(c.pixel00_loc), r.pixel00.map(f32::to_bits));
    assert_eq!(bits(c.pixel_delta_u), r.du.map(f32::to_bits));
    assert_eq!(bits(c.pixel_delta_v), r.dv.map(f32::to_bits));
}

#[test]
fn upper_left_pixel_of_a_small_image() {
    // a viewport of 4 by 2 at distance 1, cut into 4 by 2 pixels
    let c = Camera::new(4, 2, s(2.0), s(1.0));
    assert_eq!(floats(c.pixel_delta_u), [1.0, 0.0, 0.0]);
    assert_eq!(floats(c.pixel_delta_v), [0.0, -1.0, -0.0]);
    assert_eq!(floats(c.pixel00_loc), [-1.5, 0.5, -1.0]);
    let ray = c.ray(1, 3, [s(0.0), s(0.0)]);
    assert_eq!(floats(ray.orig), [0.0, 0.0, 0.0]);
    assert_eq!(floats(ray.dir), [1.5, -0.5, -1.0]);
    let ray = c.ray(0, 0, [s(0.5), s(0.25)]);
    assert_eq!(floats(ray.dir), [-1.0, 0.25, -1.0]);
}

#[test]
fn rays_agree_with_the_machine() {
    for (width, height) in [(600usize, 400usize), (7, 5), (1, 1), (33, 100)] {
        let c = Camera::new(width, height, s(2.0), s(1.0));
        let r = reference(width, height, 2.0, 1.0);
        for row in [0, height / 2, height - 1] {
            for col in [0, width / 3, width - 1] {
                for (x, y) in [(0.0f32, 0.0f32), (0.5, 0.5), (0.999, 0.001), (0.3, 0.7)] {
                    let ray = c.ray(row, col, [s(x), s(y)]);
                    assert_eq!(bits(ray.dir), reference_dir(&r, row, col, x, y).map(f32::to_bits));
                    assert_eq!(bits(ray.orig), [0, 0, 0]);
                }
            }
        }
    }
}

#[test]
fn other_viewport_and_focal_length() {
    let c = Camera::new(10, 10, s(1.0), s(2.5));
    let r = reference(10, 10, 1.0, 2.5);
    assert_eq!(bits(c.pixel00_loc), r.pixel00.map(f32::to_bits));
    assert_eq!(floats(c.pixel00_loc)[2], -2.5);
}
