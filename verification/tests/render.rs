use raytracer::render::Schedule;
use raytracer::sampler::sample_square;

#[test]
fn samples_come_row_by_row_and_pixel_by_pixel() {
    let mut s = Schedule::new(3, 2, 2, 0xDEADBEEF);
    let mut order = Vec::new();
    while let Some(sample) = s.next() {
        order.push((sample.row, sample.col, sample.index));
    }
    assert_eq!(
        order,
        vec![
            (0, 0, 0),
            (0, 0, 1),
            (0, 1, 0),
            (0, 1, 1),
            (0, 2, 0),
            (0, 2, 1),
            (1, 0, 0),
            (1, 0, 1),
            (1, 1, 0),
            (1, 1, 1),
            (1, 2, 0),
            (1, 2, 1),
        ]
    );
    assert!(s.is_done());
    assert!(s.next().is_none());
}

#[test]
fn seed_runs_through_the_whole_image() {
    let mut s = Schedule::new(4, 3, 5, 0xDEADBEEF);
    let mut seed = 0xDEADBEEFu32;
    let mut count = 0;
    while let Some(sample) = s.next() {
        let (next, [x, y]) = sample_square(seed);
        seed = next;
        assert_eq!(sample.jitter[0].to_bits(), x.to_bits());
        assert_eq!(sample.jitter[1].to_bits(), y.to_bits());
        assert_eq!(sample.row, count / 20);
        assert_eq!(sample.col, (count / 5) % 4);
        assert_eq!(sample.index as usize, count % 5);
        count += 1;
    }
    assert_eq!(count, 60);
}

#[test]
fn jitter_lies_in_the_unit_square() {
    let mut s = Schedule::new(10, 10, 10, 1);
    while let Some(sample) = s.next() {
        for j in sample.jitter {
            let x = f32::from_bits(j.to_bits());
            assert!(x >= 0.0 && x < 1.0);
        }
    }
}

#[test]
fn degenerate_renders_have_no_samples() {
    assert!(Schedule::new(0, 5, 5, 1).next().is_none());
    assert!(Schedule::new(5, 0, 5, 1).next().is_none());
    assert!(Schedule::new(5, 5, 0, 1).next().is_none());
    assert!(Schedule::new(0, 5, 5, 1).is_done());
    assert!(!Schedule::new(1, 1, 1, 1).is_done());
}

#[test]
fn single_sample_render_visits_each_pixel_once() {
    let mut s = Schedule::new(3, 3, 1, 9);
    let mut n = 0;
    while let Some(sample) = s.next() {
        assert_eq!(sample.index, 0);
        assert_eq!(sample.row * 3 + sample.col, n);
        n += 1;
    }
    assert_eq!(n, 9);
}

// A renderer that computes with the numbers of the machine, to hold the
// library against.

type V = [f32; 3];

fn vadd(a: V, b: V) -> V {
    [a[0] + b[0], a[1] + b[1], a[2] + b[2]]
}

fn vsub(a: V, b: V) -> V {
    [a[0] - b[0], a[1] - b[1], a[2] - b[2]]
}

fn vmul(a: V, x: f32) -> V {
    [a[0] * x, a[1] * x, a[2] * x]
}

fn vdot(a: V, b: V) -> f32 {
    a[0] * b[0] + a[1] * b[1] + a[2] * b[2]
}

fn machine_hit(center: V, radius: f32, orig: V, dir: V, start: f32, end: f32) -> Option<(f32, V)> {
    let oc = vsub(center, orig);
    let a = vdot(dir, dir);
    let h = vdot(dir, oc);
    let c = vdot(oc, oc) - radius * radius;
    let discriminant = h * h - a * c;
    if !(discriminant >= 0.0) {
        return None;
    }
    let sqrt_disc = discriminant.sqrt();
    for root in [(h - sqrt_disc) / a, (h + sqrt_disc) / a] {
        if start <= root && root < end {
            let p = vadd(orig, vmul(dir, root));
            let outward = vmul(vsub(p, center), 1.0 / radius);
            let normal = if vdot(dir, outward) < 0.0 { outward } else { vmul(outward, -1.0) };
            return Some((root, normal));
        }
    }
    None
}

fn machine_lerp(n: f32, a: V, b: V) -> V {
    vadd(vmul(a, 1.0 - n), vmul(b, n))
}

fn machine_color(spheres: &[(V, f32)], orig: V, dir: V) -> V {
    let mut best: Option<V> = None;
    let mut end = f32::INFINITY;
    for (center, radius) in spheres {
        if let Some((t, normal)) = machine_hit(*center, *radius, orig, dir, 0.0, end) {
            best = Some(normal);
            end = t;
        }
    }
    if let Some(normal) = best {
        return machine_lerp(0.5, [1.0, 1.0, 1.0], normal);
    }
    let unit = vmul(dir, 1.0 / vdot(dir, dir).sqrt());
    machine_lerp(0.5 * (unit[1] + 1.0), [1.0, 1.0, 1.0], [0.5, 0.7, 1.0])
}

fn machine_unit(x: u32) -> f32 {
    (((x as f64) / 4294967296.0) as f32).min(f32::from_bits(0x3f7f_ffff))
}

fn machine_render(spheres: &[(V, f32)], width: usize, height: usize, samples: u32, seed: u32) -> Vec<V> {
    let viewport_u = [2.0 * ((width as f32) / (height as f32)), 0.0, 0.0];
    let viewport_v = [0.0, -2.0, 0.0];
    let du = vmul(viewport_u, 1.0 / (width as f32));
    let dv = vmul(viewport_v, 1.0 / (height as f32));
    let center = [0.0, 0.0, 0.0];
    let upper_left = vsub(vsub(vsub(center, [0.0, 0.0, 1.0]), vmul(viewport_u, 0.5)), vmul(viewport_v, 0.5));
    let pixel00 = vadd(upper_left, vmul(vadd(du, dv), 0.5));
    let mut img = vec![[0.0f32; 3]; width * height];
    let mut seed = seed;
    for h in 0..height {
        for w in 0..width {
            for _ in 0..samples {
                seed = raytracer::sampler::xorshift(seed);
                let x = machine_unit(seed);
                seed = raytracer::sampler::xorshift(seed);
                let y = machine_unit(seed);
                let sample = vadd(vadd(pixel00, vmul(du, w as f32 + x)), vmul(dv, h as f32 + y));
                let dir = vsub(sample, center);
                let part = vmul(machine_color(spheres, center, dir), 1.0 / (samples as f32));
                img[h * width + w] = vadd(img[h * width + w], part);
            }
        }
    }
    img
}

fn world_of(spheres: &[(V, f32)]) -> raytracer::world::World {
    let s = |x: f32| raytracer::scalar::Scalar::from_bits(x.to_bits());
    raytracer::world::World {
        spheres: spheres
            .iter()
            .map(|(c, r)| raytracer::sphere::Sphere {
                center: raytracer::vec::Vec3([s(c[0]), s(c[1]), s(c[2])]),
                radius: s(*r),
            })
            .collect(),
    }
}

fn pixels_of(img: &raytracer::image::Image) -> Vec<[u32; 3]> {
    let mut out = Vec::new();
    for row in 0..img.height() {
        for col in 0..img.width() {
            let c = img.get(row, col);
            out.push([c.r.to_bits(), c.g.to_bits(), c.b.to_bits()]);
        }
    }
    out
}

fn bit_patterns(img: &[V]) -> Vec<[u32; 3]> {
    img.iter().map(|p| p.map(f32::to_bits)).collect()
}

const SCENE: [(V, f32); 2] = [([0.0, 0.0, -1.0], 0.5), ([0.0, -100.5, -1.0], 100.0)];

#[test]
fn render_agrees_with_the_machine_bit_for_bit() {
    let img = raytracer::render::render(&world_of(&SCENE), 18, 12, 4, 0xDEADBEEF).unwrap();
    assert_eq!(pixels_of(&img), bit_patterns(&machine_render(&SCENE, 18, 12, 4, 0xDEADBEEF)));
}

#[test]
fn render_of_other_scenes_agrees_with_the_machine() {
    let scene = [([0.5, 0.25, -2.0], 0.75), ([-1.0, 0.0, -1.5], 0.5), ([0.0, 0.0, 0.0], 3.0)];
    let img = raytracer::render::render(&world_of(&scene[..2]), 9, 7, 3, 12345).unwrap();
    assert_eq!(pixels_of(&img), bit_patterns(&machine_render(&scene[..2], 9, 7, 3, 12345)));
    // seen from inside a sphere
    let img = raytracer::render::render(&world_of(&scene), 6, 4, 2, 1).unwrap();
    assert_eq!(pixels_of(&img), bit_patterns(&machine_render(&scene, 6, 4, 2, 1)));
}

#[test]
fn render_is_reproducible() {
    let a = raytracer::render::render(&world_of(&SCENE), 8, 6, 3, 42).unwrap();
    let b = raytracer::render::render(&world_of(&SCENE), 8, 6, 3, 42).unwrap();
    let c = raytracer::render::render(&world_of(&SCENE), 8, 6, 3, 43).unwrap();
    assert_eq!(pixels_of(&a), pixels_of(&b));
    assert_ne!(pixels_of(&a), pixels_of(&c));
}

#[test]
fn empty_world_renders_the_sky_everywhere() {
    let width = 10;
    let height = 8;
    let img = raytracer::render::render(&world_of(&[]), width, height, 1, 7).unwrap();
    let sky = machine_render(&[], width, height, 1, 7);
    assert_eq!(pixels_of(&img), bit_patterns(&sky));
    for row in 0..height {
        for col in 0..width {
            let c = img.get(row, col);
            let [r, g, b] = [c.r, c.g, c.b].map(|x| f32::from_bits(x.to_bits()));
            // on the gradient from white to sky blue blue is full and red
            // and green lie between their ends
            assert_eq!(b, 1.0);
            assert!(0.5 <= r && r <= 1.0 && 0.7 <= g && g <= 1.0);
            assert!((g - (0.4 + 0.6 * r)).abs() < 1e-6);
        }
    }
    // the sky gets bluer towards the top
    assert!(f32::from_bits(img.get(0, 5).r.to_bits()) < f32::from_bits(img.get(7, 5).r.to_bits()));
}

#[test]
fn sphere_in_front_of_the_camera_shows_in_the_middle() {
    let img = raytracer::render::render(&world_of(&SCENE[..1]), 9, 7, 1, 7).unwrap();
    let c = img.get(3, 4);
    let mid = [c.r, c.g, c.b].map(|x| f32::from_bits(x.to_bits()));
    // shaded by a normal that points back towards the camera
    assert!(mid[2] > 0.9 && mid[0] > 0.4 && mid[0] < 0.6);
    let corner = img.get(0, 0);
    let sky = machine_render(&[], 9, 7, 1, 7);
    assert_eq!(corner.r.to_bits(), sky[0][0].to_bits());
}

#[test]
fn render_without_samples_is_black() {
    let img = raytracer::render::render(&world_of(&SCENE), 4, 3, 0, 7).unwrap();
    assert_eq!(img.to_rgb16(), vec![0u8; 72]);
    assert_eq!(raytracer::render::render(&world_of(&SCENE), 0, 3, 5, 7).unwrap().to_rgb16().len(), 0);
}

#[test]
fn render_that_cannot_be_laid_out_is_refused() {
    assert!(raytracer::render::render(&world_of(&SCENE), usize::MAX, 2, 1, 7).is_none());
}

#[test]
fn constants_of_the_full_render() {
    assert_eq!(raytracer::render::IMG_WIDTH, 600);
    assert_eq!(raytracer::render::IMG_HEIGHT, 400);
    assert_eq!(raytracer::render::SAMPLES_PER_PIXEL, 100);
    assert_eq!(raytracer::render::SEED, 0xDEADBEEF);
}

fn machine_render_single(spheres: &[(V, f32)], width: usize, height: usize) -> Vec<V> {
    let viewport_u = [2.0 * ((width as f32) / (height as f32)), 0.0, 0.0];
    let viewport_v = [0.0, -2.0, 0.0];
    let du = vmul(viewport_u, 1.0 / (width as f32));
    let dv = vmul(viewport_v, 1.0 / (height as f32));
    let center = [0.0, 0.0, 0.0];
    let upper_left = vsub(vsub(vsub(center, [0.0, 0.0, 1.0]), vmul(viewport_u, 0.5)), vmul(viewport_v, 0.5));
    let pixel00 = vadd(upper_left, vmul(vadd(du, dv), 0.5));
    let mut img = Vec::new();
    for h in 0..height {
        for w in 0..width {
            let sample = vadd(vadd(pixel00, vmul(du, w as f32 + 0.0)), vmul(dv, h as f32 + 0.0));
            img.push(machine_color(spheres, center, vsub(sample, center)));
        }
    }
    img
}

#[test]
fn single_ray_through_the_image_centre_is_shaded_by_the_normal() {
    // one sphere of radius 0.5, one unit down the view axis, seen through
    // an image of one pixel
    let img = raytracer::render::render_single(&world_of(&SCENE[..1]), 1, 1).unwrap();
    let c = img.get(0, 0);
    let got = [c.r, c.g, c.b].map(|x| f32::from_bits(x.to_bits()));
    assert_eq!(got, [0.5, 0.5, 1.0]);
    let sky = raytracer::render::render_single(&world_of(&[]), 1, 1).unwrap().get(0, 0);
    assert_ne!(c.r.to_bits(), sky.r.to_bits());
}

#[test]
fn single_sample_render_agrees_with_the_machine() {
    let img = raytracer::render::render_single(&world_of(&SCENE), 30, 20).unwrap();
    assert_eq!(pixels_of(&img), bit_patterns(&machine_render_single(&SCENE, 30, 20)));
}

#[test]
fn single_sample_render_of_an_empty_world_is_the_sky() {
    let img = raytracer::render::render_single(&world_of(&[]), 12, 9).unwrap();
    assert_eq!(pixels_of(&img), bit_patterns(&machine_render_single(&[], 12, 9)));
    for row in 0..9 {
        for col in 0..12 {
            assert_eq!(f32::from_bits(img.get(row, col).b.to_bits()), 1.0);
        }
    }
}

#[test]
fn single_sample_render_of_odd_sizes() {
    assert!(raytracer::render::render_single(&world_of(&SCENE), usize::MAX, 2).is_none());
    assert_eq!(raytracer::render::render_single(&world_of(&SCENE), 0, 5).unwrap().to_rgb16().len(), 0);
    assert_eq!(raytracer::render::render_single(&world_of(&SCENE), 5, 0).unwrap().to_rgb16().len(), 0);
}
