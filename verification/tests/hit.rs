use raytracer::hittable::{HitRecord, Hittable, Interval};
use raytracer::ray::Ray;
use raytracer::scalar::Scalar;
use raytracer::sphere::Sphere;
use raytracer::vec::Vec3;
use raytracer::world::World;

fn s(x: f32) -> Scalar {
    Scalar::from_bits(x.to_bits())
}

fn f(x: Scalar) -> f32 {
    f32::from_bits(x.to_bits())
}

fn v(x: f32, y: f32, z: f32) -> Vec3 {
    Vec3([s(x), s(y), s(z)])
}

fn floats(v: Vec3) -> [f32; 3] {
    [f(v.0[0]), f(v.0[1]), f(v.0[2])]
}

fn range(start: f32, end: f32) -> Interval {
    Interval { start: s(start), end: s(end) }
}

fn sphere(x: f32, y: f32, z: f32, radius: f32) -> Sphere {
    Sphere { center: v(x, y, z), radius: s(radius) }
}

/// The ray from the origin down the view axis.
fn view_ray() -> Ray {
    Ray { orig: v(0.0, 0.0, 0.0), dir: v(0.0, 0.0, -1.0) }
}

fn t_of(h: Option<HitRecord>) -> Option<f32> {
    h.map(|h| f(h.t))
}

fn same_record(a: &HitRecord, b: &HitRecord) -> bool {
    a.t.to_bits() == b.t.to_bits()
        && a.front_face == b.front_face
        && (0..3).all(|i| a.p.0[i].to_bits() == b.p.0[i].to_bits())
        && (0..3).all(|i| a.normal.0[i].to_bits() == b.normal.0[i].to_bits())
}

#[test]
fn interval_is_closed_below_and_open_above() {
    let i = range(1.0, 2.0);
    assert!(i.contains(s(1.0)));
    assert!(i.contains(s(1.5)));
    assert!(!i.contains(s(2.0)));
    assert!(!i.contains(s(0.999)));
    assert!(!i.contains(s(f32::NAN)));
    assert!(range(0.0, 1.0).contains(s(-0.0)));
}

#[test]
fn forward_interval_holds_what_is_finite_and_not_negative() {
    let i = Interval::forward();
    assert_eq!(i.start.to_bits(), 0.0f32.to_bits());
    assert_eq!(i.end.to_bits(), f32::INFINITY.to_bits());
    assert!(i.contains(s(0.0)));
    assert!(i.contains(s(f32::MAX)));
    assert!(!i.contains(s(f32::INFINITY)));
    assert!(!i.contains(s(-1e-30)));
}

#[test]
fn until_keeps_the_start() {
    let i = range(1.0, 9.0).until(s(4.0));
    assert_eq!(i.start.to_bits(), 1.0f32.to_bits());
    assert_eq!(i.end.to_bits(), 4.0f32.to_bits());
}

#[test]
fn front_face_keeps_the_outward_normal() {
    let h = HitRecord::with_outward_normal(v(0.0, 0.0, -1.0), s(1.0), &view_ray(), v(0.0, 0.0, 1.0));
    assert!(h.front_face);
    assert_eq!(floats(h.normal), [0.0, 0.0, 1.0]);
    assert_eq!(floats(h.p), [0.0, 0.0, -1.0]);
    assert_eq!(f(h.t), 1.0);
}

#[test]
fn back_face_negates_the_normal() {
    let h = HitRecord::with_outward_normal(v(0.0, 0.0, -1.0), s(1.0), &view_ray(), v(0.5, 0.0, -1.0));
    assert!(!h.front_face);
    assert_eq!(h.normal.0[0].to_bits(), (-0.5f32).to_bits());
    assert_eq!(h.normal.0[1].to_bits(), (-0.0f32).to_bits());
    assert_eq!(h.normal.0[2].to_bits(), 1.0f32.to_bits());
}

#[test]
fn grazing_normal_counts_as_back_face() {
    let h = HitRecord::with_outward_normal(v(0.0, 0.0, -1.0), s(1.0), &view_ray(), v(0.0, 1.0, 0.0));
    assert!(!h.front_face);
    assert_eq!(floats(h.normal), [-0.0, -1.0, -0.0]);
}

#[test]
fn ray_through_the_centre_hits_at_distance_less_radius() {
    // centre at distance 3, radius 0.5: the roots are 2.5 and 3.5
    let ball = sphere(0.0, 0.0, -3.0, 0.5);
    let h = ball.hit(&view_ray(), Interval::forward()).unwrap();
    assert_eq!(f(h.t), 2.5);
    assert!(h.front_face);
    assert_eq!(floats(h.p), [0.0, 0.0, -2.5]);
    assert_eq!(floats(h.normal), [0.0, 0.0, 1.0]);
}

#[test]
fn far_root_is_the_hit_where_the_near_one_is_cut_off() {
    let ball = sphere(0.0, 0.0, -3.0, 0.5);
    let h = ball.hit(&view_ray(), range(3.0, 10.0)).unwrap();
    assert_eq!(f(h.t), 3.5);
    assert!(!h.front_face);
    assert_eq!(floats(h.p), [0.0, 0.0, -3.5]);
    // the outward normal (0, 0, -1) is turned against the ray
    assert_eq!(floats(h.normal), [0.0, 0.0, 1.0]);
    assert!(ball.hit(&view_ray(), range(4.0, 10.0)).is_none());
    assert!(ball.hit(&view_ray(), range(0.0, 2.5)).is_none());
    assert_eq!(t_of(ball.hit(&view_ray(), range(2.5, 3.5))), Some(2.5));
    assert_eq!(t_of(ball.hit(&view_ray(), range(2.6, 3.6))), Some(3.5));
}

#[test]
fn the_two_roots_bracket_the_centre() {
    for (distance, radius) in [(3.0f32, 0.5f32), (10.0, 2.0), (4.0, 1.0), (100.0, 0.25)] {
        let ball = sphere(0.0, 0.0, -distance, radius);
        let near = ball.hit(&view_ray(), Interval::forward()).unwrap();
        assert_eq!(f(near.t), distance - radius);
        let far = ball.hit(&view_ray(), range(distance, f32::INFINITY)).unwrap();
        assert_eq!(f(far.t), distance + radius);
    }
}

#[test]
fn direction_need_not_have_length_one() {
    let ball = sphere(0.0, 0.0, -3.0, 0.5);
    let ray = Ray { orig: v(0.0, 0.0, 0.0), dir: v(0.0, 0.0, -2.0) };
    let h = ball.hit(&ray, Interval::forward()).unwrap();
    assert_eq!(f(h.t), 1.25);
    assert_eq!(floats(h.p), [0.0, 0.0, -2.5]);
}

#[test]
fn tangent_ray_has_one_root() {
    // the ray passes the centre at distance 1, which is the radius
    let ball = sphere(1.0, 0.0, -3.0, 1.0);
    let h = ball.hit(&view_ray(), Interval::forward()).unwrap();
    // discriminant zero: the root is h / a = 3 / 1
    assert_eq!(f(h.t), 3.0);
    assert_eq!(floats(h.p), [0.0, 0.0, -3.0]);
    assert_eq!(floats(h.normal), [1.0, 0.0, 0.0]);
    assert!(!h.front_face);
    assert_eq!(t_of(ball.hit(&view_ray(), range(3.0, 4.0))), Some(3.0));
    assert!(ball.hit(&view_ray(), range(0.0, 3.0)).is_none());
    assert!(ball.hit(&view_ray(), range(3.5, 100.0)).is_none());
}

#[test]
fn ray_that_passes_by_misses() {
    assert!(sphere(2.0, 0.0, -3.0, 1.0).hit(&view_ray(), Interval::forward()).is_none());
    assert!(sphere(0.0, 0.0, 3.0, 1.0).hit(&view_ray(), Interval::forward()).is_none());
}

#[test]
fn ray_from_inside_hits_the_back_face() {
    let ball = sphere(0.0, 0.0, 0.0, 2.0);
    let h = ball.hit(&view_ray(), Interval::forward()).unwrap();
    assert_eq!(f(h.t), 2.0);
    assert!(!h.front_face);
    assert_eq!(floats(h.normal), [0.0, 0.0, 1.0]);
}

#[test]
fn ray_without_direction_hits_nothing() {
    let ray = Ray { orig: v(0.0, 0.0, 0.0), dir: v(0.0, 0.0, 0.0) };
    assert!(sphere(0.0, 0.0, -3.0, 0.5).hit(&ray, Interval::forward()).is_none());
    assert!(sphere(0.0, 0.0, 0.0, 0.5).hit(&ray, Interval::forward()).is_none());
}

#[test]
fn empty_world_misses() {
    let w = World::new();
    assert!(w.hit(&view_ray(), Interval::forward()).is_none());
}

#[test]
fn world_returns_the_nearer_of_two_spheres_in_either_order() {
    // S1 is hit at t = 2, S2 at t = 5
    let s1 = sphere(0.0, 0.0, -2.5, 0.5);
    let s2 = sphere(0.0, 0.0, -5.5, 0.5);
    assert_eq!(t_of(s1.hit(&view_ray(), Interval::forward())), Some(2.0));
    assert_eq!(t_of(s2.hit(&view_ray(), Interval::forward())), Some(5.0));
    let a = World { spheres: vec![s1, s2] };
    let b = World { spheres: vec![s2, s1] };
    let ha = a.hit(&view_ray(), Interval::forward()).unwrap();
    let hb = b.hit(&view_ray(), Interval::forward()).unwrap();
    assert_eq!(f(ha.t), 2.0);
    assert!(same_record(&ha, &hb));
    assert!(same_record(&ha, &s1.hit(&view_ray(), Interval::forward()).unwrap()));
}

#[test]
fn world_hit_respects_the_interval() {
    let w = World { spheres: vec![sphere(0.0, 0.0, -2.5, 0.5), sphere(0.0, 0.0, -5.5, 0.5)] };
    assert_eq!(t_of(w.hit(&view_ray(), range(2.5, 100.0))), Some(3.0));
    assert_eq!(t_of(w.hit(&view_ray(), range(3.5, 100.0))), Some(5.0));
    assert_eq!(t_of(w.hit(&view_ray(), range(0.0, 2.0))), None);
    assert_eq!(t_of(w.hit(&view_ray(), range(7.0, 100.0))), None);
}

#[test]
fn world_of_many_spheres_finds_the_nearest_in_any_order() {
    let distances = [9.0f32, 4.0, 7.5, 30.0, 8.0, 2.0, 12.0];
    let mut spheres: Vec<Sphere> = distances.iter().map(|d| sphere(0.0, 0.0, -d, 0.5)).collect();
    for _ in 0..distances.len() {
        spheres.rotate_left(1);
        let w = World { spheres: spheres.clone() };
        assert_eq!(t_of(w.hit(&view_ray(), Interval::forward())), Some(1.5));
        assert_eq!(t_of(w.hit(&view_ray(), range(3.0, 8.0))), Some(3.5));
    }
}

#[test]
fn push_and_clear() {
    let mut w = World::new();
    w.push(sphere(0.0, 0.0, -3.0, 0.5));
    assert_eq!(w.spheres.len(), 1);
    assert!(w.hit(&view_ray(), Interval::forward()).is_some());
    w.clear();
    assert_eq!(w.spheres.len(), 0);
    assert!(w.hit(&view_ray(), Interval::forward()).is_none());
}

#[test]
fn closer_takes_a_hit_and_narrows() {
    let h = HitRecord { p: v(0.0, 0.0, 0.0), normal: v(0.0, 0.0, 1.0), t: s(3.0), front_face: true };
    let (best, rest) = World::closer(None, range(1.0, 9.0), Some(h));
    assert_eq!(t_of(best), Some(3.0));
    assert_eq!(rest.start.to_bits(), 1.0f32.to_bits());
    assert_eq!(rest.end.to_bits(), 3.0f32.to_bits());
    let (best, rest) = World::closer(Some(h), range(1.0, 3.0), None);
    assert_eq!(t_of(best), Some(3.0));
    assert_eq!(rest.end.to_bits(), 3.0f32.to_bits());
}
