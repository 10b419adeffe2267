//! What a ray can hit, and what is recorded of a hit.

use crate::ray::Ray;
use crate::scalar::Scalar;
use crate::vec::{Point3, Vec3};
use vstd::prelude::*;

verus! {

/// The pattern of minus one.
pub const MINUS_ONE_BITS: u32 = 0xbf80_0000;

/// The parameters `t` with `start <= t < end`.
#[derive(Clone, Copy, Debug)]
pub struct Interval {
    pub start: Scalar,
    pub end: Scalar,
}

impl Interval {
    /// Membership: the lower bound belongs to the interval, the upper one
    /// does not, and NaN belongs to none.
    pub open spec fn contains_spec(&self, t: Scalar) -> bool {
        self.start.le_spec(t) && t.lt_spec(self.end)
    }

    /// The interval with the same lower bound that ends at `end`.
    pub open spec fn until_spec(&self, end: Scalar) -> Interval {
        Interval { start: self.start, end }
    }

    /// Every parameter from zero on: `[0, +inf)`.
    pub open spec fn forward_spec() -> Interval {
        Interval { start: Scalar { bits: 0 }, end: Scalar { bits: crate::scalar::INFINITY_BITS } }
    }

    /// The interval `[0, +inf)`, which holds a number exactly when it is
    /// finite and not negative.
    pub fn forward() -> (r: Interval)
        ensures
            r == Self::forward_spec(),
            forall|t: Scalar|
                #[trigger] r.contains_spec(t) <==> t.is_finite_spec() && t.units() >= 0,
    {
        let r = Interval { start: Scalar::zero(), end: Scalar::infinity() };
        assert forall|t: Scalar|
            #[trigger] r.contains_spec(t) <==> t.is_finite_spec() && t.units() >= 0 by {
            crate::scalar::lemma_magnitude_order(t, r.end);
        }
        r
    }

    /// Whether `t` lies in the interval.
    #[verifier::when_used_as_spec(contains_spec)]
    pub fn contains(&self, t: Scalar) -> (r: bool)
        ensures
            r == self.contains_spec(t),
    {
        self.start.le(t) && t.lt(self.end)
    }

    /// The interval with the same lower bound that ends at `end`.
    #[verifier::when_used_as_spec(until_spec)]
    pub fn until(&self, end: Scalar) -> (r: Interval)
        ensures
            r == self.until_spec(end),
    {
        Interval { start: self.start, end }
    }
}

/// A point where a ray meets a surface.
#[derive(Clone, Copy, Debug)]
pub struct HitRecord {
    /// The point itself.
    pub p: Point3,
    /// The surface normal there, turned against the ray.
    pub normal: Vec3,
    /// The parameter of the point along the ray.
    pub t: Scalar,
    /// Whether the ray arrives from outside the surface.
    pub front_face: bool,
}

impl HitRecord {
    /// The record of a hit at `p`, whose outward normal makes the dot
    /// product `facing` with the direction of the ray: the ray meets the
    /// front face where that product is below zero, and else the outward
    /// normal is stored times minus one.
    pub open spec fn oriented(p: Point3, t: Scalar, facing: Scalar, outward_normal: Vec3) -> HitRecord {
        let front_face = facing.lt_spec(Scalar { bits: 0 });
        HitRecord {
            p,
            t,
            front_face,
            normal: if front_face {
                outward_normal
            } else {
                outward_normal.mul_scalar_spec(Scalar { bits: MINUS_ONE_BITS })
            },
        }
    }

    /// The record of a hit of the ray `r` at `p`.
    pub open spec fn with_outward_normal_spec(
        p: Point3,
        t: Scalar,
        r: Ray,
        outward_normal: Vec3,
    ) -> HitRecord {
        Self::oriented(p, t, r.dir.dot_spec(outward_normal), outward_normal)
    }

    /// Records a hit of the ray `r` at `p` with parameter `t`. The stored
    /// normal is the outward one where the ray comes from outside, and its
    /// opposite where the ray comes from inside, so that it never points
    /// along the ray.
    pub fn with_outward_normal(p: Point3, t: Scalar, r: &Ray, outward_normal: Vec3) -> (h:
        HitRecord)
        ensures
            h == Self::with_outward_normal_spec(p, t, *r, outward_normal),
            h.p == p,
            h.t == t,
            h.front_face == r.dir.dot_spec(outward_normal).lt_spec(Scalar { bits: 0 }),
            h.front_face ==> h.normal == outward_normal,
    {
        let front_face = r.dir.dot(outward_normal).lt(Scalar::zero());
        let normal = if front_face {
            outward_normal
        } else {
            outward_normal.mul_scalar(Scalar { bits: MINUS_ONE_BITS })
        };
        HitRecord { p, t, front_face, normal }
    }
}

/// The stored normal never points along the ray: its dot product with the
/// direction of the ray is zero or less, wherever the outward normal and the
/// product are numbers.
pub proof fn lemma_normal_opposes_ray(p: Point3, t: Scalar, r: Ray, outward_normal: Vec3)
    requires
        !outward_normal.0[0].is_nan_spec(),
        !outward_normal.0[1].is_nan_spec(),
        !outward_normal.0[2].is_nan_spec(),
        !r.dir.dot_spec(outward_normal).is_nan_spec(),
    ensures
        ({
            let h = HitRecord::with_outward_normal_spec(p, t, r, outward_normal);
            &&& !r.dir.dot_spec(h.normal).is_nan_spec()
            &&& r.dir.dot_spec(h.normal).units() <= 0
            &&& h.front_face <==> r.dir.dot_spec(outward_normal).units() < 0
        }),
{
    crate::order::lemma_dot_opposite(r.dir, outward_normal);
}

/// A surface that a ray can be tested against.
pub trait Hittable {
    /// What `hit` reports for this ray and interval.
    spec fn hit_spec(&self, r: Ray, ray_t: Interval) -> Option<HitRecord>;

    /// The nearest point of the surface that the ray meets at a parameter
    /// inside `ray_t`, if there is one.
    fn hit(&self, r: &Ray, ray_t: Interval) -> (res: Option<HitRecord>)
        ensures
            res == self.hit_spec(*r, ray_t),
            res matches Some(h) ==> ray_t.contains_spec(h.t),
    ;
}

} // verus!
