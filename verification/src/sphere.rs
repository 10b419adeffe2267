//! Spheres, and the test of a ray against one.
//!
//! For a ray `O + t D` and a sphere of centre `C` and radius `R`, with
//! `oc = C - O`, `a = D.D`, `h = D.oc` and `c = oc.oc - R*R`, the ray meets
//! the sphere where `t = (h -+ sqrt(h*h - a*c)) / a`.

use crate::hittable::{HitRecord, Hittable, Interval};
use crate::ray::Ray;
use crate::scalar::{Scalar, ONE_BITS};
use crate::vec::{Point3, Vec3};
use vstd::prelude::*;

verus! {

/// One root of the quadratic, with what is computed at it.
pub struct Crossing {
    /// The root.
    pub t: Scalar,
    /// The point of the ray at `t`.
    pub p: Point3,
    /// The normal of the sphere at `p`, pointing away from the centre.
    pub outward_normal: Vec3,
    /// The dot product of the ray's direction and `outward_normal`.
    pub facing: Scalar,
}

impl Crossing {
    /// The hit that this crossing stands for.
    pub open spec fn record(&self) -> HitRecord {
        HitRecord::oriented(self.p, self.t, self.facing, self.outward_normal)
    }
}

/// The quadratic of a ray and a sphere, solved.
pub struct Roots {
    /// `h*h - a*c`.
    pub discriminant: Scalar,
    /// The crossing at `(h - sqrt(discriminant)) / a`.
    pub near: Crossing,
    /// The crossing at `(h + sqrt(discriminant)) / a`.
    pub far: Crossing,
}

impl Roots {
    /// Whether the quadratic has a root: the discriminant is zero or more.
    /// A NaN discriminant has none.
    pub open spec fn has_roots(&self) -> bool {
        (Scalar { bits: 0 }).le_spec(self.discriminant)
    }

    /// The near root does not lie after the far one. A root that is NaN is
    /// in no interval and is not held to any order.
    pub open spec fn ordered(&self) -> bool {
        self.near.t.is_nan_spec() || self.far.t.is_nan_spec() || self.near.t.le_spec(self.far.t)
    }

    /// The hit inside `ray_t`: the near crossing if its root lies in the
    /// interval, else the far one if its root does, else none.
    pub open spec fn resolve(&self, ray_t: Interval) -> Option<HitRecord> {
        if !self.has_roots() {
            None
        } else if ray_t.contains_spec(self.near.t) {
            Some(self.near.record())
        } else if ray_t.contains_spec(self.far.t) {
            Some(self.far.record())
        } else {
            None
        }
    }
}

/// A sphere.
#[derive(Clone, Copy, Debug)]
pub struct Sphere {
    pub center: Point3,
    pub radius: Scalar,
}

impl Sphere {
    /// `C - O`.
    pub open spec fn oc(&self, r: Ray) -> Vec3 {
        self.center.sub_spec(r.orig)
    }

    /// `a = D.D`.
    pub open spec fn a(&self, r: Ray) -> Scalar {
        r.dir.len_square_spec()
    }

    /// `h = D.oc`.
    pub open spec fn h(&self, r: Ray) -> Scalar {
        r.dir.dot_spec(self.oc(r))
    }

    /// `c = oc.oc - R*R`.
    pub open spec fn c(&self, r: Ray) -> Scalar {
        self.oc(r).len_square_spec().sub_spec(self.radius.mul_spec(self.radius))
    }

    /// `h*h - a*c`.
    pub open spec fn discriminant(&self, r: Ray) -> Scalar {
        self.h(r).mul_spec(self.h(r)).sub_spec(self.a(r).mul_spec(self.c(r)))
    }

    /// What is computed at the root `t`: the point `P` of the ray, the
    /// outward normal `(P - C) * (1 / R)` and its dot product with the
    /// direction of the ray.
    pub open spec fn crossing(&self, r: Ray, t: Scalar) -> Crossing {
        let p = r.at_spec(t);
        let outward_normal = p.sub_spec(self.center).mul_scalar_spec(
            (Scalar { bits: ONE_BITS }).div_spec(self.radius),
        );
        Crossing { t, p, outward_normal, facing: r.dir.dot_spec(outward_normal) }
    }

    /// The two crossings of the ray and the sphere.
    pub open spec fn roots(&self, r: Ray) -> Roots {
        let root = self.discriminant(r).sqrt_spec();
        Roots {
            discriminant: self.discriminant(r),
            near: self.crossing(r, self.h(r).sub_spec(root).div_spec(self.a(r))),
            far: self.crossing(r, self.h(r).add_spec(root).div_spec(self.a(r))),
        }
    }

    fn record_at(&self, r: &Ray, t: Scalar) -> (h: HitRecord)
        ensures
            h == self.crossing(*r, t).record(),
            h.t == t,
    {
        let p = r.at(t);
        let outward_normal = p.sub(self.center).mul_scalar(Scalar::one().div(self.radius));
        HitRecord::with_outward_normal(p, t, r, outward_normal)
    }
}

impl Hittable for Sphere {
    /// The nearer crossing whose root lies in `ray_t`, if the ray meets the
    /// sphere at all.
    open spec fn hit_spec(&self, r: Ray, ray_t: Interval) -> Option<HitRecord> {
        self.roots(r).resolve(ray_t)
    }

    /// Tests the ray against the sphere. A negative discriminant is a miss.
    /// The smaller root is tried first, so that the near crossing wins where
    /// both lie in the interval; a root on the lower bound counts, one on
    /// the upper bound does not. A ray that only touches the sphere hits it.
    fn hit(&self, r: &Ray, ray_t: Interval) -> (res: Option<HitRecord>) {
        let oc = self.center.sub(r.orig);
        let a = r.dir.len_square();
        let h = r.dir.dot(oc);
        let c = oc.len_square().sub(self.radius.mul(self.radius));
        let discriminant = h.mul(h).sub(a.mul(c));
        if !Scalar::zero().le(discriminant) {
            return None;
        }
        let sqrt_disc = discriminant.sqrt();
        let root = h.sub(sqrt_disc).div(a);
        if ray_t.contains(root) {
            return Some(self.record_at(r, root));
        }
        let root = h.add(sqrt_disc).div(a);
        if ray_t.contains(root) {
            return Some(self.record_at(r, root));
        }
        None
    }
}

/// Where the discriminant is zero the ray touches the sphere: both roots
/// have the value of `h / a`, and the ray hits the sphere where that value
/// lies in the interval, at the near crossing.
pub proof fn lemma_tangent_sphere(sphere: Sphere, r: Ray, ray_t: Interval)
    requires
        !sphere.discriminant(r).is_nan_spec(),
        sphere.discriminant(r).units() == 0,
    ensures
        ({
            let root = sphere.h(r).div_spec(sphere.a(r));
            let roots = sphere.roots(r);
            &&& roots.near.t.is_nan_spec() == root.is_nan_spec()
            &&& roots.far.t.is_nan_spec() == root.is_nan_spec()
            &&& !root.is_nan_spec() ==> roots.near.t.units() == root.units() && roots.far.t.units()
                == root.units()
            &&& sphere.hit_spec(r, ray_t) == if ray_t.contains_spec(root) {
                Some(roots.near.record())
            } else {
                None
            }
        }),
{
    let d = sphere.discriminant(r);
    let h = sphere.h(r);
    let a = sphere.a(r);
    let s = d.sqrt_spec();
    crate::scalar::lemma_magnitude_order(d, Scalar { bits: 0 });
    assert(s == d);
    crate::order::lemma_add_zero(h, s);
    crate::order::lemma_quotient_of_same_units(h.sub_spec(s), h, a);
    crate::order::lemma_quotient_of_same_units(h.add_spec(s), h, a);
}

/// When the near root lies in the interval the hit is the near crossing,
/// wherever the far root lies.
pub proof fn lemma_near_root_preferred(roots: Roots, ray_t: Interval)
    requires
        roots.has_roots(),
        ray_t.contains_spec(roots.near.t),
    ensures
        roots.resolve(ray_t) == Some(roots.near.record()),
{
}

/// The hit is the crossing with the least root in the interval: no root in
/// the interval lies below the root of the hit.
pub proof fn lemma_hit_is_least(roots: Roots, ray_t: Interval)
    requires
        roots.has_roots() ==> roots.ordered(),
    ensures
        roots.resolve(ray_t) matches Some(h) ==> {
            &&& ray_t.contains_spec(h.t)
            &&& ray_t.contains_spec(roots.near.t) ==> h.t.le_spec(roots.near.t)
            &&& ray_t.contains_spec(roots.far.t) ==> h.t.le_spec(roots.far.t)
        },
{
}

/// Ending the interval earlier keeps the hit where its root still lies
/// inside, and never brings up another one.
pub proof fn lemma_hit_narrows(roots: Roots, ray_t: Interval, end: Scalar)
    requires
        roots.has_roots() ==> roots.ordered(),
        end.le_spec(ray_t.end),
    ensures
        roots.resolve(ray_t.until_spec(end)) == match roots.resolve(ray_t) {
            Some(h) => if h.t.lt_spec(end) {
                Some(h)
            } else {
                None
            },
            None => None,
        },
{
}

/// The near root of a sphere does not come out after the far one: rounding
/// keeps `(h - s) / a` at or below `(h + s) / a`.
pub proof fn lemma_sphere_roots_ordered(sphere: Sphere, r: Ray)
    ensures
        sphere.roots(r).has_roots() ==> sphere.roots(r).ordered(),
{
    let roots = sphere.roots(r);
    if roots.has_roots() {
        let d = sphere.discriminant(r);
        let s = d.sqrt_spec();
        let h = sphere.h(r);
        let a = sphere.a(r);
        crate::scalar::lemma_magnitude_order(d, Scalar { bits: 0 });
        crate::order::lemma_sqrt_not_negative(d);
        crate::order::lemma_difference_below_sum(h, s);
        crate::order::lemma_len_square_not_negative(r.dir);
        crate::order::lemma_quotients_ordered(h.sub_spec(s), h.add_spec(s), a);
    }
}

/// A sphere reports its nearest crossing in every interval, which is what
/// the nearest hit of a scene relies on.
pub proof fn lemma_sphere_reports_nearest(sphere: Sphere, r: Ray, ray_t: Interval)
    ensures
        crate::world::reports_nearest(sphere, r, ray_t),
{
    let roots = sphere.roots(r);
    lemma_sphere_roots_ordered(sphere, r);
    assert forall|end: Scalar| end.le_spec(ray_t.end) implies #[trigger] sphere.hit_spec(
        r,
        ray_t.until_spec(end),
    ) == match sphere.hit_spec(r, ray_t) {
        Some(h) => if h.t.lt_spec(end) {
            Some(h)
        } else {
            None
        },
        None => None,
    } by {
        lemma_hit_narrows(roots, ray_t, end);
    }
}

} // verus!
