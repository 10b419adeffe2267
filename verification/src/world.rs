//! The scene: a list of surfaces, and the nearest hit among them.

use crate::hittable::{HitRecord, Hittable, Interval};
use crate::ray::Ray;
use crate::scalar::Scalar;
use crate::sphere::Sphere;
use vstd::prelude::*;

verus! {

/// The spheres of a scene, in the order in which they were added.
pub struct World {
    pub spheres: Vec<Sphere>,
}

/// What is known after a surface was tested: the hit it reported if it
/// reported one, else the best hit so far.
pub open spec fn closer_spec(best: Option<HitRecord>, found: Option<HitRecord>) -> Option<
    HitRecord,
> {
    match found {
        Some(h) => Some(h),
        None => best,
    }
}

/// The interval that the next surface is tested in: it starts where the
/// whole search starts and ends at the best hit so far.
pub open spec fn remaining(ray_t: Interval, best: Option<HitRecord>) -> Interval {
    match best {
        Some(h) => ray_t.until_spec(h.t),
        None => ray_t,
    }
}

/// The hit that testing the surfaces one after the other arrives at, each in
/// the interval that the hits before it have left.
pub open spec fn nearest_hit<H: Hittable>(objects: Seq<H>, r: Ray, ray_t: Interval) -> Option<
    HitRecord,
>
    decreases objects.len(),
{
    if objects.len() == 0 {
        None
    } else {
        let best = nearest_hit(objects.drop_last(), r, ray_t);
        closer_spec(best, objects.last().hit_spec(r, remaining(ray_t, best)))
    }
}

/// The surface answers every interval that starts where `ray_t` starts and
/// ends no later with its nearest crossing inside that interval: the hit
/// lies in the interval asked for, and it is the hit for `ray_t` wherever
/// that one lies before the earlier end.
pub open spec fn reports_nearest<H: Hittable>(object: H, r: Ray, ray_t: Interval) -> bool {
    &&& forall|end: Scalar|
        (#[trigger] object.hit_spec(r, ray_t.until_spec(end))) matches Some(h)
            ==> ray_t.until_spec(end).contains_spec(h.t)
    &&& forall|end: Scalar|
        end.le_spec(ray_t.end) ==> #[trigger] object.hit_spec(r, ray_t.until_spec(end))
            == match object.hit_spec(r, ray_t) {
            Some(h) => if h.t.lt_spec(end) {
                Some(h)
            } else {
                None
            },
            None => None,
        }
}

/// `found` is no farther along the ray than the hit, if any, that each of
/// the surfaces reports in `ray_t`.
pub open spec fn no_farther_than_all<H: Hittable>(
    found: HitRecord,
    objects: Seq<H>,
    r: Ray,
    ray_t: Interval,
) -> bool {
    forall|i: int|
        0 <= i < objects.len() ==> ((#[trigger] objects[i]).hit_spec(r, ray_t) matches Some(g)
            ==> found.t.le_spec(g.t))
}

impl World {
    /// The empty scene.
    pub fn new() -> (w: World)
        ensures
            w.spheres@.len() == 0,
    {
        World { spheres: Vec::new() }
    }

    /// Removes every sphere.
    pub fn clear(&mut self)
        ensures
            final(self).spheres@.len() == 0,
    {
        self.spheres.clear();
    }

    /// Adds a sphere after those that are there.
    pub fn push(&mut self, sphere: Sphere)
        ensures
            final(self).spheres@ == old(self).spheres@.push(sphere),
    {
        self.spheres.push(sphere);
    }

    /// Takes in what one more surface reported: a reported hit replaces the
    /// best one and becomes the end of the interval for the surfaces that
    /// follow; a miss changes nothing.
    pub fn closer(best: Option<HitRecord>, ray_t: Interval, found: Option<HitRecord>) -> (res: (
        Option<HitRecord>,
        Interval,
    ))
        ensures
            res.0 == closer_spec(best, found),
            found matches Some(h) ==> res.1 == ray_t.until_spec(h.t),
            found is None ==> res.1 == ray_t,
    {
        match found {
            Some(h) => (Some(h), ray_t.until(h.t)),
            None => (best, ray_t),
        }
    }

    /// The hit of the ray on the scene inside `ray_t`: the nearest of the
    /// hits of its spheres, and of equally near ones the first. Every sphere
    /// is tested in turn, in an interval that ends at the best hit so far,
    /// so a sphere can only answer with a hit that lies before it.
    pub fn hit(&self, r: &Ray, ray_t: Interval) -> (res: Option<HitRecord>)
        ensures
            res == nearest_hit(self.spheres@, *r, ray_t),
            res matches Some(h) ==> {
                &&& ray_t.contains_spec(h.t)
                &&& exists|k: int|
                    0 <= k < self.spheres@.len() && (#[trigger] self.spheres@[k]).hit_spec(
                        *r,
                        ray_t,
                    ) == Some(h)
                &&& no_farther_than_all(h, self.spheres@, *r, ray_t)
            },
            res is None ==> forall|i: int|
                0 <= i < self.spheres@.len() ==> (#[trigger] self.spheres@[i]).hit_spec(*r, ray_t)
                    is None,
    {
        let mut best: Option<HitRecord> = None;
        let mut range = ray_t;
        let n = self.spheres.len();
        let mut i: usize = 0;
        while i < n
            invariant
                n == self.spheres@.len(),
                0 <= i <= n,
                best == nearest_hit(self.spheres@.take(i as int), *r, ray_t),
                range == remaining(ray_t, best),
                best matches Some(h) ==> ray_t.contains_spec(h.t),
            decreases n - i,
        {
            let found = self.spheres[i].hit(r, range);
            proof {
                let prefix = self.spheres@.take(i + 1);
                assert(prefix.drop_last() =~= self.spheres@.take(i as int));
                assert(prefix.last() == self.spheres@[i as int]);
                if let Some(h) = found {
                    assert(range.contains_spec(h.t));
                    if let Some(b) = best {
                        assert(h.t.lt_spec(b.t));
                        assert(b.t.lt_spec(ray_t.end));
                    }
                }
            }
            let next = Self::closer(best, range, found);
            best = next.0;
            range = next.1;
            i = i + 1;
        }
        proof {
            assert(self.spheres@.take(n as int) =~= self.spheres@);
            lemma_world_hit_is_nearest(*self, *r, ray_t);
        }
        best
    }
}

/// The hit of the scene is the nearest of the hits of its surfaces: it is
/// what one of them reports in `ray_t`, no other reports a nearer one, and
/// the scene misses only where every surface does.
pub proof fn lemma_nearest_hit<H: Hittable>(objects: Seq<H>, r: Ray, ray_t: Interval)
    requires
        forall|i: int| 0 <= i < objects.len() ==> reports_nearest(#[trigger] objects[i], r, ray_t),
    ensures
        match nearest_hit(objects, r, ray_t) {
            Some(h) => {
                &&& ray_t.contains_spec(h.t)
                &&& exists|k: int|
                    0 <= k < objects.len() && (#[trigger] objects[k]).hit_spec(r, ray_t) == Some(h)
                &&& no_farther_than_all(h, objects, r, ray_t)
            },
            None => forall|i: int|
                0 <= i < objects.len() ==> (#[trigger] objects[i]).hit_spec(r, ray_t) is None,
        },
    decreases objects.len(),
{
    if objects.len() > 0 {
        let front = objects.drop_last();
        let last = objects.last();
        let n = front.len() as int;
        assert forall|i: int| 0 <= i < front.len() implies reports_nearest(
            #[trigger] front[i],
            r,
            ray_t,
        ) by {
            assert(front[i] == objects[i]);
        }
        lemma_nearest_hit(front, r, ray_t);
        assert(forall|i: int| 0 <= i < n ==> front[i] == objects[i]);
        assert(reports_nearest(objects[n], r, ray_t));
        assert(last == objects[n]);
        let best = nearest_hit(front, r, ray_t);
        let whole = ray_t.until_spec(ray_t.end);
        assert(whole == ray_t);
        let base = last.hit_spec(r, ray_t);
        assert(base == last.hit_spec(r, whole));
        assert(base matches Some(g) ==> ray_t.contains_spec(g.t));
        match best {
            None => {
                assert(nearest_hit(objects, r, ray_t) == closer_spec(None, base));
                match base {
                    Some(g) => {
                        assert(objects[n].hit_spec(r, ray_t) == Some(g));
                        assert(no_farther_than_all(g, objects, r, ray_t));
                    },
                    None => {},
                }
            },
            Some(b) => {
                let k = choose|k: int|
                    0 <= k < front.len() && (#[trigger] front[k]).hit_spec(r, ray_t) == Some(b);
                assert(objects[k].hit_spec(r, ray_t) == Some(b));
                let narrowed = ray_t.until_spec(b.t);
                assert(b.t.le_spec(ray_t.end));
                let found = last.hit_spec(r, narrowed);
                assert(nearest_hit(objects, r, ray_t) == closer_spec(best, found));
                match found {
                    Some(g) => {
                        assert(base == Some(g));
                        assert(g.t.lt_spec(b.t));
                        assert(objects[n].hit_spec(r, ray_t) == Some(g));
                        assert forall|i: int| 0 <= i < objects.len() implies ((
                        #[trigger] objects[i]).hit_spec(r, ray_t) matches Some(f) ==> g.t.le_spec(
                            f.t,
                        )) by {
                            if i < n {
                                assert(front[i] == objects[i]);
                            }
                        }
                    },
                    None => {
                        assert forall|i: int| 0 <= i < objects.len() implies ((
                        #[trigger] objects[i]).hit_spec(r, ray_t) matches Some(f) ==> b.t.le_spec(
                            f.t,
                        )) by {
                            if i < n {
                                assert(front[i] == objects[i]);
                            }
                        }
                    },
                }
            },
        }
    }
}

/// The distance of the hit does not depend on the order of the surfaces:
/// two scenes of the same surfaces both miss, or both hit at the same
/// distance along the ray.
pub proof fn lemma_hit_order_independent<H: Hittable>(
    a: Seq<H>,
    b: Seq<H>,
    r: Ray,
    ray_t: Interval,
)
    requires
        a.to_multiset() == b.to_multiset(),
        forall|i: int| 0 <= i < a.len() ==> reports_nearest(#[trigger] a[i], r, ray_t),
    ensures
        match (nearest_hit(a, r, ray_t), nearest_hit(b, r, ray_t)) {
            (Some(x), Some(y)) => x.t.units() == y.t.units(),
            (None, None) => true,
            _ => false,
        },
{
    broadcast use vstd::seq_lib::group_to_multiset_ensures;

    assert forall|j: int| 0 <= j < b.len() implies reports_nearest(#[trigger] b[j], r, ray_t) by {
        assert(b.to_multiset().count(b[j]) > 0);
        assert(a.contains(b[j]));
    }
    lemma_nearest_hit(a, r, ray_t);
    lemma_nearest_hit(b, r, ray_t);
    if let Some(x) = nearest_hit(a, r, ray_t) {
        let k = choose|k: int| 0 <= k < a.len() && (#[trigger] a[k]).hit_spec(r, ray_t) == Some(x);
        assert(a.to_multiset().count(a[k]) > 0);
        assert(b.contains(a[k]));
        let j = choose|j: int| 0 <= j < b.len() && b[j] == a[k];
        assert(b[j].hit_spec(r, ray_t) == Some(x));
    }
    if let Some(y) = nearest_hit(b, r, ray_t) {
        let j = choose|j: int| 0 <= j < b.len() && (#[trigger] b[j]).hit_spec(r, ray_t) == Some(y);
        assert(b.to_multiset().count(b[j]) > 0);
        assert(a.contains(b[j]));
        let k = choose|k: int| 0 <= k < a.len() && a[k] == b[j];
        assert(a[k].hit_spec(r, ray_t) == Some(y));
    }
}

/// The hit of a scene of spheres is the nearest of the hits of its spheres:
/// one of them reports it, none reports a nearer one, and the scene misses
/// only where every sphere does.
pub proof fn lemma_world_hit_is_nearest(world: World, r: Ray, ray_t: Interval)
    ensures
        match nearest_hit(world.spheres@, r, ray_t) {
            Some(h) => {
                &&& ray_t.contains_spec(h.t)
                &&& exists|k: int|
                    0 <= k < world.spheres@.len() && (#[trigger] world.spheres@[k]).hit_spec(
                        r,
                        ray_t,
                    ) == Some(h)
                &&& no_farther_than_all(h, world.spheres@, r, ray_t)
            },
            None => forall|i: int|
                0 <= i < world.spheres@.len() ==> (#[trigger] world.spheres@[i]).hit_spec(r, ray_t)
                    is None,
        },
{
    assert forall|i: int| 0 <= i < world.spheres@.len() implies reports_nearest(
        #[trigger] world.spheres@[i],
        r,
        ray_t,
    ) by {
        crate::sphere::lemma_sphere_reports_nearest(world.spheres@[i], r, ray_t);
    }
    lemma_nearest_hit(world.spheres@, r, ray_t);
}

/// The order in which a scene holds its spheres does not change how far
/// along a ray it is hit.
pub proof fn lemma_world_order_independent(a: World, b: World, r: Ray, ray_t: Interval)
    requires
        a.spheres@.to_multiset() == b.spheres@.to_multiset(),
    ensures
        match (nearest_hit(a.spheres@, r, ray_t), nearest_hit(b.spheres@, r, ray_t)) {
            (Some(x), Some(y)) => x.t.units() == y.t.units(),
            (None, None) => true,
            _ => false,
        },
{
    assert forall|i: int| 0 <= i < a.spheres@.len() implies reports_nearest(
        #[trigger] a.spheres@[i],
        r,
        ray_t,
    ) by {
        crate::sphere::lemma_sphere_reports_nearest(a.spheres@[i], r, ray_t);
    }
    lemma_hit_order_independent(a.spheres@, b.spheres@, r, ray_t);
}

} // verus!
