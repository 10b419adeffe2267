//! Rays.

use crate::scalar::Scalar;
use crate::vec::{Point3, Vec3};
use vstd::prelude::*;

verus! {

/// The half-line of the points `orig + t * dir`.
#[derive(Clone, Copy, Debug)]
pub struct Ray {
    pub orig: Point3,
    pub dir: Vec3,
}

impl Ray {
    /// The point `orig + t * dir`.
    pub open spec fn at_spec(&self, t: Scalar) -> Point3 {
        self.orig.add_spec(self.dir.mul_scalar_spec(t))
    }

    /// The point of the ray at the parameter `t`.
    pub fn at(&self, t: Scalar) -> (p: Point3)
        ensures
            p == self.at_spec(t),
    {
        self.orig.add(self.dir.mul_scalar(t))
    }
}

} // verus!
