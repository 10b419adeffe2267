//! Three-component vectors and points.

use crate::scalar::{Scalar, ONE_BITS};
use vstd::prelude::*;

verus! {

/// A vector of three components.
#[derive(Clone, Copy, Debug)]
pub struct Vec3(pub [Scalar; 3]);

/// A position in space.
pub type Point3 = Vec3;

impl Vec3 {
    /// The sum, component by component.
    pub open spec fn add_spec(self, other: Vec3) -> Vec3 {
        Vec3(
            [
                self.0[0].add_spec(other.0[0]),
                self.0[1].add_spec(other.0[1]),
                self.0[2].add_spec(other.0[2]),
            ],
        )
    }

    /// The difference, component by component.
    pub open spec fn sub_spec(self, other: Vec3) -> Vec3 {
        Vec3(
            [
                self.0[0].sub_spec(other.0[0]),
                self.0[1].sub_spec(other.0[1]),
                self.0[2].sub_spec(other.0[2]),
            ],
        )
    }

    /// Every component times `x`.
    pub open spec fn mul_scalar_spec(self, x: Scalar) -> Vec3 {
        Vec3([self.0[0].mul_spec(x), self.0[1].mul_spec(x), self.0[2].mul_spec(x)])
    }

    /// The dot product `a*d + b*e + c*f`, summed from the left.
    pub open spec fn dot_spec(self, other: Vec3) -> Scalar {
        self.0[0].mul_spec(other.0[0]).add_spec(self.0[1].mul_spec(other.0[1])).add_spec(
            self.0[2].mul_spec(other.0[2]),
        )
    }

    /// The square of the length: the dot product of the vector and itself.
    pub open spec fn len_square_spec(self) -> Scalar {
        self.dot_spec(self)
    }

    /// The length: the square root of its square.
    pub open spec fn len_spec(self) -> Scalar {
        self.len_square_spec().sqrt_spec()
    }

    /// The vector scaled by one over its length.
    pub open spec fn unit_spec(self) -> Vec3 {
        self.mul_scalar_spec((Scalar { bits: ONE_BITS }).div_spec(self.len_spec()))
    }

    /// The cross product `(b*f - c*e, c*d - a*f, a*e - b*d)`.
    pub open spec fn cross_spec(self, other: Vec3) -> Vec3 {
        let a = self.0[0];
        let b = self.0[1];
        let c = self.0[2];
        let d = other.0[0];
        let e = other.0[1];
        let f = other.0[2];
        Vec3(
            [
                b.mul_spec(f).sub_spec(c.mul_spec(e)),
                c.mul_spec(d).sub_spec(a.mul_spec(f)),
                a.mul_spec(e).sub_spec(b.mul_spec(d)),
            ],
        )
    }

    /// The zero vector.
    pub fn new() -> (r: Vec3)
        ensures
            forall|i: int| 0 <= i < 3 ==> (#[trigger] r.0[i]).bits == 0,
    {
        Vec3([Scalar::zero(), Scalar::zero(), Scalar::zero()])
    }

    /// `self + other`.
    pub fn add(self, other: Vec3) -> (r: Vec3)
        ensures
            r == self.add_spec(other),
    {
        let r = Vec3(
            [self.0[0].add(other.0[0]), self.0[1].add(other.0[1]), self.0[2].add(other.0[2])],
        );
        assert(r.0 =~= self.add_spec(other).0);
        r
    }

    /// `self - other`.
    pub fn sub(self, other: Vec3) -> (r: Vec3)
        ensures
            r == self.sub_spec(other),
    {
        let r = Vec3(
            [self.0[0].sub(other.0[0]), self.0[1].sub(other.0[1]), self.0[2].sub(other.0[2])],
        );
        assert(r.0 =~= self.sub_spec(other).0);
        r
    }

    /// The vector scaled by `x`.
    pub fn mul_scalar(self, x: Scalar) -> (r: Vec3)
        ensures
            r == self.mul_scalar_spec(x),
    {
        let r = Vec3([self.0[0].mul(x), self.0[1].mul(x), self.0[2].mul(x)]);
        assert(r.0 =~= self.mul_scalar_spec(x).0);
        r
    }

    /// The square of the length.
    pub fn len_square(self) -> (r: Scalar)
        ensures
            r == self.len_square_spec(),
    {
        self.dot(self)
    }

    /// The length.
    pub fn len(self) -> (r: Scalar)
        ensures
            r == self.len_spec(),
    {
        self.len_square().sqrt()
    }

    /// The vector of the same direction and of length one. A vector of
    /// length zero has no direction: its components come out as NaN.
    pub fn unit(self) -> (r: Vec3)
        ensures
            r == self.unit_spec(),
    {
        self.mul_scalar(Scalar::one().div(self.len()))
    }

    /// The dot product.
    pub fn dot(self, other: Vec3) -> (r: Scalar)
        ensures
            r == self.dot_spec(other),
    {
        self.0[0].mul(other.0[0]).add(self.0[1].mul(other.0[1])).add(self.0[2].mul(other.0[2]))
    }

    /// The cross product.
    pub fn cross(self, other: Vec3) -> (r: Vec3)
        ensures
            r == self.cross_spec(other),
    {
        let a = self.0[0];
        let b = self.0[1];
        let c = self.0[2];
        let d = other.0[0];
        let e = other.0[1];
        let f = other.0[2];
        let r = Vec3(
            [b.mul(f).sub(c.mul(e)), c.mul(d).sub(a.mul(f)), a.mul(e).sub(b.mul(d))],
        );
        assert(r.0 =~= self.cross_spec(other).0);
        r
    }
}

} // verus!
