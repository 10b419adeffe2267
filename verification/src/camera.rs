//! The pinhole camera: from a pixel to the ray through it.
//!
//! The camera sits at the origin and looks down the negative depth axis at
//! a viewport one focal length away. The viewport is as wide as the image
//! is, in proportion; its upper left corner is the corner of pixel (0, 0),
//! and pixels are counted to the right and downwards.

use crate::ray::Ray;
use crate::scalar::{Scalar, ONE_BITS};
use crate::vec::{Point3, Vec3};
use vstd::prelude::*;

verus! {

/// The pattern of one half.
pub const HALF_BITS: u32 = 0x3f00_0000;

/// The pattern of two, the height of the viewport of a render.
pub const VIEWPORT_HEIGHT_BITS: u32 = 0x4000_0000;

/// The pattern of one, the focal length of a render.
pub const FOCAL_LENGTH_BITS: u32 = ONE_BITS;

/// A camera, set up for an image of a given size.
#[derive(Clone, Copy, Debug)]
pub struct Camera {
    /// Where the rays start.
    pub center: Point3,
    /// The centre of pixel (0, 0) on the viewport.
    pub pixel00_loc: Point3,
    /// The step from a pixel to its right neighbour.
    pub pixel_delta_u: Vec3,
    /// The step from a pixel to the one below.
    pub pixel_delta_v: Vec3,
}

/// The vector of the three components.
pub open spec fn vec3(x: Scalar, y: Scalar, z: Scalar) -> Vec3 {
    Vec3([x, y, z])
}

/// One half.
pub open spec fn half() -> Scalar {
    Scalar { bits: HALF_BITS }
}

/// One.
pub open spec fn one() -> Scalar {
    Scalar { bits: ONE_BITS }
}

/// Zero.
pub open spec fn naught() -> Scalar {
    Scalar { bits: 0 }
}

impl Camera {
    /// The width of the viewport: its height times the width of the image
    /// over the height of the image.
    pub open spec fn viewport_width(width: usize, height: usize, viewport_height: Scalar) -> Scalar {
        viewport_height.mul_spec(
            Scalar::from_usize_spec(width).div_spec(Scalar::from_usize_spec(height)),
        )
    }

    /// The span of the viewport from left to right.
    pub open spec fn viewport_u(width: usize, height: usize, viewport_height: Scalar) -> Vec3 {
        vec3(Self::viewport_width(width, height, viewport_height), naught(), naught())
    }

    /// The span of the viewport from top to bottom.
    pub open spec fn viewport_v(viewport_height: Scalar) -> Vec3 {
        vec3(naught(), viewport_height.neg_spec(), naught())
    }

    /// The upper left corner of the viewport: the centre, less the focal
    /// length along the depth axis, less half of either span.
    pub open spec fn upper_left(
        width: usize,
        height: usize,
        viewport_height: Scalar,
        focal_length: Scalar,
    ) -> Point3 {
        vec3(naught(), naught(), naught()).sub_spec(
            vec3(naught(), naught(), focal_length),
        ).sub_spec(
            Self::viewport_u(width, height, viewport_height).mul_scalar_spec(half()),
        ).sub_spec(Self::viewport_v(viewport_height).mul_scalar_spec(half()))
    }

    /// The camera for an image of `width` by `height` pixels.
    pub open spec fn new_spec(
        width: usize,
        height: usize,
        viewport_height: Scalar,
        focal_length: Scalar,
    ) -> Camera {
        let delta_u = Self::viewport_u(width, height, viewport_height).mul_scalar_spec(
            one().div_spec(Scalar::from_usize_spec(width)),
        );
        let delta_v = Self::viewport_v(viewport_height).mul_scalar_spec(
            one().div_spec(Scalar::from_usize_spec(height)),
        );
        Camera {
            center: vec3(naught(), naught(), naught()),
            pixel00_loc: Self::upper_left(width, height, viewport_height, focal_length).add_spec(
                delta_u.add_spec(delta_v).mul_scalar_spec(half()),
            ),
            pixel_delta_u: delta_u,
            pixel_delta_v: delta_v,
        }
    }

    /// The point of the viewport that lies `jitter` of a pixel to the right
    /// of and below the centre of the pixel in row `row` and column `col`.
    pub open spec fn sample_spec(&self, row: usize, col: usize, jitter: [Scalar; 2]) -> Point3 {
        self.pixel00_loc.add_spec(
            self.pixel_delta_u.mul_scalar_spec(Scalar::from_usize_spec(col).add_spec(jitter[0])),
        ).add_spec(
            self.pixel_delta_v.mul_scalar_spec(Scalar::from_usize_spec(row).add_spec(jitter[1])),
        )
    }

    /// The ray from the centre of the camera through that point. Its
    /// direction is the point less the centre and is not brought to length
    /// one.
    pub open spec fn ray_spec(&self, row: usize, col: usize, jitter: [Scalar; 2]) -> Ray {
        Ray { orig: self.center, dir: self.sample_spec(row, col, jitter).sub_spec(self.center) }
    }

    /// Sets the camera up for an image of `width` by `height` pixels, with
    /// a viewport of the given height at the given focal length.
    pub fn new(width: usize, height: usize, viewport_height: Scalar, focal_length: Scalar) -> (c:
        Camera)
        ensures
            c == Self::new_spec(width, height, viewport_height, focal_length),
    {
        let zero = Scalar::zero();
        let half = Scalar { bits: HALF_BITS };
        let w = Scalar::from_usize(width);
        let h = Scalar::from_usize(height);
        let center = Vec3([zero, zero, zero]);
        let viewport_u = Vec3([viewport_height.mul(w.div(h)), zero, zero]);
        let viewport_v = Vec3([zero, viewport_height.neg(), zero]);
        let pixel_delta_u = viewport_u.mul_scalar(Scalar::one().div(w));
        let pixel_delta_v = viewport_v.mul_scalar(Scalar::one().div(h));
        let upper_left = center.sub(Vec3([zero, zero, focal_length])).sub(
            viewport_u.mul_scalar(half),
        ).sub(viewport_v.mul_scalar(half));
        let pixel00_loc = upper_left.add(pixel_delta_u.add(pixel_delta_v).mul_scalar(half));
        Camera { center, pixel00_loc, pixel_delta_u, pixel_delta_v }
    }

    /// The ray for one sample of the pixel in row `row` and column `col`.
    /// A jitter of zero gives the ray through the centre of the pixel.
    pub fn ray(&self, row: usize, col: usize, jitter: [Scalar; 2]) -> (r: Ray)
        ensures
            r == self.ray_spec(row, col, jitter),
            r.orig == self.center,
    {
        let sample = self.pixel00_loc.add(
            self.pixel_delta_u.mul_scalar(Scalar::from_usize(col).add(jitter[0])),
        ).add(self.pixel_delta_v.mul_scalar(Scalar::from_usize(row).add(jitter[1])));
        Ray { orig: self.center, dir: sample.sub(self.center) }
    }
}

} // verus!
