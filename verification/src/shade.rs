//! From a ray to its colour.

use crate::camera::{half, one, HALF_BITS};
use crate::color::Color;
use crate::hittable::Interval;
use crate::ray::Ray;
use crate::scalar::Scalar;
use crate::world::{nearest_hit, World};
use vstd::prelude::*;

verus! {

/// The pattern of 0.7, the green of the sky.
pub const SKY_GREEN_BITS: u32 = 0x3f33_3333;

/// White.
pub open spec fn white() -> Color {
    Color { r: one(), g: one(), b: one() }
}

/// The blue of the sky: `(0.5, 0.7, 1.0)`.
pub open spec fn sky_blue() -> Color {
    Color { r: half(), g: Scalar { bits: SKY_GREEN_BITS }, b: one() }
}

/// The blend `a * (1 - n) + b * n`, channel by channel.
pub open spec fn color_lerp_spec(n: Scalar, a: Color, b: Color) -> Color {
    Color::from_vec3_spec(
        a.to_vec3_spec().mul_scalar_spec(one().sub_spec(n)).add_spec(
            b.to_vec3_spec().mul_scalar_spec(n),
        ),
    )
}

/// The colour of the sky in the direction of the ray: white where the unit
/// direction points straight down, sky blue where it points straight up,
/// and the blend at `0.5 * (y + 1)` in between.
pub open spec fn sky_spec(ray: Ray) -> Color {
    let n = half().mul_spec(ray.dir.unit_spec().0[1].add_spec(one()));
    color_lerp_spec(n, white(), sky_blue())
}

/// The colour of a ray: where it hits the scene at a parameter in
/// `[0, +inf)`, the even blend of white and the normal of the hit read as a
/// colour; else the colour of the sky.
pub open spec fn ray_color_spec(ray: Ray, world: World) -> Color {
    match nearest_hit(world.spheres@, ray, Interval::forward_spec()) {
        Some(hit) => color_lerp_spec(half(), white(), Color::from_vec3_spec(hit.normal)),
        None => sky_spec(ray),
    }
}

/// Blends two colours: `a` at `n == 0`, `b` at `n == 1`.
pub fn color_lerp(n: Scalar, color_a: Color, color_b: Color) -> (c: Color)
    ensures
        c == color_lerp_spec(n, color_a, color_b),
{
    let a = color_a.to_vec3().mul_scalar(Scalar::one().sub(n));
    let b = color_b.to_vec3().mul_scalar(n);
    Color::from_vec3(a.add(b))
}

/// Shades a ray against the scene.
pub fn ray_color(ray: &Ray, world: &World) -> (c: Color)
    ensures
        c == ray_color_spec(*ray, *world),
{
    let one = Scalar::one();
    let half = Scalar { bits: HALF_BITS };
    let unit_color = Color { r: one, g: one, b: one };
    if let Some(hit) = world.hit(ray, Interval::forward()) {
        return color_lerp(half, unit_color, Color::from_vec3(hit.normal));
    }
    let unit_dir = ray.dir.unit();
    let n = half.mul(unit_dir.0[1].add(one));
    color_lerp(n, unit_color, Color { r: half, g: Scalar { bits: SKY_GREEN_BITS }, b: one })
}

/// In a scene without spheres every ray has the colour of the sky.
pub proof fn lemma_empty_world_is_sky(ray: Ray, world: World)
    requires
        world.spheres@.len() == 0,
    ensures
        ray_color_spec(ray, world) == sky_spec(ray),
{
}

} // verus!
