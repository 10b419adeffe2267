//! A small offline ray tracer, verified.
//!
//! A scene of spheres is seen through a pinhole camera. For every pixel of
//! the image a number of rays is cast, each jittered inside the pixel; a
//! ray that hits a sphere is shaded by the normal at the nearest hit, any
//! other by the colour of the sky, and the pixel gets the average.
//!
//! Numbers are IEEE-754 binary32 values ([`scalar::Scalar`]), held by their
//! bit patterns and modelled as whole numbers of units of 2<sup>-149</sup>.
//! Their arithmetic ([`arith`]) is carried out on the patterns and proved
//! to give the exact result rounded to the nearest scalar, so that every
//! function up to [`render::render`] has a contract that says what it
//! returns, bit for bit.
//!
//! On top of the contracts stand the laws of the geometry: rounding keeps
//! the order of results ([`order`]), so the scene is hit at its nearest
//! sphere whatever the order of the spheres ([`world`]); a rounded result
//! lies within one part in 2<sup>24</sup> of the exact one ([`accuracy`]),
//! so a unit vector has length one and a cross product is orthogonal to
//! its factors ([`orthogonal`]) as far as rounding allows.

pub mod accuracy;
pub mod arith;
pub mod camera;
pub mod color;
pub mod encode;
pub mod hittable;
pub mod image;
pub mod order;
pub mod orthogonal;
pub mod ray;
pub mod render;
pub mod round;
pub mod sampler;
pub mod scalar;
pub mod shade;
pub mod sphere;
pub mod vec;
pub mod world;
