//! A ray caster over fixed-point numbers.
//!
//! A camera casts rays through the pixels of an image; a ray is coloured by
//! the normal of the nearest thing it hits, or by the sky. Every real quantity
//! (a coordinate, a ray parameter, a colour channel) is an `i64` counting
//! millionths: the value `1.0` is [`fixed::SCALE`]. Contracts are stated over
//! mathematical integers, so each rounding step is visible in them.
//!
//! The intersection test takes origins, directions, centers and radii of up
//! to a thousand whole units ([`fixed::LIMIT`]), which keeps its quadratic
//! exact within `i128`. A recorded point lies on its sphere, and a normal has
//! length one, up to the rounding of their coordinates to millionths.
//!
//! - [`fixed`]: the scale, rounding division, the integer square root.
//! - [`vector`]: three-component vectors and their operators.
//! - [`ray`]: rays.
//! - [`geometry`]: hit records, the nearest of several crossings, the sphere
//!   and the scene.
//! - [`color`]: colours and the bytes of a pixel.
//! - [`camera`]: the pixel grid, sampling, shading and the image as text.
//! - [`text`]: numbers in decimal.
pub mod camera;
pub mod color;
pub mod fixed;
pub mod geometry;
pub mod ray;
pub mod text;
pub mod vector;
