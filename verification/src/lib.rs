//! A small ray caster: one ray per pixel from a pinhole camera, tested against
//! spheres, shaded by the surface normal of the nearest intersection.
//!
//! This crate holds everything of the renderer that is exact: the image-plane
//! geometry in rational arithmetic, the traversal orders, the choice of the
//! nearest hit, the mapping of a quantised normal to a colour, and the text of
//! the pixel file. Real-valued vector arithmetic is the caller's business; it
//! reaches this crate as integers (see [`geometry::Hit`]).

pub mod camera;
pub mod geometry;
pub mod render;
pub mod utils;
pub mod visual;
