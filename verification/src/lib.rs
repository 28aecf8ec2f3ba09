//! Grid-based raycasting core.
//!
//! The crate models a bounded world of square tiles and provides, as verified
//! code: the tile-map coordinate model (`grid`), a ray/grid intersector that
//! walks cell boundaries with exact integer arithmetic (`ray`), a
//! field-of-view sampler that builds an ordered depth buffer (`fov`), and a
//! discrete movement gate with angle wrapping (`motion`).
//!
//! World coordinates are integers (a tile spans `tile_size` world units), and
//! ray distances are exact rationals: the parameter `t` along the ray's
//! direction vector, returned as a numerator/denominator pair. For a
//! unit-length axis-aligned direction, `t` is the world distance itself.
//! Deriving a direction vector from a facing angle by trigonometry is left to
//! the presentation shell; the core consumes integer direction vectors.

pub mod fov;
pub mod grid;
pub mod motion;
pub mod ray;
