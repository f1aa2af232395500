//! A grid raycaster: exact first-wall intersection of a ray with a boolean
//! occupancy grid, the screen strip derived from it, and the per-column frame
//! driver. All geometry is exact integer and rational arithmetic.

pub mod arith;
pub mod caster;
pub mod grid;
pub mod laws;
pub mod player;
pub mod projector;
