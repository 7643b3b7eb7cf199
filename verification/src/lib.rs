//! Bookkeeping of a fleet battle: colours, sides, fleets and their groups,
//! the scene's reaction to clicks, and the timing of firing effects.
//! What the battle computes in floating point (positions, strengths,
//! movement) stays with the program that drives this library.

pub mod math;
pub mod side;
pub mod fleet;
pub mod scene;
pub mod visual_effects;
