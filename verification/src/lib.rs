//! A small 3-D target-shooting physics core: spherical targets spawned on an
//! annular band, point-in-sphere collision tests, removal by id, and a
//! periodic drift animation step.
//!
//! All geometry is carried in fixed-point coordinates (`geom::SCALE` units per
//! world unit), so every operation is exact integer arithmetic with a proved
//! contract. The host driver owns the random source, the clock and the
//! console, and hands this core plain fixed-point values.

pub mod color;
pub mod geom;
pub mod registry;
