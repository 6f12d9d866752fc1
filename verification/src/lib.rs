//! A Sierpinski triangle renderer whose geometry and drawing order are
//! machine-checked.
//!
//! Coordinates live on an integer grid, so every position is exact. A
//! [`surface::Surface`] records the path operations issued to it; the host
//! replays them on whatever drawing context it owns.

pub mod color;
pub mod geometry;
pub mod surface;
pub mod render;
pub mod walk;
