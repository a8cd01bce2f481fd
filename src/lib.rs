//! Depth-of-field rendering through a parabolic reflector: the depth-sorted
//! scene grid, the rules that group its samples into blur bands, and the
//! per-layer pixel steps of the compositor.

pub mod grid;
pub mod band;
pub mod layer;
pub mod error;
pub mod encode;
