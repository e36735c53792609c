//! Integer core of a small destructible-scene toolkit: the brick wall's data
//! layer and chunk layout, the deterministic integer hashes that pick colours
//! and texture orientations, and the block grids used as crash targets.

pub mod wall;
pub mod tex;
pub mod stone;
pub mod elements;
pub mod targets;
pub mod demo;
pub mod grove;
pub mod mesh;
