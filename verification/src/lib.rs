//! Voxel grid logic of a falling-sand engine: chunked voxel storage with
//! dirty tracking, face-culled chunk meshing, and terrain sampling from a
//! generation map.

pub mod coords;
pub mod chunk;
pub mod grid;
pub mod laws;
pub mod mesh;
pub mod procgen;
