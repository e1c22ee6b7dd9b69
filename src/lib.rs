//! A voxel wave-function-collapse solver: a tile vocabulary and adjacency
//! relation learned from example patterns, per-cell domains over tile ids,
//! arc-consistent propagation, boundary seeding and randomized collapse.

pub mod adjacency;
pub mod direction;
pub mod domain;
pub mod error;
pub mod grid;
pub mod laws;
mod random;
pub mod region;
pub mod shape;
pub mod solver;
pub mod vocabulary;
