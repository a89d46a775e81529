//! Reconstruction of a tree-shaped execution trace from a flat list of depths,
//! its placement on a grid and in a viewport, and the motion of a cart along it.

pub mod trace;
pub mod tree;
pub mod grid;
pub mod viewport;
pub mod animator;
