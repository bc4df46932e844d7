//! Procedural voxel terrain: a bit-packed occupancy grid, deterministic
//! pseudo-random draws for worm tunnels, and carving passes over the grid.
pub mod carve;
pub mod grid;
pub mod rng;
