//! Grids of heights that need not stay in memory.

pub mod bytes;
pub mod element;
pub mod mapping;
pub mod mmap_grid;
pub mod parallel;
pub mod tables;
