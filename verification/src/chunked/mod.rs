//! A large area made as a grid of smaller runs.
//!
//! Each run covers the regions that it owns and a margin of whole regions around
//! them, and works in the coordinates of the whole. Only the regions that it owns
//! are kept: the margin is there so that what crosses a seam is computed with its
//! surroundings. Chunks end where regions end, so no two keep the same region.

pub mod command_line;
pub mod driver;
pub mod merge;
pub mod names;
pub mod options;
pub mod plan;
pub mod probe;
pub mod seams;
