//! Coordinates on the globe and in the world, and the way from one to the other.

pub mod angle;
pub mod cartesian;
pub mod coordinates;
pub mod cutting;
pub mod directions;
pub mod distance;
pub mod geographic;
pub mod parts;
pub mod positions;
pub mod projection;
pub mod steps;
pub mod transformation;
