//! Points and boxes in degrees of latitude and longitude.

pub mod llbbox;
pub mod llpoint;
pub mod tile_area;
pub mod tiles;
pub mod tiling;
