//! The computing core of large-area world generation.

pub mod bignat;
pub mod binary32;
pub mod binary64;
pub mod chunked;
pub mod coordinate_system;
pub mod elevation;
pub mod text;
