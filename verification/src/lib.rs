//! Tiled rendering of escape-time images.
//!
//! The crate plans how a raster is cut into a grid of rectangular tiles,
//! fills each tile from a per-pixel shading function, assembles the tiles
//! into one row-major buffer of 8-bit intensities, and encodes that buffer
//! as a single-channel PNG stream.

pub mod emit;
pub mod grid;
pub mod raster;
pub mod render;
pub mod tile;
