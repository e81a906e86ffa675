//! Bead patterns: a raster is reduced to a coarse grid of cells, every cell takes the
//! nearest colour of a named palette, and the grid is rendered flat or through a tile.

pub mod beads;
pub mod color;
pub mod compose;
pub mod distance;
pub mod downscale;
pub mod error;
pub mod frequency;
pub mod palette;
pub mod quantize;
pub mod raster;
