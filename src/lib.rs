//! Line splatting: gradient analysis, edge detection and line rasterisation
//! for stylising raster images with coloured line segments.

pub mod edgeweb;
pub mod imageprocessing;
pub mod painter;
pub mod sampling;
pub mod utility;
