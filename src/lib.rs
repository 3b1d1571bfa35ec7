//! A software rasterizer core: packed colors, row-major 2D buffers, scanline
//! span construction, depth-tested span filling and box-filter downsampling.

pub mod buffer;
pub mod color;
pub mod raster;
pub mod antialias;
