//! A small 2D software rasterizer with machine-checked contracts: a pixel
//! grid of packed 24-bit colors, an integer error-accumulation line
//! rasterizer, a scanline polygon fill with pair-toggled spans and hole
//! loops, and a serializer to the uncompressed bitmap byte layout.

pub mod bmp;
pub mod bresenham;
pub mod color;
pub mod framebuffer;
pub mod polygon;
pub mod scanline;
