//! A small software rasterizer: an integer line producer, an exact triangle
//! coverage test, and eager and lazy triangle rasterizers that write packed
//! BGRA pixels into a flat framebuffer.

pub mod color;
pub mod line;
pub mod triangle;
pub mod utils;
