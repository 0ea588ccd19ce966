//! Rasterising shaped text into an image.
//!
//! A text shaper reports each glyph as a filled rectangle (a cell) with a
//! packed colour.  This crate lays such cells down over a background colour
//! in an RGBA pixel buffer, with the exact pixel-level result stated and
//! proved, and encodes the buffer as a PNG file image.

pub mod color;
pub mod png;
pub mod raster;
