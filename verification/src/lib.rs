//! A text-mode frame buffer with verified rasterization primitives.
//!
//! The crate models a rectangular grid of character cells (`FrameBuffer`)
//! and a set of stateless drawing algorithms over it: point plotting with
//! bounds clipping, string drawing, rectangle fill, an integer line
//! algorithm, a polygon outline tracer, and a midpoint circle rasterizer
//! with optional solid fill. Every drawing operation is total: writes to
//! coordinates outside the grid are silently clipped, never errors.

pub mod cell;
pub mod circle;
pub mod color;
pub mod framebuffer;
pub mod grid;
pub mod line;
pub mod polygon;
pub mod raster;
