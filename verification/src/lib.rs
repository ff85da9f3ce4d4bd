//! Geometric and pixel-output foundation of a ray-tracing engine: a color
//! type, a rasterized image buffer (canvas), and a serializer to a portable
//! plain-text raster image format.
//!
//! Color channels are carried as the 64-bit IEEE 754 bit patterns of the
//! `f64` values they denote, so the whole pipeline — including the
//! clamp-scale-round quantization of a channel to a byte — is exact integer
//! arithmetic with verified contracts. Floating-point arithmetic on channels
//! (and the vector/point algebra built on it) lives outside this library.

pub mod canvas;
pub mod color;
pub mod ppm;
