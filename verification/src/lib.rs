//! A deterministic fractal raster engine.
//!
//! The engine renders two classic fractal families into in-memory pixel
//! buffers: an escape-time map of the complex plane (a Julia set) and a
//! Lyapunov-exponent map of a forced logistic sequence.  All arithmetic is
//! carried out in signed Q24 fixed point (24 fractional bits), so every
//! render is an exact integer computation: the same parameters give the same
//! buffer, bit for bit, on every machine and for any scheduling of the
//! per-pixel work.  Writing the finished buffer to an image file is left to
//! the caller.

pub mod fixed;
pub mod coords;
pub mod complex;
pub mod logistic;
pub mod color;
pub mod engine;
