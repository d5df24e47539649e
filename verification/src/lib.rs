//! Rasterization of simple 2D polygons into an in-memory pixel buffer.
//!
//! A [`framebuffer::Framebuffer`] is a grid of [`color::Color`] cells. Lines
//! are traced from pixel to pixel with an integer error accumulator
//! ([`line_impl`]), polygon outlines are drawn edge by edge, and polygons are
//! filled scanline by scanline between paired edge crossings ([`scanline`]).
//! The buffer can be encoded as an uncompressed bitmap file ([`bmp`]).
//!
//! Every operation is specified over [`canvas::Canvas`], the mathematical
//! model of what a buffer holds, and proved to do what its contract says.

pub mod bmp;
pub mod canvas;
pub mod color;
pub mod framebuffer;
pub mod line_impl;
pub mod polygon;
pub mod rational;
pub mod scanline;
pub mod vertex;
