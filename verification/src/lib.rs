//! Rendering of text and linear color gradients onto a raster canvas.
//!
//! The library keeps every quantity as exact integers: a blend position is a
//! rational number given as numerator and denominator, a glyph's
//! anti-aliasing coverage is an 8-bit weight, and a font scale is a pair of
//! pixel sizes.  Rasterizing glyph outlines and decoding bitmaps stay with
//! outside libraries; callers hand their results in as plain values.

pub mod canvas;
pub mod gradiation;
pub mod text;
pub mod util;
