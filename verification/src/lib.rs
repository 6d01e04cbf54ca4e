//! A lossy still-image compression codec.
//!
//! An RGB raster image is trimmed to even dimensions, converted to a
//! luma/chroma color space, transformed two-by-two pixel block by block
//! into quantized coefficients, and packed into one 32-bit word per
//! block. The reverse path rebuilds an approximate image from the words.
//!
//! All numeric work is done in fixed-point arithmetic over scaled
//! integers; the scale is [`fixed::SCALE`].

pub mod array2;
pub mod bitfield;
pub mod chroma;
pub mod codec;
pub mod conversion;
pub mod fixed;
pub mod format;
