//! A lossy still-image codec: an adaptive palette of a few colours, one
//! palette index per pixel, and a dense MSB-first bit stream of those indices.
use vstd::prelude::*;

pub mod color;
pub mod stream;
pub mod error;
pub mod pack;
pub mod unpack;
pub mod decode;
pub mod quantize;
pub mod palette;
pub mod zlib;
pub mod codec;

verus! {

/// Width of the raster that the encoder expects and the decoder rebuilds.
pub const TARGET_WIDTH: u32 = 320;

/// Height of the raster that the encoder expects and the decoder rebuilds.
pub const TARGET_HEIGHT: u32 = 180;

/// Number of palette entries used by the codec.
pub const NUM_PALETTE_COLORS: usize = 8;

} // verus!
