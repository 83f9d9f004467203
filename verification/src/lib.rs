//! Baseline sequential DCT JPEG decoding (ITU-T T.81) from in-memory bytes.
//!
//! The decoder walks the marker stream, builds quantization and canonical
//! Huffman tables, entropy-decodes 8x8 coefficient blocks, applies a
//! fixed-point inverse DCT, and upsamples/converts the samples into
//! grayscale or RGB rows.  Progressive frames, arithmetic coding, 12-bit
//! precision and component counts other than 1 or 3 are rejected.

pub mod bitsrc;
pub mod decoder;
pub mod errors;
pub mod huffman;
pub mod transform;
pub mod upsample;
pub mod util;
pub mod zigzag;

pub use decoder::ColorType;
pub use decoder::Component;
pub use decoder::JPEGDecoder;
pub use errors::DecodeError;
pub use errors::ErrorClass;
pub use huffman::HuffTable;
pub use huffman::derive_tables;
pub use transform::fdct;
pub use transform::idct;
pub use upsample::upsample_mcu_scalar;
pub use upsample::ycbcr_to_rgb_scalar;
pub use util::extend;
