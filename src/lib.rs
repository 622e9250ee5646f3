//! Watermark framing and error correction for TrustMark images.
//!
//! The library holds the parts of the watermarking pipeline that are plain
//! computation: a binary BCH code over GF(2^m) (`bch`), the 100-bit frame that
//! carries payload, parity and a version tag (`bits`), the model variants
//! (`model`) and the integer geometry of the image adapter (`geometry`).
pub mod bch;
pub mod bits;
pub mod geometry;
pub mod model;

pub use bits::{Bits, Version};
pub use model::Variant;
