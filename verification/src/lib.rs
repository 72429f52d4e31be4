//! Numeric encoding core of a lossless columnar compressor.
//!
//! Two components:
//! - bit arithmetic utilities: ceiling division, portable little-endian word
//!   serialization, and bit-width calculations for bin offsets;
//! - the mode framework: the per-chunk choice of arithmetic transform
//!   (`Classic`, `Gcd`, `FloatMult`) together with the per-value
//!   compress/decompress arithmetic for each transform.

pub mod bin;
pub mod bit_reader;
pub mod bits;
pub mod constants;
pub mod data_types;
pub mod errors;
pub mod modes;
