//! The mode framework: which arithmetic transform a chunk uses, and the
//! per-value compress/decompress arithmetic of each transform.

pub mod classic;
pub mod gcd;
pub mod mode;
