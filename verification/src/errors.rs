//! Recoverable decode failures of the checked decompression path.

use vstd::prelude::*;

verus! {

/// Why a checked per-value decode failed. Invariant violations (such as a
/// stream index a mode does not have) are not represented here: they are
/// programming errors, ruled out by preconditions, never decode errors.
#[derive(Clone, Copy, Debug, PartialEq, Eq, Structural)]
pub enum PcoError {
    /// The bitstream ended before the expected number of bits could be read.
    InsufficientData,
    /// The decoded offset exceeds the bin's valid range: reconstructing the
    /// value would leave the representation's domain.
    InvalidOffset,
}

/// Result channel shared by every checked decode operation.
pub type PcoResult<T> = Result<T, PcoError>;

} // verus!
