//! Shared scalar types of the encoding core.

use vstd::prelude::*;

verus! {

/// A count of bits, e.g. the width of a bin's offsets.
pub type Bitlen = u32;

} // verus!
