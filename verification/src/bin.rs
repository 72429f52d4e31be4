//! Bin descriptors: a contiguous range of raw unsigned representations that
//! shares one encoding strategy.

use vstd::prelude::*;
use vstd::arithmetic::power2::pow2;
use crate::constants::Bitlen;
use crate::data_types::UnsignedLike;

verus! {

/// A bin as the compression side sees it: the range it covers, the
/// statistics the bin optimizer selected it by, and the mode-specific fields
/// filled in once it won the optimization.
#[derive(Clone, Copy, Debug)]
pub struct BinCompressionInfo<U: UnsignedLike> {
    /// Number of values assigned to the bin.
    pub count: usize,
    /// Statistical mass used for entropy-cost estimation; may differ from
    /// `count` when the mode adjusts it.
    pub weight: usize,
    /// Smallest raw representation the bin covers.
    pub lower: U,
    /// Largest raw representation the bin covers.
    pub upper: U,
    /// Greatest common divisor of the in-bin offsets; `1` unless the `Gcd`
    /// transform found a larger one.
    pub gcd: U,
    /// Bit width needed to encode any of the bin's offsets.
    pub offset_bits: Bitlen,
}

impl<U: UnsignedLike> BinCompressionInfo<U> {
    /// The bin's structural invariant.
    pub open spec fn wf(self) -> bool {
        &&& self.lower.as_nat() <= self.upper.as_nat()
        &&& self.count > 0
        &&& self.weight > 0
        &&& self.gcd.as_nat() >= 1
    }
}

/// A bin as the decompression side sees it: just enough to reconstruct
/// values from decoded offsets.
#[derive(Clone, Copy, Debug)]
pub struct BinDecompressionInfo<U: UnsignedLike> {
    /// Smallest raw representation the bin covers.
    pub lower: U,
    /// Bit width of the encoded offsets.
    pub offset_bits: Bitlen,
    /// Stride between successive reconstructable values; `1` unless the
    /// `Gcd` transform is in use.
    pub gcd: U,
}

impl<U: UnsignedLike> BinDecompressionInfo<U> {
    /// Every offset that `offset_bits` bits can encode reconstructs, with
    /// the given stride, a value inside the representation's domain. This is
    /// what makes the unchecked decode safe on arbitrary stream contents:
    /// a malformed stream can only yield a wrong value, never a fault.
    pub open spec fn in_range(self, stride: nat) -> bool {
        &&& self.offset_bits <= U::spec_bits()
        &&& self.lower.as_nat() + (pow2(self.offset_bits as nat) - 1) * stride < pow2(
            U::spec_bits() as nat,
        )
    }
}

} // verus!
