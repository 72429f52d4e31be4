//! The contract a concrete unsigned-integer representation must meet so that
//! the mode framework can run its per-value arithmetic on it.

use vstd::prelude::*;
use vstd::arithmetic::power2::pow2;
use vstd::arithmetic::power2::lemma2_to64;
use vstd::arithmetic::power2::lemma2_to64_rest;

verus! {

/// An unsigned-integer representation that values of a chunk are transformed
/// into before binning. All per-value arithmetic is routed through `u64`,
/// which every supported representation fits in.
pub trait UnsignedLike: Copy + Sized {
    /// Bit width of the representation.
    spec fn spec_bits() -> u32;

    /// The mathematical value held.
    spec fn as_nat(self) -> nat;

    /// The width is a whole positive number of bytes, at most eight.
    proof fn bits_bounds()
        ensures
            8 <= Self::spec_bits() <= 64,
            Self::spec_bits() % 8 == 0,
    ;

    /// Every value fits in the advertised width.
    proof fn as_nat_bound(self)
        ensures
            self.as_nat() < pow2(Self::spec_bits() as nat),
    ;

    /// Equal values are the same representation.
    proof fn as_nat_injective(self, other: Self)
        requires
            self.as_nat() == other.as_nat(),
        ensures
            self == other,
    ;

    /// Bit width of the representation, as a run-time value.
    fn bits() -> (r: u32)
        ensures
            r == Self::spec_bits(),
    ;

    /// Widen to `u64` without changing the value.
    fn to_u64(self) -> (r: u64)
        ensures
            r as nat == self.as_nat(),
    ;

    /// Narrow from `u64`; the value must fit the representation.
    fn from_u64(x: u64) -> (r: Self)
        requires
            (x as nat) < pow2(Self::spec_bits() as nat),
        ensures
            r.as_nat() == x as nat,
    ;

    /// Largest value of the representation, widened to `u64`.
    fn max_u64() -> (r: u64)
        ensures
            r as nat == pow2(Self::spec_bits() as nat) - 1,
    ;
}

impl UnsignedLike for u32 {
    open spec fn spec_bits() -> u32 {
        32
    }

    open spec fn as_nat(self) -> nat {
        self as nat
    }

    proof fn bits_bounds() {
    }

    proof fn as_nat_bound(self) {
        lemma2_to64();
    }

    proof fn as_nat_injective(self, other: Self) {
    }

    fn bits() -> (r: u32) {
        32
    }

    fn to_u64(self) -> (r: u64) {
        self as u64
    }

    fn from_u64(x: u64) -> (r: Self) {
        proof {
            lemma2_to64();
        }
        x as u32
    }

    fn max_u64() -> (r: u64) {
        proof {
            lemma2_to64();
        }
        u32::MAX as u64
    }
}

impl UnsignedLike for u64 {
    open spec fn spec_bits() -> u32 {
        64
    }

    open spec fn as_nat(self) -> nat {
        self as nat
    }

    proof fn bits_bounds() {
    }

    proof fn as_nat_bound(self) {
        lemma2_to64_rest();
    }

    proof fn as_nat_injective(self, other: Self) {
    }

    fn bits() -> (r: u32) {
        64
    }

    fn to_u64(self) -> (r: u64) {
        self
    }

    fn from_u64(x: u64) -> (r: Self) {
        x
    }

    fn max_u64() -> (r: u64) {
        proof {
            lemma2_to64_rest();
        }
        u64::MAX
    }
}

} // verus!
