//! Per-value arithmetic of the `Classic` transform: offsets are plain
//! distances above the bin's lower bound. The `FloatMult` transform uses the
//! same arithmetic on each of its two streams, once values have been mapped
//! to base multipliers and ULP adjustments.

use vstd::prelude::*;
use vstd::arithmetic::power2::lemma2_to64_rest;
use vstd::arithmetic::power2::lemma_pow2_strictly_increases;
use vstd::arithmetic::power2::pow2;
use crate::bin::BinCompressionInfo;
use crate::bin::BinDecompressionInfo;
use crate::bit_reader::BitReader;
use crate::bit_reader::spec_read;
use crate::bits::bit_length;
use crate::bits::bits_to_encode_offset;
use crate::data_types::UnsignedLike;
use crate::errors::PcoError;
use crate::errors::PcoResult;
use crate::modes::mode::Mode;
use crate::modes::mode::spec_calc_offset;
use crate::modes::mode::spec_decompress;

verus! {

/// The `Classic` transform, resolved at compile time for one unsigned
/// representation per instantiation.
#[derive(Clone, Copy, Debug)]
pub struct ClassicMode;

/// Per-candidate aggregation state of the `Classic` transform: it aggregates
/// nothing.
#[derive(Clone, Copy, Debug)]
pub struct ClassicBinOptAccumulator {}

impl Default for ClassicBinOptAccumulator {
    /// The empty aggregate.
    fn default() -> (r: Self)
        ensures
            r == (ClassicBinOptAccumulator {  }),
    {
        ClassicBinOptAccumulator {  }
    }
}

impl ClassicMode {
    /// Folds one candidate bin into the accumulator. `Classic` keeps no
    /// per-candidate state, so this is a no-op; folding order cannot matter.
    pub fn combine_bin_opt_acc<U: UnsignedLike>(
        bin: &BinCompressionInfo<U>,
        acc: &mut ClassicBinOptAccumulator,
    )
        ensures
            *final(acc) == *old(acc),
    {
        let _ = bin;
    }

    /// Finalizes a winning bin: its offsets span `[0, upper - lower]`, so
    /// its offset bit width is exactly `bit_length(upper - lower)`.
    pub fn fill_optimized_compression_info<U: UnsignedLike>(
        acc: ClassicBinOptAccumulator,
        bin: &mut BinCompressionInfo<U>,
    )
        requires
            old(bin).wf(),
        ensures
            final(bin).offset_bits == bit_length(
                (old(bin).upper.as_nat() - old(bin).lower.as_nat()) as nat,
            ),
            final(bin).lower == old(bin).lower,
            final(bin).upper == old(bin).upper,
            final(bin).count == old(bin).count,
            final(bin).weight == old(bin).weight,
            final(bin).gcd == old(bin).gcd,
            final(bin).wf(),
    {
        let _ = acc;
        proof {
            bin.upper.as_nat_bound();
        }
        let diff = bin.upper.to_u64() - bin.lower.to_u64();
        bin.offset_bits = bits_to_encode_offset(U::from_u64(diff));
    }

    /// The within-bin quantity to encode: the value's distance above the
    /// bin's lower bound.
    pub fn calc_offset<U: UnsignedLike>(u: U, bin: &BinCompressionInfo<U>) -> (r: U)
        requires
            bin.lower.as_nat() <= u.as_nat(),
        ensures
            r.as_nat() == spec_calc_offset(
                Mode::<U>::Classic,
                u.as_nat(),
                bin.lower.as_nat(),
                bin.gcd.as_nat(),
            ),
            r.as_nat() == u.as_nat() - bin.lower.as_nat(),
    {
        proof {
            u.as_nat_bound();
        }
        U::from_u64(u.to_u64() - bin.lower.to_u64())
    }

    /// Fast-path reconstruction: reads the bin's offset bits and adds them
    /// to the bin's lower bound. The bin's range invariant keeps the
    /// arithmetic in the representation's domain whatever bits the stream
    /// holds, so a malformed stream can only produce a wrong value.
    pub fn unchecked_decompress_unsigned<U: UnsignedLike>(
        bin: &BinDecompressionInfo<U>,
        reader: &mut BitReader,
    ) -> (r: U)
        requires
            old(reader).wf(),
            bin.in_range(1),
            old(reader).pos() + bin.offset_bits <= old(reader).total_bits(),
        ensures
            final(reader).wf(),
            final(reader).data() == old(reader).data(),
            final(reader).pos() == old(reader).pos() + bin.offset_bits,
            r.as_nat() == spec_decompress(
                Mode::<U>::Classic,
                spec_read(old(reader).data(), old(reader).pos() as int, bin.offset_bits as nat),
                bin.lower.as_nat(),
                1,
            ),
    {
        proof {
            U::bits_bounds();
            lemma2_to64_rest();
            if U::spec_bits() < 64 {
                lemma_pow2_strictly_increases(U::spec_bits() as nat, 64);
            }
            vstd::arithmetic::mul::lemma_mul_basics(pow2(bin.offset_bits as nat) as int - 1);
        }
        let offset = reader.unchecked_read_uint(bin.offset_bits);
        U::from_u64(bin.lower.to_u64() + offset)
    }

    /// Checked reconstruction: fails with `InsufficientData` (consuming
    /// nothing) when the stream is exhausted, and with `InvalidOffset` when
    /// the decoded offset would take the value outside the representation's
    /// domain; returns the reconstructed value exactly otherwise.
    pub fn decompress_unsigned<U: UnsignedLike>(
        bin: &BinDecompressionInfo<U>,
        reader: &mut BitReader,
    ) -> (r: PcoResult<U>)
        requires
            old(reader).wf(),
            bin.offset_bits <= U::spec_bits(),
        ensures
            final(reader).wf(),
            final(reader).data() == old(reader).data(),
            ({
                let off = spec_read(
                    old(reader).data(),
                    old(reader).pos() as int,
                    bin.offset_bits as nat,
                );
                match r {
                    Ok(v) => {
                        &&& old(reader).pos() + bin.offset_bits <= old(reader).total_bits()
                        &&& bin.lower.as_nat() + off < pow2(U::spec_bits() as nat)
                        &&& v.as_nat() == spec_decompress(
                            Mode::<U>::Classic,
                            off,
                            bin.lower.as_nat(),
                            1,
                        )
                        &&& final(reader).pos() == old(reader).pos() + bin.offset_bits
                    },
                    Err(PcoError::InsufficientData) => {
                        &&& old(reader).pos() + bin.offset_bits > old(reader).total_bits()
                        &&& *final(reader) == *old(reader)
                    },
                    Err(PcoError::InvalidOffset) => {
                        &&& old(reader).pos() + bin.offset_bits <= old(reader).total_bits()
                        &&& bin.lower.as_nat() + off >= pow2(U::spec_bits() as nat)
                        &&& final(reader).pos() == old(reader).pos() + bin.offset_bits
                    },
                }
            }),
    {
        proof {
            U::bits_bounds();
            bin.lower.as_nat_bound();
        }
        match reader.read_uint(bin.offset_bits) {
            Err(_) => Err(PcoError::InsufficientData),
            Ok(offset) => {
                let lower = bin.lower.to_u64();
                let max = U::max_u64();
                if offset > max - lower {
                    Err(PcoError::InvalidOffset)
                } else {
                    Ok(U::from_u64(lower + offset))
                }
            },
        }
    }
}

} // verus!
