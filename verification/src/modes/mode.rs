//! The chunk-level choice of arithmetic transform, and the bookkeeping
//! derived from it: stream count and per-stream delta order.

use vstd::prelude::*;
use vstd::arithmetic::div_mod::lemma_div_is_ordered;
use vstd::arithmetic::div_mod::lemma_fundamental_div_mod;
use vstd::arithmetic::mul::lemma_mul_is_commutative;
use vstd::arithmetic::power2::pow2;
use vstd::pervasive::unreached;
use crate::bit_reader::spec_read;
use crate::bits::bit_length;
use crate::bits::lemma_bit_length;
use crate::data_types::UnsignedLike;

verus! {

/// Parameters of the `FloatMult` transform. The float base is carried by its
/// bit representation so that the integer-domain bookkeeping stays exact;
/// the floating-point arithmetic it parameterizes happens outside this core.
#[derive(Clone, Copy, Debug, PartialEq, Eq)]
pub struct FloatMultConfig<U: UnsignedLike> {
    /// Bit representation of the float base value that multipliers scale.
    pub base_bits: U,
    /// Bit width of the representation's ULP-adjustment offsets.
    pub adj_bits: U,
}

/// A variation of how a chunk serializes and deserializes numbers, fixed
/// once per chunk at compression time and persisted in the chunk's metadata.
#[derive(Clone, Copy, Debug, PartialEq, Eq)]
pub enum Mode<U: UnsignedLike> {
    /// Each number is compressed as which bin it is in and the offset in
    /// that bin.
    ///
    /// Formula: `bin.lower + offset`
    Classic,
    /// Each number is compressed as which bin it is in and the offset in
    /// that bin as a multiplier of that bin's greatest common divisor.
    ///
    /// Formula: `bin.lower + multiplier * bin.gcd`
    Gcd,
    /// Each number is compressed as which bin its base multiplier is in, the
    /// multiplier's offset in that bin, and — on a second stream — the ULP
    /// adjustment needed to reconstruct the float exactly.
    ///
    /// Formula: `(bin.lower + offset) * mode.base +
    /// (adj_bin.lower + adj_offset) * machine_epsilon`
    FloatMult(FloatMultConfig<U>),
}

impl<U: UnsignedLike> Default for Mode<U> {
    /// A chunk uses the `Classic` transform unless something better is found.
    fn default() -> (r: Self)
        ensures
            r == Mode::<U>::Classic,
    {
        Mode::Classic
    }
}

impl<U: UnsignedLike> Mode<U> {
    /// Number of independent encoded streams the mode splits a chunk into.
    pub open spec fn spec_n_streams(self) -> usize {
        match self {
            Mode::FloatMult(_) => 2,
            _ => 1,
        }
    }

    /// How many independent encoded sub-sequences a chunk's values are split
    /// into: one, except under `FloatMult`, whose second stream carries the
    /// residual ULP adjustments.
    pub fn n_streams(&self) -> (r: usize)
        ensures
            r == self.spec_n_streams(),
    {
        match self {
            Mode::Classic | Mode::Gcd => 1,
            Mode::FloatMult(_) => 2,
        }
    }

    /// Delta order of each of the mode's streams, given the chunk's
    /// configured order.
    pub open spec fn spec_stream_delta_order(self, stream_idx: usize, delta_order: usize) -> usize {
        if stream_idx == 0 {
            delta_order
        } else {
            0
        }
    }

    /// Stream 0 uses the chunk's configured delta order under every mode.
    /// The `FloatMult` adjustment stream (stream 1) is forced to order 0:
    /// its values behave as near-independent noise, which delta-encoding
    /// would not help. Asking for a stream the mode does not have is a
    /// programming error, ruled out by the precondition — not a decode
    /// error.
    pub fn stream_delta_order(&self, stream_idx: usize, delta_order: usize) -> (r: usize)
        requires
            stream_idx < self.spec_n_streams(),
        ensures
            r == self.spec_stream_delta_order(stream_idx, delta_order),
            stream_idx == 0 ==> r == delta_order,
            stream_idx == 1 ==> r == 0,
    {
        match (self, stream_idx) {
            (Mode::Classic, 0) => delta_order,
            (Mode::Gcd, 0) => delta_order,
            (Mode::FloatMult(_), 0) => delta_order,
            (Mode::FloatMult(_), 1) => 0,
            _ => unreached(),
        }
    }

    /// Whether the mode encodes offsets as multiples of a per-bin greatest
    /// common divisor.
    pub open spec fn spec_uses_gcd(self) -> bool {
        self is Gcd
    }
}

/// The within-bin quantity a value is encoded as, in the unsigned domain:
/// its distance above the bin's lower bound, divided by the bin's stride
/// under `Gcd`. Under `FloatMult` the value at hand is the base multiplier
/// (primary stream) or the ULP adjustment (second stream), both of which
/// carry plain offsets.
pub open spec fn spec_calc_offset<U: UnsignedLike>(
    mode: Mode<U>,
    value: nat,
    lower: nat,
    gcd: nat,
) -> nat
    recommends
        lower <= value,
{
    match mode {
        Mode::Gcd => ((value - lower) as nat) / gcd,
        _ => (value - lower) as nat,
    }
}

/// The value an offset decodes back to, in the unsigned domain.
pub open spec fn spec_decompress<U: UnsignedLike>(
    mode: Mode<U>,
    offset: nat,
    lower: nat,
    gcd: nat,
) -> nat {
    match mode {
        Mode::Gcd => lower + offset * gcd,
        _ => lower + offset,
    }
}

/// Round-trip law of the per-value transforms: under any mode, a value
/// correctly assigned to a bin is reproduced exactly by decoding its own
/// offset against that bin. Correct assignment means the value is at least
/// the bin's lower bound, and under `Gcd` sits a whole number of strides
/// above it.
pub proof fn lemma_offset_round_trip<U: UnsignedLike>(
    mode: Mode<U>,
    value: nat,
    lower: nat,
    gcd: nat,
)
    requires
        lower <= value,
        mode.spec_uses_gcd() ==> gcd >= 1 && (value - lower) % (gcd as int) == 0,
    ensures
        spec_decompress(mode, spec_calc_offset(mode, value, lower, gcd), lower, gcd) == value,
{
    match mode {
        Mode::Gcd => {
            let diff = (value - lower) as int;
            lemma_fundamental_div_mod(diff, gcd as int);
            lemma_mul_is_commutative(gcd as int, diff / (gcd as int));
        },
        _ => {},
    }
}

/// Largest reduced span a bin's offsets can reach: `upper - lower`, divided
/// by the bin's stride under `Gcd`. The bin's offset bit-width is the bit
/// length of this quantity.
pub open spec fn spec_max_offset<U: UnsignedLike>(
    mode: Mode<U>,
    lower: nat,
    upper: nat,
    gcd: nat,
) -> nat
    recommends
        lower <= upper,
{
    match mode {
        Mode::Gcd => ((upper - lower) as nat) / gcd,
        _ => (upper - lower) as nat,
    }
}

/// Bit-width bookkeeping law: once a bin's offset bit-width is finalized as
/// the bit length of its largest offset, every value the bin covers yields
/// an offset that fits in that many bits.
pub proof fn lemma_offset_fits<U: UnsignedLike>(
    mode: Mode<U>,
    value: nat,
    lower: nat,
    upper: nat,
    gcd: nat,
)
    requires
        lower <= value <= upper,
        mode.spec_uses_gcd() ==> gcd >= 1,
    ensures
        spec_calc_offset(mode, value, lower, gcd) < pow2(
            bit_length(spec_max_offset(mode, lower, upper, gcd)),
        ),
{
    let max_offset = spec_max_offset(mode, lower, upper, gcd);
    if mode.spec_uses_gcd() {
        lemma_div_is_ordered((value - lower) as int, (upper - lower) as int, gcd as int);
    }
    lemma_bit_length(max_offset);
}

/// End-to-end form of the round-trip law: when the next `n` bits of a
/// stream hold exactly the offset that `spec_calc_offset` assigned to a
/// value, decoding them against the same bin's bounds reproduces the value,
/// under every mode. This is what ties the checked and unchecked decode
/// contracts, which speak of `spec_read`, back to the encoded value.
pub proof fn lemma_stream_round_trip<U: UnsignedLike>(
    mode: Mode<U>,
    data: Seq<u8>,
    pos: int,
    n: nat,
    value: nat,
    lower: nat,
    gcd: nat,
)
    requires
        lower <= value,
        mode.spec_uses_gcd() ==> gcd >= 1 && (value - lower) % (gcd as int) == 0,
        spec_read(data, pos, n) == spec_calc_offset(mode, value, lower, gcd),
    ensures
        spec_decompress(mode, spec_read(data, pos, n), lower, gcd) == value,
{
    lemma_offset_round_trip(mode, value, lower, gcd);
}

} // verus!
