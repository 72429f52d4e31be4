//! Per-value arithmetic of the `Gcd` transform: offsets are multiples of a
//! per-bin greatest common divisor, shrinking offset bit-width when values
//! are evenly spaced.

use vstd::prelude::*;
use vstd::arithmetic::div_mod::lemma_add_mod_noop;
use vstd::arithmetic::div_mod::lemma_div_nonincreasing;
use vstd::arithmetic::div_mod::lemma_fundamental_div_mod;
use vstd::arithmetic::div_mod::lemma_mod_self_0;
use vstd::arithmetic::div_mod::lemma_mul_mod_noop_right;
use vstd::arithmetic::div_mod::lemma_small_mod;
use vstd::arithmetic::div_mod::lemma_sub_mod_noop;
use vstd::arithmetic::mul::lemma_mul_basics;
use vstd::arithmetic::mul::lemma_mul_inequality;
use vstd::arithmetic::mul::lemma_mul_is_associative;
use vstd::arithmetic::mul::lemma_mul_is_commutative;
use vstd::arithmetic::power2::lemma2_to64;
use vstd::arithmetic::power2::lemma2_to64_rest;
use vstd::arithmetic::power2::lemma_pow2_strictly_increases;
use vstd::arithmetic::power2::pow2;
use crate::bin::BinCompressionInfo;
use crate::bin::BinDecompressionInfo;
use crate::bit_reader::BitReader;
use crate::bit_reader::spec_read;
use crate::bits::bit_length;
use crate::bits::bits_to_encode_offset;
use crate::data_types::UnsignedLike;
use crate::errors::PcoError;
use crate::errors::PcoResult;
use crate::modes::mode::Mode;
use crate::modes::mode::spec_calc_offset;
use crate::modes::mode::spec_decompress;

verus! {

/// Greatest common divisor by Euclid's rule: `gcd(a, 0) == a` and
/// `gcd(a, b) == gcd(b, a % b)` for `b > 0`.
pub open spec fn spec_gcd(a: nat, b: nat) -> nat
    decreases b,
{
    if b == 0 {
        a
    } else {
        spec_gcd(b, a % b)
    }
}

/// `spec_gcd(a, b)` divides both arguments, and is positive unless both are
/// zero.
pub proof fn lemma_gcd_divides(a: nat, b: nat)
    ensures
        a > 0 || b > 0 ==> spec_gcd(a, b) > 0,
        spec_gcd(a, b) > 0 ==> a % spec_gcd(a, b) == 0 && b % spec_gcd(a, b) == 0,
    decreases b,
{
    let g = spec_gcd(a, b);
    if b == 0 {
        if a > 0 {
            lemma_mod_self_0(a as int);
            lemma_small_mod(0, a);
        }
    } else {
        lemma_gcd_divides(b, a % b);
        let q = (a as int) / (b as int);
        lemma_fundamental_div_mod(a as int, b as int);
        lemma_mul_mod_noop_right(q, b as int, g as int);
        lemma_mul_is_commutative(q, b as int);
        lemma_mul_basics(q);
        lemma_small_mod(0, g);
        lemma_add_mod_noop((b as int) * q, (a % b) as int, g as int);
    }
}

/// Any common divisor of `a` and `b` divides `spec_gcd(a, b)`.
pub proof fn lemma_gcd_greatest(a: nat, b: nat, d: nat)
    requires
        d > 0,
        a % d == 0,
        b % d == 0,
    ensures
        spec_gcd(a, b) % d == 0,
    decreases b,
{
    if b > 0 {
        let q = (a as int) / (b as int);
        lemma_fundamental_div_mod(a as int, b as int);
        lemma_mul_mod_noop_right(q, b as int, d as int);
        lemma_mul_is_commutative(q, b as int);
        lemma_mul_basics(q);
        lemma_small_mod(0, d);
        lemma_sub_mod_noop(a as int, (b as int) * q, d as int);
        lemma_gcd_greatest(b, a % b, d);
    }
}

/// A positive multiple is at least its divisor.
proof fn lemma_divisor_le(d: nat, x: nat)
    requires
        d > 0,
        x > 0,
        x % d == 0,
    ensures
        d <= x,
{
    lemma_fundamental_div_mod(x as int, d as int);
    let q = (x as int) / (d as int);
    lemma_mul_basics(d as int);
    vstd::arithmetic::div_mod::lemma_div_pos_is_pos(x as int, d as int);
    if q > 0 {
        lemma_mul_inequality(1, q, d as int);
        lemma_mul_is_commutative(q, d as int);
    }
}

/// Divisibility is transitive.
proof fn lemma_divides_transitive(d: nat, x: nat, y: nat)
    requires
        d > 0,
        x > 0,
        x % d == 0,
        y % x == 0,
    ensures
        y % d == 0,
{
    lemma_fundamental_div_mod(y as int, x as int);
    lemma_fundamental_div_mod(x as int, d as int);
    let qy = (y as int) / (x as int);
    let qx = (x as int) / (d as int);
    lemma_mul_is_associative(d as int, qx, qy);
    vstd::arithmetic::div_mod::lemma_mod_multiples_basic(qx * qy, d as int);
    lemma_mul_is_commutative(qx * qy, d as int);
}

/// Two positive numbers that divide each other are equal.
proof fn lemma_divides_antisymmetric(x: nat, y: nat)
    requires
        x > 0,
        y > 0,
        x % y == 0,
        y % x == 0,
    ensures
        x == y,
{
    lemma_divisor_le(y, x);
    lemma_divisor_le(x, y);
}

/// `spec_gcd` ignores a zero on the left.
proof fn lemma_gcd_zero_left(x: nat)
    ensures
        spec_gcd(0, x) == x,
{
    if x > 0 {
        lemma_small_mod(0, x);
        assert(spec_gcd(x, 0) == x);
    }
}

/// Folding law of the running GCD: the fold is commutative, so candidate
/// bins may be combined in any order.
pub proof fn lemma_gcd_commutative(a: nat, b: nat)
    ensures
        spec_gcd(a, b) == spec_gcd(b, a),
{
    if a == 0 && b == 0 {
    } else {
        let g1 = spec_gcd(a, b);
        let g2 = spec_gcd(b, a);
        lemma_gcd_divides(a, b);
        lemma_gcd_divides(b, a);
        lemma_gcd_greatest(b, a, g1);
        lemma_gcd_greatest(a, b, g2);
        lemma_divides_antisymmetric(g1, g2);
    }
}

/// Folding law of the running GCD: the fold is associative, so candidate
/// bins may be grouped in any order.
pub proof fn lemma_gcd_associative(a: nat, b: nat, c: nat)
    ensures
        spec_gcd(spec_gcd(a, b), c) == spec_gcd(a, spec_gcd(b, c)),
{
    if a == 0 && b == 0 {
        lemma_gcd_zero_left(c);
        lemma_gcd_zero_left(spec_gcd(0, c));
    } else if b == 0 && c == 0 {
    } else {
        let gab = spec_gcd(a, b);
        let gbc = spec_gcd(b, c);
        let l = spec_gcd(gab, c);
        let r = spec_gcd(a, gbc);
        lemma_gcd_divides(a, b);
        lemma_gcd_divides(b, c);
        lemma_gcd_divides(gab, c);
        lemma_gcd_divides(a, gbc);
        assert(l > 0);
        assert(r > 0);
        if gab > 0 {
            lemma_divides_transitive(l, gab, a);
            lemma_divides_transitive(l, gab, b);
        }
        lemma_gcd_greatest(b, c, l);
        lemma_gcd_greatest(a, gbc, l);
        if gbc > 0 {
            lemma_divides_transitive(r, gbc, b);
            lemma_divides_transitive(r, gbc, c);
        }
        lemma_gcd_greatest(a, b, r);
        lemma_gcd_greatest(gab, c, r);
        lemma_divides_antisymmetric(l, r);
    }
}

/// Euclid's algorithm for the greatest common divisor of two words.
pub fn pair_gcd(a: u64, b: u64) -> (r: u64)
    ensures
        r as nat == spec_gcd(a as nat, b as nat),
{
    let mut x = a;
    let mut y = b;
    while y > 0
        invariant
            spec_gcd(x as nat, y as nat) == spec_gcd(a as nat, b as nat),
        decreases y,
    {
        let t = x % y;
        x = y;
        y = t;
    }
    x
}

/// The `Gcd` transform, resolved at compile time for one unsigned
/// representation per instantiation.
#[derive(Clone, Copy, Debug)]
pub struct GcdMode;

/// Per-candidate aggregation state of the `Gcd` transform: the greatest
/// common divisor of every bin folded so far, or nothing before the first.
#[derive(Clone, Copy, Debug)]
pub struct GcdBinOptAccumulator {
    /// Running GCD over the folded bins' divisors.
    pub running_gcd: Option<u64>,
}

impl Default for GcdBinOptAccumulator {
    /// The empty aggregate: no bin folded yet.
    fn default() -> (r: Self)
        ensures
            r.running_gcd is None,
    {
        GcdBinOptAccumulator { running_gcd: None }
    }
}

impl GcdMode {
    /// Folds one candidate bin's divisor into the running GCD. By
    /// `lemma_gcd_commutative` and `lemma_gcd_associative`, the outcome does
    /// not depend on the order in which the optimizer folds candidates.
    pub fn combine_bin_opt_acc<U: UnsignedLike>(
        bin: &BinCompressionInfo<U>,
        acc: &mut GcdBinOptAccumulator,
    )
        ensures
            ({
                let folded: nat = match old(acc).running_gcd {
                    None => bin.gcd.as_nat(),
                    Some(prev) => spec_gcd(prev as nat, bin.gcd.as_nat()),
                };
                match final(acc).running_gcd {
                    Some(g) => g as nat == folded,
                    None => false,
                }
            }),
    {
        let g = bin.gcd.to_u64();
        acc.running_gcd = match acc.running_gcd {
            None => Some(g),
            Some(prev) => Some(pair_gcd(prev, g)),
        };
    }

    /// Finalizes a winning bin: stores the accumulated divisor (`1` when no
    /// bin was folded) and the bit width of the largest reduced offset,
    /// `bit_length((upper - lower) / gcd)`.
    pub fn fill_optimized_compression_info<U: UnsignedLike>(
        acc: GcdBinOptAccumulator,
        bin: &mut BinCompressionInfo<U>,
    )
        requires
            old(bin).wf(),
            match acc.running_gcd {
                Some(g) => {
                    &&& g >= 1
                    &&& (old(bin).upper.as_nat() - old(bin).lower.as_nat()) % (g as int) == 0
                    &&& (g as nat) < pow2(U::spec_bits() as nat)
                },
                None => true,
            },
        ensures
            ({
                let g: nat = match acc.running_gcd {
                    Some(g) => g as nat,
                    None => 1,
                };
                &&& final(bin).gcd.as_nat() == g
                &&& final(bin).offset_bits == bit_length(
                    ((old(bin).upper.as_nat() - old(bin).lower.as_nat()) as nat) / g,
                )
            }),
            final(bin).lower == old(bin).lower,
            final(bin).upper == old(bin).upper,
            final(bin).count == old(bin).count,
            final(bin).weight == old(bin).weight,
            final(bin).wf(),
    {
        proof {
            U::bits_bounds();
            bin.upper.as_nat_bound();
            lemma2_to64();
            if U::spec_bits() > 8 {
                lemma_pow2_strictly_increases(8, U::spec_bits() as nat);
            }
        }
        let g: u64 = match acc.running_gcd {
            None => 1,
            Some(prev) => prev,
        };
        let diff = bin.upper.to_u64() - bin.lower.to_u64();
        proof {
            lemma_div_nonincreasing(diff as int, g as int);
        }
        let reduced = diff / g;
        bin.gcd = U::from_u64(g);
        bin.offset_bits = bits_to_encode_offset(U::from_u64(reduced));
    }

    /// The within-bin quantity to encode: the value's distance above the
    /// bin's lower bound, in strides of the bin's divisor. The value must
    /// sit a whole number of strides above the lower bound, as every value
    /// assigned to a `Gcd` bin does.
    pub fn calc_offset<U: UnsignedLike>(u: U, bin: &BinCompressionInfo<U>) -> (r: U)
        requires
            bin.lower.as_nat() <= u.as_nat(),
            bin.gcd.as_nat() >= 1,
            (u.as_nat() - bin.lower.as_nat()) % (bin.gcd.as_nat() as int) == 0,
        ensures
            r.as_nat() == spec_calc_offset(
                Mode::<U>::Gcd,
                u.as_nat(),
                bin.lower.as_nat(),
                bin.gcd.as_nat(),
            ),
    {
        proof {
            u.as_nat_bound();
            lemma_div_nonincreasing((u.as_nat() - bin.lower.as_nat()) as int, bin.gcd.as_nat() as int);
        }
        U::from_u64((u.to_u64() - bin.lower.to_u64()) / bin.gcd.to_u64())
    }

    /// Fast-path reconstruction: reads the bin's offset bits and rescales
    /// them by the bin's divisor. The bin's range invariant keeps the
    /// arithmetic in the representation's domain whatever bits the stream
    /// holds, so a malformed stream can only produce a wrong value.
    pub fn unchecked_decompress_unsigned<U: UnsignedLike>(
        bin: &BinDecompressionInfo<U>,
        reader: &mut BitReader,
    ) -> (r: U)
        requires
            old(reader).wf(),
            bin.gcd.as_nat() >= 1,
            bin.in_range(bin.gcd.as_nat()),
            old(reader).pos() + bin.offset_bits <= old(reader).total_bits(),
        ensures
            final(reader).wf(),
            final(reader).data() == old(reader).data(),
            final(reader).pos() == old(reader).pos() + bin.offset_bits,
            r.as_nat() == spec_decompress(
                Mode::<U>::Gcd,
                spec_read(old(reader).data(), old(reader).pos() as int, bin.offset_bits as nat),
                bin.lower.as_nat(),
                bin.gcd.as_nat(),
            ),
    {
        proof {
            U::bits_bounds();
            lemma2_to64_rest();
            if U::spec_bits() < 64 {
                lemma_pow2_strictly_increases(U::spec_bits() as nat, 64);
            }
        }
        let offset = reader.unchecked_read_uint(bin.offset_bits);
        proof {
            lemma_mul_inequality(
                offset as int,
                pow2(bin.offset_bits as nat) as int - 1,
                bin.gcd.as_nat() as int,
            );
        }
        U::from_u64(bin.lower.to_u64() + offset * bin.gcd.to_u64())
    }

    /// Checked reconstruction: fails with `InsufficientData` (consuming
    /// nothing) when the stream is exhausted, and with `InvalidOffset` when
    /// the decoded offset, rescaled by the bin's divisor, would take the
    /// value outside the representation's domain; returns the reconstructed
    /// value exactly otherwise.
    pub fn decompress_unsigned<U: UnsignedLike>(
        bin: &BinDecompressionInfo<U>,
        reader: &mut BitReader,
    ) -> (r: PcoResult<U>)
        requires
            old(reader).wf(),
            bin.offset_bits <= U::spec_bits(),
            bin.gcd.as_nat() >= 1,
        ensures
            final(reader).wf(),
            final(reader).data() == old(reader).data(),
            ({
                let off = spec_read(
                    old(reader).data(),
                    old(reader).pos() as int,
                    bin.offset_bits as nat,
                );
                match r {
                    Ok(v) => {
                        &&& old(reader).pos() + bin.offset_bits <= old(reader).total_bits()
                        &&& bin.lower.as_nat() + off * bin.gcd.as_nat() < pow2(
                            U::spec_bits() as nat,
                        )
                        &&& v.as_nat() == spec_decompress(
                            Mode::<U>::Gcd,
                            off,
                            bin.lower.as_nat(),
                            bin.gcd.as_nat(),
                        )
                        &&& final(reader).pos() == old(reader).pos() + bin.offset_bits
                    },
                    Err(PcoError::InsufficientData) => {
                        &&& old(reader).pos() + bin.offset_bits > old(reader).total_bits()
                        &&& *final(reader) == *old(reader)
                    },
                    Err(PcoError::InvalidOffset) => {
                        &&& old(reader).pos() + bin.offset_bits <= old(reader).total_bits()
                        &&& bin.lower.as_nat() + off * bin.gcd.as_nat() >= pow2(
                            U::spec_bits() as nat,
                        )
                        &&& final(reader).pos() == old(reader).pos() + bin.offset_bits
                    },
                }
            }),
    {
        proof {
            U::bits_bounds();
            bin.lower.as_nat_bound();
            bin.gcd.as_nat_bound();
        }
        match reader.read_uint(bin.offset_bits) {
            Err(_) => Err(PcoError::InsufficientData),
            Ok(offset) => {
                let lower = bin.lower.to_u64();
                let g = bin.gcd.to_u64();
                let max = U::max_u64();
                proof {
                    vstd::arithmetic::mul::lemma_mul_upper_bound(
                        offset as int,
                        u64::MAX as int,
                        g as int,
                        u64::MAX as int,
                    );
                }
                let scaled: u128 = (offset as u128) * (g as u128);
                let total: u128 = scaled + (lower as u128);
                if total > max as u128 {
                    Err(PcoError::InvalidOffset)
                } else {
                    Ok(U::from_u64(total as u64))
                }
            },
        }
    }
}

} // verus!
