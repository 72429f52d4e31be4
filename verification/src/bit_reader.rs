//! A little-endian bitstream reader: hands out the next `n` bits of a byte
//! buffer as an unsigned value, least significant bit first.

use vstd::prelude::*;
use vstd::arithmetic::div_mod::lemma_multiply_divide_lt;
use vstd::arithmetic::power2::lemma2_to64;
use vstd::arithmetic::power2::lemma2_to64_rest;
use vstd::arithmetic::power2::lemma_pow2_adds;
use vstd::arithmetic::power2::lemma_pow2_strictly_increases;
use vstd::arithmetic::power2::pow2;
use vstd::bits::lemma_u64_low_bits_mask_is_mod;
use vstd::bits::lemma_u64_shl_is_mul;
use vstd::bits::lemma_u64_shr_is_div;
use vstd::bits::lemma_low_bits_mask_values;
use crate::constants::Bitlen;
use crate::errors::PcoError;
use crate::errors::PcoResult;

verus! {

/// Bit `i` of the stream: bit `i % 8` (counting from the least significant)
/// of byte `i / 8`.
pub open spec fn spec_bit(data: Seq<u8>, i: int) -> bool
    recommends
        0 <= i < data.len() * 8,
{
    (data[i / 8] as nat / pow2((i % 8) as nat)) % 2 == 1
}

/// Value of the `n` bits of the stream starting at position `pos`, least
/// significant bit first.
pub open spec fn spec_read(data: Seq<u8>, pos: int, n: nat) -> nat
    decreases n,
{
    if n == 0 {
        0
    } else {
        spec_read(data, pos, (n - 1) as nat) + if spec_bit(data, pos + n - 1) {
            pow2((n - 1) as nat)
        } else {
            0
        }
    }
}

/// `n` bits read back as a value stay below `pow2(n)`.
pub proof fn lemma_spec_read_bound(data: Seq<u8>, pos: int, n: nat)
    ensures
        spec_read(data, pos, n) < pow2(n),
    decreases n,
{
    lemma2_to64();
    if n > 0 {
        lemma_spec_read_bound(data, pos, (n - 1) as nat);
        lemma_pow2_adds((n - 1) as nat, 1);
    }
}

/// Reads a byte buffer bit by bit, in little-endian bit order.
pub struct BitReader {
    bytes: Vec<u8>,
    bit_idx: usize,
}

impl BitReader {
    /// The underlying bytes.
    pub closed spec fn data(self) -> Seq<u8> {
        self.bytes@
    }

    /// The current bit position.
    pub closed spec fn pos(self) -> nat {
        self.bit_idx as nat
    }

    /// Total number of bits in the buffer.
    pub open spec fn total_bits(self) -> nat {
        self.data().len() * 8
    }

    /// The position lies within the buffer, whose bit count fits the machine.
    pub open spec fn wf(self) -> bool {
        &&& self.pos() <= self.total_bits()
        &&& 8 * self.data().len() <= usize::MAX
    }

    /// Starts reading `bytes` from the first bit. The buffer's bit count must
    /// fit in `usize`.
    pub fn new(bytes: Vec<u8>) -> (r: Self)
        requires
            8 * bytes@.len() <= usize::MAX,
        ensures
            r.wf(),
            r.data() == bytes@,
            r.pos() == 0,
    {
        BitReader { bytes, bit_idx: 0 }
    }

    /// Number of bits not yet read.
    pub fn bits_remaining(&self) -> (r: usize)
        requires
            self.wf(),
        ensures
            r == self.total_bits() - self.pos(),
    {
        self.bytes.len() * 8 - self.bit_idx
    }

    /// Reads the next `n` bits as an unsigned value, least significant bit
    /// first, assuming the stream is long enough.
    pub fn unchecked_read_uint(&mut self, n: Bitlen) -> (r: u64)
        requires
            old(self).wf(),
            n <= 64,
            old(self).pos() + n <= old(self).total_bits(),
        ensures
            final(self).wf(),
            final(self).data() == old(self).data(),
            final(self).pos() == old(self).pos() + n,
            r as nat == spec_read(old(self).data(), old(self).pos() as int, n as nat),
            r < pow2(n as nat),
    {
        let ghost data = self.bytes@;
        let ghost start = self.bit_idx as int;
        let mut r: u64 = 0;
        let mut k: u32 = 0;
        while k < n
            invariant
                self.bytes@ == data,
                k <= n,
                n <= 64,
                self.bit_idx == start + k,
                start + n <= data.len() * 8,
                8 * data.len() <= usize::MAX,
                r as nat == spec_read(data, start, k as nat),
            decreases n - k,
        {
            proof {
                lemma_spec_read_bound(data, start, k as nat);
                lemma_multiply_divide_lt(self.bit_idx as int, data.len() as int, 8);
            }
            let i = self.bit_idx;
            let byte: u8 = self.bytes[i / 8];
            let sh: u32 = (i % 8) as u32;
            let bit: u64 = ((byte as u64) >> (sh as u64)) & 1;
            proof {
                lemma_u64_shr_is_div(byte as u64, sh as u64);
                lemma_low_bits_mask_values();
                lemma_u64_low_bits_mask_is_mod((byte as u64) >> (sh as u64), 1);
                lemma2_to64();
                assert(bit as nat == (byte as nat / pow2(sh as nat)) % 2);
                assert(bit == 1 <==> spec_bit(data, start + k));
                lemma2_to64_rest();
                lemma_pow2_strictly_increases(k as nat, 64);
                vstd::arithmetic::mul::lemma_mul_basics(pow2(k as nat) as int);
                lemma_u64_shl_is_mul(1u64, k as u64);
                lemma_pow2_adds(k as nat, 1);
                if k + 1 < 64 {
                    lemma_pow2_strictly_increases((k + 1) as nat, 64);
                }
                assert(r + pow2(k as nat) < pow2((k + 1) as nat));
            }
            if bit == 1 {
                r = r + (1u64 << k);
            }
            self.bit_idx = i + 1;
            k = k + 1;
        }
        proof {
            lemma_spec_read_bound(data, start, n as nat);
        }
        r
    }

    /// Reads the next `n` bits as an unsigned value, least significant bit
    /// first; reports `InsufficientData` (and consumes nothing) when fewer
    /// than `n` bits are left.
    pub fn read_uint(&mut self, n: Bitlen) -> (r: PcoResult<u64>)
        requires
            old(self).wf(),
            n <= 64,
        ensures
            final(self).wf(),
            final(self).data() == old(self).data(),
            match r {
                Ok(v) => {
                    &&& old(self).pos() + n <= old(self).total_bits()
                    &&& final(self).pos() == old(self).pos() + n
                    &&& v as nat == spec_read(old(self).data(), old(self).pos() as int, n as nat)
                    &&& v < pow2(n as nat)
                },
                Err(e) => {
                    &&& e == PcoError::InsufficientData
                    &&& old(self).pos() + n > old(self).total_bits()
                    &&& *final(self) == *old(self)
                },
            },
    {
        let avail = self.bytes.len() * 8 - self.bit_idx;
        if (n as usize) > avail {
            Err(PcoError::InsufficientData)
        } else {
            Ok(self.unchecked_read_uint(n))
        }
    }
}

} // verus!
