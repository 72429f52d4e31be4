//! Bit arithmetic utilities: ceiling division, portable little-endian word
//! serialization, and bit-width calculations for bin offsets.

use vstd::prelude::*;
use vstd::arithmetic::div_mod::lemma_basic_div;
use vstd::arithmetic::div_mod::lemma_div_denominator;
use vstd::arithmetic::div_mod::lemma_fundamental_div_mod;
use vstd::arithmetic::div_mod::lemma_mod_division_less_than_divisor;
use vstd::arithmetic::div_mod::lemma_multiply_divide_lt;
use vstd::arithmetic::mul::lemma_mul_is_distributive_add_other_way;
use vstd::arithmetic::power2::lemma2_to64;
use vstd::arithmetic::power2::lemma2_to64_rest;
use vstd::arithmetic::power2::lemma_pow2_adds;
use vstd::arithmetic::power2::lemma_pow2_pos;
use vstd::arithmetic::power2::pow2;
use crate::constants::Bitlen;
use crate::data_types::UnsignedLike;

verus! {

/// Number of bits needed to represent every integer in `[0, n]`: the position
/// of the highest set bit of `n`, plus one; `0` when `n == 0`.
pub open spec fn bit_length(n: nat) -> nat
    decreases n,
{
    if n == 0 {
        0
    } else {
        1 + bit_length(n / 2)
    }
}

/// `bit_length(n)` is exactly the exponent that pins `n` between two powers
/// of two: `n < pow2(bit_length(n))`, and when `n > 0`,
/// `pow2(bit_length(n) - 1) <= n`.
pub proof fn lemma_bit_length(n: nat)
    ensures
        n < pow2(bit_length(n)),
        n > 0 ==> pow2((bit_length(n) - 1) as nat) <= n,
    decreases n,
{
    lemma2_to64();
    if n > 0 {
        lemma_bit_length(n / 2);
        lemma_pow2_adds((bit_length(n / 2)) as nat, 1);
        assert(n < pow2(bit_length(n))) by {
            assert(n <= 2 * (n / 2) + 1);
            assert(pow2(bit_length(n)) == 2 * pow2(bit_length(n / 2)));
        }
        if n / 2 == 0 {
            assert(pow2((bit_length(n) - 1) as nat) == 1);
        } else {
            lemma_pow2_adds((bit_length(n / 2) - 1) as nat, 1);
            assert(pow2((bit_length(n) - 1) as nat) == 2 * pow2((bit_length(n / 2) - 1) as nat));
        }
    }
}

/// Any bound by a power of two bounds the bit length by its exponent.
pub proof fn lemma_bit_length_le(n: nat, b: nat)
    requires
        n < pow2(b),
    ensures
        bit_length(n) <= b,
    decreases n,
{
    lemma2_to64();
    if n > 0 {
        if b == 0 {
            assert(pow2(0) == 1);
        } else {
            lemma_pow2_adds((b - 1) as nat, 1);
            assert(pow2(b) == 2 * pow2((b - 1) as nat));
            lemma_bit_length_le(n / 2, (b - 1) as nat);
        }
    }
}

/// `bit_length` at and just below a power of two: encoding offsets up to
/// `pow2(k) - 1` takes `k` bits, and reaching `pow2(k)` itself takes one more.
pub proof fn lemma_bit_length_pow2(k: nat)
    ensures
        bit_length(0) == 0,
        bit_length((pow2(k) - 1) as nat) == k,
        bit_length(pow2(k)) == k + 1,
    decreases k,
{
    lemma2_to64();
    if k == 0 {
        assert(bit_length(1) == 1 + bit_length(0));
    } else {
        lemma_bit_length_pow2((k - 1) as nat);
        lemma_pow2_adds((k - 1) as nat, 1);
        lemma_pow2_pos((k - 1) as nat);
        assert(pow2(k) == 2 * pow2((k - 1) as nat));
        assert((pow2(k) - 1) / 2 == pow2((k - 1) as nat) - 1) by {
            lemma_fundamental_div_mod(pow2(k) as int - 1, 2);
            lemma_mod_division_less_than_divisor(pow2(k) as int - 1, 2);
            assert(pow2(k) as int - 1 == 2 * (pow2((k - 1) as nat) - 1) + 1);
            lemma_fundamental_div_mod_uniqueness(
                pow2(k) as int - 1,
                2,
                pow2((k - 1) as nat) as int - 1,
                1,
            );
        }
        assert(pow2(k) / 2 == pow2((k - 1) as nat)) by {
            lemma_fundamental_div_mod_uniqueness(pow2(k) as int, 2, pow2((k - 1) as nat) as int, 0);
        }
        assert(bit_length((pow2(k) - 1) as nat) == 1 + bit_length((pow2((k - 1) as nat) - 1) as nat));
        assert(bit_length(pow2(k)) == 1 + bit_length(pow2((k - 1) as nat)));
    }
}

/// A flattened index into an earlier word's bytes lies before the current
/// word's bytes.
proof fn lemma_index_in_prefix(a: int, b: int, i: int, wb: int)
    requires
        0 <= a < i,
        0 <= b < wb,
    ensures
        0 <= a * wb + b,
        a * wb + b < i * wb,
{
    vstd::arithmetic::mul::lemma_mul_inequality(a + 1, i, wb);
    lemma_mul_is_distributive_add_other_way(wb, a, 1);
    vstd::arithmetic::mul::lemma_mul_nonnegative(a, wb);
}

/// When `x == d * q + r` with `0 <= r < d`, the quotient and remainder of `x`
/// by `d` are exactly `q` and `r`.
proof fn lemma_fundamental_div_mod_uniqueness(x: int, d: int, q: int, r: int)
    requires
        d > 0,
        0 <= r < d,
        x == d * q + r,
    ensures
        x / d == q,
        x % d == r,
{
    lemma_fundamental_div_mod(x, d);
    lemma_mod_division_less_than_divisor(x, d);
    let q2 = x / d;
    let r2 = x % d;
    assert(d * q + r == d * q2 + r2);
    assert(q == q2) by (nonlinear_arith)
        requires
            d > 0,
            0 <= r < d,
            0 <= r2 < d,
            d * q + r == d * q2 + r2,
    ;
}

/// Ceiling division as the utilities compute it.
pub open spec fn spec_ceil_div(x: nat, divisor: nat) -> nat
    recommends
        divisor > 0,
{
    (x + divisor - 1) as nat / divisor
}

/// Ceiling integer division: the least `r` with `divisor * r >= x`.
pub fn ceil_div(x: usize, divisor: usize) -> (r: usize)
    requires
        divisor > 0,
        x + divisor <= usize::MAX,
    ensures
        r == spec_ceil_div(x as nat, divisor as nat),
        divisor * r >= x,
        r > 0 ==> divisor * (r - 1) < x,
        x == 0 ==> r == 0,
        divisor == 1 ==> r == x,
{
    proof {
        let s = x as int + divisor as int - 1;
        let d = divisor as int;
        lemma_fundamental_div_mod(s, d);
        lemma_mod_division_less_than_divisor(s, d);
        vstd::arithmetic::mul::lemma_mul_is_distributive_sub(d, s / d, 1);
        assert(d * (s / d - 1) == d * (s / d) - d);
        if x == 0 {
            lemma_basic_div(s, d);
        }
        if divisor == 1 {
            vstd::arithmetic::mul::lemma_mul_basics(s / d);
        }
    }
    (x + divisor - 1) / divisor
}

/// Number of bytes in one serialized machine word.
pub open spec fn word_bytes() -> nat {
    (usize::BITS / 8) as nat
}

/// Byte `j` (counting from the least significant) of the little-endian
/// serialization of a word of value `w`.
pub open spec fn le_byte(w: nat, j: nat) -> nat {
    (w / pow2(8 * j)) % 256
}

/// `bytes` is the little-endian serialization of `words`: word `i` occupies
/// bytes `[i * word_bytes(), (i + 1) * word_bytes())`, least significant byte
/// first, regardless of the host machine's native byte order.
pub open spec fn bytes_encode_words(words: Seq<usize>, bytes: Seq<u8>) -> bool {
    &&& bytes.len() == words.len() * word_bytes()
    &&& forall|i: int, j: int|
        0 <= i < words.len() && 0 <= j < word_bytes() ==> bytes[i * (word_bytes() as int) + j]
            == #[trigger] le_byte(words[i] as nat, j as nat)
}

/// Serializes machine words into bytes in little-endian byte order,
/// independent of the host machine's native endianness, so that persisted bit
/// buffers are portable.
pub fn words_to_bytes(words: &[usize]) -> (r: Vec<u8>)
    ensures
        bytes_encode_words(words@, r@),
        r@.len() == words@.len() * word_bytes(),
{
    let w_bytes: usize = (usize::BITS / 8) as usize;
    let mut r: Vec<u8> = Vec::new();
    let mut i: usize = 0;
    proof {
        assert(0int * (word_bytes() as int) == 0) by (nonlinear_arith);
    }
    while i < words.len()
        invariant
            i <= words@.len(),
            w_bytes == word_bytes(),
            r@.len() == i * word_bytes(),
            forall|a: int, b: int|
                0 <= a < i && 0 <= b < word_bytes() ==> r@[a * (word_bytes() as int) + b]
                    == #[trigger] le_byte(words@[a] as nat, b as nat),
        decreases words@.len() - i,
    {
        let w = words[i];
        let ghost wv = w as nat;
        let mut cur: usize = w;
        let mut j: usize = 0;
        proof {
            lemma2_to64();
            assert(cur as nat == wv / pow2(0));
        }
        while j < w_bytes
            invariant
                j <= w_bytes,
                w_bytes == word_bytes(),
                i < words@.len(),
                wv == words@[i as int] as nat,
                cur as nat == wv / pow2((8 * j) as nat),
                r@.len() == i * word_bytes() + j,
                forall|a: int, b: int|
                    0 <= a < i && 0 <= b < word_bytes() ==> r@[a * (word_bytes() as int) + b]
                        == #[trigger] le_byte(words@[a] as nat, b as nat),
                forall|b: int|
                    0 <= b < j ==> r@[i * (word_bytes() as int) + b] == #[trigger] le_byte(
                        wv,
                        b as nat,
                    ),
            decreases w_bytes - j,
        {
            let ghost prev = r@;
            r.push((cur % 256) as u8);
            proof {
                lemma2_to64();
                lemma_pow2_pos((8 * j) as nat);
                let wb = word_bytes() as int;
                assert(r@[i * wb + j] == (cur % 256) as u8);
                assert((cur % 256) as nat == le_byte(wv, j as nat));
                assert forall|a: int, b: int|
                    0 <= a < i && 0 <= b < word_bytes() implies r@[a * (word_bytes() as int) + b]
                    == #[trigger] le_byte(words@[a] as nat, b as nat) by {
                    lemma_index_in_prefix(a, b, i as int, wb);
                    vstd::arithmetic::mul::lemma_mul_inequality(a + 1, i as int, wb);
                    assert(r@[a * wb + b] == prev[a * wb + b]);
                }
                assert forall|b: int|
                    0 <= b < j + 1 implies r@[i * (word_bytes() as int) + b] == #[trigger] le_byte(
                    wv,
                    b as nat,
                ) by {
                    if b < j {
                        assert(r@[i * wb + b] == prev[i * wb + b]);
                    }
                }
                lemma_div_denominator(wv as int, pow2((8 * j) as nat) as int, 256);
                lemma_pow2_adds((8 * j) as nat, 8);
                assert((cur as nat / 256) == wv / pow2((8 * (j + 1)) as nat));
            }
            cur = cur / 256;
            j = j + 1;
        }
        proof {
            lemma_mul_is_distributive_add_other_way(word_bytes() as int, i as int, 1);
            assert((i + 1) as int * (word_bytes() as int) == i * (word_bytes() as int)
                + word_bytes());
            assert forall|a: int, b: int|
                0 <= a < i + 1 && 0 <= b < word_bytes() implies r@[a * (word_bytes() as int) + b]
                == #[trigger] le_byte(words@[a] as nat, b as nat) by {
            }
        }
        i = i + 1;
    }
    r
}

/// Value of a byte sequence read back as one little-endian word.
pub open spec fn le_word(bytes: Seq<u8>) -> nat
    decreases bytes.len(),
{
    if bytes.len() == 0 {
        0
    } else {
        bytes[0] as nat + 256 * le_word(bytes.subrange(1, bytes.len() as int))
    }
}

/// A value below `pow2(8 * len)` is recovered exactly from its little-endian
/// bytes.
proof fn lemma_le_bytes_value(w: nat, b: Seq<u8>)
    requires
        w < pow2(8 * b.len()),
        forall|j: int| 0 <= j < b.len() ==> b[j] == #[trigger] le_byte(w, j as nat),
    ensures
        le_word(b) == w,
    decreases b.len(),
{
    lemma2_to64();
    if b.len() == 0 {
        assert(pow2(0) == 1);
    } else {
        let t = b.subrange(1, b.len() as int);
        let w2 = w / 256;
        assert forall|j: int| 0 <= j < t.len() implies t[j] == #[trigger] le_byte(w2, j as nat) by {
            assert(b[j + 1] == le_byte(w, (j + 1) as nat));
            lemma_pow2_pos((8 * j) as nat);
            lemma_div_denominator(w as int, 256, pow2((8 * j) as nat) as int);
            lemma_pow2_adds(8, (8 * j) as nat);
            assert(w2 / pow2((8 * j) as nat) == w / pow2((8 * (j + 1)) as nat));
        }
        lemma_pow2_adds(8, (8 * (b.len() - 1)) as nat);
        lemma_pow2_pos((8 * (b.len() - 1)) as nat);
        lemma_multiply_divide_lt(w as int, pow2((8 * (b.len() - 1)) as nat) as int, 256);
        lemma_le_bytes_value(w2, t);
        assert(b[0] == le_byte(w, 0));
        assert(le_byte(w, 0) == w % 256) by {
            assert(pow2(0) == 1);
            vstd::arithmetic::div_mod::lemma_div_basics(w as int);
        }
        lemma_fundamental_div_mod(w as int, 256);
    }
}

/// Round-trip law of the serialization: reinterpreting the output of
/// `words_to_bytes` as little-endian words reproduces the original word
/// sequence, on any host. `i` picks the word examined.
pub proof fn lemma_words_to_bytes_round_trip(words: Seq<usize>, bytes: Seq<u8>, i: int)
    requires
        bytes_encode_words(words, bytes),
        0 <= i < words.len(),
    ensures
        le_word(
            bytes.subrange(i * (word_bytes() as int), (i + 1) * (word_bytes() as int)),
        ) == words[i],
{
    let wb = word_bytes() as int;
    let s = bytes.subrange(i * wb, (i + 1) * wb);
    assert((i + 1) * wb == i * wb + wb) by {
        lemma_mul_is_distributive_add_other_way(wb, i, 1);
    }
    assert(i * wb + wb <= words.len() * wb) by {
        vstd::arithmetic::mul::lemma_mul_inequality(i + 1, words.len() as int, wb);
    }
    assert(s.len() == word_bytes());
    assert forall|j: int| 0 <= j < s.len() implies s[j] == #[trigger] le_byte(
        words[i] as nat,
        j as nat,
    ) by {
        assert(s[j] == bytes[i * wb + j]);
    }
    assert(words[i] < pow2(8 * word_bytes())) by {
        lemma2_to64();
        lemma2_to64_rest();
        assert(8 * word_bytes() == usize::BITS);
    }
    lemma_le_bytes_value(words[i] as nat, s);
}

/// Number of bits needed to encode any offset in `[0, max_offset]`: the
/// position of the highest set bit of `max_offset`, plus one (`0` when
/// `max_offset == 0`).
pub fn bits_to_encode_offset<U: UnsignedLike>(max_offset: U) -> (r: Bitlen)
    ensures
        r == bit_length(max_offset.as_nat()),
{
    bit_length_u64(max_offset.to_u64())
}

/// Number of bits needed to store any value that `bits_to_encode_offset` can
/// return for the representation `U`, i.e. `bit_length(U::BITS)`.
pub fn bits_to_encode_offset_bits<U: UnsignedLike>() -> (r: Bitlen)
    ensures
        r == bit_length(U::spec_bits() as nat),
{
    bit_length_u64(U::bits() as u64)
}

/// Computes `bit_length` of a 64-bit value by repeated halving.
fn bit_length_u64(x: u64) -> (r: u32)
    ensures
        r == bit_length(x as nat),
        r <= 64,
{
    proof {
        lemma2_to64_rest();
        lemma_bit_length_le(x as nat, 64);
    }
    let mut m: u64 = x;
    let mut k: u32 = 0;
    while m > 0
        invariant
            k + bit_length(m as nat) == bit_length(x as nat),
            bit_length(x as nat) <= 64,
        decreases m,
    {
        m = m / 2;
        k = k + 1;
    }
    k
}

} // verus!
