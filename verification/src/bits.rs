//! Bit strings inside byte strings: what a run of bits spells as a number,
//! and the facts about single bits that the packed counters rest on.

use vstd::arithmetic::power2::{lemma2_to64, lemma_pow2_unfold, pow2};
use vstd::prelude::*;

verus! {

/// Bit `k` of the byte `x`, bit 0 being the least significant.
pub open spec fn byte_bit(x: u8, k: int) -> bool {
    (x >> (k as u8)) & 1 == 1
}

/// Bit `k` of the word `v`, bit 0 being the least significant.
pub open spec fn word_bit(v: u32, k: int) -> bool {
    (v >> (k as u32)) & 1 == 1
}

/// Bit `pos` of the byte string `data`, read as one stream of bits in which
/// bit 0 of byte 0 comes first.
pub open spec fn bit_at(data: Seq<u8>, pos: int) -> bool {
    byte_bit(data[pos / 8], pos % 8)
}

/// The number written in binary by the `length` bits of `data` that start at
/// bit `offset`, least significant bit first.
pub open spec fn bits_value(data: Seq<u8>, offset: int, length: nat) -> nat
    decreases length,
{
    if length == 0 {
        0
    } else {
        (if bit_at(data, offset) { 1nat } else { 0nat })
            + 2 * bits_value(data, offset + 1, (length - 1) as nat)
    }
}

/// The largest number that fits in `width` bits.
pub open spec fn max_of_width(width: nat) -> nat {
    (pow2(width) - 1) as nat
}

/// A run of `length` bits spells a number below two to the `length`.
pub proof fn lemma_bits_value_bound(data: Seq<u8>, offset: int, length: nat)
    ensures
        bits_value(data, offset, length) < pow2(length),
    decreases length,
{
    if length == 0 {
        lemma2_to64();
    } else {
        lemma_bits_value_bound(data, offset + 1, (length - 1) as nat);
        lemma_pow2_unfold(length);
    }
}

/// Two byte strings that agree on every bit of a run spell the same number
/// there.
pub proof fn lemma_bits_value_agree(a: Seq<u8>, b: Seq<u8>, offset: int, length: nat)
    requires
        forall|j: int| offset <= j < offset + length ==> bit_at(a, j) == bit_at(b, j),
    ensures
        bits_value(a, offset, length) == bits_value(b, offset, length),
    decreases length,
{
    if length > 0 {
        lemma_bits_value_agree(a, b, offset + 1, (length - 1) as nat);
    }
}

/// A run of bits that matches the low bits of a word, bit for bit, spells
/// that word, provided the word has no higher bit set.
pub proof fn lemma_bits_value_is_word(data: Seq<u8>, offset: int, length: nat, v: u32)
    requires
        length <= 32,
        forall|j: int| 0 <= j < length ==> bit_at(data, offset + j) == #[trigger] word_bit(v, j),
        v >> (length as u32) == 0,
    ensures
        bits_value(data, offset, length) == v,
    decreases length,
{
    let n = length as u32;
    if length == 0 {
        assert(v == 0) by (bit_vector)
            requires
                v >> n == 0,
                n == 0,
        ;
    } else {
        let rest = v >> 1;
        let m = (length - 1) as u32;
        assert(rest >> m == 0) by (bit_vector)
            requires
                v >> n == 0,
                1 <= n <= 32,
                m == n - 1,
                rest == v >> 1,
        ;
        assert forall|j: int| 0 <= j < length - 1 implies bit_at(data, offset + 1 + j)
            == #[trigger] word_bit(rest, j) by {
            let s = j as u32;
            let t = (j + 1) as u32;
            assert(((rest >> s) & 1) == ((v >> t) & 1)) by (bit_vector)
                requires
                    rest == v >> 1,
                    s < 31,
                    t == s + 1,
            ;
            assert(bit_at(data, offset + (j + 1)) == word_bit(v, j + 1));
        }
        lemma_bits_value_is_word(data, offset + 1, (length - 1) as nat, rest);
        assert(v == (v & 1) + 2 * rest) by (bit_vector)
            requires
                rest == v >> 1,
        ;
        assert(v & 1 == (v >> 0u32) & 1) by (bit_vector);
        assert(v & 1 == 0 || v & 1 == 1) by (bit_vector);
        assert(bit_at(data, offset + 0) == word_bit(v, 0));
    }
}

} // verus!
