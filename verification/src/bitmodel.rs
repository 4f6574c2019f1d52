//! Mathematical model of bit streams.
//!
//! The packed token records of the memdb are bit strings: fields of a given
//! width are laid out most significant bit first, and the resulting stream is
//! stored eight bits per byte, again most significant bit first.  This module
//! defines the bit string of a field, the bit string held by a byte buffer,
//! and the value a bit string denotes, together with the lemmas that relate
//! them.

use vstd::prelude::*;
use vstd::arithmetic::power2::*;

verus! {

/// Bit `i` (counting from the least significant end) of a 32-bit value.
pub open spec fn u32_bit(v: u32, i: u32) -> bool {
    (v >> i) & 1 == 1
}

/// Bit `i` (counting from the least significant end) of a byte.
pub open spec fn u8_bit(b: u8, i: u8) -> bool {
    (b >> i) & 1 == 1
}

/// The low `k` bits of `v`, most significant first.
pub open spec fn field_bits(v: u32, k: nat) -> Seq<bool> {
    Seq::new(k, |i: int| u32_bit(v, (k - 1 - i) as u32))
}

/// All bits of a byte sequence, each byte most significant bit first.
pub open spec fn bytes_bits(s: Seq<u8>) -> Seq<bool> {
    Seq::new(s.len() * 8, |i: int| u8_bit(s[i / 8], (7 - (i % 8)) as u8))
}

/// Bit `i` of a byte sequence, reading zeros past either end.
pub open spec fn padded_bit(s: Seq<u8>, i: int) -> bool {
    if 0 <= i < s.len() * 8 {
        bytes_bits(s)[i]
    } else {
        false
    }
}

/// Bits `a` (inclusive) to `b` (exclusive) of a byte sequence, zero padded.
pub open spec fn padded_bits(s: Seq<u8>, a: int, b: int) -> Seq<bool> {
    Seq::new(if b >= a { (b - a) as nat } else { 0 }, |i: int| padded_bit(s, a + i))
}

/// The value of a bit string read most significant bit first.
pub open spec fn bits_val(s: Seq<bool>) -> nat
    decreases s.len(),
{
    if s.len() == 0 {
        0
    } else {
        2 * bits_val(s.drop_last()) + (if s.last() {
            1nat
        } else {
            0nat
        })
    }
}

/// The number of bits needed to represent `x`; zero for `x == 0`.
pub open spec fn bit_len(x: nat) -> nat
    decreases x,
{
    if x == 0 {
        0
    } else {
        1 + bit_len(x / 2)
    }
}

/// A bit string denotes a value below two to its length.
pub proof fn lemma_bits_val_bound(s: Seq<bool>)
    ensures
        bits_val(s) < pow2(s.len()),
    decreases s.len(),
{
    if s.len() == 0 {
        lemma2_to64();
    } else {
        lemma_bits_val_bound(s.drop_last());
        lemma_pow2_unfold(s.len());
    }
}

/// Reading back the bit string of a field yields the field.
pub proof fn lemma_field_bits_val(v: u32, k: nat)
    requires
        k <= 32,
        (v as nat) < pow2(k),
    ensures
        bits_val(field_bits(v, k)) == v as nat,
    decreases k,
{
    if k == 0 {
        lemma2_to64();
        assert(field_bits(v, 0) =~= Seq::<bool>::empty());
    } else {
        let h = v >> 1u32;
        assert(field_bits(v, k).drop_last() =~= field_bits(h, (k - 1) as nat)) by {
            assert forall|i: int| 0 <= i < k - 1 implies field_bits(v, k)[i] == field_bits(
                h,
                (k - 1) as nat,
            )[i] by {
                let j = (k - 2 - i) as u32;
                assert(((v >> 1u32) >> j) & 1 == (v >> (j + 1)) & 1) by (bit_vector)
                    requires
                        j < 31u32,
                ;
            }
        }
        assert(v >> 1u32 == v / 2) by (bit_vector);
        lemma_pow2_unfold(k);
        assert((h as nat) < pow2((k - 1) as nat));
        lemma_field_bits_val(h, (k - 1) as nat);
        assert(field_bits(v, k).last() == u32_bit(v, 0));
        assert(((v >> 0u32) & 1 == 1) == (v % 2 == 1)) by (bit_vector);
        assert(bits_val(field_bits(v, k)) == 2 * (v / 2) + v % 2);
    }
}

/// `bit_len` characterizes which values fit in a field of `k` bits.
pub proof fn lemma_bit_len_le(x: nat, k: nat)
    ensures
        (bit_len(x) <= k) == (x < pow2(k)),
    decreases k,
{
    if k == 0 {
        lemma2_to64();
    } else {
        lemma_bit_len_le(x / 2, (k - 1) as nat);
        lemma_pow2_unfold(k);
    }
}

/// Shifting away `k` low bits drops `k` from the bit length.
pub proof fn lemma_bit_len_shr(x: nat, k: nat)
    requires
        x / pow2(k) > 0,
    ensures
        bit_len(x) == bit_len(x / pow2(k)) + k,
    decreases k,
{
    if k == 0 {
        lemma2_to64();
    } else {
        lemma_pow2_unfold(k);
        lemma_pow2_pos((k - 1) as nat);
        assert(x / pow2(k) == x / 2 / pow2((k - 1) as nat)) by {
            vstd::arithmetic::div_mod::lemma_div_denominator(
                x as int,
                2,
                pow2((k - 1) as nat) as int,
            );
        }
        lemma_bit_len_shr(x / 2, (k - 1) as nat);
    }
}

} // verus!
