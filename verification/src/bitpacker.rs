//! The bit codec: a writer that packs fields of arbitrary width into a
//! contiguous bit stream, and the symmetric reader.
//!
//! The writer accumulates bits in a 32-bit shift register from the most
//! significant bit downward and flushes the register big-endian into the
//! output, so the stream is stored eight bits per byte, most significant bit
//! first.  `write_id` and `read_id` additionally map the all-ones id
//! sentinel to the all-ones value of the field width.

use vstd::prelude::*;
use vstd::arithmetic::power2::*;
use crate::bitmodel::{
    bit_len, bits_val, bytes_bits, field_bits, lemma_bit_len_le, lemma_bit_len_shr,
    lemma_field_bits_val, padded_bit, padded_bits, u32_bit, u8_bit,
};

verus! {

/// A run of `n` zero bits.
pub open spec fn zero_bits(n: nat) -> Seq<bool> {
    Seq::new(n, |i: int| false)
}

/// Counts the leading zero bits of `x` (32 for `x == 0`).
pub fn clz(x: u32) -> (r: u32)
    ensures
        r == 32 - bit_len(x as nat),
{
    let mut x = x;
    let ghost x0 = x;
    let mut n: u32 = 32;
    let mut y: u32;

    proof {
        lemma2_to64();
        lemma_bit_len_le(x0 as nat, 32);
    }

    y = x >> 16;
    if y != 0 {
        proof {
            vstd::bits::lemma_u32_shr_is_div(x, 16);
            lemma_bit_len_shr(x as nat, 16);
        }
        n = n - 16;
        x = y;
    } else {
        proof {
            vstd::bits::lemma_u32_shr_is_div(x, 16);
            lemma_bit_len_le(x as nat, 16);
        }
    }
    assert(x < pow2(16) && bit_len(x0 as nat) == bit_len(x as nat) + 32 - n);

    y = x >> 8;
    if y != 0 {
        proof {
            vstd::bits::lemma_u32_shr_is_div(x, 8);
            lemma_bit_len_shr(x as nat, 8);
        }
        n = n - 8;
        x = y;
    } else {
        proof {
            vstd::bits::lemma_u32_shr_is_div(x, 8);
            lemma_bit_len_le(x as nat, 8);
        }
    }
    assert(x < pow2(8) && bit_len(x0 as nat) == bit_len(x as nat) + 32 - n);

    y = x >> 4;
    if y != 0 {
        proof {
            vstd::bits::lemma_u32_shr_is_div(x, 4);
            lemma_bit_len_shr(x as nat, 4);
        }
        n = n - 4;
        x = y;
    } else {
        proof {
            vstd::bits::lemma_u32_shr_is_div(x, 4);
            lemma_bit_len_le(x as nat, 4);
        }
    }
    assert(x < pow2(4) && bit_len(x0 as nat) == bit_len(x as nat) + 32 - n);

    y = x >> 2;
    if y != 0 {
        proof {
            vstd::bits::lemma_u32_shr_is_div(x, 2);
            lemma_bit_len_shr(x as nat, 2);
        }
        n = n - 2;
        x = y;
    } else {
        proof {
            vstd::bits::lemma_u32_shr_is_div(x, 2);
            lemma_bit_len_le(x as nat, 2);
        }
    }
    assert(x < pow2(2) && bit_len(x0 as nat) == bit_len(x as nat) + 32 - n);

    y = x >> 1;
    proof {
        vstd::bits::lemma_u32_shr_is_div(x, 1);
        reveal_with_fuel(bit_len, 4);
    }
    if y != 0 {
        n - 2
    } else {
        n - x
    }
}

/// The number of bits required to represent `x` (0 for `x == 0`).
pub fn iclz(x: u32) -> (r: u32)
    ensures
        r == bit_len(x as nat),
{
    proof {
        lemma2_to64();
        lemma_bit_len_le(x as nat, 32);
    }
    32 - clz(x)
}

/// The width an id field needs: one extra bit is reserved so that the
/// all-ones value of the field can encode the absent-id sentinel `!0`.
pub open spec fn id_bit_len(x: u32) -> nat {
    if x == !0u32 {
        1
    } else {
        bit_len(x as nat) + 1
    }
}

proof fn bv_one_shl_pos(k: u32)
    by (bit_vector)
    requires
        k < 32,
    ensures
        1u32 << k >= 1,
{
}

proof fn bv_mask_facts(v: u32, m: u32, k: u32)
    by (bit_vector)
    requires
        1 <= k < 32,
        m == (1u32 << k) - 1,
    ensures
        ((v & m) >> k) == 0,
        forall|q: u32| q < k ==> (((v & m) >> q) & 1) == ((v >> q) & 1),
{
}

proof fn bv_pack_high(reg: u32, mv: u32, s: u32, k: u32, p: u32)
    by (bit_vector)
    requires
        1 <= k <= 32,
        s + k <= 32,
        k < 32 ==> mv >> k == 0,
        s + k <= p < 32,
    ensures
        (((reg | (mv << s)) >> p) & 1) == ((reg >> p) & 1),
{
}

proof fn bv_pack_field(reg: u32, mv: u32, s: u32, k: u32, q: u32)
    by (bit_vector)
    requires
        1 <= k <= 32,
        s + k <= 32,
        q < k,
        if s + k == 32 {
            reg == 0
        } else {
            ((reg >> ((s + k) as u32)) << ((s + k) as u32)) == reg
        },
    ensures
        (((reg | (mv << s)) >> ((s + q) as u32)) & 1) == ((mv >> q) & 1),
{
}

proof fn bv_pack_wf(reg: u32, mv: u32, s: u32, k: u32)
    by (bit_vector)
    requires
        1 <= k <= 32,
        s + k <= 32,
        if s + k == 32 {
            reg == 0
        } else {
            ((reg >> ((s + k) as u32)) << ((s + k) as u32)) == reg
        },
    ensures
        (((reg | (mv << s)) >> s) << s) == (reg | (mv << s)),
{
}

proof fn bv_shr_shr(v: u32, a: u32, b: u32)
    by (bit_vector)
    requires
        a + b < 32,
    ensures
        (((v >> a) >> b) & 1) == ((v >> ((a + b) as u32)) & 1),
{
}

proof fn bv_low_clear(reg: u32, bl: u32, i: u32)
    by (bit_vector)
    requires
        i < bl,
        bl <= 32,
        if bl == 32 {
            reg == 0
        } else {
            ((reg >> bl) << bl) == reg
        },
    ensures
        ((reg >> i) & 1) == 0,
{
}

proof fn bv_byte_of_reg(reg: u32, sh: u32, tb: u32)
    by (bit_vector)
    requires
        sh <= 24,
        tb <= 7,
    ensures
        ((((reg >> sh) as u8) >> (tb as u8)) & 1 == 1) == (((reg >> ((sh + tb) as u32)) & 1)
            == 1),
{
}

/// The writing half of the bit codec.  Bits accumulate in the 32-bit shift
/// register `bits_buf` from the most significant bit downward; a full
/// register is appended big-endian to `buf`.  `offset` is the number of
/// bytes flushed so far and `bits` counts the bits written.
pub struct BitPacker {
    pub buf: Vec<u8>,
    pub offset: usize,
    pub bits_left: usize,
    pub bits_buf: u32,
    pub bits: usize,
}

impl BitPacker {
    /// The bit stream written so far: the flushed bytes followed by the
    /// pending high bits of the shift register.
    pub open spec fn stream(self) -> Seq<bool> {
        bytes_bits(self.buf@) + field_bits(self.bits_buf, 32).take(32 - self.bits_left as int)
    }

    /// The shift register only ever holds bits above `bits_left`.
    pub open spec fn wf(self) -> bool {
        &&& self.bits_left <= 32
        &&& self.offset == self.buf@.len()
        &&& if self.bits_left == 32 {
            self.bits_buf == 0
        } else {
            ((self.bits_buf >> (self.bits_left as u32)) << (self.bits_left as u32))
                == self.bits_buf
        }
    }

    pub fn new() -> (r: BitPacker)
        ensures
            r.wf(),
            r.stream() =~= Seq::<bool>::empty(),
            r.bits == 0,
            r.buf@ =~= Seq::<u8>::empty(),
    {
        BitPacker { buf: Vec::new(), bits_left: 32, bits_buf: 0, bits: 0, offset: 0 }
    }

    /// Appends the low `bits` bits of `value` to the stream, most
    /// significant bit first.
    pub fn write(&mut self, value: u32, bits: usize)
        requires
            old(self).wf(),
            bits <= 32,
            old(self).bits + bits <= usize::MAX,
        ensures
            final(self).wf(),
            final(self).stream() =~= old(self).stream() + field_bits(value, bits as nat),
            final(self).bits == old(self).bits + bits,
        decreases bits,
    {
        if bits == 0 {
            assert(self.stream() =~= old(self).stream() + field_bits(value, 0));
            return ;
        }
        if self.bits_left == 0 {
            self.flush();
            assert(self.stream() =~= old(self).stream());
        }
        let ghost mid = *self;
        if bits <= self.bits_left {
            let masked = if bits < 32 {
                proof {
                    bv_one_shl_pos(bits as u32);
                }
                value & ((1u32 << bits) - 1)
            } else {
                value
            };
            proof {
                if bits < 32 {
                    bv_mask_facts(value, ((1u32 << (bits as u32)) - 1) as u32, bits as u32);
                }
            }
            let s = self.bits_left - bits;
            self.bits_buf = self.bits_buf | (masked << s);
            self.bits_left = s;
            self.bits = self.bits + bits;
            proof {
                let reg = mid.bits_buf;
                let k = bits as u32;
                let su = s as u32;
                bv_pack_wf(reg, masked, su, k);
                assert(self.wf());
                assert(self.stream() =~= mid.stream() + field_bits(value, bits as nat)) by {
                    let lhs = self.stream();
                    let rhs = mid.stream() + field_bits(value, bits as nat);
                    assert(lhs.len() == rhs.len());
                    assert forall|i: int| 0 <= i < lhs.len() implies lhs[i] == rhs[i] by {
                        let nb = 8 * self.buf@.len();
                        if i < nb {
                        } else {
                            let t = i - nb;
                            if t < 32 - mid.bits_left {
                                bv_pack_high(reg, masked, su, k, (31 - t) as u32);
                            } else {
                                let q = (k - 1 - (t - (32 - mid.bits_left))) as u32;
                                bv_pack_field(reg, masked, su, k, q);
                                if bits < 32 {
                                    assert((((value & ((1u32 << k) - 1) as u32) >> q) & 1) == ((
                                    value >> q) & 1));
                                }
                            }
                        }
                    }
                }
            }
        } else {
            let hi = self.bits_left;
            let lo = bits - hi;
            self.write(value >> lo, hi);
            self.write(value, lo);
            proof {
                assert(field_bits(value, bits as nat) =~= field_bits(
                    value >> (lo as u32),
                    hi as nat,
                ) + field_bits(value, lo as nat)) by {
                    assert forall|i: int| 0 <= i < bits implies field_bits(value, bits as nat)[i]
                        == (field_bits(value >> (lo as u32), hi as nat) + field_bits(
                        value,
                        lo as nat,
                    ))[i] by {
                        if i < hi {
                            bv_shr_shr(value, lo as u32, (hi - 1 - i) as u32);
                        }
                    }
                }
                assert(self.stream() =~= old(self).stream() + field_bits(value, bits as nat));
            }
        }
    }

    /// Appends `value` as an id field: the all-ones sentinel is stored as
    /// the all-ones value of the field width.
    pub fn write_id(&mut self, value: u32, bits: usize)
        requires
            old(self).wf(),
            bits <= 32,
            old(self).bits + bits <= usize::MAX,
        ensures
            final(self).wf(),
            final(self).stream() =~= old(self).stream() + field_bits(id_encode(value, bits as nat),
                bits as nat),
            final(self).bits == old(self).bits + bits,
    {
        let value = if value == !0u32 {
            id_all_ones(bits)
        } else {
            value
        };
        self.write(value, bits)
    }

    /// Appends the shift register to the output big-endian and resets it.
    /// The stream is thereby padded with the `bits_left` zero bits of the
    /// register; afterwards the whole stream sits in `buf`.
    pub fn flush(&mut self)
        requires
            old(self).wf(),
        ensures
            final(self).wf(),
            final(self).stream() =~= old(self).stream() + zero_bits(old(self).bits_left as nat),
            final(self).stream() =~= bytes_bits(final(self).buf@),
            final(self).bits == old(self).bits,
            final(self).bits_left == 32,
            final(self).buf@.len() == old(self).buf@.len() + 4,
    {
        let reg = self.bits_buf;
        self.buf.push((reg >> 24) as u8);
        self.buf.push((reg >> 16) as u8);
        self.buf.push((reg >> 8) as u8);
        self.buf.push(reg as u8);
        self.offset = self.buf.len();
        self.bits_buf = 0;
        self.bits_left = 32;
        proof {
            let obuf = old(self).buf@;
            let nb = 8 * obuf.len();
            assert(self.stream() =~= bytes_bits(self.buf@));
            assert(self.stream() =~= old(self).stream() + zero_bits(
                old(self).bits_left as nat,
            )) by {
                let lhs = self.stream();
                let rhs = old(self).stream() + zero_bits(old(self).bits_left as nat);
                assert(lhs.len() == rhs.len());
                assert forall|i: int| 0 <= i < lhs.len() implies lhs[i] == rhs[i] by {
                    if i < nb {
                        assert(self.buf@[i / 8] == obuf[i / 8]);
                    } else {
                        let t = i - nb;
                        assert(i / 8 == obuf.len() + t / 8 && i % 8 == t % 8);
                        if t < 8 {
                            assert(self.buf@[i / 8] == ((reg >> 24u32) as u8));
                            bv_byte_of_reg(reg, 24, (7 - t) as u32);
                        } else if t < 16 {
                            assert(self.buf@[i / 8] == ((reg >> 16u32) as u8));
                            bv_byte_of_reg(reg, 16, (15 - t) as u32);
                        } else if t < 24 {
                            assert(self.buf@[i / 8] == ((reg >> 8u32) as u8));
                            bv_byte_of_reg(reg, 8, (23 - t) as u32);
                        } else {
                            assert(self.buf@[i / 8] == ((reg >> 0u32) as u8)) by {
                                assert(reg >> 0u32 == reg) by (bit_vector);
                            }
                            bv_byte_of_reg(reg, 0, (31 - t) as u32);
                        }
                        assert(lhs[i] == u32_bit(reg, (31 - t) as u32));
                        if t >= 32 - old(self).bits_left {
                            bv_low_clear(reg, old(self).bits_left as u32, (31 - t) as u32);
                        }
                    }
                }
            }
        }
    }
}

proof fn bv_mask_fits_all(reg: u32, s: u32)
    by (bit_vector)
    requires
        s < 32,
    ensures
        ((reg & (((1u32 << s) - 1) as u32)) >> s) == 0,
{
}

proof fn bv_extract_fits(reg: u32, s: u32, k: u32)
    by (bit_vector)
    requires
        1 <= k,
        s + k <= 32,
        s + k == 32 || reg >> ((s + k) as u32) == 0,
    ensures
        k < 32 ==> (reg >> s) >> k == 0,
{
}

proof fn bv_fits_lt(r: u32, k: u32, m: u32)
    by (bit_vector)
    requires
        k < 32,
        m == 1u32 << k,
        r >> k == 0,
    ensures
        r < m,
{
}

proof fn bv_lt_fits(r: u32, k: u32, m: u32)
    by (bit_vector)
    requires
        k < 32,
        m == 1u32 << k,
        r < m,
    ensures
        r >> k == 0,
{
}

proof fn bv_combine_hi(a: u32, b: u32, lo: u32, q: u32)
    by (bit_vector)
    requires
        1 <= lo <= 31,
        lo + q <= 31,
        b >> lo == 0,
    ensures
        ((((a << lo) | b) >> ((lo + q) as u32)) & 1) == ((a >> q) & 1),
{
}

proof fn bv_combine_lo(a: u32, b: u32, lo: u32, q: u32)
    by (bit_vector)
    requires
        q < lo <= 31,
    ensures
        ((((a << lo) | b) >> q) & 1) == ((b >> q) & 1),
{
}

proof fn bv_combine_fits(a: u32, b: u32, hi: u32, lo: u32)
    by (bit_vector)
    requires
        1 <= hi <= 31,
        1 <= lo <= 31,
        hi + lo < 32,
        a >> hi == 0,
        b >> lo == 0,
    ensures
        ((a << lo) | b) >> ((hi + lo) as u32) == 0,
{
}

proof fn bv_refill_bit(b0: u8, b1: u8, b2: u8, b3: u8, p: u32)
    by (bit_vector)
    requires
        p < 32,
    ensures
        (((((b0 as u32) << 24u32) | ((b1 as u32) << 16u32) | ((b2 as u32) << 8u32) | (b3 as u32))
            >> p) & 1 == 1) == (if p >= 24 {
            (b0 >> ((p - 24) as u8)) & 1 == 1
        } else if p >= 16 {
            (b1 >> ((p - 16) as u8)) & 1 == 1
        } else if p >= 8 {
            (b2 >> ((p - 8) as u8)) & 1 == 1
        } else {
            (b3 >> (p as u8)) & 1 == 1
        }),
{
}

/// Converts the bit-level fits form into a numeric bound.
proof fn lemma_fits_bound(r: u32, k: nat)
    requires
        k <= 32,
        k < 32 ==> r >> (k as u32) == 0,
    ensures
        (r as nat) < pow2(k),
{
    lemma2_to64();
    if k < 32 {
        vstd::bits::lemma_u32_shl_is_mul(1u32, k as u32);
        lemma_pow2_strictly_increases(k, 32);
        bv_fits_lt(r, k as u32, (1u32 << (k as u32)) as u32);
    }
}

/// Converts a numeric bound into the bit-level fits form.
proof fn lemma_bound_fits(r: u32, k: nat)
    requires
        k <= 32,
        (r as nat) < pow2(k),
    ensures
        k < 32 ==> r >> (k as u32) == 0,
{
    lemma2_to64();
    if k < 32 {
        vstd::bits::lemma_u32_shl_is_mul(1u32, k as u32);
        lemma_pow2_strictly_increases(k, 32);
        bv_lt_fits(r, k as u32, (1u32 << (k as u32)) as u32);
    }
}

/// The reading half of the bit codec.  The shift register `bits_buf` holds
/// the next `bits_left` bits of the stream in its low bits; it is refilled
/// with four big-endian bytes at a time, reading zeros past the end of the
/// buffer.  `bits` counts the bits consumed so far.
pub struct BitUnpacker<'a> {
    pub buf: &'a [u8],
    pub offset: usize,
    pub bits_left: usize,
    pub bits_buf: u32,
    pub bits: usize,
}

impl<'a> BitUnpacker<'a> {
    /// The register holds exactly the stream bits between `bits` and the
    /// refill position, and nothing above them.
    pub open spec fn wf(self) -> bool {
        &&& self.bits_left <= 32
        &&& self.buf@.len() <= usize::MAX / 8
        &&& self.offset <= self.buf@.len() + 3
        &&& self.bits + self.bits_left == 8 * self.offset
        &&& self.bits_left < 32 ==> (self.bits_buf >> (self.bits_left as u32)) == 0
        &&& field_bits(self.bits_buf, self.bits_left as nat) =~= padded_bits(
            self.buf@,
            self.bits as int,
            self.bits + self.bits_left,
        )
    }

    pub fn new(buf: &'a [u8]) -> (r: BitUnpacker<'a>)
        requires
            buf@.len() <= usize::MAX / 8,
        ensures
            r.wf(),
            r.buf@ == buf@,
            r.bits == 0,
    {
        let r = BitUnpacker { buf, bits_left: 0, bits_buf: 0, bits: 0, offset: 0 };
        proof {
            assert(0u32 >> 0u32 == 0) by (bit_vector);
            assert(field_bits(0u32, 0) =~= padded_bits(buf@, 0, 0));
        }
        r
    }

    /// Refills the shift register with the next four bytes, big-endian,
    /// reading zeros past the end of the buffer.
    fn refill(&mut self)
        requires
            old(self).wf(),
            old(self).bits_left == 0,
            old(self).offset < old(self).buf@.len(),
        ensures
            final(self).wf(),
            final(self).buf == old(self).buf,
            final(self).bits == old(self).bits,
            final(self).bits_left == 32,
    {
        let len = self.buf.len();
        let off = self.offset;
        let b0 = if off < len {
            *vstd::slice::slice_index_get(self.buf, off)
        } else {
            0u8
        };
        let b1 = if off + 1 < len {
            *vstd::slice::slice_index_get(self.buf, off + 1)
        } else {
            0u8
        };
        let b2 = if off + 2 < len {
            *vstd::slice::slice_index_get(self.buf, off + 2)
        } else {
            0u8
        };
        let b3 = if off + 3 < len {
            *vstd::slice::slice_index_get(self.buf, off + 3)
        } else {
            0u8
        };
        let w0 = (b0 as u32) << 24u32;
        let w1 = (b1 as u32) << 16u32;
        let w2 = (b2 as u32) << 8u32;
        let w3 = b3 as u32;
        let reg = w0 | w1 | w2 | w3;
        self.bits_buf = reg;
        self.offset = off + 4;
        self.bits_left = 32;
        proof {
            let buf = self.buf@;
            let pos = self.bits as int;
            assert(pos == 8 * off);
            assert(field_bits(reg, 32) =~= padded_bits(buf, pos, pos + 32)) by {
                assert forall|i: int| 0 <= i < 32 implies field_bits(reg, 32)[i] == padded_bits(
                    buf,
                    pos,
                    pos + 32,
                )[i] by {
                    let p = (31 - i) as u32;
                    let tb = (7 - i % 8) as u8;
                    bv_refill_bit(b0, b1, b2, b3, p);
                    let bi = pos + i;
                    assert(bi / 8 == off + i / 8 && bi % 8 == i % 8);
                    if i < 8 {
                        if off < buf.len() {
                            assert(padded_bits(buf, pos, pos + 32)[i] == u8_bit(buf[bi / 8], tb));
                        } else {
                            assert(b0 == 0);
                            assert((0u8 >> tb) & 1 != 1) by (bit_vector);
                        }
                    } else if i < 16 {
                        if off + 1 < buf.len() {
                            assert(padded_bits(buf, pos, pos + 32)[i] == u8_bit(buf[bi / 8], tb));
                        } else {
                            assert(b1 == 0);
                            assert((0u8 >> tb) & 1 != 1) by (bit_vector);
                        }
                    } else if i < 24 {
                        if off + 2 < buf.len() {
                            assert(padded_bits(buf, pos, pos + 32)[i] == u8_bit(buf[bi / 8], tb));
                        } else {
                            assert(b2 == 0);
                            assert((0u8 >> tb) & 1 != 1) by (bit_vector);
                        }
                    } else {
                        if off + 3 < buf.len() {
                            assert(padded_bits(buf, pos, pos + 32)[i] == u8_bit(buf[bi / 8], tb));
                        } else {
                            assert(b3 == 0);
                            assert((0u8 >> tb) & 1 != 1) by (bit_vector);
                        }
                    }
                }
            }
        }
    }

    /// Reads the next `bits` bits of the stream, most significant first,
    /// into the low bits of the result.
    pub fn read(&mut self, bits: usize) -> (r: u32)
        requires
            old(self).wf(),
            bits <= 32,
            old(self).bits + bits <= 8 * old(self).buf@.len(),
        ensures
            final(self).wf(),
            final(self).buf == old(self).buf,
            final(self).bits == old(self).bits + bits,
            field_bits(r, bits as nat) =~= bytes_bits(old(self).buf@).subrange(
                old(self).bits as int,
                old(self).bits + bits,
            ),
            (r as nat) < pow2(bits as nat),
            r as nat == bits_val(
                bytes_bits(old(self).buf@).subrange(old(self).bits as int, old(self).bits + bits),
            ),
        decreases bits,
    {
        if bits == 0 {
            proof {
                lemma2_to64();
                assert(field_bits(0u32, 0) =~= bytes_bits(self.buf@).subrange(
                    self.bits as int,
                    self.bits as int,
                ));
            }
            return 0;
        }
        if self.bits_left == 0 {
            proof {
                assert(8 * self.offset < 8 * self.buf@.len());
            }
            self.refill();
        }
        let ghost mid = *self;
        let ghost pos = self.bits as int;
        if bits <= self.bits_left {
            let s = self.bits_left - bits;
            proof {
                bv_one_shl_pos(s as u32);
            }
            let out = self.bits_buf >> s;
            self.bits_buf = self.bits_buf & ((1u32 << s) - 1);
            self.bits_left = s;
            self.bits = self.bits + bits;
            proof {
                bv_one_shl_pos(s as u32);
                let reg = mid.bits_buf;
                let bl = mid.bits_left as u32;
                let k = bits as u32;
                let su = s as u32;
                bv_extract_fits(reg, su, k);
                lemma_fits_bound(out, bits as nat);
                assert(field_bits(out, bits as nat) =~= bytes_bits(self.buf@).subrange(
                    pos,
                    pos + bits,
                )) by {
                    assert forall|q: int| 0 <= q < bits implies field_bits(out, bits as nat)[q]
                        == bytes_bits(self.buf@).subrange(pos, pos + bits)[q] by {
                        bv_shr_shr(reg, su, (k - 1 - q) as u32);
                        assert(field_bits(reg, mid.bits_left as nat)[q] == padded_bit(
                            self.buf@,
                            pos + q,
                        ));
                        assert(padded_bit(self.buf@, pos + q) == bytes_bits(self.buf@)[pos + q]);
                    }
                }
                bv_mask_fits_all(reg, su);
                assert(field_bits(self.bits_buf, s as nat) =~= padded_bits(
                    self.buf@,
                    self.bits as int,
                    self.bits + s,
                )) by {
                    assert forall|q: int| 0 <= q < s implies field_bits(self.bits_buf, s as nat)[q]
                        == padded_bits(self.buf@, self.bits as int, self.bits + s)[q] by {
                        if s >= 1 {
                            bv_mask_facts(reg, ((1u32 << su) - 1) as u32, su);
                            assert((((reg & ((1u32 << su) - 1) as u32) >> ((s - 1 - q) as u32)) & 1)
                                == ((reg >> ((s - 1 - q) as u32)) & 1));
                            assert(field_bits(reg, mid.bits_left as nat)[bits + q] == padded_bit(
                                self.buf@,
                                pos + bits + q,
                            ));
                        }
                    }
                }
                lemma_field_bits_val(out, bits as nat);
            }
            out
        } else {
            let hi = self.bits_left;
            let lo = bits - hi;
            let a = self.read(hi);
            let b = self.read(lo);
            let r = (a << lo) | b;
            proof {
                let k = bits as nat;
                lemma_bound_fits(a, hi as nat);
                lemma_bound_fits(b, lo as nat);
                assert(field_bits(r, k) =~= field_bits(a, hi as nat) + field_bits(
                    b,
                    lo as nat,
                )) by {
                    assert forall|i: int| 0 <= i < k implies field_bits(r, k)[i] == (field_bits(
                        a,
                        hi as nat,
                    ) + field_bits(b, lo as nat))[i] by {
                        if i < hi {
                            bv_combine_hi(a, b, lo as u32, (hi - 1 - i) as u32);
                        } else {
                            bv_combine_lo(a, b, lo as u32, (bits - 1 - i) as u32);
                        }
                    }
                }
                if bits < 32 {
                    bv_combine_fits(a, b, hi as u32, lo as u32);
                }
                lemma_fits_bound(r, k);
                assert(bytes_bits(self.buf@).subrange(pos, pos + bits) =~= bytes_bits(
                    self.buf@,
                ).subrange(pos, pos + hi) + bytes_bits(self.buf@).subrange(
                    pos + hi,
                    pos + bits,
                ));
                lemma_field_bits_val(r, k);
            }
            r
        }
    }

    /// Reads an id field: the all-ones value of the field width decodes to
    /// the absent-id sentinel `!0`.
    pub fn read_id(&mut self, bits: usize) -> (r: u32)
        requires
            old(self).wf(),
            bits <= 32,
            old(self).bits + bits <= 8 * old(self).buf@.len(),
        ensures
            final(self).wf(),
            final(self).buf == old(self).buf,
            final(self).bits == old(self).bits + bits,
            r == id_decode(
                bits_val(
                    bytes_bits(old(self).buf@).subrange(
                        old(self).bits as int,
                        old(self).bits + bits,
                    ),
                ) as u32,
                bits as nat,
            ),
    {
        let rv = self.read(bits);
        if rv == id_all_ones(bits) {
            !0u32
        } else {
            rv
        }
    }
}

/// The raw field value that stands for an id: the all-ones sentinel is
/// mapped to the all-ones value of the field width.
pub open spec fn id_encode(v: u32, k: nat) -> u32 {
    if v == !0u32 {
        (pow2(k) - 1) as u32
    } else {
        v
    }
}

/// The id a raw field value denotes: the all-ones value of the field width
/// is the absent-id sentinel.
pub open spec fn id_decode(v: u32, k: nat) -> u32 {
    if v == (pow2(k) - 1) as u32 {
        !0u32
    } else {
        v
    }
}

/// The all-ones value of a field of `bits` bits.
fn id_all_ones(bits: usize) -> (r: u32)
    requires
        bits <= 32,
    ensures
        r == (pow2(bits as nat) - 1) as u32,
{
    proof {
        lemma2_to64();
        lemma2_to64_rest();
        lemma_pow2_strictly_increases(bits as nat, 64);
        vstd::bits::lemma_u64_shl_is_mul(1u64, bits as u64);
    }
    ((1u64 << bits) - 1) as u32
}

/// Law: the bit codec round-trips.  A value below two to `k` written with
/// `k` bits is read back unchanged: the value a `k`-bit field denotes is
/// the value it was built from.  Together with the contracts of
/// `BitPacker::write`, `BitPacker::flush` and `BitUnpacker::read` this
/// gives the exec-level round trip.
pub proof fn lemma_bit_codec_round_trip(v: u32, k: nat)
    requires
        k <= 32,
        (v as nat) < pow2(k),
    ensures
        bits_val(field_bits(v, k)) == v as nat,
{
    lemma_field_bits_val(v, k);
}

/// Law: the id codec round-trips.  For any width `1 <= k <= 32`, the
/// sentinel `!0` and every id that `id_bit_len` admits at width `k` decode
/// back to themselves after `write_id` / `read_id`.
pub proof fn lemma_id_codec_round_trip(v: u32, k: nat)
    requires
        1 <= k <= 32,
        v == !0u32 || id_bit_len(v) <= k,
    ensures
        (id_encode(v, k) as nat) < pow2(k),
        id_decode(bits_val(field_bits(id_encode(v, k), k)) as u32, k) == v,
{
    lemma_pow2_pos(k);
    lemma2_to64();
    if v == !0u32 {
        lemma_pow2_strictly_increases(0, k);
        lemma_field_bits_val(id_encode(v, k), k);
    } else {
        lemma_bit_len_le(v as nat, (k - 1) as nat);
        lemma_pow2_unfold(k);
        lemma_pow2_pos((k - 1) as nat);
        assert((v as nat) < pow2((k - 1) as nat));
        assert(pow2((k - 1) as nat) <= pow2(k) - 1);
        assert((v as nat) < pow2(k) - 1);
        lemma_field_bits_val(v, k);
    }
}

/// The number of bits an id field needs for `x`, sentinel included.
pub fn idsz(x: u32) -> (r: u32)
    ensures
        r == id_bit_len(x),
{
    if x == !0 {
        1
    } else {
        proof {
            lemma2_to64();
            lemma_bit_len_le(x as nat, 32);
        }
        iclz(x) + 1
    }
}

} // verus!
