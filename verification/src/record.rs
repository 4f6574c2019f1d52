//! The current token record codec.
//!
//! A sizing pass over the token stream picks, per field, the smallest bit
//! width that still holds every record; the six widths form the
//! `IndexLayout` written into the memdb header.  Every record is then the
//! concatenation of its six fields at those widths, packed by the bit
//! codec into `item_size` bytes.

use vstd::prelude::*;
use vstd::arithmetic::power2::pow2;
use crate::bitmodel::{bit_len, bits_val, bytes_bits, padded_bit, padded_bits};
use crate::bitpacker::{
    id_bit_len, id_decode, id_encode, idsz, iclz, lemma_id_codec_round_trip, BitPacker,
    BitUnpacker,
};
use crate::bitmodel::lemma_field_bits_val;
use crate::types::RawToken;

verus! {

/// The per-field bit widths of a memdb's records.  `name_id_bits` is zero
/// when names are not persisted.
#[derive(Debug, Copy, Clone, PartialEq, Eq, Structural)]
pub struct IndexLayout {
    pub dst_line_bits: u8,
    pub dst_col_bits: u8,
    pub src_line_bits: u8,
    pub src_col_bits: u8,
    pub src_id_bits: u8,
    pub name_id_bits: u8,
}

impl IndexLayout {
    /// No field of a layout is wider than 32 bits.
    pub open spec fn wf(self) -> bool {
        &&& self.dst_line_bits <= 32
        &&& self.dst_col_bits <= 32
        &&& self.src_line_bits <= 32
        &&& self.src_col_bits <= 32
        &&& self.src_id_bits <= 32
        &&& self.name_id_bits <= 32
    }

    /// The width of one whole record in bits.
    pub open spec fn total_bits(self) -> nat {
        (self.dst_line_bits + self.dst_col_bits + self.src_line_bits + self.src_col_bits
            + self.src_id_bits + self.name_id_bits) as nat
    }

    /// The uniform byte size of a record under this layout.
    pub open spec fn spec_item_size(self) -> nat {
        (self.total_bits() + 7) / 8
    }

    /// The byte size of one packed record.
    pub fn item_size(&self) -> (r: usize)
        ensures
            r == self.spec_item_size(),
    {
        (self.dst_line_bits as usize + self.dst_col_bits as usize + self.src_line_bits as usize
            + self.src_col_bits as usize + self.src_id_bits as usize + self.name_id_bits as usize
            + 7) / 8
    }
}

/// Whether every field of `t` encodes without loss under `l`.  A zero
/// `name_id_bits` drops the name field entirely, so it constrains nothing.
pub open spec fn token_fits(t: RawToken, l: IndexLayout) -> bool {
    &&& bit_len(t.dst_line as nat) <= l.dst_line_bits
    &&& bit_len(t.dst_col as nat) <= l.dst_col_bits
    &&& bit_len(t.src_line as nat) <= l.src_line_bits
    &&& bit_len(t.src_col as nat) <= l.src_col_bits
    &&& id_bit_len(t.src_id) <= l.src_id_bits
    &&& (l.name_id_bits == 0 || id_bit_len(t.name_id) <= l.name_id_bits)
}

/// The greater of two widths.
pub open spec fn wmax(a: nat, b: nat) -> nat {
    if a >= b {
        a
    } else {
        b
    }
}

/// Widens `l` so that `t` also fits.
pub open spec fn grow_layout(l: IndexLayout, t: RawToken, with_names: bool) -> IndexLayout {
    IndexLayout {
        dst_line_bits: wmax(l.dst_line_bits as nat, bit_len(t.dst_line as nat)) as u8,
        dst_col_bits: wmax(l.dst_col_bits as nat, bit_len(t.dst_col as nat)) as u8,
        src_line_bits: wmax(l.src_line_bits as nat, bit_len(t.src_line as nat)) as u8,
        src_col_bits: wmax(l.src_col_bits as nat, bit_len(t.src_col as nat)) as u8,
        src_id_bits: wmax(l.src_id_bits as nat, id_bit_len(t.src_id)) as u8,
        name_id_bits: if with_names {
            wmax(l.name_id_bits as nat, id_bit_len(t.name_id)) as u8
        } else {
            0
        },
    }
}

/// The layout the sizing pass computes: per field, the maximum width any
/// token of the stream needs.
pub open spec fn layout_spec(toks: Seq<RawToken>, with_names: bool) -> IndexLayout
    decreases toks.len(),
{
    if toks.len() == 0 {
        IndexLayout {
            dst_line_bits: 0,
            dst_col_bits: 0,
            src_line_bits: 0,
            src_col_bits: 0,
            src_id_bits: 0,
            name_id_bits: 0,
        }
    } else {
        grow_layout(layout_spec(toks.drop_last(), with_names), toks.last(), with_names)
    }
}

/// No width of a computed layout ever exceeds 33 bits, and without names
/// the name field is absent.  The two id widths stay within the codec's
/// 32-bit limit exactly when every id of the stream is encodable.
pub proof fn lemma_layout_spec_bound(toks: Seq<RawToken>, with_names: bool)
    ensures
        layout_spec(toks, with_names).dst_line_bits <= 32,
        layout_spec(toks, with_names).dst_col_bits <= 32,
        layout_spec(toks, with_names).src_line_bits <= 32,
        layout_spec(toks, with_names).src_col_bits <= 32,
        layout_spec(toks, with_names).src_id_bits <= 33,
        layout_spec(toks, with_names).name_id_bits <= 33,
        !with_names ==> layout_spec(toks, with_names).name_id_bits == 0,
        (forall|i: int| 0 <= i < toks.len() ==> id_encodable(#[trigger] toks[i].src_id))
            ==> layout_spec(toks, with_names).src_id_bits <= 32,
        (forall|i: int| 0 <= i < toks.len() ==> id_encodable(#[trigger] toks[i].name_id))
            ==> layout_spec(toks, with_names).name_id_bits <= 32,
    decreases toks.len(),
{
    vstd::arithmetic::power2::lemma2_to64();
    if toks.len() > 0 {
        lemma_layout_spec_bound(toks.drop_last(), with_names);
        lemma_bit_len32(toks.last().dst_line);
        lemma_bit_len32(toks.last().dst_col);
        lemma_bit_len32(toks.last().src_line);
        lemma_bit_len32(toks.last().src_col);
        lemma_bit_len32(toks.last().src_id);
        lemma_bit_len32(toks.last().name_id);
        assert(forall|i: int| 0 <= i < toks.drop_last().len() ==> toks.drop_last()[i] == toks[i]);
    }
}

/// An id is encodable when its field can stay within the codec's 32-bit
/// limit: the sentinel, or a value below two to the 31st.
pub open spec fn id_encodable(v: u32) -> bool {
    v == !0u32 || v < 0x80000000
}

/// A 32-bit value needs at most 32 bits; an id field needs at most 33,
/// and at most 32 exactly when the id is encodable.
proof fn lemma_bit_len32(v: u32)
    ensures
        bit_len(v as nat) <= 32,
        id_bit_len(v) <= 33,
        id_encodable(v) ==> id_bit_len(v) <= 32,
        id_bit_len(v) <= 32 ==> id_encodable(v),
{
    vstd::arithmetic::power2::lemma2_to64();
    crate::bitmodel::lemma_bit_len_le(v as nat, 32);
    crate::bitmodel::lemma_bit_len_le(v as nat, 31);
}

/// Law, first half: the computed layout is sufficient.  Every token of the
/// stream fits it.
pub proof fn lemma_layout_sufficient(toks: Seq<RawToken>, with_names: bool, i: int)
    requires
        0 <= i < toks.len(),
    ensures
        token_fits(toks[i], layout_spec(toks, with_names)),
        with_names ==> id_bit_len(toks[i].name_id) <= layout_spec(toks, with_names).name_id_bits,
    decreases toks.len(),
{
    lemma_layout_spec_bound(toks.drop_last(), with_names);
    lemma_bit_len32(toks.last().dst_line);
    lemma_bit_len32(toks.last().dst_col);
    lemma_bit_len32(toks.last().src_line);
    lemma_bit_len32(toks.last().src_col);
    lemma_bit_len32(toks.last().src_id);
    lemma_bit_len32(toks.last().name_id);
    if i < toks.len() - 1 {
        lemma_layout_sufficient(toks.drop_last(), with_names, i);
    }
}

/// Law, second half: the computed layout is minimal.  Every nonzero field
/// width is attained by some token, so narrowing any field by one would
/// lose a record.
pub proof fn lemma_layout_minimal(toks: Seq<RawToken>, with_names: bool)
    ensures
        ({
            let l = layout_spec(toks, with_names);
            &&& l.dst_line_bits > 0 ==> exists|i: int|
                0 <= i < toks.len() && bit_len(toks[i].dst_line as nat) == l.dst_line_bits
            &&& l.dst_col_bits > 0 ==> exists|i: int|
                0 <= i < toks.len() && bit_len(toks[i].dst_col as nat) == l.dst_col_bits
            &&& l.src_line_bits > 0 ==> exists|i: int|
                0 <= i < toks.len() && bit_len(toks[i].src_line as nat) == l.src_line_bits
            &&& l.src_col_bits > 0 ==> exists|i: int|
                0 <= i < toks.len() && bit_len(toks[i].src_col as nat) == l.src_col_bits
            &&& l.src_id_bits > 0 ==> exists|i: int|
                0 <= i < toks.len() && id_bit_len(toks[i].src_id) == l.src_id_bits
            &&& l.name_id_bits > 0 ==> exists|i: int|
                0 <= i < toks.len() && id_bit_len(toks[i].name_id) == l.name_id_bits
        }),
    decreases toks.len(),
{
    if toks.len() > 0 {
        lemma_layout_minimal(toks.drop_last(), with_names);
        lemma_layout_spec_bound(toks.drop_last(), with_names);
        lemma_bit_len32(toks.last().dst_line);
        lemma_bit_len32(toks.last().dst_col);
        lemma_bit_len32(toks.last().src_line);
        lemma_bit_len32(toks.last().src_col);
        lemma_bit_len32(toks.last().src_id);
        lemma_bit_len32(toks.last().name_id);
        let l = layout_spec(toks, with_names);
        let lp = layout_spec(toks.drop_last(), with_names);
        let n = toks.len() - 1;
        assert forall|j: int| 0 <= j < toks.drop_last().len() implies toks.drop_last()[j]
            == toks[j] by {}
        if l.dst_line_bits > 0 && bit_len(toks[n].dst_line as nat) != l.dst_line_bits {
            let w = choose|i: int|
                0 <= i < toks.drop_last().len() && bit_len(
                    toks.drop_last()[i].dst_line as nat,
                ) == lp.dst_line_bits;
            assert(bit_len(toks[w].dst_line as nat) == l.dst_line_bits);
        }
        if l.dst_col_bits > 0 && bit_len(toks[n].dst_col as nat) != l.dst_col_bits {
            let w = choose|i: int|
                0 <= i < toks.drop_last().len() && bit_len(toks.drop_last()[i].dst_col as nat)
                    == lp.dst_col_bits;
            assert(bit_len(toks[w].dst_col as nat) == l.dst_col_bits);
        }
        if l.src_line_bits > 0 && bit_len(toks[n].src_line as nat) != l.src_line_bits {
            let w = choose|i: int|
                0 <= i < toks.drop_last().len() && bit_len(
                    toks.drop_last()[i].src_line as nat,
                ) == lp.src_line_bits;
            assert(bit_len(toks[w].src_line as nat) == l.src_line_bits);
        }
        if l.src_col_bits > 0 && bit_len(toks[n].src_col as nat) != l.src_col_bits {
            let w = choose|i: int|
                0 <= i < toks.drop_last().len() && bit_len(toks.drop_last()[i].src_col as nat)
                    == lp.src_col_bits;
            assert(bit_len(toks[w].src_col as nat) == l.src_col_bits);
        }
        if l.src_id_bits > 0 && id_bit_len(toks[n].src_id) != l.src_id_bits {
            let w = choose|i: int|
                0 <= i < toks.drop_last().len() && id_bit_len(toks.drop_last()[i].src_id)
                    == lp.src_id_bits;
            assert(id_bit_len(toks[w].src_id) == l.src_id_bits);
        }
        if l.name_id_bits > 0 && (!with_names || id_bit_len(toks[n].name_id) != l.name_id_bits) {
            let w = choose|i: int|
                0 <= i < toks.drop_last().len() && id_bit_len(toks.drop_last()[i].name_id)
                    == lp.name_id_bits;
            assert(id_bit_len(toks[w].name_id) == l.name_id_bits);
        }
    }
}

/// The sizing pass: one walk over the stream, taking per-field maxima.
pub fn layout_for(tokens: &Vec<RawToken>, with_names: bool) -> (r: IndexLayout)
    ensures
        r == layout_spec(tokens@, with_names),
{
    let mut l = IndexLayout {
        dst_line_bits: 0,
        dst_col_bits: 0,
        src_line_bits: 0,
        src_col_bits: 0,
        src_id_bits: 0,
        name_id_bits: 0,
    };
    assert(tokens@.take(0) =~= Seq::<RawToken>::empty());
    let n = tokens.len();
    for i in 0..n
        invariant
            n == tokens@.len(),
            l == layout_spec(tokens@.take(i as int), with_names),
    {
        let t = tokens[i];
        proof {
            lemma_bit_len32(t.dst_line);
            lemma_bit_len32(t.dst_col);
            lemma_bit_len32(t.src_line);
            lemma_bit_len32(t.src_col);
            lemma_bit_len32(t.src_id);
            lemma_bit_len32(t.name_id);
        }
        let w = iclz(t.dst_line) as u8;
        if w > l.dst_line_bits {
            l.dst_line_bits = w;
        }
        let w = iclz(t.dst_col) as u8;
        if w > l.dst_col_bits {
            l.dst_col_bits = w;
        }
        let w = iclz(t.src_line) as u8;
        if w > l.src_line_bits {
            l.src_line_bits = w;
        }
        let w = iclz(t.src_col) as u8;
        if w > l.src_col_bits {
            l.src_col_bits = w;
        }
        let w = idsz(t.src_id) as u8;
        if w > l.src_id_bits {
            l.src_id_bits = w;
        }
        if with_names {
            let w = idsz(t.name_id) as u8;
            if w > l.name_id_bits {
                l.name_id_bits = w;
            }
        } else {
            l.name_id_bits = 0;
        }
        proof {
            assert(tokens@.take(i + 1).drop_last() =~= tokens@.take(i as int));
            assert(tokens@.take(i + 1).last() == t);
        }
    }
    proof {
        assert(tokens@.take(n as int) =~= tokens@);
    }
    l
}

/// The value of the `k`-bit field at bit position `pos` of a record.
pub open spec fn read_field(rec: Seq<u8>, pos: int, k: nat) -> u32 {
    bits_val(padded_bits(rec, pos, pos + k)) as u32
}

/// The token a packed record denotes under a layout: six fields in order,
/// the two id fields with sentinel decoding.
pub open spec fn decode_record(rec: Seq<u8>, l: IndexLayout) -> RawToken {
    let p1 = l.dst_line_bits as int;
    let p2 = p1 + l.dst_col_bits;
    let p3 = p2 + l.src_line_bits;
    let p4 = p3 + l.src_col_bits;
    let p5 = p4 + l.src_id_bits;
    RawToken {
        dst_line: read_field(rec, 0, l.dst_line_bits as nat),
        dst_col: read_field(rec, p1, l.dst_col_bits as nat),
        src_line: read_field(rec, p2, l.src_line_bits as nat),
        src_col: read_field(rec, p3, l.src_col_bits as nat),
        src_id: id_decode(read_field(rec, p4, l.src_id_bits as nat), l.src_id_bits as nat),
        name_id: id_decode(read_field(rec, p5, l.name_id_bits as nat), l.name_id_bits as nat),
    }
}

/// What a round trip through the codec preserves: everything, except that
/// a layout without a name field always reads back the absent name.
pub open spec fn persisted(t: RawToken, l: IndexLayout) -> RawToken {
    RawToken {
        name_id: if l.name_id_bits == 0 {
            !0u32
        } else {
            t.name_id
        },
        ..t
    }
}

/// Packs one token into `item_size` bytes; decoding the bytes gives the
/// token back (with the name dropped if the layout has no name field).
pub fn encode_record(t: &RawToken, l: &IndexLayout) -> (r: Vec<u8>)
    requires
        l.wf(),
        token_fits(*t, *l),
    ensures
        r@.len() == l.spec_item_size(),
        decode_record(r@, *l) == persisted(*t, *l),
{
    let mut p = BitPacker::new();
    proof {
        lemma_bit_len_pow(t.dst_line, l.dst_line_bits as nat);
        lemma_bit_len_pow(t.dst_col, l.dst_col_bits as nat);
        lemma_bit_len_pow(t.src_line, l.src_line_bits as nat);
        lemma_bit_len_pow(t.src_col, l.src_col_bits as nat);
    }
    p.write(t.dst_line, l.dst_line_bits as usize);
    p.write(t.dst_col, l.dst_col_bits as usize);
    p.write(t.src_line, l.src_line_bits as usize);
    p.write(t.src_col, l.src_col_bits as usize);
    p.write_id(t.src_id, l.src_id_bits as usize);
    p.write_id(t.name_id, l.name_id_bits as usize);
    let ghost fields = crate::bitmodel::field_bits(t.dst_line, l.dst_line_bits as nat)
        + crate::bitmodel::field_bits(t.dst_col, l.dst_col_bits as nat)
        + crate::bitmodel::field_bits(t.src_line, l.src_line_bits as nat)
        + crate::bitmodel::field_bits(t.src_col, l.src_col_bits as nat)
        + crate::bitmodel::field_bits(id_encode(t.src_id, l.src_id_bits as nat),
            l.src_id_bits as nat,
        ) + crate::bitmodel::field_bits(id_encode(t.name_id, l.name_id_bits as nat),
            l.name_id_bits as nat,
        );
    proof {
        assert(p.stream() =~= fields);
        assert(fields.len() == l.total_bits());
    }
    p.flush();
    let ghost stream = p.stream();
    proof {
        assert(stream =~= fields + stream.skip(l.total_bits() as int));
    }
    let size = l.item_size();
    let mut buf = p.buf;
    proof {
        assert(stream =~= bytes_bits(buf@));
        assert(8 * buf@.len() == stream.len());
        assert(stream.len() >= l.total_bits());
        assert(8 * l.spec_item_size() >= l.total_bits());
        assert(l.spec_item_size() <= buf@.len());
    }
    buf.truncate(size);
    proof {
        assert forall|i: int| 0 <= i < l.total_bits() implies padded_bit(buf@, i) == stream[i] by {
            assert(i < 8 * l.spec_item_size());
            assert(buf@[i / 8] == p.buf@[i / 8]);
            assert(padded_bit(buf@, i) == bytes_bits(buf@)[i]);
            assert(bytes_bits(buf@)[i] == bytes_bits(p.buf@)[i]);
        }
        lemma_decode_of_stream(buf@, *l, *t, stream);
    }
    buf
}

/// Bounds a field by its bit length.
proof fn lemma_bit_len_pow(v: u32, k: nat)
    requires
        bit_len(v as nat) <= k,
    ensures
        (v as nat) < pow2(k),
{
    crate::bitmodel::lemma_bit_len_le(v as nat, k);
}

/// If the first `total_bits` bits of `rec` are the concatenated fields of
/// `t` under `l`, then `rec` decodes to `t` (name dropped when the layout
/// has no name field).
proof fn lemma_decode_of_stream(rec: Seq<u8>, l: IndexLayout, t: RawToken, stream: Seq<bool>)
    requires
        l.wf(),
        token_fits(t, l),
        8 * rec.len() >= l.total_bits(),
        stream.len() >= l.total_bits(),
        forall|i: int| 0 <= i < l.total_bits() ==> padded_bit(rec, i) == stream[i],
        stream =~= crate::bitmodel::field_bits(t.dst_line, l.dst_line_bits as nat)
            + crate::bitmodel::field_bits(t.dst_col, l.dst_col_bits as nat)
            + crate::bitmodel::field_bits(t.src_line, l.src_line_bits as nat)
            + crate::bitmodel::field_bits(t.src_col, l.src_col_bits as nat)
            + crate::bitmodel::field_bits(id_encode(t.src_id, l.src_id_bits as nat),
                l.src_id_bits as nat,
            ) + crate::bitmodel::field_bits(id_encode(t.name_id, l.name_id_bits as nat),
                l.name_id_bits as nat,
            ) + stream.skip(l.total_bits() as int),
    ensures
        decode_record(rec, l) == persisted(t, l),
{
    let p1 = l.dst_line_bits as int;
    let p2 = p1 + l.dst_col_bits;
    let p3 = p2 + l.src_line_bits;
    let p4 = p3 + l.src_col_bits;
    let p5 = p4 + l.src_id_bits;
    let p6 = p5 + l.name_id_bits;

    lemma_bit_len_pow(t.dst_line, l.dst_line_bits as nat);
    lemma_bit_len_pow(t.dst_col, l.dst_col_bits as nat);
    lemma_bit_len_pow(t.src_line, l.src_line_bits as nat);
    lemma_bit_len_pow(t.src_col, l.src_col_bits as nat);

    assert(padded_bits(rec, 0, p1) =~= crate::bitmodel::field_bits(
        t.dst_line,
        l.dst_line_bits as nat,
    ));
    lemma_field_bits_val(t.dst_line, l.dst_line_bits as nat);

    assert(padded_bits(rec, p1, p2) =~= crate::bitmodel::field_bits(
        t.dst_col,
        l.dst_col_bits as nat,
    ));
    lemma_field_bits_val(t.dst_col, l.dst_col_bits as nat);

    assert(padded_bits(rec, p2, p3) =~= crate::bitmodel::field_bits(
        t.src_line,
        l.src_line_bits as nat,
    ));
    lemma_field_bits_val(t.src_line, l.src_line_bits as nat);

    assert(padded_bits(rec, p3, p4) =~= crate::bitmodel::field_bits(
        t.src_col,
        l.src_col_bits as nat,
    ));
    lemma_field_bits_val(t.src_col, l.src_col_bits as nat);

    assert(padded_bits(rec, p4, p5) =~= crate::bitmodel::field_bits(
        id_encode(t.src_id, l.src_id_bits as nat),
        l.src_id_bits as nat,
    ));
    lemma_id_codec_round_trip(t.src_id, l.src_id_bits as nat);
    lemma_field_bits_val(id_encode(t.src_id, l.src_id_bits as nat), l.src_id_bits as nat);

    if l.name_id_bits == 0 {
        assert(padded_bits(rec, p5, p6) =~= Seq::<bool>::empty());
        vstd::arithmetic::power2::lemma2_to64();
        assert(decode_record(rec, l).name_id == !0u32);
    } else {
        assert(padded_bits(rec, p5, p6) =~= crate::bitmodel::field_bits(
            id_encode(t.name_id, l.name_id_bits as nat),
            l.name_id_bits as nat,
        ));
        lemma_id_codec_round_trip(t.name_id, l.name_id_bits as nat);
        lemma_field_bits_val(id_encode(t.name_id, l.name_id_bits as nat), l.name_id_bits as nat);
    }
}

/// Unpacks the record held in `rec` under layout `l`.
pub fn decode_record_bytes(rec: &[u8], l: &IndexLayout) -> (r: RawToken)
    requires
        l.wf(),
        8 * rec@.len() >= l.total_bits(),
        rec@.len() <= 64,
    ensures
        r == decode_record(rec@, *l),
{
    let mut u = BitUnpacker::new(rec);
    let dst_line = u.read(l.dst_line_bits as usize);
    let dst_col = u.read(l.dst_col_bits as usize);
    let src_line = u.read(l.src_line_bits as usize);
    let src_col = u.read(l.src_col_bits as usize);
    let src_id = u.read_id(l.src_id_bits as usize);
    let name_id = u.read_id(l.name_id_bits as usize);
    proof {
        let p1 = l.dst_line_bits as int;
        let p2 = p1 + l.dst_col_bits;
        let p3 = p2 + l.src_line_bits;
        let p4 = p3 + l.src_col_bits;
        let p5 = p4 + l.src_id_bits;
        let p6 = p5 + l.name_id_bits;
        assert(bytes_bits(rec@).subrange(0, p1) =~= padded_bits(rec@, 0, p1));
        assert(bytes_bits(rec@).subrange(p1, p2) =~= padded_bits(rec@, p1, p2));
        assert(bytes_bits(rec@).subrange(p2, p3) =~= padded_bits(rec@, p2, p3));
        assert(bytes_bits(rec@).subrange(p3, p4) =~= padded_bits(rec@, p3, p4));
        assert(bytes_bits(rec@).subrange(p4, p5) =~= padded_bits(rec@, p4, p5));
        assert(bytes_bits(rec@).subrange(p5, p6) =~= padded_bits(rec@, p5, p6));
    }
    RawToken { dst_line, dst_col, src_line, src_col, src_id, name_id }
}

/// Law: the record codec round-trips under any layout the token fits.
pub proof fn lemma_record_round_trip(t: RawToken, l: IndexLayout, rec: Seq<u8>)
    requires
        l.wf(),
        token_fits(t, l),
        rec.len() == l.spec_item_size(),
        decode_record(rec, l) == persisted(t, l),
        l.name_id_bits > 0 || t.name_id == !0u32,
    ensures
        decode_record(rec, l) == t,
{
}

} // verus!
