//! The legacy fixed-width index records and the shape-bit position packer.
//!
//! A (line, column) pair is packed into 31 bits plus one shape bit: shape 0
//! gives the line 14 bits and the column 17, shape 1 gives the line 17 bits
//! and the column 14, so whichever coordinate is larger gets the wider
//! field.  Three record layouts of decreasing size build on the packer.

use vstd::prelude::*;
use crate::errors::ErrorKind;
use crate::types::RawToken;

verus! {

/// Which coordinates a shape can hold.
pub open spec fn loc_fits(line: u32, col: u32) -> bool {
    if line > col {
        line <= 0x1ffff && col <= 0x3fff
    } else {
        line <= 0x3fff && col <= 0x1ffff
    }
}

/// The shape chosen for a pair: 1 when the line is larger.
pub open spec fn loc_shape(line: u32, col: u32) -> u8 {
    if line > col {
        1
    } else {
        0
    }
}

/// The 31-bit packed form of a pair under its shape.
pub open spec fn pack_loc(line: u32, col: u32) -> u32 {
    if line > col {
        (line << 14u32) | col
    } else {
        (line << 17u32) | col
    }
}

/// The pair a packed value denotes under a shape.
pub open spec fn unpack_loc(shape: u8, packed: u32) -> (u32, u32) {
    if shape == 1 {
        (packed >> 14u32, packed & 0x3fff)
    } else {
        (packed >> 17u32, packed & 0x1ffff)
    }
}

proof fn bv_pack_loc1(line: u32, col: u32)
    by (bit_vector)
    requires
        line <= 0x1ffff,
        col <= 0x3fff,
    ensures
        ((line << 14u32) | col) >> 14u32 == line,
        ((line << 14u32) | col) & 0x3fff == col,
        ((line << 14u32) | col) < 0x80000000,
{
}

proof fn bv_pack_loc0(line: u32, col: u32)
    by (bit_vector)
    requires
        line <= 0x3fff,
        col <= 0x1ffff,
    ensures
        ((line << 17u32) | col) >> 17u32 == line,
        ((line << 17u32) | col) & 0x1ffff == col,
        ((line << 17u32) | col) < 0x80000000,
{
}

/// Law: packing a pair that fits and unpacking it under its shape gives
/// the pair back, and the packed value stays below two to the 31st.
pub proof fn lemma_pack_loc_round_trip(line: u32, col: u32)
    requires
        loc_fits(line, col),
    ensures
        unpack_loc(loc_shape(line, col), pack_loc(line, col)) == (line, col),
        pack_loc(line, col) < 0x80000000,
{
    if line > col {
        bv_pack_loc1(line, col);
    } else {
        bv_pack_loc0(line, col);
    }
}

/// Packs a position pair into a shape bit and a 31-bit value; pairs too
/// large for both shapes are rejected with `LocationOverflow`.
pub fn pack_loc_shape(line: u32, col: u32) -> (r: Result<(u8, u32), ErrorKind>)
    ensures
        r is Ok <==> loc_fits(line, col),
        r matches Ok(p) ==> p == (loc_shape(line, col), pack_loc(line, col)),
        r matches Err(e) ==> e is LocationOverflow,
{
    if line > col {
        if line > 0x1ffff || col > 0x3fff {
            return Err(ErrorKind::LocationOverflow);
        }
        Ok((1, (line << 14u32) | col))
    } else {
        if line > 0x3fff || col > 0x1ffff {
            return Err(ErrorKind::LocationOverflow);
        }
        Ok((0, (line << 17u32) | col))
    }
}

/// Splits a packed value back into its (line, column) pair.
pub fn unpack_loc_shape(shape: u8, packed: u32) -> (r: (u32, u32))
    ensures
        r == unpack_loc(shape, packed),
{
    if shape == 1 {
        (packed >> 14u32, packed & 0x3fff)
    } else {
        (packed >> 17u32, packed & 0x1ffff)
    }
}

pub(crate) proof fn bv_locinfo(sdst: u64, ssrc: u64, pdst: u64, psrc: u64)
    by (bit_vector)
    requires
        sdst <= 1,
        ssrc <= 1,
        pdst < 0x80000000,
        psrc < 0x80000000,
    ensures
        (((sdst << 63u64) | (ssrc << 62u64) | (pdst << 31u64) | psrc) >> 63u64) & 1 == sdst,
        (((sdst << 63u64) | (ssrc << 62u64) | (pdst << 31u64) | psrc) >> 62u64) & 1 == ssrc,
        (((sdst << 63u64) | (ssrc << 62u64) | (pdst << 31u64) | psrc) >> 31u64) & 0x7fffffff
            == pdst,
        ((sdst << 63u64) | (ssrc << 62u64) | (pdst << 31u64) | psrc) & 0x7fffffff == psrc,
{
}

pub(crate) proof fn bv_ids(src14: u32, name18: u32)
    by (bit_vector)
    requires
        src14 <= 0x3fff,
        name18 <= 0x3ffff,
    ensures
        ((src14 << 18u32) | name18) >> 18u32 == src14,
        ((src14 << 18u32) | name18) & 0x3ffff == name18,
{
}

pub(crate) proof fn bv_mask_small(x: u32)
    by (bit_vector)
    ensures
        x < 0x3fff ==> x & 0x3fff == x,
        x < 0x3ffff ==> x & 0x3ffff == x,
        x == !0u32 ==> x & 0x3fff == 0x3fff,
        x == !0u32 ==> x & 0x3ffff == 0x3ffff,
{
}

/// Whether a source id survives the 14-bit packing of the large record.
pub open spec fn large_src_id_ok(v: u32) -> bool {
    v == !0u32 || (v & 0x3fff) < 0x3fff
}

/// Whether a name id survives the 18-bit packing of the large record.
pub open spec fn large_name_id_ok(v: u32) -> bool {
    v == !0u32 || (v & 0x3ffff) < 0x3ffff
}

/// The large legacy record: both positions shape-packed into one 64-bit
/// word, the two ids packed into a 32-bit word.
#[derive(Debug, Copy, Clone, PartialEq, Eq, Structural)]
pub struct LargeIndexItem {
    pub packed_locinfo: u64,
    pub ids: u32,
}

/// The compact legacy record: positions as in the large record, a 16-bit
/// source id and no name id.
#[derive(Debug, Copy, Clone, PartialEq, Eq, Structural)]
pub struct CompactIndexItem {
    pub packed_locinfo: u64,
    pub src_id: u16,
}

/// The smallest legacy record: one 64-bit word holding the packed
/// destination, a 16-bit source line (column zero) and a 16-bit source id.
#[derive(Debug, Copy, Clone, PartialEq, Eq, Structural)]
pub struct VeryCompactIndexItem {
    pub packed_info: u64,
}

/// Read access shared by the legacy records: ids and the two unpacked
/// positions, `spec_loc(0)` being the destination and `spec_loc(1)` the
/// source position.
pub trait IndexItem {
    spec fn spec_src_id(&self) -> u32;

    spec fn spec_name_id(&self) -> u32;

    spec fn spec_loc(&self, idx: usize) -> (u32, u32);

    fn src_id(&self) -> (r: u32)
        ensures
            r == self.spec_src_id(),
    ;

    fn name_id(&self) -> (r: u32)
        ensures
            r == self.spec_name_id(),
    ;

    fn packed_locinfo(&self, idx: usize) -> (r: (u32, u32))
        ensures
            r == self.spec_loc(idx),
    ;

    fn dst_line(&self) -> (r: u32)
        ensures
            r == self.spec_loc(0).0,
    {
        self.packed_locinfo(0).0
    }

    fn dst_col(&self) -> (r: u32)
        ensures
            r == self.spec_loc(0).1,
    {
        self.packed_locinfo(0).1
    }

    fn src_line(&self) -> (r: u32)
        ensures
            r == self.spec_loc(1).0,
    {
        self.packed_locinfo(1).0
    }

    fn src_col(&self) -> (r: u32)
        ensures
            r == self.spec_loc(1).1,
    {
        self.packed_locinfo(1).1
    }
}

impl LargeIndexItem {
    /// Packs a token; fails when an id or a position exceeds the record's
    /// fields.  Ids at or above the packed width that are not the sentinel
    /// are rejected rather than silently truncated.
    pub fn new(raw: &RawToken) -> (r: Result<LargeIndexItem, ErrorKind>)
        ensures
            r is Ok <==> large_src_id_ok(raw.src_id) && large_name_id_ok(raw.name_id) && loc_fits(
                raw.dst_line,
                raw.dst_col,
            ) && loc_fits(raw.src_line, raw.src_col),
            r matches Ok(ii) ==> {
                &&& ii.spec_loc(0) == (raw.dst_line, raw.dst_col)
                &&& ii.spec_loc(1) == (raw.src_line, raw.src_col)
                &&& (raw.src_id == !0u32 || raw.src_id < 0x3fff) ==> ii.spec_src_id()
                    == raw.src_id
                &&& (raw.name_id == !0u32 || raw.name_id < 0x3ffff) ==> ii.spec_name_id()
                    == raw.name_id
            },
            r matches Err(e) ==> {
                &&& (e is TooManySources <==> !large_src_id_ok(raw.src_id))
                &&& (e is TooManyNames <==> large_src_id_ok(raw.src_id) && !large_name_id_ok(
                    raw.name_id,
                ))
                &&& (e is LocationOverflow <==> large_src_id_ok(raw.src_id) && large_name_id_ok(
                    raw.name_id,
                ))
            },
    {
        let psrc_id: u32 = raw.src_id & 0x3fff;
        let pname_id: u32 = raw.name_id & 0x3ffff;
        if raw.src_id != !0u32 && psrc_id >= 0x3fff {
            return Err(ErrorKind::TooManySources);
        }
        if raw.name_id != !0u32 && pname_id >= 0x3ffff {
            return Err(ErrorKind::TooManyNames);
        }
        proof {
            bv_mask_small(raw.src_id);
            bv_mask_small(raw.name_id);
        }

        let (sdst, pdst) = match pack_loc_shape(raw.dst_line, raw.dst_col) {
            Ok(p) => p,
            Err(e) => {
                return Err(e);
            },
        };
        let (ssrc, psrc) = match pack_loc_shape(raw.src_line, raw.src_col) {
            Ok(p) => p,
            Err(e) => {
                return Err(e);
            },
        };
        proof {
            lemma_pack_loc_round_trip(raw.dst_line, raw.dst_col);
            lemma_pack_loc_round_trip(raw.src_line, raw.src_col);
            bv_locinfo(sdst as u64, ssrc as u64, pdst as u64, psrc as u64);
            bv_ids(psrc_id, pname_id);
        }

        Ok(
            LargeIndexItem {
                packed_locinfo: (((sdst as u64) << 63u64) | ((ssrc as u64) << 62u64) | ((
                pdst as u64) << 31u64) | (psrc as u64)),
                ids: (psrc_id << 18u32) | pname_id,
            },
        )
    }
}

impl IndexItem for LargeIndexItem {
    open spec fn spec_src_id(&self) -> u32 {
        let v = self.ids >> 18u32;
        if v == 0x3fff {
            !0u32
        } else {
            v
        }
    }

    open spec fn spec_name_id(&self) -> u32 {
        let v = self.ids & 0x3ffff;
        if v == 0x3ffff {
            !0u32
        } else {
            v
        }
    }

    open spec fn spec_loc(&self, idx: usize) -> (u32, u32) {
        if idx == 0 {
            unpack_loc(
                ((self.packed_locinfo >> 63u64) & 0x1) as u8,
                ((self.packed_locinfo >> 31u64) & 0x7fffffff) as u32,
            )
        } else {
            unpack_loc(
                ((self.packed_locinfo >> 62u64) & 0x1) as u8,
                (self.packed_locinfo & 0x7fffffff) as u32,
            )
        }
    }

    fn src_id(&self) -> (r: u32) {
        let mut src_id: u32 = self.ids >> 18u32;
        if src_id == 0x3fff {
            src_id = !0u32;
        }
        src_id
    }

    fn name_id(&self) -> (r: u32) {
        let mut name_id: u32 = self.ids & 0x3ffff;
        if name_id == 0x3ffff {
            name_id = !0u32;
        }
        name_id
    }

    fn packed_locinfo(&self, idx: usize) -> (r: (u32, u32)) {
        if idx == 0 {
            unpack_loc_shape(
                ((self.packed_locinfo >> 63u64) & 0x1) as u8,
                ((self.packed_locinfo >> 31u64) & 0x7fffffff) as u32,
            )
        } else {
            unpack_loc_shape(
                ((self.packed_locinfo >> 62u64) & 0x1) as u8,
                (self.packed_locinfo & 0x7fffffff) as u32,
            )
        }
    }
}

impl CompactIndexItem {
    /// Packs a token without a name id; source ids must fit 16 bits.
    pub fn new(raw: &RawToken) -> (r: Result<CompactIndexItem, ErrorKind>)
        ensures
            r is Ok <==> raw.src_id < 0xffff && loc_fits(raw.dst_line, raw.dst_col) && loc_fits(
                raw.src_line,
                raw.src_col,
            ),
            r matches Ok(ii) ==> {
                &&& ii.spec_loc(0) == (raw.dst_line, raw.dst_col)
                &&& ii.spec_loc(1) == (raw.src_line, raw.src_col)
                &&& ii.spec_src_id() == raw.src_id
                &&& ii.spec_name_id() == !0u32
            },
            r matches Err(e) ==> {
                &&& (e is TooManySources <==> raw.src_id >= 0xffff)
                &&& (e is LocationOverflow <==> raw.src_id < 0xffff)
            },
    {
        if raw.src_id >= 0xffff {
            return Err(ErrorKind::TooManySources);
        }
        let src_id = raw.src_id as u16;

        let (sdst, pdst) = match pack_loc_shape(raw.dst_line, raw.dst_col) {
            Ok(p) => p,
            Err(e) => {
                return Err(e);
            },
        };
        let (ssrc, psrc) = match pack_loc_shape(raw.src_line, raw.src_col) {
            Ok(p) => p,
            Err(e) => {
                return Err(e);
            },
        };
        proof {
            lemma_pack_loc_round_trip(raw.dst_line, raw.dst_col);
            lemma_pack_loc_round_trip(raw.src_line, raw.src_col);
            bv_locinfo(sdst as u64, ssrc as u64, pdst as u64, psrc as u64);
        }

        Ok(
            CompactIndexItem {
                packed_locinfo: (((sdst as u64) << 63u64) | ((ssrc as u64) << 62u64) | ((
                pdst as u64) << 31u64) | (psrc as u64)),
                src_id,
            },
        )
    }
}

impl IndexItem for CompactIndexItem {
    open spec fn spec_src_id(&self) -> u32 {
        self.src_id as u32
    }

    open spec fn spec_name_id(&self) -> u32 {
        !0u32
    }

    open spec fn spec_loc(&self, idx: usize) -> (u32, u32) {
        if idx == 0 {
            unpack_loc(
                ((self.packed_locinfo >> 63u64) & 0x1) as u8,
                ((self.packed_locinfo >> 31u64) & 0x7fffffff) as u32,
            )
        } else {
            unpack_loc(
                ((self.packed_locinfo >> 62u64) & 0x1) as u8,
                (self.packed_locinfo & 0x7fffffff) as u32,
            )
        }
    }

    fn src_id(&self) -> (r: u32) {
        self.src_id as u32
    }

    fn name_id(&self) -> (r: u32) {
        !0u32
    }

    fn packed_locinfo(&self, idx: usize) -> (r: (u32, u32)) {
        if idx == 0 {
            unpack_loc_shape(
                ((self.packed_locinfo >> 63u64) & 0x1) as u8,
                ((self.packed_locinfo >> 31u64) & 0x7fffffff) as u32,
            )
        } else {
            unpack_loc_shape(
                ((self.packed_locinfo >> 62u64) & 0x1) as u8,
                (self.packed_locinfo & 0x7fffffff) as u32,
            )
        }
    }
}

proof fn bv_vc_info(sdst: u64, pdst: u64, sl: u64, sid: u64)
    by (bit_vector)
    requires
        sdst <= 1,
        pdst < 0x80000000,
        sl < 0xffff,
        sid < 0xffff,
    ensures
        (((sdst << 63u64) | (pdst << 32u64) | (sl << 16u64) | sid) >> 63u64) & 1 == sdst,
        (((sdst << 63u64) | (pdst << 32u64) | (sl << 16u64) | sid) >> 32u64) & 0x7fffffff == pdst,
        (((sdst << 63u64) | (pdst << 32u64) | (sl << 16u64) | sid) >> 16u64) & 0xffff == sl,
        ((sdst << 63u64) | (pdst << 32u64) | (sl << 16u64) | sid) & 0xffff == sid,
{
}

impl VeryCompactIndexItem {
    /// Packs a token whose source column is zero into a single word; the
    /// source line and id must fit 16 bits.
    pub fn new(raw: &RawToken) -> (r: Result<VeryCompactIndexItem, ErrorKind>)
        ensures
            r is Ok <==> raw.src_id < 0xffff && loc_fits(raw.dst_line, raw.dst_col)
                && raw.src_line < 0xffff && raw.src_col == 0,
            r matches Ok(ii) ==> {
                &&& ii.spec_loc(0) == (raw.dst_line, raw.dst_col)
                &&& ii.spec_loc(1) == (raw.src_line, raw.src_col)
                &&& ii.spec_src_id() == raw.src_id
                &&& ii.spec_name_id() == !0u32
            },
            r matches Err(e) ==> {
                &&& (e is TooManySources <==> raw.src_id >= 0xffff)
                &&& (e is LocationOverflow <==> raw.src_id < 0xffff)
            },
    {
        if raw.src_id >= 0xffff {
            return Err(ErrorKind::TooManySources);
        }
        let src_id = raw.src_id as u16;

        let (sdst, pdst) = match pack_loc_shape(raw.dst_line, raw.dst_col) {
            Ok(p) => p,
            Err(e) => {
                return Err(e);
            },
        };
        if raw.src_line >= 0xffff || raw.src_col > 0 {
            return Err(ErrorKind::LocationOverflow);
        }
        proof {
            lemma_pack_loc_round_trip(raw.dst_line, raw.dst_col);
            bv_vc_info(sdst as u64, pdst as u64, raw.src_line as u64, src_id as u64);
        }

        Ok(
            VeryCompactIndexItem {
                packed_info: (((sdst as u64) << 63u64) | ((pdst as u64) << 32u64) | ((
                raw.src_line as u64) << 16u64) | (src_id as u64)),
            },
        )
    }
}

impl IndexItem for VeryCompactIndexItem {
    open spec fn spec_src_id(&self) -> u32 {
        (self.packed_info & 0xffff) as u32
    }

    open spec fn spec_name_id(&self) -> u32 {
        !0u32
    }

    open spec fn spec_loc(&self, idx: usize) -> (u32, u32) {
        if idx == 0 {
            unpack_loc(
                ((self.packed_info >> 63u64) & 0x1) as u8,
                ((self.packed_info >> 32u64) & 0x7fffffff) as u32,
            )
        } else {
            (((self.packed_info >> 16u64) & 0xffff) as u32, 0)
        }
    }

    fn src_id(&self) -> (r: u32) {
        (self.packed_info & 0xffff) as u32
    }

    fn name_id(&self) -> (r: u32) {
        !0u32
    }

    fn packed_locinfo(&self, idx: usize) -> (r: (u32, u32)) {
        if idx == 0 {
            unpack_loc_shape(
                ((self.packed_info >> 63u64) & 0x1) as u8,
                ((self.packed_info >> 32u64) & 0x7fffffff) as u32,
            )
        } else {
            (((self.packed_info >> 16u64) & 0xffff) as u32, 0)
        }
    }
}

} // verus!
