//! The memdb container: a self-describing binary buffer holding a header,
//! a sorted index of bit-packed token records, varint-prefixed string
//! blobs, and `u32` offset tables addressing them.
//!
//! Everything is little-endian.  The 36-byte header comes first: the
//! version word, the six layout widths, and the size and position of the
//! index and of the name, source and source-contents tables.  Readers
//! validate the header once and then address the buffer directly.

use vstd::prelude::*;
use vstd::bytes::{
    spec_u16_from_le_bytes, spec_u16_to_le_bytes, spec_u32_from_le_bytes, spec_u32_to_le_bytes,
    u16_from_le_bytes, u16_to_le_bytes, u32_from_le_bytes, u32_to_le_bytes,
    lemma_auto_spec_u16_to_from_le_bytes, lemma_auto_spec_u32_to_from_le_bytes,
};
use vstd::slice::{slice_index_get, slice_subrange, slice_to_vec};
use crate::errors::ErrorKind;
use crate::record::{decode_record, decode_record_bytes, IndexLayout};
use crate::types::RawToken;
use crate::varint::varint_at;

verus! {

/// The size of the serialized header in bytes.
pub const HEAD_SIZE: usize = 36;

/// The memdb header: version, record layout, token count, and the byte
/// position and element count of each `u32` offset table.  A zero count
/// means the table is absent.
#[derive(Debug, Copy, Clone, PartialEq, Eq, Structural)]
pub struct MapHead {
    pub version: u16,
    pub index_layout: IndexLayout,
    pub index_size: u32,
    pub names_start: u32,
    pub names_count: u32,
    pub sources_start: u32,
    pub sources_count: u32,
    pub source_contents_start: u32,
    pub source_contents_count: u32,
}

/// What a memdb dump should include beyond the index itself.
#[derive(Debug, Copy, Clone, PartialEq, Eq, Structural)]
pub struct DumpOptions {
    pub with_source_contents: bool,
    pub with_names: bool,
}

/// The serialized form of a header.
pub open spec fn head_bytes(h: MapHead) -> Seq<u8> {
    spec_u16_to_le_bytes(h.version) + seq![
        h.index_layout.dst_line_bits,
        h.index_layout.dst_col_bits,
        h.index_layout.src_line_bits,
        h.index_layout.src_col_bits,
        h.index_layout.src_id_bits,
        h.index_layout.name_id_bits,
    ] + spec_u32_to_le_bytes(h.index_size) + spec_u32_to_le_bytes(h.names_start)
        + spec_u32_to_le_bytes(h.names_count) + spec_u32_to_le_bytes(h.sources_start)
        + spec_u32_to_le_bytes(h.sources_count) + spec_u32_to_le_bytes(h.source_contents_start)
        + spec_u32_to_le_bytes(h.source_contents_count)
}

/// The header held in the first 36 bytes of a buffer.
pub open spec fn spec_head(b: Seq<u8>) -> MapHead {
    MapHead {
        version: spec_u16_from_le_bytes(b.subrange(0, 2)),
        index_layout: IndexLayout {
            dst_line_bits: b[2],
            dst_col_bits: b[3],
            src_line_bits: b[4],
            src_col_bits: b[5],
            src_id_bits: b[6],
            name_id_bits: b[7],
        },
        index_size: spec_u32_from_le_bytes(b.subrange(8, 12)),
        names_start: spec_u32_from_le_bytes(b.subrange(12, 16)),
        names_count: spec_u32_from_le_bytes(b.subrange(16, 20)),
        sources_start: spec_u32_from_le_bytes(b.subrange(20, 24)),
        sources_count: spec_u32_from_le_bytes(b.subrange(24, 28)),
        source_contents_start: spec_u32_from_le_bytes(b.subrange(28, 32)),
        source_contents_count: spec_u32_from_le_bytes(b.subrange(32, 36)),
    }
}

/// Parsing inverts serialization.
pub proof fn lemma_head_round_trip(h: MapHead, b: Seq<u8>)
    requires
        b.len() >= 36,
        b.subrange(0, 36) =~= head_bytes(h),
    ensures
        spec_head(b) == h,
{
    lemma_auto_spec_u16_to_from_le_bytes();
    lemma_auto_spec_u32_to_from_le_bytes();
    let hb = head_bytes(h);
    let p1 = spec_u16_to_le_bytes(h.version);
    let p2 = seq![
        h.index_layout.dst_line_bits,
        h.index_layout.dst_col_bits,
        h.index_layout.src_line_bits,
        h.index_layout.src_col_bits,
        h.index_layout.src_id_bits,
        h.index_layout.name_id_bits,
    ];
    let p3 = spec_u32_to_le_bytes(h.index_size);
    let p4 = spec_u32_to_le_bytes(h.names_start);
    let p5 = spec_u32_to_le_bytes(h.names_count);
    let p6 = spec_u32_to_le_bytes(h.sources_start);
    let p7 = spec_u32_to_le_bytes(h.sources_count);
    let p8 = spec_u32_to_le_bytes(h.source_contents_start);
    let p9 = spec_u32_to_le_bytes(h.source_contents_count);
    assert(p1.len() == 2 && p3.len() == 4 && p4.len() == 4 && p5.len() == 4 && p6.len() == 4
        && p7.len() == 4 && p8.len() == 4 && p9.len() == 4);
    let s2 = p1 + p2;
    let s3 = s2 + p3;
    let s4 = s3 + p4;
    let s5 = s4 + p5;
    let s6 = s5 + p6;
    let s7 = s6 + p7;
    let s8 = s7 + p8;
    let s9 = s8 + p9;
    assert(hb == s9);
    assert(s2.len() == 8 && s3.len() == 12 && s4.len() == 16 && s5.len() == 20 && s6.len() == 24
        && s7.len() == 28 && s8.len() == 32 && s9.len() == 36);
    assert(b.subrange(0, 2) =~= p1) by {
        assert forall|i: int| 0 <= i < 2 implies b[i] == p1[i] by {
            assert(hb[i] == p1[i]);
        }
    }
    assert(b[2] == hb[2] && b[3] == hb[3] && b[4] == hb[4] && b[5] == hb[5] && b[6] == hb[6] && b[7]
        == hb[7]);
    assert(b.subrange(8, 12) =~= p3) by {
        assert forall|i: int| 8 <= i < 12 implies b[i] == p3[i - 8] by {
            assert(hb[i] == s3[i]);
            assert(s3[i] == p3[i - 8]);
        }
    }
    assert(b.subrange(12, 16) =~= p4) by {
        assert forall|i: int| 12 <= i < 16 implies b[i] == p4[i - 12] by {
            assert(hb[i] == s4[i]);
            assert(s4[i] == p4[i - 12]);
        }
    }
    assert(b.subrange(16, 20) =~= p5) by {
        assert forall|i: int| 16 <= i < 20 implies b[i] == p5[i - 16] by {
            assert(hb[i] == s5[i]);
            assert(s5[i] == p5[i - 16]);
        }
    }
    assert(b.subrange(20, 24) =~= p6) by {
        assert forall|i: int| 20 <= i < 24 implies b[i] == p6[i - 20] by {
            assert(hb[i] == s6[i]);
            assert(s6[i] == p6[i - 20]);
        }
    }
    assert(b.subrange(24, 28) =~= p7) by {
        assert forall|i: int| 24 <= i < 28 implies b[i] == p7[i - 24] by {
            assert(hb[i] == s7[i]);
            assert(s7[i] == p7[i - 24]);
        }
    }
    assert(b.subrange(28, 32) =~= p8) by {
        assert forall|i: int| 28 <= i < 32 implies b[i] == p8[i - 28] by {
            assert(hb[i] == s8[i]);
            assert(s8[i] == p8[i - 28]);
        }
    }
    assert(b.subrange(32, 36) =~= p9) by {
        assert forall|i: int| 32 <= i < 36 implies b[i] == p9[i - 32] by {
            assert(hb[i] == s9[i]);
            assert(s9[i] == p9[i - 32]);
        }
    }
}

/// Appends the serialized header to `out`.
pub fn write_head(out: &mut Vec<u8>, h: &MapHead)
    ensures
        final(out)@ =~= old(out)@ + head_bytes(*h),
        final(out)@.len() == old(out)@.len() + 36,
{
    proof {
        lemma_auto_spec_u16_to_from_le_bytes();
        lemma_auto_spec_u32_to_from_le_bytes();
    }
    let mut v = u16_to_le_bytes(h.version);
    out.append(&mut v);
    out.push(h.index_layout.dst_line_bits);
    out.push(h.index_layout.dst_col_bits);
    out.push(h.index_layout.src_line_bits);
    out.push(h.index_layout.src_col_bits);
    out.push(h.index_layout.src_id_bits);
    out.push(h.index_layout.name_id_bits);
    let mut v = u32_to_le_bytes(h.index_size);
    out.append(&mut v);
    let mut v = u32_to_le_bytes(h.names_start);
    out.append(&mut v);
    let mut v = u32_to_le_bytes(h.names_count);
    out.append(&mut v);
    let mut v = u32_to_le_bytes(h.sources_start);
    out.append(&mut v);
    let mut v = u32_to_le_bytes(h.sources_count);
    out.append(&mut v);
    let mut v = u32_to_le_bytes(h.source_contents_start);
    out.append(&mut v);
    let mut v = u32_to_le_bytes(h.source_contents_count);
    out.append(&mut v);
}

/// Reads the header out of the first 36 bytes.
pub fn parse_head(b: &[u8]) -> (r: MapHead)
    requires
        b@.len() >= 36,
    ensures
        r == spec_head(b@),
{
    proof {
        lemma_auto_spec_u16_to_from_le_bytes();
        lemma_auto_spec_u32_to_from_le_bytes();
    }
    let version = u16_from_le_bytes(slice_subrange(b, 0, 2));
    let index_layout = IndexLayout {
        dst_line_bits: *slice_index_get(b, 2),
        dst_col_bits: *slice_index_get(b, 3),
        src_line_bits: *slice_index_get(b, 4),
        src_col_bits: *slice_index_get(b, 5),
        src_id_bits: *slice_index_get(b, 6),
        name_id_bits: *slice_index_get(b, 7),
    };
    let index_size = u32_from_le_bytes(slice_subrange(b, 8, 12));
    let names_start = u32_from_le_bytes(slice_subrange(b, 12, 16));
    let names_count = u32_from_le_bytes(slice_subrange(b, 16, 20));
    let sources_start = u32_from_le_bytes(slice_subrange(b, 20, 24));
    let sources_count = u32_from_le_bytes(slice_subrange(b, 24, 28));
    let source_contents_start = u32_from_le_bytes(slice_subrange(b, 28, 32));
    let source_contents_count = u32_from_le_bytes(slice_subrange(b, 32, 36));
    MapHead {
        version,
        index_layout,
        index_size,
        names_start,
        names_count,
        sources_start,
        sources_count,
        source_contents_start,
        source_contents_count,
    }
}

/// A buffer is a well-formed memdb when its header parses, carries the
/// supported version, its layout respects the codec's 32-bit limit, and
/// the index and each offset table lie within the buffer.
pub open spec fn valid_memdb(b: Seq<u8>) -> bool {
    &&& b.len() >= 36
    &&& spec_head(b).version == 1
    &&& spec_head(b).index_layout.wf()
    &&& 36 + spec_head(b).index_size * spec_head(b).index_layout.spec_item_size() <= b.len()
    &&& spec_head(b).names_start + 4 * spec_head(b).names_count <= b.len()
    &&& spec_head(b).sources_start + 4 * spec_head(b).sources_count <= b.len()
    &&& spec_head(b).source_contents_start + 4 * spec_head(b).source_contents_count <= b.len()
}

/// The token held in record `i` of the index.
pub open spec fn spec_token(b: Seq<u8>, i: int) -> RawToken {
    let h = spec_head(b);
    let isz = h.index_layout.spec_item_size() as int;
    decode_record(b.subrange(36 + i * isz, 36 + (i + 1) * isz), h.index_layout)
}

/// All tokens of the index, in record order.
pub open spec fn spec_tokens(b: Seq<u8>) -> Seq<RawToken> {
    Seq::new(spec_head(b).index_size as nat, |i: int| spec_token(b, i))
}

/// Entry `i` of the offset table at byte position `start`.
pub open spec fn spec_table_entry(b: Seq<u8>, start: int, i: int) -> u32 {
    spec_u32_from_le_bytes(b.subrange(start + 4 * i, start + 4 * i + 4))
}

/// The varint-length-prefixed byte string at `off`, bounds-checked.
pub open spec fn spec_string_at(b: Seq<u8>, off: int) -> Option<Seq<u8>> {
    match varint_at(b, off) {
        None => None,
        Some((n, e)) => if e + n <= b.len() {
            Some(b.subrange(e, e + n))
        } else {
            None
        },
    }
}

/// The stored bytes of name `i`, if the table has such an entry.
pub open spec fn spec_name_bytes(b: Seq<u8>, i: int) -> Option<Seq<u8>> {
    let h = spec_head(b);
    if 0 <= i < h.names_count {
        spec_string_at(b, spec_table_entry(b, h.names_start as int, i) as int)
    } else {
        None
    }
}

/// The stored bytes of source name `i`, if the table has such an entry.
pub open spec fn spec_source_bytes(b: Seq<u8>, i: int) -> Option<Seq<u8>> {
    let h = spec_head(b);
    if 0 <= i < h.sources_count {
        spec_string_at(b, spec_table_entry(b, h.sources_start as int, i) as int)
    } else {
        None
    }
}

/// The stored compressed contents of source `i`; the all-ones offset marks
/// an absent entry.
pub open spec fn spec_contents_bytes(b: Seq<u8>, i: int) -> Option<Seq<u8>> {
    let h = spec_head(b);
    if 0 <= i < h.source_contents_count {
        let off = spec_table_entry(b, h.source_contents_start as int, i);
        if off == 0xffffffffu32 {
            None
        } else {
            spec_string_at(b, off as int)
        }
    } else {
        None
    }
}

/// Relies on `alloc::borrow::Cow::into_owned`: yields the bytes the cow
/// holds, cloning them only when they are borrowed.
#[verifier::external_body]
fn cow_bytes_into_vec(cow: std::borrow::Cow<'_, [u8]>) -> (r: Vec<u8>)
    ensures
        r@ == cow@,
{
    cow.into_owned()
}

/// A sealed, read-only memdb over its backing bytes.  Every read the
/// accessors perform carries a verified bounds proof, so no operation
/// can touch a byte outside the backing buffer, however corrupt the
/// buffer's tables are.
pub struct MemDb {
    buf: Vec<u8>,
    head: MapHead,
}

impl View for MemDb {
    type V = Seq<u8>;

    closed spec fn view(&self) -> Seq<u8> {
        self.buf@
    }
}

/// A token looked up in a memdb; string resolution goes back through the
/// memdb the token came from.
pub struct Token<'a> {
    pub db: &'a MemDb,
    pub raw: RawToken,
}

impl MemDb {
    /// The cached header always mirrors the buffer.
    pub closed spec fn inv(self) -> bool {
        self.head == spec_head(self.buf@)
    }

    /// A memdb is well-formed when its backing buffer is.
    pub open spec fn wf(self) -> bool {
        valid_memdb(self@) && self.inv()
    }

    /// The tokens of the index.
    pub open spec fn tokens(self) -> Seq<RawToken> {
        spec_tokens(self@)
    }

    /// Opens a memdb over an owned byte vector.  Succeeds exactly on a
    /// well-formed buffer; a buffer too small for the header or with a
    /// table out of bounds is `BadMemDb`, a version other than 1 is
    /// `UnsupportedMemDbVersion`.
    pub fn from_vec(buffer: Vec<u8>) -> (r: Result<MemDb, ErrorKind>)
        ensures
            r is Ok <==> valid_memdb(buffer@),
            r matches Ok(db) ==> db.wf() && db@ == buffer@,
            r matches Err(e) ==> (e is UnsupportedMemDbVersion || e is BadMemDb) && (
            e is UnsupportedMemDbVersion <==> buffer@.len() >= 36 && spec_head(buffer@).version
                != 1),
    {
        if buffer.len() < HEAD_SIZE {
            return Err(ErrorKind::BadMemDb);
        }
        let head = parse_head(buffer.as_slice());
        if head.version != 1 {
            return Err(ErrorKind::UnsupportedMemDbVersion);
        }
        let l = head.index_layout;
        if l.dst_line_bits > 32 || l.dst_col_bits > 32 || l.src_line_bits > 32 || l.src_col_bits
            > 32 || l.src_id_bits > 32 || l.name_id_bits > 32 {
            return Err(ErrorKind::BadMemDb);
        }
        let len64 = buffer.len() as u64;
        let isz = l.item_size();
        proof {
            vstd::arithmetic::mul::lemma_mul_upper_bound(
                head.index_size as int,
                0xffffffff,
                isz as int,
                24,
            );
        }
        if 36 + (head.index_size as u64) * (isz as u64) > len64 {
            return Err(ErrorKind::BadMemDb);
        }
        if (head.names_start as u64) + 4 * (head.names_count as u64) > len64 {
            return Err(ErrorKind::BadMemDb);
        }
        if (head.sources_start as u64) + 4 * (head.sources_count as u64) > len64 {
            return Err(ErrorKind::BadMemDb);
        }
        if (head.source_contents_start as u64) + 4 * (head.source_contents_count as u64) > len64 {
            return Err(ErrorKind::BadMemDb);
        }
        Ok(MemDb { buf: buffer, head })
    }

    /// Opens a memdb over bytes that may be borrowed or owned.
    pub fn from_cow(cow: std::borrow::Cow<'_, [u8]>) -> (r: Result<MemDb, ErrorKind>)
        ensures
            r is Ok <==> valid_memdb(cow@),
            r matches Ok(db) ==> db.wf() && db@ == cow@,
            r matches Err(e) ==> (e is UnsupportedMemDbVersion || e is BadMemDb) && (
            e is UnsupportedMemDbVersion <==> cow@.len() >= 36 && spec_head(cow@).version != 1),
    {
        MemDb::from_vec(cow_bytes_into_vec(cow))
    }

    /// Opens a memdb over a borrowed slice by copying it.
    pub fn from_slice(buffer: &[u8]) -> (r: Result<MemDb, ErrorKind>)
        ensures
            r is Ok <==> valid_memdb(buffer@),
            r matches Ok(db) ==> db.wf() && db@ == buffer@,
            r matches Err(e) ==> (e is UnsupportedMemDbVersion || e is BadMemDb) && (
            e is UnsupportedMemDbVersion <==> buffer@.len() >= 36 && spec_head(buffer@).version
                != 1),
    {
        MemDb::from_vec(slice_to_vec(buffer))
    }

    /// The number of tokens in the index.
    pub fn get_token_count(&self) -> (r: u32)
        requires
            self.wf(),
        ensures
            r == spec_head(self@).index_size,
    {
        self.head.index_size
    }

    /// The number of sources in the source table.
    pub fn get_source_count(&self) -> (r: u32)
        requires
            self.wf(),
        ensures
            r == spec_head(self@).sources_count,
    {
        self.head.sources_count
    }

    /// The backing bytes.
    pub fn buffer(&self) -> (r: &[u8])
        ensures
            r@ == self@,
    {
        self.buf.as_slice()
    }

    /// Reads token `idx` of the index; `None` past the end.
    pub fn get_token<'a>(&'a self, idx: u32) -> (r: Option<Token<'a>>)
        requires
            self.wf(),
        ensures
            r is Some <==> idx < spec_head(self@).index_size,
            r matches Some(t) ==> t.raw == self.tokens()[idx as int] && t.db == self,
    {
        if idx >= self.head.index_size {
            return None;
        }
        let l = self.head.index_layout;
        let isz = l.item_size();
        let blen = self.buf.len();
        proof {
            let i = idx as int;
            let c = self.head.index_size as int;
            let z = isz as int;
            vstd::arithmetic::mul::lemma_mul_inequality(i + 1, c, z);
            vstd::arithmetic::mul::lemma_mul_is_distributive_add(z, i, 1);
            vstd::arithmetic::mul::lemma_mul_is_commutative(i + 1, z);
            vstd::arithmetic::mul::lemma_mul_is_commutative(i, z);
            vstd::arithmetic::mul::lemma_mul_basics(z);
            assert(i * z + z <= c * z);
            assert(36 + c * z <= blen);
        }
        let start64 = 36u64 + (idx as u64) * (isz as u64);
        let start = start64 as usize;
        let end = start + isz;
        let rec = slice_subrange(self.buf.as_slice(), start, end);
        let raw = decode_record_bytes(rec, &l);
        Some(Token { db: self, raw })
    }

    /// Reads the varint-prefixed byte string at `off`, bounds-checked.
    fn string_at(&self, off: u32) -> (r: Option<&[u8]>)
        requires
            self.wf(),
        ensures
            match spec_string_at(self@, off as int) {
                None => r is None,
                Some(bs) => r matches Some(s) && s@ == bs,
            },
    {
        let blen = self.buf.len();
        proof {
            crate::varint::lemma_varint_at_bounds(self.buf@, off as int);
        }
        match crate::varint::varint_decode(self.buf.as_slice(), off as usize) {
            None => None,
            Some((n, e)) => {
                if n <= (blen - e) as u64 {
                    Some(slice_subrange(self.buf.as_slice(), e, e + n as usize))
                } else {
                    None
                }
            },
        }
    }

    /// Reads entry `idx` of the offset table at `start` and resolves the
    /// byte string it points to.
    fn get_bytes(&self, start: u32, count: u32, idx: u32) -> (r: Option<&[u8]>)
        requires
            self.wf(),
            start + 4 * count <= self@.len(),
        ensures
            ({
                let e = if idx < count {
                    spec_string_at(
                        self@,
                        spec_table_entry(self@, start as int, idx as int) as int,
                    )
                } else {
                    None
                };
                match e {
                    None => r is None,
                    Some(bs) => r matches Some(s) && s@ == bs,
                }
            }),
    {
        if idx >= count {
            return None;
        }
        let blen = self.buf.len();
        let pos64 = (start as u64) + 4 * (idx as u64);
        let pos = pos64 as usize;
        let off = u32_from_le_bytes(slice_subrange(self.buf.as_slice(), pos, pos + 4));
        self.string_at(off)
    }

    /// Resolves name `name_id` to its string; `None` when the id is out of
    /// range, the entry is unreadable, or the bytes are not UTF-8.
    pub fn get_name(&self, name_id: u32) -> (r: Option<&str>)
        requires
            self.wf(),
        ensures
            match spec_name_bytes(self@, name_id as int) {
                None => r is None,
                Some(bs) => if vstd::utf8::valid_utf8(bs) {
                    r matches Some(s) && s@ == vstd::utf8::decode_utf8(bs)
                } else {
                    r is None
                },
            },
    {
        match self.get_bytes(self.head.names_start, self.head.names_count, name_id) {
            None => None,
            Some(bs) => crate::compress::bytes_to_str(bs),
        }
    }

    /// Resolves source `src_id` to its file name.
    pub fn get_source(&self, src_id: u32) -> (r: Option<&str>)
        requires
            self.wf(),
        ensures
            match spec_source_bytes(self@, src_id as int) {
                None => r is None,
                Some(bs) => if vstd::utf8::valid_utf8(bs) {
                    r matches Some(s) && s@ == vstd::utf8::decode_utf8(bs)
                } else {
                    r is None
                },
            },
    {
        match self.get_bytes(self.head.sources_start, self.head.sources_count, src_id) {
            None => None,
            Some(bs) => crate::compress::bytes_to_str(bs),
        }
    }

    /// Decompresses the stored contents of source `src_id`.  An absent
    /// entry (the all-ones offset) yields `None` without touching the
    /// decompressor.
    pub fn get_source_contents(&self, src_id: u32) -> (r: Option<String>)
        requires
            self.wf(),
        ensures
            match spec_contents_bytes(self@, src_id as int) {
                None => r is None,
                Some(cb) => match crate::compress::unbrotli_of(cb) {
                    None => r is None,
                    Some(plain) => if vstd::utf8::valid_utf8(plain) {
                        r matches Some(s) && s@ == vstd::utf8::decode_utf8(plain)
                    } else {
                        r is None
                    },
                },
            },
    {
        let h = self.head;
        if src_id >= h.source_contents_count {
            return None;
        }
        let blen = self.buf.len();
        let pos64 = (h.source_contents_start as u64) + 4 * (src_id as u64);
        let pos = pos64 as usize;
        let off = u32_from_le_bytes(slice_subrange(self.buf.as_slice(), pos, pos + 4));
        if off == 0xffffffffu32 {
            return None;
        }
        match self.string_at(off) {
            None => None,
            Some(bs) => match crate::compress::brotli_decompress(bs) {
                None => None,
                Some(v) => match crate::compress::bytes_to_str(v.as_slice()) {
                    None => None,
                    Some(s) => Some(s.to_owned()),
                },
            },
        }
    }
}

/// Whether a token's destination position is at or before the query.
pub open spec fn dst_le(t: RawToken, line: u32, col: u32) -> bool {
    t.dst_line < line || (t.dst_line == line && t.dst_col <= col)
}

/// Whether `a`'s destination position is at or before `b`'s.
pub open spec fn dst_pair_le(a: RawToken, b: RawToken) -> bool {
    a.dst_line < b.dst_line || (a.dst_line == b.dst_line && a.dst_col <= b.dst_col)
}

/// A token stream sorted by destination position, ascending.
pub open spec fn sorted_by_dst(toks: Seq<RawToken>) -> bool {
    forall|i: int, j: int|
        0 <= i < j < toks.len() ==> dst_pair_le(#[trigger] toks[i], #[trigger] toks[j])
}

impl MemDb {
    /// Finds the greatest token whose destination position is at or before
    /// the query, by binary search over the sorted index: `None` when the
    /// query lies before every token, and ties at one destination resolve
    /// to the greatest record index.
    pub fn lookup_token<'a>(&'a self, line: u32, col: u32) -> (r: Option<Token<'a>>)
        requires
            self.wf(),
        ensures
            r matches Some(t) ==> t.db == self && exists|i: int|
                0 <= i < self.tokens().len() && t.raw == self.tokens()[i],
            sorted_by_dst(self.tokens()) ==> match r {
                None => forall|i: int|
                    0 <= i < self.tokens().len() ==> !dst_le(#[trigger] self.tokens()[i], line, col),
                Some(t) => exists|i: int|
                    {
                        &&& 0 <= i < self.tokens().len()
                        &&& t.raw == self.tokens()[i]
                        &&& dst_le(#[trigger] self.tokens()[i], line, col)
                        &&& forall|j: int|
                            i < j < self.tokens().len() ==> !dst_le(
                                #[trigger] self.tokens()[j],
                                line,
                                col,
                            )
                    },
            },
    {
        let n = self.head.index_size;
        let mut low: u32 = 0;
        let mut high: u32 = n;
        let ghost toks = self.tokens();
        while low < high
            invariant
                self.wf(),
                toks == self.tokens(),
                n == spec_head(self@).index_size,
                low <= high <= n,
                sorted_by_dst(toks) ==> (low > 0 ==> dst_le(toks[low - 1], line, col)),
                sorted_by_dst(toks) ==> (forall|j: int|
                    high <= j < n ==> !dst_le(#[trigger] toks[j], line, col)),
            decreases high - low,
        {
            let mid = low + (high - low) / 2;
            let raw = match self.get_token(mid) {
                Some(t) => t.raw,
                None => unreached(),
            };
            if line < raw.dst_line || (line == raw.dst_line && col < raw.dst_col) {
                proof {
                    if sorted_by_dst(toks) {
                        assert forall|j: int| mid <= j < n implies !dst_le(
                            #[trigger] toks[j],
                            line,
                            col,
                        ) by {
                            if j > mid {
                                assert(dst_pair_le(toks[mid as int], toks[j]));
                            }
                        }
                    }
                }
                high = mid;
            } else {
                low = mid + 1;
            }
        }
        if low > 0 {
            let r = self.get_token(low - 1);
            proof {
                if sorted_by_dst(toks) {
                    assert(dst_le(toks[low - 1], line, col));
                }
            }
            r
        } else {
            None
        }
    }
}

impl<'a> Token<'a> {
    /// The destination (minified) line number.
    pub fn get_dst_line(&self) -> (r: u32)
        ensures
            r == self.raw.dst_line,
    {
        self.raw.dst_line
    }

    /// The destination (minified) column number.
    pub fn get_dst_col(&self) -> (r: u32)
        ensures
            r == self.raw.dst_col,
    {
        self.raw.dst_col
    }

    /// The destination line and column.
    pub fn get_dst(&self) -> (r: (u32, u32))
        ensures
            r == (self.raw.dst_line, self.raw.dst_col),
    {
        (self.get_dst_line(), self.get_dst_col())
    }

    /// The source line number.
    pub fn get_src_line(&self) -> (r: u32)
        ensures
            r == self.raw.src_line,
    {
        self.raw.src_line
    }

    /// The source column number.
    pub fn get_src_col(&self) -> (r: u32)
        ensures
            r == self.raw.src_col,
    {
        self.raw.src_col
    }

    /// The source line and column.
    pub fn get_src(&self) -> (r: (u32, u32))
        ensures
            r == (self.raw.src_line, self.raw.src_col),
    {
        (self.get_src_line(), self.get_src_col())
    }

    /// The source file name of this token, if the memdb resolves it.
    pub fn get_source(&self) -> (r: Option<&'a str>)
        requires
            self.db.wf(),
        ensures
            match spec_source_bytes(self.db@, self.raw.src_id as int) {
                None => r is None,
                Some(bs) => if vstd::utf8::valid_utf8(bs) {
                    r matches Some(s) && s@ == vstd::utf8::decode_utf8(bs)
                } else {
                    r is None
                },
            },
    {
        self.db.get_source(self.raw.src_id)
    }

    /// The name of this token, if the memdb resolves it.
    pub fn get_name(&self) -> (r: Option<&'a str>)
        requires
            self.db.wf(),
        ensures
            match spec_name_bytes(self.db@, self.raw.name_id as int) {
                None => r is None,
                Some(bs) => if vstd::utf8::valid_utf8(bs) {
                    r matches Some(s) && s@ == vstd::utf8::decode_utf8(bs)
                } else {
                    r is None
                },
            },
    {
        self.db.get_name(self.raw.name_id)
    }

    /// Whether a name resolves for this token.
    pub fn has_name(&self) -> (r: bool)
        requires
            self.db.wf(),
        ensures
            r == match spec_name_bytes(self.db@, self.raw.name_id as int) {
                None => false,
                Some(bs) => vstd::utf8::valid_utf8(bs),
            },
    {
        self.get_name().is_some()
    }

    /// The token as a `(source, src_line, src_col, name)` tuple, with an
    /// empty source name when none resolves.
    pub fn to_tuple(&self) -> (r: (&'a str, u32, u32, Option<&'a str>))
        requires
            self.db.wf(),
        ensures
            r.1 == self.raw.src_line,
            r.2 == self.raw.src_col,
            match spec_source_bytes(self.db@, self.raw.src_id as int) {
                None => r.0@ == Seq::<char>::empty(),
                Some(bs) => if vstd::utf8::valid_utf8(bs) {
                    r.0@ == vstd::utf8::decode_utf8(bs)
                } else {
                    r.0@ == Seq::<char>::empty()
                },
            },
            match spec_name_bytes(self.db@, self.raw.name_id as int) {
                None => r.3 is None,
                Some(bs) => if vstd::utf8::valid_utf8(bs) {
                    r.3 matches Some(s) && s@ == vstd::utf8::decode_utf8(bs)
                } else {
                    r.3 is None
                },
            },
    {
        let src = match self.get_source() {
            Some(s) => s,
            None => {
                let e = "";
                proof {
                    reveal_strlit("");
                }
                e
            },
        };
        (src, self.get_src_line(), self.get_src_col(), self.get_name())
    }

    /// The underlying raw token.
    pub fn get_raw_token(&self) -> (r: RawToken)
        ensures
            r == self.raw,
    {
        self.raw
    }
}

/// The legacy packed record of the position-packer format: both positions
/// shape-packed into one 64-bit word, the two ids in a 32-bit word.
#[derive(Debug, Copy, Clone, PartialEq, Eq, Structural)]
pub struct IndexItem {
    pub packed_locinfo: u64,
    pub ids: u32,
}

impl IndexItem {
    /// The unpacked destination position.
    pub open spec fn spec_dst(self) -> (u32, u32) {
        crate::memidx::unpack_loc(
            ((self.packed_locinfo >> 63u64) & 0x1) as u8,
            ((self.packed_locinfo >> 31u64) & 0x7fffffff) as u32,
        )
    }

    /// The unpacked source position.
    pub open spec fn spec_src(self) -> (u32, u32) {
        crate::memidx::unpack_loc(
            ((self.packed_locinfo >> 62u64) & 0x1) as u8,
            (self.packed_locinfo & 0x7fffffff) as u32,
        )
    }

    /// The source id, with the all-ones packed value decoding to `!0`.
    pub open spec fn spec_src_id(self) -> u32 {
        let v = self.ids >> 18u32;
        if v == 0x3fff {
            !0u32
        } else {
            v
        }
    }

    /// The name id, with the all-ones packed value decoding to `!0`.
    pub open spec fn spec_name_id(self) -> u32 {
        let v = self.ids & 0x3ffff;
        if v == 0x3ffff {
            !0u32
        } else {
            v
        }
    }

    /// Packs a token; fails when an id or a position exceeds the record's
    /// fields.
    pub fn new(raw: &RawToken) -> (r: Result<IndexItem, ErrorKind>)
        ensures
            r is Ok <==> crate::memidx::large_src_id_ok(raw.src_id) && crate::memidx::large_name_id_ok(
                raw.name_id,
            ) && crate::memidx::loc_fits(raw.dst_line, raw.dst_col) && crate::memidx::loc_fits(
                raw.src_line,
                raw.src_col,
            ),
            r matches Ok(ii) ==> {
                &&& ii.spec_dst() == (raw.dst_line, raw.dst_col)
                &&& ii.spec_src() == (raw.src_line, raw.src_col)
                &&& (raw.src_id == !0u32 || raw.src_id < 0x3fff) ==> ii.spec_src_id()
                    == raw.src_id
                &&& (raw.name_id == !0u32 || raw.name_id < 0x3ffff) ==> ii.spec_name_id()
                    == raw.name_id
            },
            r matches Err(e) ==> {
                &&& (e is TooManySources <==> !crate::memidx::large_src_id_ok(raw.src_id))
                &&& (e is TooManyNames <==> crate::memidx::large_src_id_ok(raw.src_id)
                    && !crate::memidx::large_name_id_ok(raw.name_id))
                &&& (e is LocationOverflow <==> crate::memidx::large_src_id_ok(raw.src_id)
                    && crate::memidx::large_name_id_ok(raw.name_id))
            },
    {
        let packed_src_id: u32 = raw.src_id & 0x3fff;
        let packed_name_id: u32 = raw.name_id & 0x3ffff;
        if raw.src_id != !0u32 && packed_src_id >= 0x3fff {
            return Err(ErrorKind::TooManySources);
        }
        if raw.name_id != !0u32 && packed_name_id >= 0x3ffff {
            return Err(ErrorKind::TooManyNames);
        }
        proof {
            crate::memidx::bv_mask_small(raw.src_id);
            crate::memidx::bv_mask_small(raw.name_id);
        }

        let (shape_dst, packed_dst) = match crate::memidx::pack_loc_shape(
            raw.dst_line,
            raw.dst_col,
        ) {
            Ok(p) => p,
            Err(e) => {
                return Err(e);
            },
        };
        let (shape_src, packed_src) = match crate::memidx::pack_loc_shape(
            raw.src_line,
            raw.src_col,
        ) {
            Ok(p) => p,
            Err(e) => {
                return Err(e);
            },
        };
        proof {
            crate::memidx::lemma_pack_loc_round_trip(raw.dst_line, raw.dst_col);
            crate::memidx::lemma_pack_loc_round_trip(raw.src_line, raw.src_col);
            crate::memidx::bv_locinfo(
                shape_dst as u64,
                shape_src as u64,
                packed_dst as u64,
                packed_src as u64,
            );
            crate::memidx::bv_ids(packed_src_id, packed_name_id);
        }

        Ok(
            IndexItem {
                packed_locinfo: (((shape_dst as u64) << 63u64) | ((shape_src as u64) << 62u64) | ((
                packed_dst as u64) << 31u64) | (packed_src as u64)),
                ids: (packed_src_id << 18u32) | packed_name_id,
            },
        )
    }

    /// The source id.
    pub fn src_id(&self) -> (r: u32)
        ensures
            r == self.spec_src_id(),
    {
        let mut src_id: u32 = self.ids >> 18u32;
        if src_id == 0x3fff {
            src_id = !0u32;
        }
        src_id
    }

    /// The name id.
    pub fn name_id(&self) -> (r: u32)
        ensures
            r == self.spec_name_id(),
    {
        let mut name_id: u32 = self.ids & 0x3ffff;
        if name_id == 0x3ffff {
            name_id = !0u32;
        }
        name_id
    }

    /// The destination line.
    pub fn dst_line(&self) -> (r: u32)
        ensures
            r == self.spec_dst().0,
    {
        crate::memidx::unpack_loc_shape(
            ((self.packed_locinfo >> 63u64) & 0x1) as u8,
            ((self.packed_locinfo >> 31u64) & 0x7fffffff) as u32,
        ).0
    }

    /// The destination column.
    pub fn dst_col(&self) -> (r: u32)
        ensures
            r == self.spec_dst().1,
    {
        crate::memidx::unpack_loc_shape(
            ((self.packed_locinfo >> 63u64) & 0x1) as u8,
            ((self.packed_locinfo >> 31u64) & 0x7fffffff) as u32,
        ).1
    }

    /// The source line.
    pub fn src_line(&self) -> (r: u32)
        ensures
            r == self.spec_src().0,
    {
        crate::memidx::unpack_loc_shape(
            ((self.packed_locinfo >> 62u64) & 0x1) as u8,
            (self.packed_locinfo & 0x7fffffff) as u32,
        ).0
    }

    /// The source column.
    pub fn src_col(&self) -> (r: u32)
        ensures
            r == self.spec_src().1,
    {
        crate::memidx::unpack_loc_shape(
            ((self.packed_locinfo >> 62u64) & 0x1) as u8,
            (self.packed_locinfo & 0x7fffffff) as u32,
        ).1
    }
}

/// Records `0..upto` of the index in `b` decode to the given tokens.
pub open spec fn records_ok(b: Seq<u8>, toks: Seq<RawToken>, l: IndexLayout, upto: int) -> bool {
    forall|j: int|
        0 <= j < upto ==> decode_record(
            #[trigger] b.subrange(
                36 + j * (l.spec_item_size() as int),
                36 + (j + 1) * (l.spec_item_size() as int),
            ),
            l,
        ) == crate::record::persisted(toks[j], l)
}

/// Offsets `0..upto` point at the given byte strings in `b`.
pub open spec fn blobs_ok(b: Seq<u8>, offs: Seq<u32>, datas: Seq<Seq<u8>>, upto: int) -> bool {
    forall|j: int|
        0 <= j < upto ==> (#[trigger] offs[j]) >= 36 && spec_string_at(b, offs[j] as int) == Some(
            datas[j],
        )
}

/// Contents offsets `0..upto` are either the absent sentinel or point at
/// bytes that decompress to the given contents.
pub open spec fn contents_ok(
    b: Seq<u8>,
    offs: Seq<u32>,
    cs: Seq<Option<String>>,
    upto: int,
) -> bool {
    forall|j: int|
        0 <= j < upto ==> match cs[j] {
            None => (#[trigger] offs[j]) == 0xffffffffu32,
            Some(c) => offs[j] >= 36 && offs[j] != 0xffffffffu32 && (spec_string_at(
                b,
                offs[j] as int,
            ) matches Some(cb) && crate::compress::unbrotli_of(cb) == Some(
                vstd::utf8::encode_utf8(c@),
            )),
        }
}

/// One buffer extends another without changing it.
pub open spec fn buf_extends(b2: Seq<u8>, b1: Seq<u8>) -> bool {
    b1.len() <= b2.len() && (forall|k: int| 0 <= k < b1.len() ==> b1[k] == #[trigger] b2[k])
}

/// A decodable string survives appending to the buffer.
proof fn lemma_string_at_stable(b1: Seq<u8>, b2: Seq<u8>, off: int)
    requires
        0 <= off,
        buf_extends(b2, b1),
        spec_string_at(b1, off) is Some,
    ensures
        spec_string_at(b2, off) == spec_string_at(b1, off),
{
    crate::varint::lemma_varint_at_bounds(b1, off);
    crate::varint::lemma_varint_at_prefix(b1, b2, off);
    let p = varint_at(b1, off)->Some_0;
    assert(b2.subrange(p.1, p.1 + p.0) =~= b1.subrange(p.1, p.1 + p.0));
}

/// A string read depends only on the bytes from its offset on.
proof fn lemma_string_at_agree(s1: Seq<u8>, s2: Seq<u8>, off: int)
    requires
        0 <= off,
        s1.len() == s2.len(),
        forall|k: int| off <= k < s1.len() ==> s1[k] == #[trigger] s2[k],
    ensures
        spec_string_at(s2, off) == spec_string_at(s1, off),
{
    crate::varint::lemma_varint_at_agree(s1, s2, off);
    crate::varint::lemma_varint_at_bounds(s1, off);
    match varint_at(s1, off) {
        None => {},
        Some(p) => {
            if off <= p.1 && p.1 + p.0 <= s1.len() {
                assert(s2.subrange(p.1, p.1 + p.0) =~= s1.subrange(p.1, p.1 + p.0));
            }
        },
    }
}

/// All recorded blob facts survive appending to the buffer.
proof fn lemma_blobs_ok_stable(b1: Seq<u8>, b2: Seq<u8>, offs: Seq<u32>, datas: Seq<Seq<u8>>, upto: int)
    requires
        buf_extends(b2, b1),
        blobs_ok(b1, offs, datas, upto),
    ensures
        blobs_ok(b2, offs, datas, upto),
{
    assert forall|j: int| 0 <= j < upto implies (#[trigger] offs[j]) >= 36 && spec_string_at(
        b2,
        offs[j] as int,
    ) == Some(datas[j]) by {
        lemma_string_at_stable(b1, b2, offs[j] as int);
    }
}

/// All recorded contents facts survive appending to the buffer.
proof fn lemma_contents_ok_stable(
    b1: Seq<u8>,
    b2: Seq<u8>,
    offs: Seq<u32>,
    cs: Seq<Option<String>>,
    upto: int,
)
    requires
        buf_extends(b2, b1),
        contents_ok(b1, offs, cs, upto),
    ensures
        contents_ok(b2, offs, cs, upto),
{
    assert forall|j: int| 0 <= j < upto implies match cs[j] {
        None => (#[trigger] offs[j]) == 0xffffffffu32,
        Some(c) => offs[j] >= 36 && offs[j] != 0xffffffffu32 && (spec_string_at(
            b2,
            offs[j] as int,
        ) matches Some(cb) && crate::compress::unbrotli_of(cb) == Some(
            vstd::utf8::encode_utf8(c@),
        )),
    } by {
        if cs[j] is Some {
            lemma_string_at_stable(b1, b2, offs[j] as int);
        }
    }
}

/// Buffer extension is transitive.
proof fn lemma_buf_extends_trans(b3: Seq<u8>, b2: Seq<u8>, b1: Seq<u8>)
    requires
        buf_extends(b3, b2),
        buf_extends(b2, b1),
    ensures
        buf_extends(b3, b1),
{
    assert forall|k: int| 0 <= k < b1.len() implies b1[k] == #[trigger] b3[k] by {
        assert(b1[k] == b2[k]);
        assert(b2[k] == b3[k]);
    }
}

/// All recorded index records survive appending to the buffer.
proof fn lemma_records_ok_stable(
    b1: Seq<u8>,
    b2: Seq<u8>,
    toks: Seq<RawToken>,
    l: IndexLayout,
    upto: int,
)
    requires
        buf_extends(b2, b1),
        36 + upto * (l.spec_item_size() as int) <= b1.len(),
        records_ok(b1, toks, l, upto),
    ensures
        records_ok(b2, toks, l, upto),
{
    let isz = l.spec_item_size() as int;
    assert forall|j: int| 0 <= j < upto implies decode_record(
        #[trigger] b2.subrange(36 + j * isz, 36 + (j + 1) * isz),
        l,
    ) == crate::record::persisted(toks[j], l) by {
        vstd::arithmetic::mul::lemma_mul_inequality(j + 1, upto, isz);
        vstd::arithmetic::mul::lemma_mul_is_distributive_add_other_way(isz, j, 1);
        vstd::arithmetic::mul::lemma_mul_basics(isz);
        assert(b2.subrange(36 + j * isz, 36 + (j + 1) * isz) =~= b1.subrange(
            36 + j * isz,
            36 + (j + 1) * isz,
        ));
    }
}

/// Appends one varint-length-prefixed byte string and returns its offset;
/// fails only when the buffer has outgrown 32-bit offsets.
fn write_blob(out: &mut Vec<u8>, bytes: &[u8]) -> (r: Result<u32, ErrorKind>)
    ensures
        r matches Ok(off) ==> {
            &&& off == old(out)@.len()
            &&& buf_extends(final(out)@, old(out)@)
            &&& spec_string_at(final(out)@, off as int) == Some(bytes@)
            &&& final(out)@.len() == old(out)@.len() + crate::varint::varint(
                bytes@.len() as nat,
            ).len() + bytes@.len()
        },
        r matches Err(e) ==> e is InternalError,
        r is Err <==> old(out)@.len() > 0xffffffff,
{
    let off = out.len();
    if off > (u32::MAX as usize) {
        return Err(ErrorKind::InternalError);
    }
    crate::varint::varint_encode(out, bytes.len() as u64);
    out.extend_from_slice(bytes);
    proof {
        let b = out@;
        let n = bytes@.len() as nat;
        assert(b.subrange(off as int, off + crate::varint::varint(n).len()) =~= crate::varint::varint(
            n,
        ));
        crate::varint::lemma_varint_at(b, off as int, n);
        let e = off + crate::varint::varint(n).len();
        assert(b.subrange(e, e + n) =~= bytes@);
    }
    Ok(off as u32)
}

/// The total size of a blob of varint-length-prefixed byte strings.
pub open spec fn blob_size(datas: Seq<Seq<u8>>) -> nat
    decreases datas.len(),
{
    if datas.len() == 0 {
        0
    } else {
        blob_size(datas.drop_last()) + crate::varint::varint(datas.last().len()).len()
            + datas.last().len()
    }
}

/// Rounds up to the next multiple of four.
pub open spec fn pad4(n: nat) -> nat {
    if n % 4 == 0 {
        n
    } else {
        (n + 4 - n % 4) as nat
    }
}

/// The exact size of a memdb built without source contents: the padded
/// index, the two string blobs, and the two offset tables.
pub open spec fn nocontents_size(
    toks: Seq<RawToken>,
    nbytes: Seq<Seq<u8>>,
    sbytes: Seq<Seq<u8>>,
    with_names: bool,
) -> nat {
    let kept = if with_names {
        nbytes
    } else {
        Seq::empty()
    };
    pad4(36 + toks.len() * crate::record::layout_spec(toks, with_names).spec_item_size())
        + blob_size(kept) + blob_size(sbytes) + 4 * kept.len() + 4 * sbytes.len()
}

/// A blob only grows with its entries.
proof fn lemma_blob_size_take(datas: Seq<Seq<u8>>, i: int)
    requires
        0 <= i <= datas.len(),
    ensures
        blob_size(datas.take(i)) <= blob_size(datas),
    decreases datas.len() - i,
{
    if i == datas.len() {
        assert(datas.take(i) =~= datas);
    } else {
        lemma_blob_size_take(datas, i + 1);
        assert(datas.take(i + 1).drop_last() =~= datas.take(i));
        assert(blob_size(datas.take(i + 1)) == blob_size(datas.take(i)) + crate::varint::varint(
            datas[i].len(),
        ).len() + datas[i].len());
    }
}

/// One step of a blob's size.
proof fn lemma_blob_size_step(datas: Seq<Seq<u8>>, i: int)
    requires
        0 <= i < datas.len(),
    ensures
        blob_size(datas.take(i + 1)) == blob_size(datas.take(i)) + crate::varint::varint(
            datas[i].len(),
        ).len() + datas[i].len(),
{
    assert(datas.take(i + 1).drop_last() =~= datas.take(i));
}

/// Builds a memdb buffer from a token stream sorted by destination
/// position, the name and source tables, and an optional contents entry
/// per source.  The layout is the minimal one the stream admits; names
/// are dropped unless requested; the contents table is emitted only when
/// at least one entry is present.
#[verifier::rlimit(100)]
pub fn build_memdb(
    tokens: &Vec<RawToken>,
    names: &Vec<String>,
    sources: &Vec<String>,
    source_contents: &Vec<Option<String>>,
    opts: &DumpOptions,
) -> (r: Result<Vec<u8>, ErrorKind>)
    requires
        sorted_by_dst(tokens@),
        opts.with_source_contents ==> source_contents@.len() == sources@.len(),
        tokens@.len() <= 0xffffffff,
        names@.len() <= 0xffffffff,
        sources@.len() <= 0xffffffff,
    ensures
        ({
            let lay = crate::record::layout_spec(tokens@, opts.with_names);
            let has = opts.with_source_contents && (exists|i: int|
                0 <= i < sources@.len() && source_contents@[i] is Some);
            match r {
                Ok(b) => {
                    &&& valid_memdb(b@)
                    &&& spec_head(b@).index_layout == lay
                    &&& spec_head(b@).index_size == tokens@.len()
                    &&& forall|i: int|
                        0 <= i < tokens@.len() ==> #[trigger] spec_token(b@, i)
                            == crate::record::persisted(tokens@[i], lay)
                    &&& spec_head(b@).names_count == (if opts.with_names {
                        names@.len() as int
                    } else {
                        0
                    })
                    &&& (opts.with_names ==> forall|i: int|
                        0 <= i < names@.len() ==> #[trigger] spec_name_bytes(b@, i) == Some(
                            vstd::utf8::encode_utf8(names@[i]@),
                        ))
                    &&& spec_head(b@).sources_count == sources@.len()
                    &&& forall|i: int|
                        0 <= i < sources@.len() ==> #[trigger] spec_source_bytes(b@, i) == Some(
                            vstd::utf8::encode_utf8(sources@[i]@),
                        )
                    &&& spec_head(b@).source_contents_count == (if has {
                        sources@.len() as int
                    } else {
                        0
                    })
                    &&& (has ==> forall|i: int|
                        0 <= i < sources@.len() ==> match source_contents@[i] {
                            None => #[trigger] spec_contents_bytes(b@, i) is None,
                            Some(c) => (spec_contents_bytes(b@, i) matches Some(cb)
                                && crate::compress::unbrotli_of(cb) == Some(
                                vstd::utf8::encode_utf8(c@),
                            )),
                        })
                },
                Err(e) => {
                    &&& (e is TooManySources || e is TooManyNames || e is InternalError)
                    &&& (e is TooManySources <==> lay.src_id_bits > 32)
                    &&& (e is TooManyNames <==> lay.src_id_bits <= 32 && lay.name_id_bits > 32)
                },
            }
        }),
        (!opts.with_source_contents && crate::record::layout_spec(
            tokens@,
            opts.with_names,
        ).src_id_bits <= 32 && crate::record::layout_spec(tokens@, opts.with_names).name_id_bits
            <= 32) ==> (r is Ok <==> nocontents_size(
            tokens@,
            names@.map_values(|s: String| vstd::utf8::encode_utf8(s@)),
            sources@.map_values(|s: String| vstd::utf8::encode_utf8(s@)),
            opts.with_names,
        ) <= 0xffffffff),
{
    let ghost lay_g = crate::record::layout_spec(tokens@, opts.with_names);
    let n = tokens.len();
    let layout = crate::record::layout_for(tokens, opts.with_names);
    if layout.src_id_bits > 32 {
        return Err(ErrorKind::TooManySources);
    }
    if layout.name_id_bits > 32 {
        return Err(ErrorKind::TooManyNames);
    }
    proof {
        crate::record::lemma_layout_spec_bound(tokens@, opts.with_names);
    }
    let isz = layout.item_size();

    let mut out: Vec<u8> = Vec::new();
    let head0 = MapHead {
        version: 1,
        index_layout: layout,
        index_size: n as u32,
        names_start: 0,
        names_count: 0,
        sources_start: 0,
        sources_count: 0,
        source_contents_start: 0,
        source_contents_count: 0,
    };
    write_head(&mut out, &head0);
    proof {
        vstd::arithmetic::mul::lemma_mul_basics(isz as int);
    }

    // The index: one packed record per token.
    for i in 0..n
        invariant
            n == tokens@.len(),
            layout == crate::record::layout_spec(tokens@, opts.with_names),
            layout.wf(),
            isz == layout.spec_item_size(),
            out@.len() == 36 + i * (isz as int),
            records_ok(out@, tokens@, layout, i as int),
    {
        let ghost out0 = out@;
        proof {
            crate::record::lemma_layout_sufficient(tokens@, opts.with_names, i as int);
        }
        let t = tokens[i];
        let mut rec = crate::record::encode_record(&t, &layout);
        let ghost recv = rec@;
        out.append(&mut rec);
        proof {
            let z = isz as int;
            vstd::arithmetic::mul::lemma_mul_is_distributive_add_other_way(z, i as int, 1);
            vstd::arithmetic::mul::lemma_mul_basics(z);
            lemma_records_ok_stable(out0, out@, tokens@, layout, i as int);
            assert(out@.subrange(36 + (i as int) * z, 36 + (i + 1) * z) =~= recv);
            assert(records_ok(out@, tokens@, layout, i + 1));
        }
    }
    let ghost iend = 36 + (n as int) * (isz as int);

    // Zero padding to the next four-byte boundary.
    while out.len() % 4 != 0
        invariant
            n == tokens@.len(),
            iend == 36 + (n as int) * (isz as int),
            iend <= out@.len(),
            out@.len() <= pad4(iend as nat),
            records_ok(out@, tokens@, layout, n as int),
            layout.wf(),
            isz == layout.spec_item_size(),
        decreases (4 - out@.len() % 4) % 4,
    {
        let ghost out0 = out@;
        out.push(0);
        proof {
            lemma_records_ok_stable(out0, out@, tokens@, layout, n as int);
        }
    }
    proof {
        assert(out@.len() == pad4(iend as nat));
    }

    let ghost nbytes = names@.map_values(|s: String| vstd::utf8::encode_utf8(s@));
    let ghost sbytes = sources@.map_values(|s: String| vstd::utf8::encode_utf8(s@));
    let ghost kept = if opts.with_names {
        nbytes
    } else {
        Seq::<Seq<u8>>::empty()
    };
    let ghost total = nocontents_size(tokens@, nbytes, sbytes, opts.with_names);
    proof {
        assert(total == pad4(iend as nat) + blob_size(kept) + blob_size(sbytes) + 4 * kept.len()
            + 4 * sbytes.len());
    }

    // The name blob, when names are kept.
    let mut names_offsets: Vec<u32> = Vec::new();
    if opts.with_names {
        let nn = names.len();
        proof {
            assert(nbytes.take(0) =~= Seq::<Seq<u8>>::empty());
        }
        for i in 0..nn
            invariant
                nn == names@.len(),
                iend == 36 + (n as int) * (isz as int),
                iend <= out@.len(),
                36 <= out@.len(),
                records_ok(out@, tokens@, layout, n as int),
                layout.wf(),
                isz == layout.spec_item_size(),
                n == tokens@.len(),
                names_offsets@.len() == i,
                layout == crate::record::layout_spec(tokens@, opts.with_names),
                layout.src_id_bits <= 32,
                layout.name_id_bits <= 32,
                opts.with_names,
                kept == nbytes,
                nbytes == names@.map_values(|s: String| vstd::utf8::encode_utf8(s@)),
                sbytes == sources@.map_values(|s: String| vstd::utf8::encode_utf8(s@)),
                total == nocontents_size(tokens@, nbytes, sbytes, opts.with_names),
                total == pad4(iend as nat) + blob_size(kept) + blob_size(sbytes) + 4 * kept.len()
                    + 4 * sbytes.len(),
                out@.len() == pad4(iend as nat) + blob_size(nbytes.take(i as int)),
                blobs_ok(out@, names_offsets@, nbytes, i as int),
        {
            let ghost out0 = out@;
            let off = match write_blob(&mut out, names[i].as_str().as_bytes()) {
                Ok(o) => o,
                Err(e) => {
                    proof {
                        lemma_blob_size_take(nbytes, i as int);
                    }
                    return Err(e);
                },
            };
            names_offsets.push(off);
            proof {
                lemma_records_ok_stable(out0, out@, tokens@, layout, n as int);
                lemma_blobs_ok_stable(out0, out@, names_offsets@, nbytes, i as int);
                assert(blobs_ok(out@, names_offsets@, nbytes, i + 1));
                lemma_blob_size_step(nbytes, i as int);
            }
        }
    }
    proof {
        if opts.with_names {
            assert(nbytes.take(names@.len() as int) =~= nbytes);
        }
        assert(sbytes.take(0) =~= Seq::<Seq<u8>>::empty());
    }

    // The source blob, interleaved with compressed contents.
    let ns = sources.len();
    let mut sources_offsets: Vec<u32> = Vec::new();
    let mut contents_offsets: Vec<u32> = Vec::new();
    let mut have_sources = false;
    for i in 0..ns
        invariant
            ns == sources@.len(),
            iend == 36 + (n as int) * (isz as int),
            iend <= out@.len(),
            36 <= out@.len(),
            records_ok(out@, tokens@, layout, n as int),
            layout.wf(),
            isz == layout.spec_item_size(),
            n == tokens@.len(),
            blobs_ok(out@, names_offsets@, nbytes, names_offsets@.len() as int),
            sources_offsets@.len() == i,
            layout == crate::record::layout_spec(tokens@, opts.with_names),
            layout.src_id_bits <= 32,
            layout.name_id_bits <= 32,
            nbytes == names@.map_values(|s: String| vstd::utf8::encode_utf8(s@)),
            sbytes == sources@.map_values(|s: String| vstd::utf8::encode_utf8(s@)),
            kept == (if opts.with_names {
                nbytes
            } else {
                Seq::<Seq<u8>>::empty()
            }),
            total == nocontents_size(tokens@, nbytes, sbytes, opts.with_names),
            total == pad4(iend as nat) + blob_size(kept) + blob_size(sbytes) + 4 * kept.len() + 4
                * sbytes.len(),
            !opts.with_source_contents ==> out@.len() == pad4(iend as nat) + blob_size(kept)
                + blob_size(sbytes.take(i as int)),
            blobs_ok(out@, sources_offsets@, sbytes, i as int),
            opts.with_source_contents ==> source_contents@.len() == sources@.len(),
            contents_offsets@.len() == (if opts.with_source_contents {
                i as int
            } else {
                0
            }),
            opts.with_source_contents ==> contents_ok(
                out@,
                contents_offsets@,
                source_contents@,
                i as int,
            ),
            have_sources == (opts.with_source_contents && exists|j: int|
                0 <= j < i && source_contents@[j] is Some),
    {
        let ghost out0 = out@;
        let off = match write_blob(&mut out, sources[i].as_str().as_bytes()) {
            Ok(o) => o,
            Err(e) => {
                proof {
                    if !opts.with_source_contents {
                        lemma_blob_size_take(sbytes, i as int);
                    }
                }
                return Err(e);
            },
        };
        sources_offsets.push(off);
        proof {
            lemma_records_ok_stable(out0, out@, tokens@, layout, n as int);
            lemma_blobs_ok_stable(out0, out@, names_offsets@, nbytes, names_offsets@.len() as int);
            lemma_blobs_ok_stable(out0, out@, sources_offsets@, sbytes, i as int);
            if opts.with_source_contents {
                lemma_contents_ok_stable(
                    out0,
                    out@,
                    contents_offsets@,
                    source_contents@,
                    i as int,
                );
            }
            assert(blobs_ok(out@, sources_offsets@, sbytes, i + 1));
            lemma_blob_size_step(sbytes, i as int);
        }
        if opts.with_source_contents {
            let ghost out1 = out@;
            match &source_contents[i] {
                Some(c) => {
                    let compressed = match crate::compress::brotli_compress(
                        c.as_str().as_bytes(),
                    ) {
                        Ok(v) => v,
                        Err(_) => {
                            return Err(ErrorKind::InternalError);
                        },
                    };
                    let coff = match write_blob(&mut out, compressed.as_slice()) {
                        Ok(o) => o,
                        Err(e) => {
                            return Err(e);
                        },
                    };
                    if coff == 0xffffffffu32 {
                        return Err(ErrorKind::InternalError);
                    }
                    contents_offsets.push(coff);
                    have_sources = true;
                },
                None => {
                    contents_offsets.push(0xffffffffu32);
                },
            }
            proof {
                lemma_records_ok_stable(out1, out@, tokens@, layout, n as int);
                lemma_blobs_ok_stable(
                    out1,
                    out@,
                    names_offsets@,
                    nbytes,
                    names_offsets@.len() as int,
                );
                lemma_blobs_ok_stable(out1, out@, sources_offsets@, sbytes, i + 1);
                lemma_contents_ok_stable(
                    out1,
                    out@,
                    contents_offsets@.take(i as int),
                    source_contents@,
                    i as int,
                );
                assert forall|j: int| 0 <= j < i implies contents_offsets@.take(i as int)[j]
                    == contents_offsets@[j] by {}
                assert(contents_ok(out@, contents_offsets@, source_contents@, i + 1));
            }
        }
    }

    // The offset tables, and the header rewritten with their positions.
    proof {
        if !opts.with_source_contents {
            assert(sbytes.take(sources@.len() as int) =~= sbytes);
        }
    }
    let blen = out.len();
    if blen > (u32::MAX as usize) {
        return Err(ErrorKind::InternalError);
    }
    let names_start = blen as u32;
    let ghost tables0 = out@;
    let nc = names_offsets.len();
    for k in 0..nc
        invariant
            nc == names_offsets@.len(),
            out@.len() == tables0.len() + 4 * k,
            buf_extends(out@, tables0),
            forall|j: int|
                0 <= j < k ==> out@.subrange(
                    tables0.len() + 4 * j,
                    tables0.len() + 4 * j + 4,
                ) =~= spec_u32_to_le_bytes(#[trigger] names_offsets@[j]),
    {
        proof {
            lemma_auto_spec_u32_to_from_le_bytes();
        }
        let ghost out0 = out@;
        let mut v = u32_to_le_bytes(names_offsets[k]);
        out.append(&mut v);
        proof {
            assert forall|j: int| 0 <= j < k + 1 implies out@.subrange(
                tables0.len() + 4 * j,
                tables0.len() + 4 * j + 4,
            ) =~= spec_u32_to_le_bytes(#[trigger] names_offsets@[j]) by {
                if j < k {
                    assert(out@.subrange(tables0.len() + 4 * j, tables0.len() + 4 * j + 4) =~= out0.subrange(
                        tables0.len() + 4 * j,
                        tables0.len() + 4 * j + 4,
                    ));
                }
            }
        }
    }
    let blen2 = out.len();
    if blen2 > (u32::MAX as usize) {
        return Err(ErrorKind::InternalError);
    }
    let sources_start = blen2 as u32;
    let ghost tables1 = out@;
    let sc = sources_offsets.len();
    for k in 0..sc
        invariant
            sc == sources_offsets@.len(),
            out@.len() == tables1.len() + 4 * k,
            buf_extends(out@, tables1),
            forall|j: int|
                0 <= j < k ==> out@.subrange(
                    tables1.len() + 4 * j,
                    tables1.len() + 4 * j + 4,
                ) =~= spec_u32_to_le_bytes(#[trigger] sources_offsets@[j]),
    {
        proof {
            lemma_auto_spec_u32_to_from_le_bytes();
        }
        let ghost out0 = out@;
        let mut v = u32_to_le_bytes(sources_offsets[k]);
        out.append(&mut v);
        proof {
            assert forall|j: int| 0 <= j < k + 1 implies out@.subrange(
                tables1.len() + 4 * j,
                tables1.len() + 4 * j + 4,
            ) =~= spec_u32_to_le_bytes(#[trigger] sources_offsets@[j]) by {
                if j < k {
                    assert(out@.subrange(tables1.len() + 4 * j, tables1.len() + 4 * j + 4) =~= out0.subrange(
                        tables1.len() + 4 * j,
                        tables1.len() + 4 * j + 4,
                    ));
                }
            }
        }
    }
    let blen3 = out.len();
    if blen3 > (u32::MAX as usize) {
        return Err(ErrorKind::InternalError);
    }
    let contents_start = blen3 as u32;
    let ghost tables2 = out@;
    let cc = contents_offsets.len();
    if have_sources {
        for k in 0..cc
            invariant
                cc == contents_offsets@.len(),
                out@.len() == tables2.len() + 4 * k,
                buf_extends(out@, tables2),
                forall|j: int|
                    0 <= j < k ==> out@.subrange(
                        tables2.len() + 4 * j,
                        tables2.len() + 4 * j + 4,
                    ) =~= spec_u32_to_le_bytes(#[trigger] contents_offsets@[j]),
        {
            proof {
                lemma_auto_spec_u32_to_from_le_bytes();
            }
            let ghost out0 = out@;
            let mut v = u32_to_le_bytes(contents_offsets[k]);
            out.append(&mut v);
            proof {
                assert forall|j: int| 0 <= j < k + 1 implies out@.subrange(
                    tables2.len() + 4 * j,
                    tables2.len() + 4 * j + 4,
                ) =~= spec_u32_to_le_bytes(#[trigger] contents_offsets@[j]) by {
                    if j < k {
                        assert(out@.subrange(tables2.len() + 4 * j, tables2.len() + 4 * j + 4)
                            =~= out0.subrange(
                            tables2.len() + 4 * j,
                            tables2.len() + 4 * j + 4,
                        ));
                    }
                }
            }
        }
    }
    let flen = out.len();
    if flen > (u32::MAX as usize) {
        return Err(ErrorKind::InternalError);
    }

    let head = MapHead {
        version: 1,
        index_layout: layout,
        index_size: n as u32,
        names_start,
        names_count: names_offsets.len() as u32,
        sources_start,
        sources_count: sources_offsets.len() as u32,
        source_contents_start: if have_sources {
            contents_start
        } else {
            0
        },
        source_contents_count: if have_sources {
            contents_offsets.len() as u32
        } else {
            0
        },
    };
    let mut result: Vec<u8> = Vec::new();
    write_head(&mut result, &head);
    result.extend_from_slice(slice_subrange(out.as_slice(), 36, flen));
    proof {
        assert(buf_extends(out@, tables2));
        lemma_buf_extends_trans(out@, tables2, tables1);
        lemma_buf_extends_trans(out@, tables1, tables0);
        lemma_records_ok_stable(tables0, out@, tokens@, layout, n as int);
        lemma_blobs_ok_stable(tables0, out@, names_offsets@, nbytes, names_offsets@.len() as int);
        lemma_blobs_ok_stable(tables0, out@, sources_offsets@, sbytes, sources_offsets@.len() as int);
        if have_sources {
            lemma_contents_ok_stable(
                tables0,
                out@,
                contents_offsets@,
                source_contents@,
                contents_offsets@.len() as int,
            );
        }
        assert forall|j: int| 0 <= j < names_offsets@.len() implies out@.subrange(
            tables0.len() + 4 * j,
            tables0.len() + 4 * j + 4,
        ) =~= spec_u32_to_le_bytes(#[trigger] names_offsets@[j]) by {
            assert(out@.subrange(tables0.len() + 4 * j, tables0.len() + 4 * j + 4) =~= tables1.subrange(
                tables0.len() + 4 * j,
                tables0.len() + 4 * j + 4,
            ));
        }
        assert forall|j: int| 0 <= j < sources_offsets@.len() implies out@.subrange(
            tables1.len() + 4 * j,
            tables1.len() + 4 * j + 4,
        ) =~= spec_u32_to_le_bytes(#[trigger] sources_offsets@[j]) by {
            assert(out@.subrange(tables1.len() + 4 * j, tables1.len() + 4 * j + 4) =~= tables2.subrange(
                tables1.len() + 4 * j,
                tables1.len() + 4 * j + 4,
            ));
        }
        lemma_build_result(
            result@,
            out@,
            head,
            tokens@,
            nbytes,
            sbytes,
            source_contents@,
            names_offsets@,
            sources_offsets@,
            contents_offsets@,
            layout,
            iend,
            tables0.len() as int,
            tables1.len() as int,
            tables2.len() as int,
            have_sources,
        );
        assert forall|i: int| 0 <= i < names@.len() implies nbytes[i] == vstd::utf8::encode_utf8(
            #[trigger] names@[i]@,
        ) by {}
        assert forall|i: int| 0 <= i < sources@.len() implies sbytes[i] == vstd::utf8::encode_utf8(
            #[trigger] sources@[i]@,
        ) by {}
    }
    Ok(result)
}

/// Assembles the final facts about a built buffer: the spliced header
/// parses back, and every record, blob and table entry reads as recorded.
proof fn lemma_build_result(
    b: Seq<u8>,
    body: Seq<u8>,
    head: MapHead,
    toks: Seq<RawToken>,
    nbytes: Seq<Seq<u8>>,
    sbytes: Seq<Seq<u8>>,
    cs: Seq<Option<String>>,
    noffs: Seq<u32>,
    soffs: Seq<u32>,
    coffs: Seq<u32>,
    lay: IndexLayout,
    iend: int,
    ns_pos: int,
    ss_pos: int,
    cs_pos: int,
    have: bool,
)
    requires
        b.len() == body.len(),
        body.len() >= 36,
        b.subrange(0, 36) =~= head_bytes(head),
        forall|k: int| 36 <= k < body.len() ==> b[k] == #[trigger] body[k],
        head.version == 1,
        head.index_layout == lay,
        lay.wf(),
        head.index_size == toks.len(),
        iend == 36 + toks.len() * (lay.spec_item_size() as int),
        iend <= ns_pos <= ss_pos <= cs_pos <= body.len(),
        records_ok(body, toks, lay, toks.len() as int),
        blobs_ok(body, noffs, nbytes, noffs.len() as int),
        blobs_ok(body, soffs, sbytes, soffs.len() as int),
        have ==> contents_ok(body, coffs, cs, coffs.len() as int),
        head.names_start == ns_pos,
        head.names_count == noffs.len(),
        head.sources_start == ss_pos,
        head.sources_count == soffs.len(),
        head.source_contents_start == (if have {
            cs_pos as int
        } else {
            0
        }),
        head.source_contents_count == (if have {
            coffs.len() as int
        } else {
            0
        }),
        ss_pos == ns_pos + 4 * noffs.len(),
        cs_pos == ss_pos + 4 * soffs.len(),
        have ==> body.len() >= cs_pos + 4 * coffs.len(),
        !have ==> body.len() >= cs_pos,
        forall|j: int|
            0 <= j < noffs.len() ==> body.subrange(ns_pos + 4 * j, ns_pos + 4 * j + 4)
                =~= spec_u32_to_le_bytes(#[trigger] noffs[j]),
        forall|j: int|
            0 <= j < soffs.len() ==> body.subrange(ss_pos + 4 * j, ss_pos + 4 * j + 4)
                =~= spec_u32_to_le_bytes(#[trigger] soffs[j]),
        have ==> forall|j: int|
            0 <= j < coffs.len() ==> body.subrange(cs_pos + 4 * j, cs_pos + 4 * j + 4)
                =~= spec_u32_to_le_bytes(#[trigger] coffs[j]),
    ensures
        valid_memdb(b),
        spec_head(b) == head,
        forall|i: int|
            0 <= i < toks.len() ==> #[trigger] spec_token(b, i) == crate::record::persisted(
                toks[i],
                lay,
            ),
        forall|i: int|
            0 <= i < noffs.len() ==> #[trigger] spec_name_bytes(b, i) == Some(nbytes[i]),
        forall|i: int|
            0 <= i < soffs.len() ==> #[trigger] spec_source_bytes(b, i) == Some(sbytes[i]),
        have ==> forall|i: int|
            0 <= i < coffs.len() ==> match cs[i] {
                None => #[trigger] spec_contents_bytes(b, i) is None,
                Some(c) => (spec_contents_bytes(b, i) matches Some(cb)
                    && crate::compress::unbrotli_of(cb) == Some(vstd::utf8::encode_utf8(c@))),
            },
{
    lemma_head_round_trip(head, b);
    lemma_auto_spec_u32_to_from_le_bytes();
    let isz = lay.spec_item_size() as int;

    assert(valid_memdb(b));

    assert forall|i: int| 0 <= i < toks.len() implies #[trigger] spec_token(b, i)
        == crate::record::persisted(toks[i], lay) by {
        vstd::arithmetic::mul::lemma_mul_inequality(i + 1, toks.len() as int, isz);
        vstd::arithmetic::mul::lemma_mul_is_distributive_add_other_way(isz, i, 1);
        vstd::arithmetic::mul::lemma_mul_basics(isz);
        assert(b.subrange(36 + i * isz, 36 + (i + 1) * isz) =~= body.subrange(
            36 + i * isz,
            36 + (i + 1) * isz,
        ));
    }

    assert forall|i: int| 0 <= i < noffs.len() implies #[trigger] spec_name_bytes(b, i) == Some(
        nbytes[i],
    ) by {
        assert(b.subrange(ns_pos + 4 * i, ns_pos + 4 * i + 4) =~= body.subrange(
            ns_pos + 4 * i,
            ns_pos + 4 * i + 4,
        ));
        assert(spec_table_entry(b, ns_pos, i) == noffs[i]);
        lemma_string_at_agree(body, b, noffs[i] as int);
    }

    assert forall|i: int| 0 <= i < soffs.len() implies #[trigger] spec_source_bytes(b, i) == Some(
        sbytes[i],
    ) by {
        assert(b.subrange(ss_pos + 4 * i, ss_pos + 4 * i + 4) =~= body.subrange(
            ss_pos + 4 * i,
            ss_pos + 4 * i + 4,
        ));
        assert(spec_table_entry(b, ss_pos, i) == soffs[i]);
        lemma_string_at_agree(body, b, soffs[i] as int);
    }

    if have {
        assert forall|i: int| 0 <= i < coffs.len() implies match cs[i] {
            None => #[trigger] spec_contents_bytes(b, i) is None,
            Some(c) => (spec_contents_bytes(b, i) matches Some(cb)
                && crate::compress::unbrotli_of(cb) == Some(vstd::utf8::encode_utf8(c@))),
        } by {
            assert(b.subrange(cs_pos + 4 * i, cs_pos + 4 * i + 4) =~= body.subrange(
                cs_pos + 4 * i,
                cs_pos + 4 * i + 4,
            ));
            assert(spec_table_entry(b, cs_pos, i) == coffs[i]);
            if cs[i] is Some {
                lemma_string_at_agree(body, b, coffs[i] as int);
            }
        }
    }
}

/// A token stream strictly increasing in destination position.
pub open spec fn strictly_sorted_by_dst(toks: Seq<RawToken>) -> bool {
    forall|i: int, j: int|
        0 <= i < j < toks.len() ==> ((#[trigger] toks[i]).dst_line < (#[trigger] toks[j]).dst_line
            || (toks[i].dst_line == toks[j].dst_line && toks[i].dst_col < toks[j].dst_col))
}

/// Law: the index round-trips through the container.  In a buffer whose
/// records decode to a strictly sorted token stream, the greatest record
/// at or before token `i`'s destination is record `i` itself, and its
/// source position and ids are those of the original token (the name id
/// reading back as absent when the layout kept no names).  Together with
/// the contracts of `build_memdb` and `lookup_token` this is the
/// build-then-look-up round trip.
pub proof fn lemma_memdb_round_trip(b: Seq<u8>, toks: Seq<RawToken>, i: int)
    requires
        valid_memdb(b),
        spec_head(b).index_size == toks.len(),
        forall|j: int|
            0 <= j < toks.len() ==> #[trigger] spec_token(b, j) == crate::record::persisted(
                toks[j],
                spec_head(b).index_layout,
            ),
        strictly_sorted_by_dst(toks),
        0 <= i < toks.len(),
    ensures
        sorted_by_dst(spec_tokens(b)),
        dst_le(spec_tokens(b)[i], toks[i].dst_line, toks[i].dst_col),
        forall|j: int|
            i < j < toks.len() ==> !dst_le(
                #[trigger] spec_tokens(b)[j],
                toks[i].dst_line,
                toks[i].dst_col,
            ),
        spec_tokens(b)[i].dst_line == toks[i].dst_line,
        spec_tokens(b)[i].dst_col == toks[i].dst_col,
        spec_tokens(b)[i].src_line == toks[i].src_line,
        spec_tokens(b)[i].src_col == toks[i].src_col,
        spec_tokens(b)[i].src_id == toks[i].src_id,
        spec_tokens(b)[i].name_id == (if spec_head(b).index_layout.name_id_bits == 0 {
            !0u32
        } else {
            toks[i].name_id
        }),
{
    let ts = spec_tokens(b);
    assert forall|p: int, q: int| 0 <= p < q < ts.len() implies dst_pair_le(
        #[trigger] ts[p],
        #[trigger] ts[q],
    ) by {
        assert(spec_token(b, p) == crate::record::persisted(toks[p], spec_head(b).index_layout));
        assert(spec_token(b, q) == crate::record::persisted(toks[q], spec_head(b).index_layout));
    }
    assert forall|j: int| i < j < toks.len() implies !dst_le(
        #[trigger] ts[j],
        toks[i].dst_line,
        toks[i].dst_col,
    ) by {
        assert(spec_token(b, j) == crate::record::persisted(toks[j], spec_head(b).index_layout));
    }
}

/// Law: a UTF-8 string round-trips through its encoding; what was stored
/// with `encode_utf8` reads back as the same characters.
pub proof fn lemma_utf8_round_trip(s: Seq<char>)
    ensures
        vstd::utf8::valid_utf8(vstd::utf8::encode_utf8(s)),
        vstd::utf8::decode_utf8(vstd::utf8::encode_utf8(s)) == s,
{
    vstd::utf8::encode_utf8_valid_utf8(s);
    vstd::utf8::encode_utf8_decode_utf8(s);
}

/// Law: names and source names round-trip.  A table entry holding the
/// encoding of `s` resolves, under the reader's contract, to exactly `s`.
pub proof fn lemma_name_round_trip(b: Seq<u8>, s: Seq<char>, id: int)
    requires
        spec_name_bytes(b, id) == Some(vstd::utf8::encode_utf8(s)),
    ensures
        spec_name_bytes(b, id) matches Some(bs) && vstd::utf8::valid_utf8(bs)
            && vstd::utf8::decode_utf8(bs) == s,
{
    lemma_utf8_round_trip(s);
}

/// Law: source contents round-trip.  A contents entry whose stored bytes
/// decompress to the encoding of `c` resolves, under the reader's
/// contract, to exactly `c`; an absent entry resolves to nothing.
pub proof fn lemma_contents_round_trip(b: Seq<u8>, c: Seq<char>, i: int)
    requires
        spec_contents_bytes(b, i) matches Some(cb) && crate::compress::unbrotli_of(cb) == Some(
            vstd::utf8::encode_utf8(c),
        ),
    ensures
        spec_contents_bytes(b, i) matches Some(cb2) && (crate::compress::unbrotli_of(cb2)
            matches Some(plain) && vstd::utf8::valid_utf8(plain) && vstd::utf8::decode_utf8(plain)
            == c),
{
    lemma_utf8_round_trip(c);
}

} // verus!
