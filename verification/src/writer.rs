//! The oldest serialization format: plain little-endian records, raw
//! string blobs, and `(position, length)` marker tables.
//!
//! The layout is a 20-byte header, one 16-byte record per token, the name
//! and source bytes back to back, and then one 8-byte `StringMarker` per
//! name and per source.  The header's `*_start` fields point at the two
//! marker tables.

use vstd::prelude::*;
use vstd::bytes::{
    lemma_auto_spec_u32_to_from_le_bytes, spec_u32_from_le_bytes, spec_u32_to_le_bytes,
    u32_to_le_bytes,
};
use crate::errors::ErrorKind;
use crate::types::{MapHead, RawToken, StringMarker};

verus! {

/// The `u32` at byte position `p` of `b`.
pub open spec fn word_at(b: Seq<u8>, p: int) -> u32 {
    spec_u32_from_le_bytes(b.subrange(p, p + 4))
}

/// The old-format header held in the first 20 bytes of a buffer.
pub open spec fn old_head(b: Seq<u8>) -> MapHead {
    MapHead {
        index_size: word_at(b, 0),
        names_start: word_at(b, 4),
        names_count: word_at(b, 8),
        sources_start: word_at(b, 12),
        sources_count: word_at(b, 16),
    }
}

/// The old-format record held at byte position `p`.
pub open spec fn old_record_at(b: Seq<u8>, p: int) -> crate::types::IndexItem {
    crate::types::IndexItem {
        line: word_at(b, p),
        col: word_at(b, p + 4),
        name_id: word_at(b, p + 8),
        src_id: word_at(b, p + 12),
    }
}

/// The marker held at byte position `p`.
pub open spec fn old_marker_at(b: Seq<u8>, p: int) -> StringMarker {
    StringMarker { pos: word_at(b, p), len: word_at(b, p + 4) }
}

/// A marker points at the given bytes of the buffer.
pub open spec fn marker_points_at(b: Seq<u8>, m: StringMarker, data: Seq<u8>) -> bool {
    &&& m.len == data.len()
    &&& m.pos + m.len <= b.len()
    &&& b.subrange(m.pos as int, m.pos + m.len) == data
}

/// Appends one `u32`, little-endian.
fn push_word(out: &mut Vec<u8>, w: u32)
    ensures
        final(out)@ =~= old(out)@ + spec_u32_to_le_bytes(w),
        final(out)@.len() == old(out)@.len() + 4,
{
    proof {
        lemma_auto_spec_u32_to_from_le_bytes();
    }
    let mut v = u32_to_le_bytes(w);
    out.append(&mut v);
}

/// A word written at `p` reads back, wherever the buffer grows later.
proof fn lemma_word_at(b: Seq<u8>, p: int, w: u32)
    requires
        0 <= p,
        p + 4 <= b.len(),
        b.subrange(p, p + 4) =~= spec_u32_to_le_bytes(w),
    ensures
        word_at(b, p) == w,
{
    lemma_auto_spec_u32_to_from_le_bytes();
    assert(spec_u32_to_le_bytes(w).len() == 4);
    assert(spec_u32_from_le_bytes(spec_u32_to_le_bytes(w)) == w);
}

/// The total byte length of a list of raw string blobs.
pub open spec fn bytes_total(datas: Seq<Seq<u8>>) -> nat
    decreases datas.len(),
{
    if datas.len() == 0 {
        0
    } else {
        bytes_total(datas.drop_last()) + datas.last().len()
    }
}

/// The exact size of the old format up to and including the name marker
/// table, which is the last position the serializer must fit into a
/// 32-bit offset.
pub open spec fn old_size(toks: Seq<RawToken>, nbytes: Seq<Seq<u8>>, sbytes: Seq<Seq<u8>>) -> nat {
    20 + 16 * toks.len() + bytes_total(nbytes) + bytes_total(sbytes) + 8 * nbytes.len()
}

/// A blob list only grows with its entries.
proof fn lemma_bytes_total_take(datas: Seq<Seq<u8>>, i: int)
    requires
        0 <= i <= datas.len(),
    ensures
        bytes_total(datas.take(i)) <= bytes_total(datas),
    decreases datas.len() - i,
{
    if i == datas.len() {
        assert(datas.take(i) =~= datas);
    } else {
        lemma_bytes_total_take(datas, i + 1);
        assert(datas.take(i + 1).drop_last() =~= datas.take(i));
    }
}

/// One step of a blob list's size.
proof fn lemma_bytes_total_step(datas: Seq<Seq<u8>>, i: int)
    requires
        0 <= i < datas.len(),
    ensures
        bytes_total(datas.take(i + 1)) == bytes_total(datas.take(i)) + datas[i].len(),
{
    assert(datas.take(i + 1).drop_last() =~= datas.take(i));
}

/// No entry is longer than the whole blob.
proof fn lemma_bytes_total_elem(datas: Seq<Seq<u8>>, i: int)
    requires
        0 <= i < datas.len(),
    ensures
        datas[i].len() <= bytes_total(datas),
{
    lemma_bytes_total_step(datas, i);
    lemma_bytes_total_take(datas, i + 1);
}

/// Serializes a token stream with its name and source tables into the
/// oldest binary format.  It succeeds exactly when every byte position a
/// marker or table start must record fits a 32-bit offset.
pub fn serialize_map(tokens: &Vec<RawToken>, names: &Vec<String>, sources: &Vec<String>) -> (r:
    Result<Vec<u8>, ErrorKind>)
    requires
        tokens@.len() <= 0xffffffff,
        names@.len() <= 0xffffffff,
        sources@.len() <= 0xffffffff,
    ensures
        r matches Ok(b) ==> {
            &&& b@.len() >= 20
            &&& old_head(b@).index_size == tokens@.len()
            &&& old_head(b@).names_count == names@.len()
            &&& old_head(b@).sources_count == sources@.len()
            &&& 20 + 16 * tokens@.len() <= b@.len()
            &&& forall|i: int|
                0 <= i < tokens@.len() ==> #[trigger] old_record_at(b@, 20 + 16 * i)
                    == (crate::types::IndexItem {
                    line: tokens@[i].dst_line,
                    col: tokens@[i].dst_col,
                    name_id: tokens@[i].name_id,
                    src_id: tokens@[i].src_id,
                })
            &&& old_head(b@).names_start + 8 * names@.len() <= b@.len()
            &&& forall|i: int|
                0 <= i < names@.len() ==> marker_points_at(
                    b@,
                    #[trigger] old_marker_at(b@, old_head(b@).names_start + 8 * i),
                    vstd::utf8::encode_utf8(names@[i]@),
                )
            &&& old_head(b@).sources_start + 8 * sources@.len() <= b@.len()
            &&& forall|i: int|
                0 <= i < sources@.len() ==> marker_points_at(
                    b@,
                    #[trigger] old_marker_at(b@, old_head(b@).sources_start + 8 * i),
                    vstd::utf8::encode_utf8(sources@[i]@),
                )
        },
        r matches Err(e) ==> e is InternalError,
        r is Ok <==> old_size(
            tokens@,
            names@.map_values(|s: String| vstd::utf8::encode_utf8(s@)),
            sources@.map_values(|s: String| vstd::utf8::encode_utf8(s@)),
        ) <= 0xffffffff,
{
    let ghost nbytes = names@.map_values(|s: String| vstd::utf8::encode_utf8(s@));
    let ghost sbytes = sources@.map_values(|s: String| vstd::utf8::encode_utf8(s@));
    let ghost total = old_size(tokens@, nbytes, sbytes);
    let n = tokens.len();
    let mut out: Vec<u8> = Vec::new();
    push_word(&mut out, n as u32);
    push_word(&mut out, 0);
    push_word(&mut out, names.len() as u32);
    push_word(&mut out, 0);
    push_word(&mut out, sources.len() as u32);

    for i in 0..n
        invariant
            n == tokens@.len(),
            out@.len() == 20 + 16 * i,
            forall|j: int|
                0 <= j < i ==> #[trigger] old_record_at(out@, 20 + 16 * j)
                    == (crate::types::IndexItem {
                    line: tokens@[j].dst_line,
                    col: tokens@[j].dst_col,
                    name_id: tokens@[j].name_id,
                    src_id: tokens@[j].src_id,
                }),
    {
        let ghost out0 = out@;
        let t = tokens[i];
        push_word(&mut out, t.dst_line);
        push_word(&mut out, t.dst_col);
        push_word(&mut out, t.name_id);
        push_word(&mut out, t.src_id);
        proof {
            lemma_auto_spec_u32_to_from_le_bytes();
            assert forall|j: int| 0 <= j < i + 1 implies #[trigger] old_record_at(
                out@,
                20 + 16 * j,
            ) == (crate::types::IndexItem {
                line: tokens@[j].dst_line,
                col: tokens@[j].dst_col,
                name_id: tokens@[j].name_id,
                src_id: tokens@[j].src_id,
            }) by {
                if j < i {
                    assert(old_record_at(out0, 20 + 16 * j) == (crate::types::IndexItem {
                        line: tokens@[j].dst_line,
                        col: tokens@[j].dst_col,
                        name_id: tokens@[j].name_id,
                        src_id: tokens@[j].src_id,
                    }));
                    assert(out@.subrange(20 + 16 * j, 20 + 16 * j + 4) =~= out0.subrange(
                        20 + 16 * j,
                        20 + 16 * j + 4,
                    ));
                    assert(out@.subrange(20 + 16 * j + 4, 20 + 16 * j + 8) =~= out0.subrange(
                        20 + 16 * j + 4,
                        20 + 16 * j + 8,
                    ));
                    assert(out@.subrange(20 + 16 * j + 8, 20 + 16 * j + 12) =~= out0.subrange(
                        20 + 16 * j + 8,
                        20 + 16 * j + 12,
                    ));
                    assert(out@.subrange(20 + 16 * j + 12, 20 + 16 * j + 16) =~= out0.subrange(
                        20 + 16 * j + 12,
                        20 + 16 * j + 16,
                    ));
                } else {
                    lemma_word_at(out@, 20 + 16 * j, tokens@[j].dst_line);
                    lemma_word_at(out@, 20 + 16 * j + 4, tokens@[j].dst_col);
                    lemma_word_at(out@, 20 + 16 * j + 8, tokens@[j].name_id);
                    lemma_word_at(out@, 20 + 16 * j + 12, tokens@[j].src_id);
                }
            }
        }
    }

    // The name and source blobs, with their markers collected aside.
    proof {
        assert(nbytes.take(0) =~= Seq::<Seq<u8>>::empty());
    }
    let mut name_markers: Vec<StringMarker> = Vec::new();
    let nn = names.len();
    for i in 0..nn
        invariant
            nn == names@.len(),
            nbytes == names@.map_values(|s: String| vstd::utf8::encode_utf8(s@)),
            sbytes == sources@.map_values(|s: String| vstd::utf8::encode_utf8(s@)),
            total == old_size(tokens@, nbytes, sbytes),
            out@.len() == 20 + 16 * (tokens@.len() as int) + bytes_total(nbytes.take(i as int)),
            20 + 16 * (tokens@.len() as int) <= out@.len(),
            forall|j: int|
                0 <= j < tokens@.len() ==> #[trigger] old_record_at(out@, 20 + 16 * j)
                    == (crate::types::IndexItem {
                    line: tokens@[j].dst_line,
                    col: tokens@[j].dst_col,
                    name_id: tokens@[j].name_id,
                    src_id: tokens@[j].src_id,
                }),
            name_markers@.len() == i,
            forall|j: int| 0 <= j < i ==> (#[trigger] name_markers@[j]).pos >= 20,
            forall|j: int|
                0 <= j < i ==> marker_points_at(
                    out@,
                    #[trigger] name_markers@[j],
                    vstd::utf8::encode_utf8(names@[j]@),
                ),
    {
        let ghost out0 = out@;
        let pos = out.len();
        if pos > (u32::MAX as usize) {
            proof {
                lemma_bytes_total_take(nbytes, i as int);
            }
            return Err(ErrorKind::InternalError);
        }
        let bytes = names[i].as_str().as_bytes();
        if bytes.len() > (u32::MAX as usize) {
            proof {
                lemma_bytes_total_elem(nbytes, i as int);
            }
            return Err(ErrorKind::InternalError);
        }
        out.extend_from_slice(bytes);
        name_markers.push(StringMarker { pos: pos as u32, len: bytes.len() as u32 });
        proof {
            lemma_bytes_total_step(nbytes, i as int);
            lemma_old_facts_stable(out0, out@, tokens@);
            assert forall|j: int| 0 <= j < i + 1 implies marker_points_at(
                out@,
                #[trigger] name_markers@[j],
                vstd::utf8::encode_utf8(names@[j]@),
            ) by {
                if j < i {
                    assert(out@.subrange(
                        name_markers@[j].pos as int,
                        name_markers@[j].pos + name_markers@[j].len,
                    ) =~= out0.subrange(
                        name_markers@[j].pos as int,
                        name_markers@[j].pos + name_markers@[j].len,
                    ));
                } else {
                    assert(out@.subrange(pos as int, pos + bytes@.len()) =~= bytes@);
                }
            }
        }
    }

    proof {
        assert(nbytes.take(names@.len() as int) =~= nbytes);
        assert(sbytes.take(0) =~= Seq::<Seq<u8>>::empty());
    }
    let mut source_markers: Vec<StringMarker> = Vec::new();
    let sc = sources.len();
    for i in 0..sc
        invariant
            sc == sources@.len(),
            nn == names@.len(),
            nbytes == names@.map_values(|s: String| vstd::utf8::encode_utf8(s@)),
            sbytes == sources@.map_values(|s: String| vstd::utf8::encode_utf8(s@)),
            total == old_size(tokens@, nbytes, sbytes),
            out@.len() == 20 + 16 * (tokens@.len() as int) + bytes_total(nbytes) + bytes_total(
                sbytes.take(i as int),
            ),
            20 + 16 * (tokens@.len() as int) <= out@.len(),
            forall|j: int|
                0 <= j < tokens@.len() ==> #[trigger] old_record_at(out@, 20 + 16 * j)
                    == (crate::types::IndexItem {
                    line: tokens@[j].dst_line,
                    col: tokens@[j].dst_col,
                    name_id: tokens@[j].name_id,
                    src_id: tokens@[j].src_id,
                }),
            name_markers@.len() == nn,
            forall|j: int| 0 <= j < nn ==> (#[trigger] name_markers@[j]).pos >= 20,
            forall|j: int|
                0 <= j < nn ==> marker_points_at(
                    out@,
                    #[trigger] name_markers@[j],
                    vstd::utf8::encode_utf8(names@[j]@),
                ),
            source_markers@.len() == i,
            forall|j: int| 0 <= j < i ==> (#[trigger] source_markers@[j]).pos >= 20,
            forall|j: int|
                0 <= j < i ==> marker_points_at(
                    out@,
                    #[trigger] source_markers@[j],
                    vstd::utf8::encode_utf8(sources@[j]@),
                ),
    {
        let ghost out0 = out@;
        let pos = out.len();
        if pos > (u32::MAX as usize) {
            proof {
                lemma_bytes_total_take(sbytes, i as int);
            }
            return Err(ErrorKind::InternalError);
        }
        let bytes = sources[i].as_str().as_bytes();
        if bytes.len() > (u32::MAX as usize) {
            proof {
                lemma_bytes_total_elem(sbytes, i as int);
            }
            return Err(ErrorKind::InternalError);
        }
        out.extend_from_slice(bytes);
        source_markers.push(StringMarker { pos: pos as u32, len: bytes.len() as u32 });
        proof {
            lemma_bytes_total_step(sbytes, i as int);
            lemma_old_facts_stable(out0, out@, tokens@);
            lemma_old_markers_stable(out0, out@, name_markers@, names@);
            assert forall|j: int| 0 <= j < i + 1 implies marker_points_at(
                out@,
                #[trigger] source_markers@[j],
                vstd::utf8::encode_utf8(sources@[j]@),
            ) by {
                if j < i {
                    assert(out@.subrange(
                        source_markers@[j].pos as int,
                        source_markers@[j].pos + source_markers@[j].len,
                    ) =~= out0.subrange(
                        source_markers@[j].pos as int,
                        source_markers@[j].pos + source_markers@[j].len,
                    ));
                } else {
                    assert(out@.subrange(pos as int, pos + bytes@.len()) =~= bytes@);
                }
            }
        }
    }

    // The two marker tables, then the header rewritten with their starts.
    proof {
        assert(sbytes.take(sources@.len() as int) =~= sbytes);
    }
    let blen = out.len();
    if blen > (u32::MAX as usize) {
        return Err(ErrorKind::InternalError);
    }
    let names_start = blen as u32;
    let ghost t0 = out@;
    for k in 0..nn
        invariant
            nn == name_markers@.len(),
            out@.len() == t0.len() + 8 * k,
            crate::memdb::buf_extends(out@, t0),
            forall|j: int|
                0 <= j < k ==> old_marker_at(out@, t0.len() + 8 * j) == #[trigger] name_markers@[j],
    {
        let ghost out0 = out@;
        let m = name_markers[k];
        push_word(&mut out, m.pos);
        push_word(&mut out, m.len);
        proof {
            lemma_auto_spec_u32_to_from_le_bytes();
            assert forall|j: int| 0 <= j < k + 1 implies old_marker_at(out@, t0.len() + 8 * j)
                == #[trigger] name_markers@[j] by {
                if j < k {
                    assert(out@.subrange(t0.len() + 8 * j, t0.len() + 8 * j + 4) =~= out0.subrange(
                        t0.len() + 8 * j,
                        t0.len() + 8 * j + 4,
                    ));
                    assert(out@.subrange(t0.len() + 8 * j + 4, t0.len() + 8 * j + 8)
                        =~= out0.subrange(t0.len() + 8 * j + 4, t0.len() + 8 * j + 8));
                } else {
                    lemma_word_at(out@, t0.len() + 8 * j, name_markers@[j].pos);
                    lemma_word_at(out@, t0.len() + 8 * j + 4, name_markers@[j].len);
                }
            }
        }
    }
    let blen2 = out.len();
    if blen2 > (u32::MAX as usize) {
        return Err(ErrorKind::InternalError);
    }
    let sources_start = blen2 as u32;
    let ghost t1 = out@;
    for k in 0..sc
        invariant
            sc == source_markers@.len(),
            out@.len() == t1.len() + 8 * k,
            crate::memdb::buf_extends(out@, t1),
            forall|j: int|
                0 <= j < k ==> old_marker_at(out@, t1.len() + 8 * j)
                    == #[trigger] source_markers@[j],
    {
        let ghost out0 = out@;
        let m = source_markers[k];
        push_word(&mut out, m.pos);
        push_word(&mut out, m.len);
        proof {
            lemma_auto_spec_u32_to_from_le_bytes();
            assert forall|j: int| 0 <= j < k + 1 implies old_marker_at(out@, t1.len() + 8 * j)
                == #[trigger] source_markers@[j] by {
                if j < k {
                    assert(out@.subrange(t1.len() + 8 * j, t1.len() + 8 * j + 4) =~= out0.subrange(
                        t1.len() + 8 * j,
                        t1.len() + 8 * j + 4,
                    ));
                    assert(out@.subrange(t1.len() + 8 * j + 4, t1.len() + 8 * j + 8)
                        =~= out0.subrange(t1.len() + 8 * j + 4, t1.len() + 8 * j + 8));
                } else {
                    lemma_word_at(out@, t1.len() + 8 * j, source_markers@[j].pos);
                    lemma_word_at(out@, t1.len() + 8 * j + 4, source_markers@[j].len);
                }
            }
        }
    }
    let flen = out.len();

    // Rewrite the header, now that the table positions are known.
    let mut result: Vec<u8> = Vec::new();
    push_word(&mut result, n as u32);
    push_word(&mut result, names_start);
    push_word(&mut result, names.len() as u32);
    push_word(&mut result, sources_start);
    push_word(&mut result, sources.len() as u32);
    result.extend_from_slice(vstd::slice::slice_subrange(out.as_slice(), 20, flen));
    proof {
        lemma_auto_spec_u32_to_from_le_bytes();
        let b = result@;
        assert(b.len() == out@.len());
        assert forall|k: int| 20 <= k < out@.len() implies b[k] == #[trigger] out@[k] by {}
        lemma_word_at(b, 0, n as u32);
        lemma_word_at(b, 4, names_start);
        lemma_word_at(b, 8, names@.len() as u32);
        lemma_word_at(b, 12, sources_start);
        lemma_word_at(b, 16, sources@.len() as u32);
        assert(crate::memdb::buf_extends(out@, t1));
        lemma_buf_trans_old(out@, t1, t0);
        lemma_old_facts_stable(t0, out@, tokens@);
        lemma_old_markers_stable(t0, out@, name_markers@, names@);
        lemma_old_markers_stable(t0, out@, source_markers@, sources@);
        lemma_old_facts_final(b, out@, tokens@);
        lemma_old_markers_final(b, out@, name_markers@, names@);
        lemma_old_markers_final(b, out@, source_markers@, sources@);
        assert forall|i: int| 0 <= i < names@.len() implies marker_points_at(
            b,
            #[trigger] old_marker_at(b, old_head(b).names_start + 8 * i),
            vstd::utf8::encode_utf8(names@[i]@),
        ) by {
            assert(old_marker_at(t1, t0.len() + 8 * i) == name_markers@[i]);
            assert(out@.subrange(t0.len() + 8 * i, t0.len() + 8 * i + 4) =~= t1.subrange(
                t0.len() + 8 * i,
                t0.len() + 8 * i + 4,
            ));
            assert(out@.subrange(t0.len() + 8 * i + 4, t0.len() + 8 * i + 8) =~= t1.subrange(
                t0.len() + 8 * i + 4,
                t0.len() + 8 * i + 8,
            ));
            assert(old_marker_at(out@, t0.len() + 8 * i) == name_markers@[i]);
            assert(marker_points_at(b, name_markers@[i], vstd::utf8::encode_utf8(names@[i]@)));
            assert(b.subrange(t0.len() + 8 * i, t0.len() + 8 * i + 4) =~= out@.subrange(
                t0.len() + 8 * i,
                t0.len() + 8 * i + 4,
            ));
            assert(b.subrange(t0.len() + 8 * i + 4, t0.len() + 8 * i + 8) =~= out@.subrange(
                t0.len() + 8 * i + 4,
                t0.len() + 8 * i + 8,
            ));
            assert(old_marker_at(b, t0.len() + 8 * i) == old_marker_at(out@, t0.len() + 8 * i));
        }
        assert forall|i: int| 0 <= i < sources@.len() implies marker_points_at(
            b,
            #[trigger] old_marker_at(b, old_head(b).sources_start + 8 * i),
            vstd::utf8::encode_utf8(sources@[i]@),
        ) by {
            assert(old_marker_at(out@, t1.len() + 8 * i) == source_markers@[i]);
            assert(marker_points_at(b, source_markers@[i], vstd::utf8::encode_utf8(sources@[i]@)));
            assert(b.subrange(t1.len() + 8 * i, t1.len() + 8 * i + 4) =~= out@.subrange(
                t1.len() + 8 * i,
                t1.len() + 8 * i + 4,
            ));
            assert(b.subrange(t1.len() + 8 * i + 4, t1.len() + 8 * i + 8) =~= out@.subrange(
                t1.len() + 8 * i + 4,
                t1.len() + 8 * i + 8,
            ));
            assert(old_marker_at(b, t1.len() + 8 * i) == old_marker_at(out@, t1.len() + 8 * i));
        }
    }
    Ok(result)
}

/// Record facts survive appending.
proof fn lemma_old_facts_stable(b1: Seq<u8>, b2: Seq<u8>, toks: Seq<RawToken>)
    requires
        crate::memdb::buf_extends(b2, b1),
        20 + 16 * toks.len() <= b1.len(),
        forall|j: int|
            0 <= j < toks.len() ==> #[trigger] old_record_at(b1, 20 + 16 * j)
                == (crate::types::IndexItem {
                line: toks[j].dst_line,
                col: toks[j].dst_col,
                name_id: toks[j].name_id,
                src_id: toks[j].src_id,
            }),
    ensures
        forall|j: int|
            0 <= j < toks.len() ==> #[trigger] old_record_at(b2, 20 + 16 * j)
                == (crate::types::IndexItem {
                line: toks[j].dst_line,
                col: toks[j].dst_col,
                name_id: toks[j].name_id,
                src_id: toks[j].src_id,
            }),
{
    assert forall|j: int| 0 <= j < toks.len() implies #[trigger] old_record_at(b2, 20 + 16 * j)
        == (crate::types::IndexItem {
        line: toks[j].dst_line,
        col: toks[j].dst_col,
        name_id: toks[j].name_id,
        src_id: toks[j].src_id,
    }) by {
        assert(old_record_at(b1, 20 + 16 * j) == (crate::types::IndexItem {
            line: toks[j].dst_line,
            col: toks[j].dst_col,
            name_id: toks[j].name_id,
            src_id: toks[j].src_id,
        }));
        assert(b2.subrange(20 + 16 * j, 20 + 16 * j + 4) =~= b1.subrange(
            20 + 16 * j,
            20 + 16 * j + 4,
        ));
        assert(b2.subrange(20 + 16 * j + 4, 20 + 16 * j + 8) =~= b1.subrange(
            20 + 16 * j + 4,
            20 + 16 * j + 8,
        ));
        assert(b2.subrange(20 + 16 * j + 8, 20 + 16 * j + 12) =~= b1.subrange(
            20 + 16 * j + 8,
            20 + 16 * j + 12,
        ));
        assert(b2.subrange(20 + 16 * j + 12, 20 + 16 * j + 16) =~= b1.subrange(
            20 + 16 * j + 12,
            20 + 16 * j + 16,
        ));
    }
}

/// Marker facts survive appending.
proof fn lemma_old_markers_stable(
    b1: Seq<u8>,
    b2: Seq<u8>,
    markers: Seq<StringMarker>,
    strs: Seq<String>,
)
    requires
        crate::memdb::buf_extends(b2, b1),
        markers.len() <= strs.len(),
        forall|j: int|
            0 <= j < markers.len() ==> marker_points_at(
                b1,
                #[trigger] markers[j],
                vstd::utf8::encode_utf8(strs[j]@),
            ),
    ensures
        forall|j: int|
            0 <= j < markers.len() ==> marker_points_at(
                b2,
                #[trigger] markers[j],
                vstd::utf8::encode_utf8(strs[j]@),
            ),
{
    assert forall|j: int| 0 <= j < markers.len() implies marker_points_at(
        b2,
        #[trigger] markers[j],
        vstd::utf8::encode_utf8(strs[j]@),
    ) by {
        assert(b2.subrange(markers[j].pos as int, markers[j].pos + markers[j].len) =~= b1.subrange(
            markers[j].pos as int,
            markers[j].pos + markers[j].len,
        ));
    }
}

/// Buffer extension is transitive.
proof fn lemma_buf_trans_old(b3: Seq<u8>, b2: Seq<u8>, b1: Seq<u8>)
    requires
        crate::memdb::buf_extends(b3, b2),
        crate::memdb::buf_extends(b2, b1),
    ensures
        crate::memdb::buf_extends(b3, b1),
{
    assert forall|k: int| 0 <= k < b1.len() implies b1[k] == #[trigger] b3[k] by {
        assert(b1[k] == b2[k]);
        assert(b2[k] == b3[k]);
    }
}

/// Record facts transfer to the spliced buffer, which agrees with the
/// body everywhere past the header.
proof fn lemma_old_facts_final(b: Seq<u8>, body: Seq<u8>, toks: Seq<RawToken>)
    requires
        b.len() == body.len(),
        body.len() >= 20,
        forall|k: int| 20 <= k < body.len() ==> b[k] == #[trigger] body[k],
        20 + 16 * toks.len() <= body.len(),
        forall|j: int|
            0 <= j < toks.len() ==> #[trigger] old_record_at(body, 20 + 16 * j)
                == (crate::types::IndexItem {
                line: toks[j].dst_line,
                col: toks[j].dst_col,
                name_id: toks[j].name_id,
                src_id: toks[j].src_id,
            }),
    ensures
        forall|j: int|
            0 <= j < toks.len() ==> #[trigger] old_record_at(b, 20 + 16 * j)
                == (crate::types::IndexItem {
                line: toks[j].dst_line,
                col: toks[j].dst_col,
                name_id: toks[j].name_id,
                src_id: toks[j].src_id,
            }),
{
    assert forall|j: int| 0 <= j < toks.len() implies #[trigger] old_record_at(b, 20 + 16 * j)
        == (crate::types::IndexItem {
        line: toks[j].dst_line,
        col: toks[j].dst_col,
        name_id: toks[j].name_id,
        src_id: toks[j].src_id,
    }) by {
        assert(old_record_at(body, 20 + 16 * j) == (crate::types::IndexItem {
            line: toks[j].dst_line,
            col: toks[j].dst_col,
            name_id: toks[j].name_id,
            src_id: toks[j].src_id,
        }));
        assert(b.subrange(20 + 16 * j, 20 + 16 * j + 4) =~= body.subrange(
            20 + 16 * j,
            20 + 16 * j + 4,
        ));
        assert(b.subrange(20 + 16 * j + 4, 20 + 16 * j + 8) =~= body.subrange(
            20 + 16 * j + 4,
            20 + 16 * j + 8,
        ));
        assert(b.subrange(20 + 16 * j + 8, 20 + 16 * j + 12) =~= body.subrange(
            20 + 16 * j + 8,
            20 + 16 * j + 12,
        ));
        assert(b.subrange(20 + 16 * j + 12, 20 + 16 * j + 16) =~= body.subrange(
            20 + 16 * j + 12,
            20 + 16 * j + 16,
        ));
    }
}

/// Marker-target facts transfer to the spliced buffer; every blob sits
/// past the header.
proof fn lemma_old_markers_final(
    b: Seq<u8>,
    body: Seq<u8>,
    markers: Seq<StringMarker>,
    strs: Seq<String>,
)
    requires
        b.len() == body.len(),
        body.len() >= 20,
        forall|k: int| 20 <= k < body.len() ==> b[k] == #[trigger] body[k],
        markers.len() <= strs.len(),
        forall|j: int|
            0 <= j < markers.len() ==> marker_points_at(
                body,
                #[trigger] markers[j],
                vstd::utf8::encode_utf8(strs[j]@),
            ),
        forall|j: int| 0 <= j < markers.len() ==> (#[trigger] markers[j]).pos >= 20,
    ensures
        forall|j: int|
            0 <= j < markers.len() ==> marker_points_at(
                b,
                #[trigger] markers[j],
                vstd::utf8::encode_utf8(strs[j]@),
            ),
{
    assert forall|j: int| 0 <= j < markers.len() implies marker_points_at(
        b,
        #[trigger] markers[j],
        vstd::utf8::encode_utf8(strs[j]@),
    ) by {
        assert(b.subrange(markers[j].pos as int, markers[j].pos + markers[j].len)
            =~= body.subrange(markers[j].pos as int, markers[j].pos + markers[j].len));
    }
}

} // verus!
