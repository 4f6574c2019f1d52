//! The shape-bit position packer, the legacy records, and varints.

use sourcemap_db::memidx::{
    pack_loc_shape, unpack_loc_shape, CompactIndexItem, IndexItem, LargeIndexItem,
    VeryCompactIndexItem,
};
use sourcemap_db::types::RawToken;
use sourcemap_db::varint::{varint_decode, varint_encode};
use sourcemap_db::ErrorKind;

fn tok(dst_line: u32, dst_col: u32, src_line: u32, src_col: u32, src_id: u32, name_id: u32) -> RawToken {
    RawToken { dst_line, dst_col, src_line, src_col, src_id, name_id }
}

#[test]
fn pack_loc_shape_round_trips_both_shapes() {
    // line <= col: shape 0 (14-bit line, 17-bit col).
    let (shape, packed) = pack_loc_shape(10, 200).unwrap();
    assert_eq!(shape, 0);
    assert_eq!(unpack_loc_shape(shape, packed), (10, 200));
    // line > col: shape 1 (17-bit line, 14-bit col).
    let (shape, packed) = pack_loc_shape(100_000, 7).unwrap();
    assert_eq!(shape, 1);
    assert_eq!(unpack_loc_shape(shape, packed), (100_000, 7));
    // The extremes of each shape.
    let (shape, packed) = pack_loc_shape(0x3fff, 0x1ffff).unwrap();
    assert_eq!(unpack_loc_shape(shape, packed), (0x3fff, 0x1ffff));
    let (shape, packed) = pack_loc_shape(0x1ffff, 0x3fff).unwrap();
    assert_eq!(unpack_loc_shape(shape, packed), (0x1ffff, 0x3fff));
}

#[test]
fn pack_loc_shape_rejects_oversized_pairs() {
    assert!(matches!(pack_loc_shape(0x4000, 0x20000), Err(ErrorKind::LocationOverflow)));
    assert!(matches!(pack_loc_shape(0x20000, 0x4000), Err(ErrorKind::LocationOverflow)));
    assert!(matches!(pack_loc_shape(0, 0x20000), Err(ErrorKind::LocationOverflow)));
    assert!(matches!(pack_loc_shape(0x20000, 0x20000), Err(ErrorKind::LocationOverflow)));
}

#[test]
fn large_item_round_trips() {
    let t = tok(3, 10, 100, 5, 7, 42);
    let ii = LargeIndexItem::new(&t).unwrap();
    assert_eq!(ii.dst_line(), 3);
    assert_eq!(ii.dst_col(), 10);
    assert_eq!(ii.src_line(), 100);
    assert_eq!(ii.src_col(), 5);
    assert_eq!(ii.src_id(), 7);
    assert_eq!(ii.name_id(), 42);
}

#[test]
fn large_item_sentinels_round_trip() {
    let t = tok(0, 0, 0, 0, !0, !0);
    let ii = LargeIndexItem::new(&t).unwrap();
    assert_eq!(ii.src_id(), !0);
    assert_eq!(ii.name_id(), !0);
}

#[test]
fn large_item_rejects_oversized_ids() {
    let t = tok(0, 0, 0, 0, 0x3fff, 0);
    assert!(matches!(LargeIndexItem::new(&t), Err(ErrorKind::TooManySources)));
    let t = tok(0, 0, 0, 0, 0, 0x3ffff);
    assert!(matches!(LargeIndexItem::new(&t), Err(ErrorKind::TooManyNames)));
    let t = tok(0x20000, 0x20000, 0, 0, 0, 0);
    assert!(matches!(LargeIndexItem::new(&t), Err(ErrorKind::LocationOverflow)));
}

#[test]
fn compact_item_round_trips_and_drops_names() {
    let t = tok(1, 2, 3, 4, 5, 42);
    let ii = CompactIndexItem::new(&t).unwrap();
    assert_eq!(ii.dst_line(), 1);
    assert_eq!(ii.dst_col(), 2);
    assert_eq!(ii.src_line(), 3);
    assert_eq!(ii.src_col(), 4);
    assert_eq!(ii.src_id(), 5);
    assert_eq!(ii.name_id(), !0);
    let t = tok(0, 0, 0, 0, 0xffff, 0);
    assert!(matches!(CompactIndexItem::new(&t), Err(ErrorKind::TooManySources)));
}

#[test]
fn very_compact_item_round_trips() {
    let t = tok(9, 1, 300, 0, 12, !0);
    let ii = VeryCompactIndexItem::new(&t).unwrap();
    assert_eq!(ii.dst_line(), 9);
    assert_eq!(ii.dst_col(), 1);
    assert_eq!(ii.src_line(), 300);
    assert_eq!(ii.src_col(), 0);
    assert_eq!(ii.src_id(), 12);
    assert_eq!(ii.name_id(), !0);
    // A nonzero source column does not fit this record.
    let t = tok(9, 1, 300, 1, 12, !0);
    assert!(matches!(VeryCompactIndexItem::new(&t), Err(ErrorKind::LocationOverflow)));
}

#[test]
fn varint_round_trips() {
    let values: [u64; 8] = [0, 1, 127, 128, 300, 16_383, 16_384, u64::MAX];
    for &v in values.iter() {
        let mut buf: Vec<u8> = Vec::new();
        varint_encode(&mut buf, v);
        let (decoded, end) = varint_decode(buf.as_slice(), 0).unwrap();
        assert_eq!(decoded, v);
        assert_eq!(end, buf.len());
    }
}

#[test]
fn varint_single_bytes() {
    let mut buf: Vec<u8> = Vec::new();
    varint_encode(&mut buf, 5);
    assert_eq!(buf, vec![5u8]);
    let mut buf: Vec<u8> = Vec::new();
    varint_encode(&mut buf, 300);
    assert_eq!(buf, vec![0xacu8, 0x02]);
}

#[test]
fn varint_rejects_truncated_input() {
    let buf: Vec<u8> = vec![0x80];
    assert!(varint_decode(buf.as_slice(), 0).is_none());
    let buf: Vec<u8> = vec![];
    assert!(varint_decode(buf.as_slice(), 0).is_none());
}
