//! Bit codec round trips and the width helpers.

use sourcemap_db::bitpacker::{clz, iclz, idsz, BitPacker, BitUnpacker};

fn round_trip_one(v: u32, k: usize) -> u32 {
    let mut p = BitPacker::new();
    p.write(v, k);
    p.flush();
    let buf = p.buf;
    let mut u = BitUnpacker::new(buf.as_slice());
    u.read(k)
}

#[test]
fn bit_round_trip_exhaustive_widths() {
    for k in 0..=32usize {
        let max: u64 = if k == 64 { 0 } else { (1u64 << k) - 1 };
        let samples: [u64; 4] = [0, 1, max / 2, max];
        for &s in samples.iter() {
            let v = (s & 0xffff_ffff) as u32;
            if k < 32 && (v as u64) >= (1u64 << k) {
                continue;
            }
            assert_eq!(round_trip_one(v, k), v, "width {} value {}", k, v);
        }
    }
}

#[test]
fn bit_round_trip_multi_field() {
    let fields: [(u32, usize); 6] = [(5, 3), (1023, 10), (0, 0), (0xfffff, 20), (1, 1), (0xdeadbeef, 32)];
    let mut p = BitPacker::new();
    for &(v, k) in fields.iter() {
        p.write(v, k);
    }
    p.flush();
    let buf = p.buf;
    let mut u = BitUnpacker::new(buf.as_slice());
    for &(v, k) in fields.iter() {
        assert_eq!(u.read(k), v);
    }
}

#[test]
fn bit_round_trip_word_boundary_split() {
    // 20 + 20 bits forces a split across the 32-bit register.
    let mut p = BitPacker::new();
    p.write(0xabcde, 20);
    p.write(0x12345, 20);
    p.write(0x3fffffff, 30);
    p.flush();
    let buf = p.buf;
    let mut u = BitUnpacker::new(buf.as_slice());
    assert_eq!(u.read(20), 0xabcde);
    assert_eq!(u.read(20), 0x12345);
    assert_eq!(u.read(30), 0x3fffffff);
}

#[test]
fn id_sentinel_round_trips_at_every_width() {
    for k in 1..=32usize {
        let mut p = BitPacker::new();
        p.write_id(!0u32, k);
        p.flush();
        let buf = p.buf;
        let mut u = BitUnpacker::new(buf.as_slice());
        assert_eq!(u.read_id(k), !0u32, "sentinel at width {}", k);
    }
}

#[test]
fn id_values_round_trip() {
    // An id needs one bit more than its value, so 5 fits in 4 bits.
    let mut p = BitPacker::new();
    p.write_id(5, 4);
    p.write_id(0, 1);
    p.write_id(!0u32, 1);
    p.flush();
    let buf = p.buf;
    let mut u = BitUnpacker::new(buf.as_slice());
    assert_eq!(u.read_id(4), 5);
    assert_eq!(u.read_id(1), 0);
    assert_eq!(u.read_id(1), !0u32);
}

#[test]
fn write_masks_to_width() {
    // Only the low bits survive: writing 0xff in 4 bits stores 0xf.
    let mut p = BitPacker::new();
    p.write(0xff, 4);
    p.flush();
    let buf = p.buf;
    let mut u = BitUnpacker::new(buf.as_slice());
    assert_eq!(u.read(4), 0xf);
}

#[test]
fn clz_and_iclz_values() {
    assert_eq!(clz(0), 32);
    assert_eq!(clz(1), 31);
    assert_eq!(clz(2), 30);
    assert_eq!(clz(0x8000_0000), 0);
    assert_eq!(clz(0xffff_ffff), 0);
    assert_eq!(iclz(0), 0);
    assert_eq!(iclz(1), 1);
    assert_eq!(iclz(2), 2);
    assert_eq!(iclz(3), 2);
    assert_eq!(iclz(255), 8);
    assert_eq!(iclz(256), 9);
    assert_eq!(iclz(200_000), 18);
    assert_eq!(iclz(0xffff_ffff), 32);
}

#[test]
fn idsz_reserves_the_sentinel_bit() {
    assert_eq!(idsz(!0u32), 1);
    assert_eq!(idsz(0), 1);
    assert_eq!(idsz(1), 2);
    assert_eq!(idsz(2), 3);
    assert_eq!(idsz(0x3ffe), 15);
}

#[test]
fn reader_pads_short_buffers_with_zeros() {
    // A 1-byte buffer still answers a full 8-bit read.
    let buf: Vec<u8> = vec![0b1010_0001];
    let mut u = BitUnpacker::new(buf.as_slice());
    assert_eq!(u.read(8), 0b1010_0001);
}
