//! The byte-wise bit writer.

use oxideav_huffyuv::bitreader::{BitReader, unswap_payload};
use oxideav_huffyuv::bitwriter::{BitWriter, swap_payload};

#[test]
fn writer_round_trips_through_reader() {
    let mut w = BitWriter::new();
    w.write_bits(1, 1);
    w.write_bits(3, 0b101);
    w.write_bits(8, 0xAA);
    w.write_bits(4, 0b1100);
    let buf = w.finish();
    let mut r = BitReader::new(&buf);
    assert_eq!(r.read_bits(1).unwrap(), 1);
    assert_eq!(r.read_bits(3).unwrap(), 0b101);
    assert_eq!(r.read_bits(8).unwrap(), 0xAA);
    assert_eq!(r.read_bits(4).unwrap(), 0b1100);
}

#[test]
fn swap_unswap_round_trip() {
    let src = [0x01u8, 0x02, 0x03, 0x04, 0xAA, 0xBB, 0xCC, 0xDD];
    let swapped = swap_payload(&src);
    let back = unswap_payload(&swapped);
    assert_eq!(back, src);
}

#[test]
fn values_are_read_back_in_order() {
    let mut s = 0x89AB_CDEFu32;
    let values: Vec<(u8, u32)> = (0..500)
        .map(|_| {
            s = s.wrapping_mul(1664525).wrapping_add(1013904223);
            let n = ((s >> 24) % 33) as u8;
            s = s.wrapping_mul(1664525).wrapping_add(1013904223);
            (n, s)
        })
        .collect();
    let mut w = BitWriter::new();
    for &(n, v) in &values {
        w.write_bits(n, v);
    }
    let total: usize = values.iter().map(|v| usize::from(v.0)).sum();
    assert_eq!(w.bit_count(), total);
    let buf = w.finish();
    assert_eq!(buf.len(), total.div_ceil(8));
    let mut r = BitReader::new(&buf);
    let mut taken = 0usize;
    for &(n, v) in &values {
        assert_eq!(u64::from(r.read_bits(n).unwrap()), u64::from(v) % (1u64 << n));
        taken += usize::from(n);
        assert_eq!(r.byte_pos(), taken / 8);
    }
    while let Ok(bit) = r.read_bit() {
        assert_eq!(bit, 0);
    }
    assert!(r.read_bits(1).is_err());
    assert_eq!(r.byte_pos(), buf.len());
}
