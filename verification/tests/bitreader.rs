//! The byte-wise bit reader.

use oxideav_huffyuv::bitreader::{BitReader, unswap_payload};

#[test]
fn reads_bits_msb_first() {
    let buf = [0b1010_1100u8, 0b1111_0000];
    let mut r = BitReader::new(&buf);
    assert_eq!(r.read_bit().unwrap(), 1);
    assert_eq!(r.read_bit().unwrap(), 0);
    assert_eq!(r.read_bit().unwrap(), 1);
    assert_eq!(r.read_bit().unwrap(), 0);
    assert_eq!(r.read_bits(4).unwrap(), 0b1100);
    assert_eq!(r.read_bits(4).unwrap(), 0b1111);
}

#[test]
fn unswap_round_trip() {
    let src = [0x01u8, 0x02, 0x03, 0x04, 0xAA, 0xBB, 0xCC, 0xDD];
    let unswapped = unswap_payload(&src);
    assert_eq!(
        unswapped,
        vec![0x04, 0x03, 0x02, 0x01, 0xDD, 0xCC, 0xBB, 0xAA]
    );
}
