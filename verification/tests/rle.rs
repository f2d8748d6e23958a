//! Run-length coded lengths.

use oxideav_huffyuv::rle::decode_lengths;

#[test]
fn short_runs_and_zero_extension() {
    let src = [0x43u8, 0x25, 0x80, 0x07, 0x03];
    let (lens, used) = decode_lengths(&src, 10).unwrap();
    assert_eq!(used, src.len());
    assert_eq!(lens, vec![3, 3, 5, 0, 0, 0, 0, 7, 7, 7]);
}

#[test]
fn rejects_overshoot() {
    let src = [0x82u8];
    let err = decode_lengths(&src, 3).unwrap_err();
    let msg = err.describe();
    assert!(msg.contains("overshoot"), "got: {msg}");
}
