//! Run-length coding of lengths.

use oxideav_huffyuv::rle::decode_lengths;
use oxideav_huffyuv::rle_encode::encode_lengths;

#[test]
fn round_trip_through_decoder() {
    let lens: Vec<u8> = (0..256).map(|i| (i % 16) as u8).collect();
    let blob = encode_lengths(&lens);
    let (decoded, used) = decode_lengths(&blob, 256).unwrap();
    assert_eq!(used, blob.len());
    assert_eq!(decoded, lens);
}

#[test]
fn long_runs() {
    let lens = vec![8u8; 256];
    let blob = encode_lengths(&lens);
    let (decoded, used) = decode_lengths(&blob, 256).unwrap();
    assert_eq!(decoded, lens);
    assert_eq!(used, blob.len());

    assert_eq!(blob.len(), 3);
}

/// The fewest bytes that runs of at most 255 can take, tried out from the end.
fn fewest_bytes(lens: &[u8]) -> usize {
    let mut best = vec![0usize; lens.len() + 1];
    for i in (0..lens.len()).rev() {
        best[i] = usize::MAX;
        for run in 1..=(lens.len() - i).min(255) {
            if lens[i + run - 1] != lens[i] {
                break;
            }
            let bytes = if run < 8 { 1 } else { 2 };
            best[i] = best[i].min(bytes + best[i + run]);
        }
    }
    best[0]
}

#[test]
fn no_shorter_runs_hold_the_lengths() {
    assert_eq!(encode_lengths(&[3; 7]).len(), 1);
    assert_eq!(encode_lengths(&[3; 8]).len(), 2);
    assert_eq!(encode_lengths(&[3; 262]).len(), 3);
    assert_eq!(encode_lengths(&[3; 263]).len(), 4);
    for n in 1..600 {
        assert_eq!(encode_lengths(&vec![5u8; n]).len(), fewest_bytes(&vec![5u8; n]));
    }
    let mut s = 5u32;
    for _ in 0..50 {
        let mut lens = Vec::new();
        while lens.len() < 256 {
            s = s.wrapping_mul(1664525).wrapping_add(1013904223);
            let run = 1 + (s >> 20) as usize % 40;
            lens.extend(std::iter::repeat((s >> 8) as u8 % 32).take(run));
        }
        let out = encode_lengths(&lens);
        assert_eq!(out.len(), fewest_bytes(&lens));
        assert_eq!(decode_lengths(&out, lens.len()).unwrap(), (lens, out.len()));
    }
}
