//! Code lengths from weights.

use oxideav_huffyuv::huffman::HuffTable;
use oxideav_huffyuv::length_builder::build_lengths;

#[test]
fn flat_distribution_yields_balanced_lengths() {
    let n = 4usize;
    let freqs = vec![10u64; n];
    let lens = build_lengths(&freqs, 16).unwrap();
    assert_eq!(lens, vec![2u8; 4]);
}

#[test]
fn skewed_distribution() {
    let freqs = vec![100u64, 10, 1, 1, 1];
    let lens = build_lengths(&freqs, 16).unwrap();

    let codes = HuffTable::build_codes(&lens).unwrap();
    assert!(lens[0] <= lens[1]);
    assert!(lens[1] <= lens[2]);

    let _t = HuffTable::from_lengths(&lens).unwrap();
    assert!(codes[0].1 >= 1);
}

#[test]
fn single_symbol_alphabet_is_promoted_to_two() {
    let mut freqs = vec![0u64; 256];
    freqs[42] = 9999;
    let lens = build_lengths(&freqs, 16).unwrap();

    let nonzero = lens.iter().filter(|&&l| l > 0).count();
    assert!(nonzero >= 2, "got nonzero={nonzero} lens={:?}", &lens[..5]);
    let _t = HuffTable::from_lengths(&lens).unwrap();
}

#[test]
fn length_cap_respected_for_skewed_alphabet() {
    let mut freqs = vec![1u64; 64];
    freqs[0] = 1u64 << 60;
    let lens = build_lengths(&freqs, 12).unwrap();
    for (i, &l) in lens.iter().enumerate() {
        assert!(l <= 12, "symbol {i}: length {l} exceeds cap 12");
    }
}

#[test]
fn no_code_takes_fewer_bits() {
    let mut s = 9u32;
    for _ in 0..30 {
        let freqs: Vec<u64> = (0..4)
            .map(|_| {
                s = s.wrapping_mul(1664525).wrapping_add(1013904223);
                1 + u64::from(s >> 27)
            })
            .collect();
        let bits = |lens: &[u8]| -> u64 {
            freqs.iter().zip(lens).map(|(&f, &l)| f * u64::from(l)).sum()
        };
        let ours = bits(&build_lengths(&freqs, 31).unwrap());
        for code in 0..4u32.pow(4) {
            let lens: Vec<u8> = (0..4u32).map(|i| (1 + code / 4u32.pow(i) % 4) as u8).collect();
            let taken: u32 = lens.iter().map(|&l| 1u32 << (8 - l)).sum();
            if taken <= 1 << 8 {
                assert!(ours <= bits(&lens));
            }
        }
    }
}

#[test]
fn absent_symbols_have_no_codeword() {
    assert_eq!(build_lengths(&[0, 6, 0, 3, 0, 2], 31).unwrap(), [0, 1, 0, 2, 0, 2]);
    assert_eq!(build_lengths(&[0, 0, 0, 0], 31).unwrap(), [1, 1, 0, 0]);
    assert_eq!(build_lengths(&[7, 0, 0, 0], 31).unwrap(), [1, 1, 0, 0]);
    assert_eq!(build_lengths(&[0, 0, 7, 0], 1).unwrap(), [1, 0, 1, 0]);
    let capped = build_lengths(&[64, 0, 32, 16, 0, 8, 4, 2], 3).unwrap();
    assert_eq!((capped[1], capped[4]), (0, 0));
    assert!(capped.iter().all(|&l| l <= 3));
}
