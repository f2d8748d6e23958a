//! Inverse left prediction against a plain loop.

use oxideav_huffyuv::predict::{
    forward_median_subtract, inverse_left_full, inverse_left_row, inverse_median_post,
    inverse_yuy2_left_macropixel,
};

fn ref_inverse_left_per_channel(out: &mut [u8], n: usize) {
    for i in n..out.len() {
        out[i] = out[i].wrapping_add(out[i - n]);
    }
}

fn ref_inverse_yuy2_left(out: &mut [u8]) {
    for i in 4..out.len() {
        let stride = if i & 1 == 0 { 2 } else { 4 };
        out[i] = out[i].wrapping_add(out[i - stride]);
    }
}

#[test]
fn predict_inverse_left_row_matches_decoder_naive_rgb24() {
    let mut a = (0..105u32)
        .map(|x| (x.wrapping_mul(37) ^ 0x5a) as u8)
        .collect::<Vec<_>>();
    let mut b = a.clone();
    ref_inverse_left_per_channel(&mut a, 3);
    inverse_left_row(&mut b, 3);
    assert_eq!(a, b);
}

#[test]
fn predict_inverse_left_row_matches_decoder_naive_rgb32() {
    let mut a = (0..96u32)
        .map(|x| (x.wrapping_mul(53) ^ 0xa5) as u8)
        .collect::<Vec<_>>();
    let mut b = a.clone();
    ref_inverse_left_per_channel(&mut a, 4);
    inverse_left_row(&mut b, 4);
    assert_eq!(a, b);
}

#[test]
fn predict_inverse_yuy2_left_macropixel_matches_decoder_naive() {
    let mut a = (0..96u32)
        .map(|x| (x.wrapping_mul(29) ^ 0xc3) as u8)
        .collect::<Vec<_>>();
    let mut b = a.clone();
    let n = b.len();
    ref_inverse_yuy2_left(&mut a);
    inverse_yuy2_left_macropixel(&mut b, 4, n);
    assert_eq!(a, b);
}

#[test]
fn inverse_left_full_runs_by_channel() {
    let mut out = [1u8, 2, 3, 4, 5, 6];
    inverse_left_full(&mut out, 6, 3);
    assert_eq!(out, [1, 2, 3, 5, 7, 9]);
    let mut out = [250u8, 1, 10, 2];
    inverse_left_full(&mut out, 2, 1);
    assert_eq!(out, [250, 251, 5, 7]);
    for n in 1..5 {
        let mut a: Vec<u8> = (0..60u32).map(|x| (x.wrapping_mul(41) ^ 0x3c) as u8).collect();
        let mut b = a.clone();
        ref_inverse_left_per_channel(&mut a, n);
        inverse_left_full(&mut b, 12, n);
        assert_eq!(a, b);
    }
}

#[test]
fn left_then_median_restores_the_raster() {
    let mut s = 77u32;
    for (row_bytes, height) in [(4usize, 4usize), (8, 1), (8, 2), (8, 5), (12, 3), (20, 7)] {
        for round in 0..4 {
            let raster: Vec<u8> = (0..row_bytes * height)
                .map(|i| {
                    s = s.wrapping_mul(1664525).wrapping_add(1013904223);
                    if round == 0 {
                        u8::from(i % 4 == 3)
                    } else {
                        (s >> 24) as u8
                    }
                })
                .collect();
            let mut out = vec![0u8; raster.len()];
            forward_median_subtract(&raster, &mut out, row_bytes, height);
            let end = out.len();
            inverse_yuy2_left_macropixel(&mut out, 4, end);
            let left = out.clone();
            inverse_median_post(&mut out, row_bytes, height);
            assert_eq!(out, raster);
            let kept = (row_bytes + 8).min(end);
            assert_eq!(out[..kept], left[..kept]);
        }
    }
}
