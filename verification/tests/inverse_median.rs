//! Inverse median prediction against a plain loop.

use oxideav_huffyuv::decoder::{decode_frame, inverse_yuy2_median};
use oxideav_huffyuv::encoder::{ExtradataMode, encode_frame_with_mode};
use oxideav_huffyuv::header::{Method, PixelFamily, StreamConfig};
use oxideav_huffyuv::predict::{inverse_yuy2_left_macropixel, median3};

fn ref_inverse_yuy2_median_per_byte(out: &mut [u8], row_bytes: usize) {
    let len = out.len();
    if len <= 4 {
        return;
    }
    let row0_end = row_bytes.min(len);
    inverse_yuy2_left_macropixel(out, 4, row0_end);
    if len <= row_bytes {
        return;
    }
    let row1_left_end = (row_bytes + 8).min(len);
    inverse_yuy2_left_macropixel(out, row_bytes, row1_left_end);
    if row1_left_end >= len {
        return;
    }
    for pos in row1_left_end..len {
        let l = out[pos - 2];
        let a = out[pos - row_bytes];
        let al = out[pos - row_bytes - 2];
        let g = l.wrapping_add(a).wrapping_sub(al);
        let predictor = median3(l, a, g);
        out[pos] = out[pos].wrapping_add(predictor);
    }
}

fn synth_residuals(n: usize, seed: u32) -> Vec<u8> {
    let mut s = seed | 1;
    let mut out = vec![0u8; n];
    for slot in out.iter_mut() {
        s ^= s << 13;
        s ^= s >> 17;
        s ^= s << 5;
        *slot = s as u8;
    }
    out
}

#[test]
fn round255_inverse_yuy2_median_matches_per_byte_reference() {
    for (w, h) in [
        (2usize, 18usize),
        (4, 4),
        (8, 6),
        (16, 3),
        (160, 8),
        (320, 16),
    ] {
        let row_bytes = w * 2;
        let n = row_bytes * h;
        let buf = synth_residuals(n, 0xCAFE_BABE);
        let mut a = buf.clone();
        let mut b = buf;
        ref_inverse_yuy2_median_per_byte(&mut a, row_bytes);
        inverse_yuy2_median(&mut b, row_bytes);
        assert_eq!(
            a, b,
            "2-byte step body must match per-byte reference (w={w}, h={h})"
        );
    }
}

#[test]
fn round255_inverse_yuy2_median_modular_wrap() {
    let row_bytes = 16;
    let h = 6;
    let n = row_bytes * h;
    let mut buf = Vec::with_capacity(n);
    for i in 0..n {
        buf.push(match i & 3 {
            0 => 0xFEu8,
            1 => 0xFFu8,
            2 => 0x01u8,
            _ => 0x02u8,
        });
    }
    let mut a = buf.clone();
    let mut b = buf;
    ref_inverse_yuy2_median_per_byte(&mut a, row_bytes);
    inverse_yuy2_median(&mut b, row_bytes);
    assert_eq!(a, b, "modular wrap path must match per-byte reference");
}

#[test]
fn round255_inverse_yuy2_median_boundary_row1_step_alignment() {
    for w in [2usize, 4, 8, 16, 160, 320] {
        let row_bytes = w * 2;
        let h = 4;
        let len = row_bytes * h;
        let row1_left_end = (row_bytes + 8).min(len);
        assert_eq!(
            row1_left_end & 1,
            0,
            "row1_left_end must be even for YUY2 (w={w})"
        );
        assert_eq!(
            (len - row1_left_end) & 1,
            0,
            "(len - row1_left_end) must be even for YUY2 (w={w})"
        );
    }
}

#[test]
fn round255_inverse_yuy2_median_scalar_tail_safety() {
    let row_bytes = 16;
    let h = 5;
    let len = row_bytes * h - 1;
    let buf = synth_residuals(len, 0xDEAD_BEEF);
    let mut a = buf.clone();
    let mut b = buf;
    ref_inverse_yuy2_median_per_byte(&mut a, row_bytes);
    inverse_yuy2_median(&mut b, row_bytes);
    assert_eq!(a, b, "scalar tail fall-through must match reference");
}

#[test]
fn round255_inverse_yuy2_median_encoder_roundtrip() {
    for (w, h) in [(2u32, 18u32), (4, 6), (8, 5), (16, 3)] {
        let pixels = synth_residuals((w as usize) * (h as usize) * 2, 0x1234_5678);
        let (bih, frame) = encode_frame_with_mode(
            PixelFamily::Yuy2,
            Method::Median,
            w,
            h,
            &pixels,
            ExtradataMode::ClassicV2,
        )
        .expect("encode");
        let cfg = StreamConfig::parse_bitmapinfoheader(&bih).expect("parse");
        let decoded = decode_frame(&cfg, &frame).expect("decode");
        assert_eq!(
            decoded.pixels, pixels,
            "round-trip must be bit-exact (w={w}, h={h})"
        );
    }
}
