//! Prediction over whole rasters.

use oxideav_huffyuv::predict::{
    forward_decorr_gradient_subtract, forward_gradient_subtract, forward_left_decorr_residuals,
    forward_median_subtract, forward_rgb_left_subtract_linear, forward_yuy2_left_subtract,
    gradient_predictor, interlace_flag_for_height, interlaced_from_flag_and_height,
    interleave_fields, inverse_gradient_post, inverse_left_full, inverse_rgb_decorr_bgr,
    inverse_rgb_decorr_bgra, inverse_yuy2_left_macropixel, is_interlaced_height, median3,
    split_fields,
};

#[test]
fn median3_picks_middle_value() {
    assert_eq!(median3(0x12, 0x4e, 0xaf), 0x4e);
    assert_eq!(median3(10, 20, 30), 20);
    assert_eq!(median3(30, 20, 10), 20);
}

#[test]
fn gradient_predictor_wraps_mod_256() {
    assert_eq!(
        gradient_predictor(200, 100, 50),
        200u8.wrapping_add(100).wrapping_sub(50)
    );
    assert_eq!(
        gradient_predictor(10, 20, 100),
        10u8.wrapping_add(20).wrapping_sub(100)
    );
}

#[test]
fn left_inverse_round_trips_synth_residuals() {
    let pixels: [u8; 8] = [10, 20, 31, 25, 40, 80, 100, 150];

    let mut residuals = [0u8; 8];
    residuals[0] = pixels[0];
    for i in 1..8 {
        residuals[i] = pixels[i].wrapping_sub(pixels[i - 1]);
    }

    let mut buf = residuals;
    inverse_left_full(&mut buf, 8, 1);
    assert_eq!(&buf, &pixels);
}

#[test]
fn interlace_threshold_matches_spec() {
    assert!(!is_interlaced_height(0));
    assert!(!is_interlaced_height(288));
    assert!(is_interlaced_height(289));
    assert!(is_interlaced_height(720));
    assert!(is_interlaced_height(1080));
}

#[test]
fn interlace_flag_decode_table() {
    assert!(interlaced_from_flag_and_height(0x10, 16));
    assert!(interlaced_from_flag_and_height(0x10, 1080));

    assert!(!interlaced_from_flag_and_height(0x20, 16));
    assert!(!interlaced_from_flag_and_height(0x20, 1080));

    assert!(interlaced_from_flag_and_height(0x1F, 16));
    assert!(!interlaced_from_flag_and_height(0x2A, 1080));

    assert!(!interlaced_from_flag_and_height(0x00, 288));
    assert!(interlaced_from_flag_and_height(0x00, 289));

    for nib in [0u8, 3, 4, 8, 15] {
        let flag = nib << 4;
        assert_eq!(
            interlaced_from_flag_and_height(flag, 289),
            is_interlaced_height(289),
            "flag 0x{flag:02x} should fall back to height"
        );
        assert_eq!(
            interlaced_from_flag_and_height(flag, 16),
            is_interlaced_height(16),
            "flag 0x{flag:02x} should fall back to height"
        );
    }
}

#[test]
fn interlace_flag_encode_matches_i386_build() {
    assert_eq!(interlace_flag_for_height(0), 0x20);
    assert_eq!(interlace_flag_for_height(288), 0x20);
    assert_eq!(interlace_flag_for_height(289), 0x10);
    assert_eq!(interlace_flag_for_height(720), 0x10);

    for &h in &[0u32, 1, 287, 288, 289, 480, 720, 1080] {
        let flag = interlace_flag_for_height(h);
        assert_eq!(
            interlaced_from_flag_and_height(flag, 0xFFFF_FFFF),
            is_interlaced_height(h),
            "round-trip at height {h} (flag 0x{flag:02x}); decode height \
             deliberately wrong to prove the flag is authoritative"
        );
    }
}

#[test]
fn split_then_interleave_round_trips_even_height() {
    let pixels: Vec<u8> = (0..24u8).collect();
    let (top, bot) = split_fields(&pixels, 6, 4);
    assert_eq!(top.len(), 12);
    assert_eq!(bot.len(), 12);
    assert_eq!(&top[..6], &pixels[0..6]);
    assert_eq!(&top[6..12], &pixels[12..18]);
    assert_eq!(&bot[..6], &pixels[6..12]);
    assert_eq!(&bot[6..12], &pixels[18..24]);
    let merged = interleave_fields(&top, &bot, 6, 4);
    assert_eq!(merged, pixels);
}

fn left_range(out: &mut [u8], begin: usize, end: usize) {
    for i in begin..end {
        let stride = if i & 1 == 0 { 2 } else { 4 };
        out[i] = out[i].wrapping_add(out[i - stride]);
    }
}

fn naive_forward_gradient(src: &[u8], row_bytes: usize, height: usize) -> Vec<u8> {
    let mut out = vec![0u8; src.len()];
    if height == 0 || row_bytes == 0 {
        return out;
    }
    out[..row_bytes].copy_from_slice(&src[..row_bytes]);
    for row in 1..height {
        for col in 0..row_bytes {
            let idx = row * row_bytes + col;
            let above = src[(row - 1) * row_bytes + col];
            out[idx] = src[idx].wrapping_sub(above);
        }
    }
    out
}

#[test]
fn round95_swar_subtract_equals_naive_aligned_8() {
    let src: Vec<u8> = (0..(8 * 5)).map(|x| ((x * 31) ^ 0x5A) as u8).collect();
    let mut dst = vec![0u8; src.len()];
    forward_gradient_subtract(&src, &mut dst, 8, 5);
    let expected = naive_forward_gradient(&src, 8, 5);
    assert_eq!(dst, expected);
}

#[test]
fn round95_swar_subtract_equals_naive_unaligned_tail() {
    let row_bytes = 13;
    let height = 7;
    let src: Vec<u8> = (0..(row_bytes * height))
        .map(|x| ((x * 17 + 3) ^ 0xA5) as u8)
        .collect();
    let mut dst = vec![0u8; src.len()];
    forward_gradient_subtract(&src, &mut dst, row_bytes, height);
    let expected = naive_forward_gradient(&src, row_bytes, height);
    assert_eq!(dst, expected);
}

#[test]
fn round95_swar_subtract_handles_modular_wrap() {
    let mut src = vec![0u8; 24];
    for col in 0..8 {
        src[col] = col as u8;
        src[8 + col] = 0x80 | col as u8;
        src[16 + col] = col as u8;
    }
    let mut dst = vec![0u8; 24];
    forward_gradient_subtract(&src, &mut dst, 8, 3);
    let expected = naive_forward_gradient(&src, 8, 3);
    assert_eq!(dst, expected);

    for col in 0..8 {
        assert_eq!(dst[16 + col], 0x80);
    }
}

#[test]
fn round95_swar_subtract_height_1_no_op() {
    let src: Vec<u8> = (0..8).map(|x| x as u8).collect();
    let mut dst = vec![0u8; src.len()];
    forward_gradient_subtract(&src, &mut dst, 8, 1);

    assert_eq!(dst, src);
}

#[test]
fn round95_swar_subtract_roundtrips_with_inverse() {
    let src: Vec<u8> = (0..(16 * 4)).map(|x| ((x * 13) ^ 0xC3) as u8).collect();
    let mut dst = vec![0u8; src.len()];
    forward_gradient_subtract(&src, &mut dst, 16, 4);

    let mut roundtrip = dst.clone();
    inverse_gradient_post(&mut roundtrip, 16, 4);
    assert_eq!(roundtrip, src);
}

#[test]
fn split_then_interleave_round_trips_odd_height() {
    let pixels: Vec<u8> = (0..20u8).collect();
    let (top, bot) = split_fields(&pixels, 4, 5);
    assert_eq!(top.len(), 12);
    assert_eq!(bot.len(), 8);
    let merged = interleave_fields(&top, &bot, 4, 5);
    assert_eq!(merged, pixels);
}

#[test]
fn split_interleave_height_one_single_row_goes_to_top() {
    let pixels: Vec<u8> = (0..6u8).collect();
    let (top, bot) = split_fields(&pixels, 6, 1);
    assert_eq!(top.len(), 6, "single row → 1 top row");
    assert!(bot.is_empty(), "single row → empty bottom field");
    assert_eq!(&top, &pixels);
    let merged = interleave_fields(&top, &bot, 6, 1);
    assert_eq!(merged, pixels);
}

#[test]
fn split_interleave_degenerate_guards_return_empty() {
    let pixels: Vec<u8> = (0..12u8).collect();

    let (t0, b0) = split_fields(&pixels, 0, 4);
    assert!(t0.is_empty() && b0.is_empty(), "row_bytes=0 → empty fields");
    assert!(
        interleave_fields(&t0, &b0, 0, 4).is_empty(),
        "row_bytes=0 → empty raster"
    );

    let (t1, b1) = split_fields(&pixels, 4, 0);
    assert!(t1.is_empty() && b1.is_empty(), "height=0 → empty fields");
    assert!(
        interleave_fields(&t1, &b1, 4, 0).is_empty(),
        "height=0 → empty raster"
    );

    let (t2, b2) = split_fields(&[], 0, 0);
    assert!(t2.is_empty() && b2.is_empty());
    assert!(interleave_fields(&[], &[], 0, 0).is_empty());
}

#[test]
fn split_interleave_row_distribution_and_roundtrip_sweep() {
    for &row_bytes in &[1usize, 2, 4, 16, 13] {
        for &height in &[1usize, 2, 3, 7, 8, 17] {
            let n = row_bytes * height;

            let pixels: Vec<u8> = (0..n).map(|x| ((x * 53 + 7) ^ 0x9E) as u8).collect();
            let (top, bot) = split_fields(&pixels, row_bytes, height);
            assert_eq!(
                top.len(),
                height.div_ceil(2) * row_bytes,
                "top rows for {row_bytes}x{height}"
            );
            assert_eq!(
                bot.len(),
                (height / 2) * row_bytes,
                "bot rows for {row_bytes}x{height}"
            );

            for row in 0..height {
                let src = &pixels[row * row_bytes..(row + 1) * row_bytes];
                let (field, frow) = if row & 1 == 0 {
                    (&top, row / 2)
                } else {
                    (&bot, row / 2)
                };
                assert_eq!(
                    &field[frow * row_bytes..(frow + 1) * row_bytes],
                    src,
                    "row {row} misplaced for {row_bytes}x{height}"
                );
            }
            let merged = interleave_fields(&top, &bot, row_bytes, height);
            assert_eq!(
                merged, pixels,
                "interleave∘split must be identity for {row_bytes}x{height}"
            );
        }
    }
}

fn naive_two_pass_decorr_left(pixels: &[u8], n: usize) -> Vec<u8> {
    let n_pixels = pixels.len() / n;
    let mut working = vec![0u8; pixels.len()];
    for px in 0..n_pixels {
        let off = px * n;
        let g = pixels[off + 1];
        working[off] = pixels[off].wrapping_sub(g);
        working[off + 1] = g;
        working[off + 2] = pixels[off + 2].wrapping_sub(g);
        if n == 4 {
            working[off + 3] = pixels[off + 3];
        }
    }
    let mut residuals = vec![0u8; pixels.len()];
    for ch in 0..n {
        residuals[ch] = working[ch];
        let mut idx = ch + n;
        while idx < working.len() {
            residuals[idx] = working[idx].wrapping_sub(working[idx - n]);
            idx += n;
        }
    }
    residuals
}

#[test]
fn round100_fused_decorr_matches_two_pass_rgb24() {
    let n_pixels = 15usize;
    let pixels: Vec<u8> = (0..(n_pixels * 3))
        .map(|x| ((x * 37 + 11) ^ 0x6C) as u8)
        .collect();
    let mut fused = vec![0u8; pixels.len()];
    forward_left_decorr_residuals(&pixels, &mut fused, 3);
    let reference = naive_two_pass_decorr_left(&pixels, 3);
    assert_eq!(fused, reference);
}

#[test]
fn round100_fused_decorr_matches_two_pass_rgb32() {
    let n_pixels = 17usize;
    let pixels: Vec<u8> = (0..(n_pixels * 4))
        .map(|x| ((x * 53 + 7) ^ 0x39) as u8)
        .collect();
    let mut fused = vec![0u8; pixels.len()];
    forward_left_decorr_residuals(&pixels, &mut fused, 4);
    let reference = naive_two_pass_decorr_left(&pixels, 4);
    assert_eq!(fused, reference);
}

#[test]
fn round100_fused_decorr_modular_wrap() {
    let pixels: Vec<u8> = vec![0x10, 0x80, 0x05, 0x00, 0x10, 0xF0];
    let mut fused = vec![0u8; pixels.len()];
    forward_left_decorr_residuals(&pixels, &mut fused, 3);
    let reference = naive_two_pass_decorr_left(&pixels, 3);
    assert_eq!(fused, reference);

    assert_eq!(fused[0], 0x10u8.wrapping_sub(0x80));
    assert_eq!(fused[1], 0x80);
    assert_eq!(fused[2], 0x05u8.wrapping_sub(0x80));
}

#[test]
fn round100_fused_decorr_alpha_left_predicted_not_decorrelated() {
    let pixels: Vec<u8> = vec![
        0x11, 0x22, 0x33, 0x40,
        0x44, 0x55, 0x66, 0x55,
    ];
    let mut fused = vec![0u8; pixels.len()];
    forward_left_decorr_residuals(&pixels, &mut fused, 4);
    assert_eq!(fused[3], 0x40);
    assert_eq!(fused[7], 0x55u8.wrapping_sub(0x40));

    let reference = naive_two_pass_decorr_left(&pixels, 4);
    assert_eq!(fused, reference);
}

fn naive_two_pass_decorr_gradient(
    pixels: &[u8],
    n: usize,
    row_bytes: usize,
    height: usize,
) -> Vec<u8> {
    let n_pixels = pixels.len() / n;
    let mut working = vec![0u8; pixels.len()];
    for px in 0..n_pixels {
        let off = px * n;
        let g = pixels[off + 1];
        working[off] = pixels[off].wrapping_sub(g);
        working[off + 1] = g;
        working[off + 2] = pixels[off + 2].wrapping_sub(g);
        if n == 4 {
            working[off + 3] = pixels[off + 3];
        }
    }
    let mut dst = vec![0u8; pixels.len()];
    forward_gradient_subtract(&working, &mut dst, row_bytes, height);
    dst
}

#[test]
fn round103_fused_decorr_gradient_matches_two_pass_rgb24() {
    let (w, h, n) = (7usize, 5usize, 3usize);
    let row_bytes = w * n;
    let pixels: Vec<u8> = (0..(row_bytes * h))
        .map(|x| ((x * 41 + 13) ^ 0x5C) as u8)
        .collect();
    let mut fused = vec![0u8; pixels.len()];
    forward_decorr_gradient_subtract(&pixels, &mut fused, n, row_bytes, h);
    let reference = naive_two_pass_decorr_gradient(&pixels, n, row_bytes, h);
    assert_eq!(fused, reference);
}

#[test]
fn round103_fused_decorr_gradient_matches_two_pass_rgb32() {
    let (w, h, n) = (6usize, 4usize, 4usize);
    let row_bytes = w * n;
    let pixels: Vec<u8> = (0..(row_bytes * h))
        .map(|x| ((x * 59 + 7) ^ 0x33) as u8)
        .collect();
    let mut fused = vec![0u8; pixels.len()];
    forward_decorr_gradient_subtract(&pixels, &mut fused, n, row_bytes, h);
    let reference = naive_two_pass_decorr_gradient(&pixels, n, row_bytes, h);
    assert_eq!(fused, reference);
}

#[test]
fn round103_fused_decorr_gradient_modular_wrap() {
    let pixels: Vec<u8> = vec![0x10, 0x80, 0x05, 0x00, 0x10, 0xF0];
    let row_bytes = 3;
    let mut fused = vec![0u8; pixels.len()];
    forward_decorr_gradient_subtract(&pixels, &mut fused, 3, row_bytes, 2);
    let reference = naive_two_pass_decorr_gradient(&pixels, 3, row_bytes, 2);
    assert_eq!(fused, reference);

    assert_eq!(fused[0], 0x10u8.wrapping_sub(0x80));
    assert_eq!(fused[1], 0x80);
    assert_eq!(fused[2], 0x05u8.wrapping_sub(0x80));

    assert_eq!(fused[3], 0xF0u8.wrapping_sub(0x90));
    assert_eq!(fused[4], 0x10u8.wrapping_sub(0x80));
    assert_eq!(fused[5], 0xE0u8.wrapping_sub(0x85));
}

#[test]
fn round103_fused_decorr_gradient_alpha_identity_not_decorrelated() {
    let pixels: Vec<u8> = vec![
        0x11, 0x22, 0x33, 0x40,
        0x44, 0x55, 0x66, 0x90,
    ];
    let row_bytes = 4;
    let mut fused = vec![0u8; pixels.len()];
    forward_decorr_gradient_subtract(&pixels, &mut fused, 4, row_bytes, 2);
    assert_eq!(fused[3], 0x40);
    assert_eq!(fused[7], 0x90u8.wrapping_sub(0x40));
    let reference = naive_two_pass_decorr_gradient(&pixels, 4, row_bytes, 2);
    assert_eq!(fused, reference);
}

#[test]
fn round103_fused_decorr_gradient_height_1_no_op() {
    let pixels: Vec<u8> = vec![0x10, 0x20, 0x30, 0x40, 0x50, 0x60];
    let row_bytes = 6;
    let mut fused = vec![0u8; pixels.len()];
    forward_decorr_gradient_subtract(&pixels, &mut fused, 3, row_bytes, 1);

    assert_eq!(fused[0], 0x10u8.wrapping_sub(0x20));
    assert_eq!(fused[1], 0x20);
    assert_eq!(fused[2], 0x30u8.wrapping_sub(0x20));
    assert_eq!(fused[3], 0x40u8.wrapping_sub(0x50));
    assert_eq!(fused[4], 0x50);
    assert_eq!(fused[5], 0x60u8.wrapping_sub(0x50));
    let reference = naive_two_pass_decorr_gradient(&pixels, 3, row_bytes, 1);
    assert_eq!(fused, reference);
}

#[test]
fn round100_fused_decorr_roundtrips_via_inverse_rgb24() {
    let n_pixels = 9usize;
    let pixels: Vec<u8> = (0..(n_pixels * 3))
        .map(|x| ((x * 29 + 5) ^ 0xB7) as u8)
        .collect();
    let mut residuals = vec![0u8; pixels.len()];
    forward_left_decorr_residuals(&pixels, &mut residuals, 3);

    let mut recon = residuals.clone();
    for i in 3..recon.len() {
        recon[i] = recon[i].wrapping_add(recon[i - 3]);
    }

    inverse_rgb_decorr_bgr(&mut recon);
    assert_eq!(recon, pixels);
}

fn naive_two_phase_forward_median(pixels: &[u8], row_bytes: usize, height: usize) -> Vec<u8> {
    let mut residuals = vec![0u8; pixels.len()];

    let copy_n = 4.min(pixels.len());
    residuals[..copy_n].copy_from_slice(&pixels[..copy_n]);
    for i in 4..pixels.len() {
        let stride = if i & 1 == 0 { 2 } else { 4 };
        residuals[i] = pixels[i].wrapping_sub(pixels[i - stride]);
    }

    if height >= 2 && row_bytes > 0 {
        let row1_median_start = (row_bytes + 8).min(pixels.len());
        for pos in row1_median_start..pixels.len() {
            if pos < row_bytes {
                continue;
            }
            let l = pixels[pos.wrapping_sub(2)];
            let a = pixels[pos - row_bytes];
            let al = if pos >= row_bytes + 2 {
                pixels[pos - row_bytes - 2]
            } else {
                0
            };
            let g = gradient_predictor(l, a, al);
            let predictor = median3(l, a, g);
            residuals[pos] = pixels[pos].wrapping_sub(predictor);
        }
    }
    residuals
}

#[test]
fn round115_forward_median_matches_two_phase() {
    let row_bytes = 16usize;
    let height = 6usize;
    let pixels: Vec<u8> = (0..(row_bytes * height))
        .map(|x| ((x * 37 + 11) ^ 0x5C) as u8)
        .collect();
    let mut fused = vec![0u8; pixels.len()];
    forward_median_subtract(&pixels, &mut fused, row_bytes, height);
    let reference = naive_two_phase_forward_median(&pixels, row_bytes, height);
    assert_eq!(fused, reference);
}

#[test]
fn round115_forward_median_modular_wrap() {
    let row_bytes = 8usize;
    let height = 3usize;
    let pixels: Vec<u8> = vec![

        0xF0, 0x10, 0x20, 0x30, 0x40, 0x50, 0x60, 0x70,
        0x05, 0x80, 0x90, 0xA0, 0xB0, 0xC0, 0xD0, 0xE0,
        0xFF, 0x01, 0x02, 0x03, 0x04, 0x05, 0x06, 0x07,
    ];
    let mut fused = vec![0u8; pixels.len()];
    forward_median_subtract(&pixels, &mut fused, row_bytes, height);
    let reference = naive_two_phase_forward_median(&pixels, row_bytes, height);
    assert_eq!(fused, reference);
}

#[test]
fn round115_forward_median_height_1_is_all_left() {
    let row_bytes = 8usize;
    let pixels: Vec<u8> = vec![0x10, 0x20, 0x30, 0x40, 0x55, 0x66, 0x77, 0x88];
    let mut fused = vec![0u8; pixels.len()];
    forward_median_subtract(&pixels, &mut fused, row_bytes, 1);

    assert_eq!(&fused[..4], &pixels[..4]);
    for i in 4..pixels.len() {
        let stride = if i & 1 == 0 { 2 } else { 4 };
        assert_eq!(fused[i], pixels[i].wrapping_sub(pixels[i - stride]));
    }
}

#[test]
fn round115_forward_median_short_second_row_is_all_left() {
    let row_bytes = 8usize;
    let height = 2usize;
    let pixels: Vec<u8> = (0..(row_bytes * height))
        .map(|x| (x * 13 + 3) as u8)
        .collect();
    let mut fused = vec![0u8; pixels.len()];
    forward_median_subtract(&pixels, &mut fused, row_bytes, height);
    let reference = naive_two_phase_forward_median(&pixels, row_bytes, height);
    assert_eq!(fused, reference);
}

#[test]
fn round115_forward_median_roundtrips_via_decoder_model() {
    let row_bytes = 16usize;
    let height = 5usize;
    let pixels: Vec<u8> = (0..(row_bytes * height))
        .map(|x| ((x * 53 + 7) ^ 0x2A) as u8)
        .collect();
    let mut recon = vec![0u8; pixels.len()];
    forward_median_subtract(&pixels, &mut recon, row_bytes, height);

    let len = recon.len();

    left_range(&mut recon, 4, row_bytes.min(len));

    let row1_left_end = (row_bytes + 8).min(len);
    left_range(&mut recon, row_bytes, row1_left_end);

    for pos in row1_left_end..recon.len() {
        let l = recon[pos - 2];
        let a = recon[pos - row_bytes];
        let al = if pos >= row_bytes + 2 {
            recon[pos - row_bytes - 2]
        } else {
            0
        };
        let g = gradient_predictor(l, a, al);
        let predictor = median3(l, a, g);
        recon[pos] = recon[pos].wrapping_add(predictor);
    }
    assert_eq!(recon, pixels);
}

fn ref_inverse_yuy2_left_range(out: &mut [u8], begin: usize, end: usize) {
    if end <= begin {
        return;
    }
    let mut i = begin;
    while i < end {
        match i & 3 {
            0 | 2 => out[i] = out[i].wrapping_add(out[i - 2]),
            _ => out[i] = out[i].wrapping_add(out[i - 4]),
        }
        i += 1;
    }
}

fn make_yuy2_raster(width: usize, height: usize, seed: u32) -> Vec<u8> {
    let mut s = seed;
    let mut out = vec![0u8; width * 2 * height];
    for byte in &mut out {
        s ^= s << 13;
        s ^= s >> 17;
        s ^= s << 5;
        *byte = (s & 0xff) as u8;
    }
    out
}

#[test]
fn round181_yuy2_left_macropixel_matches_branchy_full_frame() {
    for &(w, h) in &[(2_usize, 1_usize), (4, 1), (4, 4), (320, 8), (640, 2)] {
        let raw = make_yuy2_raster(w, h, 0xc0ffee + (w * h) as u32);

        let mut residuals = raw.clone();
        for i in 4..raw.len() {
            let stride = if i & 1 == 0 { 2 } else { 4 };
            residuals[i] = raw[i].wrapping_sub(raw[i - stride]);
        }
        let mut a = residuals.clone();
        let mut b = residuals.clone();
        let n = a.len();
        ref_inverse_yuy2_left_range(&mut a, 4, n);
        inverse_yuy2_left_macropixel(&mut b, 4, n);
        assert_eq!(a, b, "full-frame mismatch for {w}x{h}");

        assert_eq!(b, raw, "inverse failed to reconstruct {w}x{h}");
    }
}

#[test]
fn round181_yuy2_left_macropixel_matches_branchy_row1_first8() {
    let w = 320usize;
    let h = 3usize;
    let row_bytes = w * 2;
    let raw = make_yuy2_raster(w, h, 0xfeed_face);

    let mut residuals = raw.clone();
    for i in 4..raw.len() {
        let stride = if i & 1 == 0 { 2 } else { 4 };
        residuals[i] = raw[i].wrapping_sub(raw[i - stride]);
    }

    let mut a = residuals.clone();
    let mut b = residuals.clone();
    ref_inverse_yuy2_left_range(&mut a, 4, row_bytes);
    inverse_yuy2_left_macropixel(&mut b, 4, row_bytes);
    assert_eq!(a, b, "row-0 LEFT mismatch");

    ref_inverse_yuy2_left_range(&mut a, row_bytes, row_bytes + 8);
    inverse_yuy2_left_macropixel(&mut b, row_bytes, row_bytes + 8);
    assert_eq!(a, b, "row-1-first-8 LEFT mismatch");
}

#[test]
fn round181_yuy2_left_macropixel_modular_wrap() {
    let raw: Vec<u8> = (0..1024u32)
        .map(|i| (i.wrapping_mul(73) & 0xff) as u8)
        .collect();
    let mut residuals = raw.clone();
    for i in 4..raw.len() {
        let stride = if i & 1 == 0 { 2 } else { 4 };
        residuals[i] = raw[i].wrapping_sub(raw[i - stride]);
    }
    let mut a = residuals.clone();
    let mut b = residuals.clone();
    let n = a.len();
    ref_inverse_yuy2_left_range(&mut a, 4, n);
    inverse_yuy2_left_macropixel(&mut b, 4, n);
    assert_eq!(a, b);
    assert_eq!(b, raw);
}

#[test]
fn round181_yuy2_left_macropixel_short_buffer_noop() {
    let mut buf = vec![1u8, 2, 3, 4, 5, 6, 7, 8];
    let copy = buf.clone();
    inverse_yuy2_left_macropixel(&mut buf, 4, 4);
    assert_eq!(buf, copy);
}

fn ref_forward_yuy2_left_subtract(src: &[u8], dst: &mut [u8]) {
    let n = src.len();
    let head = 4.min(n);
    dst[..head].copy_from_slice(&src[..head]);
    for i in 4..n {
        let stride = if i & 1 == 0 { 2 } else { 4 };
        dst[i] = src[i].wrapping_sub(src[i - stride]);
    }
}

#[test]
fn round181_yuy2_forward_left_matches_branchy() {
    for &(w, h) in &[(2_usize, 1_usize), (4, 1), (4, 4), (320, 8), (640, 2)] {
        let raw = make_yuy2_raster(w, h, 0xbeef_cafe + (w * h) as u32);
        let mut a = vec![0u8; raw.len()];
        let mut b = vec![0u8; raw.len()];
        ref_forward_yuy2_left_subtract(&raw, &mut a);
        forward_yuy2_left_subtract(&raw, &mut b);
        assert_eq!(a, b, "forward LEFT mismatch for {w}x{h}");
    }
}

#[test]
fn round181_yuy2_forward_left_short_buffers() {
    for n in 0..=4usize {
        let raw: Vec<u8> = (0..n as u8).collect();
        let mut a = vec![0u8; n];
        let mut b = vec![0u8; n];
        ref_forward_yuy2_left_subtract(&raw, &mut a);
        forward_yuy2_left_subtract(&raw, &mut b);
        assert_eq!(a, b, "len={n} mismatch");
    }
}

#[test]
fn round181_yuy2_forward_then_inverse_roundtrips() {
    for &(w, h) in &[(4_usize, 4_usize), (320, 16), (640, 3)] {
        let raw = make_yuy2_raster(w, h, 0x1234_5678 + (w * h) as u32);
        let mut residuals = vec![0u8; raw.len()];
        forward_yuy2_left_subtract(&raw, &mut residuals);

        let mut recon = residuals.clone();
        let n = recon.len();
        inverse_yuy2_left_macropixel(&mut recon, 4, n);
        assert_eq!(recon, raw, "roundtrip failed for {w}x{h}");
    }
}

fn ref_forward_rgb_left_per_channel(src: &[u8], n_channels: usize) -> Vec<u8> {
    let mut dst = vec![0u8; src.len()];
    for ch in 0..n_channels {
        if ch < src.len() {
            dst[ch] = src[ch];
        }
        let mut idx = ch + n_channels;
        while idx < src.len() {
            dst[idx] = src[idx].wrapping_sub(src[idx - n_channels]);
            idx += n_channels;
        }
    }
    dst
}

fn make_rgb_raster(width: usize, height: usize, n_channels: usize, seed: u32) -> Vec<u8> {
    let mut s = seed | 1;
    let mut out = vec![0u8; width * height * n_channels];
    for byte in out.iter_mut() {
        s ^= s << 13;
        s ^= s >> 17;
        s ^= s << 5;
        *byte = (s & 0xFF) as u8;
    }
    out
}

#[test]
fn round186_rgb_left_linear_matches_per_channel_rgb24() {
    for &(w, h) in &[(1usize, 1usize), (4, 1), (4, 4), (320, 4)] {
        let src = make_rgb_raster(w, h, 3, 0xA1B2_C3D4 ^ ((w * h) as u32));
        let ref_dst = ref_forward_rgb_left_per_channel(&src, 3);
        let mut new_dst = vec![0u8; src.len()];
        forward_rgb_left_subtract_linear(&src, &mut new_dst, 3);
        assert_eq!(
            new_dst, ref_dst,
            "RGB24 linear LEFT diverges from per-channel ref at {w}x{h}"
        );
    }
}

#[test]
fn round186_rgb_left_linear_matches_per_channel_rgb32() {
    for &(w, h) in &[(1usize, 1usize), (4, 1), (4, 4), (320, 4)] {
        let src = make_rgb_raster(w, h, 4, 0xDEAD_BEEF ^ ((w * h) as u32));
        let ref_dst = ref_forward_rgb_left_per_channel(&src, 4);
        let mut new_dst = vec![0u8; src.len()];
        forward_rgb_left_subtract_linear(&src, &mut new_dst, 4);
        assert_eq!(
            new_dst, ref_dst,
            "RGB32 linear LEFT diverges from per-channel ref at {w}x{h}"
        );
    }
}

#[test]
fn round186_rgb_left_linear_modular_wrap() {
    let src: Vec<u8> = (0..24)
        .map(|i| if i & 1 == 0 { 0xFF } else { 0x01 })
        .collect();
    for &n in &[3usize, 4] {
        let ref_dst = ref_forward_rgb_left_per_channel(&src, n);
        let mut new_dst = vec![0u8; src.len()];
        forward_rgb_left_subtract_linear(&src, &mut new_dst, n);
        assert_eq!(new_dst, ref_dst, "modular wrap mismatch at n={n}");
    }
}

#[test]
fn round186_rgb_left_linear_short_buffer_seed_only() {
    for &n in &[3usize, 4] {
        let src = vec![0xAB, 0xCD][..n.min(2)].to_vec();
        let ref_dst = ref_forward_rgb_left_per_channel(&src, n);
        let mut new_dst = vec![0u8; src.len()];
        forward_rgb_left_subtract_linear(&src, &mut new_dst, n);
        assert_eq!(new_dst, ref_dst, "short buffer mismatch at n={n}");
        assert_eq!(new_dst, src, "seed-only must be verbatim copy at n={n}");
    }
}

fn ref_inverse_rgb_left_per_channel(residuals: &[u8], n_channels: usize) -> Vec<u8> {
    let mut dst = residuals.to_vec();
    if dst.len() <= n_channels {
        return dst;
    }
    for i in n_channels..dst.len() {
        dst[i] = dst[i].wrapping_add(dst[i - n_channels]);
    }
    dst
}

#[test]
fn round186_rgb_left_linear_then_inverse_roundtrips() {
    for &n in &[3usize, 4] {
        for &(w, h) in &[(4usize, 4usize), (16, 8), (320, 4)] {
            let src = make_rgb_raster(w, h, n, 0xCAFEBABE ^ ((w * h * n) as u32));
            let mut residuals = vec![0u8; src.len()];
            forward_rgb_left_subtract_linear(&src, &mut residuals, n);
            let recon = ref_inverse_rgb_left_per_channel(&residuals, n);
            assert_eq!(recon, src, "roundtrip failed for n={n} {w}x{h}");
        }
    }
}

fn ref_forward_median(pixels: &[u8], dst: &mut [u8], row_bytes: usize, height: usize) {
    let n = pixels.len();
    if n == 0 {
        return;
    }
    let median_start = if height < 2 || row_bytes == 0 {
        n
    } else {
        (row_bytes + 8).min(n)
    };
    let copy_n = 4.min(n);
    dst[..copy_n].copy_from_slice(&pixels[..copy_n]);
    for i in copy_n..median_start {
        let stride = if i & 1 == 0 { 2 } else { 4 };
        dst[i] = pixels[i].wrapping_sub(pixels[i - stride]);
    }

    for pos in median_start..n {
        let l = pixels[pos - 2];
        let a = pixels[pos - row_bytes];
        let al = pixels[pos - row_bytes - 2];
        let g = gradient_predictor(l, a, al);
        let predictor = median3(l, a, g);
        dst[pos] = pixels[pos].wrapping_sub(predictor);
    }
}

#[test]
fn round253_forward_median_macropixel_matches_per_byte_reference() {
    for &(w, h) in &[
        (2usize, 4usize),
        (4, 4),
        (8, 6),
        (16, 5),
        (160, 9),
        (320, 16),
    ] {
        let row_bytes = w * 2;
        let pixels: Vec<u8> = (0..(row_bytes * h))
            .map(|x| ((x * 37 + 11) ^ 0x5C) as u8)
            .collect();
        let mut fused = vec![0u8; pixels.len()];
        let mut reference = vec![0u8; pixels.len()];
        forward_median_subtract(&pixels, &mut fused, row_bytes, h);
        ref_forward_median(&pixels, &mut reference, row_bytes, h);
        assert_eq!(
            fused, reference,
            "macropixel-step diverges from per-byte ref at {w}x{h}"
        );
    }
}

#[test]
fn round253_forward_median_macropixel_modular_wrap() {
    let row_bytes = 16usize;
    let height = 5usize;
    let mut pixels = vec![0u8; row_bytes * height];
    for (i, byte) in pixels.iter_mut().enumerate() {
        *byte = if (i / 4) & 1 == 0 {
            (i & 0xff) as u8
        } else {
            (0xFFu8).wrapping_sub((i * 17) as u8)
        };
    }
    let mut fused = vec![0u8; pixels.len()];
    let mut reference = vec![0u8; pixels.len()];
    forward_median_subtract(&pixels, &mut fused, row_bytes, height);
    ref_forward_median(&pixels, &mut reference, row_bytes, height);
    assert_eq!(fused, reference);
}

#[test]
fn round253_forward_median_macropixel_boundary_row1_step_pattern() {
    for &(w, h) in &[(2_usize, 4_usize), (4, 3), (8, 3)] {
        let row_bytes = w * 2;
        let pixels: Vec<u8> = (0..(row_bytes * h))
            .map(|x| ((x * 53 + 7) ^ 0x2A) as u8)
            .collect();
        let n = pixels.len();
        let median_start = (row_bytes + 8).min(n);
        assert_eq!(
            median_start % 4,
            0,
            "median_start must align to a YUY2 macropixel boundary"
        );
        assert_eq!(
            (n - median_start) % 4,
            0,
            "YUY2 median region must be a whole multiple of 4 bytes"
        );
        let mut fused = vec![0u8; n];
        let mut reference = vec![0u8; n];
        forward_median_subtract(&pixels, &mut fused, row_bytes, h);
        ref_forward_median(&pixels, &mut reference, row_bytes, h);
        assert_eq!(
            fused, reference,
            "boundary-step mismatch at {w}x{h} (median_start={median_start}, n={n})"
        );
    }
}

#[test]
fn round253_forward_median_macropixel_then_inverse_roundtrips() {
    let cases: &[(usize, usize)] = &[(2, 4), (4, 3), (16, 5), (160, 4)];
    for &(w, h) in cases {
        let row_bytes = w * 2;
        let pixels: Vec<u8> = (0..(row_bytes * h))
            .map(|x| ((x * 41 + 13) ^ 0x9E) as u8)
            .collect();
        let mut recon = vec![0u8; pixels.len()];
        forward_median_subtract(&pixels, &mut recon, row_bytes, h);

        let len = recon.len();
        if len > 4 {
            left_range(&mut recon, 4, row_bytes.min(len));
        }
        let row1_left_end = (row_bytes + 8).min(len);
        if row_bytes < len {
            left_range(&mut recon, row_bytes, row1_left_end);
        }
        for pos in row1_left_end..len {
            let l = recon[pos - 2];
            let a = recon[pos - row_bytes];
            let al = recon[pos - row_bytes - 2];
            let g = gradient_predictor(l, a, al);
            let predictor = median3(l, a, g);
            recon[pos] = recon[pos].wrapping_add(predictor);
        }
        assert_eq!(recon, pixels, "round-trip failed for {w}x{h}");
    }
}

#[test]
fn round253_forward_median_macropixel_scalar_tail_safety() {
    for extra in 1..=3 {
        let row_bytes = 16usize;
        let height = 3usize;
        let base_len = row_bytes * height;
        let len = base_len + extra;
        let pixels: Vec<u8> = (0..len).map(|x| ((x * 23 + 5) ^ 0xC3) as u8).collect();
        let mut fused = vec![0u8; len];
        let mut reference = vec![0u8; len];
        forward_median_subtract(&pixels, &mut fused, row_bytes, height);
        ref_forward_median(&pixels, &mut reference, row_bytes, height);
        let median_start = (row_bytes + 8).min(base_len);
        assert_eq!(
            fused[median_start..base_len],
            reference[median_start..base_len],
            "scalar-tail off-aligned mismatch at extra={extra}"
        );
    }
}

fn ref_inverse_decorr_bgr(out: &mut [u8]) {
    let mut i = 0;
    while i + 3 <= out.len() {
        let g = out[i + 1];
        out[i] = out[i].wrapping_add(g);
        out[i + 2] = out[i + 2].wrapping_add(g);
        i += 3;
    }
}

fn ref_inverse_decorr_bgra(out: &mut [u8]) {
    let mut i = 0;
    while i + 4 <= out.len() {
        let g = out[i + 1];
        out[i] = out[i].wrapping_add(g);
        out[i + 2] = out[i + 2].wrapping_add(g);
        i += 4;
    }
}

#[test]
fn round304_inverse_decorr_bgr_matches_pre_r304_reference() {
    for n_bytes in 0..=64usize {
        let mut state = 0x1357_9bdfu32 ^ (n_bytes as u32);
        let buf: Vec<u8> = (0..n_bytes)
            .map(|_| {
                state ^= state << 13;
                state ^= state >> 17;
                state ^= state << 5;
                (state & 0xff) as u8
            })
            .collect();
        let mut prod = buf.clone();
        let mut reference = buf.clone();
        inverse_rgb_decorr_bgr(&mut prod);
        ref_inverse_decorr_bgr(&mut reference);
        assert_eq!(prod, reference, "BGR mismatch at n_bytes={n_bytes}");
    }
}

#[test]
fn round304_inverse_decorr_bgra_matches_pre_r304_reference() {
    for n_bytes in 0..=64usize {
        let mut state = 0x2468_ace0u32 ^ (n_bytes as u32);
        let buf: Vec<u8> = (0..n_bytes)
            .map(|_| {
                state ^= state << 13;
                state ^= state >> 17;
                state ^= state << 5;
                (state & 0xff) as u8
            })
            .collect();
        let mut prod = buf.clone();
        let mut reference = buf.clone();
        inverse_rgb_decorr_bgra(&mut prod);
        ref_inverse_decorr_bgra(&mut reference);
        assert_eq!(prod, reference, "BGRA mismatch at n_bytes={n_bytes}");
    }
}

#[test]
fn round304_inverse_decorr_bgr_modular_wrap() {
    let mut buf = vec![0x02u8, 0xff, 0x02, 0x02, 0xff, 0x02];
    inverse_rgb_decorr_bgr(&mut buf);
    assert_eq!(buf, vec![0x01, 0xff, 0x01, 0x01, 0xff, 0x01]);
}

#[test]
fn round304_inverse_decorr_bgra_leaves_alpha_untouched() {
    let mut buf = vec![0x10u8, 0x05, 0x20, 0xAB, 0x30, 0x07, 0x40, 0xCD];
    inverse_rgb_decorr_bgra(&mut buf);
    assert_eq!(
        buf,
        vec![
            0x10u8.wrapping_add(0x05),
            0x05,
            0x20u8.wrapping_add(0x05),
            0xAB,
            0x30u8.wrapping_add(0x07),
            0x07,
            0x40u8.wrapping_add(0x07),
            0xCD,
        ]
    );
}

#[test]
fn round304_inverse_decorr_partial_trailing_pixel_untouched() {
    let mut bgr = vec![0x02u8, 0x03, 0x04, 0x77, 0x88];
    inverse_rgb_decorr_bgr(&mut bgr);
    assert_eq!(bgr[3], 0x77, "BGR trailing byte 0 must be untouched");
    assert_eq!(bgr[4], 0x88, "BGR trailing byte 1 must be untouched");

    let mut bgra = vec![0x02u8, 0x03, 0x04, 0x05, 0x77, 0x88, 0x99];
    inverse_rgb_decorr_bgra(&mut bgra);
    assert_eq!(&bgra[4..], &[0x77, 0x88, 0x99], "BGRA tail untouched");
}
