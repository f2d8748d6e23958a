//! What is decoded is what was encoded.

use oxideav_huffyuv::decoder::decode_frame;
use oxideav_huffyuv::encoder::{
    ExtradataMode, MethodSelection, bit_cost_for_method, encode_for_test, encode_for_test_with_mode,
    encode_frame_auto,
};
use oxideav_huffyuv::header::{Method, PixelFamily, StreamConfig};
use oxideav_huffyuv::tables::{
    HuffTable, classic_blob_bytes, compute_canonical_lengths, decode_one, rle_decode_one_channel,
    rle_decode_three_channels, rle_encode_one_channel, rle_encode_three_channels, v1x_codes_set_b,
    v1x_lengths_set_b, v1x_table_from_pair,
};

fn synth_yuy2(width: usize, height: usize) -> Vec<u8> {
    let mut v = vec![0u8; width * 2 * height];
    for row in 0..height {
        for col in 0..(width * 2) {
            v[row * width * 2 + col] = ((row * 7 + col * 3) & 0xFF) as u8;
        }
    }
    v
}

fn synth_rgb24(width: usize, height: usize) -> Vec<u8> {
    let mut v = vec![0u8; width * 3 * height];
    for row in 0..height {
        for col in 0..width {
            let off = (row * width + col) * 3;
            v[off] = ((row + col) & 0xFF) as u8;
            v[off + 1] = ((row * 5 + col * 11) & 0xFF) as u8;
            v[off + 2] = ((row * 13 + col * 7) & 0xFF) as u8;
        }
    }
    v
}

fn synth_rgb32(width: usize, height: usize) -> Vec<u8> {
    let mut v = vec![0u8; width * 4 * height];
    for row in 0..height {
        for col in 0..width {
            let off = (row * width + col) * 4;
            v[off] = ((row + col) & 0xFF) as u8;
            v[off + 1] = ((row * 5 + col * 11) & 0xFF) as u8;
            v[off + 2] = ((row * 13 + col * 7) & 0xFF) as u8;
            v[off + 3] = ((row * 3 + col) & 0xFF) as u8;
        }
    }
    v
}

#[test]
fn roundtrip_yuy2_predict_old_8x4() {
    let pixels = synth_yuy2(8, 4);
    let (cfg, frame) =
        encode_for_test(PixelFamily::Yuy2, Method::PredictOld, 8, 4, &pixels).unwrap();
    let out = decode_frame(&cfg, &frame).unwrap();
    assert_eq!(out.pixels, pixels);
}

#[test]
fn roundtrip_yuy2_left_4x4() {
    let pixels = synth_yuy2(4, 4);
    let (cfg, frame) = encode_for_test(PixelFamily::Yuy2, Method::Left, 4, 4, &pixels).unwrap();
    let out = decode_frame(&cfg, &frame).unwrap();
    assert_eq!(out.pixels, pixels);
}

#[test]
fn roundtrip_yuy2_left_8x4() {
    let pixels = synth_yuy2(8, 4);
    let (cfg, frame) = encode_for_test(PixelFamily::Yuy2, Method::Left, 8, 4, &pixels).unwrap();
    let out = decode_frame(&cfg, &frame).unwrap();
    assert_eq!(out.pixels, pixels);
}

#[test]
fn roundtrip_yuy2_gradient_8x4() {
    let pixels = synth_yuy2(8, 4);
    let (cfg, frame) = encode_for_test(PixelFamily::Yuy2, Method::Gradient, 8, 4, &pixels).unwrap();
    let out = decode_frame(&cfg, &frame).unwrap();
    assert_eq!(out.pixels, pixels);
}

#[test]
fn roundtrip_yuy2_median_8x6() {
    let pixels = synth_yuy2(8, 6);
    let (cfg, frame) = encode_for_test(PixelFamily::Yuy2, Method::Median, 8, 6, &pixels).unwrap();
    let out = decode_frame(&cfg, &frame).unwrap();
    assert_eq!(out.pixels, pixels);
}

#[test]
fn roundtrip_rgb24_predict_old_4x4() {
    let pixels = synth_rgb24(4, 4);
    let (cfg, frame) =
        encode_for_test(PixelFamily::Rgb24, Method::PredictOld, 4, 4, &pixels).unwrap();
    let out = decode_frame(&cfg, &frame).unwrap();
    assert_eq!(out.pixels, pixels);
}

#[test]
fn roundtrip_rgb24_left_4x4() {
    let pixels = synth_rgb24(4, 4);
    let (cfg, frame) = encode_for_test(PixelFamily::Rgb24, Method::Left, 4, 4, &pixels).unwrap();
    let out = decode_frame(&cfg, &frame).unwrap();
    assert_eq!(out.pixels, pixels);
}

#[test]
fn roundtrip_rgb24_left_decorr_4x4() {
    let pixels = synth_rgb24(4, 4);
    let (cfg, frame) =
        encode_for_test(PixelFamily::Rgb24, Method::LeftDecorr, 4, 4, &pixels).unwrap();
    let out = decode_frame(&cfg, &frame).unwrap();
    assert_eq!(out.pixels, pixels);
}

#[test]
fn roundtrip_rgb24_gradient_decorr_6x4() {
    let pixels = synth_rgb24(6, 4);
    let (cfg, frame) =
        encode_for_test(PixelFamily::Rgb24, Method::GradientDecorr, 6, 4, &pixels).unwrap();
    let out = decode_frame(&cfg, &frame).unwrap();
    assert_eq!(out.pixels, pixels);
}

#[test]
fn roundtrip_rgb32_predict_old_4x4() {
    let pixels = synth_rgb32(4, 4);
    let (cfg, frame) =
        encode_for_test(PixelFamily::Rgb32, Method::PredictOld, 4, 4, &pixels).unwrap();
    let out = decode_frame(&cfg, &frame).unwrap();
    assert_eq!(out.pixels, pixels);
}

#[test]
fn roundtrip_rgb32_left_4x4() {
    let pixels = synth_rgb32(4, 4);
    let (cfg, frame) = encode_for_test(PixelFamily::Rgb32, Method::Left, 4, 4, &pixels).unwrap();
    let out = decode_frame(&cfg, &frame).unwrap();
    assert_eq!(out.pixels, pixels);
}

#[test]
fn roundtrip_rgb32_left_decorr_4x4() {
    let pixels = synth_rgb32(4, 4);
    let (cfg, frame) =
        encode_for_test(PixelFamily::Rgb32, Method::LeftDecorr, 4, 4, &pixels).unwrap();
    let out = decode_frame(&cfg, &frame).unwrap();
    assert_eq!(out.pixels, pixels);
}

#[test]
fn roundtrip_rgb32_gradient_decorr_4x4() {
    let pixels = synth_rgb32(4, 4);
    let (cfg, frame) =
        encode_for_test(PixelFamily::Rgb32, Method::GradientDecorr, 4, 4, &pixels).unwrap();
    let out = decode_frame(&cfg, &frame).unwrap();
    assert_eq!(out.pixels, pixels);
}

#[test]
fn roundtrip_yuy2_left_custom_v2_8x4() {
    let pixels = synth_yuy2(8, 4);
    let (cfg, frame) = encode_for_test_with_mode(
        PixelFamily::Yuy2,
        Method::Left,
        8,
        4,
        &pixels,
        ExtradataMode::CustomV2,
    )
    .unwrap();
    let out = decode_frame(&cfg, &frame).unwrap();
    assert_eq!(out.pixels, pixels);
}

#[test]
fn roundtrip_yuy2_gradient_custom_v2_8x4() {
    let pixels = synth_yuy2(8, 4);
    let (cfg, frame) = encode_for_test_with_mode(
        PixelFamily::Yuy2,
        Method::Gradient,
        8,
        4,
        &pixels,
        ExtradataMode::CustomV2,
    )
    .unwrap();
    let out = decode_frame(&cfg, &frame).unwrap();
    assert_eq!(out.pixels, pixels);
}

#[test]
fn roundtrip_yuy2_median_custom_v2_8x6() {
    let pixels = synth_yuy2(8, 6);
    let (cfg, frame) = encode_for_test_with_mode(
        PixelFamily::Yuy2,
        Method::Median,
        8,
        6,
        &pixels,
        ExtradataMode::CustomV2,
    )
    .unwrap();
    let out = decode_frame(&cfg, &frame).unwrap();
    assert_eq!(out.pixels, pixels);
}

#[test]
fn roundtrip_rgb24_left_decorr_custom_v2_4x4() {
    let pixels = synth_rgb24(4, 4);
    let (cfg, frame) = encode_for_test_with_mode(
        PixelFamily::Rgb24,
        Method::LeftDecorr,
        4,
        4,
        &pixels,
        ExtradataMode::CustomV2,
    )
    .unwrap();
    let out = decode_frame(&cfg, &frame).unwrap();
    assert_eq!(out.pixels, pixels);
}

#[test]
fn roundtrip_rgb24_gradient_decorr_custom_v2_6x4() {
    let pixels = synth_rgb24(6, 4);
    let (cfg, frame) = encode_for_test_with_mode(
        PixelFamily::Rgb24,
        Method::GradientDecorr,
        6,
        4,
        &pixels,
        ExtradataMode::CustomV2,
    )
    .unwrap();
    let out = decode_frame(&cfg, &frame).unwrap();
    assert_eq!(out.pixels, pixels);
}

#[test]
fn roundtrip_rgb32_left_custom_v2_4x4() {
    let pixels = synth_rgb32(4, 4);
    let (cfg, frame) = encode_for_test_with_mode(
        PixelFamily::Rgb32,
        Method::Left,
        4,
        4,
        &pixels,
        ExtradataMode::CustomV2,
    )
    .unwrap();
    let out = decode_frame(&cfg, &frame).unwrap();
    assert_eq!(out.pixels, pixels);
}

#[test]
fn roundtrip_yuy2_predict_old_v1x_8x4() {
    let pixels = synth_yuy2(8, 4);
    let (cfg, frame) = encode_for_test_with_mode(
        PixelFamily::Yuy2,
        Method::PredictOld,
        8,
        4,
        &pixels,
        ExtradataMode::V1xCompat,
    )
    .unwrap();
    assert!(!cfg.has_extradata);
    let out = decode_frame(&cfg, &frame).unwrap();
    assert_eq!(out.pixels, pixels);
}

#[test]
fn roundtrip_rgb24_predict_old_v1x_4x4() {
    let pixels = synth_rgb24(4, 4);
    let (cfg, frame) = encode_for_test_with_mode(
        PixelFamily::Rgb24,
        Method::PredictOld,
        4,
        4,
        &pixels,
        ExtradataMode::V1xCompat,
    )
    .unwrap();
    assert!(!cfg.has_extradata);
    let out = decode_frame(&cfg, &frame).unwrap();
    assert_eq!(out.pixels, pixels);
}

#[test]
fn roundtrip_rgb32_predict_old_v1x_4x4() {
    let pixels = synth_rgb32(4, 4);
    let (cfg, frame) = encode_for_test_with_mode(
        PixelFamily::Rgb32,
        Method::PredictOld,
        4,
        4,
        &pixels,
        ExtradataMode::V1xCompat,
    )
    .unwrap();
    assert!(!cfg.has_extradata);
    let out = decode_frame(&cfg, &frame).unwrap();
    assert_eq!(out.pixels, pixels);
}

#[test]
fn roundtrip_yuy2_left_v1x_8x4() {
    let pixels = synth_yuy2(8, 4);
    let (cfg, frame) = encode_for_test_with_mode(
        PixelFamily::Yuy2,
        Method::Left,
        8,
        4,
        &pixels,
        ExtradataMode::V1xCompat,
    )
    .unwrap();
    assert!(!cfg.has_extradata);
    assert_eq!(cfg.method, Method::Left);
    let out = decode_frame(&cfg, &frame).unwrap();
    assert_eq!(out.pixels, pixels);
}

#[test]
fn roundtrip_yuy2_gradient_v1x_8x4() {
    let pixels = synth_yuy2(8, 4);
    let (cfg, frame) = encode_for_test_with_mode(
        PixelFamily::Yuy2,
        Method::Gradient,
        8,
        4,
        &pixels,
        ExtradataMode::V1xCompat,
    )
    .unwrap();
    assert!(!cfg.has_extradata);
    assert_eq!(cfg.method, Method::Gradient);
    let out = decode_frame(&cfg, &frame).unwrap();
    assert_eq!(out.pixels, pixels);
}

#[test]
fn roundtrip_yuy2_median_v1x_8x6() {
    let pixels = synth_yuy2(8, 6);
    let (cfg, frame) = encode_for_test_with_mode(
        PixelFamily::Yuy2,
        Method::Median,
        8,
        6,
        &pixels,
        ExtradataMode::V1xCompat,
    )
    .unwrap();
    assert!(!cfg.has_extradata);
    assert_eq!(cfg.method, Method::Median);
    let out = decode_frame(&cfg, &frame).unwrap();
    assert_eq!(out.pixels, pixels);
}

#[test]
fn roundtrip_rgb24_left_v1x_4x4() {
    let pixels = synth_rgb24(4, 4);
    let (cfg, frame) = encode_for_test_with_mode(
        PixelFamily::Rgb24,
        Method::Left,
        4,
        4,
        &pixels,
        ExtradataMode::V1xCompat,
    )
    .unwrap();
    assert!(!cfg.has_extradata);
    assert_eq!(cfg.method, Method::Left);
    let out = decode_frame(&cfg, &frame).unwrap();
    assert_eq!(out.pixels, pixels);
}

#[test]
fn roundtrip_rgb24_left_decorr_v1x_4x4() {
    let pixels = synth_rgb24(4, 4);
    let (cfg, frame) = encode_for_test_with_mode(
        PixelFamily::Rgb24,
        Method::LeftDecorr,
        4,
        4,
        &pixels,
        ExtradataMode::V1xCompat,
    )
    .unwrap();
    assert!(!cfg.has_extradata);
    assert_eq!(cfg.method, Method::LeftDecorr);
    let out = decode_frame(&cfg, &frame).unwrap();
    assert_eq!(out.pixels, pixels);
}

#[test]
fn roundtrip_rgb24_gradient_decorr_v1x_6x4() {
    let pixels = synth_rgb24(6, 4);
    let (cfg, frame) = encode_for_test_with_mode(
        PixelFamily::Rgb24,
        Method::GradientDecorr,
        6,
        4,
        &pixels,
        ExtradataMode::V1xCompat,
    )
    .unwrap();
    assert!(!cfg.has_extradata);
    assert_eq!(cfg.method, Method::GradientDecorr);
    let out = decode_frame(&cfg, &frame).unwrap();
    assert_eq!(out.pixels, pixels);
}

#[test]
fn roundtrip_rgb32_left_v1x_4x4() {
    let pixels = synth_rgb32(4, 4);
    let (cfg, frame) = encode_for_test_with_mode(
        PixelFamily::Rgb32,
        Method::Left,
        4,
        4,
        &pixels,
        ExtradataMode::V1xCompat,
    )
    .unwrap();
    assert!(!cfg.has_extradata);
    assert_eq!(cfg.method, Method::Left);
    let out = decode_frame(&cfg, &frame).unwrap();
    assert_eq!(out.pixels, pixels);
}

#[test]
fn roundtrip_rgb32_left_decorr_v1x_4x4() {
    let pixels = synth_rgb32(4, 4);
    let (cfg, frame) = encode_for_test_with_mode(
        PixelFamily::Rgb32,
        Method::LeftDecorr,
        4,
        4,
        &pixels,
        ExtradataMode::V1xCompat,
    )
    .unwrap();
    assert!(!cfg.has_extradata);
    assert_eq!(cfg.method, Method::LeftDecorr);
    let out = decode_frame(&cfg, &frame).unwrap();
    assert_eq!(out.pixels, pixels);
}

#[test]
fn roundtrip_rgb32_gradient_decorr_v1x_4x4() {
    let pixels = synth_rgb32(4, 4);
    let (cfg, frame) = encode_for_test_with_mode(
        PixelFamily::Rgb32,
        Method::GradientDecorr,
        4,
        4,
        &pixels,
        ExtradataMode::V1xCompat,
    )
    .unwrap();
    assert!(!cfg.has_extradata);
    assert_eq!(cfg.method, Method::GradientDecorr);
    let out = decode_frame(&cfg, &frame).unwrap();
    assert_eq!(out.pixels, pixels);
}

#[test]
fn primary_lut_matches_per_symbol_entries_classic_yuv_left() {

    let blob = classic_blob_bytes(PixelFamily::Yuy2, Method::Left);
    let lengths = rle_decode_three_channels(&blob).unwrap();
    let table = HuffTable::build_from_lengths(&lengths[0]).unwrap();

    for (sym, e) in table.entries.iter().enumerate() {
        if e.length == 0 || e.length > 16 {
            continue;
        }

        let window = e.code | 0xDEAD;
        let (decoded_sym, decoded_len) = decode_one(&table, window).unwrap();
        assert_eq!(decoded_sym as usize, sym, "sym {sym} mismatched");
        assert_eq!(decoded_len, e.length, "len for sym {sym} mismatched");
    }
}

#[test]
fn primary_lut_overflow_falls_back_to_slow_path_v1x_set_b() {
    let mut cur: &[u8] = v1x_lengths_set_b();
    let lens_b = rle_decode_one_channel(&mut cur).unwrap();
    let codes_b = v1x_codes_set_b();
    let mut codes_arr = [0u8; 256];
    codes_arr.copy_from_slice(codes_b);
    let table = v1x_table_from_pair(&lens_b, &codes_arr).unwrap();

    let (sym, e) = table
        .entries
        .iter()
        .enumerate()
        .find(|(_, e)| e.length > 16)
        .expect("set B has codes longer than 16 bits");
    let window = e.code;
    let (decoded_sym, decoded_len) = decode_one(&table, window).unwrap();
    assert_eq!(decoded_sym as usize, sym);
    assert_eq!(decoded_len, e.length);
}

#[test]
fn rle_encode_round_trips_uniform_run() {
    let mut lens = [0u8; 256];
    for slot in lens.iter_mut() {
        *slot = 5;
    }
    let mut buf = Vec::new();
    rle_encode_one_channel(&lens, &mut buf).unwrap();
    let mut cur: &[u8] = &buf;
    let decoded = rle_decode_one_channel(&mut cur).unwrap();
    assert_eq!(decoded, lens);
}

#[test]
fn rle_encode_round_trips_mixed_lengths() {
    let mut lens = [0u8; 256];
    for (i, slot) in lens.iter_mut().enumerate() {
        *slot = ((i * 31 + 7) % 32) as u8;
    }
    let mut buf = Vec::new();
    rle_encode_one_channel(&lens, &mut buf).unwrap();
    let mut cur: &[u8] = &buf;
    let decoded = rle_decode_one_channel(&mut cur).unwrap();
    assert_eq!(decoded, lens);
}

#[test]
fn rle_encode_three_channels_round_trips() {
    let mut a = [0u8; 256];
    let mut b = [0u8; 256];
    let mut c = [0u8; 256];
    for i in 0..256 {
        a[i] = ((i * 3) % 32) as u8;
        b[i] = ((i * 5 + 1) % 32) as u8;
        c[i] = ((i * 7 + 2) % 32) as u8;
    }
    let blob = rle_encode_three_channels(&[a, b, c]).unwrap();
    let decoded = rle_decode_three_channels(&blob).unwrap();
    assert_eq!(decoded[0], a);
    assert_eq!(decoded[1], b);
    assert_eq!(decoded[2], c);
}

#[test]
fn canonical_lengths_uniform_histogram_assigns_8_bit_codes() {
    let mut h = [0u32; 256];
    for slot in h.iter_mut() {
        *slot = 1;
    }
    let lens = compute_canonical_lengths(&h).unwrap();

    for &l in lens.iter() {
        assert_eq!(l, 8);
    }
}

#[test]
fn canonical_lengths_skewed_histogram_under_31_bits() {
    let mut h = [0u32; 256];
    for (i, slot) in h.iter_mut().enumerate() {
        *slot = (256 - i) as u32 * (256 - i) as u32;
    }
    let lens = compute_canonical_lengths(&h).unwrap();
    let max = *lens.iter().max().unwrap();
    assert!(max <= 31);

    let mut kraft: u64 = 0;
    for &l in lens.iter() {
        if l > 0 {
            kraft += 1u64 << (31 - l);
        }
    }
    assert_eq!(kraft, 1u64 << 31);
}

#[test]
fn canonical_lengths_single_symbol_assigns_one_bit() {
    let mut h = [0u32; 256];
    h[7] = 100;
    let lens = compute_canonical_lengths(&h).unwrap();

    assert_eq!(lens[7], 1);
    assert_eq!(lens[0], 1);
    for (i, &l) in lens.iter().enumerate() {
        if i != 7 && i != 0 {
            assert_eq!(l, 0, "stray length at symbol {i}");
        }
    }
}

#[test]
fn roundtrip_yuy2_left_interlaced_8x300() {
    let pixels = synth_yuy2(8, 300);
    let (cfg, frame) = encode_for_test(PixelFamily::Yuy2, Method::Left, 8, 300, &pixels).unwrap();
    let out = decode_frame(&cfg, &frame).unwrap();
    assert_eq!(out.height, 300);
    assert_eq!(out.pixels, pixels);
}

#[test]
fn roundtrip_yuy2_gradient_interlaced_8x320() {
    let pixels = synth_yuy2(8, 320);
    let (cfg, frame) =
        encode_for_test(PixelFamily::Yuy2, Method::Gradient, 8, 320, &pixels).unwrap();
    let out = decode_frame(&cfg, &frame).unwrap();
    assert_eq!(out.pixels, pixels);
}

#[test]
fn roundtrip_yuy2_median_interlaced_8x300() {
    let pixels = synth_yuy2(8, 300);
    let (cfg, frame) = encode_for_test(PixelFamily::Yuy2, Method::Median, 8, 300, &pixels).unwrap();
    let out = decode_frame(&cfg, &frame).unwrap();
    assert_eq!(out.pixels, pixels);
}

#[test]
fn roundtrip_rgb24_left_decorr_interlaced_8x300() {
    let pixels = synth_rgb24(8, 300);
    let (cfg, frame) =
        encode_for_test(PixelFamily::Rgb24, Method::LeftDecorr, 8, 300, &pixels).unwrap();
    let out = decode_frame(&cfg, &frame).unwrap();
    assert_eq!(out.pixels, pixels);
}

#[test]
fn roundtrip_rgb24_gradient_decorr_interlaced_8x320() {
    let pixels = synth_rgb24(8, 320);
    let (cfg, frame) =
        encode_for_test(PixelFamily::Rgb24, Method::GradientDecorr, 8, 320, &pixels).unwrap();
    let out = decode_frame(&cfg, &frame).unwrap();
    assert_eq!(out.pixels, pixels);
}

#[test]
fn roundtrip_rgb32_left_decorr_interlaced_8x300() {
    let pixels = synth_rgb32(8, 300);
    let (cfg, frame) =
        encode_for_test(PixelFamily::Rgb32, Method::LeftDecorr, 8, 300, &pixels).unwrap();
    let out = decode_frame(&cfg, &frame).unwrap();
    assert_eq!(out.pixels, pixels);
}

#[test]
fn roundtrip_rgb32_predict_old_interlaced_8x300() {
    let pixels = synth_rgb32(8, 300);
    let (cfg, frame) =
        encode_for_test(PixelFamily::Rgb32, Method::PredictOld, 8, 300, &pixels).unwrap();
    let out = decode_frame(&cfg, &frame).unwrap();
    assert_eq!(out.pixels, pixels);
}

#[test]
fn roundtrip_yuy2_left_just_below_threshold_8x288() {
    let pixels = synth_yuy2(8, 288);
    let (cfg, frame) = encode_for_test(PixelFamily::Yuy2, Method::Left, 8, 288, &pixels).unwrap();
    let out = decode_frame(&cfg, &frame).unwrap();
    assert_eq!(out.pixels, pixels);
}

#[test]
fn roundtrip_yuy2_left_just_above_threshold_8x290() {
    let pixels = synth_yuy2(8, 290);
    let (cfg, frame) = encode_for_test(PixelFamily::Yuy2, Method::Left, 8, 290, &pixels).unwrap();
    let out = decode_frame(&cfg, &frame).unwrap();
    assert_eq!(out.pixels, pixels);
}

#[test]
fn roundtrip_yuy2_custom_v2_interlaced_8x300() {
    let pixels = synth_yuy2(8, 300);
    let (cfg, frame) = encode_for_test_with_mode(
        PixelFamily::Yuy2,
        Method::Left,
        8,
        300,
        &pixels,
        ExtradataMode::CustomV2,
    )
    .unwrap();
    let out = decode_frame(&cfg, &frame).unwrap();
    assert_eq!(out.pixels, pixels);
}

#[test]
fn roundtrip_yuy2_left_interlaced_odd_height_8x301() {
    let pixels = synth_yuy2(8, 301);
    let (cfg, frame) = encode_for_test(PixelFamily::Yuy2, Method::Left, 8, 301, &pixels).unwrap();
    let out = decode_frame(&cfg, &frame).unwrap();
    assert_eq!(out.height, 301);
    assert_eq!(out.pixels, pixels);
}

#[test]
fn roundtrip_rgb24_predict_old_interlaced_odd_height_8x301() {
    let pixels = synth_rgb24(8, 301);
    let (cfg, frame) =
        encode_for_test(PixelFamily::Rgb24, Method::PredictOld, 8, 301, &pixels).unwrap();
    let out = decode_frame(&cfg, &frame).unwrap();
    assert_eq!(out.pixels, pixels);
}

#[test]
fn roundtrip_rgb32_gradient_decorr_interlaced_odd_height_8x301() {
    let pixels = synth_rgb32(8, 301);
    let (cfg, frame) =
        encode_for_test(PixelFamily::Rgb32, Method::GradientDecorr, 8, 301, &pixels).unwrap();
    let out = decode_frame(&cfg, &frame).unwrap();
    assert_eq!(out.pixels, pixels);
}

#[test]
fn roundtrip_yuy2_left_interlaced_480p_class() {
    let pixels = synth_yuy2(96, 480);
    let (cfg, frame) = encode_for_test(PixelFamily::Yuy2, Method::Left, 96, 480, &pixels).unwrap();
    let out = decode_frame(&cfg, &frame).unwrap();
    assert_eq!(out.width, 96);
    assert_eq!(out.height, 480);
    assert_eq!(out.pixels, pixels);
}

#[test]
fn roundtrip_rgb24_left_decorr_interlaced_480p_class() {
    let pixels = synth_rgb24(64, 480);
    let (cfg, frame) =
        encode_for_test(PixelFamily::Rgb24, Method::LeftDecorr, 64, 480, &pixels).unwrap();
    let out = decode_frame(&cfg, &frame).unwrap();
    assert_eq!(out.pixels, pixels);
}

#[test]
fn roundtrip_yuy2_median_interlaced_v1x_compat() {
    let pixels = synth_yuy2(8, 300);
    let (cfg, frame) = encode_for_test_with_mode(
        PixelFamily::Yuy2,
        Method::Median,
        8,
        300,
        &pixels,
        ExtradataMode::V1xCompat,
    )
    .unwrap();
    let out = decode_frame(&cfg, &frame).unwrap();
    assert_eq!(out.pixels, pixels);
}

#[test]
fn roundtrip_rgb24_left_decorr_interlaced_custom_v2_walking_stride() {
    let pixels = synth_rgb24(8, 320);
    let (cfg, frame) = encode_for_test_with_mode(
        PixelFamily::Rgb24,
        Method::LeftDecorr,
        8,
        320,
        &pixels,
        ExtradataMode::CustomV2,
    )
    .unwrap();
    let out = decode_frame(&cfg, &frame).unwrap();
    assert_eq!(out.pixels, pixels);
}

#[test]
fn roundtrip_rgb32_predict_old_interlaced_custom_v2_walking_stride() {
    let pixels = synth_rgb32(8, 320);
    let (cfg, frame) = encode_for_test_with_mode(
        PixelFamily::Rgb32,
        Method::PredictOld,
        8,
        320,
        &pixels,
        ExtradataMode::CustomV2,
    )
    .unwrap();
    let out = decode_frame(&cfg, &frame).unwrap();
    assert_eq!(out.pixels, pixels);
}

fn synth_yuy2_constant_luma(width: usize, height: usize, y: u8, u: u8, v: u8) -> Vec<u8> {
    let mut buf = vec![0u8; width * 2 * height];
    for row in 0..height {
        for pair in 0..(width / 2) {
            let off = row * width * 2 + pair * 4;
            buf[off] = y;
            buf[off + 1] = u;
            buf[off + 2] = y;
            buf[off + 3] = v;
        }
    }
    buf
}

fn synth_yuy2_diagonal_textured(width: usize, height: usize) -> Vec<u8> {
    let mut buf = vec![0u8; width * 2 * height];
    for row in 0..height {
        for col2 in 0..(width * 2) {
            let v =
                (row.wrapping_mul(5).wrapping_add(col2.wrapping_mul(7)) ^ (row & 0x3) << 4) & 0xFF;
            buf[row * width * 2 + col2] = v as u8;
        }
    }
    buf
}

fn synth_rgb24_grey_with_chroma(width: usize, height: usize) -> Vec<u8> {
    let mut buf = vec![0u8; width * 3 * height];

    let mut state: u32 = 0x1234_5678;
    let mut next = || {
        state = state.wrapping_mul(1_103_515_245).wrapping_add(12345);
        (state >> 16) as u8
    };
    for row in 0..height {
        for col in 0..width {
            let off = (row * width + col) * 3;
            let g = next();

            buf[off] = g.wrapping_add(3);
            buf[off + 1] = g;
            buf[off + 2] = g.wrapping_add(7);
        }
    }
    buf
}

#[test]
fn auto_picks_left_for_constant_luma_yuy2() {
    let pixels = synth_yuy2_constant_luma(16, 8, 0x80, 0x80, 0x80);
    let (_strf, _frame, chosen) = encode_frame_auto(
        PixelFamily::Yuy2,
        MethodSelection::Auto,
        16,
        8,
        &pixels,
        ExtradataMode::CustomV2,
    )
    .unwrap();

    assert_eq!(chosen, Method::Left);
}

#[test]
fn auto_picks_lower_or_equal_cost_yuy2_diagonal() {
    let pixels = synth_yuy2_diagonal_textured(32, 32);
    let costs: Vec<(Method, u64)> = [Method::Left, Method::Gradient, Method::Median]
        .iter()
        .map(|&m| {
            (
                m,
                bit_cost_for_method(PixelFamily::Yuy2, m, 32, 32, &pixels).unwrap(),
            )
        })
        .collect();
    let min_cost = costs.iter().map(|&(_, c)| c).min().unwrap();
    let (_strf, _frame, chosen) = encode_frame_auto(
        PixelFamily::Yuy2,
        MethodSelection::Auto,
        32,
        32,
        &pixels,
        ExtradataMode::CustomV2,
    )
    .unwrap();
    let chosen_cost = costs.iter().find(|&&(m, _)| m == chosen).unwrap().1;
    assert_eq!(
        chosen_cost, min_cost,
        "auto winner {chosen:?} cost {chosen_cost} ≠ best {min_cost}; all={costs:?}"
    );
}

#[test]
fn auto_picks_decorr_or_better_for_chroma_correlated_rgb24() {
    let pixels = synth_rgb24_grey_with_chroma(32, 32);
    let cost_left = bit_cost_for_method(PixelFamily::Rgb24, Method::Left, 32, 32, &pixels).unwrap();
    let cost_decorr =
        bit_cost_for_method(PixelFamily::Rgb24, Method::LeftDecorr, 32, 32, &pixels).unwrap();

    assert!(
        cost_decorr < cost_left,
        "expected LeftDecorr ({cost_decorr}) < Left ({cost_left})"
    );
    let (_strf, _frame, chosen) = encode_frame_auto(
        PixelFamily::Rgb24,
        MethodSelection::Auto,
        32,
        32,
        &pixels,
        ExtradataMode::CustomV2,
    )
    .unwrap();

    let costs: Vec<(Method, u64)> = [Method::Left, Method::LeftDecorr, Method::GradientDecorr]
        .iter()
        .map(|&m| {
            (
                m,
                bit_cost_for_method(PixelFamily::Rgb24, m, 32, 32, &pixels).unwrap(),
            )
        })
        .collect();
    let min_cost = costs.iter().map(|&(_, c)| c).min().unwrap();
    let chosen_cost = costs.iter().find(|&&(m, _)| m == chosen).unwrap().1;
    assert_eq!(
        chosen_cost, min_cost,
        "auto winner {chosen:?} cost {chosen_cost} ≠ best {min_cost}"
    );

    assert_ne!(chosen, Method::Left);
}

#[test]
fn auto_roundtrips_yuy2_custom_v2() {
    let pixels = synth_yuy2(16, 16);
    let (strf, frame, _chosen) = encode_frame_auto(
        PixelFamily::Yuy2,
        MethodSelection::Auto,
        16,
        16,
        &pixels,
        ExtradataMode::CustomV2,
    )
    .unwrap();
    let cfg = StreamConfig::parse_bitmapinfoheader(&strf).unwrap();
    let out = decode_frame(&cfg, &frame).unwrap();
    assert_eq!(out.pixels, pixels);
}

#[test]
fn auto_roundtrips_rgb24_classic_v2() {
    let pixels = synth_rgb24(16, 16);
    let (strf, frame, _chosen) = encode_frame_auto(
        PixelFamily::Rgb24,
        MethodSelection::Auto,
        16,
        16,
        &pixels,
        ExtradataMode::ClassicV2,
    )
    .unwrap();
    let cfg = StreamConfig::parse_bitmapinfoheader(&strf).unwrap();
    let out = decode_frame(&cfg, &frame).unwrap();
    assert_eq!(out.pixels, pixels);
}

#[test]
fn auto_roundtrips_rgb32_custom_v2() {
    let pixels = synth_rgb32(16, 16);
    let (strf, frame, _chosen) = encode_frame_auto(
        PixelFamily::Rgb32,
        MethodSelection::Auto,
        16,
        16,
        &pixels,
        ExtradataMode::CustomV2,
    )
    .unwrap();
    let cfg = StreamConfig::parse_bitmapinfoheader(&strf).unwrap();
    let out = decode_frame(&cfg, &frame).unwrap();
    assert_eq!(out.pixels, pixels);
}

#[test]
fn auto_roundtrips_interlaced_yuy2_320p() {
    let pixels = synth_yuy2(16, 300);
    let (strf, frame, _chosen) = encode_frame_auto(
        PixelFamily::Yuy2,
        MethodSelection::Auto,
        16,
        300,
        &pixels,
        ExtradataMode::CustomV2,
    )
    .unwrap();
    let cfg = StreamConfig::parse_bitmapinfoheader(&strf).unwrap();
    let out = decode_frame(&cfg, &frame).unwrap();
    assert_eq!(out.pixels, pixels);
}

#[test]
fn auto_roundtrips_interlaced_rgb24_300p() {
    let pixels = synth_rgb24(8, 290);
    let (strf, frame, _chosen) = encode_frame_auto(
        PixelFamily::Rgb24,
        MethodSelection::Auto,
        8,
        290,
        &pixels,
        ExtradataMode::CustomV2,
    )
    .unwrap();
    let cfg = StreamConfig::parse_bitmapinfoheader(&strf).unwrap();
    let out = decode_frame(&cfg, &frame).unwrap();
    assert_eq!(out.pixels, pixels);
}

#[test]
fn auto_winner_is_at_most_any_fixed_candidate_yuy2() {
    let pixels = synth_yuy2(32, 16);
    let (_strf, _frame, chosen) = encode_frame_auto(
        PixelFamily::Yuy2,
        MethodSelection::Auto,
        32,
        16,
        &pixels,
        ExtradataMode::CustomV2,
    )
    .unwrap();
    let chosen_cost = bit_cost_for_method(PixelFamily::Yuy2, chosen, 32, 16, &pixels).unwrap();
    for &m in &[Method::Left, Method::Gradient, Method::Median] {
        let c = bit_cost_for_method(PixelFamily::Yuy2, m, 32, 16, &pixels).unwrap();
        assert!(
            chosen_cost <= c,
            "auto winner {:?} cost {} > {:?} cost {}",
            chosen,
            chosen_cost,
            m,
            c
        );
    }
}

#[test]
fn auto_winner_is_at_most_any_fixed_candidate_rgb24() {
    let pixels = synth_rgb24(16, 16);
    let (_strf, _frame, chosen) = encode_frame_auto(
        PixelFamily::Rgb24,
        MethodSelection::Auto,
        16,
        16,
        &pixels,
        ExtradataMode::CustomV2,
    )
    .unwrap();
    let chosen_cost = bit_cost_for_method(PixelFamily::Rgb24, chosen, 16, 16, &pixels).unwrap();
    for &m in &[Method::Left, Method::LeftDecorr, Method::GradientDecorr] {
        let c = bit_cost_for_method(PixelFamily::Rgb24, m, 16, 16, &pixels).unwrap();
        assert!(
            chosen_cost <= c,
            "auto winner {:?} cost {} > {:?} cost {}",
            chosen,
            chosen_cost,
            m,
            c
        );
    }
}

#[test]
fn fixed_selection_returns_back_unchanged() {
    let pixels = synth_yuy2(8, 8);
    let (_strf, _frame, chosen) = encode_frame_auto(
        PixelFamily::Yuy2,
        MethodSelection::Fixed(Method::Median),
        8,
        8,
        &pixels,
        ExtradataMode::CustomV2,
    )
    .unwrap();
    assert_eq!(chosen, Method::Median);
}

#[test]
fn bit_cost_rejects_illegal_method_for_family() {
    let pixels = synth_rgb24(4, 4);
    let err = bit_cost_for_method(PixelFamily::Rgb24, Method::Median, 4, 4, &pixels);
    assert!(err.is_err());
}
