//! The bytes of YUY2 frames.

use oxideav_huffyuv::bitio::BitWriter;
use oxideav_huffyuv::decoder::decode_frame;
use oxideav_huffyuv::encoder::{
    ExtradataMode, compute_frame_residuals, compute_lengths_from_body, emit_bitstream_parts,
    encode_frame_with_mode, lookup_code,
};
use oxideav_huffyuv::header::{Method, PixelFamily, StreamConfig};
use oxideav_huffyuv::tables::HuffTable;

fn synth_yuy2(width: usize, height: usize) -> Vec<u8> {
    let mut s: u32 = 0xDEAD_BEEF;
    let n = width * height * 2;
    let mut out = vec![0u8; n];
    for slot in out.iter_mut() {
        s ^= s << 13;
        s ^= s >> 17;
        s ^= s << 5;
        *slot = s as u8;
    }
    out
}

fn rt_yuy2(width: u32, height: u32, method: Method, mode: ExtradataMode) {
    let pixels = synth_yuy2(width as usize, height as usize);
    let (bih, frame) =
        encode_frame_with_mode(PixelFamily::Yuy2, method, width, height, &pixels, mode)
            .expect("encode");
    let cfg = StreamConfig::parse_bitmapinfoheader(&bih).expect("parse");
    let decoded = decode_frame(&cfg, &frame).expect("decode");
    assert_eq!(decoded.pixels, pixels);
}

#[test]
fn round221_yuy2_left_classic_width_2() {
    rt_yuy2(2, 6, Method::Left, ExtradataMode::ClassicV2);
}

#[test]
fn round221_yuy2_left_classic_width_4() {
    rt_yuy2(4, 4, Method::Left, ExtradataMode::ClassicV2);
}

#[test]
fn round221_yuy2_gradient_custom_width_8() {
    rt_yuy2(8, 5, Method::Gradient, ExtradataMode::CustomV2);
}

#[test]
fn round221_yuy2_median_v1x_width_8() {
    rt_yuy2(8, 7, Method::Median, ExtradataMode::V1xCompat);
}

#[test]
fn round221_yuy2_left_classic_width_16_height_3() {
    rt_yuy2(16, 3, Method::Left, ExtradataMode::ClassicV2);
}

fn ref_emit_yuy2_per_byte(
    seed: &[u8; 4],
    body: &[u8],
    slot1: &HuffTable,
    slot2: &HuffTable,
    slot3: &HuffTable,
) -> Vec<u8> {
    let mut out = Vec::new();
    out.extend_from_slice(seed);
    let mut writer = BitWriter::new();
    for (byte_idx, &sym) in (4usize..).zip(body.iter()) {
        let slot = match byte_idx & 3 {
            0 | 2 => slot1,
            1 => slot2,
            _ => slot3,
        };
        let (code, length) = lookup_code(slot, sym).expect("ref lookup");
        writer.write_msb(code, length);
    }
    out.extend_from_slice(&writer.finish());
    out
}

#[test]
fn round221_yuy2_emit_matches_per_byte_reference() {
    for (w, h, method) in [
        (4u32, 4u32, Method::Left),
        (8, 6, Method::Gradient),
        (8, 6, Method::Median),
        (16, 3, Method::Left),
    ] {
        let pixels = synth_yuy2(w as usize, h as usize);

        let (_bih, prod_frame) = encode_frame_with_mode(
            PixelFamily::Yuy2,
            method,
            w,
            h,
            &pixels,
            ExtradataMode::CustomV2,
        )
        .expect("encode");

        let frame = compute_frame_residuals(PixelFamily::Yuy2, method, w, h, &pixels)
            .expect("residuals");
        let lengths =
            compute_lengths_from_body(PixelFamily::Yuy2, method, &frame.combined_body);

        let slot1 = HuffTable::build_from_lengths(&lengths[0]).expect("slot1");
        let slot2 = HuffTable::build_from_lengths(&lengths[1]).expect("slot2");
        let slot3 = HuffTable::build_from_lengths(&lengths[2]).expect("slot3");

        let ref_frame = ref_emit_yuy2_per_byte(
            &frame.top_seed,
            &frame.combined_body,
            &slot1,
            &slot2,
            &slot3,
        );

        let prod_emit = emit_bitstream_parts(
            PixelFamily::Yuy2,
            method,
            &frame.top_seed,
            &frame.combined_body,
            &slot1,
            &slot2,
            &slot3,
        )
        .expect("prod emit");
        assert_eq!(
            prod_emit, ref_frame,
            "wire-byte divergence @ {}x{} {:?}",
            w, h, method
        );

        assert!(
            prod_frame.windows(prod_emit.len()).any(|w| w == prod_emit),
            "production frame does not contain reference emit @ {}x{} {:?}",
            w,
            h,
            method
        );
    }
}
