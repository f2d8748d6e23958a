//! The bytes of RGB32 frames.

use oxideav_huffyuv::bitio::BitWriter;
use oxideav_huffyuv::decoder::decode_frame;
use oxideav_huffyuv::encoder::{
    ExtradataMode, compute_residuals, encode_frame_with_mode, histogramise, lookup_code,
};
use oxideav_huffyuv::header::{Method, PixelFamily, StreamConfig};
use oxideav_huffyuv::tables::{HuffTable, compute_canonical_lengths};

fn synth_rgb32(width: usize, height: usize) -> Vec<u8> {
    let mut s: u32 = 0xC0DE_BABE;
    let n = width * height * 4;
    let mut out = vec![0u8; n];
    for px in out.iter_mut() {
        s ^= s << 13;
        s ^= s >> 17;
        s ^= s << 5;
        *px = s as u8;
    }
    out
}

fn rt_rgb32(width: u32, height: u32, method: Method, mode: ExtradataMode) {
    let pixels = synth_rgb32(width as usize, height as usize);
    let (bih, frame) =
        encode_frame_with_mode(PixelFamily::Rgb32, method, width, height, &pixels, mode)
            .expect("encode");
    let cfg = StreamConfig::parse_bitmapinfoheader(&bih).expect("parse");
    let decoded = decode_frame(&cfg, &frame).expect("decode");
    assert_eq!(decoded.pixels, pixels);
}

#[test]
fn round245_rgb32_left_classic_width_1() {
    rt_rgb32(1, 3, Method::Left, ExtradataMode::ClassicV2);
}

#[test]
fn round245_rgb32_left_classic_width_2() {
    rt_rgb32(2, 3, Method::Left, ExtradataMode::ClassicV2);
}

#[test]
fn round245_rgb32_left_classic_width_4() {
    rt_rgb32(4, 4, Method::Left, ExtradataMode::ClassicV2);
}

#[test]
fn round245_rgb32_left_classic_width_8() {
    rt_rgb32(8, 4, Method::Left, ExtradataMode::ClassicV2);
}

#[test]
fn round245_rgb32_predict_old_classic() {
    rt_rgb32(4, 4, Method::PredictOld, ExtradataMode::ClassicV2);
}

#[test]
fn round245_rgb32_left_decorr_classic() {
    rt_rgb32(4, 4, Method::LeftDecorr, ExtradataMode::ClassicV2);
}

#[test]
fn round245_rgb32_gradient_decorr_classic() {
    rt_rgb32(4, 4, Method::GradientDecorr, ExtradataMode::ClassicV2);
}

#[test]
fn round245_rgb32_left_v1x_compat() {
    rt_rgb32(4, 4, Method::Left, ExtradataMode::V1xCompat);
}

fn ref_emit_rgb32_per_byte_loop(
    method: Method,
    body: &[u8],
    slot1: &HuffTable,
    slot2: &HuffTable,
    slot3: &HuffTable,
) -> Vec<u8> {
    let mut writer = BitWriter::new();
    for (i, &sym) in body.iter().enumerate() {
        let in_pixel = i % 4;
        let slot = if method.decorrelate() {
            match in_pixel {
                0 => slot2,
                1 => slot1,
                _ => slot3,
            }
        } else {
            match in_pixel {
                0 => slot1,
                1 => slot2,
                _ => slot3,
            }
        };
        let (code, length) = lookup_code(slot, sym).expect("ref lookup");
        writer.write_msb(code, length);
    }
    writer.finish()
}

#[test]
fn round245_rgb32_emit_matches_per_byte_reference() {
    for (w, h, method) in [
        (4u32, 4u32, Method::Left),
        (4, 4, Method::LeftDecorr),
        (4, 4, Method::GradientDecorr),
    ] {
        let pixels = synth_rgb32(w as usize, h as usize);

        let (_, frame) = encode_frame_with_mode(
            PixelFamily::Rgb32,
            method,
            w,
            h,
            &pixels,
            ExtradataMode::CustomV2,
        )
        .expect("encode");

        let residuals =
            compute_residuals(PixelFamily::Rgb32, method, w, h, &pixels).expect("residuals");
        let (h1, h2, h3) = histogramise(PixelFamily::Rgb32, method, &residuals.body);
        let len1 = compute_canonical_lengths(&h1).expect("lens1");
        let len2 = compute_canonical_lengths(&h2).expect("lens2");
        let len3 = compute_canonical_lengths(&h3).expect("lens3");
        let s1 = HuffTable::build_from_lengths(&len1).expect("t1");
        let s2 = HuffTable::build_from_lengths(&len2).expect("t2");
        let s3 = HuffTable::build_from_lengths(&len3).expect("t3");
        let ref_bits = ref_emit_rgb32_per_byte_loop(method, &residuals.body, &s1, &s2, &s3);

        let prod_bits = &frame[4..];
        assert_eq!(
            prod_bits, ref_bits.as_slice(),
            "step body must emit bit-identical wire bytes to the pre-per-byte slot dispatch (method = {:?})",
            method
        );
    }
}
