//! Frames coded with hand-made length tables.

use oxideav_huffyuv::decoder::decode_frame;
use oxideav_huffyuv::encoder::{
    build_bitmapinfoheader, compute_frame_residuals, emit_bitstream_parts,
};
use oxideav_huffyuv::header::{Method, PixelFamily, StreamConfig};
use oxideav_huffyuv::tables::{
    HuffTable, classic_blob_bytes, rle_decode_three_channels, rle_encode_three_channels,
};

fn flat_len8() -> [u8; 256] {
    [8u8; 256]
}

fn synth(n: usize, mut s: u32) -> Vec<u8> {
    let mut out = vec![0u8; n];
    for slot in out.iter_mut() {
        s ^= s << 13;
        s ^= s >> 17;
        s ^= s << 5;
        *slot = s as u8;
    }
    out
}

fn assert_not_classic(family: PixelFamily, extradata: &[u8]) {
    let methods: &[Method] = if family.is_rgb() {
        &[Method::Left, Method::LeftDecorr, Method::GradientDecorr]
    } else {
        &[Method::Left, Method::Gradient, Method::Median]
    };
    for &m in methods {
        let blob = classic_blob_bytes(family, m);
        assert_ne!(
            extradata, blob,
            "{family:?}/{m:?}: hand-built extradata must not equal a classic blob"
        );
    }
}

fn roundtrip_with_tables(
    family: PixelFamily,
    method: Method,
    width: u32,
    height: u32,
    pixels: &[u8],
    lengths: &[[u8; 256]; 3],
) {
    let s1 = HuffTable::build_from_lengths(&lengths[0]).expect("slot1");
    let s2 = HuffTable::build_from_lengths(&lengths[1]).expect("slot2");
    let s3 = HuffTable::build_from_lengths(&lengths[2]).expect("slot3");

    let extradata = rle_encode_three_channels(lengths).expect("rle encode");
    assert_not_classic(family, &extradata);

    let decoded_lens = rle_decode_three_channels(&extradata).expect("rle roundtrip");
    assert_eq!(&decoded_lens, lengths, "extradata must RLE-roundtrip");

    let strf = build_bitmapinfoheader(family, method, width, height, &extradata, true);

    let frame =
        compute_frame_residuals(family, method, width, height, pixels).expect("residuals");
    let frame_bytes = if frame.interlaced {
        let mut out = emit_bitstream_parts(
            family,
            method,
            &frame.top_seed,
            &frame.combined_body[..frame.top_body_len],
            &s1,
            &s2,
            &s3,
        )
        .expect("emit top");
        if let Some(bot_seed) = frame.bot_seed_opt {
            let mut bot = emit_bitstream_parts(
                family,
                method,
                &bot_seed,
                &frame.combined_body[frame.top_body_len..],
                &s1,
                &s2,
                &s3,
            )
            .expect("emit bot");
            out.append(&mut bot);
        }
        out
    } else {
        emit_bitstream_parts(
            family,
            method,
            &frame.top_seed,
            &frame.combined_body,
            &s1,
            &s2,
            &s3,
        )
        .expect("emit")
    };

    let cfg = StreamConfig::parse_bitmapinfoheader(&strf).expect("parse strf");
    assert!(cfg.has_extradata, "cfg must carry the v2.x extradata");
    let out = decode_frame(&cfg, &frame_bytes).expect("decode");
    assert_eq!(
        out.pixels, pixels,
        "{family:?}/{method:?} {width}×{height}: arbitrary-table decode must be pixel-exact"
    );
}

#[test]
fn round382_yuy2_left_flat_tables_progressive() {
    let (w, h) = (8u32, 4u32);
    let pixels = synth(PixelFamily::Yuy2.row_bytes(w) * h as usize, 0x1111_2222);
    let lens = [flat_len8(), flat_len8(), flat_len8()];
    roundtrip_with_tables(PixelFamily::Yuy2, Method::Left, w, h, &pixels, &lens);
}

#[test]
fn round382_yuy2_gradient_flat_tables_progressive() {
    let (w, h) = (8u32, 5u32);
    let pixels = synth(PixelFamily::Yuy2.row_bytes(w) * h as usize, 0x3333_4444);
    let lens = [flat_len8(), flat_len8(), flat_len8()];
    roundtrip_with_tables(PixelFamily::Yuy2, Method::Gradient, w, h, &pixels, &lens);
}

#[test]
fn round382_yuy2_median_flat_tables_progressive() {
    let (w, h) = (8u32, 6u32);
    let pixels = synth(PixelFamily::Yuy2.row_bytes(w) * h as usize, 0x5555_6666);
    let lens = [flat_len8(), flat_len8(), flat_len8()];
    roundtrip_with_tables(PixelFamily::Yuy2, Method::Median, w, h, &pixels, &lens);
}

#[test]
fn round382_rgb24_left_flat_tables_progressive() {
    let (w, h) = (5u32, 3u32);
    let pixels = synth(PixelFamily::Rgb24.row_bytes(w) * h as usize, 0x7777_8888);
    let lens = [flat_len8(), flat_len8(), flat_len8()];
    roundtrip_with_tables(PixelFamily::Rgb24, Method::Left, w, h, &pixels, &lens);
}

#[test]
fn round382_rgb24_left_decorr_flat_tables_progressive() {
    let (w, h) = (6u32, 4u32);
    let pixels = synth(PixelFamily::Rgb24.row_bytes(w) * h as usize, 0x9999_AAAA);
    let lens = [flat_len8(), flat_len8(), flat_len8()];
    roundtrip_with_tables(PixelFamily::Rgb24, Method::LeftDecorr, w, h, &pixels, &lens);
}

#[test]
fn round382_rgb32_left_decorr_flat_tables_progressive() {
    let (w, h) = (4u32, 4u32);
    let pixels = synth(PixelFamily::Rgb32.row_bytes(w) * h as usize, 0xBBBB_CCCC);
    let lens = [flat_len8(), flat_len8(), flat_len8()];
    roundtrip_with_tables(PixelFamily::Rgb32, Method::LeftDecorr, w, h, &pixels, &lens);
}

#[test]
fn round382_rgb32_gradient_decorr_flat_tables_progressive() {
    let (w, h) = (5u32, 5u32);
    let pixels = synth(PixelFamily::Rgb32.row_bytes(w) * h as usize, 0xDDDD_EEEE);
    let lens = [flat_len8(), flat_len8(), flat_len8()];
    roundtrip_with_tables(
        PixelFamily::Rgb32,
        Method::GradientDecorr,
        w,
        h,
        &pixels,
        &lens,
    );
}

#[test]
fn round382_yuy2_left_flat_tables_interlaced_tall() {
    let (w, h) = (8u32, 300u32);
    let pixels = synth(PixelFamily::Yuy2.row_bytes(w) * h as usize, 0x0F0F_1E1E);
    let lens = [flat_len8(), flat_len8(), flat_len8()];
    roundtrip_with_tables(PixelFamily::Yuy2, Method::Left, w, h, &pixels, &lens);
}
