//! The size of decoded rasters.

use oxideav_huffyuv::decoder::decode_frame;
use oxideav_huffyuv::encoder::{ExtradataMode, encode_frame_with_mode};
use oxideav_huffyuv::header::{Method, PixelFamily, StreamConfig};

fn synth(n: usize, mut s: u32) -> Vec<u8> {
    let mut out = vec![0u8; n];
    for slot in out.iter_mut() {
        s ^= s << 13;
        s ^= s >> 17;
        s ^= s << 5;
        *slot = s as u8;
    }
    out
}

fn rt_pin_raster_len(family: PixelFamily, method: Method, w: u32, h: u32) {
    let pixels = synth(family.row_bytes(w) * h as usize, 0xC0FF_EE11);
    let (bih, frame) =
        encode_frame_with_mode(family, method, w, h, &pixels, ExtradataMode::ClassicV2)
            .expect("encode");
    let cfg = StreamConfig::parse_bitmapinfoheader(&bih).expect("parse");
    let decoded = decode_frame(&cfg, &frame).expect("decode");
    assert_eq!(
        decoded.pixels.len(),
        cfg.family.row_bytes(cfg.width) * cfg.height as usize,
        "decoded raster length must equal family.row_bytes(width) × height"
    );
    assert_eq!(decoded.pixels, pixels, "round-trip must be bit-exact");
}

#[test]
fn round262_yuy2_decoded_raster_len_matches_family_row_bytes() {
    rt_pin_raster_len(PixelFamily::Yuy2, Method::Left, 4, 3);
    rt_pin_raster_len(PixelFamily::Yuy2, Method::Median, 8, 5);
}

#[test]
fn round262_rgb24_decoded_raster_len_matches_family_row_bytes() {
    rt_pin_raster_len(PixelFamily::Rgb24, Method::Left, 3, 4);
    rt_pin_raster_len(PixelFamily::Rgb24, Method::LeftDecorr, 5, 2);
}

#[test]
fn round262_rgb32_decoded_raster_len_matches_family_row_bytes() {
    rt_pin_raster_len(PixelFamily::Rgb32, Method::Left, 3, 4);
    rt_pin_raster_len(PixelFamily::Rgb32, Method::GradientDecorr, 4, 3);
}

#[test]
fn round262_degenerate_dims_still_rejected_post_accessor() {
    let frame = [0u8; 64];
    for family in [PixelFamily::Yuy2, PixelFamily::Rgb24, PixelFamily::Rgb32] {
        for (w, h) in [(0u32, 4u32), (4, 0), (0, 0)] {
            let c = StreamConfig {
                family,
                method: Method::Left,
                width: w,
                height: h,
                has_extradata: false,
                extradata_tables: Vec::new(),
            };
            assert!(
                decode_frame(&c, &frame).is_err(),
                "degenerate {family:?} {w}x{h} must be Err"
            );
        }
    }
}
