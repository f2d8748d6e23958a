//! Frames without pixels and cut frames.

use oxideav_huffyuv::decoder::decode_frame;
use oxideav_huffyuv::header::{Method, PixelFamily, StreamConfig};

fn cfg(family: PixelFamily, method: Method, width: u32, height: u32) -> StreamConfig {
    StreamConfig {
        family,
        method,
        width,
        height,
        has_extradata: false,
        extradata_tables: Vec::new(),
    }
}

#[test]
fn yuy2_zero_height_is_err_not_panic() {
    let c = cfg(PixelFamily::Yuy2, Method::Left, 4, 0);
    let frame = [0u8; 64];
    assert!(decode_frame(&c, &frame).is_err());
}

#[test]
fn yuy2_zero_width_is_err_not_panic() {
    let c = cfg(PixelFamily::Yuy2, Method::Left, 0, 4);
    let frame = [0u8; 64];
    assert!(decode_frame(&c, &frame).is_err());
}

#[test]
fn rgb24_zero_height_is_err_not_panic() {
    let c = cfg(PixelFamily::Rgb24, Method::Left, 4, 0);
    let frame = [0u8; 64];
    assert!(decode_frame(&c, &frame).is_err());
}

#[test]
fn rgb32_zero_height_is_err_not_panic() {
    let c = cfg(PixelFamily::Rgb32, Method::Left, 4, 0);
    let frame = [0u8; 64];
    assert!(decode_frame(&c, &frame).is_err());
}

#[test]
fn interlaced_truncated_top_field_no_panic() {
    let c = cfg(PixelFamily::Yuy2, Method::Left, 2, 290);
    let frame = [0u8; 8];
    let _ = decode_frame(&c, &frame);
}
