//! Decoding YUY2 frames.

use oxideav_huffyuv::bitio::BitReader;
use oxideav_huffyuv::decoder::{ThreeTables, build_three_tables, decode_frame, inverse_yuy2_median};
use oxideav_huffyuv::encoder::{ExtradataMode, encode_frame_with_mode};
use oxideav_huffyuv::header::{Method, PixelFamily, StreamConfig};
use oxideav_huffyuv::predict::{inverse_gradient_post, inverse_yuy2_left_macropixel};
use oxideav_huffyuv::tables::decode_one;

fn synth_yuy2(width: usize, height: usize) -> Vec<u8> {
    let mut s: u32 = 0xCAFE_BABE;
    let n = width * height * 2;
    let mut out = vec![0u8; n];
    for slot in out.iter_mut() {
        s ^= s << 13;
        s ^= s >> 17;
        s ^= s << 5;
        *slot = s as u8;
    }
    out
}

fn rt_yuy2(width: u32, height: u32, method: Method, mode: ExtradataMode) {
    let pixels = synth_yuy2(width as usize, height as usize);
    let (bih, frame) =
        encode_frame_with_mode(PixelFamily::Yuy2, method, width, height, &pixels, mode)
            .expect("encode");
    let cfg = StreamConfig::parse_bitmapinfoheader(&bih).expect("parse");
    let decoded = decode_frame(&cfg, &frame).expect("decode");
    assert_eq!(decoded.pixels, pixels);
}

#[test]
fn round214_yuy2_left_classic_width_2() {
    rt_yuy2(2, 6, Method::Left, ExtradataMode::ClassicV2);
}

#[test]
fn round214_yuy2_left_classic_width_4() {
    rt_yuy2(4, 4, Method::Left, ExtradataMode::ClassicV2);
}

#[test]
fn round214_yuy2_gradient_custom_width_8() {
    rt_yuy2(8, 5, Method::Gradient, ExtradataMode::CustomV2);
}

#[test]
fn round214_yuy2_median_v1x_width_8() {
    rt_yuy2(8, 7, Method::Median, ExtradataMode::V1xCompat);
}

#[test]
fn round214_yuy2_left_classic_width_16_height_3() {
    rt_yuy2(16, 3, Method::Left, ExtradataMode::ClassicV2);
}

fn ref_decode_yuy2_per_byte_loop(
    width: u32,
    height: u32,
    frame_bytes: &[u8],
    tables: &ThreeTables,
) -> Vec<u8> {
    let total_bytes = (width as usize) * (height as usize) * 2;
    let mut pixels = vec![0u8; total_bytes];
    pixels[..4].copy_from_slice(&frame_bytes[..4]);
    let bit_data = &frame_bytes[4..];
    let mut reader = BitReader::new(bit_data);
    for (byte_idx, slot_pixel) in pixels.iter_mut().enumerate().take(total_bytes).skip(4) {
        let slot = match byte_idx % 4 {
            0 | 2 => &tables.slot1,
            1 => &tables.slot2,
            _ => &tables.slot3,
        };
        let (sym, len) = decode_one(slot, reader.peek_window()).expect("decode");
        reader.consume_bits(len as u32).expect("consume");
        *slot_pixel = sym;
    }
    pixels
}

#[test]
fn round214_yuy2_decode_matches_per_byte_reference() {
    for (w, h, method) in [
        (4u32, 4u32, Method::Left),
        (8, 6, Method::Gradient),
        (8, 6, Method::Median),
    ] {
        let pixels = synth_yuy2(w as usize, h as usize);
        let (bih, frame) = encode_frame_with_mode(
            PixelFamily::Yuy2,
            method,
            w,
            h,
            &pixels,
            ExtradataMode::ClassicV2,
        )
        .expect("encode");
        let cfg = StreamConfig::parse_bitmapinfoheader(&bih).expect("parse");
        let tables = build_three_tables(&cfg).expect("tables");

        let mut ref_pixels = ref_decode_yuy2_per_byte_loop(w, h, &frame, &tables);
        let row_bytes = (w as usize) * 2;
        let len = ref_pixels.len();
        match method {
            Method::Left => {
                inverse_yuy2_left_macropixel(&mut ref_pixels, 4, len);
            }
            Method::Gradient => {
                inverse_yuy2_left_macropixel(&mut ref_pixels, 4, len);
                inverse_gradient_post(&mut ref_pixels, row_bytes, h as usize);
            }
            Method::Median => {
                inverse_yuy2_median(&mut ref_pixels, row_bytes);
            }
            _ => unreachable!("YUY2 doesn't carry decorrelating methods"),
        }
        assert_eq!(ref_pixels, pixels, "ref body must round-trip identically");

        let prod = decode_frame(&cfg, &frame).expect("decode");
        assert_eq!(prod.pixels, pixels, "production decode must round-trip");
    }
}
