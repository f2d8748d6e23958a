//! Stream headers.

use oxideav_huffyuv::error::Error;
use oxideav_huffyuv::header::{FOURCC_FFVH, FOURCC_HFYU, Method, PixelFamily, StreamConfig};
use oxideav_huffyuv::predict::is_interlaced_height;

#[test]
fn fourcc_constants_match_spec() {
    assert_eq!(FOURCC_HFYU, 0x55594648);
    let bytes = FOURCC_HFYU.to_le_bytes();
    assert_eq!(&bytes, b"HFYU");

    assert_eq!(&FOURCC_FFVH.to_le_bytes(), b"FFVH");
}

#[test]
fn method_byte_round_trip() {
    for m in [
        Method::PredictOld,
        Method::Left,
        Method::Gradient,
        Method::Median,
        Method::LeftDecorr,
        Method::GradientDecorr,
    ] {
        assert_eq!(Method::from_byte(m.to_byte()), Some(m));
    }
    assert_eq!(Method::from_byte(0x03), None);
    assert_eq!(Method::from_byte(0x42), None);
}

fn make_bih(
    bi_size: u32,
    width: i32,
    height: i32,
    bit_count: u16,
    fourcc: u32,
    extradata: &[u8],
) -> Vec<u8> {
    let mut v = vec![0u8; 40 + extradata.len()];
    v[0..4].copy_from_slice(&bi_size.to_le_bytes());
    v[4..8].copy_from_slice(&width.to_le_bytes());
    v[8..12].copy_from_slice(&height.to_le_bytes());
    v[12..14].copy_from_slice(&1u16.to_le_bytes());
    v[0x0E..0x10].copy_from_slice(&bit_count.to_le_bytes());
    v[0x10..0x14].copy_from_slice(&fourcc.to_le_bytes());
    if !extradata.is_empty() {
        v[40..40 + extradata.len()].copy_from_slice(extradata);
    }
    v
}

#[test]
fn v2_rgb24_gradient_decorr_parses() {
    let extradata = vec![0x41u8, 0x18, 0x00, 0x00, 0xFF];
    let bih = make_bih(
        0x28 + extradata.len() as u32,
        1024,
        720,
        24,
        FOURCC_HFYU,
        &extradata,
    );
    let cfg = StreamConfig::parse_bitmapinfoheader(&bih).unwrap();
    assert_eq!(cfg.family, PixelFamily::Rgb24);
    assert_eq!(cfg.method, Method::GradientDecorr);
    assert_eq!(cfg.width, 1024);
    assert_eq!(cfg.height, 720);
    assert!(cfg.has_extradata);
    assert_eq!(cfg.extradata_tables, vec![0xFFu8]);
}

#[test]
fn v1x_yuy2_no_extradata() {
    let bih = make_bih(0x28, 16, 8, 16, FOURCC_HFYU, &[]);
    let cfg = StreamConfig::parse_bitmapinfoheader(&bih).unwrap();
    assert_eq!(cfg.family, PixelFamily::Yuy2);
    assert_eq!(cfg.method, Method::PredictOld);
    assert!(!cfg.has_extradata);
}

#[test]
fn ffvh_fourcc_accepted() {
    let bih = make_bih(0x28, 16, 16, 16, FOURCC_FFVH, &[]);
    let cfg = StreamConfig::parse_bitmapinfoheader(&bih).unwrap();
    assert_eq!(cfg.family, PixelFamily::Yuy2);
}

#[test]
fn unsupported_compression_rejected() {
    let bih = make_bih(0x28, 16, 16, 24, 0xDEAD_BEEF, &[]);
    let err = StreamConfig::parse_bitmapinfoheader(&bih).unwrap_err();
    assert!(matches!(err, Error::InvalidData(_)));
}

#[test]
fn rgb24_left_decorr_via_low3() {
    let bih = make_bih(0x28, 16, 16, 0x18 | 2, FOURCC_HFYU, &[]);
    let cfg = StreamConfig::parse_bitmapinfoheader(&bih).unwrap();

    assert_eq!(cfg.family, PixelFamily::Rgb24);
    assert_eq!(cfg.method, Method::LeftDecorr);
}

#[test]
fn round261_bytes_per_pixel_step_matches_spec_table() {
    assert_eq!(PixelFamily::Yuy2.bytes_per_pixel_step(), 2);
    assert_eq!(PixelFamily::Rgb24.bytes_per_pixel_step(), 3);
    assert_eq!(PixelFamily::Rgb32.bytes_per_pixel_step(), 4);
}

#[test]
fn round261_pixel_family_row_bytes_matches_inline_match() {
    for &w in &[0u32, 1, 2, 4, 8, 16, 160, 320, 720, 1024, 1920] {
        assert_eq!(PixelFamily::Yuy2.row_bytes(w), w as usize * 2);
        assert_eq!(PixelFamily::Rgb24.row_bytes(w), w as usize * 3);
        assert_eq!(PixelFamily::Rgb32.row_bytes(w), w as usize * 4);
    }
}

#[test]
fn round261_pixel_family_row_bytes_saturates_on_overflow() {
    let big = PixelFamily::Rgb32.row_bytes(u32::MAX);
    assert!(big >= (u32::MAX as usize) * 4 || big == usize::MAX);
}

#[test]
fn round261_stream_config_row_bytes_delegates_to_family() {
    let bih = make_bih(0x28, 320, 16, 16, FOURCC_HFYU, &[]);
    let cfg = StreamConfig::parse_bitmapinfoheader(&bih).unwrap();
    assert_eq!(cfg.family, PixelFamily::Yuy2);
    assert_eq!(cfg.row_bytes(), 640);

    let extradata = vec![0x41u8, 0x18, 0x00, 0x00, 0xFF];
    let bih = make_bih(
        0x28 + extradata.len() as u32,
        1024,
        720,
        24,
        FOURCC_HFYU,
        &extradata,
    );
    let cfg = StreamConfig::parse_bitmapinfoheader(&bih).unwrap();
    assert_eq!(cfg.family, PixelFamily::Rgb24);
    assert_eq!(cfg.row_bytes(), 3072);

    let extradata = vec![0x40u8, 0x20, 0x00, 0x00, 0xFF];
    let bih = make_bih(
        0x28 + extradata.len() as u32,
        720,
        480,
        32,
        FOURCC_HFYU,
        &extradata,
    );
    let cfg = StreamConfig::parse_bitmapinfoheader(&bih).unwrap();
    assert_eq!(cfg.family, PixelFamily::Rgb32);
    assert_eq!(cfg.row_bytes(), 2880);
}

#[test]
fn round261_stream_config_is_interlaced_matches_height_threshold() {
    for &(h, want) in &[
        (0u32, false),
        (1, false),
        (288, false),
        (289, true),
        (480, true),
        (720, true),
        (1080, true),
    ] {
        let bih = make_bih(0x28, 16, h as i32, 16, FOURCC_HFYU, &[]);
        let cfg = StreamConfig::parse_bitmapinfoheader(&bih).unwrap();
        assert_eq!(
            cfg.is_interlaced(),
            want,
            "height = {h}: expected is_interlaced() = {want}"
        );

        assert_eq!(cfg.is_interlaced(), is_interlaced_height(h));
    }
}

#[test]
fn oversized_bisize_with_short_buffer_no_panic() {
    let mut bih = make_bih(0x32, 4, 8, 0x11, FOURCC_HFYU, &[]);
    assert_eq!(bih.len(), 40);

    let _ = StreamConfig::parse_bitmapinfoheader(&bih);

    bih.push(0x00);
    let _ = StreamConfig::parse_bitmapinfoheader(&bih);
}
