//! Histograms of RGB24 frames.

use oxideav_huffyuv::decoder::decode_frame;
use oxideav_huffyuv::encoder::{
    ExtradataMode, compute_frame_residuals, encode_frame_with_mode, histogramise,
};
use oxideav_huffyuv::header::{Method, PixelFamily, StreamConfig};

fn synth_rgb24(width: usize, height: usize) -> Vec<u8> {
    let mut s: u32 = 0xDEAD_BEEF;
    let n = width * height * 3;
    let mut out = vec![0u8; n];
    for px in out.iter_mut() {
        s ^= s << 13;
        s ^= s >> 17;
        s ^= s << 5;
        *px = s as u8;
    }
    out
}

fn ref_histogramise_rgb24_per_byte(
    method: Method,
    body: &[u8],
) -> ([u32; 256], [u32; 256], [u32; 256]) {
    let mut h1 = [0u32; 256];
    let mut h2 = [0u32; 256];
    let mut h3 = [0u32; 256];
    for (i, &b) in body.iter().enumerate() {
        let in_pixel = i % 3;
        if method.decorrelate() {
            match in_pixel {
                0 => h2[b as usize] += 1,
                1 => h1[b as usize] += 1,
                _ => h3[b as usize] += 1,
            }
        } else {
            match in_pixel {
                0 => h1[b as usize] += 1,
                1 => h2[b as usize] += 1,
                _ => h3[b as usize] += 1,
            }
        }
    }
    (h1, h2, h3)
}

#[test]
fn round242_rgb24_histogram_matches_per_byte_reference() {
    for &(w, h) in &[(1u32, 3u32), (2, 3), (4, 4), (8, 4)] {
        for &method in &[Method::Left, Method::LeftDecorr, Method::GradientDecorr] {
            let pixels = synth_rgb24(w as usize, h as usize);
            let frame = compute_frame_residuals(PixelFamily::Rgb24, method, w, h, &pixels)
                .expect("residuals");
            let (h1_prod, h2_prod, h3_prod) =
                histogramise(PixelFamily::Rgb24, method, &frame.combined_body);
            let (h1_ref, h2_ref, h3_ref) =
                ref_histogramise_rgb24_per_byte(method, &frame.combined_body);
            assert_eq!(
                h1_prod, h1_ref,
                "slot1 histogram drift @ {}x{} {:?}",
                w, h, method
            );
            assert_eq!(
                h2_prod, h2_ref,
                "slot2 histogram drift @ {}x{} {:?}",
                w, h, method
            );
            assert_eq!(
                h3_prod, h3_ref,
                "slot3 histogram drift @ {}x{} {:?}",
                w, h, method
            );

            let total: u64 = h1_prod
                .iter()
                .chain(h2_prod.iter())
                .chain(h3_prod.iter())
                .map(|&c| c as u64)
                .sum();
            assert_eq!(
                total,
                frame.combined_body.len() as u64,
                "histogram total != body.len() @ {}x{} {:?}",
                w,
                h,
                method
            );
        }
    }
}

#[test]
fn round242_rgb24_histogram_synth_body_matches_per_byte_reference_no_decorr() {
    let body: Vec<u8> = (0u8..96).collect();
    let (h1_prod, h2_prod, h3_prod) = histogramise(PixelFamily::Rgb24, Method::Left, &body);
    let (h1_ref, h2_ref, h3_ref) = ref_histogramise_rgb24_per_byte(Method::Left, &body);
    assert_eq!(h1_prod, h1_ref);
    assert_eq!(h2_prod, h2_ref);
    assert_eq!(h3_prod, h3_ref);

    for v in (0u8..96).step_by(3) {
        assert_eq!(
            h1_prod[v as usize], 1,
            "no-decorr slot1 should hold byte {v} exactly once",
        );
    }
    for v in (1u8..96).step_by(3) {
        assert_eq!(
            h2_prod[v as usize], 1,
            "no-decorr slot2 should hold byte {v} exactly once",
        );
    }
    for v in (2u8..96).step_by(3) {
        assert_eq!(
            h3_prod[v as usize], 1,
            "no-decorr slot3 should hold byte {v} exactly once",
        );
    }
}

#[test]
fn round242_rgb24_histogram_synth_body_matches_per_byte_reference_decorr() {
    let body: Vec<u8> = (0u8..96).collect();
    let (h1_prod, h2_prod, h3_prod) =
        histogramise(PixelFamily::Rgb24, Method::LeftDecorr, &body);
    let (h1_ref, h2_ref, h3_ref) = ref_histogramise_rgb24_per_byte(Method::LeftDecorr, &body);
    assert_eq!(h1_prod, h1_ref);
    assert_eq!(h2_prod, h2_ref);
    assert_eq!(h3_prod, h3_ref);

    for v in (0u8..96).step_by(3) {
        assert_eq!(
            h2_prod[v as usize], 1,
            "decorr slot2 should hold pos-+0 byte {v} exactly once",
        );
    }
    for v in (1u8..96).step_by(3) {
        assert_eq!(
            h1_prod[v as usize], 1,
            "decorr slot1 should hold pos-+1 byte {v} exactly once",
        );
    }
    for v in (2u8..96).step_by(3) {
        assert_eq!(
            h3_prod[v as usize], 1,
            "decorr slot3 should hold pos-+2 byte {v} exactly once",
        );
    }
}

fn rt_rgb24_custom(width: u32, height: u32, method: Method) {
    let pixels = synth_rgb24(width as usize, height as usize);
    let (bih, frame) = encode_frame_with_mode(
        PixelFamily::Rgb24,
        method,
        width,
        height,
        &pixels,
        ExtradataMode::CustomV2,
    )
    .expect("encode");
    let cfg = StreamConfig::parse_bitmapinfoheader(&bih).expect("parse");
    let decoded = decode_frame(&cfg, &frame).expect("decode");
    assert_eq!(decoded.pixels, pixels);
}

#[test]
fn round242_rgb24_custom_v2_roundtrip_width_1() {
    rt_rgb24_custom(1, 3, Method::Left);
}

#[test]
fn round242_rgb24_custom_v2_roundtrip_width_2() {
    rt_rgb24_custom(2, 3, Method::LeftDecorr);
}

#[test]
fn round242_rgb24_custom_v2_roundtrip_width_4() {
    rt_rgb24_custom(4, 4, Method::GradientDecorr);
}

#[test]
fn round242_rgb24_custom_v2_roundtrip_width_8() {
    rt_rgb24_custom(8, 4, Method::Left);
}
