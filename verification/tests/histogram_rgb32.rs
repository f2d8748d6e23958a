//! Histograms of RGB32 frames.

use oxideav_huffyuv::decoder::decode_frame;
use oxideav_huffyuv::encoder::{
    ExtradataMode, compute_frame_residuals, encode_frame_with_mode, histogramise,
};
use oxideav_huffyuv::header::{Method, PixelFamily, StreamConfig};

fn synth_rgb32(width: usize, height: usize) -> Vec<u8> {
    let mut s: u32 = 0xDEAD_BEEF;
    let n = width * height * 4;
    let mut out = vec![0u8; n];
    for px in out.iter_mut() {
        s ^= s << 13;
        s ^= s >> 17;
        s ^= s << 5;
        *px = s as u8;
    }
    out
}

fn ref_histogramise_rgb32_per_byte(
    method: Method,
    body: &[u8],
) -> ([u32; 256], [u32; 256], [u32; 256]) {
    let mut h1 = [0u32; 256];
    let mut h2 = [0u32; 256];
    let mut h3 = [0u32; 256];
    for (i, &b) in body.iter().enumerate() {
        let in_pixel = i % 4;
        if method.decorrelate() {
            match in_pixel {
                0 => h2[b as usize] += 1,
                1 => h1[b as usize] += 1,
                2 => h3[b as usize] += 1,
                _ => h3[b as usize] += 1,
            }
        } else {
            match in_pixel {
                0 => h1[b as usize] += 1,
                1 => h2[b as usize] += 1,
                2 => h3[b as usize] += 1,
                _ => h3[b as usize] += 1,
            }
        }
    }
    (h1, h2, h3)
}

#[test]
fn round250_rgb32_histogram_matches_per_byte_reference() {
    for &(w, h) in &[(1u32, 3u32), (2, 3), (4, 4), (8, 4)] {
        for &method in &[Method::Left, Method::LeftDecorr, Method::GradientDecorr] {
            let pixels = synth_rgb32(w as usize, h as usize);
            let frame = compute_frame_residuals(PixelFamily::Rgb32, method, w, h, &pixels)
                .expect("residuals");
            let (h1_prod, h2_prod, h3_prod) =
                histogramise(PixelFamily::Rgb32, method, &frame.combined_body);
            let (h1_ref, h2_ref, h3_ref) =
                ref_histogramise_rgb32_per_byte(method, &frame.combined_body);
            assert_eq!(
                h1_prod, h1_ref,
                "slot1 histogram drift @ {}x{} {:?}",
                w, h, method
            );
            assert_eq!(
                h2_prod, h2_ref,
                "slot2 histogram drift @ {}x{} {:?}",
                w, h, method
            );
            assert_eq!(
                h3_prod, h3_ref,
                "slot3 histogram drift @ {}x{} {:?}",
                w, h, method
            );

            let total: u64 = h1_prod
                .iter()
                .chain(h2_prod.iter())
                .chain(h3_prod.iter())
                .map(|&c| c as u64)
                .sum();
            assert_eq!(
                total,
                frame.combined_body.len() as u64,
                "histogram total != body.len() @ {}x{} {:?}",
                w,
                h,
                method
            );
        }
    }
}

#[test]
fn round250_rgb32_histogram_synth_body_matches_per_byte_reference_no_decorr() {
    let body: Vec<u8> = (0u8..128).collect();
    let (h1_prod, h2_prod, h3_prod) = histogramise(PixelFamily::Rgb32, Method::Left, &body);
    let (h1_ref, h2_ref, h3_ref) = ref_histogramise_rgb32_per_byte(Method::Left, &body);
    assert_eq!(h1_prod, h1_ref);
    assert_eq!(h2_prod, h2_ref);
    assert_eq!(h3_prod, h3_ref);

    for v in (0u8..128).step_by(4) {
        assert_eq!(
            h1_prod[v as usize], 1,
            "no-decorr slot1 should hold byte {v} exactly once",
        );
    }
    for v in (1u8..128).step_by(4) {
        assert_eq!(
            h2_prod[v as usize], 1,
            "no-decorr slot2 should hold byte {v} exactly once",
        );
    }

    for v in (2u8..128).step_by(4) {
        assert_eq!(
            h3_prod[v as usize], 1,
            "no-decorr slot3 should hold pos-+2 byte {v} exactly once",
        );
    }
    for v in (3u8..128).step_by(4) {
        assert_eq!(
            h3_prod[v as usize], 1,
            "no-decorr slot3 should hold pos-+3 (alpha) byte {v} exactly once",
        );
    }
}

#[test]
fn round250_rgb32_histogram_synth_body_matches_per_byte_reference_decorr() {
    let body: Vec<u8> = (0u8..128).collect();
    let (h1_prod, h2_prod, h3_prod) =
        histogramise(PixelFamily::Rgb32, Method::LeftDecorr, &body);
    let (h1_ref, h2_ref, h3_ref) = ref_histogramise_rgb32_per_byte(Method::LeftDecorr, &body);
    assert_eq!(h1_prod, h1_ref);
    assert_eq!(h2_prod, h2_ref);
    assert_eq!(h3_prod, h3_ref);

    for v in (0u8..128).step_by(4) {
        assert_eq!(
            h2_prod[v as usize], 1,
            "decorr slot2 should hold pos-+0 byte {v} exactly once",
        );
    }
    for v in (1u8..128).step_by(4) {
        assert_eq!(
            h1_prod[v as usize], 1,
            "decorr slot1 should hold pos-+1 byte {v} exactly once",
        );
    }
    for v in (2u8..128).step_by(4) {
        assert_eq!(
            h3_prod[v as usize], 1,
            "decorr slot3 should hold pos-+2 byte {v} exactly once",
        );
    }
    for v in (3u8..128).step_by(4) {
        assert_eq!(
            h3_prod[v as usize], 1,
            "decorr slot3 should hold pos-+3 (alpha) byte {v} exactly once",
        );
    }
}

#[test]
fn round250_rgb32_histogram_alpha_shares_slot3_counts_aggregate() {
    let mut body = Vec::with_capacity(32);
    for n in 0u8..8 {
        body.push(n + 1);
        body.push(n + 1);
        body.push(100);
        body.push(100);
    }
    let (h1_prod, h2_prod, h3_prod) = histogramise(PixelFamily::Rgb32, Method::Left, &body);
    let (h1_ref, h2_ref, h3_ref) = ref_histogramise_rgb32_per_byte(Method::Left, &body);
    assert_eq!(h1_prod, h1_ref);
    assert_eq!(h2_prod, h2_ref);
    assert_eq!(h3_prod, h3_ref);

    assert_eq!(
        h3_prod[100], 16,
        "slot 3 must accumulate from both +2 and +3 within a pixel"
    );
    for n in 0u8..8 {
        assert_eq!(h1_prod[(n + 1) as usize], 1);
        assert_eq!(h2_prod[(n + 1) as usize], 1);
    }
    let total: u64 = h1_prod
        .iter()
        .chain(h2_prod.iter())
        .chain(h3_prod.iter())
        .map(|&c| c as u64)
        .sum();
    assert_eq!(total, body.len() as u64);
}

fn rt_rgb32_customv2(width: u32, height: u32, method: Method) {
    let pixels = synth_rgb32(width as usize, height as usize);
    let (bih, frame) = encode_frame_with_mode(
        PixelFamily::Rgb32,
        method,
        width,
        height,
        &pixels,
        ExtradataMode::CustomV2,
    )
    .expect("encode");
    let cfg = StreamConfig::parse_bitmapinfoheader(&bih).expect("parse");
    let decoded = decode_frame(&cfg, &frame).expect("decode");
    assert_eq!(
        decoded.pixels, pixels,
        "CustomV2 round-trip drift @ {}x{} {:?}",
        width, height, method
    );
}

#[test]
fn round250_rgb32_histogram_customv2_roundtrips_left() {
    for &(w, h) in &[(1u32, 3u32), (2, 3), (4, 4), (8, 4)] {
        rt_rgb32_customv2(w, h, Method::Left);
    }
}

#[test]
fn round250_rgb32_histogram_customv2_roundtrips_decorr_methods() {
    for &(w, h) in &[(1u32, 3u32), (2, 3), (4, 4), (8, 4)] {
        for &method in &[Method::LeftDecorr, Method::GradientDecorr] {
            rt_rgb32_customv2(w, h, method);
        }
    }
}
