//! Histograms and codebook checks of YUY2 frames.

use oxideav_huffyuv::decoder::{decode_frame, v1x_tables};
use oxideav_huffyuv::encoder::{
    ExtradataMode, compute_frame_residuals, encode_frame_with_mode, histogramise,
    verify_body_in_table,
};
use oxideav_huffyuv::error::{Error, Result};
use oxideav_huffyuv::header::{Method, PixelFamily, StreamConfig};
use oxideav_huffyuv::tables::HuffTable;

fn synth_yuy2(width: usize, height: usize) -> Vec<u8> {
    let mut s: u32 = 0x1234_5678;
    let n = width * height * 2;
    let mut out = vec![0u8; n];
    for slot in out.iter_mut() {
        s ^= s << 13;
        s ^= s >> 17;
        s ^= s << 5;
        *slot = s as u8;
    }
    out
}

fn ref_histogramise_yuy2_per_byte(body: &[u8]) -> ([u32; 256], [u32; 256], [u32; 256]) {
    let mut h1 = [0u32; 256];
    let mut h2 = [0u32; 256];
    let mut h3 = [0u32; 256];
    for (i, &b) in body.iter().enumerate() {
        let byte_idx = i + 4;
        match byte_idx & 3 {
            0 | 2 => h1[b as usize] += 1,
            1 => h2[b as usize] += 1,
            _ => h3[b as usize] += 1,
        }
    }
    (h1, h2, h3)
}

fn ref_verify_body_in_table_yuy2_per_byte(
    body: &[u8],
    s1: &HuffTable,
    s2: &HuffTable,
    s3: &HuffTable,
) -> Result<()> {
    for (byte_idx, (_i, &sym)) in (4usize..).zip(body.iter().enumerate()) {
        let slot = match byte_idx & 3 {
            0 | 2 => s1,
            1 => s2,
            _ => s3,
        };
        if slot.entries[sym as usize].length == 0 {
            return Err(Error::unsupported(&format!(
                "v1.x compat: residual symbol 0x{sym:02x} not in v1.x codebook"
            )));
        }
    }
    Ok(())
}

#[test]
fn round227_yuy2_histogram_matches_per_byte_reference() {
    for &(w, h) in &[(2u32, 4u32), (4, 4), (8, 6), (16, 3)] {
        for &method in &[Method::Left, Method::Gradient, Method::Median] {
            let pixels = synth_yuy2(w as usize, h as usize);
            let frame = compute_frame_residuals(PixelFamily::Yuy2, method, w, h, &pixels)
                .expect("residuals");
            let (h1_prod, h2_prod, h3_prod) =
                histogramise(PixelFamily::Yuy2, method, &frame.combined_body);
            let (h1_ref, h2_ref, h3_ref) = ref_histogramise_yuy2_per_byte(&frame.combined_body);
            assert_eq!(
                h1_prod, h1_ref,
                "slot1 histogram drift @ {}x{} {:?}",
                w, h, method
            );
            assert_eq!(
                h2_prod, h2_ref,
                "slot2 histogram drift @ {}x{} {:?}",
                w, h, method
            );
            assert_eq!(
                h3_prod, h3_ref,
                "slot3 histogram drift @ {}x{} {:?}",
                w, h, method
            );

            let total: u64 = h1_prod
                .iter()
                .chain(h2_prod.iter())
                .chain(h3_prod.iter())
                .map(|&c| c as u64)
                .sum();
            assert_eq!(
                total,
                frame.combined_body.len() as u64,
                "histogram total != body.len() @ {}x{} {:?}",
                w,
                h,
                method
            );
        }
    }
}

#[test]
fn round227_yuy2_histogram_synth_body_matches_per_byte_reference() {
    let body: Vec<u8> = (0u8..32).collect();
    let (h1_prod, h2_prod, h3_prod) = histogramise(PixelFamily::Yuy2, Method::Left, &body);
    let (h1_ref, h2_ref, h3_ref) = ref_histogramise_yuy2_per_byte(&body);
    assert_eq!(h1_prod, h1_ref);
    assert_eq!(h2_prod, h2_ref);
    assert_eq!(h3_prod, h3_ref);

    for v in (0u8..32).step_by(2) {
        assert_eq!(
            h1_prod[v as usize], 1,
            "slot1 should hold byte {v} exactly once",
        );
    }
    for v in [1u8, 5, 9, 13, 17, 21, 25, 29] {
        assert_eq!(
            h2_prod[v as usize], 1,
            "slot2 should hold byte {v} exactly once",
        );
    }
    for v in [3u8, 7, 11, 15, 19, 23, 27, 31] {
        assert_eq!(
            h3_prod[v as usize], 1,
            "slot3 should hold byte {v} exactly once",
        );
    }
}

#[test]
fn round227_yuy2_verify_matches_per_byte_reference_success_path() {
    let tabs = v1x_tables(PixelFamily::Yuy2).expect("v1x build");
    let (s1, s2, s3) = (tabs.slot1.clone(), tabs.slot2.clone(), tabs.slot3.clone());
    let body: Vec<u8> = (0u8..64).collect();
    let prod = verify_body_in_table(PixelFamily::Yuy2, Method::Left, &body, &s1, &s2, &s3);
    let refr = ref_verify_body_in_table_yuy2_per_byte(&body, &s1, &s2, &s3);
    match (prod, refr) {
        (Ok(()), Ok(())) => {}
        (Err(e1), Err(e2)) => assert_eq!(e1.describe(), e2.describe()),
        (a, b) => panic!("verify result drift: prod={a:?} ref={b:?}"),
    }
}

#[test]
fn round227_yuy2_verify_matches_per_byte_reference_failure_path() {
    let tabs = v1x_tables(PixelFamily::Yuy2).expect("v1x build");
    let (s1, s2, s3) = (tabs.slot1.clone(), tabs.slot2.clone(), tabs.slot3.clone());

    let mut bad_sym: Option<u8> = None;
    for s in 0u16..256 {
        let s = s as u8;
        if s2.entries[s as usize].length == 0 {
            bad_sym = Some(s);
            break;
        }
    }
    if let Some(sym) = bad_sym {
        let mut body = vec![0u8; 8];
        body[1] = sym;
        let prod = verify_body_in_table(PixelFamily::Yuy2, Method::Left, &body, &s1, &s2, &s3);
        let refr = ref_verify_body_in_table_yuy2_per_byte(&body, &s1, &s2, &s3);
        match (prod, refr) {
            (Err(e1), Err(e2)) => assert_eq!(e1.describe(), e2.describe()),
            (a, b) => panic!("verify failure-path drift: prod={a:?} ref={b:?}",),
        }
    }

}

#[test]
fn round227_yuy2_custom_v2_roundtrip_width_2() {
    rt_yuy2_custom(2, 6, Method::Left);
}

#[test]
fn round227_yuy2_custom_v2_roundtrip_width_4() {
    rt_yuy2_custom(4, 4, Method::Gradient);
}

#[test]
fn round227_yuy2_custom_v2_roundtrip_width_8() {
    rt_yuy2_custom(8, 6, Method::Median);
}

#[test]
fn round227_yuy2_custom_v2_roundtrip_width_16() {
    rt_yuy2_custom(16, 3, Method::Left);
}

#[test]
fn round227_yuy2_v1x_compat_roundtrip_width_2() {
    rt_yuy2_v1x(2, 6, Method::Left);
}

#[test]
fn round227_yuy2_v1x_compat_roundtrip_width_4() {
    rt_yuy2_v1x(4, 4, Method::Gradient);
}

#[test]
fn round227_yuy2_v1x_compat_roundtrip_width_8() {
    rt_yuy2_v1x(8, 6, Method::Median);
}

#[test]
fn round227_yuy2_v1x_compat_roundtrip_width_16() {
    rt_yuy2_v1x(16, 3, Method::Left);
}

fn rt_yuy2_custom(width: u32, height: u32, method: Method) {
    let pixels = synth_yuy2(width as usize, height as usize);
    let (bih, frame) = encode_frame_with_mode(
        PixelFamily::Yuy2,
        method,
        width,
        height,
        &pixels,
        ExtradataMode::CustomV2,
    )
    .expect("encode");
    let cfg = StreamConfig::parse_bitmapinfoheader(&bih).expect("parse");
    let decoded = decode_frame(&cfg, &frame).expect("decode");
    assert_eq!(decoded.pixels, pixels);
}

fn rt_yuy2_v1x(width: u32, height: u32, method: Method) {
    let pixels = synth_yuy2(width as usize, height as usize);
    let (bih, frame) = encode_frame_with_mode(
        PixelFamily::Yuy2,
        method,
        width,
        height,
        &pixels,
        ExtradataMode::V1xCompat,
    )
    .expect("encode");
    let cfg = StreamConfig::parse_bitmapinfoheader(&bih).expect("parse");
    let decoded = decode_frame(&cfg, &frame).expect("decode");
    assert_eq!(decoded.pixels, pixels);
}
