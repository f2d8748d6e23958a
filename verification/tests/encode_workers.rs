//! The number of workers does not change the result.

use oxideav_huffyuv::decoder::decode_frame_with_workers;
use oxideav_huffyuv::encoder::{
    ExtradataMode, encode_frame_with_mode, encode_frame_with_mode_workers,
};
use oxideav_huffyuv::header::{Method, PixelFamily, StreamConfig};

fn synth(n: usize, seed: u32) -> Vec<u8> {
    let mut s = seed | 1;
    let mut out = vec![0u8; n];
    for slot in out.iter_mut() {
        s ^= s << 13;
        s ^= s >> 17;
        s ^= s << 5;
        *slot = s as u8;
    }
    out
}

fn bpp(family: PixelFamily) -> usize {
    match family {
        PixelFamily::Yuy2 => 2,
        PixelFamily::Rgb24 => 3,
        PixelFamily::Rgb32 => 4,
    }
}

fn legal_methods(family: PixelFamily) -> &'static [Method] {
    match family {
        PixelFamily::Yuy2 => &[
            Method::PredictOld,
            Method::Left,
            Method::Gradient,
            Method::Median,
        ],
        PixelFamily::Rgb24 | PixelFamily::Rgb32 => &[
            Method::PredictOld,
            Method::Left,
            Method::LeftDecorr,
            Method::GradientDecorr,
        ],
    }
}

const FAMILIES: [PixelFamily; 3] = [PixelFamily::Yuy2, PixelFamily::Rgb24, PixelFamily::Rgb32];
const MODES: [ExtradataMode; 3] = [
    ExtradataMode::ClassicV2,
    ExtradataMode::CustomV2,
    ExtradataMode::V1xCompat,
];

#[test]
fn round420_encode_workers2_matches_serial_interlaced_matrix() {
    for family in FAMILIES {
        for &method in legal_methods(family) {
            for mode in MODES {
                for (w, h) in [(32u32, 292u32), (16, 293), (48, 289)] {
                    let pixels = synth((w as usize) * (h as usize) * bpp(family), 0x0420_0007);
                    let serial = encode_frame_with_mode(family, method, w, h, &pixels, mode)
                        .expect("serial encode");
                    let parallel =
                        encode_frame_with_mode_workers(family, method, w, h, &pixels, mode, 2)
                            .expect("parallel encode");
                    assert_eq!(
                        serial.0, parallel.0,
                        "strf drift: {family:?}/{method:?}/{mode:?}/{w}x{h}"
                    );
                    assert_eq!(
                        serial.1, parallel.1,
                        "wire drift: {family:?}/{method:?}/{mode:?}/{w}x{h}"
                    );
                    let cfg = StreamConfig::parse_bitmapinfoheader(&parallel.0)
                        .expect("parse");
                    let decoded =
                        decode_frame_with_workers(&cfg, &parallel.1, 2)
                            .expect("decode");
                    assert_eq!(
                        decoded.pixels, pixels,
                        "lossless drift: {family:?}/{method:?}/{mode:?}/{w}x{h}"
                    );
                }
            }
        }
    }
}

#[test]
fn round420_encode_budget_clamp_and_progressive_noop() {
    let (w, h) = (32u32, 292u32);
    let pixels = synth((w as usize) * (h as usize) * 2, 0x0420_0008);
    let serial = encode_frame_with_mode(
        PixelFamily::Yuy2,
        Method::Median,
        w,
        h,
        &pixels,
        ExtradataMode::CustomV2,
    )
    .expect("encode");
    for budget in [0usize, 1, 2, 3, 8, 64] {
        let out = encode_frame_with_mode_workers(
            PixelFamily::Yuy2,
            Method::Median,
            w,
            h,
            &pixels,
            ExtradataMode::CustomV2,
            budget,
        )
        .expect("encode");
        assert_eq!(out, serial, "budget {budget} diverged");
    }
    let (w, h) = (48u32, 32u32);
    let pixels = synth((w as usize) * (h as usize) * 3, 0x0420_0009);
    let serial = encode_frame_with_mode(
        PixelFamily::Rgb24,
        Method::GradientDecorr,
        w,
        h,
        &pixels,
        ExtradataMode::ClassicV2,
    )
    .expect("encode");
    let budgeted = encode_frame_with_mode_workers(
        PixelFamily::Rgb24,
        Method::GradientDecorr,
        w,
        h,
        &pixels,
        ExtradataMode::ClassicV2,
        8,
    )
    .expect("encode");
    assert_eq!(serial, budgeted, "progressive budget must be a no-op");
}

#[test]
fn round420_encode_workers_error_parity() {
    let pixels = synth(32 * 292 * 2, 0x0420_000A);
    assert!(encode_frame_with_mode_workers(
        PixelFamily::Yuy2,
        Method::LeftDecorr,
        32,
        292,
        &pixels,
        ExtradataMode::ClassicV2,
        2,
    )
    .is_err());
    assert!(encode_frame_with_mode_workers(
        PixelFamily::Rgb24,
        Method::Median,
        32,
        292,
        &pixels,
        ExtradataMode::ClassicV2,
        2,
    )
    .is_err());

    let odd = synth(31 * 292 * 2, 0x0420_000B);
    let serial = encode_frame_with_mode(
        PixelFamily::Yuy2,
        Method::Left,
        31,
        292,
        &odd,
        ExtradataMode::ClassicV2,
    );
    let parallel = encode_frame_with_mode_workers(
        PixelFamily::Yuy2,
        Method::Left,
        31,
        292,
        &odd,
        ExtradataMode::ClassicV2,
        2,
    );
    assert!(serial.is_err() && parallel.is_err());
}
