//! Properties of encoded frames on generated inputs.

use oxideav_huffyuv::decoder::{decode_frame, decode_frame_with_workers};
use oxideav_huffyuv::encoder::{
    bit_cost_for_method, build_bitmapinfoheader, encode_frame, encode_frame_auto,
    encode_frame_auto_workers, encode_frame_with_mode, encode_frame_with_mode_workers, ExtradataMode, MethodSelection,
};
use oxideav_huffyuv::error::Error;
use oxideav_huffyuv::header::{Method, PixelFamily, StreamConfig};

const FAMILIES: [PixelFamily; 3] = [PixelFamily::Yuy2, PixelFamily::Rgb24, PixelFamily::Rgb32];

const METHODS: [Method; 6] = [
    Method::PredictOld,
    Method::Left,
    Method::Gradient,
    Method::Median,
    Method::LeftDecorr,
    Method::GradientDecorr,
];

const MODES: [ExtradataMode; 3] = [
    ExtradataMode::ClassicV2,
    ExtradataMode::CustomV2,
    ExtradataMode::V1xCompat,
];

fn generated(seed: u32, n: usize) -> Vec<u8> {
    let mut s = seed | 1;
    (0..n)
        .map(|_| {
            s ^= s << 13;
            s ^= s >> 17;
            s ^= s << 5;
            s as u8
        })
        .collect()
}

fn is_legal(family: PixelFamily, method: Method) -> bool {
    if family.is_rgb() {
        method.is_rgb_legal()
    } else {
        method.is_yuv_legal()
    }
}

#[test]
fn every_combination_round_trips_or_is_refused() {
    let sizes = [(2u32, 1u32), (2, 2), (4, 3), (6, 32), (64, 5), (2, 290), (4, 301)];
    for family in FAMILIES {
        for method in METHODS {
            for mode in MODES {
                for (i, &(w, h)) in sizes.iter().enumerate() {
                    let n = family.row_bytes(w) * h as usize;
                    let mut pixels = generated(i as u32 * 97 + 13, n);
                    if i % 2 == 1 {
                        for p in pixels.iter_mut().skip(n / 2) {
                            *p = 0;
                        }
                    }
                    let serial = encode_frame_with_mode(family, method, w, h, &pixels, mode);
                    let shared =
                        encode_frame_with_mode_workers(family, method, w, h, &pixels, mode, 2);
                    if !is_legal(family, method) {
                        assert!(matches!(serial, Err(Error::InvalidData(_))));
                        assert!(shared.is_err());
                        continue;
                    }
                    if serial.is_err() {
                        assert_eq!(mode, ExtradataMode::CustomV2);
                        assert_eq!((family, w, h), (PixelFamily::Yuy2, 2, 1));
                        continue;
                    }
                    let (strf, frame) = serial.unwrap();
                    assert_eq!((strf.clone(), frame.clone()), shared.unwrap());

                    let cfg = StreamConfig::parse_bitmapinfoheader(&strf).unwrap();
                    assert_eq!((cfg.family, cfg.method), (family, method));
                    assert_eq!((cfg.width, cfg.height), (w, h));
                    assert_eq!(decode_frame(&cfg, &frame).unwrap().pixels, pixels);
                    assert_eq!(
                        decode_frame_with_workers(&cfg, &frame, 2).unwrap().pixels,
                        pixels
                    );

                    let with = strf.len() > 0x28;
                    let tables: &[u8] = if with { &strf[0x2C..] } else { &[] };
                    assert_eq!(cfg.extradata_tables, tables);
                    let again = build_bitmapinfoheader(family, method, w, h, tables, with);
                    assert_eq!(again, strf);
                }
            }
        }
    }
}

#[test]
fn any_bytes_decode_or_are_refused() {
    for seed in 0..300u32 {
        let data = generated(seed * 53 + 1, 120);
        let mut strf = data[..48].to_vec();
        strf[0..4].copy_from_slice(&(if seed % 3 == 0 { 0x28u32 } else { 48 }).to_le_bytes());
        strf[4..8].copy_from_slice(&(seed % 9).to_le_bytes());
        strf[8..12].copy_from_slice(&(if seed % 5 == 0 { 291 } else { seed % 7 }).to_le_bytes());
        strf[0x0E..0x10].copy_from_slice(&(16 + 8 * (seed % 3) as u16 + 1).to_le_bytes());
        strf[0x10..0x14].copy_from_slice(b"HFYU");
        strf[0x29] = 0;
        if let Ok(cfg) = StreamConfig::parse_bitmapinfoheader(&strf) {
            match decode_frame(&cfg, &data[48..]) {
                Ok(frame) => assert_eq!(
                    frame.pixels.len(),
                    cfg.row_bytes() * cfg.height as usize
                ),
                Err(e) => assert!(matches!(e, Error::InvalidData(_))),
            }
        }
    }
}

#[test]
fn made_codebooks_take_the_fewest_bits() {
    for family in FAMILIES {
        let (w, h) = (24u32, 16u32);
        let n = family.row_bytes(w) * h as usize;
        let pixels: Vec<u8> = generated(99, n).iter().map(|b| b & 0x37).collect();
        for method in METHODS {
            if !is_legal(family, method) {
                continue;
            }
            let bits = bit_cost_for_method(family, method, w, h, &pixels).unwrap();
            let size = |mode| {
                let (_, frame) =
                    encode_frame_with_mode(family, method, w, h, &pixels, mode).unwrap();
                frame.len()
            };
            let custom = size(ExtradataMode::CustomV2);
            assert_eq!(custom, 4 + 4 * ((bits as usize + 31) / 32));
            assert!(custom <= size(ExtradataMode::ClassicV2));
            assert!(custom <= size(ExtradataMode::V1xCompat));
        }
    }
}

#[test]
fn the_two_left_methods_give_the_same_bytes() {
    let pixels = generated(4, 8 * 2 * 6);
    let a = encode_frame_with_mode(
        PixelFamily::Yuy2,
        Method::PredictOld,
        8,
        6,
        &pixels,
        ExtradataMode::CustomV2,
    )
    .unwrap();
    let b = encode_frame_with_mode(
        PixelFamily::Yuy2,
        Method::Left,
        8,
        6,
        &pixels,
        ExtradataMode::CustomV2,
    )
    .unwrap();
    assert_eq!(a.1, b.1);
    assert_ne!(a.0, b.0);
}

#[test]
fn a_fixed_selection_encodes_with_its_method() {
    let pixels = generated(8, 5 * 3 * 4);
    for mode in MODES {
        let (strf, bytes, method) = encode_frame_auto(
            PixelFamily::Rgb24,
            MethodSelection::Fixed(Method::GradientDecorr),
            5,
            4,
            &pixels,
            mode,
        )
        .unwrap();
        assert_eq!(method, Method::GradientDecorr);
        let direct =
            encode_frame_with_mode(PixelFamily::Rgb24, method, 5, 4, &pixels, mode).unwrap();
        assert_eq!(direct, (strf, bytes));
    }
}

#[test]
fn a_fixed_selection_that_is_not_legal_is_refused() {
    for mode in MODES {
        for (family, pixels) in [
            (PixelFamily::Rgb24, vec![1u8, 2, 3, 4, 5, 6]),
            (PixelFamily::Rgb32, vec![1u8; 8]),
        ] {
            for method in [Method::Median, Method::Gradient] {
                let selection = MethodSelection::Fixed(method);
                let auto = encode_frame_auto(family, selection, 2, 1, &pixels, mode);
                assert!(matches!(auto, Err(Error::InvalidData(_))));
                let shared =
                    encode_frame_auto_workers(family, selection, 2, 1, &pixels, mode, 2);
                assert!(matches!(shared, Err(Error::InvalidData(_))));
                assert!(encode_frame_with_mode(family, method, 2, 1, &pixels, mode).is_err());
            }
        }
        let selection = MethodSelection::Fixed(Method::LeftDecorr);
        let yuy2 = encode_frame_auto(PixelFamily::Yuy2, selection, 2, 1, &[1, 2, 3, 4], mode);
        assert!(matches!(yuy2, Err(Error::InvalidData(_))));
    }
}

#[test]
fn the_chosen_method_is_the_first_of_the_cheapest() {
    for family in FAMILIES {
        let len = 6 * family.row_bytes(4);
        for seed in 0..6u32 {
            let pixels = if seed == 0 { vec![9u8; len] } else { generated(seed, len) };
            let (strf, bytes, method) = encode_frame_auto(
                family,
                MethodSelection::Auto,
                4,
                6,
                &pixels,
                ExtradataMode::CustomV2,
            )
            .unwrap();
            let cost = |m: Method| bit_cost_for_method(family, m, 4, 6, &pixels).unwrap();
            let mut first = MethodSelection::legal_methods(family)[0];
            for m in MethodSelection::legal_methods(family) {
                if cost(m) < cost(first) {
                    first = m;
                }
            }
            assert_eq!(method, first);
            let mode = ExtradataMode::CustomV2;
            let direct = encode_frame_with_mode(family, method, 4, 6, &pixels, mode).unwrap();
            assert_eq!(direct, (strf.clone(), bytes.clone()));
            let config = StreamConfig::parse_bitmapinfoheader(&strf).unwrap();
            let frame = decode_frame(&config, &bytes).unwrap();
            assert_eq!((frame.family, frame.width, frame.height), (family, 4, 6));
            assert_eq!(frame.pixels, pixels);
        }
    }
}

#[test]
fn exact_bytes_of_a_small_frame() {
    let pixels = [10u8, 20, 30, 11, 22, 33];
    let (strf, frame) = encode_frame_with_mode(
        PixelFamily::Rgb24,
        Method::Left,
        2,
        1,
        &pixels,
        ExtradataMode::CustomV2,
    )
    .unwrap();
    // The first pixel stands behind a zero byte. Each of the three residuals
    // 1, 2 and 3 is the only one of its codebook, whose other codeword goes to
    // the lowest other symbol: zero. Symbols of one length are numbered upwards,
    // so each residual has the codeword `1`.
    assert_eq!(frame, [0, 10, 20, 30, 0, 0, 0, 0b1110_0000]);
    assert_eq!(&strf[0x28..0x2C], &[0x00, 24, 0x20, 0x00]);
    assert_eq!(
        &strf[0x2C..],
        &[0x41, 0x00, 254, 0x21, 0x20, 0x21, 0x00, 253, 0x21, 0x40, 0x21, 0x00, 252]
    );
    let cfg = StreamConfig::parse_bitmapinfoheader(&strf).unwrap();
    assert_eq!(decode_frame(&cfg, &frame).unwrap().pixels, pixels);
}

#[test]
fn wrong_sizes_are_refused() {
    let pixels = generated(3, 64);
    for (family, w, h) in [
        (PixelFamily::Yuy2, 4u32, 7u32),
        (PixelFamily::Yuy2, 3, 4),
        (PixelFamily::Rgb24, 4, 5),
        (PixelFamily::Rgb32, 4, 3),
        (PixelFamily::Rgb32, 2, 300),
        (PixelFamily::Yuy2, u32::MAX - 1, u32::MAX),
    ] {
        let r = encode_frame(family, Method::Left, w, h, &pixels);
        assert!(matches!(r, Err(Error::InvalidData(_))), "{family:?} {w}x{h}");
    }
}

#[test]
fn empty_rasters() {
    for mode in MODES {
        for height in [0u32, 1, 300] {
            for family in [PixelFamily::Rgb24, PixelFamily::Rgb32] {
                let method = Method::Median;
                let r = encode_frame_with_mode(family, method, 0, height, &[], mode);
                assert!(matches!(r, Err(Error::InvalidData(_))));
                for budget in [0usize, 1, 2, 64] {
                    let r = encode_frame_with_mode_workers(
                        family, method, 0, height, &[], mode, budget,
                    );
                    assert!(matches!(r, Err(Error::InvalidData(_))));
                    let r = encode_frame_auto_workers(
                        family,
                        MethodSelection::Fixed(method),
                        0,
                        height,
                        &[],
                        mode,
                        budget,
                    );
                    assert!(matches!(r, Err(Error::InvalidData(_))));
                }
                assert!(bit_cost_for_method(family, method, 0, height, &[]).is_err());
            }
            for budget in [1usize, 2] {
                let family = PixelFamily::Yuy2;
                let r = encode_frame_with_mode_workers(
                    family,
                    Method::Left,
                    0,
                    height,
                    &[],
                    mode,
                    budget,
                );
                if mode == ExtradataMode::CustomV2 {
                    assert!(r.is_err());
                } else {
                    let zeros = if height > 288 { 8 } else { 4 };
                    assert_eq!(r.unwrap().1, vec![0u8; zeros]);
                }
            }
        }
    }
}

#[test]
fn truncated_frames_read_zeros() {
    let pixels = generated(21, 16 * 3 * 4);
    let (strf, frame) = encode_frame(PixelFamily::Rgb24, Method::Left, 16, 4, &pixels).unwrap();
    let cfg = StreamConfig::parse_bitmapinfoheader(&strf).unwrap();
    for cut in 0..4 {
        assert!(decode_frame(&cfg, &frame[..cut]).is_err());
    }
    let mut padded = frame[..frame.len() / 2].to_vec();
    let short = decode_frame(&cfg, &padded).map(|f| f.pixels);
    padded.resize(frame.len(), 0);
    let long = decode_frame(&cfg, &padded).map(|f| f.pixels);
    assert_eq!(short, long);
}
