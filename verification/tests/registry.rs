//! Encoders and decoders of streams.

use oxideav_huffyuv::encoder::{
    encode_frame_auto, encode_frame_with_mode, ExtradataMode, MethodSelection,
};
use oxideav_huffyuv::header::{Method, PixelFamily};
use oxideav_huffyuv::registry::{
    family_from_pixel_format, make_decoder, make_encoder, packet_time_base,
    pixel_format_for_family, CodecError, HuffYuvEncoder, HuffYuvEncoderOptions, InputFormat,
    InputFrame, CODEC_ID_STR,
};

fn synth_pixels(width: u32, height: u32, family: PixelFamily, salt: u32) -> Vec<u8> {
    let mut s: u32 = 0x0429_c0de ^ salt;
    let mut pixels = vec![0u8; family.row_bytes(width) * height as usize];
    for slot in pixels.iter_mut() {
        s ^= s << 13;
        s ^= s >> 17;
        s ^= s << 5;
        *slot = s as u8;
    }
    pixels
}

fn family_opt(f: PixelFamily) -> &'static str {
    match f {
        PixelFamily::Yuy2 => "yuy2",
        PixelFamily::Rgb24 => "rgb24",
        PixelFamily::Rgb32 => "rgb32",
    }
}

fn method_opt(m: Method) -> &'static str {
    match m {
        Method::PredictOld => "predict-old",
        Method::Left => "left",
        Method::Gradient => "gradient",
        Method::Median => "median",
        Method::LeftDecorr => "left-decorr",
        Method::GradientDecorr => "gradient-decorr",
    }
}

fn mode_opt(m: ExtradataMode) -> &'static str {
    match m {
        ExtradataMode::ClassicV2 => "classic-v2",
        ExtradataMode::CustomV2 => "custom-v2",
        ExtradataMode::V1xCompat => "v1x",
    }
}

#[derive(Clone)]
struct Params {
    width: Option<u32>,
    height: Option<u32>,
    pixel_format: Option<InputFormat>,
    options: Vec<(&'static str, &'static str)>,
}

impl Params {
    fn insert(&mut self, key: &'static str, value: &'static str) {
        self.options.retain(|(k, _)| *k != key);
        self.options.push((key, value));
    }

    fn make(&self) -> Result<HuffYuvEncoder, CodecError> {
        let mut opts = HuffYuvEncoderOptions::default();
        for (key, value) in &self.options {
            opts.apply(key, value)?;
        }
        make_encoder(&opts, self.width, self.height, self.pixel_format)
    }
}

fn encoder_params(
    family: PixelFamily,
    width: u32,
    height: u32,
    method: Option<Method>,
    mode: ExtradataMode,
) -> Params {
    let mut params = Params {
        width: Some(width),
        height: Some(height),
        pixel_format: None,
        options: Vec::new(),
    };
    params.insert("format", family_opt(family));
    params.insert("mode", mode_opt(mode));
    if let Some(m) = method {
        params.insert("method", method_opt(m));
    }
    params
}

fn video_frame(family: PixelFamily, width: u32, pixels: &[u8], pts: i64) -> InputFrame<'_> {
    InputFrame::Video {
        planes: 1,
        stride: family.row_bytes(width),
        data: pixels,
        pts: Some(pts),
    }
}

fn encode_one(enc: &mut HuffYuvEncoder, frame: &InputFrame) -> (Vec<u8>, Option<i64>) {
    enc.send_frame(frame).expect("send_frame");
    enc.receive_packet().expect("receive_packet")
}

fn decode_one(strf: &[u8], packet: &[u8]) -> Vec<u8> {
    let mut dec = make_decoder(strf).expect("make_decoder");
    dec.send_packet(packet, None).expect("send_packet");
    dec.receive_frame().expect("receive_frame").data
}

fn legal_methods(family: PixelFamily) -> Vec<Method> {
    [
        Method::PredictOld,
        Method::Left,
        Method::Gradient,
        Method::Median,
        Method::LeftDecorr,
        Method::GradientDecorr,
    ]
    .into_iter()
    .filter(|m| {
        if family.is_rgb() {
            m.is_rgb_legal()
        } else {
            m.is_yuv_legal()
        }
    })
    .collect()
}

#[test]
fn round420_execution_context_budget_output_invariant() {
    for (w, h, label) in [(32u32, 292u32, "interlaced"), (48, 32, "progressive")] {
        let mut s: u32 = 0x0420_c0de;
        let mut pixels = vec![0u8; (w as usize) * (h as usize) * 2];
        for slot in pixels.iter_mut() {
            s ^= s << 13;
            s ^= s >> 17;
            s ^= s << 5;
            *slot = s as u8;
        }
        let (strf, frame_bytes) = encode_frame_with_mode(
            PixelFamily::Yuy2,
            Method::Median,
            w,
            h,
            &pixels,
            ExtradataMode::ClassicV2,
        )
        .expect("encode");

        let decode_with = |budget: Option<usize>| -> Vec<u8> {
            let mut dec = make_decoder(&strf).expect("make_decoder");
            if let Some(threads) = budget {
                dec.set_execution_context(threads);
            }
            dec.send_packet(&frame_bytes, Some(0)).expect("send_packet");
            dec.receive_frame().expect("receive_frame").data
        };

        let serial = decode_with(None);
        let budget1 = decode_with(Some(1));
        let budget2 = decode_with(Some(2));
        let budget8 = decode_with(Some(8));
        assert_eq!(serial, budget1, "{label}: explicit budget-1 diverged");
        assert_eq!(serial, budget2, "{label}: budget-2 diverged");
        assert_eq!(serial, budget8, "{label}: clamped budget-8 diverged");
        assert_eq!(serial, pixels, "{label}: registry decode must be lossless");
    }
}

#[test]
fn round429_trait_encode_matches_direct_api() {
    for (w, h) in [(16u32, 8u32), (16, 290)] {
        for family in [PixelFamily::Yuy2, PixelFamily::Rgb24, PixelFamily::Rgb32] {
            let pixels = synth_pixels(w, h, family, w ^ h);
            for method in legal_methods(family) {
                for mode in [
                    ExtradataMode::ClassicV2,
                    ExtradataMode::CustomV2,
                    ExtradataMode::V1xCompat,
                ] {
                    let scenario = format!("{family:?}/{method:?}/{mode:?}/{w}x{h}");
                    let (strf, bytes) = encode_frame_with_mode(family, method, w, h, &pixels, mode)
                        .expect("direct encode");
                    let params = encoder_params(family, w, h, Some(method), mode);
                    let mut enc = params.make().expect("make_encoder");
                    let (packet, _) = encode_one(&mut enc, &video_frame(family, w, &pixels, 0));
                    assert_eq!(packet, bytes, "{scenario}: wire bytes diverged");
                    assert_eq!(enc.extradata(), strf, "{scenario}: strf diverged");
                    assert_eq!(
                        decode_one(enc.extradata(), &packet),
                        pixels,
                        "{scenario}: registry loop not lossless"
                    );
                }
            }
        }
    }
}

#[test]
fn round429_trait_budget_output_invariant() {
    for (w, h, label) in [(16u32, 290u32, "interlaced"), (16, 8, "progressive")] {
        for method in [Some(Method::Median), None] {
            let family = PixelFamily::Yuy2;
            let pixels = synth_pixels(w, h, family, 0xb0d6e7);
            let encode_with = |budget: Option<usize>| -> (Vec<u8>, Vec<u8>) {
                let params = encoder_params(family, w, h, method, ExtradataMode::ClassicV2);
                let mut enc = params.make().expect("make_encoder");
                if let Some(threads) = budget {
                    enc.set_execution_context(threads);
                }
                let (packet, _) = encode_one(&mut enc, &video_frame(family, w, &pixels, 0));
                (enc.extradata().to_vec(), packet)
            };
            let serial = encode_with(None);
            for budget in [1usize, 2, 8] {
                assert_eq!(
                    encode_with(Some(budget)),
                    serial,
                    "{label}/method={method:?}: budget-{budget} diverged"
                );
            }
        }
    }
}

#[test]
fn round429_auto_method_pins_stream() {
    for family in [PixelFamily::Yuy2, PixelFamily::Rgb32] {
        let (w, h) = (16u32, 12u32);
        let frame1 = synth_pixels(w, h, family, 1);
        let frame2 = synth_pixels(w, h, family, 2);
        let (strf, bytes1, chosen) = encode_frame_auto(
            family,
            MethodSelection::Auto,
            w,
            h,
            &frame1,
            ExtradataMode::ClassicV2,
        )
        .expect("direct auto");
        let (_, bytes2) =
            encode_frame_with_mode(family, chosen, w, h, &frame2, ExtradataMode::ClassicV2)
                .expect("direct pinned second frame");

        let params = encoder_params(family, w, h, None, ExtradataMode::ClassicV2);
        let mut enc = params.make().expect("make_encoder");
        assert!(
            enc.extradata().is_empty(),
            "auto extradata must finalize on the first frame, not before"
        );
        assert_eq!(enc.method(), None);
        let (packet1, _) = encode_one(&mut enc, &video_frame(family, w, &frame1, 0));
        assert_eq!(packet1, bytes1, "{family:?}: first frame differs from direct auto");
        assert_eq!(enc.extradata(), strf);
        assert_eq!(enc.method(), Some(chosen));
        let (packet2, _) = encode_one(&mut enc, &video_frame(family, w, &frame2, 1));
        assert_eq!(
            packet2, bytes2,
            "{family:?}: second frame not pinned to the auto winner"
        );

        for (packet, pixels) in [(&packet1, &frame1), (&packet2, &frame2)] {
            assert_eq!(
                &decode_one(enc.extradata(), packet),
                pixels,
                "{family:?}: stream not lossless"
            );
        }
    }
}

#[test]
fn round429_custom_v2_stream_pins_tables() {
    let family = PixelFamily::Yuy2;
    let (w, h) = (16u32, 8u32);
    let flat = vec![0x80u8; family.row_bytes(w) * h as usize];
    let noisy = synth_pixels(w, h, family, 3);

    let params = encoder_params(family, w, h, Some(Method::Left), ExtradataMode::CustomV2);
    let mut enc = params.make().expect("make_encoder");
    assert!(
        enc.extradata().is_empty(),
        "custom-v2 extradata must finalize on the first frame"
    );
    let (packet1, _) = encode_one(&mut enc, &video_frame(family, w, &flat, 0));
    let strf = enc.extradata().to_vec();
    assert!(!strf.is_empty());

    let (packet2, _) = encode_one(&mut enc, &video_frame(family, w, &flat, 1));
    assert_eq!(packet1, packet2, "pinned tables must be deterministic");
    assert_eq!(enc.extradata(), strf);

    let err = enc
        .send_frame(&video_frame(family, w, &noisy, 2))
        .expect_err("uncovered residual symbols must be rejected");
    assert!(
        err.message().contains("pinned"),
        "unexpected error: {}",
        err.message()
    );

    assert_eq!(
        decode_one(enc.extradata(), &packet1),
        flat,
        "custom-v2 stream not lossless"
    );
}

#[test]
fn round429_make_encoder_validation() {
    let base = |mutate: &dyn Fn(&mut Params)| {
        let mut params = encoder_params(
            PixelFamily::Yuy2,
            16,
            8,
            Some(Method::Left),
            ExtradataMode::ClassicV2,
        );
        mutate(&mut params);
        params.make()
    };

    assert!(base(&|_| {}).is_ok());

    assert!(base(&|p| p.insert("nope", "1")).is_err());

    assert!(base(&|p| p.insert("mode", "v2")).is_err());

    assert!(base(&|p| p.width = None).is_err());
    assert!(base(&|p| p.height = Some(0)).is_err());

    assert!(base(&|p| p.width = Some(15)).is_err());

    assert!(base(&|p| p.pixel_format = Some(InputFormat::Bgr24)).is_err());

    assert!(base(&|p| p.pixel_format = Some(InputFormat::Yuyv422)).is_ok());

    assert!(base(&|p| p.insert("method", "median")).is_ok());
    assert!(base(&|p| {
        p.insert("format", "rgb24");
        p.insert("method", "median");
    })
    .is_err());

    let mut bare = Params {
        width: Some(16),
        height: Some(8),
        pixel_format: None,
        options: Vec::new(),
    };
    assert!(matches!(bare.make(), Err(CodecError::Invalid(_))));

    bare.pixel_format = Some(InputFormat::Other);
    assert!(matches!(bare.make(), Err(CodecError::Unsupported(_))));

    bare.pixel_format = Some(InputFormat::Bgra);
    let enc = bare.make().expect("family from pixel_format");
    assert_eq!(
        pixel_format_for_family(enc.family()),
        InputFormat::Bgra,
        "the encoder must take the input family"
    );
}

#[test]
fn round429_encoder_lifecycle_and_metadata() {
    let family = PixelFamily::Yuy2;
    let (w, h) = (16u32, 8u32);
    let pixels = synth_pixels(w, h, family, 4);
    let params = encoder_params(family, w, h, Some(Method::Left), ExtradataMode::ClassicV2);
    let mut enc = params.make().expect("make_encoder");

    assert!(!enc.extradata().is_empty());
    assert_eq!(enc.width(), w);
    assert_eq!(enc.height(), h);
    assert_eq!(CODEC_ID_STR, "huffyuv");

    assert!(matches!(enc.receive_packet(), Err(CodecError::NeedMore)));

    let frame = video_frame(family, w, &pixels, 42);
    enc.send_frame(&frame).expect("send_frame");

    assert!(matches!(enc.send_frame(&frame), Err(CodecError::Other(_))));
    let (_, pts) = enc.receive_packet().expect("receive_packet");
    assert_eq!(pts, Some(42), "pts must pass through verbatim");
    assert_eq!(
        packet_time_base(Some((30, 1))),
        (1, 30),
        "declared frame rate must become the packet time base"
    );
    assert!(matches!(enc.receive_packet(), Err(CodecError::NeedMore)));

    let bad_stride = InputFrame::Video {
        planes: 1,
        stride: family.row_bytes(w) + 2,
        data: &pixels,
        pts: None,
    };
    assert!(enc.send_frame(&bad_stride).is_err());
    let bad_len = InputFrame::Video {
        planes: 1,
        stride: family.row_bytes(w),
        data: &pixels[..pixels.len() - 2],
        pts: None,
    };
    assert!(enc.send_frame(&bad_len).is_err());

    enc.flush();
    assert!(matches!(enc.receive_packet(), Err(CodecError::Eof)));
    assert!(enc.send_frame(&frame).is_err());
}

#[test]
fn time_base_falls_back_to_microseconds() {
    assert_eq!(packet_time_base(None), (1, 1_000_000));
    assert_eq!(packet_time_base(Some((0, 1))), (1, 1_000_000));
    assert_eq!(packet_time_base(Some((30, -1))), (1, 1_000_000));
    assert_eq!(packet_time_base(Some((30000, 1001))), (1001, 30000));
}

#[test]
fn pixel_formats_and_families_match() {
    for family in [PixelFamily::Yuy2, PixelFamily::Rgb24, PixelFamily::Rgb32] {
        assert_eq!(
            family_from_pixel_format(pixel_format_for_family(family)),
            Some(family)
        );
    }
    assert_eq!(family_from_pixel_format(InputFormat::Other), None);
}

#[test]
fn options_by_name() {
    let mut opts = HuffYuvEncoderOptions::default();
    assert_eq!((opts.format, opts.method), (None, None));
    assert_eq!(opts.mode, ExtradataMode::ClassicV2);
    opts.apply("format", "rgb32").unwrap();
    opts.apply("method", "gradient-decorr").unwrap();
    opts.apply("mode", "custom-v2").unwrap();
    assert_eq!(opts.format, Some(PixelFamily::Rgb32));
    assert_eq!(opts.method, Some(Method::GradientDecorr));
    assert_eq!(opts.mode, ExtradataMode::CustomV2);
    for (key, value) in [("format", "rgb"), ("method", ""), ("mode", "auto"), ("fmt", "auto")] {
        assert!(matches!(
            opts.apply(key, value),
            Err(CodecError::Invalid(_))
        ));
    }
    assert_eq!(opts.method, Some(Method::GradientDecorr));
    opts.apply("method", "auto").unwrap();
    assert_eq!(opts.method, None);
}

#[test]
fn a_refused_frame_leaves_the_stream_as_it_was() {
    let family = PixelFamily::Rgb24;
    let pixels = synth_pixels(4, 4, family, 9);
    let params = encoder_params(family, 4, 4, None, ExtradataMode::CustomV2);
    let mut enc = params.make().unwrap();
    for frame in [
        InputFrame::NotVideo,
        InputFrame::Video {
            planes: 3,
            stride: 12,
            data: &pixels,
            pts: None,
        },
    ] {
        assert!(matches!(
            enc.send_frame(&frame),
            Err(CodecError::Invalid(_))
        ));
        assert!(enc.extradata().is_empty());
        assert_eq!(enc.method(), None);
    }
    let (packet, _) = encode_one(&mut enc, &video_frame(family, 4, &pixels, 0));
    assert_eq!(decode_one(enc.extradata(), &packet), pixels);
}

#[test]
fn decoder_lifecycle() {
    assert!(matches!(
        make_decoder(&[0u8; 10]),
        Err(CodecError::Invalid(_))
    ));
    let mut blind = make_decoder(&[]).unwrap();
    blind.send_packet(&[0u8; 8], None).unwrap();
    assert!(matches!(
        blind.receive_frame(),
        Err(CodecError::Invalid(_))
    ));

    let family = PixelFamily::Rgb24;
    let pixels = synth_pixels(5, 3, family, 7);
    let (strf, bytes) =
        encode_frame_with_mode(family, Method::Left, 5, 3, &pixels, ExtradataMode::ClassicV2)
            .unwrap();
    let mut dec = make_decoder(&strf).unwrap();
    assert!(matches!(dec.receive_frame(), Err(CodecError::NeedMore)));
    dec.send_packet(&bytes, Some(5)).unwrap();
    assert!(matches!(
        dec.send_packet(&bytes, Some(6)),
        Err(CodecError::Other(_))
    ));
    let frame = dec.receive_frame().unwrap();
    assert_eq!((frame.pts, frame.stride), (Some(5), 15));
    assert_eq!(frame.data, pixels);
    dec.send_packet(&bytes[..2], None).unwrap();
    assert!(matches!(dec.receive_frame(), Err(CodecError::Invalid(_))));
    dec.flush();
    assert!(matches!(dec.receive_frame(), Err(CodecError::Eof)));
}
