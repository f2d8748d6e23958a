//! FFVHuff extradata.

use oxideav_huffyuv::extradata::{Extradata, FormatVersion, InterlaceMode, Predictor, V2Colorspace};

fn rle_encode(lengths: &[u8]) -> Vec<u8> {
    let mut out = Vec::new();
    let mut i = 0;
    while i < lengths.len() {
        let v = lengths[i];
        let mut run = 1usize;
        while i + run < lengths.len() && lengths[i + run] == v && run < 255 {
            run += 1;
        }
        if run < 8 {
            out.push((v & 0x1F) | ((run as u8) << 5));
        } else {
            out.push(v & 0x1F);
            out.push(run as u8);
        }
        i += run;
    }
    out
}

fn synth_v2_yuv422_extradata() -> Vec<u8> {
    let lens = vec![8u8; 256];
    let rle_blob = rle_encode(&lens);
    let mut out = vec![0x00u8, 0x10, 0x20, 0x00];
    for _ in 0..3 {
        out.extend_from_slice(&rle_blob);
    }
    out
}

#[test]
fn parses_v2_yuv422() {
    let blob = synth_v2_yuv422_extradata();
    let parsed = Extradata::parse(&blob).unwrap();
    assert_eq!(parsed.predictor, Predictor::Left);
    assert!(!parsed.decorrelate);
    assert_eq!(parsed.tables.len(), 3);
    assert_eq!(parsed.bits_per_sample(), 8);
    match parsed.format {
        FormatVersion::V2(V2Colorspace::Yuv422) => {}
        other => panic!("expected V2 Yuv422, got {other:?}"),
    }
}

#[test]
fn parses_v3_gray8_header_bytes() {
    let lens = vec![8u8; 256];
    let rle_blob = rle_encode(&lens);
    let mut blob = vec![0x00u8, 0x70, 0x20, 0x01];
    blob.extend_from_slice(&rle_blob);
    let parsed = Extradata::parse(&blob).unwrap();
    match parsed.format {
        FormatVersion::V3(v) => {
            assert_eq!(v.bps, 8);
            assert!(!v.chroma);
            assert!(!v.alpha);
            assert!(!v.yuv);
        }
        other => panic!("expected V3, got {other:?}"),
    }
    assert_eq!(parsed.interlace, InterlaceMode::Progressive);
    assert_eq!(parsed.tables.len(), 1);
}
