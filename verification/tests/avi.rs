//! The AVI container.

use oxideav_huffyuv::avi::{AviVideoStream, build_minimal_avi, push_chunk, push_list};
use oxideav_huffyuv::decoder::decode_frame;
use oxideav_huffyuv::encoder::encode_frame;
use oxideav_huffyuv::error::Error;
use oxideav_huffyuv::header::{Method, PixelFamily, StreamConfig};

fn synth_yuy2(w: usize, h: usize) -> Vec<u8> {
    let mut v = vec![0u8; w * 2 * h];
    for row in 0..h {
        for col in 0..(w * 2) {
            v[row * w * 2 + col] = ((row * 11 + col * 17) & 0xFF) as u8;
        }
    }
    v
}

#[test]
fn roundtrip_self_authored_avi_yuy2_left_2_frames() {
    let pixels = synth_yuy2(8, 4);
    let (strf, frame) = encode_frame(PixelFamily::Yuy2, Method::Left, 8, 4, &pixels).unwrap();
    let avi = build_minimal_avi(&strf, &[frame.clone(), frame.clone()], 8, 4);
    let stream = AviVideoStream::parse(&avi).unwrap().expect("video stream");

    let cfg = StreamConfig::parse_bitmapinfoheader(stream.bitmap_info_header).unwrap();
    let mut count = 0;
    let mut frames = stream.frames();
    while let Some(f) = frames.next() {
        let f = f.unwrap();
        assert_eq!(&f.chunk_id, b"00dc");
        let out = decode_frame(&cfg, f.payload).unwrap();
        assert_eq!(out.pixels, pixels);
        count += 1;
    }
    assert_eq!(count, 2);
}

#[test]
fn riff_walker_rejects_non_riff() {
    let err = AviVideoStream::parse(b"RIFXfoo").unwrap_err();
    assert!(matches!(err, Error::InvalidData(_)));
}

#[test]
fn riff_walker_returns_none_when_no_video_stream() {
    let mut riff = Vec::new();
    riff.extend_from_slice(b"RIFF");
    riff.extend_from_slice(&4u32.to_le_bytes());
    riff.extend_from_slice(b"AVI ");
    let opt = AviVideoStream::parse(&riff).unwrap();
    assert!(opt.is_none());
}

#[test]
fn riff_walker_skips_non_video_frame_chunks_in_movi() {
    let pixels = synth_yuy2(4, 4);
    let (strf, frame) = encode_frame(PixelFamily::Yuy2, Method::Left, 4, 4, &pixels).unwrap();

    let mut movi = Vec::new();
    movi.extend_from_slice(b"movi");
    push_chunk(&mut movi, b"00dc", &frame);
    push_chunk(&mut movi, b"01wb", &[0xAAu8; 7]);
    push_chunk(&mut movi, b"00dc", &frame);
    let mut hdrl = Vec::new();
    hdrl.extend_from_slice(b"hdrl");

    let mut avih = vec![0u8; 56];
    avih[16..20].copy_from_slice(&2u32.to_le_bytes());
    avih[24..28].copy_from_slice(&1u32.to_le_bytes());
    avih[32..36].copy_from_slice(&4u32.to_le_bytes());
    avih[36..40].copy_from_slice(&4u32.to_le_bytes());
    push_chunk(&mut hdrl, b"avih", &avih);
    let mut strh = vec![0u8; 56];
    strh[..4].copy_from_slice(b"vids");
    strh[4..8].copy_from_slice(b"HFYU");
    let mut strl = Vec::new();
    strl.extend_from_slice(b"strl");
    push_chunk(&mut strl, b"strh", &strh);
    push_chunk(&mut strl, b"strf", &strf);
    push_list(&mut hdrl, &strl);
    let mut riff_payload = Vec::new();
    riff_payload.extend_from_slice(b"AVI ");
    push_list(&mut riff_payload, &hdrl);
    push_list(&mut riff_payload, &movi);
    let mut out = Vec::new();
    out.extend_from_slice(b"RIFF");
    out.extend_from_slice(&(riff_payload.len() as u32).to_le_bytes());
    out.extend_from_slice(&riff_payload);
    let stream = AviVideoStream::parse(&out).unwrap().expect("video stream");
    let cfg = StreamConfig::parse_bitmapinfoheader(stream.bitmap_info_header).unwrap();
    let mut walker = stream.frames();
    let mut frames = Vec::new();
    while let Some(f) = walker.next() {
        frames.push(f.unwrap());
    }
    assert_eq!(frames.len(), 2, "audio chunk must be skipped");
    for f in &frames {
        let out = decode_frame(&cfg, f.payload).unwrap();
        assert_eq!(out.pixels, pixels);
    }
}

#[test]
fn the_first_video_stream_is_kept() {
    let hdrl = |strf: &[u8]| {
        let mut strh = vec![0u8; 56];
        strh[..4].copy_from_slice(b"vids");
        let mut strl = b"strl".to_vec();
        push_chunk(&mut strl, b"strh", &strh);
        push_chunk(&mut strl, b"strf", strf);
        let mut list = b"hdrl".to_vec();
        push_list(&mut list, &strl);
        list
    };
    let mut payload = b"AVI ".to_vec();
    push_list(&mut payload, &hdrl(&[1, 2, 3, 4]));
    push_list(&mut payload, &hdrl(&[5, 6, 7, 8]));
    push_list(&mut payload, b"movi");
    let mut file = Vec::new();
    push_chunk(&mut file, b"RIFF", &payload);
    let stream = AviVideoStream::parse(&file).unwrap().expect("video stream");
    assert_eq!(stream.bitmap_info_header, &[1, 2, 3, 4]);
    assert!(stream.movi_payload.is_empty());
}

#[test]
fn written_frames_are_found_in_turn() {
    let payloads: Vec<Vec<u8>> = vec![vec![], vec![1], vec![2, 3], vec![], vec![4, 5, 6], vec![7]];
    for n in 0..=payloads.len() {
        let frames = &payloads[..n];
        for strf in [vec![], vec![9u8], vec![8u8; 41]] {
            let file = build_minimal_avi(&strf, frames, 6, 2);
            assert_eq!(&file[..4], b"RIFF");
            assert_eq!(file[4..8], ((file.len() - 8) as u32).to_le_bytes());
            let stream = AviVideoStream::parse(&file).unwrap().expect("video stream");
            assert_eq!(stream.bitmap_info_header, &strf[..]);
            let mut walker = stream.frames();
            for f in frames {
                let found = walker.next().unwrap().unwrap();
                assert_eq!(&found.chunk_id, b"00dc");
                assert_eq!(found.payload, &f[..]);
            }
            assert!(walker.next().is_none());
            assert!(walker.next().is_none());
        }
    }
}
