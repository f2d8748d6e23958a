//! The sizes of residuals.

use oxideav_huffyuv::encoder::{rgb24_residuals, rgb32_residuals, yuy2_residuals};
use oxideav_huffyuv::header::{Method, PixelFamily};

fn synth(n: usize, mut s: u32) -> Vec<u8> {
    let mut out = vec![0u8; n];
    for slot in out.iter_mut() {
        s ^= s << 13;
        s ^= s >> 17;
        s ^= s << 5;
        *slot = s as u8;
    }
    out
}

#[test]
fn round262_residuals_size_contract_matches_family_row_bytes() {
    let cases: [(PixelFamily, Method, u32, u32); 3] = [
        (PixelFamily::Yuy2, Method::Left, 4, 3),
        (PixelFamily::Rgb24, Method::Left, 5, 2),
        (PixelFamily::Rgb32, Method::Left, 3, 4),
    ];
    for (family, method, w, h) in cases {
        let exact = family.row_bytes(w) * h as usize;
        let good = synth(exact, 0xBEEF_CAFE);
        let call = |buf: &[u8]| match family {
            PixelFamily::Yuy2 => yuy2_residuals(method, w, h, buf),
            PixelFamily::Rgb24 => rgb24_residuals(method, w, h, buf),
            PixelFamily::Rgb32 => rgb32_residuals(method, w, h, buf),
        };
        assert!(
            call(&good).is_ok(),
            "{family:?}: row_bytes-sized buffer must be accepted"
        );
        assert!(
            call(&good[..exact - 1]).is_err(),
            "{family:?}: one-short buffer must be rejected"
        );
        let long = synth(exact + 1, 0xBEEF_CAFE);
        assert!(
            call(&long).is_err(),
            "{family:?}: one-long buffer must be rejected"
        );
    }
}

#[test]
fn round262_residual_body_len_follows_bytes_per_pixel_step() {
    let yw = 4u32;
    let yh = 3u32;
    let ypix = synth(PixelFamily::Yuy2.row_bytes(yw) * yh as usize, 0x1357_9BDF);
    let yres = yuy2_residuals(Method::Left, yw, yh, &ypix).expect("yuy2");
    assert_eq!(
        yres.body.len(),
        PixelFamily::Yuy2.row_bytes(yw) * yh as usize - 4
    );

    for (family, method) in [
        (PixelFamily::Rgb24, Method::Left),
        (PixelFamily::Rgb24, Method::LeftDecorr),
        (PixelFamily::Rgb32, Method::Left),
        (PixelFamily::Rgb32, Method::GradientDecorr),
    ] {
        let (w, h) = (5u32, 3u32);
        let pix = synth(family.row_bytes(w) * h as usize, 0x2468_ACE0);
        let res = match family {
            PixelFamily::Rgb24 => rgb24_residuals(method, w, h, &pix),
            PixelFamily::Rgb32 => rgb32_residuals(method, w, h, &pix),
            PixelFamily::Yuy2 => unreachable!(),
        }
        .expect("residuals");
        let n_pixels = (w * h) as usize;
        assert_eq!(
            res.body.len(),
            (n_pixels - 1) * family.bytes_per_pixel_step(),
            "{family:?}/{method:?}: body length must be (n_pixels − 1) × step"
        );
    }
}
