//! What samples are predicted from, as numbers modulo 256.

use vstd::prelude::*;

use crate::frame_laws::{lemma_median, lemma_minus, lemma_row_and_column};
use crate::predict::{
    decorrelated, field, flag_for_height, gradient, gradient_residuals, interlaced_by_flag,
    interleaved, left_residuals, median, median_residuals, yuy2_left_residuals,
};
use crate::predictor::{
    behind, row_gradient_residuals, row_left_residuals, row_median_residuals,
};

verus! {

/// A sample less its prediction, for each of the three row predictors. Before the
/// first sample of a row the registers stand in for the samples that are missing.
pub proof fn law_row_values(row: Seq<u8>, top: Seq<u8>, left: u8, top_left: u8, i: int)
    requires
        row.len() == top.len(),
        0 <= i < row.len(),
    ensures
        ({
            let l = if i == 0 {
                left
            } else {
                row[i - 1]
            };
            let tl = if i == 0 {
                top_left
            } else {
                top[i - 1]
            };
            let t = top[i];
            let g = (l + t - tl) % 256;
            let m = if (l <= g <= t) || (t <= g <= l) {
                g
            } else if (g <= l <= t) || (t <= l <= g) {
                l as int
            } else {
                t as int
            };
            &&& row_left_residuals(row, left)[i] == (row[i] - l) % 256
            &&& row_gradient_residuals(row, top, left, top_left)[i] == (row[i] - l - t + tl) % 256
            &&& row_median_residuals(row, top, left, top_left)[i] == (row[i] - m) % 256
        }),
        row_left_residuals(row, left).len() == row.len(),
        row_gradient_residuals(row, top, left, top_left).len() == row.len(),
        row_median_residuals(row, top, left, top_left).len() == row.len(),
        behind(row, left) == row[row.len() - 1],
        behind(Seq::<u8>::empty(), left) == left,
{
    let l = if i == 0 {
        left
    } else {
        row[i - 1]
    };
    let tl = if i == 0 {
        top_left
    } else {
        top[i - 1]
    };
    let t = top[i];
    lemma_minus(row[i], l, row[i] as int, l as int);
    lemma_gradient(l, t, tl);
    lemma_minus(row[i], gradient(l, t, tl), row[i] as int, l + t - tl);
    lemma_median(l, t, tl);
    lemma_minus(row[i], median(l, t, tl), row[i] as int, median(l, t, tl) as int);
}

/// The gradient prediction as a number.
proof fn lemma_gradient(l: u8, t: u8, tl: u8)
    ensures
        gradient(l, t, tl) == (l + t - tl) % 256,
{
    assert(l.wrapping_add(t) == (l + t) % 256);
    lemma_minus(l.wrapping_add(t), tl, l + t, tl as int);
}

/// Differences over a whole raster: to the sample `n` places before, to the row
/// above, and to the last sample of the same component of YUY2 pixels, whose
/// luma comes every second byte and whose chroma every fourth.
pub proof fn law_raster_values(p: Seq<u8>, n: int, row_bytes: int, i: int)
    requires
        0 <= i < p.len(),
        n > 0,
        row_bytes > 0,
    ensures
        left_residuals(p, n).len() == p.len(),
        gradient_residuals(p, row_bytes).len() == p.len(),
        yuy2_left_residuals(p).len() == p.len(),
        left_residuals(p, n)[i] == (if i < n {
            p[i] as int
        } else {
            (p[i] - p[i - n]) % 256
        }),
        gradient_residuals(p, row_bytes)[i] == (if i < row_bytes {
            p[i] as int
        } else {
            (p[i] - p[i - row_bytes]) % 256
        }),
        yuy2_left_residuals(p)[i] == (if i < 4 {
            p[i] as int
        } else if i % 2 == 0 {
            (p[i] - p[i - 2]) % 256
        } else {
            (p[i] - p[i - 4]) % 256
        }),
{
    if i >= n {
        lemma_minus(p[i], p[i - n], p[i] as int, p[i - n] as int);
    }
    if i >= row_bytes {
        lemma_minus(p[i], p[i - row_bytes], p[i] as int, p[i - row_bytes] as int);
    }
    if i >= 4 {
        lemma_minus(p[i], p[i - 2], p[i] as int, p[i - 2] as int);
        lemma_minus(p[i], p[i - 4], p[i] as int, p[i - 4] as int);
    }
}

/// Median differences are left differences in the first row and in the first
/// eight bytes of the second, and over all of a raster that ends there. From
/// there on the prediction is the middle one of the value two bytes before, the
/// value above, and the first plus the second less the value above the first.
pub proof fn law_median_values(p: Seq<u8>, row_bytes: int, height: int, i: int)
    requires
        row_bytes > 0,
        height > 0,
        p.len() == row_bytes * height,
        0 <= i < p.len(),
    ensures
        median_residuals(p, row_bytes, height).len() == p.len(),
        median_residuals(p, row_bytes, height)[i] == (if i < row_bytes + 8 {
            yuy2_left_residuals(p)[i] as int
        } else {
            let l = p[i - 2];
            let t = p[i - row_bytes];
            let g = (l + t - p[i - row_bytes - 2]) % 256;
            if (l <= g <= t) || (t <= g <= l) {
                (p[i] - g) % 256
            } else if (g <= l <= t) || (t <= l <= g) {
                (p[i] - l) % 256
            } else {
                (p[i] - t) % 256
            }
        }),
{
    if i >= row_bytes + 8 {
        if height < 2 {
            assert(row_bytes * height == row_bytes) by (nonlinear_arith)
                requires
                    height == 1,
            ;
        }
        let (l, t, tl) = (p[i - 2], p[i - row_bytes], p[i - row_bytes - 2]);
        lemma_median(l, t, tl);
        lemma_minus(p[i], median(l, t, tl), p[i] as int, median(l, t, tl) as int);
    }
}

/// Decorrelation takes the green byte, the second of a pixel, from the blue and
/// the red byte around it. Green, alpha and the bytes of a pixel that is cut off
/// stay.
pub proof fn law_decorrelated_values(p: Seq<u8>, n: int, i: int)
    requires
        n == 3 || n == 4,
        0 <= i < p.len(),
    ensures
        decorrelated(p, n).len() == p.len(),
        ({
            let pixel = i - i % n;
            decorrelated(p, n)[i] == (if pixel + n <= p.len() && (i == pixel || i == pixel + 2) {
                (p[i] - p[pixel + 1]) % 256
            } else {
                p[i] as int
            })
        }),
{
    let pixel = i - i % n;
    if pixel + n <= p.len() {
        lemma_minus(p[i], p[pixel + 1], p[i] as int, p[pixel + 1] as int);
    }
}

/// A flag with a high nibble of one asks for interlaced frames, and one with a
/// high nibble of two for progressive ones, whatever the height. With any other
/// flag, frames of more than 288 rows are interlaced. The flag written for a
/// height says the same.
pub proof fn law_interlace_flags(flag: u8, height: u32)
    ensures
        0x10 <= flag <= 0x1F ==> interlaced_by_flag(flag, height),
        0x20 <= flag <= 0x2F ==> !interlaced_by_flag(flag, height),
        flag < 0x10 || flag > 0x2F ==> interlaced_by_flag(flag, height) == (height > 288),
        flag_for_height(height) == (if height > 288 {
            0x10u8
        } else {
            0x20u8
        }),
{
}

/// A field holds every second row: row `r` of the field of parity `k` is row
/// `2 * r + k` of the frame. Interleaving puts the rows back in their places.
pub proof fn law_field_bytes(
    p: Seq<u8>,
    top: Seq<u8>,
    bot: Seq<u8>,
    row_bytes: int,
    height: int,
    k: int,
    r: int,
    c: int,
)
    requires
        row_bytes > 0,
        p.len() == row_bytes * height,
        top.len() == row_bytes * ((height + 1) / 2),
        bot.len() == row_bytes * (height / 2),
        k == 0 || k == 1,
        r >= 0,
        2 * r + k < height,
        0 <= c < row_bytes,
    ensures
        field(p, row_bytes, height, k).len() == row_bytes * ((height + 1 - k) / 2),
        field(p, row_bytes, height, k)[row_bytes * r + c] == p[row_bytes * (2 * r + k) + c],
        interleaved(top, bot, row_bytes, height).len() == row_bytes * height,
        interleaved(top, bot, row_bytes, height)[row_bytes * (2 * r + k) + c] == (if k == 0 {
            top[row_bytes * r + c]
        } else {
            bot[row_bytes * r + c]
        }),
{
    lemma_row_and_column(row_bytes, height, 2 * r + k, c);
    lemma_row_and_column(row_bytes, (height + 1 - k) / 2, r, c);
    assert(row_bytes * ((height + 1 - k) / 2) >= 0);
}

} // verus!
