//! Per-channel predictors, colour decorrelation, and field splitting.
//!
//! All arithmetic is modulo 256. For each transform the residuals of a raster
//! are a function of the raster; the forward routines compute them, and the
//! inverse routines find, in place, the raster whose residuals were given.
//!
//! Frames of more than 288 rows are coded as two fields, the even and the odd
//! rows, which are predicted independently.

use vstd::prelude::*;

verus! {

// ---------------------------------------------------------------------------
// Residuals
// ---------------------------------------------------------------------------

/// The value between the other two.
pub open spec fn middle(x: u8, y: u8, z: u8) -> u8 {
    if (x <= y <= z) || (z <= y <= x) {
        y
    } else if (y <= x <= z) || (z <= x <= y) {
        x
    } else {
        z
    }
}

/// `left + above - above_left`.
pub open spec fn gradient(left: u8, above: u8, above_left: u8) -> u8 {
    left.wrapping_add(above).wrapping_sub(above_left)
}

/// The median of the left, the above and the gradient value.
pub open spec fn median(left: u8, above: u8, above_left: u8) -> u8 {
    middle(left, above, gradient(left, above, above_left))
}

/// Differences to the value `n` places before; the first `n` values stay.
pub open spec fn left_residuals(p: Seq<u8>, n: int) -> Seq<u8> {
    Seq::new(
        p.len(),
        |i: int|
            if i < n {
                p[i]
            } else {
                p[i].wrapping_sub(p[i - n])
            },
    )
}

/// Differences to the row above; the first row stays.
pub open spec fn gradient_residuals(p: Seq<u8>, row_bytes: int) -> Seq<u8> {
    left_residuals(p, row_bytes)
}

/// How far back the previous sample of the same YUY2 component lies.
pub open spec fn yuy2_stride(i: int) -> int {
    if i % 2 == 0 {
        2
    } else {
        4
    }
}

/// Differences to the previous sample of the same YUY2 component; the first
/// macropixel stays.
pub open spec fn yuy2_left_residuals(p: Seq<u8>) -> Seq<u8> {
    Seq::new(
        p.len(),
        |i: int|
            if i < 4 {
                p[i]
            } else {
                p[i].wrapping_sub(p[i - yuy2_stride(i)])
            },
    )
}

/// Where median prediction begins: eight bytes into the second row.
pub open spec fn median_start(len: int, row_bytes: int, height: int) -> int {
    if height < 2 || row_bytes == 0 || row_bytes + 8 > len {
        len
    } else {
        row_bytes + 8
    }
}

/// Left differences up to [`median_start`], and differences to the median from
/// there on.
pub open spec fn median_residuals(p: Seq<u8>, row_bytes: int, height: int) -> Seq<u8> {
    Seq::new(
        p.len(),
        |i: int|
            if i < median_start(p.len() as int, row_bytes, height) {
                yuy2_left_residuals(p)[i]
            } else {
                p[i].wrapping_sub(median(p[i - 2], p[i - row_bytes], p[i - row_bytes - 2]))
            },
    )
}

/// Byte `i` is the blue or the red byte of a whole pixel of `n` bytes.
pub open spec fn decorrelated_byte(len: int, n: int, i: int) -> bool {
    (i % n == 0 || i % n == 2) && i - i % n + n <= len
}

/// Green subtracted from blue and red in every whole pixel of `n` bytes.
pub open spec fn decorrelated(p: Seq<u8>, n: int) -> Seq<u8> {
    Seq::new(
        p.len(),
        |i: int|
            if decorrelated_byte(p.len() as int, n, i) {
                p[i].wrapping_sub(p[i - i % n + 1])
            } else {
                p[i]
            },
    )
}

// ---------------------------------------------------------------------------
// A raster is determined by its residuals
// ---------------------------------------------------------------------------

proof fn lemma_left_same(p: Seq<u8>, q: Seq<u8>, n: int, i: int)
    requires
        n > 0,
        p.len() == q.len(),
        left_residuals(p, n) == left_residuals(q, n),
        0 <= i < p.len(),
    ensures
        p[i] == q[i],
    decreases i,
{
    let (a, b) = (left_residuals(p, n)[i], left_residuals(q, n)[i]);
    if i >= n {
        lemma_left_same(p, q, n, i - n);
        assert(a == p[i].wrapping_sub(p[i - n]));
        assert(b == q[i].wrapping_sub(q[i - n]));
    } else {
        assert(a == p[i] && b == q[i]);
    }
}

/// Left residuals determine the raster.
pub proof fn law_left_residuals_determine(p: Seq<u8>, q: Seq<u8>, n: int)
    requires
        n > 0,
        left_residuals(p, n) == left_residuals(q, n),
    ensures
        p == q,
{
    assert(left_residuals(p, n).len() == p.len());
    assert(left_residuals(q, n).len() == q.len());
    assert forall|i: int| 0 <= i < p.len() implies p[i] == q[i] by {
        lemma_left_same(p, q, n, i);
    }
    assert(p =~= q);
}

/// Gradient residuals determine the raster.
pub proof fn law_gradient_residuals_determine(p: Seq<u8>, q: Seq<u8>, row_bytes: int)
    requires
        row_bytes > 0,
        gradient_residuals(p, row_bytes) == gradient_residuals(q, row_bytes),
    ensures
        p == q,
{
    law_left_residuals_determine(p, q, row_bytes);
}

proof fn lemma_yuy2_left_same(p: Seq<u8>, q: Seq<u8>, upto: int, i: int)
    requires
        p.len() == q.len(),
        upto <= p.len(),
        forall|k: int|
            0 <= k < upto ==> #[trigger] yuy2_left_residuals(p)[k] == yuy2_left_residuals(q)[k],
        0 <= i < upto,
    ensures
        p[i] == q[i],
    decreases i,
{
    assert(yuy2_left_residuals(p)[i] == yuy2_left_residuals(q)[i]);
    if i >= 4 {
        lemma_yuy2_left_same(p, q, upto, i - yuy2_stride(i));
    }
}

/// YUY2 left residuals determine the raster.
pub proof fn law_yuy2_left_residuals_determine(p: Seq<u8>, q: Seq<u8>)
    requires
        yuy2_left_residuals(p) == yuy2_left_residuals(q),
    ensures
        p == q,
{
    assert(yuy2_left_residuals(p).len() == p.len());
    assert(yuy2_left_residuals(q).len() == q.len());
    assert forall|i: int| 0 <= i < p.len() implies p[i] == q[i] by {
        lemma_yuy2_left_same(p, q, p.len() as int, i);
    }
    assert(p =~= q);
}

proof fn lemma_median_same(p: Seq<u8>, q: Seq<u8>, row_bytes: int, height: int, i: int)
    requires
        row_bytes >= 0,
        p.len() == q.len(),
        median_residuals(p, row_bytes, height) == median_residuals(q, row_bytes, height),
        0 <= i < p.len(),
    ensures
        p[i] == q[i],
    decreases i,
{
    let start = median_start(p.len() as int, row_bytes, height);
    let (a, b) = (median_residuals(p, row_bytes, height), median_residuals(q, row_bytes, height));
    if i < start {
        assert forall|k: int| 0 <= k < start implies #[trigger] yuy2_left_residuals(p)[k]
            == yuy2_left_residuals(q)[k] by {
            assert(a[k] == yuy2_left_residuals(p)[k]);
            assert(b[k] == yuy2_left_residuals(q)[k]);
        }
        lemma_yuy2_left_same(p, q, start, i);
    } else {
        lemma_median_same(p, q, row_bytes, height, i - 2);
        lemma_median_same(p, q, row_bytes, height, i - row_bytes);
        lemma_median_same(p, q, row_bytes, height, i - row_bytes - 2);
        let m = median(p[i - 2], p[i - row_bytes], p[i - row_bytes - 2]);
        assert(a[i] == p[i].wrapping_sub(m));
        assert(b[i] == q[i].wrapping_sub(m));
    }
}

/// Median residuals determine the raster.
pub proof fn law_median_residuals_determine(p: Seq<u8>, q: Seq<u8>, row_bytes: int, height: int)
    requires
        row_bytes >= 0,
        median_residuals(p, row_bytes, height) == median_residuals(q, row_bytes, height),
    ensures
        p == q,
{
    assert(median_residuals(p, row_bytes, height).len() == p.len());
    assert(median_residuals(q, row_bytes, height).len() == q.len());
    assert forall|i: int| 0 <= i < p.len() implies p[i] == q[i] by {
        lemma_median_same(p, q, row_bytes, height, i);
    }
    assert(p =~= q);
}

/// Median residuals are undone in two steps: a raster `q` with those left
/// residuals, and then a raster `f` whose median residuals are the left residuals
/// of `q`, which is the raster that the residuals were made of.
pub proof fn law_left_then_median_restores(
    p: Seq<u8>,
    q: Seq<u8>,
    f: Seq<u8>,
    row_bytes: int,
    height: int,
)
    requires
        row_bytes >= 0,
        yuy2_left_residuals(q) == median_residuals(p, row_bytes, height),
        median_residuals(f, row_bytes, height) == yuy2_left_residuals(q),
    ensures
        f == p,
{
    law_median_residuals_determine(f, p, row_bytes, height);
}

/// Decorrelated pixels determine the pixels.
pub proof fn law_decorrelated_determines(p: Seq<u8>, q: Seq<u8>, n: int)
    requires
        n == 3 || n == 4,
        decorrelated(p, n) == decorrelated(q, n),
    ensures
        p == q,
{
    assert(decorrelated(p, n).len() == p.len());
    assert(decorrelated(q, n).len() == q.len());
    assert forall|i: int| 0 <= i < p.len() implies p[i] == q[i] by {
        let (a, b) = (decorrelated(p, n)[i], decorrelated(q, n)[i]);
        if decorrelated_byte(p.len() as int, n, i) {
            let g = i - i % n + 1;
            assert(g % n == 1);
            assert(decorrelated(p, n)[g] == p[g]);
            assert(decorrelated(q, n)[g] == q[g]);
            assert(a == p[i].wrapping_sub(p[g]));
            assert(b == q[i].wrapping_sub(q[g]));
        } else {
            assert(a == p[i] && b == q[i]);
        }
    }
    assert(p =~= q);
}

// ---------------------------------------------------------------------------
// Predictors
// ---------------------------------------------------------------------------

/// The value between the other two.
pub fn median3(l: u8, a: u8, g: u8) -> (m: u8)
    ensures
        m == middle(l, a, g),
{
    let (lo, hi): (u8, u8) = if a >= l {
        (l, a)
    } else {
        (a, l)
    };
    let mid: u8 = if g <= hi {
        g
    } else {
        hi
    };
    if mid >= lo {
        mid
    } else {
        lo
    }
}

/// `left + above - above_left`.
pub fn gradient_predictor(left: u8, above: u8, above_left: u8) -> (g: u8)
    ensures
        g == gradient(left, above, above_left),
{
    left.wrapping_add(above).wrapping_sub(above_left)
}

/// Undoes left prediction over `n_channels` interleaved channels, in place.
pub fn inverse_left_row(samples: &mut [u8], n_channels: usize)
    ensures
        final(samples)@.len() == old(samples)@.len(),
        n_channels > 0 ==> left_residuals(final(samples)@, n_channels as int) == old(samples)@,
        n_channels == 0 ==> forall|i: int|
            0 <= i < old(samples)@.len() ==> final(samples)@[i] == #[trigger] old(
                samples,
            )@[i].wrapping_add(old(samples)@[i]),
{
    let len: usize = samples.len();
    if len <= n_channels {
        proof {
            assert(left_residuals(samples@, n_channels as int) =~= samples@);
        }
        return;
    }
    let mut idx: usize = n_channels;
    while idx < len
        invariant
            n_channels <= idx <= len,
            len == samples@.len(),
            len == old(samples)@.len(),
            forall|i: int|
                0 <= i < len && (i < n_channels || idx <= i) ==> #[trigger] old(samples)@[i]
                    == samples@[i],
            n_channels > 0 ==> forall|i: int|
                n_channels <= i < idx ==> #[trigger] old(samples)@[i] == samples@[i].wrapping_sub(
                    samples@[i - n_channels],
                ),
            n_channels == 0 ==> forall|i: int|
                0 <= i < idx ==> samples@[i] == #[trigger] old(samples)@[i].wrapping_add(
                    old(samples)@[i],
                ),
        decreases len - idx,
    {
        assert(old(samples)@[idx as int] == samples@[idx as int]);
        let v: u8 = samples[idx].wrapping_add(samples[idx - n_channels]);
        samples[idx] = v;
        idx = idx + 1;
    }
    proof {
        if n_channels > 0 {
            assert(left_residuals(samples@, n_channels as int) =~= old(samples)@);
        }
    }
}

/// Undoes left prediction over the whole buffer, in place: in raster order, each
/// byte to the one `n_channels` before it. The first `n_channels` bytes stay, and
/// rows continue the row before, so the row size does not matter. No channels
/// count as one.
pub fn inverse_left_full(out: &mut [u8], _row_stride: usize, n_channels: usize)
    ensures
        final(out)@.len() == old(out)@.len(),
        n_channels > 0 ==> left_residuals(final(out)@, n_channels as int) == old(out)@,
        n_channels == 0 ==> left_residuals(final(out)@, 1) == old(out)@,
{
    if n_channels == 0 {
        inverse_left_row(out, 1);
    } else {
        inverse_left_row(out, n_channels);
    }
}

/// Undoes gradient prediction of the first `height` rows, in place.
pub fn inverse_gradient_post(out: &mut [u8], row_bytes: usize, height: usize)
    requires
        height >= 2 ==> row_bytes * height <= old(out)@.len(),
    ensures
        final(out)@.len() == old(out)@.len(),
        forall|i: int|
            0 <= i < old(out)@.len() ==> #[trigger] old(out)@[i] == (if height >= 2 && row_bytes
                > 0 && row_bytes <= i < row_bytes * height {
                final(out)@[i].wrapping_sub(final(out)@[i - row_bytes])
            } else {
                final(out)@[i]
            }),
        height >= 1 && row_bytes > 0 && old(out)@.len() == row_bytes * height
            ==> gradient_residuals(final(out)@, row_bytes as int) == old(out)@,
{
    if height < 2 || row_bytes == 0 {
        proof {
            if height == 1 {
                assert(row_bytes * height == row_bytes) by (nonlinear_arith)
                    requires
                        height == 1,
                ;
                if out@.len() == row_bytes {
                    assert(gradient_residuals(out@, row_bytes as int) =~= out@);
                }
            }
        }
        return;
    }
    let len: usize = out.len();
    proof {
        assert(row_bytes <= row_bytes * height) by (nonlinear_arith)
            requires
                height >= 1,
        ;
    }
    let end: usize = row_bytes * height;
    let mut i: usize = row_bytes;
    while i < end
        invariant
            0 < row_bytes <= i <= end <= len,
            end == row_bytes * height,
            len == out@.len(),
            len == old(out)@.len(),
            forall|k: int|
                0 <= k < len && (k < row_bytes || k >= i) ==> out@[k] == #[trigger] old(out)@[k],
            forall|k: int|
                row_bytes <= k < i ==> #[trigger] old(out)@[k] == out@[k].wrapping_sub(
                    out@[k - row_bytes],
                ),
        decreases end - i,
    {
        assert(old(out)@[i as int] == out@[i as int]);
        let v: u8 = out[i].wrapping_add(out[i - row_bytes]);
        out[i] = v;
        i = i + 1;
    }
    proof {
        if len == row_bytes * height {
            assert(gradient_residuals(out@, row_bytes as int) =~= old(out)@);
        }
    }
}

/// The gradient residuals of `height` rows.
pub fn forward_gradient_subtract(src: &[u8], dst: &mut [u8], row_bytes: usize, height: usize)
    requires
        src@.len() == row_bytes * height,
        old(dst)@.len() == src@.len(),
    ensures
        final(dst)@ == gradient_residuals(src@, row_bytes as int),
{
    let n: usize = src.len();
    let mut i: usize = 0;
    while i < n
        invariant
            i <= n,
            n == src@.len(),
            n == dst@.len(),
            row_bytes == 0 ==> n == 0,
            forall|k: int|
                0 <= k < i ==> #[trigger] dst@[k] == gradient_residuals(src@, row_bytes as int)[k],
        decreases n - i,
    {
        if i < row_bytes {
            dst[i] = src[i];
        } else {
            dst[i] = src[i].wrapping_sub(src[i - row_bytes]);
        }
        i = i + 1;
    }
    assert(dst@ =~= gradient_residuals(src@, row_bytes as int));
}

/// Replaces left prediction by median prediction from eight bytes into the
/// second row on, in place. The buffer holds what undoing left prediction gave of
/// the whole of it; afterwards it holds the raster whose median residuals those
/// were.
pub fn inverse_median_post(out: &mut [u8], row_bytes: usize, height: usize)
    ensures
        median_residuals(final(out)@, row_bytes as int, height as int) == yuy2_left_residuals(
            old(out)@,
        ),
        forall|p: Seq<u8>| #[trigger]
            median_residuals(p, row_bytes as int, height as int) == yuy2_left_residuals(old(out)@)
                ==> final(out)@ == p,
        forall|i: int|
            0 <= i < median_start(old(out)@.len() as int, row_bytes as int, height as int)
                ==> final(out)@[i] == #[trigger] old(out)@[i],
{
    let n: usize = out.len();
    let ghost left = yuy2_left_residuals(old(out)@);
    if height >= 2 && row_bytes > 0 && n > 8 && n - 8 >= row_bytes {
        let start: usize = row_bytes + 8;
        let mut i: usize = n;
        while i > start
            invariant
                n == out@.len(),
                n == old(out)@.len(),
                8 < start <= i <= n,
                left == yuy2_left_residuals(old(out)@),
                forall|k: int| 0 <= k < i ==> out@[k] == #[trigger] old(out)@[k],
                forall|k: int| i <= k < n ==> out@[k] == #[trigger] left[k],
            decreases i,
        {
            i = i - 1;
            let stride: usize = if i % 2 == 0 {
                2
            } else {
                4
            };
            assert(out@[i as int] == old(out)@[i as int]);
            assert(out@[i - stride] == old(out)@[i - stride]);
            let residual: u8 = out[i].wrapping_sub(out[i - stride]);
            out[i] = residual;
        }
        let mut pos: usize = start;
        while pos < n
            invariant
                n == out@.len(),
                n == old(out)@.len(),
                left == yuy2_left_residuals(old(out)@),
                start == row_bytes + 8,
                row_bytes > 0,
                start <= pos <= n,
                forall|k: int| 0 <= k < start ==> out@[k] == #[trigger] old(out)@[k],
                forall|k: int| pos <= k < n ==> out@[k] == #[trigger] left[k],
                forall|k: int|
                    start <= k < pos ==> #[trigger] left[k] == out@[k].wrapping_sub(
                        median(out@[k - 2], out@[k - row_bytes], out@[k - row_bytes - 2]),
                    ),
            decreases n - pos,
        {
            assert(out@[pos as int] == left[pos as int]);
            let l: u8 = out[pos - 2];
            let a: u8 = out[pos - row_bytes];
            let al: u8 = out[pos - row_bytes - 2];
            let g: u8 = gradient_predictor(l, a, al);
            let predictor: u8 = median3(l, a, g);
            let v: u8 = out[pos].wrapping_add(predictor);
            out[pos] = v;
            pos = pos + 1;
        }
        proof {
            let m = median_residuals(out@, row_bytes as int, height as int);
            assert forall|k: int| 0 <= k < n implies #[trigger] m[k] == left[k] by {
                if k < start {
                    assert(out@[k] == old(out)@[k]);
                    if k >= 4 {
                        assert(out@[k - yuy2_stride(k)] == old(out)@[k - yuy2_stride(k)]);
                    }
                }
            }
        }
    }
    proof {
        assert(median_residuals(out@, row_bytes as int, height as int) =~= left);
        assert forall|p: Seq<u8>| #[trigger]
            median_residuals(p, row_bytes as int, height as int) == left implies out@ == p by {
            law_median_residuals_determine(p, out@, row_bytes as int, height as int);
        }
    }
}

/// Undoes decorrelation in every whole pixel of `n` bytes, in place.
fn inverse_decorrelation(out: &mut [u8], n: usize)
    requires
        n == 3 || n == 4,
    ensures
        decorrelated(final(out)@, n as int) == old(out)@,
{
    let len: usize = out.len();
    let end: usize = len - len % n;
    let mut off: usize = 0;
    while off < end
        invariant
            n == 3 || n == 4,
            len == out@.len(),
            len == old(out)@.len(),
            end == len - len % n,
            off <= end,
            off % n == 0,
            forall|i: int|
                0 <= i < off && decorrelated_byte(len as int, n as int, i) ==> out@[i]
                    == #[trigger] old(out)@[i].wrapping_add(old(out)@[i - i % n as int + 1]),
            forall|i: int|
                0 <= i < len && (off <= i || !decorrelated_byte(len as int, n as int, i))
                    ==> out@[i] == #[trigger] old(out)@[i],
        decreases end - off,
    {
        let ghost before = out@;
        assert(old(out)@[off as int] == out@[off as int]);
        assert(old(out)@[off + 1] == out@[off + 1]);
        assert(old(out)@[off + 2] == out@[off + 2]);
        let g: u8 = out[off + 1];
        let b: u8 = out[off].wrapping_add(g);
        let r: u8 = out[off + 2].wrapping_add(g);
        out[off] = b;
        out[off + 2] = r;
        proof {
            assert(forall|i: int|
                0 <= i < len && i != off && i != off + 2 ==> #[trigger] out@[i] == before[i]);
        }
        off = off + n;
    }
    proof {
        let d = decorrelated(out@, n as int);
        assert forall|i: int| 0 <= i < len implies #[trigger] d[i] == old(out)@[i] by {
            if decorrelated_byte(len as int, n as int, i) {
                let g = i - i % n as int + 1;
                assert(g % n as int == 1);
                assert(out@[g] == old(out)@[g]);
                lemma_whole_pixel(len as int, n as int, i);
                assert(out@[i] == old(out)@[i].wrapping_add(old(out)@[g]));
            }
        }
        assert(d =~= old(out)@);
    }
}

/// Undoes decorrelation of `B G R` pixels, in place; a partial pixel at the end
/// stays.
pub fn inverse_rgb_decorr_bgr(out: &mut [u8])
    ensures
        decorrelated(final(out)@, 3) == old(out)@,
{
    inverse_decorrelation(out, 3);
}

/// Undoes decorrelation of `B G R A` pixels, in place; alpha and a partial
/// pixel at the end stay.
pub fn inverse_rgb_decorr_bgra(out: &mut [u8])
    ensures
        decorrelated(final(out)@, 4) == old(out)@,
{
    inverse_decorrelation(out, 4);
}

/// A byte belongs to a whole pixel when it lies before the last whole pixel's
/// end.
proof fn lemma_whole_pixel(len: int, n: int, i: int)
    requires
        n == 3 || n == 4,
        0 <= i < len,
    ensures
        i - i % n + n <= len <==> i < len - len % n,
{
}

/// The value at byte `i` with green subtracted where the byte is the blue or
/// the red one of its pixel.
fn decorrelated_value(pixels: &[u8], n: usize, i: usize) -> (v: u8)
    requires
        n == 3 || n == 4,
        i < pixels@.len(),
        i - i % n + n <= pixels@.len(),
    ensures
        v == decorrelated(pixels@, n as int)[i as int],
{
    let k: usize = i % n;
    if k == 0 || k == 2 {
        pixels[i].wrapping_sub(pixels[i - k + 1])
    } else {
        pixels[i]
    }
}

/// The left residuals of decorrelated pixels of `n_channels` bytes. Bytes of a
/// partial pixel at the end are not written, except that a buffer smaller than
/// one pixel is copied.
pub fn forward_left_decorr_residuals(pixels: &[u8], dst: &mut [u8], n_channels: usize)
    requires
        n_channels == 3 || n_channels == 4,
        old(dst)@.len() == pixels@.len(),
    ensures
        final(dst)@.len() == old(dst)@.len(),
        forall|i: int|
            0 <= i < pixels@.len() ==> #[trigger] final(dst)@[i] == (if pixels@.len() < n_channels {
                pixels@[i]
            } else if i - i % n_channels as int + n_channels <= pixels@.len() {
                left_residuals(decorrelated(pixels@, n_channels as int), n_channels as int)[i]
            } else {
                old(dst)@[i]
            }),
        pixels@.len() % n_channels as nat == 0 ==> final(dst)@ == left_residuals(
            decorrelated(pixels@, n_channels as int),
            n_channels as int,
        ),
{
    let len: usize = pixels.len();
    let end: usize = if len < n_channels {
        len
    } else {
        len - len % n_channels
    };
    let ghost want = left_residuals(decorrelated(pixels@, n_channels as int), n_channels as int);
    let mut i: usize = 0;
    while i < end
        invariant
            n_channels == 3 || n_channels == 4,
            len == pixels@.len(),
            len == dst@.len(),
            len == old(dst)@.len(),
            i <= end <= len,
            len < n_channels ==> end == len,
            len >= n_channels ==> end == len - len % n_channels,
            forall|k: int|
                0 <= k < i ==> #[trigger] dst@[k] == (if len < n_channels {
                    pixels@[k]
                } else {
                    want[k]
                }),
            want == left_residuals(decorrelated(pixels@, n_channels as int), n_channels as int),
            forall|k: int| i <= k < len ==> #[trigger] dst@[k] == old(dst)@[k],
        decreases end - i,
    {
        if len < n_channels {
            dst[i] = pixels[i];
        } else {
            proof {
                lemma_whole_pixel(len as int, n_channels as int, i as int);
            }
            let v: u8 = decorrelated_value(pixels, n_channels, i);
            if i < n_channels {
                dst[i] = v;
            } else {
                proof {
                    lemma_whole_pixel(len as int, n_channels as int, i - n_channels);
                }
                let prev: u8 = decorrelated_value(pixels, n_channels, i - n_channels);
                dst[i] = v.wrapping_sub(prev);
            }
        }
        i = i + 1;
    }
    proof {
        assert forall|k: int| 0 <= k < len && len >= n_channels implies (k - #[trigger] (k
            % n_channels as int) + n_channels <= len <==> k < end) by {
            lemma_whole_pixel(len as int, n_channels as int, k);
        }
        if len % n_channels == 0 {
            if len < n_channels {
                assert(len == 0);
            }
            assert(dst@ =~= want);
        }
    }
}

/// The gradient residuals of decorrelated pixels of `n_channels` bytes.
pub fn forward_decorr_gradient_subtract(
    pixels: &[u8],
    dst: &mut [u8],
    n_channels: usize,
    row_bytes: usize,
    height: usize,
)
    requires
        n_channels == 3 || n_channels == 4,
        pixels@.len() == row_bytes * height,
        row_bytes % n_channels == 0,
        old(dst)@.len() == pixels@.len(),
    ensures
        final(dst)@ == gradient_residuals(
            decorrelated(pixels@, n_channels as int),
            row_bytes as int,
        ),
{
    let n: usize = pixels.len();
    proof {
        let q = row_bytes as int / n_channels as int;
        let h = height as int;
        assert(n as int == (q * h) * n_channels) by (nonlinear_arith)
            requires
                n == row_bytes * h,
                row_bytes == q * n_channels,
        ;
        assert(n as int % n_channels as int == 0) by {
            vstd::arithmetic::div_mod::lemma_mod_multiples_basic(q * h, n_channels as int);
        }
    }
    let mut i: usize = 0;
    while i < n
        invariant
            n_channels == 3 || n_channels == 4,
            row_bytes % n_channels == 0,
            n == pixels@.len(),
            n as int % n_channels as int == 0,
            n == dst@.len(),
            i <= n,
            row_bytes == 0 ==> n == 0,
            forall|k: int|
                0 <= k < i ==> #[trigger] dst@[k] == gradient_residuals(
                    decorrelated(pixels@, n_channels as int),
                    row_bytes as int,
                )[k],
        decreases n - i,
    {
        let v: u8 = decorrelated_value(pixels, n_channels, i);
        if i < row_bytes {
            dst[i] = v;
        } else {
            let above: u8 = decorrelated_value(pixels, n_channels, i - row_bytes);
            dst[i] = v.wrapping_sub(above);
        }
        i = i + 1;
    }
    assert(dst@ =~= gradient_residuals(
        decorrelated(pixels@, n_channels as int),
        row_bytes as int,
    ));
}

/// The median residuals of a YUY2 raster.
pub fn forward_median_subtract(pixels: &[u8], dst: &mut [u8], row_bytes: usize, height: usize)
    requires
        old(dst)@.len() == pixels@.len(),
    ensures
        final(dst)@ == median_residuals(pixels@, row_bytes as int, height as int),
{
    let n: usize = pixels.len();
    let start: usize = if height < 2 || row_bytes == 0 || n < 8 || n - 8 < row_bytes {
        n
    } else {
        row_bytes + 8
    };
    let mut i: usize = 0;
    while i < n
        invariant
            n == pixels@.len(),
            n == dst@.len(),
            i <= n,
            start == median_start(n as int, row_bytes as int, height as int),
            forall|k: int|
                0 <= k < i ==> #[trigger] dst@[k] == median_residuals(
                    pixels@,
                    row_bytes as int,
                    height as int,
                )[k],
        decreases n - i,
    {
        if i >= start {
            let l: u8 = pixels[i - 2];
            let a: u8 = pixels[i - row_bytes];
            let al: u8 = pixels[i - row_bytes - 2];
            let predictor: u8 = median3(l, a, gradient_predictor(l, a, al));
            dst[i] = pixels[i].wrapping_sub(predictor);
        } else if i < 4 {
            dst[i] = pixels[i];
        } else if i % 2 == 0 {
            dst[i] = pixels[i].wrapping_sub(pixels[i - 2]);
        } else {
            dst[i] = pixels[i].wrapping_sub(pixels[i - 4]);
        }
        i = i + 1;
    }
    assert(dst@ =~= median_residuals(pixels@, row_bytes as int, height as int));
}

/// Undoes YUY2 left prediction from `begin` up to `end`, or the end of the
/// buffer, in place.
pub fn inverse_yuy2_left_macropixel(out: &mut [u8], begin: usize, end: usize)
    requires
        begin >= 4,
        begin % 4 == 0,
    ensures
        final(out)@.len() == old(out)@.len(),
        forall|i: int|
            0 <= i < old(out)@.len() ==> #[trigger] old(out)@[i] == (if begin <= i < end {
                final(out)@[i].wrapping_sub(final(out)@[i - yuy2_stride(i)])
            } else {
                final(out)@[i]
            }),
        begin == 4 && end >= old(out)@.len() ==> yuy2_left_residuals(final(out)@) == old(out)@,
{
    let len: usize = out.len();
    let stop: usize = if end < len {
        end
    } else {
        len
    };
    let mut i: usize = begin;
    while i < stop
        invariant
            len == out@.len(),
            len == old(out)@.len(),
            4 <= begin <= i,
            stop <= len,
            stop <= end,
            i <= stop || i == begin,
            forall|k: int|
                0 <= k < len && (k < begin || k >= i) ==> #[trigger] old(out)@[k] == out@[k],
            forall|k: int|
                begin <= k < i && k < len ==> #[trigger] old(out)@[k] == out@[k].wrapping_sub(
                    out@[k - yuy2_stride(k)],
                ),
        decreases stop - i,
    {
        assert(old(out)@[i as int] == out@[i as int]);
        let prev: u8 = if i % 2 == 0 {
            out[i - 2]
        } else {
            out[i - 4]
        };
        let v: u8 = out[i].wrapping_add(prev);
        out[i] = v;
        i = i + 1;
    }
    proof {
        if begin == 4 && end >= len {
            let r = yuy2_left_residuals(out@);
            assert forall|k: int| 0 <= k < len implies #[trigger] r[k] == old(out)@[k] by {}
            assert(r =~= old(out)@);
        }
    }
}

/// The YUY2 left residuals of a raster.
pub fn forward_yuy2_left_subtract(src: &[u8], dst: &mut [u8])
    requires
        old(dst)@.len() == src@.len(),
    ensures
        final(dst)@ == yuy2_left_residuals(src@),
{
    let n: usize = src.len();
    let mut i: usize = 0;
    while i < n
        invariant
            n == src@.len(),
            n == dst@.len(),
            i <= n,
            forall|k: int| 0 <= k < i ==> #[trigger] dst@[k] == yuy2_left_residuals(src@)[k],
        decreases n - i,
    {
        if i < 4 {
            dst[i] = src[i];
        } else if i % 2 == 0 {
            dst[i] = src[i].wrapping_sub(src[i - 2]);
        } else {
            dst[i] = src[i].wrapping_sub(src[i - 4]);
        }
        i = i + 1;
    }
    assert(dst@ =~= yuy2_left_residuals(src@));
}

/// The left residuals of a raster of `n_channels` interleaved channels.
pub fn forward_rgb_left_subtract_linear(src: &[u8], dst: &mut [u8], n_channels: usize)
    requires
        n_channels > 0,
        old(dst)@.len() == src@.len(),
    ensures
        final(dst)@ == left_residuals(src@, n_channels as int),
{
    let n: usize = src.len();
    let mut i: usize = 0;
    while i < n
        invariant
            n_channels > 0,
            n == src@.len(),
            n == dst@.len(),
            i <= n,
            forall|k: int|
                0 <= k < i ==> #[trigger] dst@[k] == left_residuals(src@, n_channels as int)[k],
        decreases n - i,
    {
        if i < n_channels {
            dst[i] = src[i];
        } else {
            dst[i] = src[i].wrapping_sub(src[i - n_channels]);
        }
        i = i + 1;
    }
    assert(dst@ =~= left_residuals(src@, n_channels as int));
}

// ---------------------------------------------------------------------------
// Fields
// ---------------------------------------------------------------------------

/// `true` when a frame of this height is coded as two fields.
pub fn is_interlaced_height(height: u32) -> (b: bool)
    ensures
        b == (height > 288),
{
    height > 288
}

/// The interlacing that a header's flag byte declares. A high nibble of one or
/// two decides; with any other the height does.
pub open spec fn interlaced_by_flag(interlace_flag: u8, height: u32) -> bool {
    if interlace_flag / 16 == 1 {
        true
    } else if interlace_flag / 16 == 2 {
        false
    } else {
        height > 288
    }
}

/// The interlacing that a header's flag byte declares.
pub fn interlaced_from_flag_and_height(interlace_flag: u8, height: u32) -> (b: bool)
    ensures
        b == interlaced_by_flag(interlace_flag, height),
{
    match interlace_flag / 16 {
        1 => true,
        2 => false,
        _ => is_interlaced_height(height),
    }
}

/// The header flag byte for a frame of the given height.
pub open spec fn flag_for_height(height: u32) -> u8 {
    if height > 288 {
        0x10
    } else {
        0x20
    }
}

/// The header flag byte for a frame of the given height.
pub fn interlace_flag_for_height(height: u32) -> (flag: u8)
    ensures
        flag == flag_for_height(height),
{
    if is_interlaced_height(height) {
        0x10
    } else {
        0x20
    }
}

/// A written flag byte gives the interlacing back, whatever height is read.
pub proof fn law_interlace_flag_round_trip(height: u32, read_height: u32)
    ensures
        interlaced_by_flag(flag_for_height(height), read_height) == (height > 288),
{
}

/// The number of rows of a field: the even rows for `parity` zero, else the odd.
pub open spec fn field_rows(height: int, parity: int) -> int {
    (height + 1 - parity) / 2
}

/// One field of a raster.
pub open spec fn field(p: Seq<u8>, row_bytes: int, height: int, parity: int) -> Seq<u8> {
    Seq::new(
        (row_bytes * field_rows(height, parity)) as nat,
        |i: int| p[row_bytes * (2 * (i / row_bytes) + parity) + i % row_bytes],
    )
}

/// The raster whose even rows are `top` and whose odd rows are `bot`.
pub open spec fn interleaved(top: Seq<u8>, bot: Seq<u8>, row_bytes: int, height: int) -> Seq<u8> {
    Seq::new(
        (row_bytes * height) as nat,
        |i: int|
            if (i / row_bytes) % 2 == 0 {
                top[row_bytes * (i / row_bytes / 2) + i % row_bytes]
            } else {
                bot[row_bytes * (i / row_bytes / 2) + i % row_bytes]
            },
    )
}

/// A byte's place from its row and column, and the row and column from the
/// place.
proof fn lemma_place(row_bytes: int, rows: int, row: int, col: int)
    requires
        0 <= col < row_bytes,
        0 <= row < rows,
    ensures
        0 <= row_bytes * row + col < row_bytes * rows,
        (row_bytes * row + col) / row_bytes == row,
        (row_bytes * row + col) % row_bytes == col,
{
    assert(row_bytes * row == row * row_bytes) by (nonlinear_arith);
    vstd::arithmetic::div_mod::lemma_fundamental_div_mod_converse(
        row_bytes * row + col,
        row_bytes,
        row,
        col,
    );
    assert(row_bytes * row + col < row_bytes * rows && 0 <= row_bytes * row) by (nonlinear_arith)
        requires
            0 <= col < row_bytes,
            0 <= row < rows,
    ;
}

/// A byte's row and column.
proof fn lemma_row_col(row_bytes: int, rows: int, i: int)
    requires
        row_bytes > 0,
        0 <= i < row_bytes * rows,
    ensures
        0 <= i / row_bytes < rows,
        0 <= i % row_bytes < row_bytes,
        i == row_bytes * (i / row_bytes) + i % row_bytes,
{
    vstd::arithmetic::div_mod::lemma_fundamental_div_mod(i, row_bytes);
    let (q, r) = (i / row_bytes, i % row_bytes);
    assert(0 <= q < rows) by (nonlinear_arith)
        requires
            0 <= r < row_bytes,
            i == row_bytes * q + r,
            0 <= i < row_bytes * rows,
    ;
}

/// Interleaving the two fields of a raster gives the raster back.
pub proof fn law_interleave_undoes_split(p: Seq<u8>, row_bytes: int, height: int)
    requires
        row_bytes > 0,
        height >= 0,
        p.len() == row_bytes * height,
    ensures
        interleaved(
            field(p, row_bytes, height, 0),
            field(p, row_bytes, height, 1),
            row_bytes,
            height,
        ) == p,
{
    let top = field(p, row_bytes, height, 0);
    let bot = field(p, row_bytes, height, 1);
    let out = interleaved(top, bot, row_bytes, height);
    assert forall|i: int| 0 <= i < p.len() implies #[trigger] out[i] == p[i] by {
        lemma_row_col(row_bytes, height, i);
        let row = i / row_bytes;
        let col = i % row_bytes;
        if row % 2 == 0 {
            lemma_place(row_bytes, field_rows(height, 0), row / 2, col);
        } else {
            lemma_place(row_bytes, field_rows(height, 1), row / 2, col);
        }
    }
    assert(out =~= p);
}

/// The fields of interleaved fields are those fields.
pub proof fn law_split_undoes_interleave(
    top: Seq<u8>,
    bot: Seq<u8>,
    row_bytes: int,
    height: int,
)
    requires
        row_bytes > 0,
        height >= 0,
        top.len() == row_bytes * field_rows(height, 0),
        bot.len() == row_bytes * field_rows(height, 1),
    ensures
        field(interleaved(top, bot, row_bytes, height), row_bytes, height, 0) == top,
        field(interleaved(top, bot, row_bytes, height), row_bytes, height, 1) == bot,
{
    let p = interleaved(top, bot, row_bytes, height);
    let t = field(p, row_bytes, height, 0);
    assert forall|i: int| 0 <= i < top.len() implies #[trigger] t[i] == top[i] by {
        lemma_row_col(row_bytes, field_rows(height, 0), i);
        lemma_place(row_bytes, height, 2 * (i / row_bytes), i % row_bytes);
    }
    assert(t =~= top);
    let b = field(p, row_bytes, height, 1);
    assert forall|i: int| 0 <= i < bot.len() implies #[trigger] b[i] == bot[i] by {
        lemma_row_col(row_bytes, field_rows(height, 1), i);
        lemma_place(row_bytes, height, 2 * (i / row_bytes) + 1, i % row_bytes);
    }
    assert(b =~= bot);
}

/// One field of a raster, row by row.
fn field_of(pixels: &[u8], row_bytes: usize, height: usize, parity: usize) -> (f: Vec<u8>)
    requires
        parity <= 1,
        row_bytes * height <= pixels@.len(),
    ensures
        f@ == field(pixels@, row_bytes as int, height as int, parity as int),
{
    let ghost want = field(pixels@, row_bytes as int, height as int, parity as int);
    let len: usize = pixels.len();
    let rows: usize = if parity == 0 {
        height / 2 + height % 2
    } else {
        height / 2
    };
    let mut f: Vec<u8> = Vec::new();
    let mut done: usize = 0;
    proof {
        assert(row_bytes * 0 == 0) by (nonlinear_arith);
    }
    while done < rows
        invariant
            parity <= 1,
            row_bytes * height <= pixels@.len(),
            pixels@.len() == len,
            done <= rows,
            rows == field_rows(height as int, parity as int),
            want == field(pixels@, row_bytes as int, height as int, parity as int),
            f@.len() == row_bytes * done,
            row_bytes * done <= want.len(),
            forall|k: int| 0 <= k < f@.len() ==> #[trigger] f@[k] == want[k],
        decreases rows - done,
    {
        let row: usize = 2 * done + parity;
        proof {
            assert(0 <= row_bytes * row && row_bytes * row + row_bytes <= row_bytes * height)
                by (nonlinear_arith)
                requires
                    row < height,
            ;
            assert(row_bytes * (done + 1) == row_bytes * done + row_bytes) by (nonlinear_arith);
            assert(row_bytes * (done + 1) <= row_bytes * rows) by (nonlinear_arith)
                requires
                    done + 1 <= rows,
            ;
        }
        let src: usize = row_bytes * row;
        let ghost before = f@;
        f.extend_from_slice(&pixels[src..src + row_bytes]);
        proof {
            assert forall|k: int| 0 <= k < f@.len() implies #[trigger] f@[k] == want[k] by {
                if k >= before.len() {
                    let col = k - before.len();
                    lemma_place(row_bytes as int, rows as int, done as int, col);
                    assert(f@[k] == pixels@[src + col]);
                }
            }
        }
        done = done + 1;
    }
    assert(f@ =~= want);
    f
}

/// Splits a raster into its even and its odd rows.
pub fn split_fields(pixels: &[u8], row_bytes: usize, height: usize) -> (fields: (
    Vec<u8>,
    Vec<u8>,
))
    requires
        row_bytes * height <= pixels@.len(),
    ensures
        fields.0@ == field(pixels@, row_bytes as int, height as int, 0),
        fields.1@ == field(pixels@, row_bytes as int, height as int, 1),
{
    (field_of(pixels, row_bytes, height, 0), field_of(pixels, row_bytes, height, 1))
}

/// Joins the even and the odd rows of a raster.
pub fn interleave_fields(top: &[u8], bot: &[u8], row_bytes: usize, height: usize) -> (out: Vec<u8>)
    requires
        row_bytes * height <= usize::MAX,
        row_bytes * field_rows(height as int, 0) <= top@.len(),
        row_bytes * field_rows(height as int, 1) <= bot@.len(),
    ensures
        out@ == interleaved(top@, bot@, row_bytes as int, height as int),
{
    let ghost want = interleaved(top@, bot@, row_bytes as int, height as int);
    let mut out: Vec<u8> = Vec::new();
    let mut row: usize = 0;
    proof {
        assert(row_bytes * 0 == 0) by (nonlinear_arith);
        assert(row_bytes * height >= 0) by (nonlinear_arith);
    }
    while row < height
        invariant
            row_bytes * height <= usize::MAX,
            row_bytes * field_rows(height as int, 0) <= top@.len(),
            row_bytes * field_rows(height as int, 1) <= bot@.len(),
            row <= height,
            want == interleaved(top@, bot@, row_bytes as int, height as int),
            want.len() == row_bytes * height,
            out@.len() == row_bytes * row,
            row_bytes * row <= want.len(),
            forall|k: int| 0 <= k < out@.len() ==> #[trigger] out@[k] == want[k],
        decreases height - row,
    {
        let half: usize = row / 2;
        proof {
            let rows = field_rows(height as int, row as int % 2);
            assert(row_bytes * half + row_bytes <= row_bytes * rows) by (nonlinear_arith)
                requires
                    half + 1 <= rows,
            ;
            assert(row_bytes * (row + 1) == row_bytes * row + row_bytes) by (nonlinear_arith);
            assert(row_bytes * (row + 1) <= row_bytes * height) by (nonlinear_arith)
                requires
                    row + 1 <= height,
            ;
            assert(0 <= row_bytes * half <= row_bytes * row) by (nonlinear_arith)
                requires
                    half <= row,
            ;
        }
        let src: usize = row_bytes * half;
        let ghost before = out@;
        if row % 2 == 0 {
            out.extend_from_slice(&top[src..src + row_bytes]);
        } else {
            out.extend_from_slice(&bot[src..src + row_bytes]);
        }
        proof {
            assert forall|k: int| 0 <= k < out@.len() implies #[trigger] out@[k] == want[k] by {
                if k >= before.len() {
                    lemma_place(row_bytes as int, height as int, row as int, k - before.len());
                }
            }
        }
        row = row + 1;
    }
    assert(out@ =~= want);
    out
}

} // verus!
