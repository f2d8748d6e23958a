//! How a field's residuals lie on the wire.
//!
//! A field starts with four uncompressed bytes, its first pixel, and goes on
//! with one codeword per residual byte. Three codebooks serve the residuals:
//! luma and the two chroma components of YUY2, or blue, green and red, with
//! alpha sharing the one for red. Where colours are decorrelated, green comes
//! before blue.

use vstd::prelude::*;

use crate::header::{PixelFamily, Predictor};
use crate::predict::{
    decorrelated, gradient_residuals, law_decorrelated_determines,
    law_gradient_residuals_determine, law_left_residuals_determine,
    law_median_residuals_determine, law_yuy2_left_residuals_determine, left_residuals,
    median_residuals, yuy2_left_residuals,
};

verus! {

/// Bytes of a pixel, or of a YUY2 macropixel.
pub open spec fn unit(family: PixelFamily) -> int {
    match family {
        PixelFamily::Yuy2 => 4,
        PixelFamily::Rgb24 => 3,
        PixelFamily::Rgb32 => 4,
    }
}

/// Bytes of a pixel, or of a YUY2 macropixel.
pub fn unit_bytes(family: PixelFamily) -> (n: usize)
    ensures
        n == unit(family),
{
    match family {
        PixelFamily::Yuy2 => 4,
        PixelFamily::Rgb24 => 3,
        PixelFamily::Rgb32 => 4,
    }
}

/// One of the three codebooks.
#[derive(Debug, Clone, Copy, PartialEq, Eq, Structural)]
pub enum Slot {
    /// Luma, or blue.
    First,
    /// The first chroma component, or green.
    Second,
    /// The second chroma component, or red and alpha.
    Third,
}

/// The codebook of residual `i` of a body.
#[verifier::opaque]
pub open spec fn slot_of(family: PixelFamily, decorrelate: bool, i: int) -> Slot {
    let j = i % unit(family);
    if family is Yuy2 {
        if j == 1 {
            Slot::Second
        } else if j == 3 {
            Slot::Third
        } else {
            Slot::First
        }
    } else if j >= 2 {
        Slot::Third
    } else if (j == 0) == decorrelate {
        Slot::Second
    } else {
        Slot::First
    }
}

/// The codebook of residual `i` of a body.
pub fn slot_at(family: PixelFamily, decorrelate: bool, i: usize) -> (s: Slot)
    ensures
        s == slot_of(family, decorrelate, i as int),
{
    proof {
        reveal(slot_of);
    }
    let j: usize = i % unit_bytes(family);
    match family {
        PixelFamily::Yuy2 => {
            if j == 1 {
                Slot::Second
            } else if j == 3 {
                Slot::Third
            } else {
                Slot::First
            }
        },
        _ => {
            if j >= 2 {
                Slot::Third
            } else if (j == 0) == decorrelate {
                Slot::Second
            } else {
                Slot::First
            }
        },
    }
}

/// The raster place, counted behind the first pixel, of residual `i` of a body:
/// blue and green change places where colours are decorrelated.
#[verifier::opaque]
pub open spec fn wire_place(family: PixelFamily, decorrelate: bool, i: int) -> int {
    let j = i % unit(family);
    if family.rgb() && decorrelate && j < 2 {
        if j == 0 {
            i + 1
        } else {
            i - 1
        }
    } else {
        i
    }
}

/// The raster place, counted behind the first pixel, of residual `i` of a body.
pub fn place_of(family: PixelFamily, decorrelate: bool, i: usize) -> (k: usize)
    requires
        i < usize::MAX,
    ensures
        k == wire_place(family, decorrelate, i as int),
{
    proof {
        reveal(wire_place);
    }
    let j: usize = i % unit_bytes(family);
    if family.is_rgb() && decorrelate && j < 2 {
        if j == 0 {
            i + 1
        } else {
            i - 1
        }
    } else {
        i
    }
}

/// Wire order and raster order are turned into each other by the same exchange,
/// which stays within a body of whole pixels.
pub proof fn law_wire_place_involution(family: PixelFamily, decorrelate: bool, i: int, len: int)
    requires
        0 <= i < len,
        len % unit(family) == 0,
    ensures
        0 <= wire_place(family, decorrelate, i) < len,
        wire_place(family, decorrelate, wire_place(family, decorrelate, i)) == i,
{
    reveal(wire_place);
}

/// Whole pixels change no codebook.
pub proof fn lemma_slot_shift(family: PixelFamily, decorrelate: bool, n: int, i: int)
    requires
        n >= 0,
        i >= 0,
        n % unit(family) == 0,
    ensures
        slot_of(family, decorrelate, n + i) == slot_of(family, decorrelate, i),
{
    let u = unit(family);
    vstd::arithmetic::div_mod::lemma_add_mod_noop(n, i, u);
    vstd::arithmetic::div_mod::lemma_mod_twice(i, u);
    assert((n + i) % u == i % u);
    reveal(slot_of);
}

/// Numbers of whole pixels, and their sums and differences.
pub proof fn lemma_whole_units(family: PixelFamily, a: int, b: int)
    requires
        a % unit(family) == 0,
        b % unit(family) == 0,
    ensures
        (a + b) % unit(family) == 0,
        (a - unit(family)) % unit(family) == 0,
        a > 0 ==> a >= unit(family),
{
    match family {
        PixelFamily::Yuy2 => {
            assert(a % 4 == 0 && b % 4 == 0);
        },
        PixelFamily::Rgb24 => {
            assert(a % 3 == 0 && b % 3 == 0);
        },
        PixelFamily::Rgb32 => {
            assert(a % 4 == 0 && b % 4 == 0);
        },
    }
}

/// The residuals of a field, in raster order.
pub open spec fn field_residuals(
    family: PixelFamily,
    predictor: Predictor,
    decorrelate: bool,
    row_bytes: int,
    height: int,
    p: Seq<u8>,
) -> Seq<u8> {
    if family is Yuy2 {
        match predictor {
            Predictor::Left => yuy2_left_residuals(p),
            Predictor::Gradient => yuy2_left_residuals(gradient_residuals(p, row_bytes)),
            Predictor::Median => median_residuals(p, row_bytes, height),
        }
    } else {
        let d = if decorrelate {
            decorrelated(p, unit(family))
        } else {
            p
        };
        let g = if predictor is Gradient {
            gradient_residuals(d, row_bytes)
        } else {
            d
        };
        left_residuals(g, unit(family))
    }
}

/// The residuals of a field determine it.
pub proof fn law_field_residuals_determine(
    family: PixelFamily,
    predictor: Predictor,
    decorrelate: bool,
    row_bytes: int,
    height: int,
    p: Seq<u8>,
    q: Seq<u8>,
)
    requires
        row_bytes > 0,
        field_residuals(family, predictor, decorrelate, row_bytes, height, p) == field_residuals(
            family,
            predictor,
            decorrelate,
            row_bytes,
            height,
            q,
        ),
    ensures
        p == q,
{
    let n = unit(family);
    if family is Yuy2 {
        match predictor {
            Predictor::Left => {
                law_yuy2_left_residuals_determine(p, q);
            },
            Predictor::Gradient => {
                let (gp, gq) = (gradient_residuals(p, row_bytes), gradient_residuals(q, row_bytes));
                law_yuy2_left_residuals_determine(gp, gq);
                law_gradient_residuals_determine(p, q, row_bytes);
            },
            Predictor::Median => {
                law_median_residuals_determine(p, q, row_bytes, height);
            },
        }
    } else {
        let (dp, dq) = if decorrelate {
            (decorrelated(p, n), decorrelated(q, n))
        } else {
            (p, q)
        };
        if predictor is Gradient {
            let (gp, gq) = (gradient_residuals(dp, row_bytes), gradient_residuals(dq, row_bytes));
            law_left_residuals_determine(gp, gq, n);
            law_gradient_residuals_determine(dp, dq, row_bytes);
        } else {
            law_left_residuals_determine(dp, dq, n);
        }
        if decorrelate {
            law_decorrelated_determines(p, q, n);
        }
    }
}

/// The first pixel that the four uncompressed bytes hold. RGB24 has a zero byte
/// in front of it.
pub open spec fn first_pixel(family: PixelFamily, seed: Seq<u8>) -> Seq<u8> {
    if family is Rgb24 {
        seed.subrange(1, 4)
    } else {
        seed
    }
}

/// The residuals `body` stand in their places behind the first pixel.
pub open spec fn placed(
    family: PixelFamily,
    decorrelate: bool,
    raster: Seq<u8>,
    body: Seq<u8>,
) -> bool {
    forall|i: int|
        0 <= i < body.len() ==> raster[unit(family) + wire_place(family, decorrelate, i)]
            == #[trigger] body[i]
}

/// The four uncompressed bytes `seed` and the residual bytes `body` describe the
/// raster `p` of a field.
pub open spec fn carries(
    family: PixelFamily,
    predictor: Predictor,
    decorrelate: bool,
    row_bytes: int,
    height: int,
    p: Seq<u8>,
    seed: Seq<u8>,
    body: Seq<u8>,
) -> bool {
    let r = field_residuals(family, predictor, decorrelate, row_bytes, height, p);
    &&& p.len() == row_bytes * height
    &&& p.len() == unit(family) + body.len()
    &&& seed.len() == 4
    &&& forall|i: int|
        0 <= i < unit(family) ==> #[trigger] r[i] == first_pixel(family, seed)[i]
    &&& placed(family, decorrelate, r, body)
}

/// Predicting keeps the length of a field.
pub proof fn lemma_field_residuals_len(
    family: PixelFamily,
    predictor: Predictor,
    decorrelate: bool,
    row_bytes: int,
    height: int,
    p: Seq<u8>,
)
    ensures
        field_residuals(family, predictor, decorrelate, row_bytes, height, p).len() == p.len(),
{
}

/// Uncompressed bytes and residual bytes describe at most one raster.
pub proof fn law_carried_field_is_unique(
    family: PixelFamily,
    predictor: Predictor,
    decorrelate: bool,
    row_bytes: int,
    height: int,
    p: Seq<u8>,
    q: Seq<u8>,
    seed: Seq<u8>,
    body: Seq<u8>,
)
    requires
        row_bytes > 0,
        body.len() % unit(family) as nat == 0,
        carries(family, predictor, decorrelate, row_bytes, height, p, seed, body),
        carries(family, predictor, decorrelate, row_bytes, height, q, seed, body),
    ensures
        p == q,
{
    let n = unit(family);
    let rp = field_residuals(family, predictor, decorrelate, row_bytes, height, p);
    let rq = field_residuals(family, predictor, decorrelate, row_bytes, height, q);
    lemma_field_residuals_len(family, predictor, decorrelate, row_bytes, height, p);
    lemma_field_residuals_len(family, predictor, decorrelate, row_bytes, height, q);
    assert forall|k: int| 0 <= k < rp.len() implies #[trigger] rp[k] == rq[k] by {
        if k < n {
            assert(rp[k] == first_pixel(family, seed)[k]);
            assert(rq[k] == first_pixel(family, seed)[k]);
        } else {
            law_wire_place_involution(family, decorrelate, k - n, body.len() as int);
            let i = wire_place(family, decorrelate, k - n);
            assert(rp[n + wire_place(family, decorrelate, i)] == body[i]);
            assert(rq[n + wire_place(family, decorrelate, i)] == body[i]);
        }
    }
    assert(rp =~= rq);
    law_field_residuals_determine(family, predictor, decorrelate, row_bytes, height, p, q);
}

/// The bytes of a raster of `width` by `height` pixels.
pub open spec fn raster_len(family: PixelFamily, width: u32, height: u32) -> int {
    width * family.step() * height
}

/// Rows of a raster whose size fits are not capped, and hold whole pixels.
pub proof fn lemma_raster_rows(family: PixelFamily, width: u32, height: u32)
    ensures
        raster_len(family, width, height) >= 0,
        width > 0 && height > 0 <==> raster_len(family, width, height) > 0,
        height > 0 && raster_len(family, width, height) <= usize::MAX ==> family.spec_row_bytes(
            width,
        ) == width * family.step(),
        (family is Yuy2 ==> width % 2 == 0) ==> (width * family.step()) % unit(family) == 0,
        (family is Yuy2 ==> width % 2 == 0) ==> raster_len(family, width, height) % unit(family)
            == 0,
        (family is Yuy2 ==> width % 2 == 0) && width > 0 && height > 0 ==> raster_len(
            family,
            width,
            height,
        ) >= unit(family),
{
    let rb = width * family.step();
    let h = height as int;
    assert(rb >= 0);
    assert(rb * h >= 0 && (h > 0 ==> rb * h >= rb) && (rb > 0 && h > 0 <==> rb * h > 0))
        by (nonlinear_arith)
        requires
            rb >= 0,
            h >= 0,
    ;
    if family is Yuy2 ==> width % 2 == 0 {
        let u = unit(family);
        let q = rb / u;
        assert(rb == q * u);
        assert(rb * h == (q * h) * u) by (nonlinear_arith)
            requires
                rb == q * u,
        ;
        vstd::arithmetic::div_mod::lemma_mod_multiples_basic(q * h, u);
    }
}

/// The bytes of a raster, where `usize` holds them.
pub fn raster_size(family: PixelFamily, width: u32, height: u32) -> (n: Option<usize>)
    ensures
        match n {
            Some(v) => v == raster_len(family, width, height),
            None => raster_len(family, width, height) > usize::MAX,
        },
{
    proof {
        lemma_raster_rows(family, width, height);
    }
    if width == 0 || height == 0 {
        return Some(0);
    }
    let w: usize = width as usize;
    match w.checked_mul(family.bytes_per_pixel_step()) {
        Some(row) => row.checked_mul(height as usize),
        None => {
            proof {
                let rb = width * family.step();
                let h = height as int;
                assert(rb * h >= rb) by (nonlinear_arith)
                    requires
                        rb >= 0,
                        h >= 1,
                ;
            }
            None
        },
    }
}

} // verus!
