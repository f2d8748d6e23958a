//! Residuals of a frame, as the encoder puts them on the wire.

use vstd::prelude::*;

use crate::error::{Error, Result};
use crate::header::{Method, PixelFamily, Predictor};
use crate::layout::{
    carries, field_residuals, law_wire_place_involution, lemma_field_residuals_len,
    lemma_raster_rows, lemma_whole_units, place_of, raster_len, raster_size, unit, unit_bytes,
    wire_place,
};
use crate::predict::{
    field, field_rows, forward_decorr_gradient_subtract, forward_gradient_subtract,
    forward_left_decorr_residuals, forward_median_subtract, forward_rgb_left_subtract_linear,
    forward_yuy2_left_subtract, is_interlaced_height, split_fields,
};

verus! {

/// The four uncompressed bytes in front of a field with the residuals `r`: the
/// first pixel, behind a zero byte for RGB24, or zeros where there is none.
pub open spec fn wire_seed(family: PixelFamily, r: Seq<u8>) -> Seq<u8> {
    if r.len() < unit(family) {
        seq![0u8, 0u8, 0u8, 0u8]
    } else if family is Rgb24 {
        seq![0u8, r[0], r[1], r[2]]
    } else {
        seq![r[0], r[1], r[2], r[3]]
    }
}

/// The residuals behind the first pixel, in wire order.
pub open spec fn wire_body(family: PixelFamily, decorrelate: bool, r: Seq<u8>) -> Seq<u8> {
    Seq::new(
        if r.len() < unit(family) {
            0
        } else {
            (r.len() - unit(family)) as nat
        },
        |i: int| r[unit(family) + wire_place(family, decorrelate, i)],
    )
}

/// The residuals of a field under a method, in raster order.
pub open spec fn method_residuals(
    family: PixelFamily,
    method: Method,
    width: u32,
    height: u32,
    p: Seq<u8>,
) -> Seq<u8> {
    field_residuals(
        family,
        method.spec_predictor(),
        method.decorrelates(),
        width * family.step(),
        height as int,
        p,
    )
}

/// What goes on the wire for a field describes it.
pub proof fn law_wire_carries_field(
    family: PixelFamily,
    method: Method,
    width: u32,
    height: u32,
    p: Seq<u8>,
)
    requires
        p.len() == raster_len(family, width, height),
        width > 0,
        height > 0,
        family is Yuy2 ==> width % 2 == 0,
    ensures
        carries(
            family,
            method.spec_predictor(),
            method.decorrelates(),
            width * family.step(),
            height as int,
            p,
            wire_seed(family, method_residuals(family, method, width, height, p)),
            wire_body(
                family,
                method.decorrelates(),
                method_residuals(family, method, width, height, p),
            ),
        ),
{
    let r = method_residuals(family, method, width, height, p);
    lemma_raster_rows(family, width, height);
    lemma_field_residuals_len(
        family,
        method.spec_predictor(),
        method.decorrelates(),
        width * family.step(),
        height as int,
        p,
    );
}

/// The uncompressed bytes and the residual bytes of a field.
#[derive(Debug, Clone)]
pub struct Residuals {
    pub seed: [u8; 4],
    /// The residuals behind the first pixel, in wire order.
    pub body: Vec<u8>,
}

/// The size is that of a raster, and a YUY2 raster has whole macropixels.
pub open spec fn is_raster(family: PixelFamily, width: u32, height: u32, len: nat) -> bool {
    &&& len == raster_len(family, width, height)
    &&& family is Yuy2 ==> width % 2 == 0
}

/// Puts residuals in raster order into wire order.
fn to_wire(family: PixelFamily, decorrelate: bool, res: &Vec<u8>) -> (w: Residuals)
    requires
        res@.len() % unit(family) as nat == 0,
    ensures
        w.seed@ == wire_seed(family, res@),
        w.body@ == wire_body(family, decorrelate, res@),
{
    let total: usize = res.len();
    let skip: usize = unit_bytes(family);
    let mut seed: [u8; 4] = [0u8;4];
    let mut body: Vec<u8> = Vec::new();
    if total < skip {
        assert(seed@ =~= wire_seed(family, res@));
        assert(body@ =~= wire_body(family, decorrelate, res@));
        return Residuals { seed, body };
    }
    if skip == 3 {
        seed[1] = res[0];
        seed[2] = res[1];
        seed[3] = res[2];
    } else {
        seed[0] = res[0];
        seed[1] = res[1];
        seed[2] = res[2];
        seed[3] = res[3];
    }
    assert(seed@ =~= wire_seed(family, res@));
    let count: usize = total - skip;
    proof {
        lemma_whole_units(family, total as int, 0);
    }
    let mut i: usize = 0;
    while i < count
        invariant
            i <= count,
            count == total - skip,
            total == res@.len(),
            skip == unit(family),
            count as int % unit(family) == 0,
            body@.len() == i,
            forall|k: int|
                0 <= k < i ==> #[trigger] body@[k] == wire_body(family, decorrelate, res@)[k],
        decreases count - i,
    {
        proof {
            law_wire_place_involution(family, decorrelate, i as int, count as int);
        }
        let at: usize = skip + place_of(family, decorrelate, i);
        body.push(res[at]);
        i = i + 1;
    }
    assert(body@ =~= wire_body(family, decorrelate, res@));
    Residuals { seed, body }
}

/// The residuals of a YUY2 field.
pub fn yuy2_residuals(method: Method, width: u32, height: u32, pixels: &[u8]) -> (r: Result<
    Residuals,
>)
    ensures
        r is Ok <==> is_raster(PixelFamily::Yuy2, width, height, pixels@.len()),
        r matches Ok(w) ==> {
            let res = method_residuals(PixelFamily::Yuy2, method, width, height, pixels@);
            &&& w.seed@ == wire_seed(PixelFamily::Yuy2, res)
            &&& w.body@ == wire_body(PixelFamily::Yuy2, method.decorrelates(), res)
        },
        r matches Err(e) ==> e is InvalidData,
{
    let family = PixelFamily::Yuy2;
    let given: usize = pixels.len();
    let total: usize = match raster_size(family, width, height) {
        Some(n) => n,
        None => {
            return Err(Error::invalid("encoder: YUY2 pixel buffer has the wrong size"));
        },
    };
    if given != total {
        return Err(Error::invalid("encoder: YUY2 pixel buffer has the wrong size"));
    }
    if width % 2 != 0 {
        return Err(Error::invalid("encoder: YUY2 width must be even"));
    }
    let row_bytes: usize = family.row_bytes(width);
    let h: usize = height as usize;
    proof {
        lemma_raster_rows(family, width, height);
        lemma_row_bytes(family, width, height);
    }
    let mut residuals: Vec<u8> = vec![0u8; total];
    match method.predictor() {
        Predictor::Median => {
            forward_median_subtract(pixels, residuals.as_mut_slice(), row_bytes, h);
        },
        Predictor::Gradient => {
            let mut rows: Vec<u8> = vec![0u8; total];
            forward_gradient_subtract(pixels, rows.as_mut_slice(), row_bytes, h);
            forward_yuy2_left_subtract(rows.as_slice(), residuals.as_mut_slice());
        },
        Predictor::Left => {
            forward_yuy2_left_subtract(pixels, residuals.as_mut_slice());
        },
    }
    proof {
        lemma_empty_residuals(family, method, width, height, row_bytes as int, pixels@);
    }
    Ok(to_wire(family, method.decorrelate(), &residuals))
}

/// The capped row size differs from the row size only where the raster is empty.
proof fn lemma_row_bytes(family: PixelFamily, width: u32, height: u32)
    requires
        raster_len(family, width, height) <= usize::MAX,
    ensures
        family.spec_row_bytes(width) * height == raster_len(family, width, height),
{
    lemma_raster_rows(family, width, height);
    if height == 0 {
        let (a, b) = (family.spec_row_bytes(width), width * family.step());
        assert(a * height == 0 && b * height == 0) by (nonlinear_arith)
            requires
                height == 0,
        ;
    }
}

/// The residuals of a raster do not depend on a row size that was capped.
proof fn lemma_empty_residuals(
    family: PixelFamily,
    method: Method,
    width: u32,
    height: u32,
    row_bytes: int,
    p: Seq<u8>,
)
    requires
        p.len() == raster_len(family, width, height),
        p.len() <= usize::MAX,
        row_bytes == family.spec_row_bytes(width),
    ensures
        field_residuals(
            family,
            method.spec_predictor(),
            method.decorrelates(),
            row_bytes,
            height as int,
            p,
        ) == method_residuals(family, method, width, height, p),
{
    lemma_raster_rows(family, width, height);
    if height == 0 {
        let (a, b) = (method.spec_predictor(), method.decorrelates());
        lemma_field_residuals_len(family, a, b, row_bytes, height as int, p);
        lemma_field_residuals_len(family, a, b, width * family.step(), height as int, p);
        assert(field_residuals(family, a, b, row_bytes, height as int, p) =~= method_residuals(
            family,
            method,
            width,
            height,
            p,
        ));
    }
}

/// The residuals of an RGB field of at least one pixel. The passes over the
/// raster are fused where a method both decorrelates and predicts.
fn rgb_residuals(
    family: PixelFamily,
    method: Method,
    width: u32,
    height: u32,
    pixels: &[u8],
) -> (r: Result<Residuals>)
    requires
        family.rgb(),
        !(pixels@.len() == 0 && raster_len(family, width, height) == 0),
    ensures
        r is Ok <==> is_raster(family, width, height, pixels@.len()),
        r matches Ok(w) ==> {
            let res = method_residuals(family, method, width, height, pixels@);
            &&& w.seed@ == wire_seed(family, res)
            &&& w.body@ == wire_body(family, method.decorrelates(), res)
        },
        r matches Err(e) ==> e is InvalidData,
{
    let given: usize = pixels.len();
    let total: usize = match raster_size(family, width, height) {
        Some(n) => n,
        None => {
            return Err(Error::invalid("encoder: RGB pixel buffer has the wrong size"));
        },
    };
    if given != total {
        return Err(Error::invalid("encoder: RGB pixel buffer has the wrong size"));
    }
    let n: usize = unit_bytes(family);
    let row_bytes: usize = family.row_bytes(width);
    let h: usize = height as usize;
    proof {
        lemma_raster_rows(family, width, height);
    }
    let mut residuals: Vec<u8> = vec![0u8; total];
    match (method.decorrelate(), method.predictor()) {
        (true, Predictor::Gradient) => {
            let mut rows: Vec<u8> = vec![0u8; total];
            forward_decorr_gradient_subtract(pixels, rows.as_mut_slice(), n, row_bytes, h);
            forward_rgb_left_subtract_linear(rows.as_slice(), residuals.as_mut_slice(), n);
        },
        (true, _) => {
            forward_left_decorr_residuals(pixels, residuals.as_mut_slice(), n);
        },
        (false, Predictor::Gradient) => {
            let mut rows: Vec<u8> = vec![0u8; total];
            forward_gradient_subtract(pixels, rows.as_mut_slice(), row_bytes, h);
            forward_rgb_left_subtract_linear(rows.as_slice(), residuals.as_mut_slice(), n);
        },
        (false, _) => {
            forward_rgb_left_subtract_linear(pixels, residuals.as_mut_slice(), n);
        },
    }
    Ok(to_wire(family, method.decorrelate(), &residuals))
}

/// The residuals of an RGB24 field of at least one pixel.
pub fn rgb24_residuals(method: Method, width: u32, height: u32, pixels: &[u8]) -> (r: Result<
    Residuals,
>)
    requires
        !(pixels@.len() == 0 && raster_len(PixelFamily::Rgb24, width, height) == 0),
    ensures
        r is Ok <==> is_raster(PixelFamily::Rgb24, width, height, pixels@.len()),
        r matches Ok(w) ==> {
            let res = method_residuals(PixelFamily::Rgb24, method, width, height, pixels@);
            &&& w.seed@ == wire_seed(PixelFamily::Rgb24, res)
            &&& w.body@ == wire_body(PixelFamily::Rgb24, method.decorrelates(), res)
        },
        r matches Err(e) ==> e is InvalidData,
{
    rgb_residuals(PixelFamily::Rgb24, method, width, height, pixels)
}

/// The residuals of an RGB32 field of at least one pixel.
pub fn rgb32_residuals(method: Method, width: u32, height: u32, pixels: &[u8]) -> (r: Result<
    Residuals,
>)
    requires
        !(pixels@.len() == 0 && raster_len(PixelFamily::Rgb32, width, height) == 0),
    ensures
        r is Ok <==> is_raster(PixelFamily::Rgb32, width, height, pixels@.len()),
        r matches Ok(w) ==> {
            let res = method_residuals(PixelFamily::Rgb32, method, width, height, pixels@);
            &&& w.seed@ == wire_seed(PixelFamily::Rgb32, res)
            &&& w.body@ == wire_body(PixelFamily::Rgb32, method.decorrelates(), res)
        },
        r matches Err(e) ==> e is InvalidData,
{
    rgb_residuals(PixelFamily::Rgb32, method, width, height, pixels)
}

/// A raster that no field can be made of: an RGB field has a first pixel.
pub open spec fn is_blank(family: PixelFamily, width: u32, height: u32, len: nat) -> bool {
    family.rgb() && len == 0 && raster_len(family, width, height) == 0
}

/// The residuals of a field.
pub fn compute_residuals(
    family: PixelFamily,
    method: Method,
    width: u32,
    height: u32,
    pixels: &[u8],
) -> (r: Result<Residuals>)
    requires
        family.rgb() ==> !(pixels@.len() == 0 && raster_len(family, width, height) == 0),
    ensures
        r is Ok <==> is_raster(family, width, height, pixels@.len()),
        r matches Ok(w) ==> {
            let res = method_residuals(family, method, width, height, pixels@);
            &&& w.seed@ == wire_seed(family, res)
            &&& w.body@ == wire_body(family, method.decorrelates(), res)
        },
        r matches Err(e) ==> e is InvalidData,
{
    match family {
        PixelFamily::Yuy2 => yuy2_residuals(method, width, height, pixels),
        PixelFamily::Rgb24 => rgb24_residuals(method, width, height, pixels),
        PixelFamily::Rgb32 => rgb32_residuals(method, width, height, pixels),
    }
}

/// The residuals of a frame in raster order, or those of one field of it.
pub open spec fn part_residuals(
    family: PixelFamily,
    method: Method,
    width: u32,
    height: u32,
    p: Seq<u8>,
    parity: int,
) -> Seq<u8> {
    if height > 288 {
        method_residuals(
            family,
            method,
            width,
            field_rows(height as int, parity) as u32,
            field(p, width * family.step(), height as int, parity),
        )
    } else {
        method_residuals(family, method, width, height, p)
    }
}

/// The uncompressed bytes of a frame, or of one field of it.
pub open spec fn part_seed(
    family: PixelFamily,
    method: Method,
    width: u32,
    height: u32,
    p: Seq<u8>,
    parity: int,
) -> Seq<u8> {
    wire_seed(family, part_residuals(family, method, width, height, p, parity))
}

/// The residual bytes of a frame, or of one field of it.
pub open spec fn part_body(
    family: PixelFamily,
    method: Method,
    width: u32,
    height: u32,
    p: Seq<u8>,
    parity: int,
) -> Seq<u8> {
    wire_body(
        family,
        method.decorrelates(),
        part_residuals(family, method, width, height, p, parity),
    )
}

/// The residual bytes of a frame; those of its second field follow those of its
/// first.
pub open spec fn frame_body(
    family: PixelFamily,
    method: Method,
    width: u32,
    height: u32,
    p: Seq<u8>,
) -> Seq<u8> {
    if height > 288 {
        part_body(family, method, width, height, p, 0) + part_body(
            family,
            method,
            width,
            height,
            p,
            1,
        )
    } else {
        part_body(family, method, width, height, p, 0)
    }
}

/// The residuals of a frame.
#[derive(Debug, Clone)]
pub struct PrecomputedFrame {
    /// `true` when the frame comes as two fields.
    pub interlaced: bool,
    pub top_seed: [u8; 4],
    /// The uncompressed bytes of the second field.
    pub bot_seed_opt: Option<[u8; 4]>,
    /// How many of the residual bytes are those of the first field.
    pub top_body_len: usize,
    pub combined_body: Vec<u8>,
}

impl PrecomputedFrame {
    /// The residuals are those of the raster `p`.
    pub open spec fn describes(
        &self,
        family: PixelFamily,
        method: Method,
        width: u32,
        height: u32,
        p: Seq<u8>,
    ) -> bool {
        &&& self.interlaced == (height > 288)
        &&& self.top_seed@ == part_seed(family, method, width, height, p, 0)
        &&& self.top_body_len == part_body(family, method, width, height, p, 0).len()
        &&& self.combined_body@ == frame_body(family, method, width, height, p)
        &&& if height > 288 {
            self.bot_seed_opt matches Some(seed) && seed@ == part_seed(
                family,
                method,
                width,
                height,
                p,
                1,
            )
        } else {
            self.bot_seed_opt is None
        }
    }
}

/// The residuals of a frame, field by field where its height exceeds 288.
pub fn compute_frame_residuals(
    family: PixelFamily,
    method: Method,
    width: u32,
    height: u32,
    pixels: &[u8],
) -> (r: Result<PrecomputedFrame>)
    requires
        !is_blank(family, width, height, pixels@.len()),
    ensures
        r is Ok <==> is_raster(family, width, height, pixels@.len()),
        r matches Ok(f) ==> f.describes(family, method, width, height, pixels@),
        r matches Err(e) ==> e is InvalidData,
{
    if !is_interlaced_height(height) {
        let r = compute_residuals(family, method, width, height, pixels)?;
        let top_body_len: usize = r.body.len();
        return Ok(
            PrecomputedFrame {
                interlaced: false,
                top_seed: r.seed,
                bot_seed_opt: None,
                top_body_len,
                combined_body: r.body,
            },
        );
    }
    let given: usize = pixels.len();
    let total: usize = match raster_size(family, width, height) {
        Some(n) => n,
        None => {
            return Err(Error::invalid("encoder: pixel buffer has the wrong size"));
        },
    };
    if given != total {
        return Err(Error::invalid("encoder: pixel buffer has the wrong size"));
    }
    let top_h: u32 = height / 2 + height % 2;
    let bot_h: u32 = height / 2;
    proof {
        lemma_raster_rows(family, width, height);
        lemma_field_sizes(family, width, height);
    }
    let row_bytes: usize = family.row_bytes(width);
    let (top, bot) = split_fields(pixels, row_bytes, height as usize);
    let top_res = compute_residuals(family, method, width, top_h, top.as_slice())?;
    let mut bot_res = compute_residuals(family, method, width, bot_h, bot.as_slice())?;
    let top_body_len: usize = top_res.body.len();
    let mut combined: Vec<u8> = top_res.body;
    combined.append(&mut bot_res.body);
    Ok(
        PrecomputedFrame {
            interlaced: true,
            top_seed: top_res.seed,
            bot_seed_opt: Some(bot_res.seed),
            top_body_len,
            combined_body: combined,
        },
    )
}

/// The sizes of the two fields of a frame.
pub proof fn lemma_field_sizes(family: PixelFamily, width: u32, height: u32)
    requires
        height > 288,
    ensures
        forall|p: Seq<u8>, parity: int| #![trigger field(p, width * family.step(), height as int, parity)]
            0 <= parity <= 1 ==> field(p, width * family.step(), height as int, parity).len()
                == raster_len(family, width, field_rows(height as int, parity) as u32),
        raster_len(family, width, height) > 0 ==> raster_len(
            family,
            width,
            field_rows(height as int, 0) as u32,
        ) > 0 && raster_len(family, width, field_rows(height as int, 1) as u32) > 0,
{
    lemma_raster_rows(family, width, height);
    lemma_raster_rows(family, width, field_rows(height as int, 0) as u32);
    lemma_raster_rows(family, width, field_rows(height as int, 1) as u32);
}

} // verus!
