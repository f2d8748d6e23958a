//! Frame encoder.

use vstd::prelude::*;

use crate::canonical::all_shares;
use crate::classic::{classic_blob, classic_blob_bytes, lemma_classic_blob};
use crate::code_lengths::{
    best_lengths, bit_shares, compute_canonical_lengths, has_symbol, law_best_lengths, least_bits,
    lemma_best_is_least, lemma_nothing_counted,
};
use crate::decoder::{
    builtin_books, canonical_books, coded_books, tables_from_extradata, v1x_tables, Codebooks,
    ThreeTables,
};
use crate::emit::{
    books_of, code_stream, countable, has_codewords, histogram, is_coded_field, law_count_bounded,
    symbol_count,
};
use crate::error::{Error, Result};
use crate::header::{
    legal, magnitude, parse_header, Method, PixelFamily, StreamConfig, StreamInfo,
};
use crate::layout::{
    lemma_field_residuals_len, lemma_raster_rows, lemma_slot_shift, lemma_whole_units, raster_len,
    slot_of, unit, Slot,
};
use crate::predict::{field, field_rows};
use crate::residuals::{
    frame_body, is_blank, is_raster, lemma_field_sizes, method_residuals, part_body, part_seed,
    wire_body,
};
use crate::rle_encode::{compress, law_compress_not_longer};
use crate::strf::{built_header, law_parse_built_header};
use crate::tables::{
    entries_wf, is_prefix_free, law_three_channels_round_trip, lemma_canonical_entries, lengths_ok,
    rle_encode_three_channels, three_lengths, HuffTable, MAX_LENGTH,
};
use crate::v1x::{lemma_set_a, lemma_set_b, lens_a, lens_b};

pub use crate::emit::{emit_bitstream_parts, histogramise, lookup_code, verify_body_in_table};
pub use crate::residuals::{
    compute_frame_residuals, compute_residuals, rgb24_residuals, rgb32_residuals, yuy2_residuals,
    PrecomputedFrame, Residuals,
};
pub use crate::strf::build_bitmapinfoheader;

verus! {

/// Where a stream's codebooks come from.
#[derive(Debug, Clone, Copy, PartialEq, Eq, Structural)]
pub enum ExtradataMode {
    /// The header carries the default length tables.
    ClassicV2,
    /// The header carries length tables made for the frame.
    CustomV2,
    /// The header carries nothing; the codebooks are the built-in ones.
    V1xCompat,
}

impl Default for ExtradataMode {
    fn default() -> (m: Self)
        ensures
            m == ExtradataMode::ClassicV2,
    {
        ExtradataMode::ClassicV2
    }
}

// ---------------------------------------------------------------------------
// Codebooks
// ---------------------------------------------------------------------------

/// The length one for every symbol.
pub open spec fn ones() -> Seq<u8> {
    Seq::new(256, |s: int| 1u8)
}

/// The lengths made for what a body codes with one codebook: the best ones, or
/// ones where it codes nothing.
pub open spec fn body_lengths(
    family: PixelFamily,
    decorrelate: bool,
    body: Seq<u8>,
    slot: Slot,
) -> Seq<u8> {
    let hist = histogram(family, decorrelate, body, slot);
    if has_symbol(hist) {
        best_lengths(hist)
    } else {
        ones()
    }
}

/// The length tables that a header carries.
pub open spec fn mode_tables(
    mode: ExtradataMode,
    family: PixelFamily,
    method: Method,
    body: Seq<u8>,
) -> Seq<u8> {
    match mode {
        ExtradataMode::ClassicV2 => classic_blob(family, method),
        ExtradataMode::CustomV2 => compress(
            body_lengths(family, method.decorrelates(), body, Slot::First),
        ) + compress(body_lengths(family, method.decorrelates(), body, Slot::Second)) + compress(
            body_lengths(family, method.decorrelates(), body, Slot::Third),
        ),
        ExtradataMode::V1xCompat => Seq::empty(),
    }
}

/// The codebooks for a body; none where it is empty and they are to be made for
/// it.
pub open spec fn mode_books(
    mode: ExtradataMode,
    family: PixelFamily,
    method: Method,
    body: Seq<u8>,
) -> Option<Codebooks> {
    match mode {
        ExtradataMode::ClassicV2 => coded_books(classic_blob(family, method)),
        ExtradataMode::CustomV2 => if body.len() > 0 {
            Some(
                canonical_books(
                    body_lengths(family, method.decorrelates(), body, Slot::First),
                    body_lengths(family, method.decorrelates(), body, Slot::Second),
                    body_lengths(family, method.decorrelates(), body, Slot::Third),
                ),
            )
        } else {
            None
        },
        ExtradataMode::V1xCompat => Some(builtin_books(family)),
    }
}

/// Every residual is counted for its own codebook.
proof fn lemma_residual_counted(
    family: PixelFamily,
    decorrelate: bool,
    body: Seq<u8>,
    i: int,
)
    requires
        0 <= i < body.len(),
    ensures
        symbol_count(
            family,
            decorrelate,
            body,
            slot_of(family, decorrelate, i),
            body[i] as int,
        ) > 0,
    decreases body.len(),
{
    if i < body.len() - 1 {
        lemma_residual_counted(family, decorrelate, body.drop_last(), i);
    }
}

/// A symbol that occurs is in the histogram.
proof fn lemma_in_histogram(
    family: PixelFamily,
    decorrelate: bool,
    body: Seq<u8>,
    i: int,
)
    requires
        0 <= i < body.len(),
        countable(family, decorrelate, body),
    ensures
        histogram(family, decorrelate, body, slot_of(family, decorrelate, i))[body[i] as int] > 0,
        has_symbol(histogram(family, decorrelate, body, slot_of(family, decorrelate, i))),
{
    let slot = slot_of(family, decorrelate, i);
    let s = body[i] as int;
    lemma_residual_counted(family, decorrelate, body, i);
    assert(symbol_count(family, decorrelate, body, slot, s) <= u32::MAX);
    assert(histogram(family, decorrelate, body, slot)[s] > 0);
}

/// Whole pixels use every codebook.
proof fn lemma_every_slot_used(family: PixelFamily, decorrelate: bool, body: Seq<u8>, slot: Slot)
    requires
        body.len() >= unit(family),
        countable(family, decorrelate, body),
    ensures
        has_symbol(histogram(family, decorrelate, body, slot)),
{
    reveal(slot_of);
    assert(slot_of(family, decorrelate, 0) == slot || slot_of(family, decorrelate, 1) == slot
        || slot_of(family, decorrelate, unit(family) - 1) == slot);
    lemma_in_histogram(family, decorrelate, body, 0);
    lemma_in_histogram(family, decorrelate, body, 1);
    lemma_in_histogram(family, decorrelate, body, unit(family) - 1);
}

/// The codebooks are prefix-free.
pub open spec fn is_decodable(books: Codebooks) -> bool {
    forall|slot: Slot| #[trigger]
        entries_wf(books.slot(slot)) && is_prefix_free(books.slot(slot))
}

/// The lengths made for a body of whole pixels describe complete codes, and give
/// every residual a codeword.
proof fn lemma_body_lengths(family: PixelFamily, decorrelate: bool, body: Seq<u8>, slot: Slot)
    requires
        body.len() >= unit(family),
        countable(family, decorrelate, body),
    ensures
        lengths_ok(body_lengths(family, decorrelate, body, slot)),
        forall|i: int|
            0 <= i < body.len() && slot_of(family, decorrelate, i) == slot ==> body_lengths(
                family,
                decorrelate,
                body,
                slot,
            )[#[trigger] body[i] as int] > 0,
{
    let hist = histogram(family, decorrelate, body, slot);
    let lens = body_lengths(family, decorrelate, body, slot);
    lemma_every_slot_used(family, decorrelate, body, slot);
    law_best_lengths(hist);
    assert forall|i: int| 0 <= i < body.len() && slot_of(family, decorrelate, i) == slot implies
        lens[#[trigger] body[i] as int] > 0 by {
        lemma_in_histogram(family, decorrelate, body, i);
    }
}

/// The codebooks for a frame exist unless they are to be made for an empty body.
/// They are those that the length tables in the header describe, they are
/// prefix-free, and every residual has a codeword.
pub proof fn law_mode_books(
    mode: ExtradataMode,
    family: PixelFamily,
    method: Method,
    body: Seq<u8>,
)
    requires
        body.len() % unit(family) as nat == 0,
        mode is CustomV2 ==> body.len() > 0 && countable(family, method.decorrelates(), body),
    ensures
        mode_books(mode, family, method, body) matches Some(books) && is_decodable(books)
            && has_codewords(books, family, method.decorrelates(), body) && (if mode is V1xCompat {
            books == builtin_books(family)
        } else {
            coded_books(mode_tables(mode, family, method, body)) == Some(books)
        }),
        !(mode is V1xCompat) ==> 0 < mode_tables(mode, family, method, body).len() <= 1000,
{
    let decorrelate = method.decorrelates();
    let books = mode_books(mode, family, method, body).unwrap();
    match mode {
        ExtradataMode::ClassicV2 => {
            lemma_classic_blob(family, method);
            let (l1, l2, l3) = three_lengths(classic_blob(family, method)).unwrap();
            lemma_canonical_entries(l1);
            lemma_canonical_entries(l2);
            lemma_canonical_entries(l3);
            assert forall|slot: Slot, c: u8| #![trigger books.slot(slot)[c as int]]
                books.slot(slot)[c as int].length > 0 by {
                match slot {
                    Slot::First => {
                        assert(l1[c as int] > 0);
                    },
                    Slot::Second => {
                        assert(l2[c as int] > 0);
                    },
                    Slot::Third => {
                        assert(l3[c as int] > 0);
                    },
                }
            }
        },
        ExtradataMode::CustomV2 => {
            lemma_whole_units(family, body.len() as int, 0);
            let l1 = body_lengths(family, decorrelate, body, Slot::First);
            let l2 = body_lengths(family, decorrelate, body, Slot::Second);
            let l3 = body_lengths(family, decorrelate, body, Slot::Third);
            lemma_body_lengths(family, decorrelate, body, Slot::First);
            lemma_body_lengths(family, decorrelate, body, Slot::Second);
            lemma_body_lengths(family, decorrelate, body, Slot::Third);
            lemma_canonical_entries(l1);
            lemma_canonical_entries(l2);
            lemma_canonical_entries(l3);
            law_three_channels_round_trip(l1, l2, l3);
            law_compress_not_longer(l1, 0);
            law_compress_not_longer(l2, 0);
            law_compress_not_longer(l3, 0);
            lemma_compress_not_empty(l1);
            assert forall|i: int| 0 <= i < body.len() implies books.slot(
                slot_of(family, decorrelate, i),
            )[#[trigger] body[i] as int].length > 0 by {
                match slot_of(family, decorrelate, i) {
                    Slot::First => {
                        assert(l1[body[i] as int] > 0);
                    },
                    Slot::Second => {
                        assert(l2[body[i] as int] > 0);
                    },
                    Slot::Third => {
                        assert(l3[body[i] as int] > 0);
                    },
                }
            }
        },
        ExtradataMode::V1xCompat => {
            lemma_set_a();
            lemma_set_b();
            assert forall|slot: Slot, c: u8| #![trigger books.slot(slot)[c as int]]
                books.slot(slot)[c as int].length > 0 by {
                assert(lens_a()@[c as int] >= 1);
                assert(lens_b()@[c as int] >= 1);
            }
        },
    }
    assert forall|slot: Slot| #[trigger]
        entries_wf(books.slot(slot)) && is_prefix_free(books.slot(slot)) by {
        match slot {
            Slot::First => {},
            Slot::Second => {},
            Slot::Third => {},
        }
    }
}

/// A length table takes at least one byte.
proof fn lemma_compress_not_empty(lens: Seq<u8>)
    requires
        lens.len() > 0,
    ensures
        compress(lens).len() > 0,
{
}

/// The code lengths for what a body codes with each codebook.
pub fn compute_lengths_from_body(family: PixelFamily, method: Method, body: &[u8]) -> (lens: [[u8;
    256]; 3])
    requires
        countable(family, method.decorrelates(), body@),
    ensures
        lens@[0]@ == body_lengths(family, method.decorrelates(), body@, Slot::First),
        lens@[1]@ == body_lengths(family, method.decorrelates(), body@, Slot::Second),
        lens@[2]@ == body_lengths(family, method.decorrelates(), body@, Slot::Third),
{
    let (h1, h2, h3) = histogramise(family, method, body);
    [lengths_or_ones(&h1), lengths_or_ones(&h2), lengths_or_ones(&h3)]
}

/// The best lengths for a histogram, or ones where nothing is counted.
fn lengths_or_ones(hist: &[u32; 256]) -> (lens: [u8; 256])
    ensures
        lens@ == (if has_symbol(hist@) {
            best_lengths(hist@)
        } else {
            ones()
        }),
{
    match compute_canonical_lengths(hist) {
        Ok(lens) => lens,
        Err(_) => {
            let lens: [u8; 256] = [1u8;256];
            assert(lens@ =~= ones());
            lens
        },
    }
}

/// Codewords of one bit for every symbol do not fit.
proof fn lemma_ones_refused()
    ensures
        !lengths_ok(ones()),
{
    vstd::arithmetic::power2::lemma2_to64();
    assert forall|s: int| 0 <= s < 256 implies #[trigger] all_shares(ones())(s) == 0x8000_0000 by {}
    crate::tally::lemma_tally_const(all_shares(ones()), 256, 0x8000_0000);
}

/// The codebooks for a body, with the length tables that the header carries.
fn make_tables(mode: ExtradataMode, family: PixelFamily, method: Method, body: &[u8]) -> (r: Result<
    (Vec<u8>, ThreeTables),
>)
    requires
        body@.len() % unit(family) as nat == 0,
        mode is CustomV2 ==> countable(family, method.decorrelates(), body@),
    ensures
        r is Ok <==> mode_books(mode, family, method, body@) is Some,
        r is Ok <==> (mode is CustomV2 ==> body@.len() > 0),
        r matches Ok((tables, books)) ==> {
            &&& tables@ == mode_tables(mode, family, method, body@)
            &&& books.wf()
            &&& mode_books(mode, family, method, body@) == Some(books@)
        },
        r matches Err(e) ==> e is InvalidData,
{
    proof {
        if !(mode is CustomV2) || body@.len() > 0 {
            law_mode_books(mode, family, method, body@);
        }
    }
    match mode {
        ExtradataMode::ClassicV2 => {
            let blob: Vec<u8> = classic_blob_bytes(family, method);
            let books = tables_from_extradata(blob.as_slice())?;
            Ok((blob, books))
        },
        ExtradataMode::CustomV2 => {
            let lens = compute_lengths_from_body(family, method, body);
            proof {
                if body@.len() == 0 {
                    lemma_ones_refused();
                    assert forall|s: int| 0 <= s < 256 implies #[trigger] histogram(
                        family,
                        method.decorrelates(),
                        body@,
                        Slot::First,
                    )[s] == 0 by {}
                } else {
                    lemma_whole_units(family, body@.len() as int, 0);
                    lemma_body_lengths(family, method.decorrelates(), body@, Slot::First);
                    lemma_body_lengths(family, method.decorrelates(), body@, Slot::Second);
                    lemma_body_lengths(family, method.decorrelates(), body@, Slot::Third);
                }
            }
            let slot1 = HuffTable::build_from_lengths(&lens[0])?;
            let slot2 = HuffTable::build_from_lengths(&lens[1])?;
            let slot3 = HuffTable::build_from_lengths(&lens[2])?;
            assert forall|c: int, s: int| 0 <= c < 3 && 0 <= s < 256 implies #[trigger] lens@[c]@[s]
                <= MAX_LENGTH by {
                assert(lengths_ok(lens@[c]@));
            }
            let tables: Vec<u8> = rle_encode_three_channels(&lens)?;
            Ok((tables, ThreeTables { slot1, slot2, slot3 }))
        },
        ExtradataMode::V1xCompat => {
            let books = v1x_tables(family)?;
            let tables: Vec<u8> = Vec::new();
            assert(tables@ =~= Seq::<u8>::empty());
            Ok((tables, books))
        },
    }
}

// ---------------------------------------------------------------------------
// Frames
// ---------------------------------------------------------------------------

/// The number of bytes of a field.
pub open spec fn coded_len(
    books: Codebooks,
    family: PixelFamily,
    decorrelate: bool,
    body: Seq<u8>,
) -> nat {
    4 + 4 * ((code_stream(books, family, decorrelate, body).len() + 31) / 32)
}

/// The bytes of a frame: those of its field, or of its two fields one after the
/// other.
pub open spec fn is_coded_frame(
    books: Codebooks,
    family: PixelFamily,
    method: Method,
    width: u32,
    height: u32,
    p: Seq<u8>,
    out: Seq<u8>,
) -> bool {
    let decorrelate = method.decorrelates();
    let (seed0, body0) = (
        part_seed(family, method, width, height, p, 0),
        part_body(family, method, width, height, p, 0),
    );
    if height > 288 {
        let (seed1, body1) = (
            part_seed(family, method, width, height, p, 1),
            part_body(family, method, width, height, p, 1),
        );
        let n = coded_len(books, family, decorrelate, body0) as int;
        &&& n <= out.len()
        &&& is_coded_field(books, family, decorrelate, seed0, body0, out.subrange(0, n))
        &&& is_coded_field(
            books,
            family,
            decorrelate,
            seed1,
            body1,
            out.subrange(n, out.len() as int),
        )
    } else {
        is_coded_field(books, family, decorrelate, seed0, body0, out)
    }
}

/// A header and a frame's bytes are what the raster `p` is encoded to.
pub open spec fn is_encoded(
    family: PixelFamily,
    method: Method,
    width: u32,
    height: u32,
    p: Seq<u8>,
    mode: ExtradataMode,
    strf: Seq<u8>,
    bytes: Seq<u8>,
) -> bool {
    let body = frame_body(family, method, width, height, p);
    &&& strf == built_header(
        family,
        method,
        width,
        height,
        mode_tables(mode, family, method, body),
        !(mode is V1xCompat),
    )
    &&& are_frame_bytes(family, method, width, height, p, mode, bytes)
}

/// Bytes are what the raster `p` is encoded to.
pub open spec fn are_frame_bytes(
    family: PixelFamily,
    method: Method,
    width: u32,
    height: u32,
    p: Seq<u8>,
    mode: ExtradataMode,
    bytes: Seq<u8>,
) -> bool {
    let body = frame_body(family, method, width, height, p);
    mode_books(mode, family, method, body) matches Some(books) && is_coded_frame(
        books,
        family,
        method,
        width,
        height,
        p,
        bytes,
    )
}

/// No symbol of a frame occurs more often than a histogram can count.
pub open spec fn frame_countable(
    family: PixelFamily,
    method: Method,
    width: u32,
    height: u32,
    p: Seq<u8>,
) -> bool {
    countable(family, method.decorrelates(), frame_body(family, method, width, height, p))
}

/// The residuals of a frame consist of whole pixels, and there are fewer of them
/// than there are bytes in it.
pub proof fn lemma_frame_body(
    family: PixelFamily,
    method: Method,
    width: u32,
    height: u32,
    p: Seq<u8>,
)
    requires
        is_raster(family, width, height, p.len()),
        !is_blank(family, width, height, p.len()),
    ensures
        part_body(family, method, width, height, p, 0).len() % unit(family) as nat == 0,
        part_body(family, method, width, height, p, 1).len() % unit(family) as nat == 0,
        frame_body(family, method, width, height, p).len() % unit(family) as nat == 0,
        frame_body(family, method, width, height, p).len() <= p.len(),
{
    let u = unit(family);
    lemma_raster_rows(family, width, height);
    if height > 288 {
        let (h0, h1) = (field_rows(height as int, 0) as u32, field_rows(height as int, 1) as u32);
        let rb = width * family.step();
        lemma_field_sizes(family, width, height);
        lemma_raster_rows(family, width, h0);
        lemma_raster_rows(family, width, h1);
        lemma_residuals_len(family, method, width, h0, field(p, rb, height as int, 0));
        lemma_residuals_len(family, method, width, h1, field(p, rb, height as int, 1));
        assert(rb * h0 + rb * h1 == rb * height) by (nonlinear_arith)
            requires
                h0 + h1 == height,
        ;
    } else {
        lemma_residuals_len(family, method, width, height, p);
    }
    lemma_whole_units(
        family,
        part_body(family, method, width, height, p, 0).len() as int,
        part_body(family, method, width, height, p, 1).len() as int,
    );
}

/// The number of residuals of a field.
pub proof fn lemma_residuals_len(
    family: PixelFamily,
    method: Method,
    width: u32,
    height: u32,
    p: Seq<u8>,
)
    requires
        p.len() == raster_len(family, width, height),
        family is Yuy2 ==> width % 2 == 0,
    ensures
        wire_body(
            family,
            method.decorrelates(),
            method_residuals(family, method, width, height, p),
        ).len() == (if p.len() == 0 {
            0
        } else {
            p.len() - unit(family)
        }),
        p.len() > 0 ==> p.len() >= unit(family),
        (p.len() - unit(family)) % unit(family) == 0,
{
    lemma_raster_rows(family, width, height);
    lemma_field_residuals_len(
        family,
        method.spec_predictor(),
        method.decorrelates(),
        width * family.step(),
        height as int,
        p,
    );
    lemma_whole_units(family, p.len() as int, 0);
}

/// A frame of less than four gigabytes can be counted.
pub proof fn law_small_frame_countable(
    family: PixelFamily,
    method: Method,
    width: u32,
    height: u32,
    p: Seq<u8>,
)
    requires
        is_raster(family, width, height, p.len()),
        !is_blank(family, width, height, p.len()),
        p.len() <= u32::MAX,
    ensures
        frame_countable(family, method, width, height, p),
{
    let body = frame_body(family, method, width, height, p);
    lemma_frame_body(family, method, width, height, p);
    assert forall|slot: Slot, s: int| #[trigger]
        symbol_count(family, method.decorrelates(), body, slot, s) <= u32::MAX by {
        law_count_bounded(family, method.decorrelates(), body, slot, s);
    }
}

/// The bytes of a frame. Fails where a residual has no codeword.
fn emit_frame_bytes(
    family: PixelFamily,
    method: Method,
    frame: &PrecomputedFrame,
    tables: &ThreeTables,
    Ghost(shape): Ghost<(u32, u32, Seq<u8>)>,
) -> (r: Result<Vec<u8>>)
    requires
        tables.wf(),
        frame.describes(family, method, shape.0, shape.1, shape.2),
        part_body(family, method, shape.0, shape.1, shape.2, 0).len() % unit(family) as nat == 0,
    ensures
        r is Ok <==> has_codewords(
            tables@,
            family,
            method.decorrelates(),
            frame_body(family, method, shape.0, shape.1, shape.2),
        ),
        r matches Ok(out) ==> is_coded_frame(
            tables@,
            family,
            method,
            shape.0,
            shape.1,
            shape.2,
            out@,
        ),
        r matches Err(e) ==> e is InvalidData,
{
    let ghost (width, height, p) = shape;
    let ghost decorrelate = method.decorrelates();
    let ghost body0 = part_body(family, method, width, height, p, 0);
    let ghost body1 = part_body(family, method, width, height, p, 1);
    let ghost whole = frame_body(family, method, width, height, p);
    let body: &[u8] = frame.combined_body.as_slice();
    let cut: usize = frame.top_body_len;
    let top_body: &[u8] = &body[0..cut];
    assert(books_of(tables.slot1, tables.slot2, tables.slot3) == tables@);
    assert(top_body@ =~= body0);
    proof {
        if has_codewords(tables@, family, decorrelate, whole) {
            assert forall|i: int| 0 <= i < body0.len() implies tables@.slot(
                slot_of(family, decorrelate, i),
            )[#[trigger] body0[i] as int].length > 0 by {
                assert(whole[i] == body0[i]);
            }
            assert(has_codewords(tables@, family, decorrelate, body0));
        }
        if height <= 288 {
            assert(whole == body0);
        }
    }
    let mut out: Vec<u8> = emit_bitstream_parts(
        family,
        method,
        &frame.top_seed,
        top_body,
        &tables.slot1,
        &tables.slot2,
        &tables.slot3,
    )?;
    if let Some(bot_seed) = &frame.bot_seed_opt {
        let bot_body: &[u8] = &body[cut..body.len()];
        assert(bot_body@ =~= body1);
        proof {
            lemma_codewords_concat(tables@, family, decorrelate, body0, body1);
        }
        let ghost top = out@;
        let mut bottom: Vec<u8> = emit_bitstream_parts(
            family,
            method,
            bot_seed,
            bot_body,
            &tables.slot1,
            &tables.slot2,
            &tables.slot3,
        )?;
        let ghost bot = bottom@;
        out.append(&mut bottom);
        proof {
            let n = coded_len(tables@, family, decorrelate, body0) as int;
            assert(top.len() == n);
            assert(out@.subrange(0, n) =~= top);
            assert(out@.subrange(n, out@.len() as int) =~= bot);
        }
    }
    Ok(out)
}

/// The second of two bodies keeps its codebooks where the first consists of
/// whole pixels.
pub proof fn lemma_codewords_concat(
    books: Codebooks,
    family: PixelFamily,
    decorrelate: bool,
    a: Seq<u8>,
    b: Seq<u8>,
)
    requires
        a.len() % unit(family) as nat == 0,
    ensures
        has_codewords(books, family, decorrelate, a + b) <==> has_codewords(
            books,
            family,
            decorrelate,
            a,
        ) && has_codewords(books, family, decorrelate, b),
{
    let whole = a + b;
    if has_codewords(books, family, decorrelate, whole) {
        assert forall|i: int| 0 <= i < a.len() implies books.slot(
            slot_of(family, decorrelate, i),
        )[#[trigger] a[i] as int].length > 0 by {
            assert(whole[i] == a[i]);
        }
        assert forall|i: int| 0 <= i < b.len() implies books.slot(
            slot_of(family, decorrelate, i),
        )[#[trigger] b[i] as int].length > 0 by {
            lemma_slot_shift(family, decorrelate, a.len() as int, i);
            assert(whole[a.len() + i] == b[i]);
        }
    }
    if has_codewords(books, family, decorrelate, a) && has_codewords(
        books,
        family,
        decorrelate,
        b,
    ) {
        assert forall|i: int| 0 <= i < whole.len() implies books.slot(
            slot_of(family, decorrelate, i),
        )[#[trigger] whole[i] as int].length > 0 by {
            if i < a.len() {
                assert(whole[i] == a[i]);
            } else {
                lemma_slot_shift(family, decorrelate, a.len() as int, i - a.len());
                assert(whole[i] == b[i - a.len()]);
            }
        }
    }
}

/// A frame can be encoded: the raster has the right size, and there are
/// residuals where the codebooks are to be made for them.
pub open spec fn is_encodable(
    family: PixelFamily,
    method: Method,
    width: u32,
    height: u32,
    p: Seq<u8>,
    mode: ExtradataMode,
) -> bool {
    &&& is_raster(family, width, height, p.len())
    &&& mode is CustomV2 ==> frame_body(family, method, width, height, p).len() > 0
}

/// Encodes a frame whose residuals are known.
fn encode_with_precomputed(
    family: PixelFamily,
    method: Method,
    width: u32,
    height: u32,
    frame: &PrecomputedFrame,
    mode: ExtradataMode,
    Ghost(p): Ghost<Seq<u8>>,
) -> (r: Result<(Vec<u8>, Vec<u8>)>)
    requires
        is_raster(family, width, height, p.len()),
        !is_blank(family, width, height, p.len()),
        frame.describes(family, method, width, height, p),
        mode is CustomV2 ==> frame_countable(family, method, width, height, p),
    ensures
        r is Ok <==> is_encodable(family, method, width, height, p, mode),
        r matches Ok((strf, bytes)) ==> is_encoded(
            family,
            method,
            width,
            height,
            p,
            mode,
            strf@,
            bytes@,
        ),
        r matches Err(e) ==> e is InvalidData,
{
    let ghost body = frame_body(family, method, width, height, p);
    proof {
        lemma_frame_body(family, method, width, height, p);
        if mode is CustomV2 ==> body.len() > 0 {
            law_mode_books(mode, family, method, body);
        }
    }
    let (tables, books) = make_tables(mode, family, method, frame.combined_body.as_slice())?;
    let with_extradata: bool = match mode {
        ExtradataMode::V1xCompat => false,
        _ => true,
    };
    let strf: Vec<u8> = build_bitmapinfoheader(
        family,
        method,
        width,
        height,
        tables.as_slice(),
        with_extradata,
    );
    let bytes: Vec<u8> = emit_frame_bytes(
        family,
        method,
        frame,
        &books,
        Ghost((width, height, p)),
    )?;
    Ok((strf, bytes))
}

/// Encodes a frame with the default length tables.
pub fn encode_frame(
    family: PixelFamily,
    method: Method,
    width: u32,
    height: u32,
    pixels: &[u8],
) -> (r: Result<(Vec<u8>, Vec<u8>)>)
    requires
        legal(family, method) ==> !is_blank(family, width, height, pixels@.len()),
    ensures
        r is Ok <==> legal(family, method) && is_raster(family, width, height, pixels@.len()),
        r matches Ok((strf, bytes)) ==> is_encoded(
            family,
            method,
            width,
            height,
            pixels@,
            ExtradataMode::ClassicV2,
            strf@,
            bytes@,
        ),
        r matches Err(e) ==> e is InvalidData,
{
    encode_frame_with_mode(family, method, width, height, pixels, ExtradataMode::ClassicV2)
}

/// Encodes a frame; returns the stream header and the bytes of the frame.
pub fn encode_frame_with_mode(
    family: PixelFamily,
    method: Method,
    width: u32,
    height: u32,
    pixels: &[u8],
    mode: ExtradataMode,
) -> (r: Result<(Vec<u8>, Vec<u8>)>)
    requires
        legal(family, method) ==> !is_blank(family, width, height, pixels@.len()),
        mode is CustomV2 && legal(family, method) && is_raster(family, width, height, pixels@.len())
            ==> frame_countable(family, method, width, height, pixels@),
    ensures
        r is Ok <==> legal(family, method) && is_encodable(
            family,
            method,
            width,
            height,
            pixels@,
            mode,
        ),
        r matches Ok((strf, bytes)) ==> is_encoded(
            family,
            method,
            width,
            height,
            pixels@,
            mode,
            strf@,
            bytes@,
        ),
        r matches Err(e) ==> e is InvalidData,
{
    check_legal(family, method)?;
    let frame = compute_frame_residuals(family, method, width, height, pixels)?;
    encode_with_precomputed(family, method, width, height, &frame, mode, Ghost(pixels@))
}

/// Refuses a method that the family does not allow.
fn check_legal(family: PixelFamily, method: Method) -> (r: Result<()>)
    ensures
        r is Ok <==> legal(family, method),
        r matches Err(e) ==> e is InvalidData,
{
    if family.is_rgb() && !method.is_rgb_legal() {
        return Err(Error::invalid("encoder: method not legal for RGB"));
    }
    if !family.is_rgb() && !method.is_yuv_legal() {
        return Err(Error::invalid("encoder: method not legal for YUV"));
    }
    Ok(())
}

/// Encodes a frame; as many workers as `worker_budget` may share the work, which
/// does not change the result.
pub fn encode_frame_with_mode_workers(
    family: PixelFamily,
    method: Method,
    width: u32,
    height: u32,
    pixels: &[u8],
    mode: ExtradataMode,
    worker_budget: usize,
) -> (r: Result<(Vec<u8>, Vec<u8>)>)
    requires
        legal(family, method) ==> !is_blank(family, width, height, pixels@.len()),
        mode is CustomV2 && legal(family, method) && is_raster(family, width, height, pixels@.len())
            ==> frame_countable(family, method, width, height, pixels@),
    ensures
        r is Ok <==> legal(family, method) && is_encodable(
            family,
            method,
            width,
            height,
            pixels@,
            mode,
        ),
        r matches Ok((strf, bytes)) ==> is_encoded(
            family,
            method,
            width,
            height,
            pixels@,
            mode,
            strf@,
            bytes@,
        ),
        r matches Err(e) ==> e is InvalidData,
{
    encode_frame_with_mode(family, method, width, height, pixels, mode)
}

/// Encodes a frame with codebooks that were made before. Fails where one of its
/// residuals has no codeword in them.
pub fn encode_body_with_pinned_tables(
    family: PixelFamily,
    method: Method,
    width: u32,
    height: u32,
    pixels: &[u8],
    tabs: &ThreeTables,
    worker_budget: usize,
) -> (r: Result<Vec<u8>>)
    requires
        tabs.wf(),
        legal(family, method) ==> !is_blank(family, width, height, pixels@.len()),
    ensures
        r is Ok <==> legal(family, method) && is_raster(family, width, height, pixels@.len())
            && has_codewords(
            tabs@,
            family,
            method.decorrelates(),
            frame_body(family, method, width, height, pixels@),
        ),
        r matches Ok(bytes) ==> is_coded_frame(
            tabs@,
            family,
            method,
            width,
            height,
            pixels@,
            bytes@,
        ),
        r matches Err(e) ==> if legal(family, method) && is_raster(
            family,
            width,
            height,
            pixels@.len(),
        ) {
            e is Unsupported
        } else {
            e is InvalidData
        },
{
    check_legal(family, method)?;
    let frame = compute_frame_residuals(family, method, width, height, pixels)?;
    proof {
        lemma_frame_body(family, method, width, height, pixels@);
    }
    assert(books_of(tabs.slot1, tabs.slot2, tabs.slot3) == tabs@);
    let missing: bool = verify_body_in_table(
        family,
        method,
        frame.combined_body.as_slice(),
        &tabs.slot1,
        &tabs.slot2,
        &tabs.slot3,
    ).is_err();
    if missing {
        return Err(
            Error::unsupported(
                "stream tables: frame emits residual symbols absent from the pinned first-frame Huffman tables (custom-v2 tables are stream-level and derive from the first frame; use classic-v2 for drifting content)",
            ),
        );
    }
    emit_frame_bytes(family, method, &frame, tabs, Ghost((width, height, pixels@)))
}

// ---------------------------------------------------------------------------
// Method selection
// ---------------------------------------------------------------------------

/// The least number of code bits for what a body codes with the three codebooks.
pub open spec fn body_cost(family: PixelFamily, decorrelate: bool, body: Seq<u8>) -> int {
    least_bits(histogram(family, decorrelate, body, Slot::First)) + least_bits(
        histogram(family, decorrelate, body, Slot::Second),
    ) + least_bits(histogram(family, decorrelate, body, Slot::Third))
}

/// The least number of code bits for the residuals of a frame.
pub open spec fn frame_cost(
    family: PixelFamily,
    method: Method,
    width: u32,
    height: u32,
    p: Seq<u8>,
) -> int {
    body_cost(family, method.decorrelates(), frame_body(family, method, width, height, p))
}

/// The code bits of one histogram with its best lengths.
fn histogram_bits(hist: &[u32; 256]) -> (n: u64)
    ensures
        n == least_bits(hist@),
        n <= 256 * 31 * 0xFFFF_FFFF,
{
    let lens: [u8; 256] = lengths_or_ones(hist);
    let ghost shares = bit_shares(hist@, lens@);
    proof {
        if has_symbol(hist@) {
            law_best_lengths(hist@);
            lemma_best_is_least(hist@, lens@);
        } else {
            lemma_nothing_counted(hist@);
        }
        assert forall|t: int| 0 <= t < 256 implies #[trigger] lens@[t] <= 31 by {
            if has_symbol(hist@) {
                assert(lengths_ok(lens@));
            }
        }
    }
    let mut bits: u64 = 0;
    let mut s: usize = 0;
    while s < 256
        invariant
            s <= 256,
            shares == bit_shares(hist@, lens@),
            bits == crate::tally::tally(shares, s as int),
            bits <= s * 31 * 0xFFFF_FFFF,
            forall|t: int| 0 <= t < 256 ==> #[trigger] lens@[t] <= 31,
        decreases 256 - s,
    {
        let (h, l) = (hist[s], lens[s]);
        proof {
            assert(lens@[s as int] <= 31);
            assert(0 <= (h as int) * (l as int) <= 31 * 0xFFFF_FFFF) by (nonlinear_arith)
                requires
                    0 <= h <= 0xFFFF_FFFF,
                    0 <= l <= 31,
            ;
            assert((l as int) * (h as int) == (h as int) * (l as int)) by (nonlinear_arith);
        }
        bits = bits + (l as u64) * (h as u64);
        s = s + 1;
    }
    proof {
        if !has_symbol(hist@) {
            assert forall|t: int| 0 <= t < 256 implies #[trigger] shares(t) == 0 by {
                assert(hist@[t] == 0);
            }
            crate::tally::lemma_tally_const(shares, 256, 0);
        }
    }
    bits
}

/// The code bits of three histograms with their best lengths.
pub fn bit_cost_from_histograms(h1: &[u32; 256], h2: &[u32; 256], h3: &[u32; 256]) -> (bits: u64)
    ensures
        bits == least_bits(h1@) + least_bits(h2@) + least_bits(h3@),
{
    histogram_bits(h1) + histogram_bits(h2) + histogram_bits(h3)
}

/// The code bits of a frame's residuals under a method, with codebooks made for
/// them; the uncompressed bytes are not counted.
pub fn bit_cost_for_method(
    family: PixelFamily,
    method: Method,
    width: u32,
    height: u32,
    pixels: &[u8],
) -> (r: Result<u64>)
    requires
        legal(family, method) ==> !is_blank(family, width, height, pixels@.len()),
        legal(family, method) && is_raster(family, width, height, pixels@.len())
            ==> frame_countable(family, method, width, height, pixels@),
    ensures
        r is Ok <==> legal(family, method) && is_raster(family, width, height, pixels@.len()),
        r matches Ok(bits) ==> bits == frame_cost(family, method, width, height, pixels@),
        r matches Err(e) ==> e is InvalidData,
{
    check_legal(family, method)?;
    let (bits, _) = score_candidate(family, method, width, height, pixels)?;
    Ok(bits)
}

/// The code bits of a frame's residuals under a method, with the residuals.
pub fn score_candidate(
    family: PixelFamily,
    method: Method,
    width: u32,
    height: u32,
    pixels: &[u8],
) -> (r: Result<(u64, PrecomputedFrame)>)
    requires
        !is_blank(family, width, height, pixels@.len()),
        is_raster(family, width, height, pixels@.len()) ==> frame_countable(
            family,
            method,
            width,
            height,
            pixels@,
        ),
    ensures
        r is Ok <==> is_raster(family, width, height, pixels@.len()),
        r matches Ok((bits, frame)) ==> bits == frame_cost(family, method, width, height, pixels@)
            && frame.describes(family, method, width, height, pixels@),
        r matches Err(e) ==> e is InvalidData,
{
    let frame = compute_frame_residuals(family, method, width, height, pixels)?;
    let (h1, h2, h3) = histogramise(family, method, frame.combined_body.as_slice());
    Ok((bit_cost_from_histograms(&h1, &h2, &h3), frame))
}

/// How the method of a frame is chosen.
#[derive(Debug, Clone, Copy, PartialEq, Eq, Structural)]
pub enum MethodSelection {
    /// The given method.
    Fixed(Method),
    /// The method with the fewest code bits.
    Auto,
}

impl Default for MethodSelection {
    fn default() -> (s: Self)
        ensures
            s == MethodSelection::Auto,
    {
        MethodSelection::Auto
    }
}

impl MethodSelection {
    /// A fixed method is legal for the family.
    pub open spec fn fits(self, family: PixelFamily) -> bool {
        self matches MethodSelection::Fixed(m) ==> legal(family, m)
    }

    /// The methods to choose from.
    pub open spec fn spec_candidates(self, family: PixelFamily) -> Seq<Method> {
        match self {
            MethodSelection::Fixed(m) => seq![m],
            MethodSelection::Auto => Self::spec_legal_methods(family),
        }
    }

    /// The methods that differ in what they predict, in the order in which they
    /// are tried.
    pub open spec fn spec_legal_methods(family: PixelFamily) -> Seq<Method> {
        if family.rgb() {
            seq![Method::Left, Method::LeftDecorr, Method::GradientDecorr]
        } else {
            seq![Method::Left, Method::Gradient, Method::Median]
        }
    }

    /// The methods to choose from.
    pub fn candidates(&self, family: PixelFamily) -> (c: Vec<Method>)
        ensures
            c@ == self.spec_candidates(family),
    {
        match self {
            MethodSelection::Fixed(m) => vec![*m],
            MethodSelection::Auto => Self::legal_methods(family),
        }
    }

    /// The methods that differ in what they predict, in the order in which they
    /// are tried.
    pub fn legal_methods(family: PixelFamily) -> (c: Vec<Method>)
        ensures
            c@ == Self::spec_legal_methods(family),
            forall|i: int| 0 <= i < c@.len() ==> legal(family, #[trigger] c@[i]),
    {
        if family.is_rgb() {
            vec![Method::Left, Method::LeftDecorr, Method::GradientDecorr]
        } else {
            vec![Method::Left, Method::Gradient, Method::Median]
        }
    }
}

/// `i` is the first of the methods that take the fewest code bits.
pub open spec fn is_first_best(
    family: PixelFamily,
    methods: Seq<Method>,
    width: u32,
    height: u32,
    p: Seq<u8>,
    i: int,
) -> bool {
    &&& 0 <= i < methods.len()
    &&& forall|k: int|
        0 <= k < methods.len() ==> frame_cost(family, methods[i], width, height, p) <= frame_cost(
            family,
            #[trigger] methods[k],
            width,
            height,
            p,
        )
    &&& forall|k: int|
        0 <= k < i ==> frame_cost(family, methods[i], width, height, p) < frame_cost(
            family,
            #[trigger] methods[k],
            width,
            height,
            p,
        )
}

/// What encoding with a choice of methods returns: the header and the bytes for
/// the first method that takes the fewest code bits, and that method.
pub open spec fn is_best_encoding(
    family: PixelFamily,
    selection: MethodSelection,
    width: u32,
    height: u32,
    p: Seq<u8>,
    mode: ExtradataMode,
    strf: Seq<u8>,
    bytes: Seq<u8>,
    method: Method,
) -> bool {
    &&& exists|i: int|
        is_first_best(family, selection.spec_candidates(family), width, height, p, i)
            && #[trigger] selection.spec_candidates(family)[i] == method
    &&& is_encoded(family, method, width, height, p, mode, strf, bytes)
}

/// With a fixed method, encoding with a choice is encoding with that method: the
/// same inputs are encoded, and to the same header and bytes; the others are
/// refused.
pub proof fn law_fixed_selection(
    family: PixelFamily,
    fixed: Method,
    width: u32,
    height: u32,
    p: Seq<u8>,
    mode: ExtradataMode,
    strf: Seq<u8>,
    bytes: Seq<u8>,
    method: Method,
)
    ensures
        MethodSelection::Fixed(fixed).fits(family) && is_encodable(
            family,
            Method::Left,
            width,
            height,
            p,
            mode,
        ) <==> legal(family, fixed) && is_encodable(family, fixed, width, height, p, mode),
        is_best_encoding(
            family,
            MethodSelection::Fixed(fixed),
            width,
            height,
            p,
            mode,
            strf,
            bytes,
            method,
        ) <==> method == fixed && is_encoded(
            family,
            fixed,
            width,
            height,
            p,
            mode,
            strf,
            bytes,
        ),
{
    if is_raster(family, width, height, p.len()) {
        lemma_body_len_same(family, fixed, Method::Left, width, height, p);
    }
    let methods = MethodSelection::Fixed(fixed).spec_candidates(family);
    assert(is_first_best(family, methods, width, height, p, 0));
    assert(methods[0] == fixed);
}

/// The two left methods without decorrelation code a frame alike, whatever the
/// codebooks.
pub proof fn law_left_methods_code_alike(
    books: Codebooks,
    family: PixelFamily,
    width: u32,
    height: u32,
    p: Seq<u8>,
    out: Seq<u8>,
)
    ensures
        is_coded_frame(books, family, Method::PredictOld, width, height, p, out)
            <==> is_coded_frame(books, family, Method::Left, width, height, p, out),
        frame_cost(family, Method::PredictOld, width, height, p) == frame_cost(
            family,
            Method::Left,
            width,
            height,
            p,
        ),
{
}

/// Encodes a frame with the candidate that takes the fewest code bits, the first
/// of them where several do.
pub fn encode_frame_auto(
    family: PixelFamily,
    selection: MethodSelection,
    width: u32,
    height: u32,
    pixels: &[u8],
    mode: ExtradataMode,
) -> (r: Result<(Vec<u8>, Vec<u8>, Method)>)
    requires
        selection.fits(family) ==> !is_blank(family, width, height, pixels@.len()),
        selection.fits(family) && is_raster(family, width, height, pixels@.len()) ==> forall|i: int|
            0 <= i < selection.spec_candidates(family).len() ==> frame_countable(
                family,
                #[trigger] selection.spec_candidates(family)[i],
                width,
                height,
                pixels@,
            ),
    ensures
        r is Ok <==> selection.fits(family) && is_encodable(
            family,
            Method::Left,
            width,
            height,
            pixels@,
            mode,
        ),
        r matches Ok((strf, bytes, method)) ==> is_best_encoding(
            family,
            selection,
            width,
            height,
            pixels@,
            mode,
            strf@,
            bytes@,
            method,
        ),
        r matches Err(e) ==> e is InvalidData,
{
    encode_frame_auto_workers(family, selection, width, height, pixels, mode, 1)
}

/// Encodes a frame with the candidate that takes the fewest code bits; as many
/// workers as `worker_budget` may share the work, which does not change the
/// result.
pub fn encode_frame_auto_workers(
    family: PixelFamily,
    selection: MethodSelection,
    width: u32,
    height: u32,
    pixels: &[u8],
    mode: ExtradataMode,
    worker_budget: usize,
) -> (r: Result<(Vec<u8>, Vec<u8>, Method)>)
    requires
        selection.fits(family) ==> !is_blank(family, width, height, pixels@.len()),
        selection.fits(family) && is_raster(family, width, height, pixels@.len()) ==> forall|i: int|
            0 <= i < selection.spec_candidates(family).len() ==> frame_countable(
                family,
                #[trigger] selection.spec_candidates(family)[i],
                width,
                height,
                pixels@,
            ),
    ensures
        r is Ok <==> selection.fits(family) && is_encodable(
            family,
            Method::Left,
            width,
            height,
            pixels@,
            mode,
        ),
        r matches Ok((strf, bytes, method)) ==> is_best_encoding(
            family,
            selection,
            width,
            height,
            pixels@,
            mode,
            strf@,
            bytes@,
            method,
        ),
        r matches Err(e) ==> e is InvalidData,
{
    if let MethodSelection::Fixed(m) = selection {
        check_legal(family, m)?;
    }
    let candidates: Vec<Method> = selection.candidates(family);
    assert(candidates@.len() > 0 && candidates@[0] == selection.spec_candidates(family)[0]);
    let mut chosen: Method = candidates[0];
    let (mut least, mut frame) = score_candidate(family, chosen, width, height, pixels)?;
    let ghost mut at: int = 0;
    let n: usize = candidates.len();
    let mut i: usize = 1;
    while i < n
        invariant
            1 <= i <= n,
            n == candidates@.len(),
            candidates@ == selection.spec_candidates(family),
            !is_blank(family, width, height, pixels@.len()),
            is_raster(family, width, height, pixels@.len()),
            forall|k: int|
                0 <= k < n ==> frame_countable(
                    family,
                    #[trigger] candidates@[k],
                    width,
                    height,
                    pixels@,
                ),
            0 <= at < i,
            chosen == candidates@[at],
            least == frame_cost(family, chosen, width, height, pixels@),
            frame.describes(family, chosen, width, height, pixels@),
            forall|k: int|
                0 <= k < i ==> least <= frame_cost(
                    family,
                    #[trigger] candidates@[k],
                    width,
                    height,
                    pixels@,
                ),
            forall|k: int|
                0 <= k < at ==> least < frame_cost(
                    family,
                    #[trigger] candidates@[k],
                    width,
                    height,
                    pixels@,
                ),
        decreases n - i,
    {
        let m: Method = candidates[i];
        let (bits, other) = score_candidate(family, m, width, height, pixels)?;
        if bits < least {
            chosen = m;
            least = bits;
            frame = other;
            proof {
                at = i as int;
            }
        }
        i = i + 1;
    }
    proof {
        lemma_body_len_same(family, chosen, Method::Left, width, height, pixels@);
        assert(is_first_best(
            family,
            selection.spec_candidates(family),
            width,
            height,
            pixels@,
            at,
        ));
    }
    let (strf, bytes) = encode_with_precomputed(
        family,
        chosen,
        width,
        height,
        &frame,
        mode,
        Ghost(pixels@),
    )?;
    Ok((strf, bytes, chosen))
}

/// The number of residuals does not depend on the method.
proof fn lemma_body_len_same(
    family: PixelFamily,
    m1: Method,
    m2: Method,
    width: u32,
    height: u32,
    p: Seq<u8>,
)
    requires
        is_raster(family, width, height, p.len()),
    ensures
        frame_body(family, m1, width, height, p).len() == frame_body(
            family,
            m2,
            width,
            height,
            p,
        ).len(),
{
    if height > 288 {
        let (h0, h1) = (field_rows(height as int, 0) as u32, field_rows(height as int, 1) as u32);
        let rb = width * family.step();
        lemma_field_sizes(family, width, height);
        let (f0, f1) = (field(p, rb, height as int, 0), field(p, rb, height as int, 1));
        lemma_residuals_len(family, m1, width, h0, f0);
        lemma_residuals_len(family, m1, width, h1, f1);
        lemma_residuals_len(family, m2, width, h0, f0);
        lemma_residuals_len(family, m2, width, h1, f1);
    } else {
        lemma_residuals_len(family, m1, width, height, p);
        lemma_residuals_len(family, m2, width, height, p);
    }
}

/// What the header of an encoded frame declares.
pub open spec fn encoded_info(
    family: PixelFamily,
    method: Method,
    width: u32,
    height: u32,
    p: Seq<u8>,
    mode: ExtradataMode,
) -> StreamInfo {
    StreamInfo {
        family,
        method,
        width: magnitude(width),
        height: magnitude(height),
        has_extradata: !(mode is V1xCompat),
        tables: mode_tables(mode, family, method, frame_body(family, method, width, height, p)),
    }
}

/// The header of an encoded frame declares what was encoded.
pub proof fn law_encoded_header(
    family: PixelFamily,
    method: Method,
    width: u32,
    height: u32,
    p: Seq<u8>,
    mode: ExtradataMode,
    strf: Seq<u8>,
    bytes: Seq<u8>,
)
    requires
        legal(family, method),
        is_encodable(family, method, width, height, p, mode),
        !is_blank(family, width, height, p.len()),
        mode is CustomV2 ==> frame_countable(family, method, width, height, p),
        is_encoded(family, method, width, height, p, mode, strf, bytes),
    ensures
        parse_header(strf) == Some(encoded_info(family, method, width, height, p, mode)),
{
    let body = frame_body(family, method, width, height, p);
    lemma_frame_body(family, method, width, height, p);
    law_mode_books(mode, family, method, body);
    law_parse_built_header(
        family,
        method,
        width,
        height,
        mode_tables(mode, family, method, body),
        !(mode is V1xCompat),
    );
}

/// Encodes a frame with the default length tables, and parses the header.
pub fn encode_for_test(
    family: PixelFamily,
    method: Method,
    width: u32,
    height: u32,
    pixels: &[u8],
) -> (r: Result<(StreamConfig, Vec<u8>)>)
    requires
        legal(family, method) ==> !is_blank(family, width, height, pixels@.len()),
    ensures
        r is Ok <==> legal(family, method) && is_raster(family, width, height, pixels@.len()),
        r matches Ok((cfg, bytes)) ==> cfg@ == encoded_info(
            family,
            method,
            width,
            height,
            pixels@,
            ExtradataMode::ClassicV2,
        ),
        r matches Ok((cfg, bytes)) ==> are_frame_bytes(
            family,
            method,
            width,
            height,
            pixels@,
            ExtradataMode::ClassicV2,
            bytes@,
        ),
        r matches Err(e) ==> e is InvalidData,
{
    encode_for_test_with_mode(family, method, width, height, pixels, ExtradataMode::ClassicV2)
}

/// Encodes a frame, and parses the header.
pub fn encode_for_test_with_mode(
    family: PixelFamily,
    method: Method,
    width: u32,
    height: u32,
    pixels: &[u8],
    mode: ExtradataMode,
) -> (r: Result<(StreamConfig, Vec<u8>)>)
    requires
        legal(family, method) ==> !is_blank(family, width, height, pixels@.len()),
        mode is CustomV2 && legal(family, method) && is_raster(family, width, height, pixels@.len())
            ==> frame_countable(family, method, width, height, pixels@),
    ensures
        r is Ok <==> legal(family, method) && is_encodable(
            family,
            method,
            width,
            height,
            pixels@,
            mode,
        ),
        r matches Ok((cfg, bytes)) ==> cfg@ == encoded_info(
            family,
            method,
            width,
            height,
            pixels@,
            mode,
        ),
        r matches Ok((cfg, bytes)) ==> are_frame_bytes(
            family,
            method,
            width,
            height,
            pixels@,
            mode,
            bytes@,
        ),
        r matches Err(e) ==> e is InvalidData,
{
    let (strf, bytes) = encode_frame_with_mode(family, method, width, height, pixels, mode)?;
    proof {
        law_encoded_header(family, method, width, height, pixels@, mode, strf@, bytes@);
    }
    let cfg = StreamConfig::parse_bitmapinfoheader(strf.as_slice())?;
    Ok((cfg, bytes))
}

} // verus!
