//! Which rasters are encoded, and with which tables.

use vstd::prelude::*;

use crate::classic::classic_blob;
use crate::decoder::{builtin_books, stream_books, Codebooks};
use crate::encoder::{
    coded_len, is_encodable, is_encoded, lemma_residuals_len, mode_books, ExtradataMode,
};
use crate::header::{Method, PixelFamily, StreamInfo};
use crate::layout::lemma_raster_rows;
use crate::predict::{field, field_rows};
use crate::residuals::{frame_body, is_raster, lemma_field_sizes, part_body, part_seed};
use crate::strf::law_built_header_holds_tables;

verus! {

/// A raster is encoded just where it has two, three or four bytes for each pixel,
/// as the family has them, and an even width in YUY2. Where tables are to be made
/// for it, something must be left to code behind the first four bytes of YUY2, or
/// the first pixel of RGB, of each field; frames of more than 288 rows have two
/// fields.
pub proof fn law_what_encodes(
    family: PixelFamily,
    method: Method,
    width: u32,
    height: u32,
    p: Seq<u8>,
    mode: ExtradataMode,
)
    ensures
        is_encodable(family, method, width, height, p, mode) <==> {
            let (bytes, first): (int, int) = match family {
                PixelFamily::Yuy2 => (2, 4),
                PixelFamily::Rgb24 => (3, 3),
                PixelFamily::Rgb32 => (4, 4),
            };
            &&& p.len() == width * bytes * height
            &&& family is Yuy2 ==> width % 2 == 0
            &&& mode is CustomV2 ==> p.len() > (if height > 288 {
                2 * first
            } else {
                first
            })
        },
{
    if is_raster(family, width, height, p.len()) {
        lemma_raster_rows(family, width, height);
        if height > 288 {
            let (h0, h1) = (
                field_rows(height as int, 0) as u32,
                field_rows(height as int, 1) as u32,
            );
            let rb = width * family.step();
            lemma_field_sizes(family, width, height);
            lemma_raster_rows(family, width, h0);
            lemma_raster_rows(family, width, h1);
            let (a, b) = (field(p, rb, height as int, 0), field(p, rb, height as int, 1));
            lemma_residuals_len(family, method, width, h0, a);
            lemma_residuals_len(family, method, width, h1, b);
            assert(rb * h0 + rb * h1 == rb * height) by (nonlinear_arith)
                requires
                    h0 + h1 == height,
            ;
        } else {
            lemma_residuals_len(family, method, width, height, p);
        }
    }
}

/// Which codebooks a stream is decoded with: without extradata the built-in ones,
/// and with extradata but without tables the default ones, just as though the
/// default tables stood there. An encoder that is not asked to make tables writes
/// the default ones, or none without extradata, whatever the frame is.
pub proof fn law_default_tables(
    info: StreamInfo,
    family: PixelFamily,
    method: Method,
    width: u32,
    height: u32,
    p: Seq<u8>,
    strf: Seq<u8>,
    bytes: Seq<u8>,
)
    ensures
        !info.has_extradata ==> stream_books(info) == Some(builtin_books(info.family)),
        info.has_extradata && info.tables.len() == 0 ==> stream_books(info) == stream_books(
            StreamInfo { tables: classic_blob(info.family, info.method), ..info },
        ),
        is_encoded(family, method, width, height, p, ExtradataMode::ClassicV2, strf, bytes)
            ==> strf.len() >= 44 && strf.subrange(44, strf.len() as int) == classic_blob(
            family,
            method,
        ),
        is_encoded(family, method, width, height, p, ExtradataMode::V1xCompat, strf, bytes)
            ==> strf.len() == 40,
{
    law_built_header_holds_tables(
        family,
        method,
        width,
        height,
        classic_blob(family, method),
        true,
    );
    law_built_header_holds_tables(family, method, width, height, Seq::empty(), false);
}

/// An encoded frame is a whole number of words: four bytes and then codewords. In
/// RGB24 the first of the four bytes is zero.
pub proof fn law_first_bytes(
    family: PixelFamily,
    method: Method,
    width: u32,
    height: u32,
    p: Seq<u8>,
    mode: ExtradataMode,
    strf: Seq<u8>,
    bytes: Seq<u8>,
)
    requires
        is_encoded(family, method, width, height, p, mode, strf, bytes),
    ensures
        bytes.len() >= 4,
        bytes.len() % 4 == 0,
        family is Rgb24 ==> bytes[0] == 0,
{
    let books = choose|books: Codebooks|
        mode_books(mode, family, method, frame_body(family, method, width, height, p)) == Some(
            books,
        );
    let d = method.decorrelates();
    let n: int = if height > 288 {
        coded_len(books, family, d, part_body(family, method, width, height, p, 0)) as int
    } else {
        bytes.len() as int
    };
    let front = bytes.subrange(0, n);
    assert(front.subrange(0, 4) == part_seed(family, method, width, height, p, 0));
    assert(front.subrange(0, 4)[0] == bytes[0]);
}

} // verus!
