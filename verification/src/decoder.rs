//! Frame decoder.

use vstd::prelude::*;

use crate::bitio::BitReader;
use crate::bits::window_at;
use crate::classic::{classic_blob, classic_blob_bytes};
use crate::error::{Error, Result};
use crate::header::{PixelFamily, Predictor, StreamConfig, StreamInfo};
use crate::layout::{
    carries, field_residuals, first_pixel, law_wire_place_involution, lemma_raster_rows, lemma_whole_units, place_of, placed, raster_len, raster_size, slot_at, slot_of, unit, unit_bytes,
    wire_place, Slot,
};
use crate::predict::{
    field, field_rows, interleave_fields, inverse_gradient_post, inverse_left_row,
    inverse_rgb_decorr_bgr, inverse_rgb_decorr_bgra, inverse_yuy2_left_macropixel,
    is_interlaced_height, law_split_undoes_interleave, median3, median_residuals,
    yuy2_left_residuals, yuy2_stride,
};
use crate::rle::expand;
use crate::tables::{
    canonical_entries, decode_one, lengths_ok, lookup, pair_entries, rle_decode_one_channel,
    rle_decode_three_channels, three_lengths, v1x_table_from_pair, HuffEntry, HuffTable, MAX_LENGTH,
};
use crate::v1x::{
    lemma_set_a, lemma_set_b, lens_a, lens_b, v1x_codes_set_a, v1x_codes_set_b, v1x_lengths_set_a,
    v1x_lengths_set_b, V1X_CODES_A, V1X_CODES_B,
};

verus! {

// ---------------------------------------------------------------------------
// Codebooks
// ---------------------------------------------------------------------------

/// The entries of the three codebooks of a stream.
#[verifier::ext_equal]
pub struct Codebooks {
    pub first: Seq<HuffEntry>,
    pub second: Seq<HuffEntry>,
    pub third: Seq<HuffEntry>,
}

impl Codebooks {
    /// The entries of one codebook.
    pub open spec fn slot(self, s: Slot) -> Seq<HuffEntry> {
        match s {
            Slot::First => self.first,
            Slot::Second => self.second,
            Slot::Third => self.third,
        }
    }
}

/// The canonical codebooks for run-length coded length tables.
pub open spec fn coded_books(src: Seq<u8>) -> Option<Codebooks> {
    match three_lengths(src) {
        Some((a, b, c)) => if lengths_ok(a) && lengths_ok(b) && lengths_ok(c) {
            Some(canonical_books(a, b, c))
        } else {
            None
        },
        None => None,
    }
}

/// The canonical codebooks for three length tables.
pub open spec fn canonical_books(a: Seq<u8>, b: Seq<u8>, c: Seq<u8>) -> Codebooks {
    Codebooks {
        first: canonical_entries(a),
        second: canonical_entries(b),
        third: canonical_entries(c),
    }
}

/// The built-in codebooks of version 1 streams: set A for luma and set B for
/// chroma, or set A throughout for RGB.
pub open spec fn builtin_books(family: PixelFamily) -> Codebooks {
    let a = pair_entries(lens_a()@, V1X_CODES_A@);
    let b = pair_entries(lens_b()@, V1X_CODES_B@);
    if family is Yuy2 {
        Codebooks { first: a, second: b, third: b }
    } else {
        Codebooks { first: a, second: a, third: a }
    }
}

/// The codebooks of a stream: those that its header carries, the default ones
/// where it carries none, or the built-in ones of version 1 streams.
pub open spec fn stream_books(info: StreamInfo) -> Option<Codebooks> {
    if !info.has_extradata {
        Some(builtin_books(info.family))
    } else if info.tables.len() > 0 {
        coded_books(info.tables)
    } else {
        coded_books(classic_blob(info.family, info.method))
    }
}

/// The three codebooks of a stream.
#[derive(Debug, Clone)]
pub struct ThreeTables {
    pub slot1: HuffTable,
    pub slot2: HuffTable,
    pub slot3: HuffTable,
}

impl ThreeTables {
    /// The entries of the codebooks.
    pub open spec fn view(&self) -> Codebooks {
        Codebooks { first: self.slot1@, second: self.slot2@, third: self.slot3@ }
    }

    /// Every codebook keeps its invariant.
    pub open spec fn wf(&self) -> bool {
        self.slot1.wf() && self.slot2.wf() && self.slot3.wf()
    }

    /// One of the codebooks.
    pub fn slot(&self, s: Slot) -> (t: &HuffTable)
        requires
            self.wf(),
        ensures
            t.wf(),
            t@ == self@.slot(s),
    {
        match s {
            Slot::First => &self.slot1,
            Slot::Second => &self.slot2,
            Slot::Third => &self.slot3,
        }
    }
}

/// The canonical codebooks for run-length coded length tables.
pub fn tables_from_extradata(src: &[u8]) -> (r: Result<ThreeTables>)
    ensures
        r is Ok <==> coded_books(src@) is Some,
        r matches Ok(t) ==> t.wf() && coded_books(src@) == Some(t@),
        r matches Err(e) ==> e is InvalidData,
{
    let lengths = rle_decode_three_channels(src)?;
    let slot1 = HuffTable::build_from_lengths(&lengths[0])?;
    let slot2 = HuffTable::build_from_lengths(&lengths[1])?;
    let slot3 = HuffTable::build_from_lengths(&lengths[2])?;
    Ok(ThreeTables { slot1, slot2, slot3 })
}

/// One built-in codebook, from its run-length coded lengths and its codewords.
fn builtin_table(lengths: &'static [u8], codes: &'static [u8]) -> (r: Result<HuffTable>)
    requires
        codes@.len() == 256,
    ensures
        match expand(lengths@, 0, 256) {
            Some((lens, _)) => {
                &&& r is Ok <==> (forall|s: int| 0 <= s < 256 ==> #[trigger] lens[s] <= MAX_LENGTH)
                &&& r matches Ok(t) ==> t.wf() && t@ == pair_entries(lens, codes@)
            },
            None => r is Err,
        },
        r matches Err(e) ==> e is InvalidData,
{
    let mut cursor: &[u8] = lengths;
    let lens = rle_decode_one_channel(&mut cursor)?;
    let mut words: [u8; 256] = [0u8;256];
    let mut s: usize = 0;
    while s < 256
        invariant
            codes@.len() == 256,
            s <= 256,
            forall|t: int| 0 <= t < s ==> #[trigger] words@[t] == codes@[t],
        decreases 256 - s,
    {
        words[s] = codes[s];
        s = s + 1;
    }
    proof {
        assert(words@ =~= codes@);
    }
    v1x_table_from_pair(&lens, &words)
}

/// The built-in codebooks of version 1 streams.
pub fn v1x_tables(family: PixelFamily) -> (r: Result<ThreeTables>)
    ensures
        r matches Ok(t) && t.wf() && t@ == builtin_books(family),
{
    proof {
        lemma_set_a();
        lemma_set_b();
    }
    let table_a = builtin_table(v1x_lengths_set_a(), v1x_codes_set_a())?;
    let table_b = builtin_table(v1x_lengths_set_b(), v1x_codes_set_b())?;
    match family {
        PixelFamily::Yuy2 => {
            let again = table_b.clone();
            Ok(ThreeTables { slot1: table_a, slot2: again, slot3: table_b })
        },
        _ => {
            let (second, third) = (table_a.clone(), table_a.clone());
            Ok(ThreeTables { slot1: table_a, slot2: second, slot3: third })
        },
    }
}

/// The codebooks of a stream.
pub fn build_three_tables(config: &StreamConfig) -> (r: Result<ThreeTables>)
    ensures
        r is Ok <==> stream_books(config@) is Some,
        r matches Ok(t) ==> t.wf() && stream_books(config@) == Some(t@),
        r matches Err(e) ==> e is InvalidData,
{
    if !config.has_extradata {
        v1x_tables(config.family)
    } else if config.extradata_tables.len() > 0 {
        tables_from_extradata(config.extradata_tables.as_slice())
    } else {
        let blob = classic_blob_bytes(config.family, config.method);
        tables_from_extradata(blob.as_slice())
    }
}

// ---------------------------------------------------------------------------
// Fields
// ---------------------------------------------------------------------------

/// The first `n` symbols of a bit stream, each looked up in its own codebook,
/// and the number of bits that they take.
pub open spec fn symbols(
    books: Codebooks,
    family: PixelFamily,
    decorrelate: bool,
    data: Seq<u8>,
    n: nat,
) -> Option<(Seq<u8>, nat)>
    decreases n,
{
    if n == 0 {
        Some((Seq::empty(), 0))
    } else {
        match symbols(books, family, decorrelate, data, (n - 1) as nat) {
            None => None,
            Some((body, pos)) => {
                let entries = books.slot(slot_of(family, decorrelate, n - 1));
                match lookup(entries, window_at(data, pos as int)) {
                    None => None,
                    Some((sym, len)) => Some((body.push(sym), pos + len as nat)),
                }
            },
        }
    }
}

/// Where decoding stops, it has stopped.
proof fn lemma_symbols_stop(
    books: Codebooks,
    family: PixelFamily,
    decorrelate: bool,
    data: Seq<u8>,
    n: nat,
    more: nat,
)
    requires
        n <= more,
        symbols(books, family, decorrelate, data, n) is None,
    ensures
        symbols(books, family, decorrelate, data, more) is None,
    decreases more,
{
    if n < more {
        lemma_symbols_stop(books, family, decorrelate, data, n, (more - 1) as nat);
    }
}

/// As many symbols are decoded as were asked for.
pub proof fn lemma_symbols_len(
    books: Codebooks,
    family: PixelFamily,
    decorrelate: bool,
    data: Seq<u8>,
    n: nat,
)
    ensures
        symbols(books, family, decorrelate, data, n) matches Some((body, pos)) ==> body.len() == n,
    decreases n,
{
    if n > 0 {
        lemma_symbols_len(books, family, decorrelate, data, (n - 1) as nat);
    }
}

/// The bytes that `pos` bits reach into, in whole words.
pub open spec fn crossed(pos: nat) -> nat {
    4 * ((pos + 31) / 32)
}

/// A place, held to what the machine can count.
pub open spec fn countable_place(at: int) -> int {
    if at <= usize::MAX {
        at
    } else {
        usize::MAX as int
    }
}

/// The next residual goes to a place that no other has taken.
proof fn lemma_placed_push(
    family: PixelFamily,
    decorrelate: bool,
    raster: Seq<u8>,
    body: Seq<u8>,
    sym: u8,
)
    requires
        placed(family, decorrelate, raster, body),
        unit(family) + body.len() < raster.len(),
        (raster.len() - unit(family)) % unit(family) == 0,
    ensures
        0 <= wire_place(family, decorrelate, body.len() as int) < raster.len() - unit(family),
        placed(
            family,
            decorrelate,
            raster.update(
                unit(family) + wire_place(family, decorrelate, body.len() as int),
                sym,
            ),
            body.push(sym),
        ),
{
    let n = body.len() as int;
    let count = raster.len() - unit(family);
    law_wire_place_involution(family, decorrelate, n, count);
    let after = raster.update(unit(family) + wire_place(family, decorrelate, n), sym);
    let longer = body.push(sym);
    assert forall|k: int| 0 <= k < longer.len() implies after[unit(family) + wire_place(
        family,
        decorrelate,
        k,
    )] == #[trigger] longer[k] by {
        if k < n {
            law_wire_place_involution(family, decorrelate, k, count);
            assert(longer[k] == body[k]);
        }
    }
}

/// Decodes one residual for every byte behind the first pixel of `pixels`, and
/// puts it in its raster place. Returns how many bytes that took, in whole words;
/// where the data end early, these are more than there are.
fn read_body(
    family: PixelFamily,
    decorrelate: bool,
    tables: &ThreeTables,
    data: &[u8],
    pixels: &mut Vec<u8>,
) -> (r: Result<u128>)
    requires
        tables.wf(),
        old(pixels)@.len() >= unit(family),
        old(pixels)@.len() % unit(family) as nat == 0,
    ensures
        r is Ok <==> symbols(
            tables@,
            family,
            decorrelate,
            data@,
            (old(pixels)@.len() - unit(family)) as nat,
        ) is Some,
        r matches Err(e) ==> e is InvalidData,
        r matches Ok(n) ==> (symbols(
            tables@,
            family,
            decorrelate,
            data@,
            (old(pixels)@.len() - unit(family)) as nat,
        ) matches Some((body, pos)) && {
            &&& n == crossed(pos)
            &&& n <= 32 * usize::MAX + 32
            &&& final(pixels)@.len() == old(pixels)@.len()
            &&& forall|i: int|
                0 <= i < unit(family) ==> #[trigger] final(pixels)@[i] == old(pixels)@[i]
            &&& placed(family, decorrelate, final(pixels)@, body)
        }),
{
    let mut reader = BitReader::new(data);
    let skip: usize = unit_bytes(family);
    let total: usize = pixels.len();
    let count: usize = total - skip;
    let mut i: usize = 0;
    proof {
        lemma_whole_units(family, total as int, 0);
    }
    let ghost mut body: Seq<u8> = Seq::empty();
    let mut bits: u128 = 0;
    while i < count
        invariant
            tables.wf(),
            reader.wf(),
            reader.source() == data@,
            skip == unit(family),
            total == pixels@.len(),
            total == old(pixels)@.len(),
            count == total - skip,
            count as int % unit(family) == 0,
            i <= count,
            body.len() == i,
            bits == reader.pos(),
            bits <= 32 * i,
            symbols(tables@, family, decorrelate, data@, i as nat) == Some((body, reader.pos())),
            forall|k: int| 0 <= k < skip ==> #[trigger] pixels@[k] == old(pixels)@[k],
            placed(family, decorrelate, pixels@, body),
        decreases count - i,
    {
        let table = tables.slot(slot_at(family, decorrelate, i));
        let window: u32 = reader.peek_window();
        let ghost pos = reader.pos();
        let (sym, len) = match decode_one(table, window) {
            Ok(found) => found,
            Err(e) => {
                proof {
                    assert(symbols(tables@, family, decorrelate, data@, (i + 1) as nat) is None);
                    lemma_symbols_stop(
                        tables@,
                        family,
                        decorrelate,
                        data@,
                        (i + 1) as nat,
                        count as nat,
                    );
                }
                return Err(e);
            },
        };
        reader.consume_bits_trusted(len as u32);
        bits = bits + len as u128;
        proof {
            lemma_placed_push(family, decorrelate, pixels@, body, sym);
            body = body.push(sym);
        }
        let at: usize = skip + place_of(family, decorrelate, i);
        pixels.set(at, sym);
        i = i + 1;
    }
    Ok((bits + 31) / 32 * 4)
}

/// Reconstructed frame.
#[derive(Debug, Clone)]
pub struct DecodedFrame {
    pub family: PixelFamily,
    pub width: u32,
    pub height: u32,
    /// Pixel bytes in the family's layout.
    pub pixels: Vec<u8>,
}

/// A field can be decoded from the front of `bytes`.
pub open spec fn field_decodable(
    books: Codebooks,
    family: PixelFamily,
    predictor: Predictor,
    decorrelate: bool,
    width: u32,
    height: u32,
    bytes: Seq<u8>,
) -> bool {
    &&& raster_len(family, width, height) <= usize::MAX
    &&& width > 0
    &&& height > 0
    &&& family is Yuy2 ==> width % 2 == 0
    &&& family.rgb() ==> !(predictor is Median)
    &&& bytes.len() >= 4
    &&& field_symbols(books, family, decorrelate, width, height, bytes) is Some
}

/// The residuals of a field at the front of `bytes`, and the bits that they take.
pub open spec fn field_symbols(
    books: Codebooks,
    family: PixelFamily,
    decorrelate: bool,
    width: u32,
    height: u32,
    bytes: Seq<u8>,
) -> Option<(Seq<u8>, nat)> {
    symbols(
        books,
        family,
        decorrelate,
        bytes.subrange(4, bytes.len() as int),
        (raster_len(family, width, height) - unit(family)) as nat,
    )
}

/// The raster `p` is what a field at the front of `bytes` decodes to.
pub open spec fn field_decodes_to(
    books: Codebooks,
    family: PixelFamily,
    predictor: Predictor,
    decorrelate: bool,
    width: u32,
    height: u32,
    bytes: Seq<u8>,
    p: Seq<u8>,
) -> bool {
    field_symbols(books, family, decorrelate, width, height, bytes) matches Some((body, pos))
        && carries(
        family,
        predictor,
        decorrelate,
        width * family.step(),
        height as int,
        p,
        bytes.subrange(0, 4),
        body,
    )
}

/// A frame and the place behind it are what a field decodes to.
pub open spec fn field_result(
    books: Codebooks,
    family: PixelFamily,
    predictor: Predictor,
    decorrelate: bool,
    width: u32,
    height: u32,
    bytes: Seq<u8>,
    frame: DecodedFrame,
    end: usize,
) -> bool {
    &&& frame.family == family
    &&& frame.width == width
    &&& frame.height == height
    &&& field_decodes_to(
        books,
        family,
        predictor,
        decorrelate,
        width,
        height,
        bytes,
        frame.pixels@,
    )
    &&& end == countable_place(field_end(books, family, decorrelate, width, height, bytes))
}

/// Where the bytes of a field end. Where they end early, this lies behind them.
pub open spec fn field_end(
    books: Codebooks,
    family: PixelFamily,
    decorrelate: bool,
    width: u32,
    height: u32,
    bytes: Seq<u8>,
) -> int {
    match field_symbols(books, family, decorrelate, width, height, bytes) {
        Some((body, pos)) => 4int + crossed(pos),
        None => bytes.len() as int,
    }
}

/// The residuals of a field as they come from the bit stream, first pixel and
/// all, in raster order, with the place behind the field.
fn read_field(
    family: PixelFamily,
    decorrelate: bool,
    width: u32,
    height: u32,
    frame_bytes: &[u8],
    tables: &ThreeTables,
) -> (r: Result<(Vec<u8>, usize)>)
    requires
        tables.wf(),
        family is Yuy2 ==> width % 2 == 0,
    ensures
        r is Ok <==> {
            &&& raster_len(family, width, height) <= usize::MAX
            &&& width > 0
            &&& height > 0
            &&& frame_bytes@.len() >= 4
            &&& field_symbols(tables@, family, decorrelate, width, height, frame_bytes@) is Some
        },
        r matches Err(e) ==> e is InvalidData,
        r matches Ok((res, end)) ==> (field_symbols(
            tables@,
            family,
            decorrelate,
            width,
            height,
            frame_bytes@,
        ) matches Some((body, pos)) && {
            &&& end == countable_place(
                field_end(tables@, family, decorrelate, width, height, frame_bytes@),
            )
            &&& res@.len() == raster_len(family, width, height)
            &&& res@.len() == unit(family) + body.len()
            &&& forall|i: int|
                0 <= i < unit(family) ==> #[trigger] res@[i] == first_pixel(
                    family,
                    frame_bytes@.subrange(0, 4),
                )[i]
            &&& placed(family, decorrelate, res@, body)
        }),
{
    proof {
        lemma_raster_rows(family, width, height);
    }
    let total: usize = match raster_size(family, width, height) {
        Some(n) => n,
        None => {
            return Err(Error::invalid("frame: dimensions exceed what memory can address"));
        },
    };
    let skip: usize = unit_bytes(family);
    if total < skip {
        return Err(Error::invalid("frame: degenerate dimensions"));
    }
    if frame_bytes.len() < 4 {
        return Err(Error::invalid("frame: missing 4-byte uncompressed pixel"));
    }
    let mut pixels: Vec<u8> = vec![0u8; total];
    let from: usize = 4 - skip;
    let mut i: usize = 0;
    while i < skip
        invariant
            i <= skip,
            skip == unit(family),
            from == 4 - skip,
            skip <= total,
            pixels@.len() == total,
            frame_bytes@.len() >= 4,
            forall|k: int| 0 <= k < i ==> #[trigger] pixels@[k] == frame_bytes@[from + k],
        decreases skip - i,
    {
        pixels.set(i, frame_bytes[from + i]);
        i = i + 1;
    }
    let rest: &[u8] = &frame_bytes[4..frame_bytes.len()];
    let used: u128 = read_body(family, decorrelate, tables, rest, &mut pixels)?;
    proof {
        lemma_symbols_len(tables@, family, decorrelate, rest@, (total - skip) as nat);
    }
    let end: usize = if 4 + used <= usize::MAX as u128 {
        (4 + used) as usize
    } else {
        usize::MAX
    };
    Ok((pixels, end))
}

/// Undoes YUY2 median prediction, in place: left prediction up to eight bytes
/// into the second row, and median prediction from there on.
pub fn inverse_yuy2_median(out: &mut [u8], row_bytes: usize)
    requires
        old(out)@.len() > 4 && old(out)@.len() > row_bytes ==> row_bytes >= 4 && row_bytes % 4 == 0,
    ensures
        median_residuals(final(out)@, row_bytes as int, 2) == old(out)@,
{
    let len: usize = out.len();
    if len <= 4 {
        proof {
            assert(median_residuals(out@, row_bytes as int, 2) =~= out@);
        }
        return;
    }
    let ghost given = out@;
    let row0_end: usize = if row_bytes < len {
        row_bytes
    } else {
        len
    };
    inverse_yuy2_left_macropixel(out, 4, row0_end);
    if len <= row_bytes {
        proof {
            assert forall|i: int| 0 <= i < len implies #[trigger] median_residuals(
                out@,
                row_bytes as int,
                2,
            )[i] == given[i] by {}
            assert(median_residuals(out@, row_bytes as int, 2) =~= given);
        }
        return;
    }
    let ghost row0 = out@;
    let left_end: usize = if len - row_bytes < 8 {
        len
    } else {
        row_bytes + 8
    };
    inverse_yuy2_left_macropixel(out, row_bytes, left_end);
    let ghost start = out@;
    proof {
        assert forall|i: int| 0 <= i < left_end implies #[trigger] yuy2_left_residuals(start)[i]
            == given[i] by {
            assert(given[i] == given[i] && row0[i] == row0[i]);
            if i >= 4 {
                let k = i - yuy2_stride(i);
                assert(row0[k] == row0[k]);
            }
        }
        assert forall|i: int| left_end <= i < len implies start[i] == #[trigger] given[i] by {
            assert(row0[i] == start[i]);
        }
    }
    let mut pos: usize = left_end;
    while pos < len
        invariant
            len == out@.len(),
            len == given.len(),
            len == start.len(),
            row_bytes >= 4,
            left_end <= pos <= len,
            left_end == row_bytes + 8 || pos == len,
            forall|i: int| 0 <= i < left_end ==> out@[i] == #[trigger] start[i],
            forall|i: int| pos <= i < len ==> out@[i] == #[trigger] given[i],
            forall|i: int|
                left_end <= i < pos ==> #[trigger] given[i] == out@[i].wrapping_sub(
                    crate::predict::median(
                        out@[i - 2],
                        out@[i - row_bytes],
                        out@[i - row_bytes - 2],
                    ),
                ),
        decreases len - pos,
    {
        assert(out@[pos as int] == given[pos as int]);
        let l: u8 = out[pos - 2];
        let a: u8 = out[pos - row_bytes];
        let al: u8 = out[pos - row_bytes - 2];
        let g: u8 = crate::predict::gradient_predictor(l, a, al);
        let predicted: u8 = median3(l, a, g);
        let v: u8 = out[pos].wrapping_add(predicted);
        out[pos] = v;
        pos = pos + 1;
    }
    proof {
        let r = median_residuals(out@, row_bytes as int, 2);
        assert forall|i: int| 0 <= i < len implies #[trigger] r[i] == given[i] by {
            if i < left_end {
                assert(out@[i] == start[i]);
                if i >= 4 {
                    assert(out@[i - yuy2_stride(i)] == start[i - yuy2_stride(i)]);
                }
                assert(yuy2_left_residuals(start)[i] == given[i]);
            }
        }
        assert(r =~= given);
    }
}

/// A field of one row has no median prediction, so its height does not matter.
proof fn lemma_median_rows(p: Seq<u8>, row_bytes: int, height: int)
    requires
        p.len() == row_bytes * height,
        height >= 1,
    ensures
        median_residuals(p, row_bytes, 2) == median_residuals(p, row_bytes, height),
{
    if height == 1 {
        assert(row_bytes * height == row_bytes) by (nonlinear_arith)
            requires
                height == 1,
        ;
    }
    assert(median_residuals(p, row_bytes, 2) =~= median_residuals(p, row_bytes, height));
}

/// Decodes a YUY2 field; returns it with the place behind it.
pub fn decode_yuy2_field(
    predictor: Predictor,
    width: u32,
    height: u32,
    frame_bytes: &[u8],
    tables: &ThreeTables,
) -> (r: Result<(DecodedFrame, usize)>)
    requires
        tables.wf(),
    ensures
        r is Ok <==> field_decodable(
            tables@,
            PixelFamily::Yuy2,
            predictor,
            false,
            width,
            height,
            frame_bytes@,
        ),
        r matches Err(e) ==> e is InvalidData,
        r matches Ok((frame, end)) ==> field_result(
            tables@,
            PixelFamily::Yuy2,
            predictor,
            false,
            width,
            height,
            frame_bytes@,
            frame,
            end,
        ),
{
    if width % 2 != 0 {
        return Err(Error::invalid("YUY2 width must be even"));
    }
    let family = PixelFamily::Yuy2;
    let (mut pixels, end) = read_field(family, false, width, height, frame_bytes, tables)?;
    let ghost res = pixels@;
    proof {
        lemma_raster_rows(family, width, height);
    }
    let row_bytes: usize = family.row_bytes(width);
    let total: usize = pixels.len();
    match predictor {
        Predictor::Left => {
            inverse_yuy2_left_macropixel(pixels.as_mut_slice(), 4, total);
            assert(yuy2_left_residuals(pixels@) =~= res);
        },
        Predictor::Gradient => {
            inverse_yuy2_left_macropixel(pixels.as_mut_slice(), 4, total);
            let ghost mid = pixels@;
            assert(yuy2_left_residuals(mid) =~= res);
            inverse_gradient_post(pixels.as_mut_slice(), row_bytes, height as usize);
        },
        Predictor::Median => {
            inverse_yuy2_median(pixels.as_mut_slice(), row_bytes);
            proof {
                lemma_median_rows(pixels@, row_bytes as int, height as int);
            }
        },
    }
    Ok((DecodedFrame { family, width, height, pixels }, end))
}

/// Decodes an RGB24 field; returns it with the place behind it.
pub fn decode_rgb24_field(
    predictor: Predictor,
    decorrelate: bool,
    width: u32,
    height: u32,
    frame_bytes: &[u8],
    tables: &ThreeTables,
) -> (r: Result<(DecodedFrame, usize)>)
    requires
        tables.wf(),
    ensures
        r is Ok <==> field_decodable(
            tables@,
            PixelFamily::Rgb24,
            predictor,
            decorrelate,
            width,
            height,
            frame_bytes@,
        ),
        r matches Err(e) ==> e is InvalidData,
        r matches Ok((frame, end)) ==> field_result(
            tables@,
            PixelFamily::Rgb24,
            predictor,
            decorrelate,
            width,
            height,
            frame_bytes@,
            frame,
            end,
        ),
{
    let family = PixelFamily::Rgb24;
    let (mut pixels, end) = read_field(family, decorrelate, width, height, frame_bytes, tables)?;
    proof {
        lemma_raster_rows(family, width, height);
    }
    let row_bytes: usize = family.row_bytes(width);
    inverse_left_row(pixels.as_mut_slice(), 3);
    match predictor {
        Predictor::Left => {},
        Predictor::Gradient => {
            inverse_gradient_post(pixels.as_mut_slice(), row_bytes, height as usize);
        },
        Predictor::Median => {
            return Err(Error::invalid("median predictor not legal for RGB"));
        },
    }
    if decorrelate {
        inverse_rgb_decorr_bgr(pixels.as_mut_slice());
    }
    Ok((DecodedFrame { family, width, height, pixels }, end))
}

/// Decodes an RGB32 field; returns it with the place behind it.
pub fn decode_rgb32_field(
    predictor: Predictor,
    decorrelate: bool,
    width: u32,
    height: u32,
    frame_bytes: &[u8],
    tables: &ThreeTables,
) -> (r: Result<(DecodedFrame, usize)>)
    requires
        tables.wf(),
    ensures
        r is Ok <==> field_decodable(
            tables@,
            PixelFamily::Rgb32,
            predictor,
            decorrelate,
            width,
            height,
            frame_bytes@,
        ),
        r matches Err(e) ==> e is InvalidData,
        r matches Ok((frame, end)) ==> field_result(
            tables@,
            PixelFamily::Rgb32,
            predictor,
            decorrelate,
            width,
            height,
            frame_bytes@,
            frame,
            end,
        ),
{
    let family = PixelFamily::Rgb32;
    let (mut pixels, end) = read_field(family, decorrelate, width, height, frame_bytes, tables)?;
    proof {
        lemma_raster_rows(family, width, height);
    }
    let row_bytes: usize = family.row_bytes(width);
    inverse_left_row(pixels.as_mut_slice(), 4);
    match predictor {
        Predictor::Left => {},
        Predictor::Gradient => {
            inverse_gradient_post(pixels.as_mut_slice(), row_bytes, height as usize);
        },
        Predictor::Median => {
            return Err(Error::invalid("median predictor not legal for RGB"));
        },
    }
    if decorrelate {
        inverse_rgb_decorr_bgra(pixels.as_mut_slice());
    }
    Ok((DecodedFrame { family, width, height, pixels }, end))
}

/// Decorrelation means nothing to YUY2.
proof fn lemma_yuy2_symbols(books: Codebooks, decorrelate: bool, data: Seq<u8>, n: nat)
    ensures
        symbols(books, PixelFamily::Yuy2, decorrelate, data, n) == symbols(
            books,
            PixelFamily::Yuy2,
            false,
            data,
            n,
        ),
    decreases n,
{
    reveal(slot_of);
    if n > 0 {
        lemma_yuy2_symbols(books, decorrelate, data, (n - 1) as nat);
    }
}

/// Decorrelation means nothing to a YUY2 raster.
proof fn lemma_yuy2_places(decorrelate: bool, raster: Seq<u8>, body: Seq<u8>)
    requires
        placed(PixelFamily::Yuy2, false, raster, body),
    ensures
        placed(PixelFamily::Yuy2, decorrelate, raster, body),
{
    reveal(wire_place);
}

/// Decodes one field; returns it with the place behind it.
pub fn decode_field(
    family: PixelFamily,
    predictor: Predictor,
    decorrelate: bool,
    width: u32,
    height: u32,
    frame_bytes: &[u8],
    tables: &ThreeTables,
) -> (r: Result<(DecodedFrame, usize)>)
    requires
        tables.wf(),
    ensures
        r is Ok <==> field_decodable(
            tables@,
            family,
            predictor,
            decorrelate,
            width,
            height,
            frame_bytes@,
        ),
        r matches Err(e) ==> e is InvalidData,
        r matches Ok((frame, end)) ==> field_result(
            tables@,
            family,
            predictor,
            decorrelate,
            width,
            height,
            frame_bytes@,
            frame,
            end,
        ),
{
    match family {
        PixelFamily::Yuy2 => {
            proof {
                lemma_yuy2_symbols(
                    tables@,
                    decorrelate,
                    frame_bytes@.subrange(4, frame_bytes@.len() as int),
                    (raster_len(family, width, height) - unit(family)) as nat,
                );
            }
            let (frame, end) = decode_yuy2_field(predictor, width, height, frame_bytes, tables)?;
            proof {
                let (body, pos) = field_symbols(
                    tables@,
                    family,
                    false,
                    width,
                    height,
                    frame_bytes@,
                ).unwrap();
                lemma_yuy2_places(
                    decorrelate,
                    field_residuals(
                        family,
                        predictor,
                        false,
                        width * family.step(),
                        height as int,
                        frame.pixels@,
                    ),
                    body,
                );
            }
            Ok((frame, end))
        },
        PixelFamily::Rgb24 => decode_rgb24_field(
            predictor,
            decorrelate,
            width,
            height,
            frame_bytes,
            tables,
        ),
        PixelFamily::Rgb32 => decode_rgb32_field(
            predictor,
            decorrelate,
            width,
            height,
            frame_bytes,
            tables,
        ),
    }
}

// ---------------------------------------------------------------------------
// Frames
// ---------------------------------------------------------------------------

/// The rows of one field of a frame.
pub open spec fn rows_of(height: u32, parity: int) -> u32 {
    field_rows(height as int, parity) as u32
}

/// The bytes behind the first field of a frame; none where it ends early.
pub open spec fn second_field(books: Codebooks, info: StreamInfo, bytes: Seq<u8>) -> Seq<u8> {
    let end = field_end(
        books,
        info.family,
        info.method.decorrelates(),
        info.width,
        rows_of(info.height, 0),
        bytes,
    );
    let split = if end < bytes.len() {
        end
    } else {
        bytes.len() as int
    };
    bytes.subrange(split, bytes.len() as int)
}

/// A frame can be decoded from `bytes` with the given codebooks.
pub open spec fn frame_decodable_with(books: Codebooks, info: StreamInfo, bytes: Seq<u8>) -> bool {
    let (predictor, decorrelate) = (info.method.spec_predictor(), info.method.decorrelates());
    &&& raster_len(info.family, info.width, info.height) <= usize::MAX
    &&& if info.height > 288 {
        &&& field_decodable(
            books,
            info.family,
            predictor,
            decorrelate,
            info.width,
            rows_of(info.height, 0),
            bytes,
        )
        &&& field_decodable(
            books,
            info.family,
            predictor,
            decorrelate,
            info.width,
            rows_of(info.height, 1),
            second_field(books, info, bytes),
        )
    } else {
        field_decodable(
            books,
            info.family,
            predictor,
            decorrelate,
            info.width,
            info.height,
            bytes,
        )
    }
}

/// A frame of the stream can be decoded from `bytes`.
pub open spec fn frame_decodable(info: StreamInfo, bytes: Seq<u8>) -> bool {
    stream_books(info) matches Some(books) && frame_decodable_with(books, info, bytes)
}

/// The raster `p` is what a frame decodes to with the given codebooks. Of a
/// frame in two fields, each field is what its own bytes decode to.
pub open spec fn frame_decodes_to_with(
    books: Codebooks,
    info: StreamInfo,
    bytes: Seq<u8>,
    p: Seq<u8>,
) -> bool {
    let (predictor, decorrelate) = (info.method.spec_predictor(), info.method.decorrelates());
    let row_bytes = info.width * info.family.step();
    &&& p.len() == raster_len(info.family, info.width, info.height)
    &&& if info.height > 288 {
        &&& field_decodes_to(
            books,
            info.family,
            predictor,
            decorrelate,
            info.width,
            rows_of(info.height, 0),
            bytes,
            field(p, row_bytes, info.height as int, 0),
        )
        &&& field_decodes_to(
            books,
            info.family,
            predictor,
            decorrelate,
            info.width,
            rows_of(info.height, 1),
            second_field(books, info, bytes),
            field(p, row_bytes, info.height as int, 1),
        )
    } else {
        field_decodes_to(
            books,
            info.family,
            predictor,
            decorrelate,
            info.width,
            info.height,
            bytes,
            p,
        )
    }
}

/// The raster `p` is what a frame of the stream decodes to.
pub open spec fn frame_decodes_to(info: StreamInfo, bytes: Seq<u8>, p: Seq<u8>) -> bool {
    stream_books(info) matches Some(books) && frame_decodes_to_with(books, info, bytes, p)
}

/// Decodes one frame. Where its height exceeds 288 it comes as two fields, the
/// even rows before the odd ones.
pub fn decode_frame(config: &StreamConfig, frame_bytes: &[u8]) -> (r: Result<DecodedFrame>)
    ensures
        r is Ok <==> frame_decodable(config@, frame_bytes@),
        r matches Ok(frame) ==> {
            &&& frame.family == config.family
            &&& frame.width == config.width
            &&& frame.height == config.height
            &&& frame_decodes_to(config@, frame_bytes@, frame.pixels@)
        },
        r matches Err(e) ==> e is InvalidData,
{
    let tables = build_three_tables(config)?;
    decode_frame_with_tables(config, frame_bytes, &tables)
}

/// Decodes one frame; as many workers as `worker_budget` may share the work,
/// which does not change the result.
pub fn decode_frame_with_workers(
    config: &StreamConfig,
    frame_bytes: &[u8],
    worker_budget: usize,
) -> (r: Result<DecodedFrame>)
    ensures
        r is Ok <==> frame_decodable(config@, frame_bytes@),
        r matches Ok(frame) ==> {
            &&& frame.family == config.family
            &&& frame.width == config.width
            &&& frame.height == config.height
            &&& frame_decodes_to(config@, frame_bytes@, frame.pixels@)
        },
        r matches Err(e) ==> e is InvalidData,
{
    decode_frame(config, frame_bytes)
}

/// Decodes one frame with the codebooks of its stream.
pub fn decode_frame_with_tables(
    config: &StreamConfig,
    frame_bytes: &[u8],
    tables: &ThreeTables,
) -> (r: Result<DecodedFrame>)
    requires
        tables.wf(),
    ensures
        r is Ok <==> frame_decodable_with(tables@, config@, frame_bytes@),
        r matches Ok(frame) ==> {
            &&& frame.family == config.family
            &&& frame.width == config.width
            &&& frame.height == config.height
            &&& frame_decodes_to_with(tables@, config@, frame_bytes@, frame.pixels@)
        },
        r matches Err(e) ==> e is InvalidData,
{
    if is_interlaced_height(config.height) {
        return decode_frame_interlaced(config, frame_bytes, tables);
    }
    let (frame, end) = decode_field(
        config.family,
        config.method.predictor(),
        config.method.decorrelate(),
        config.width,
        config.height,
        frame_bytes,
        tables,
    )?;
    Ok(frame)
}

/// Decodes one frame of two fields.
pub fn decode_frame_interlaced(
    config: &StreamConfig,
    frame_bytes: &[u8],
    tables: &ThreeTables,
) -> (r: Result<DecodedFrame>)
    requires
        tables.wf(),
        config.height > 288,
    ensures
        r is Ok <==> frame_decodable_with(tables@, config@, frame_bytes@),
        r matches Ok(frame) ==> {
            &&& frame.family == config.family
            &&& frame.width == config.width
            &&& frame.height == config.height
            &&& frame_decodes_to_with(tables@, config@, frame_bytes@, frame.pixels@)
        },
        r matches Err(e) ==> e is InvalidData,
{
    let (family, width, height) = (config.family, config.width, config.height);
    let (predictor, decorrelate) = (config.method.predictor(), config.method.decorrelate());
    if raster_size(family, width, height).is_none() {
        return Err(Error::invalid("frame: dimensions exceed what memory can address"));
    }
    let top_h: u32 = height / 2 + height % 2;
    let bot_h: u32 = height / 2;
    assert(top_h == rows_of(height, 0) && bot_h == rows_of(height, 1));
    let (top, end) = decode_field(
        family,
        predictor,
        decorrelate,
        width,
        top_h,
        frame_bytes,
        tables,
    )?;
    let split: usize = if end < frame_bytes.len() {
        end
    } else {
        frame_bytes.len()
    };
    let rest: &[u8] = &frame_bytes[split..frame_bytes.len()];
    let (bot, _) = decode_field(family, predictor, decorrelate, width, bot_h, rest, tables)?;
    proof {
        lemma_raster_rows(family, width, height);
    }
    let row_bytes: usize = family.row_bytes(width);
    let pixels: Vec<u8> = interleave_fields(
        top.pixels.as_slice(),
        bot.pixels.as_slice(),
        row_bytes,
        height as usize,
    );
    proof {
        law_split_undoes_interleave(
            top.pixels@,
            bot.pixels@,
            row_bytes as int,
            height as int,
        );
    }
    Ok(DecodedFrame { family, width, height, pixels })
}

} // verus!
