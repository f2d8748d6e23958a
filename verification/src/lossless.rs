//! What is decoded is what was encoded.

use vstd::prelude::*;

use crate::bits::{
    law_packing_is_unique, lemma_packed_bits, lemma_window_shows_code, starts_with, top_bits,
    window_at,
};
use crate::cost::law_cost_is_coded_bits;
use crate::decoder::{
    field_decodable, field_decodes_to, field_end, field_symbols, frame_decodable,
    frame_decodable_with, frame_decodes_to, frame_decodes_to_with, rows_of, second_field,
    stream_books, symbols, Codebooks,
};
use crate::emit::{code_stream, has_codewords, is_coded_field};
use crate::encoder::{
    coded_len, encoded_info, frame_cost, frame_countable, is_best_encoding, is_coded_frame,
    is_decodable, is_encodable, is_encoded, is_first_best, law_encoded_header,
    law_fixed_selection, law_left_methods_code_alike, law_mode_books, lemma_codewords_concat,
    lemma_frame_body, mode_books, ExtradataMode, MethodSelection,
};
use crate::header::{legal, parse_header, Method, PixelFamily, StreamInfo};
use crate::layout::{
    law_carried_field_is_unique, lemma_raster_rows, lemma_whole_units, raster_len, slot_of, unit,
};
use crate::predict::{field, law_interleave_undoes_split};
use crate::residuals::{
    frame_body, is_raster, law_wire_carries_field, lemma_field_sizes, method_residuals, part_body,
    part_seed, wire_body, wire_seed,
};
use crate::tables::{entries_wf, entry_wf, law_lookup_finds_symbol, shows};

verus! {

/// The symbols of a stream that starts with the codewords of a body are that
/// body, whatever follows.
pub proof fn law_stream_decodes(
    books: Codebooks,
    family: PixelFamily,
    decorrelate: bool,
    data: Seq<u8>,
    body: Seq<u8>,
)
    requires
        is_decodable(books),
        has_codewords(books, family, decorrelate, body),
        starts_with(data, code_stream(books, family, decorrelate, body)),
    ensures
        symbols(books, family, decorrelate, data, body.len()) == Some(
            (body, code_stream(books, family, decorrelate, body).len()),
        ),
    decreases body.len(),
{
    if body.len() > 0 {
        let front = body.drop_last();
        let n = body.len() - 1;
        let slot = slot_of(family, decorrelate, n);
        let entries = books.slot(slot);
        let e = entries[body.last() as int];
        let before = code_stream(books, family, decorrelate, front);
        let whole = code_stream(books, family, decorrelate, body);
        assert(whole == before + top_bits(e.code, e.length as nat));
        assert(body[n] == body.last());
        assert(e.length > 0);
        assert(entries_wf(entries));
        assert(entry_wf(e));
        assert forall|i: int| 0 <= i < front.len() implies books.slot(
            slot_of(family, decorrelate, i),
        )[#[trigger] front[i] as int].length > 0 by {
            assert(front[i] == body[i]);
        }
        assert forall|k: int| 0 <= k < before.len() implies #[trigger] crate::bits::stream_bit(
            data,
            k,
        ) == before[k] by {
            assert(whole[k] == before[k]);
        }
        law_stream_decodes(books, family, decorrelate, data, front);
        let pos = before.len() as int;
        assert(whole.subrange(pos, pos + e.length) =~= top_bits(e.code, e.length as nat));
        lemma_window_shows_code(data, whole, pos, e.code, e.length as nat);
        let w = window_at(data, pos);
        assert(shows(e, w));
        law_lookup_finds_symbol(entries, w, body.last() as int);
        assert(front.push(body.last()) =~= body);
    }
}

/// A field at the front of some bytes is decoded to the raster that it was made
/// of, and ends where its own bytes end.
proof fn lemma_field_decodes(
    books: Codebooks,
    family: PixelFamily,
    method: Method,
    width: u32,
    height: u32,
    p: Seq<u8>,
    own: Seq<u8>,
    more: Seq<u8>,
)
    requires
        is_decodable(books),
        p.len() == raster_len(family, width, height),
        p.len() <= usize::MAX,
        width > 0,
        height > 0,
        family is Yuy2 ==> width % 2 == 0,
        family.rgb() ==> !(method.spec_predictor() is Median),
        ({
            let r = method_residuals(family, method, width, height, p);
            let body = wire_body(family, method.decorrelates(), r);
            &&& has_codewords(books, family, method.decorrelates(), body)
            &&& is_coded_field(
                books,
                family,
                method.decorrelates(),
                wire_seed(family, r),
                body,
                own,
            )
        }),
    ensures
        field_decodable(
            books,
            family,
            method.spec_predictor(),
            method.decorrelates(),
            width,
            height,
            own + more,
        ),
        field_decodes_to(
            books,
            family,
            method.spec_predictor(),
            method.decorrelates(),
            width,
            height,
            own + more,
            p,
        ),
        field_end(books, family, method.decorrelates(), width, height, own + more) == own.len(),
{
    let decorrelate = method.decorrelates();
    let r = method_residuals(family, method, width, height, p);
    let body = wire_body(family, decorrelate, r);
    let bytes = own + more;
    let packed = own.subrange(4, own.len() as int);
    let stream = code_stream(books, family, decorrelate, body);
    law_wire_carries_field(family, method, width, height, p);
    lemma_packed_bits(packed, more, stream);
    let data = bytes.subrange(4, bytes.len() as int);
    assert(data =~= packed + more);
    law_stream_decodes(books, family, decorrelate, data, body);
    assert(body.len() == raster_len(family, width, height) - unit(family));
    assert(bytes.subrange(0, 4) =~= own.subrange(0, 4));
}

/// A frame made with prefix-free codebooks that have a codeword for each of its
/// residuals is decoded with them to the raster that it was made of.
pub proof fn law_coded_frame_decodes(
    books: Codebooks,
    info: StreamInfo,
    p: Seq<u8>,
    bytes: Seq<u8>,
)
    requires
        is_decodable(books),
        legal(info.family, info.method),
        is_raster(info.family, info.width, info.height, p.len()),
        0 < p.len() <= usize::MAX,
        has_codewords(
            books,
            info.family,
            info.method.decorrelates(),
            frame_body(info.family, info.method, info.width, info.height, p),
        ),
        is_coded_frame(books, info.family, info.method, info.width, info.height, p, bytes),
    ensures
        frame_decodable_with(books, info, bytes),
        frame_decodes_to_with(books, info, bytes, p),
{
    let (family, method, width, height) = (info.family, info.method, info.width, info.height);
    let decorrelate = method.decorrelates();
    lemma_raster_rows(family, width, height);
    if height > 288 {
        let rb = width * family.step();
        let (h0, h1) = (rows_of(height, 0), rows_of(height, 1));
        let (f0, f1) = (field(p, rb, height as int, 0), field(p, rb, height as int, 1));
        let body0 = part_body(family, method, width, height, p, 0);
        let body1 = part_body(family, method, width, height, p, 1);
        lemma_field_sizes(family, width, height);
        lemma_raster_rows(family, width, h0);
        lemma_raster_rows(family, width, h1);
        assert(rb * h0 + rb * h1 == rb * height && rb * h0 >= 0 && rb * h1 >= 0)
            by (nonlinear_arith)
            requires
                h0 + h1 == height,
                rb >= 0,
        ;
        lemma_frame_body(family, method, width, height, p);
        lemma_codewords_concat(books, family, decorrelate, body0, body1);
        let n = coded_len(books, family, decorrelate, body0) as int;
        let (top, bot) = (bytes.subrange(0, n), bytes.subrange(n, bytes.len() as int));
        assert(top + bot =~= bytes);
        lemma_field_decodes(books, family, method, width, h0, f0, top, bot);
        assert(bot + Seq::<u8>::empty() =~= bot);
        lemma_field_decodes(books, family, method, width, h1, f1, bot, Seq::empty());
        assert(second_field(books, info, bytes) =~= bot);
    } else {
        assert(bytes + Seq::<u8>::empty() =~= bytes);
        lemma_field_decodes(books, family, method, width, height, p, bytes, Seq::empty());
    }
}

/// Decoding gives back what was encoded: the header of an encoded frame parses
/// to its family, method and size, and with what it declares the bytes decode to
/// the raster and to no other. Frames without pixels are left out, for they do
/// not decode, and so are widths and heights above `2^31`, which a header cannot
/// hold.
pub proof fn law_decode_undoes_encode(
    family: PixelFamily,
    method: Method,
    width: u32,
    height: u32,
    p: Seq<u8>,
    mode: ExtradataMode,
    strf: Seq<u8>,
    bytes: Seq<u8>,
)
    requires
        legal(family, method),
        is_encodable(family, method, width, height, p, mode),
        0 < p.len() <= usize::MAX,
        width <= 0x8000_0000,
        height <= 0x8000_0000,
        mode is CustomV2 ==> frame_countable(family, method, width, height, p),
        is_encoded(family, method, width, height, p, mode, strf, bytes),
    ensures
        parse_header(strf) matches Some(info) && {
            &&& info.family == family
            &&& info.method == method
            &&& info.width == width
            &&& info.height == height
            &&& frame_decodable(info, bytes)
            &&& forall|q: Seq<u8>| #[trigger] frame_decodes_to(info, bytes, q) <==> q == p
        },
{
    let info = encoded_info(family, method, width, height, p, mode);
    let body = frame_body(family, method, width, height, p);
    law_encoded_header(family, method, width, height, p, mode, strf, bytes);
    lemma_frame_body(family, method, width, height, p);
    law_mode_books(mode, family, method, body);
    let books = mode_books(mode, family, method, body).unwrap();
    assert(stream_books(info) == Some(books));
    law_coded_frame_decodes(books, info, p, bytes);
    assert forall|q: Seq<u8>| #[trigger] frame_decodes_to(info, bytes, q) implies q == p by {
        law_frame_decodes_to_one_raster(info, bytes, p, q);
    }
}

/// A field decodes to at most one raster.
proof fn lemma_field_is_unique(
    books: Codebooks,
    info: StreamInfo,
    height: u32,
    bytes: Seq<u8>,
    p: Seq<u8>,
    q: Seq<u8>,
)
    requires
        field_decodable(
            books,
            info.family,
            info.method.spec_predictor(),
            info.method.decorrelates(),
            info.width,
            height,
            bytes,
        ),
        field_decodes_to(
            books,
            info.family,
            info.method.spec_predictor(),
            info.method.decorrelates(),
            info.width,
            height,
            bytes,
            p,
        ),
        field_decodes_to(
            books,
            info.family,
            info.method.spec_predictor(),
            info.method.decorrelates(),
            info.width,
            height,
            bytes,
            q,
        ),
    ensures
        p == q,
{
    let family = info.family;
    let decorrelate = info.method.decorrelates();
    let (body, pos) = field_symbols(
        books,
        family,
        decorrelate,
        info.width,
        height,
        bytes,
    ).unwrap();
    lemma_raster_rows(family, info.width, height);
    lemma_whole_units(family, raster_len(family, info.width, height), 0);
    law_carried_field_is_unique(
        family,
        info.method.spec_predictor(),
        decorrelate,
        info.width * family.step(),
        height as int,
        p,
        q,
        bytes.subrange(0, 4),
        body,
    );
}

/// The bytes of a frame decode to at most one raster.
pub proof fn law_frame_decodes_to_one_raster(
    info: StreamInfo,
    bytes: Seq<u8>,
    p: Seq<u8>,
    q: Seq<u8>,
)
    requires
        frame_decodable(info, bytes),
        frame_decodes_to(info, bytes, p),
        frame_decodes_to(info, bytes, q),
    ensures
        p == q,
{
    let books = stream_books(info).unwrap();
    if info.height > 288 {
        let rb = info.width * info.family.step();
        let h = info.height as int;
        lemma_field_is_unique(
            books,
            info,
            rows_of(info.height, 0),
            bytes,
            field(p, rb, h, 0),
            field(q, rb, h, 0),
        );
        lemma_field_is_unique(
            books,
            info,
            rows_of(info.height, 1),
            second_field(books, info, bytes),
            field(p, rb, h, 1),
            field(q, rb, h, 1),
        );
        law_interleave_undoes_split(p, rb, h);
        law_interleave_undoes_split(q, rb, h);
    } else {
        lemma_field_is_unique(books, info, info.height, bytes, p, q);
    }
}

/// A frame is encoded in one way only: the same raster, method and mode give the
/// same header and the same bytes, however many workers share the work.
#[verifier::rlimit(30)]
pub proof fn law_encoding_is_unique(
    family: PixelFamily,
    method: Method,
    width: u32,
    height: u32,
    p: Seq<u8>,
    mode: ExtradataMode,
    a: (Seq<u8>, Seq<u8>),
    b: (Seq<u8>, Seq<u8>),
)
    requires
        is_encoded(family, method, width, height, p, mode, a.0, a.1),
        is_encoded(family, method, width, height, p, mode, b.0, b.1),
    ensures
        a == b,
{
    let body = frame_body(family, method, width, height, p);
    let books = mode_books(mode, family, method, body).unwrap();
    let decorrelate = method.decorrelates();
    let (seed0, body0) = (
        part_seed(family, method, width, height, p, 0),
        part_body(family, method, width, height, p, 0),
    );
    if height > 288 {
        let (seed1, body1) = (
            part_seed(family, method, width, height, p, 1),
            part_body(family, method, width, height, p, 1),
        );
        let n = coded_len(books, family, decorrelate, body0) as int;
        let (a0, a1) = (a.1.subrange(0, n), a.1.subrange(n, a.1.len() as int));
        let (b0, b1) = (b.1.subrange(0, n), b.1.subrange(n, b.1.len() as int));
        lemma_coded_field_is_unique(books, family, decorrelate, seed0, body0, a0, b0);
        lemma_coded_field_is_unique(books, family, decorrelate, seed1, body1, a1, b1);
        assert(a.1 =~= a0 + a1 && b.1 =~= b0 + b1);
    } else {
        lemma_coded_field_is_unique(books, family, decorrelate, seed0, body0, a.1, b.1);
    }
}

/// A frame encoded with a choice of methods comes in the one that the choice
/// settles on: a method of the family that takes no more code bits than any other
/// candidate, and fewer than those before it. The header and the bytes are those
/// of encoding with that method.
pub proof fn law_choice_of_method(
    family: PixelFamily,
    selection: MethodSelection,
    width: u32,
    height: u32,
    p: Seq<u8>,
    mode: ExtradataMode,
    strf: Seq<u8>,
    bytes: Seq<u8>,
    method: Method,
)
    requires
        selection.fits(family),
        is_best_encoding(family, selection, width, height, p, mode, strf, bytes, method),
    ensures
        legal(family, method),
        exists|i: int|
            0 <= i < selection.spec_candidates(family).len()
                && #[trigger] selection.spec_candidates(family)[i] == method && (forall|k: int|
                0 <= k < selection.spec_candidates(family).len() ==> frame_cost(
                    family,
                    method,
                    width,
                    height,
                    p,
                ) <= frame_cost(
                    family,
                    #[trigger] selection.spec_candidates(family)[k],
                    width,
                    height,
                    p,
                )) && (forall|k: int|
                0 <= k < i ==> frame_cost(family, method, width, height, p) < frame_cost(
                    family,
                    #[trigger] selection.spec_candidates(family)[k],
                    width,
                    height,
                    p,
                )),
        forall|a: Seq<u8>, b: Seq<u8>| #[trigger]
            is_encoded(family, method, width, height, p, mode, a, b) <==> a == strf && b == bytes,
{
    assert forall|a: Seq<u8>, b: Seq<u8>| #[trigger]
        is_encoded(family, method, width, height, p, mode, a, b) implies a == strf
        && b == bytes by {
        law_encoding_is_unique(family, method, width, height, p, mode, (a, b), (strf, bytes));
    }
}

/// A method is legal for a family unless it decorrelates colours that are not
/// there, or predicts RGB by the median or by a gradient of plain colours.
pub proof fn law_legal_methods(family: PixelFamily, method: Method)
    ensures
        legal(family, method) <==> match method {
            Method::PredictOld | Method::Left => true,
            Method::Gradient | Method::Median => family is Yuy2,
            Method::LeftDecorr | Method::GradientDecorr => family is Rgb24 || family is Rgb32,
        },
{
}

/// Every legal method is tried, but for the old left prediction, which codes what
/// left prediction codes. Left prediction comes first, then the method that adds
/// one step to it, then the one that adds another. A fixed method is the only one
/// tried.
pub proof fn law_methods_tried(family: PixelFamily, m: Method)
    ensures
        ({
            let tried = MethodSelection::Auto.spec_candidates(family);
            &&& tried.contains(m) <==> legal(family, m) && !(m is PredictOld)
            &&& tried == MethodSelection::spec_legal_methods(family)
            &&& tried.len() == 3
            &&& tried[0] is Left
            &&& tried[1] is Gradient || tried[1] is LeftDecorr
            &&& tried[2] is Median || tried[2] is GradientDecorr
        }),
        MethodSelection::Fixed(m).spec_candidates(family) == seq![m],
{
    let tried = MethodSelection::Auto.spec_candidates(family);
    assert(tried[0] == Method::Left);
    if family.rgb() {
        assert(tried[1] == Method::LeftDecorr && tried[2] == Method::GradientDecorr);
    } else {
        assert(tried[1] == Method::Gradient && tried[2] == Method::Median);
    }
}

/// Where the choice is left open, no legal method takes fewer code bits than the
/// one chosen. Left prediction is chosen wherever nothing takes fewer bits than
/// it, and of the others the simpler one where both take the same.
pub proof fn law_open_choice_is_cheapest(
    family: PixelFamily,
    width: u32,
    height: u32,
    p: Seq<u8>,
    mode: ExtradataMode,
    strf: Seq<u8>,
    bytes: Seq<u8>,
    method: Method,
)
    requires
        is_best_encoding(
            family,
            MethodSelection::Auto,
            width,
            height,
            p,
            mode,
            strf,
            bytes,
            method,
        ),
    ensures
        ({
            let cost = |m: Method| frame_cost(family, m, width, height, p);
            &&& legal(family, method)
            &&& forall|m: Method| legal(family, m) ==> cost(method) <= #[trigger] cost(m)
            &&& method is Left <==> forall|m: Method|
                legal(family, m) ==> cost(Method::Left) <= #[trigger] cost(m)
            &&& match method {
                Method::Left => true,
                Method::Gradient => family is Yuy2 && cost(method) < cost(Method::Left),
                Method::Median => family is Yuy2 && cost(method) < cost(Method::Left) && cost(
                    method,
                ) < cost(Method::Gradient),
                Method::LeftDecorr => family.rgb() && cost(method) < cost(Method::Left),
                Method::GradientDecorr => family.rgb() && cost(method) < cost(Method::Left)
                    && cost(method) < cost(Method::LeftDecorr),
                Method::PredictOld => false,
            }
        }),
{
    let cost = |m: Method| frame_cost(family, m, width, height, p);
    let list = MethodSelection::Auto.spec_candidates(family);
    let i = choose|i: int|
        is_first_best(family, list, width, height, p, i) && #[trigger] list[i] == method;
    let any = arbitrary_books();
    law_left_methods_code_alike(any, family, width, height, p, bytes);
    assert(list.len() == 3);
    assert(cost(method) <= cost(list[0]) && cost(method) <= cost(list[1]) && cost(method) <= cost(
        list[2],
    ));
    assert forall|m: Method| legal(family, m) implies cost(method) <= #[trigger] cost(m) by {
        assert(m == list[0] || m == list[1] || m == list[2] || m is PredictOld);
    }
    if i > 0 {
        assert(cost(method) < cost(list[0]));
    }
    if i > 1 {
        assert(cost(method) < cost(list[1]));
    }
    if forall|m: Method| legal(family, m) ==> cost(Method::Left) <= #[trigger] cost(m) {
        assert(cost(Method::Left) <= cost(method));
        assert(i == 0);
    }
}

/// Some codebooks.
spec fn arbitrary_books() -> Codebooks {
    Codebooks { first: Seq::empty(), second: Seq::empty(), third: Seq::empty() }
}

/// The cost of a method is what its codewords take: a frame of one field that is
/// coded with codebooks made for it has its first four bytes, and as many words as
/// that number of bits fills.
pub proof fn law_cost_is_frame_size(
    family: PixelFamily,
    method: Method,
    width: u32,
    height: u32,
    p: Seq<u8>,
    strf: Seq<u8>,
    bytes: Seq<u8>,
)
    requires
        height <= 288,
        is_encodable(family, method, width, height, p, ExtradataMode::CustomV2),
        frame_countable(family, method, width, height, p),
        is_encoded(family, method, width, height, p, ExtradataMode::CustomV2, strf, bytes),
    ensures
        bytes.len() == 4 + 4 * ((frame_cost(family, method, width, height, p) + 31) / 32),
{
    let body = frame_body(family, method, width, height, p);
    lemma_frame_body(family, method, width, height, p);
    law_cost_is_coded_bits(family, method, body);
}

/// A frame encoded with a choice of methods is decoded to the raster that it was
/// made of.
pub proof fn law_decode_undoes_choice(
    family: PixelFamily,
    selection: MethodSelection,
    width: u32,
    height: u32,
    p: Seq<u8>,
    mode: ExtradataMode,
    strf: Seq<u8>,
    bytes: Seq<u8>,
    method: Method,
)
    requires
        selection.fits(family),
        is_encodable(family, Method::Left, width, height, p, mode),
        0 < p.len() <= usize::MAX,
        width <= 0x8000_0000,
        height <= 0x8000_0000,
        mode is CustomV2 ==> frame_countable(family, method, width, height, p),
        is_best_encoding(family, selection, width, height, p, mode, strf, bytes, method),
    ensures
        parse_header(strf) matches Some(info) && {
            &&& info.family == family
            &&& info.method == method
            &&& info.width == width
            &&& info.height == height
            &&& frame_decodable(info, bytes)
            &&& forall|q: Seq<u8>| #[trigger] frame_decodes_to(info, bytes, q) <==> q == p
        },
{
    law_choice_of_method(family, selection, width, height, p, mode, strf, bytes, method);
    law_fixed_selection(family, method, width, height, p, mode, strf, bytes, method);
    law_decode_undoes_encode(family, method, width, height, p, mode, strf, bytes);
}

/// A field is coded in one way only.
proof fn lemma_coded_field_is_unique(
    books: Codebooks,
    family: PixelFamily,
    decorrelate: bool,
    seed: Seq<u8>,
    body: Seq<u8>,
    a: Seq<u8>,
    b: Seq<u8>,
)
    requires
        is_coded_field(books, family, decorrelate, seed, body, a),
        is_coded_field(books, family, decorrelate, seed, body, b),
    ensures
        a == b,
{
    let (x, y) = (a.subrange(4, a.len() as int), b.subrange(4, b.len() as int));
    law_packing_is_unique(x, y, code_stream(books, family, decorrelate, body));
    assert(a =~= a.subrange(0, 4) + x && b =~= b.subrange(0, 4) + y);
}

} // verus!
