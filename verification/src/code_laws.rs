//! What codebooks do, whatever they are made from.

use vstd::prelude::*;
use vstd::arithmetic::power2::pow2;

use crate::canonical::{lemma_start_aligned, lemma_starts_disjoint, lemma_width_divides};
use crate::decoder::{
    canonical_books, frame_decodable, second_field, stream_books, symbols, Codebooks,
};
use crate::extradata_laws::lemma_same_shares;
use crate::header::{PixelFamily, StreamInfo};
use crate::huffman::{lemma_all_space_used, lemma_space_covered};
use crate::layout::slot_of;
use crate::rle::expand;
use crate::rle_encode::{compress, law_expand_compress, low_five};
use crate::tables::{
    canonical_entries, entry_wf, first_match, lemma_canonical_entries, lemma_shows_is_range,
    lengths_ok, shows, three_lengths, HuffEntry,
};
use crate::tally::tally;
use crate::v1x::{
    lemma_set_a, lemma_set_a_covers, lemma_set_b, lemma_set_b_covers, lens_a, lens_b, V1X_CODES_A,
    V1X_CODES_B, V1X_LENGTHS_A, V1X_LENGTHS_B,
};

verus! {

/// In the code that a length table describes, longer codewords come before
/// shorter ones, and lower symbols before higher ones of the same length; each
/// takes up its share of the code space alone.
pub proof fn law_canonical_order(lens: Seq<u8>, s: int, t: int)
    requires
        lengths_ok(lens),
        0 <= s < 256,
        0 <= t < 256,
        lens[s] > 0,
        lens[t] > 0,
        lens[s] > lens[t] || (lens[s] == lens[t] && s < t),
    ensures
        canonical_entries(lens)[s].length == lens[s],
        canonical_entries(lens)[t].length == lens[t],
        canonical_entries(lens)[s].code + pow2((32 - lens[s]) as nat) <= canonical_entries(
            lens,
        )[t].code,
        canonical_entries(lens)[t].code + pow2((32 - lens[t]) as nat) <= 0x1_0000_0000,
{
    lemma_start_aligned(lens, s);
    lemma_start_aligned(lens, t);
    lemma_starts_disjoint(lens, s, t);
    lemma_width_divides(lens[s] as int, 0);
    lemma_width_divides(lens[t] as int, 0);
}

/// The window `w` starts with a codeword.
pub open spec fn starts_coded(entries: Seq<HuffEntry>, w: u32) -> bool {
    exists|s: int| 0 <= s < 256 && #[trigger] shows(entries[s], w)
}

/// A table covers the code space: every window starts with a codeword.
pub open spec fn covers_all(entries: Seq<HuffEntry>) -> bool {
    &&& entries.len() == 256
    &&& forall|w: u32| #[trigger] starts_coded(entries, w)
}

/// The code that a length table describes leaves no window without a codeword.
pub proof fn law_canonical_covers(lens: Seq<u8>)
    requires
        lengths_ok(lens),
    ensures
        covers_all(canonical_entries(lens)),
{
    let entries = canonical_entries(lens);
    assert forall|w: u32| #[trigger] starts_coded(entries, w) by {
        lemma_all_space_used(lens);
        let s = lemma_space_covered(lens, 0, 256, w as int);
        lemma_canonical_entries(lens);
        lemma_start_aligned(lens, s);
        assert(entry_wf(entries[s]));
        lemma_shows_is_range(entries[s], w);
        assert(shows(entries[s], w));
    }
}

/// Where a codeword starts the window, one is found.
proof fn lemma_match_exists(entries: Seq<HuffEntry>, w: u32, s: int, from: int)
    requires
        0 <= from <= s < entries.len(),
        shows(entries[s], w),
    ensures
        first_match(entries, w, entries[s].length > 16, from) is Some,
    decreases s - from,
{
    if from < s {
        lemma_match_exists(entries, w, s, from + 1);
    }
}

/// With codebooks that cover the code space, any bytes hold as many symbols as
/// are asked for.
proof fn lemma_symbols_are_found(
    books: Codebooks,
    family: PixelFamily,
    decorrelate: bool,
    data: Seq<u8>,
    n: nat,
)
    requires
        covers_all(books.first),
        covers_all(books.second),
        covers_all(books.third),
    ensures
        symbols(books, family, decorrelate, data, n) is Some,
    decreases n,
{
    if n > 0 {
        let k = (n - 1) as nat;
        lemma_symbols_are_found(books, family, decorrelate, data, k);
        let (body, pos) = symbols(books, family, decorrelate, data, k).unwrap();
        let w = crate::bits::window_at(data, pos as int);
        let entries = books.slot(slot_of(family, decorrelate, n - 1));
        assert(covers_all(entries));
        assert(starts_coded(entries, w));
        let s = choose|s: int| 0 <= s < 256 && #[trigger] shows(entries[s], w);
        lemma_match_exists(entries, w, s, 0);
    }
}

/// The codebooks of a stream cover the code space.
proof fn lemma_stream_books_cover(info: StreamInfo)
    ensures
        stream_books(info) matches Some(books) ==> covers_all(books.first) && covers_all(
            books.second,
        ) && covers_all(books.third),
{
    if let Some(books) = stream_books(info) {
        if !info.has_extradata {
            let a = crate::tables::pair_entries(lens_a()@, V1X_CODES_A@);
            let b = crate::tables::pair_entries(lens_b()@, V1X_CODES_B@);
            assert forall|w: u32| #[trigger] starts_coded(a, w) by {
                let s = lemma_set_a_covers(w);
                assert(shows(a[s], w));
            }
            assert forall|w: u32| #[trigger] starts_coded(b, w) by {
                let s = lemma_set_b_covers(w);
                assert(shows(b[s], w));
            }
        } else {
            let src = if info.tables.len() > 0 {
                info.tables
            } else {
                crate::classic::classic_blob(info.family, info.method)
            };
            let (l1, l2, l3) = crate::tables::three_lengths(src).unwrap();
            law_canonical_covers(l1);
            law_canonical_covers(l2);
            law_canonical_covers(l3);
        }
    }
}

/// Whether a frame can be decoded does not depend on its codewords: missing bits
/// count as zeros, and no bits are without a codeword. The stream has to have
/// codebooks, the frame pixels, and each field its first four bytes.
pub proof fn law_what_decodes(info: StreamInfo, bytes: Seq<u8>)
    ensures
        frame_decodable(info, bytes) <==> (stream_books(info) matches Some(books) && {
            &&& info.width > 0
            &&& info.height > 0
            &&& info.family is Yuy2 ==> info.width % 2 == 0
            &&& info.family is Yuy2 || !(info.method is Median)
            &&& info.width * (match info.family {
                PixelFamily::Yuy2 => 2int,
                PixelFamily::Rgb24 => 3,
                PixelFamily::Rgb32 => 4,
            }) * info.height <= usize::MAX
            &&& bytes.len() >= 4
            &&& info.height > 288 ==> second_field(books, info, bytes).len() >= 4
        }),
{
    lemma_stream_books_cover(info);
    if let Some(books) = stream_books(info) {
        let decorrelate = info.method.decorrelates();
        let row = info.width * info.family.step();
        let rest = bytes.subrange(4, bytes.len() as int);
        let second = second_field(books, info, bytes);
        let last = second.subrange(4, second.len() as int);
        assert forall|n: nat|
            (#[trigger] symbols(books, info.family, decorrelate, rest, n)) is Some by {
            lemma_symbols_are_found(books, info.family, decorrelate, rest, n);
        }
        assert forall|n: nat|
            (#[trigger] symbols(books, info.family, decorrelate, last, n)) is Some by {
            lemma_symbols_are_found(books, info.family, decorrelate, last, n);
        }
        let h = info.height as int;
        let (top, bot) = ((h + 1) / 2, h / 2);
        assert(row * top <= row * h && row * bot <= row * h) by (nonlinear_arith)
            requires
                row >= 0,
                0 <= top,
                h >= 1 ==> top <= h,
                h <= 0 ==> top == 0,
                0 <= bot <= h,
        ;
    }
}

/// A length table makes a codebook just where it has one length for each of the
/// 256 residuals, none above 31, and its codewords fill the code space.
pub proof fn law_lengths_that_count(lens: Seq<u8>)
    ensures
        lengths_ok(lens) <==> {
            &&& lens.len() == 256
            &&& forall|s: int| 0 <= s < 256 ==> #[trigger] lens[s] <= 31
            &&& tally(
                |s: int|
                    if lens[s] == 0 {
                        0
                    } else {
                        pow2((32 - lens[s]) as nat) as int
                    },
                256,
            ) == pow2(32)
        },
{
    vstd::arithmetic::power2::lemma2_to64();
    if lens.len() == 256 && forall|s: int| 0 <= s < 256 ==> #[trigger] lens[s] <= 31 {
        lemma_same_shares(lens, 256);
    }
}

/// Without extradata, a YUY2 stream codes luma with set A and chroma with set B,
/// and an RGB stream codes everything with set A. A symbol's codeword is the one
/// that the set lists for it, in as many bits as its run-length coded lengths
/// say: `1001` for a luma residual of one, `01` for a chroma residual of one.
pub proof fn law_builtin_codewords(info: StreamInfo)
    requires
        !info.has_extradata,
    ensures
        stream_books(info) matches Some(books) && expand(V1X_LENGTHS_A@, 0, 256) matches Some(
            (la, _),
        ) && expand(V1X_LENGTHS_B@, 0, 256) matches Some((lb, _)) && {
            &&& forall|s: int|
                0 <= s < 256 ==> (#[trigger] books.first[s]).length == la[s] && 1 <= la[s] <= 31
                    && books.first[s].code == (V1X_CODES_A@[s] as u32) << ((32 - la[s]) as u32)
            &&& info.family is Yuy2 ==> forall|s: int|
                0 <= s < 256 ==> (#[trigger] books.second[s]).length == lb[s] && 1 <= lb[s] <= 31
                    && books.second[s].code == (V1X_CODES_B@[s] as u32) << ((32 - lb[s]) as u32)
            &&& info.family is Yuy2 ==> forall|s: int|
                0 <= s < 256 ==> (#[trigger] books.third[s]).length == lb[s] && books.third[s].code
                    == (V1X_CODES_B@[s] as u32) << ((32 - lb[s]) as u32)
            &&& !(info.family is Yuy2) ==> forall|s: int|
                0 <= s < 256 ==> (#[trigger] books.second[s]).length == la[s]
                    && books.second[s].code == (V1X_CODES_A@[s] as u32) << ((32 - la[s]) as u32)
            &&& !(info.family is Yuy2) ==> forall|s: int|
                0 <= s < 256 ==> (#[trigger] books.third[s]).length == la[s] && books.third[s].code
                    == (V1X_CODES_A@[s] as u32) << ((32 - la[s]) as u32)
            &&& books.first[1] == (HuffEntry { code: 0x9000_0000, length: 4 })
            &&& info.family is Yuy2 ==> books.second[1] == (HuffEntry {
                code: 0x4000_0000,
                length: 2,
            })
        },
{
    lemma_set_a();
    lemma_set_b();
    assert(9u32 << 28u32 == 0x9000_0000 && 1u32 << 30u32 == 0x4000_0000) by (bit_vector);
    assert(lens_a()@[1] == 4 && V1X_CODES_A@[1] == 9);
    assert(lens_b()@[1] == 2 && V1X_CODES_B@[1] == 1);
}

/// The length tables in a header give the codebooks in their order: the first for
/// luma or blue, the second and the third for the others. Bytes behind them do
/// not count.
pub proof fn law_header_codebooks(
    info: StreamInfo,
    l1: Seq<u8>,
    l2: Seq<u8>,
    l3: Seq<u8>,
    more: Seq<u8>,
)
    requires
        info.has_extradata,
        lengths_ok(l1) && lengths_ok(l2) && lengths_ok(l3),
        info.tables == compress(l1) + compress(l2) + compress(l3) + more,
    ensures
        stream_books(info) matches Some(books) && forall|s: int|
            0 <= s < 256 ==> (#[trigger] books.first[s]).length == l1[s] && books.second[s].length
                == l2[s] && books.third[s].length == l3[s],
        stream_books(info) == Some(
            Codebooks {
                first: canonical_entries(l1),
                second: canonical_entries(l2),
                third: canonical_entries(l3),
            },
        ),
{
    lemma_three_tables(info.tables, l1, l2, l3, more);
    lemma_compress_some(l1);
    let books = canonical_books(l1, l2, l3);
    assert(stream_books(info) == Some(books));
    assert forall|s: int| 0 <= s < 256 implies (#[trigger] books.first[s]).length == l1[s]
        && books.second[s].length == l2[s] && books.third[s].length == l3[s] by {
        assert(books.first[s] == canonical_entries(l1)[s]);
        assert(books.second[s] == canonical_entries(l2)[s]);
        assert(books.third[s] == canonical_entries(l3)[s]);
    }
}

/// A length table takes up bytes.
proof fn lemma_compress_some(lens: Seq<u8>)
    requires
        lens.len() > 0,
    ensures
        compress(lens).len() > 0,
{
    let e = Seq::<u8>::empty();
    law_expand_compress(lens, e, e);
    if compress(lens).len() == 0 {
        assert(e + compress(lens) + e =~= e);
        assert(expand(e, 0, lens.len() as int) is None);
    }
}

/// A length table is read back from between other bytes.
proof fn lemma_one_table(before: Seq<u8>, lens: Seq<u8>, after: Seq<u8>, src: Seq<u8>)
    requires
        lengths_ok(lens),
        src == before + compress(lens) + after,
    ensures
        expand(src, before.len() as int, 256) == Some(
            (lens, (before.len() + compress(lens).len()) as int),
        ),
{
    law_expand_compress(lens, before, after);
    assert(low_five(lens) =~= lens) by {
        assert forall|s: int| 0 <= s < lens.len() implies low_five(lens)[s] == lens[s] by {
            assert(lens[s] <= 31);
        }
    }
}

/// Three length tables in a row are read in their order.
proof fn lemma_three_tables(src: Seq<u8>, l1: Seq<u8>, l2: Seq<u8>, l3: Seq<u8>, more: Seq<u8>)
    requires
        lengths_ok(l1) && lengths_ok(l2) && lengths_ok(l3),
        src == compress(l1) + compress(l2) + compress(l3) + more,
    ensures
        three_lengths(src) == Some((l1, l2, l3)),
{
    let (a, b, c) = (compress(l1), compress(l2), compress(l3));
    lemma_regrouped(a, b, c, more);
    lemma_one_table(Seq::empty(), l1, b + c + more, src);
    lemma_one_table(a, l2, c + more, src);
    lemma_one_table(a + b, l3, more, src);
}

/// Four parts of a buffer, taken together in three ways.
proof fn lemma_regrouped(a: Seq<u8>, b: Seq<u8>, c: Seq<u8>, d: Seq<u8>)
    ensures
        a + b + c + d == Seq::<u8>::empty() + a + (b + c + d),
        a + b + c + d == a + b + (c + d),
        (a + b).len() == a.len() + b.len(),
{
    assert(a + b + c + d =~= Seq::<u8>::empty() + a + (b + c + d));
    assert(a + b + c + d =~= a + b + (c + d));
}

} // verus!
