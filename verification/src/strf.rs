//! Writing stream headers.

use vstd::prelude::*;

use crate::bits::lemma_word_bytes;
use crate::header::{
    bit_count_of, law_method_byte_round_trip, legal, magnitude, parse_header, signed, tables_of,
    u32_at, Method, PixelFamily, StreamInfo, FOURCC_HFYU,
};
use crate::predict::{flag_for_height, interlace_flag_for_height};

verus! {

/// The four little-endian bytes of a word.
pub open spec fn le_bytes(word: u32) -> Seq<u8> {
    seq![
        (word & 0xFF) as u8,
        ((word >> 8) & 0xFF) as u8,
        ((word >> 16) & 0xFF) as u8,
        ((word >> 24) & 0xFF) as u8,
    ]
}

/// `n` zero bytes.
pub open spec fn zeros(n: nat) -> Seq<u8> {
    Seq::new(n, |i: int| 0u8)
}

/// A signed number as a byte.
pub open spec fn unsigned(v: i8) -> u8 {
    if v < 0 {
        (v + 256) as u8
    } else {
        v as u8
    }
}

/// The low three bits of `biBitCount` that select a method.
pub open spec fn method_low3(method: Method) -> u8 {
    match method {
        Method::PredictOld => 0,
        Method::Left => 1,
        Method::LeftDecorr => 2,
        Method::Gradient => 3,
        Method::GradientDecorr => 3,
        Method::Median => 4,
    }
}

/// The first twenty bytes of a header.
pub open spec fn header_front(size: u32, width: u32, height: u32, bit_count: u8) -> Seq<u8> {
    le_bytes(size) + le_bytes(width) + le_bytes(height) + seq![1u8, 0u8, bit_count, 0u8] + le_bytes(
        FOURCC_HFYU,
    )
}

/// The header of a stream. Without extradata the low bits of `biBitCount` select
/// the method; with it, the four bytes behind the first forty hold the method,
/// the bit count and the interlace flag, and the length tables follow.
pub open spec fn built_header(
    family: PixelFamily,
    method: Method,
    width: u32,
    height: u32,
    tables: Seq<u8>,
    with_extradata: bool,
) -> Seq<u8> {
    if with_extradata {
        let bit_count = if family is Rgb32 {
            32u8
        } else {
            24u8
        };
        header_front((0x2C + tables.len()) as u32, width, height, bit_count) + zeros(20) + seq![
            unsigned(method.spec_to_byte()),
            family.spec_bits() as u8,
            flag_for_height(height),
            0u8,
        ] + tables
    } else {
        header_front(
            0x28,
            width,
            height,
            (family.spec_bits() + method_low3(method)) as u8,
        ) + zeros(20)
    }
}

/// A word is read back from its bytes.
proof fn lemma_le_bytes(s: Seq<u8>, at: int, word: u32)
    requires
        0 <= at,
        at + 4 <= s.len(),
        s.subrange(at, at + 4) == le_bytes(word),
    ensures
        u32_at(s, at) == word,
{
    let part = s.subrange(at, at + 4);
    assert(part[0] == s[at] && part[1] == s[at + 1] && part[2] == s[at + 2] && part[3] == s[at
        + 3]);
    lemma_word_bytes(word);
}

/// What the first twenty bytes of a header say.
proof fn lemma_header_front(s: Seq<u8>, size: u32, width: u32, height: u32, bit_count: u8)
    requires
        s.len() >= 20,
        s.subrange(0, 20) == header_front(size, width, height, bit_count),
    ensures
        u32_at(s, 0) == size,
        u32_at(s, 4) == width,
        u32_at(s, 8) == height,
        bit_count_of(s) == bit_count,
        u32_at(s, 0x10) == FOURCC_HFYU,
{
    let f = header_front(size, width, height, bit_count);
    assert(s.subrange(0, 4) =~= f.subrange(0, 4) && f.subrange(0, 4) =~= le_bytes(size));
    assert(s.subrange(4, 8) =~= f.subrange(4, 8) && f.subrange(4, 8) =~= le_bytes(width));
    assert(s.subrange(8, 12) =~= f.subrange(8, 12) && f.subrange(8, 12) =~= le_bytes(height));
    assert(s.subrange(16, 20) =~= f.subrange(16, 20) && f.subrange(16, 20) =~= le_bytes(
        FOURCC_HFYU,
    ));
    lemma_le_bytes(s, 0, size);
    lemma_le_bytes(s, 4, width);
    lemma_le_bytes(s, 8, height);
    lemma_le_bytes(s, 16, FOURCC_HFYU);
    assert(s[0x0E] == s.subrange(0, 20)[0x0E] && s[0x0F] == s.subrange(0, 20)[0x0F]);
    assert(f[0x0E] == bit_count && f[0x0F] == 0);
}

/// Parsing a built header gives back what it was built from, except that widths
/// and heights above `2^31` are taken for negative numbers, of which the
/// magnitude counts.
#[verifier::rlimit(30)]
pub proof fn law_parse_built_header(
    family: PixelFamily,
    method: Method,
    width: u32,
    height: u32,
    tables: Seq<u8>,
    with_extradata: bool,
)
    requires
        legal(family, method),
        with_extradata ==> 0x2C + tables.len() <= u32::MAX,
    ensures
        parse_header(built_header(family, method, width, height, tables, with_extradata)) == Some(
            StreamInfo {
                family,
                method,
                width: magnitude(width),
                height: magnitude(height),
                has_extradata: with_extradata,
                tables: if with_extradata {
                    tables
                } else {
                    Seq::empty()
                },
            },
        ),
{
    let s = built_header(family, method, width, height, tables, with_extradata);
    if with_extradata {
        let bit_count = if family is Rgb32 {
            32u8
        } else {
            24u8
        };
        let size = (0x2C + tables.len()) as u32;
        assert(s.len() == 0x2C + tables.len());
        assert(s.subrange(0, 20) =~= header_front(size, width, height, bit_count));
        lemma_header_front(s, size, width, height, bit_count);
        assert(s[0x28] == unsigned(method.spec_to_byte()));
        assert(s[0x29] == family.spec_bits() as u8);
        assert(signed(s[0x28]) == method.spec_to_byte());
        law_method_byte_round_trip(method, 0);
        assert(tables_of(s) =~= tables);
    } else {
        let bit_count = (family.spec_bits() + method_low3(method)) as u8;
        assert(s.len() == 40);
        assert(s.subrange(0, 20) =~= header_front(0x28, width, height, bit_count));
        lemma_header_front(s, 0x28, width, height, bit_count);
        assert(tables_of(s) =~= Seq::<u8>::empty());
    }
}

/// Appends a word, least significant byte first.
pub fn push_word(out: &mut Vec<u8>, word: u32)
    ensures
        final(out)@ == old(out)@ + le_bytes(word),
{
    out.push((word & 0xFF) as u8);
    out.push(((word >> 8) & 0xFF) as u8);
    out.push(((word >> 16) & 0xFF) as u8);
    out.push(((word >> 24) & 0xFF) as u8);
    assert(out@ =~= old(out)@ + le_bytes(word));
}

/// The length tables stand behind the first 44 bytes of a built header, so that
/// it can be built again from them; without extradata it has 40 bytes.
pub proof fn law_built_header_holds_tables(
    family: PixelFamily,
    method: Method,
    width: u32,
    height: u32,
    tables: Seq<u8>,
    with_extradata: bool,
)
    ensures
        ({
            let s = built_header(family, method, width, height, tables, with_extradata);
            if with_extradata {
                s.len() == 0x2C + tables.len() && s.subrange(0x2C, s.len() as int) == tables
            } else {
                s.len() == 0x28
            }
        }),
{
    let s = built_header(family, method, width, height, tables, with_extradata);
    if with_extradata {
        assert(s.subrange(0x2C, s.len() as int) =~= tables);
    }
}

/// The header of a stream, as an AVI `strf` chunk holds it.
pub fn build_bitmapinfoheader(
    family: PixelFamily,
    method: Method,
    width: u32,
    height: u32,
    extradata_tables: &[u8],
    with_extradata: bool,
) -> (strf: Vec<u8>)
    requires
        with_extradata ==> 0x2C + extradata_tables@.len() <= u32::MAX,
    ensures
        strf@ == built_header(family, method, width, height, extradata_tables@, with_extradata),
{
    let mut v: Vec<u8> = Vec::new();
    let bits: u8 = family.effective_bits() as u8;
    let (size, bit_count): (u32, u8) = if with_extradata {
        (
            0x2C + extradata_tables.len() as u32,
            if bits == 32 {
                32
            } else {
                24
            },
        )
    } else {
        let low3: u8 = match method {
            Method::PredictOld => 0,
            Method::Left => 1,
            Method::LeftDecorr => 2,
            Method::Gradient => 3,
            Method::GradientDecorr => 3,
            Method::Median => 4,
        };
        (0x28, bits + low3)
    };
    push_word(&mut v, size);
    push_word(&mut v, width);
    push_word(&mut v, height);
    v.push(1);
    v.push(0);
    v.push(bit_count);
    v.push(0);
    push_word(&mut v, FOURCC_HFYU);
    let mut pad: Vec<u8> = vec![0u8; 20];
    assert(pad@ =~= zeros(20));
    v.append(&mut pad);
    assert(v@ =~= header_front(size, width, height, bit_count) + zeros(20));
    if with_extradata {
        let byte: i8 = method.to_byte();
        let method_byte: u8 = if byte < 0 {
            (byte as i16 + 256) as u8
        } else {
            byte as u8
        };
        v.push(method_byte);
        v.push(bits);
        v.push(interlace_flag_for_height(height));
        v.push(0);
        v.extend_from_slice(extradata_tables);
    }
    assert(v@ =~= built_header(
        family,
        method,
        width,
        height,
        extradata_tables@,
        with_extradata,
    ));
    v
}

} // verus!
