//! What a stream header says, byte by byte.

use vstd::prelude::*;

use crate::bits::{le32, lemma_word_bytes};
use crate::header::{legal, parse_header, u32_at, Method, PixelFamily, FOURCC_FFVH, FOURCC_HFYU};
use crate::strf::{built_header, header_front, le_bytes};

verus! {

/// The number that four bytes spell, the least significant one first.
pub open spec fn number_at(s: Seq<u8>, at: int) -> int {
    s[at] + 256 * s[at + 1] + 65536 * s[at + 2] + 16777216 * s[at + 3]
}

/// A little-endian word is the number that its bytes spell.
pub proof fn lemma_number_at(s: Seq<u8>, at: int)
    ensures
        u32_at(s, at) == number_at(s, at),
{
    let (a, b, c, d) = (s[at], s[at + 1], s[at + 2], s[at + 3]);
    assert((a as u32) | ((b as u32) << 8) | ((c as u32) << 16) | ((d as u32) << 24) == a as u32
        + 256 * (b as u32) + 65536 * (c as u32) + 16777216 * (d as u32)) by (bit_vector);
}

/// What a header of at least forty bytes that names one of the two codecs comes
/// to. Width and height are signed numbers at bytes 4 and 8, of which the
/// magnitude counts. The low three bits of the bit count at byte 14 select the
/// method where they are not zero; else the byte behind the first forty does,
/// where the size at byte 0 says that it is there; else it is the old left
/// prediction. The pixel family is that of the bit depth at byte 41, read as a
/// signed number, where that byte is declared, there and not zero, and else of
/// the bit count without its low three bits. The tables stand from byte 44 up to
/// the declared size, or as far as there are bytes.
pub proof fn law_header_fields(strf: Seq<u8>)
    ensures
        strf.len() < 40 ==> parse_header(strf) is None,
        strf.len() >= 40 ==> {
            let known = (strf[16] == 0x48 && strf[17] == 0x46 && strf[18] == 0x59 && strf[19]
                == 0x55) || (strf[16] == 0x46 && strf[17] == 0x46 && strf[18] == 0x56 && strf[19]
                == 0x48);
            let size = number_at(strf, 0);
            let (w, h) = (number_at(strf, 4), number_at(strf, 8));
            let bits = strf[14] + 256 * strf[15];
            let method = match strf[14] % 8 {
                1 => Some(Method::Left),
                2 => Some(Method::LeftDecorr),
                3 => Some(
                    if bits >= 24 {
                        Method::GradientDecorr
                    } else {
                        Method::Gradient
                    },
                ),
                4 => Some(Method::Median),
                0 => if size <= 40 {
                    Some(Method::PredictOld)
                } else if size > strf.len() {
                    None
                } else {
                    match strf[40] {
                        0xFE => Some(Method::PredictOld),
                        0x00 => Some(Method::Left),
                        0x01 => Some(Method::Gradient),
                        0x02 => Some(Method::Median),
                        0x40 => Some(Method::LeftDecorr),
                        0x41 => Some(Method::GradientDecorr),
                        _ => None,
                    }
                },
                _ => Some(Method::PredictOld),
            };
            let depth = if size > 41 && strf.len() > 41 && strf[41] != 0 {
                if strf[41] < 128 {
                    strf[41] as int
                } else {
                    256 - strf[41]
                }
            } else {
                bits - bits % 8
            };
            let end = if size <= strf.len() {
                size
            } else {
                strf.len() as int
            };
            match parse_header(strf) {
                Some(info) => {
                    &&& known
                    &&& method == Some(info.method)
                    &&& depth == (match info.family {
                        PixelFamily::Yuy2 => 16int,
                        PixelFamily::Rgb24 => 24,
                        PixelFamily::Rgb32 => 32,
                    })
                    &&& legal(info.family, info.method)
                    &&& info.width == (if w < 0x8000_0000 {
                        w
                    } else {
                        0x1_0000_0000 - w
                    })
                    &&& info.height == (if h < 0x8000_0000 {
                        h
                    } else {
                        0x1_0000_0000 - h
                    })
                    &&& info.has_extradata == (size > 40)
                    &&& info.tables == (if end > 44 {
                        strf.subrange(44, end)
                    } else {
                        Seq::empty()
                    })
                },
                None => {
                    ||| !known
                    ||| method is None
                    ||| depth != 16 && depth != 24 && depth != 32
                    ||| depth == 16 && !legal(PixelFamily::Yuy2, method.unwrap())
                    ||| depth != 16 && !legal(PixelFamily::Rgb24, method.unwrap())
                },
            }
        },
{
    if strf.len() >= 40 {
        lemma_number_at(strf, 0);
        lemma_number_at(strf, 4);
        lemma_number_at(strf, 8);
        lemma_number_at(strf, 16);
        let (a, b, c, d) = (strf[16], strf[17], strf[18], strf[19]);
        assert(FOURCC_HFYU == 0x48 + 256 * 0x46 + 65536 * 0x59 + 16777216 * 0x55);
        assert(FOURCC_FFVH == 0x46 + 256 * 0x46 + 65536 * 0x56 + 16777216 * 0x48);
        lemma_signed_methods(strf[40]);
    }
}

/// The byte of a method, taken for a signed number.
proof fn lemma_signed_methods(b: u8)
    ensures
        Method::spec_from_byte(crate::header::signed(b)) == (match b {
            0xFE => Some(Method::PredictOld),
            0x00 => Some(Method::Left),
            0x01 => Some(Method::Gradient),
            0x02 => Some(Method::Median),
            0x40 => Some(Method::LeftDecorr),
            0x41 => Some(Method::GradientDecorr),
            _ => None,
        }),
{
    if b == 0xFE {
        assert(crate::header::signed(b) == -2);
    } else if b >= 128 {
        assert(crate::header::signed(b) == b - 256);
    }
}

/// What a built header holds. Its first forty bytes are a bitmap header: its own
/// size, width and height as little-endian numbers, one plane, the bit count, the
/// name `HFYU`, and zeros. Without extradata the bit count is the depth of the
/// pixels plus the number of the method, and nothing follows. With extradata it
/// is 24, or 32 for pixels with alpha; the method, the depth, the interlace flag
/// and a zero follow, and behind them the tables.
#[verifier::rlimit(30)]
pub proof fn law_built_header_bytes(
    family: PixelFamily,
    method: Method,
    width: u32,
    height: u32,
    tables: Seq<u8>,
    with_extradata: bool,
)
    requires
        with_extradata ==> 0x2C + tables.len() <= u32::MAX,
    ensures
        ({
            let s = built_header(family, method, width, height, tables, with_extradata);
            let depth: int = match family {
                PixelFamily::Yuy2 => 16,
                PixelFamily::Rgb24 => 24,
                PixelFamily::Rgb32 => 32,
            };
            &&& number_at(s, 0) == s.len()
            &&& number_at(s, 4) == width
            &&& number_at(s, 8) == height
            &&& s[12] == 1
            &&& s[13] == 0
            &&& s[15] == 0
            &&& s[16] == 0x48
            &&& s[17] == 0x46
            &&& s[18] == 0x59
            &&& s[19] == 0x55
            &&& forall|i: int| 20 <= i < 40 ==> #[trigger] s[i] == 0
            &&& if with_extradata {
                &&& s.len() == 44 + tables.len()
                &&& s[14] == (if family is Rgb32 {
                    32int
                } else {
                    24
                })
                &&& s[40] == (match method {
                    Method::PredictOld => 0xFE,
                    Method::Left => 0,
                    Method::Gradient => 1,
                    Method::Median => 2,
                    Method::LeftDecorr => 0x40,
                    Method::GradientDecorr => 0x41int,
                })
                &&& s[41] == depth
                &&& s[42] == (if height > 288 {
                    0x10int
                } else {
                    0x20
                })
                &&& s[43] == 0
                &&& forall|i: int| 0 <= i < tables.len() ==> s[44 + i] == #[trigger] tables[i]
            } else {
                &&& s.len() == 40
                &&& s[14] == depth + (match method {
                    Method::PredictOld => 0int,
                    Method::Left => 1,
                    Method::LeftDecorr => 2,
                    Method::Gradient => 3,
                    Method::GradientDecorr => 3,
                    Method::Median => 4,
                })
            }
        }),
{
    let s = built_header(family, method, width, height, tables, with_extradata);
    let size: u32 = if with_extradata {
        (0x2C + tables.len()) as u32
    } else {
        0x28
    };
    lemma_number_bytes(size);
    lemma_number_bytes(width);
    lemma_number_bytes(height);
    lemma_number_bytes(FOURCC_HFYU);
    let front = s.subrange(0, 20);
    let bit_count = s[14];
    assert(front =~= header_front(size, width, height, bit_count));
    assert(s.subrange(0, 4) =~= le_bytes(size));
    assert(s.subrange(4, 8) =~= le_bytes(width));
    assert(s.subrange(8, 12) =~= le_bytes(height));
    assert(s.subrange(16, 20) =~= le_bytes(FOURCC_HFYU));
    lemma_part_number(s, 0, size);
    lemma_part_number(s, 4, width);
    lemma_part_number(s, 8, height);
    lemma_part_number(s, 16, FOURCC_HFYU);
}

/// Four bytes of a number in a buffer.
proof fn lemma_part_number(s: Seq<u8>, at: int, word: u32)
    requires
        0 <= at,
        at + 4 <= s.len(),
        s.subrange(at, at + 4) == le_bytes(word),
    ensures
        number_at(s, at) == word,
{
    let part = s.subrange(at, at + 4);
    assert(part[0] == s[at] && part[1] == s[at + 1] && part[2] == s[at + 2] && part[3] == s[at
        + 3]);
    lemma_number_bytes(word);
}

/// The bytes of a word spell it.
pub proof fn lemma_number_bytes(word: u32)
    ensures
        number_at(le_bytes(word), 0) == word,
{
    lemma_word_bytes(word);
    lemma_number_at(le_bytes(word), 0);
}

} // verus!
