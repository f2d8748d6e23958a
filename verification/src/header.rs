//! `BITMAPINFOHEADER` and extradata parsing.
//!
//! A stream is described by the 40-byte header, followed in newer streams by a
//! four-byte prefix (method, bit-count override, interlace flag, padding) and
//! the run-length coded Huffman length tables.

use vstd::prelude::*;

use crate::bits::le32;
use crate::error::{Error, Result};
use crate::predict::is_interlaced_height;

verus! {

/// The native codec FourCC, `HFYU`, as a little-endian word.
pub const FOURCC_HFYU: u32 = 0x55594648;

/// The FFVHuff FourCC, `FFVH`, as a little-endian word; accepted as an alias.
pub const FOURCC_FFVH: u32 = 0x48564646;

/// Predictor and decorrelation method.
#[derive(Debug, Clone, Copy, PartialEq, Eq, Structural)]
pub enum Method {
    /// Signed byte `-2`: the same prediction as `Left`. YUV and RGB.
    PredictOld,
    /// `0x00`: left prediction. YUV and RGB.
    Left,
    /// `0x01`: gradient prediction. YUV only.
    Gradient,
    /// `0x02`: median prediction. YUV only.
    Median,
    /// `0x40`: left prediction of `B-G`, `G`, `R-G`. RGB only.
    LeftDecorr,
    /// `0x41`: gradient prediction of `B-G`, `G`, `R-G`. RGB only.
    GradientDecorr,
}

impl Method {
    /// The wire byte of the method.
    pub open spec fn spec_to_byte(self) -> i8 {
        match self {
            Method::PredictOld => (-2) as i8,
            Method::Left => 0x00,
            Method::Gradient => 0x01,
            Method::Median => 0x02,
            Method::LeftDecorr => 0x40,
            Method::GradientDecorr => 0x41,
        }
    }

    /// The method of a wire byte.
    pub open spec fn spec_from_byte(byte: i8) -> Option<Method> {
        if byte == -2 {
            Some(Method::PredictOld)
        } else if byte == 0 {
            Some(Method::Left)
        } else if byte == 1 {
            Some(Method::Gradient)
        } else if byte == 2 {
            Some(Method::Median)
        } else if byte == 0x40 {
            Some(Method::LeftDecorr)
        } else if byte == 0x41 {
            Some(Method::GradientDecorr)
        } else {
            None
        }
    }

    /// The wire byte of the method (signed; `predict_old` is stored as `0xFE`).
    pub fn to_byte(self) -> (b: i8)
        ensures
            b == self.spec_to_byte(),
    {
        match self {
            Method::PredictOld => -2,
            Method::Left => 0x00,
            Method::Gradient => 0x01,
            Method::Median => 0x02,
            Method::LeftDecorr => 0x40,
            Method::GradientDecorr => 0x41,
        }
    }

    /// The method of a wire byte; `None` where the byte names no method.
    pub fn from_byte(byte: i8) -> (m: Option<Self>)
        ensures
            m == Self::spec_from_byte(byte),
    {
        if byte == -2 {
            Some(Method::PredictOld)
        } else if byte == 0 {
            Some(Method::Left)
        } else if byte == 1 {
            Some(Method::Gradient)
        } else if byte == 2 {
            Some(Method::Median)
        } else if byte == 0x40 {
            Some(Method::LeftDecorr)
        } else if byte == 0x41 {
            Some(Method::GradientDecorr)
        } else {
            None
        }
    }

    /// Allowed for an RGB stream.
    pub open spec fn rgb_legal(self) -> bool {
        self is PredictOld || self is Left || self is LeftDecorr || self is GradientDecorr
    }

    /// Allowed for a YUV stream.
    pub open spec fn yuv_legal(self) -> bool {
        self is PredictOld || self is Left || self is Gradient || self is Median
    }

    /// `true` when this method is allowed for an RGB stream.
    pub fn is_rgb_legal(self) -> (b: bool)
        ensures
            b == self.rgb_legal(),
    {
        match self {
            Method::PredictOld | Method::Left | Method::LeftDecorr | Method::GradientDecorr => true,
            _ => false,
        }
    }

    /// `true` when this method is allowed for a YUV stream.
    pub fn is_yuv_legal(self) -> (b: bool)
        ensures
            b == self.yuv_legal(),
    {
        match self {
            Method::PredictOld | Method::Left | Method::Gradient | Method::Median => true,
            _ => false,
        }
    }

    /// The predictor without the decorrelation.
    pub open spec fn spec_predictor(self) -> Predictor {
        match self {
            Method::PredictOld => Predictor::Left,
            Method::Left => Predictor::Left,
            Method::LeftDecorr => Predictor::Left,
            Method::Gradient => Predictor::Gradient,
            Method::GradientDecorr => Predictor::Gradient,
            Method::Median => Predictor::Median,
        }
    }

    /// The predictor without the decorrelation.
    pub fn predictor(self) -> (p: Predictor)
        ensures
            p == self.spec_predictor(),
    {
        match self {
            Method::PredictOld | Method::Left | Method::LeftDecorr => Predictor::Left,
            Method::Gradient | Method::GradientDecorr => Predictor::Gradient,
            Method::Median => Predictor::Median,
        }
    }

    /// The method decorrelates the colour channels.
    pub open spec fn decorrelates(self) -> bool {
        self is LeftDecorr || self is GradientDecorr
    }

    /// `true` when the method decorrelates the colour channels.
    pub fn decorrelate(self) -> (b: bool)
        ensures
            b == self.decorrelates(),
    {
        match self {
            Method::LeftDecorr | Method::GradientDecorr => true,
            _ => false,
        }
    }
}

/// Every method is found again from its wire byte, and every wire byte that
/// names a method is that method's.
pub proof fn law_method_byte_round_trip(m: Method, byte: i8)
    ensures
        Method::spec_from_byte(m.spec_to_byte()) == Some(m),
        Method::spec_from_byte(byte) matches Some(found) ==> found.spec_to_byte() == byte,
{
}

/// Prediction algorithm, independent of decorrelation.
#[derive(Debug, Clone, Copy, PartialEq, Eq, Structural)]
pub enum Predictor {
    Left,
    Gradient,
    Median,
}

/// Packed pixel layout of a stream.
#[derive(Debug, Clone, Copy, PartialEq, Eq, Structural)]
pub enum PixelFamily {
    /// 16-bit YUY2: `Y1 U Y2 V` for two pixels.
    Yuy2,
    /// 24-bit `B G R`.
    Rgb24,
    /// 32-bit `B G R A`.
    Rgb32,
}

impl PixelFamily {
    /// The family is one of the two RGB families.
    pub open spec fn rgb(self) -> bool {
        self is Rgb24 || self is Rgb32
    }

    /// `true` for the two RGB families.
    pub fn is_rgb(self) -> (b: bool)
        ensures
            b == self.rgb(),
    {
        match self {
            PixelFamily::Rgb24 | PixelFamily::Rgb32 => true,
            PixelFamily::Yuy2 => false,
        }
    }

    /// Bits per pixel.
    pub open spec fn spec_bits(self) -> u16 {
        match self {
            PixelFamily::Yuy2 => 16,
            PixelFamily::Rgb24 => 24,
            PixelFamily::Rgb32 => 32,
        }
    }

    /// Bits per pixel.
    pub fn effective_bits(self) -> (n: u16)
        ensures
            n == self.spec_bits(),
    {
        match self {
            PixelFamily::Yuy2 => 16,
            PixelFamily::Rgb24 => 24,
            PixelFamily::Rgb32 => 32,
        }
    }

    /// Bytes per pixel.
    pub open spec fn step(self) -> int {
        match self {
            PixelFamily::Yuy2 => 2,
            PixelFamily::Rgb24 => 3,
            PixelFamily::Rgb32 => 4,
        }
    }

    /// Bytes per pixel.
    pub fn bytes_per_pixel_step(self) -> (n: usize)
        ensures
            n == self.step(),
    {
        match self {
            PixelFamily::Yuy2 => 2,
            PixelFamily::Rgb24 => 3,
            PixelFamily::Rgb32 => 4,
        }
    }

    /// Bytes per row of `width` pixels, capped at what `usize` holds.
    pub open spec fn spec_row_bytes(self, width: u32) -> int {
        if width * self.step() <= usize::MAX {
            width * self.step()
        } else {
            usize::MAX as int
        }
    }

    /// Bytes per row of `width` pixels, capped at what `usize` holds.
    pub fn row_bytes(self, width: u32) -> (n: usize)
        ensures
            n == self.spec_row_bytes(width),
    {
        match (width as usize).checked_mul(self.bytes_per_pixel_step()) {
            Some(n) => n,
            None => usize::MAX,
        }
    }
}

/// The method is allowed for the family.
pub open spec fn legal(family: PixelFamily, method: Method) -> bool {
    if family.rgb() {
        method.rgb_legal()
    } else {
        method.yuv_legal()
    }
}

/// Resolved per-stream configuration.
#[derive(Debug, Clone)]
pub struct StreamConfig {
    pub family: PixelFamily,
    pub method: Method,
    pub width: u32,
    pub height: u32,
    /// `true` when the header declares extradata; `false` selects the built-in
    /// codebooks of version 1 streams.
    pub has_extradata: bool,
    /// The run-length coded length tables behind the four-byte prefix.
    pub extradata_tables: Vec<u8>,
}

/// What a [`StreamConfig`] says.
pub struct StreamInfo {
    pub family: PixelFamily,
    pub method: Method,
    pub width: u32,
    pub height: u32,
    pub has_extradata: bool,
    pub tables: Seq<u8>,
}

/// The little-endian word at `at`.
pub open spec fn u32_at(s: Seq<u8>, at: int) -> u32 {
    le32(s[at], s[at + 1], s[at + 2], s[at + 3])
}

/// The magnitude of a word read as a signed number.
pub open spec fn magnitude(word: u32) -> u32 {
    if word < 0x8000_0000 {
        word
    } else {
        (0x1_0000_0000 - word) as u32
    }
}

/// A byte read as a signed number.
pub open spec fn signed(b: u8) -> i8 {
    if b < 128 {
        b as i8
    } else {
        (b - 256) as i8
    }
}

/// The `biBitCount` field.
pub open spec fn bit_count_of(strf: Seq<u8>) -> int {
    strf[0x0E] + 256 * strf[0x0F]
}

/// The method that the low three bits of `biBitCount` select.
pub open spec fn low3_method(low3: int, bit_count: int) -> Method {
    if low3 == 1 {
        Method::Left
    } else if low3 == 2 {
        Method::LeftDecorr
    } else if low3 == 3 {
        if bit_count >= 0x18 {
            Method::GradientDecorr
        } else {
            Method::Gradient
        }
    } else if low3 == 4 {
        Method::Median
    } else {
        Method::PredictOld
    }
}

/// The method of a header of at least 40 bytes. Non-zero low bits of
/// `biBitCount` select it; else the first extradata byte does, where extradata
/// is declared and present.
pub open spec fn method_of(strf: Seq<u8>) -> Option<Method> {
    let size = u32_at(strf, 0);
    if bit_count_of(strf) % 8 != 0 {
        Some(low3_method(bit_count_of(strf) % 8, bit_count_of(strf)))
    } else if size > 0x28 {
        if size > strf.len() {
            None
        } else {
            Method::spec_from_byte(signed(strf[0x28]))
        }
    } else {
        Some(Method::PredictOld)
    }
}

/// The bit count of a header of at least 40 bytes: the magnitude of the
/// override byte where one is declared, present and not zero, else
/// `biBitCount` without its low three bits.
pub open spec fn effective_bits_of(strf: Seq<u8>) -> int {
    if u32_at(strf, 0) > 0x29 && strf.len() > 0x29 && strf[0x29] != 0 {
        if strf[0x29] < 128 {
            strf[0x29] as int
        } else {
            256 - strf[0x29]
        }
    } else {
        bit_count_of(strf) - bit_count_of(strf) % 8
    }
}

/// The pixel family with the given bit count.
pub open spec fn family_of_bits(bits: int) -> Option<PixelFamily> {
    if bits == 16 {
        Some(PixelFamily::Yuy2)
    } else if bits == 24 {
        Some(PixelFamily::Rgb24)
    } else if bits == 32 {
        Some(PixelFamily::Rgb32)
    } else {
        None
    }
}

/// The length-table region of a header.
pub open spec fn tables_of(strf: Seq<u8>) -> Seq<u8> {
    let size = u32_at(strf, 0) as int;
    let end = if size <= strf.len() {
        size
    } else {
        strf.len() as int
    };
    if end > 0x2C {
        strf.subrange(0x2C, end)
    } else {
        Seq::empty()
    }
}

/// What a header declares; `None` where it is malformed.
pub open spec fn parse_header(strf: Seq<u8>) -> Option<StreamInfo> {
    if strf.len() < 40 {
        None
    } else if u32_at(strf, 0x10) != FOURCC_HFYU && u32_at(strf, 0x10) != FOURCC_FFVH {
        None
    } else {
        match (method_of(strf), family_of_bits(effective_bits_of(strf))) {
            (Some(method), Some(family)) => if legal(family, method) {
                Some(
                    StreamInfo {
                        family,
                        method,
                        width: magnitude(u32_at(strf, 4)),
                        height: magnitude(u32_at(strf, 8)),
                        has_extradata: u32_at(strf, 0) > 0x28,
                        tables: tables_of(strf),
                    },
                )
            } else {
                None
            },
            _ => None,
        }
    }
}

/// The little-endian word at `at`.
fn read_u32(s: &[u8], at: usize) -> (word: u32)
    requires
        at + 4 <= s@.len(),
    ensures
        word == u32_at(s@, at as int),
{
    (s[at] as u32) | ((s[at + 1] as u32) << 8) | ((s[at + 2] as u32) << 16) | ((s[at + 3] as u32)
        << 24)
}

/// The magnitude of a word read as a signed number.
fn word_magnitude(word: u32) -> (m: u32)
    ensures
        m == magnitude(word),
{
    if word < 0x8000_0000 {
        word
    } else {
        (0xFFFF_FFFF - word) + 1
    }
}

/// A byte read as a signed number.
fn signed_byte(b: u8) -> (v: i8)
    ensures
        v == signed(b),
{
    if b < 128 {
        b as i8
    } else {
        (b as i16 - 256) as i8
    }
}

impl StreamConfig {
    /// What the configuration says.
    pub open spec fn view(&self) -> StreamInfo {
        StreamInfo {
            family: self.family,
            method: self.method,
            width: self.width,
            height: self.height,
            has_extradata: self.has_extradata,
            tables: self.extradata_tables@,
        }
    }

    /// Parses a header with the extradata that follows it, as an AVI `strf`
    /// chunk holds them.
    pub fn parse_bitmapinfoheader(strf: &[u8]) -> (r: Result<Self>)
        ensures
            r is Ok <==> parse_header(strf@) is Some,
            r matches Ok(cfg) ==> parse_header(strf@) == Some(cfg@),
            r matches Err(e) ==> e is InvalidData,
    {
        let len: usize = strf.len();
        if len < 40 {
            return Err(Error::invalid("BITMAPINFOHEADER: need at least 40 bytes"));
        }
        let bi_size: u32 = read_u32(strf, 0);
        let bi_width: u32 = word_magnitude(read_u32(strf, 4));
        let bi_height: u32 = word_magnitude(read_u32(strf, 8));
        let bi_bit_count: u16 = strf[0x0E] as u16 + 256 * (strf[0x0F] as u16);
        let bi_compression: u32 = read_u32(strf, 0x10);
        if bi_compression != FOURCC_HFYU && bi_compression != FOURCC_FFVH {
            return Err(Error::invalid("biCompression is not HFYU or FFVH"));
        }
        let low3: u8 = (bi_bit_count % 8) as u8;
        let extradata_present: bool = bi_size > 0x28;
        let declared_end: usize = if (bi_size as u64) <= (len as u64) {
            bi_size as usize
        } else {
            len
        };
        let method: Method = if low3 != 0 {
            method_from_low3(low3, bi_bit_count)
        } else if extradata_present {
            if bi_size as u64 > len as u64 {
                return Err(Error::invalid("biSize exceeds the strf payload"));
            }
            match Method::from_byte(signed_byte(strf[0x28])) {
                Some(m) => m,
                None => {
                    return Err(Error::invalid("illegal method byte"));
                },
            }
        } else {
            Method::PredictOld
        };
        let effective_bits: u16 = if bi_size > 0x29 && len > 0x29 && strf[0x29] != 0 {
            if strf[0x29] < 128 {
                strf[0x29] as u16
            } else {
                256 - strf[0x29] as u16
            }
        } else {
            bi_bit_count - bi_bit_count % 8
        };
        let family: PixelFamily = if effective_bits == 16 {
            PixelFamily::Yuy2
        } else if effective_bits == 24 {
            PixelFamily::Rgb24
        } else if effective_bits == 32 {
            PixelFamily::Rgb32
        } else {
            return Err(Error::invalid("unsupported effective bit count"));
        };
        if family.is_rgb() && !method.is_rgb_legal() {
            return Err(Error::invalid("method not legal for RGB"));
        }
        if !family.is_rgb() && !method.is_yuv_legal() {
            return Err(Error::invalid("method not legal for YUV"));
        }
        let mut extradata_tables: Vec<u8> = Vec::new();
        if declared_end > 0x2C {
            extradata_tables.extend_from_slice(&strf[0x2C..declared_end]);
        }
        proof {
            assert(extradata_tables@ =~= tables_of(strf@));
        }
        Ok(
            Self {
                family,
                method,
                width: bi_width,
                height: bi_height,
                has_extradata: extradata_present,
                extradata_tables,
            },
        )
    }

    /// Bytes per row, capped at what `usize` holds.
    pub fn row_bytes(&self) -> (n: usize)
        ensures
            n == self.family.spec_row_bytes(self.width),
    {
        self.family.row_bytes(self.width)
    }

    /// `true` when frames are coded as two fields.
    pub fn is_interlaced(&self) -> (b: bool)
        ensures
            b == (self.height > 288),
    {
        is_interlaced_height(self.height)
    }
}

/// The method that the low three bits of `biBitCount` select.
fn method_from_low3(low3: u8, bi_bit_count: u16) -> (m: Method)
    ensures
        m == low3_method(low3 as int, bi_bit_count as int),
{
    match low3 {
        1 => Method::Left,
        2 => Method::LeftDecorr,
        3 => {
            if bi_bit_count >= 0x18 {
                Method::GradientDecorr
            } else {
                Method::Gradient
            }
        },
        4 => Method::Median,
        _ => Method::PredictOld,
    }
}

} // verus!
