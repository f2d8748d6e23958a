//! Codec-private extradata with length tables for any number of channels.
//!
//! Four bytes hold the predictor, the format, flags and a version tag; one
//! run-length coded length table per channel follows.

use vstd::prelude::*;

use crate::error::{Error, Result};
use crate::huffman::{is_code, HuffTable};
use crate::rle::{decode_lengths, expand, lemma_expand_shape};
use crate::tables::lemma_expand_tail;

verus! {

/// Spatial predictor, the low six bits of the first byte.
#[derive(Copy, Clone, Debug, PartialEq, Eq, Structural)]
pub enum Predictor {
    Left,
    /// `left + above - above_left`.
    Gradient,
    /// The median of left, above and `left + above - above_left`.
    Median,
}

impl Predictor {
    /// The predictor with the given number.
    pub open spec fn spec_from_bits(b: u8) -> Option<Predictor> {
        match b {
            0 => Some(Predictor::Left),
            1 => Some(Predictor::Gradient),
            2 => Some(Predictor::Median),
            _ => None,
        }
    }

    /// The predictor with the given number.
    fn from_bits(b: u8) -> (r: Result<Self>)
        ensures
            r is Ok <==> Self::spec_from_bits(b) is Some,
            r matches Ok(p) ==> Self::spec_from_bits(b) == Some(p),
            r matches Err(e) ==> e is InvalidData,
    {
        match b {
            0 => Ok(Predictor::Left),
            1 => Ok(Predictor::Gradient),
            2 => Ok(Predictor::Median),
            _ => Err(Error::invalid("huffyuv: unknown predictor")),
        }
    }
}

/// Pixel layout of version 2, the second byte.
#[derive(Copy, Clone, Debug, PartialEq, Eq, Structural)]
pub enum V2Colorspace {
    /// 12 bits per pixel: planar 4:2:0.
    Yuv420,
    /// 16 bits per pixel: planar 4:2:2.
    Yuv422,
    /// 24 bits per pixel: packed RGB.
    Rgb24,
    /// 32 bits per pixel: packed BGRA.
    Bgra32,
}

impl V2Colorspace {
    /// The layout with the given number of bits per pixel.
    pub open spec fn spec_from_bsbpp(b: u8) -> Option<V2Colorspace> {
        match b {
            12 => Some(V2Colorspace::Yuv420),
            16 => Some(V2Colorspace::Yuv422),
            24 => Some(V2Colorspace::Rgb24),
            32 => Some(V2Colorspace::Bgra32),
            _ => None,
        }
    }

    /// The layout with the given number of bits per pixel.
    fn from_bsbpp(b: u8) -> (r: Result<Self>)
        ensures
            r is Ok <==> Self::spec_from_bsbpp(b) is Some,
            r matches Ok(c) ==> Self::spec_from_bsbpp(b) == Some(c),
            r matches Err(e) ==> e is InvalidData,
    {
        match b {
            12 => Ok(V2Colorspace::Yuv420),
            16 => Ok(V2Colorspace::Yuv422),
            24 => Ok(V2Colorspace::Rgb24),
            32 => Ok(V2Colorspace::Bgra32),
            _ => Err(Error::invalid("huffyuv v2: unknown bsbpp")),
        }
    }

    /// The number of length tables; an alpha plane shares the third one.
    pub fn channel_count(&self) -> (n: usize)
        ensures
            n == 3,
    {
        3
    }

    /// `true` for the two RGB layouts.
    pub fn is_rgb(&self) -> (b: bool)
        ensures
            b == (self is Rgb24 || self is Bgra32),
    {
        match self {
            V2Colorspace::Rgb24 | V2Colorspace::Bgra32 => true,
            _ => false,
        }
    }
}

/// Plane layout of version 3, the second and third byte.
#[derive(Copy, Clone, Debug, PartialEq, Eq, Structural)]
pub struct V3Format {
    /// Bits per sample, from 8 to 16.
    pub bps: u8,
    /// Horizontal chroma subsampling, as a shift.
    pub chroma_h_shift: u8,
    /// Vertical chroma subsampling, as a shift.
    pub chroma_v_shift: u8,
    /// The planes hold Y, U and V.
    pub yuv: bool,
    /// Chroma planes are present.
    pub chroma: bool,
    /// An alpha plane is present.
    pub alpha: bool,
}

impl V3Format {
    /// The number of length tables: one for the first plane, two for chroma and
    /// one for alpha.
    pub open spec fn spec_table_count(self) -> nat {
        1 + (if self.chroma {
            2nat
        } else {
            0
        }) + (if self.alpha {
            1nat
        } else {
            0
        })
    }

    /// The number of length tables.
    pub fn table_count(&self) -> (n: usize)
        ensures
            n == self.spec_table_count(),
    {
        1 + (if self.chroma {
            2usize
        } else {
            0
        }) + (if self.alpha {
            1usize
        } else {
            0
        })
    }

    /// The number of planes.
    pub fn channel_count(&self) -> (n: usize)
        ensures
            n == self.spec_table_count(),
    {
        self.table_count()
    }
}

/// How fields are told from frames, bits four and five of the third byte.
#[derive(Copy, Clone, Debug, PartialEq, Eq, Structural)]
pub enum InterlaceMode {
    AutoByHeight,
    Interlaced,
    Progressive,
}

/// The layout of a stream.
#[derive(Copy, Clone, Debug, PartialEq, Eq, Structural)]
pub enum FormatVersion {
    /// Version tag zero.
    V2(V2Colorspace),
    /// Version tag one.
    V3(V3Format),
}

impl FormatVersion {
    /// The number of length tables.
    pub open spec fn tables(self) -> nat {
        match self {
            FormatVersion::V2(_) => 3,
            FormatVersion::V3(v) => v.spec_table_count(),
        }
    }

    /// The number of symbols in a length table: one per sample value, but no more
    /// than 16384.
    pub open spec fn symbols(self) -> nat {
        match self {
            FormatVersion::V2(_) => 256,
            FormatVersion::V3(v) => match v.bps {
                8 => 256,
                9 => 512,
                10 => 1024,
                11 => 2048,
                12 => 4096,
                13 => 8192,
                _ => 16384,
            },
        }
    }
}

/// The layout that the second, third and fourth byte declare.
pub open spec fn format_of(e1: u8, e2: u8, e3: u8) -> Option<FormatVersion> {
    if e3 == 0 {
        match V2Colorspace::spec_from_bsbpp(e1) {
            Some(c) => Some(FormatVersion::V2(c)),
            None => None,
        }
    } else if e3 == 1 && e1 / 16 >= 7 {
        Some(
            FormatVersion::V3(
                V3Format {
                    bps: (e1 / 16 + 1) as u8,
                    chroma_h_shift: e1 % 4,
                    chroma_v_shift: (e1 / 4) % 4,
                    yuv: e2 % 2 == 1,
                    chroma: e2 % 2 == 1 || (e2 / 2) % 2 == 1,
                    alpha: (e2 / 4) % 2 == 1,
                },
            ),
        )
    } else {
        None
    }
}

/// The field mode that the third byte declares.
pub open spec fn interlace_of(e2: u8) -> InterlaceMode {
    if (e2 / 16) % 4 == 1 {
        InterlaceMode::Interlaced
    } else if (e2 / 16) % 4 == 2 {
        InterlaceMode::Progressive
    } else {
        InterlaceMode::AutoByHeight
    }
}

/// `count` length tables of `n` symbols, one after another from `pos` on; none
/// where one is malformed or does not describe a complete code.
pub open spec fn length_tables(src: Seq<u8>, pos: int, count: nat, n: nat) -> Option<Seq<Seq<u8>>>
    decreases count,
{
    if count == 0 {
        Some(Seq::empty())
    } else {
        match expand(src, pos, n as int) {
            None => None,
            Some((lens, end)) => if !is_code(lens) {
                None
            } else {
                match length_tables(src, end, (count - 1) as nat, n) {
                    None => None,
                    Some(rest) => Some(seq![lens] + rest),
                }
            },
        }
    }
}

/// What extradata says.
pub struct ExtraInfo {
    pub predictor: Predictor,
    pub decorrelate: bool,
    pub interlace: InterlaceMode,
    pub per_frame_tables: bool,
    pub format: FormatVersion,
    pub tables: Seq<Seq<u8>>,
}

/// What extradata says; none where it is malformed.
pub open spec fn parse_extradata(src: Seq<u8>) -> Option<ExtraInfo> {
    if src.len() < 4 {
        None
    } else {
        match (Predictor::spec_from_bits(src[0] % 64), format_of(src[1], src[2], src[3])) {
            (Some(predictor), Some(format)) => match length_tables(
                src,
                4,
                format.tables(),
                format.symbols(),
            ) {
                Some(tables) => Some(
                    ExtraInfo {
                        predictor,
                        decorrelate: (src[0] / 64) % 2 == 1,
                        interlace: interlace_of(src[2]),
                        per_frame_tables: (src[2] / 64) % 2 == 1,
                        format,
                        tables,
                    },
                ),
                None => None,
            },
            _ => None,
        }
    }
}

/// Parsed extradata.
#[derive(Clone, Debug)]
pub struct Extradata {
    pub predictor: Predictor,
    pub decorrelate: bool,
    pub interlace: InterlaceMode,
    /// Every frame carries length tables of its own.
    pub per_frame_tables: bool,
    pub format: FormatVersion,
    /// The tables for frames that carry none.
    pub tables: Vec<HuffTable>,
}

/// The lengths of some tables.
pub open spec fn lens_of(tables: Seq<HuffTable>) -> Seq<Seq<u8>> {
    Seq::new(tables.len(), |i: int| tables[i].lens())
}

impl Extradata {
    /// What the extradata says.
    pub open spec fn view(&self) -> ExtraInfo {
        ExtraInfo {
            predictor: self.predictor,
            decorrelate: self.decorrelate,
            interlace: self.interlace,
            per_frame_tables: self.per_frame_tables,
            format: self.format,
            tables: lens_of(self.tables@),
        }
    }

    /// Every table keeps its invariant.
    pub open spec fn wf(&self) -> bool {
        forall|i: int| 0 <= i < self.tables@.len() ==> (#[trigger] self.tables@[i]).wf()
    }

    /// Parses extradata, the bytes behind the stream header. Bytes behind the
    /// last table are ignored.
    pub fn parse(extradata: &[u8]) -> (r: Result<Self>)
        ensures
            r is Ok <==> parse_extradata(extradata@) is Some,
            r matches Ok(x) ==> x.wf() && parse_extradata(extradata@) == Some(x@),
            r matches Err(e) ==> e is InvalidData,
    {
        if extradata.len() < 4 {
            return Err(Error::invalid("huffyuv extradata: shorter than 4 bytes"));
        }
        let (e0, e1, e2, e3): (u8, u8, u8, u8) = (
            extradata[0],
            extradata[1],
            extradata[2],
            extradata[3],
        );
        let predictor = Predictor::from_bits(e0 % 64)?;
        let interlace = match (e2 / 16) % 4 {
            1 => InterlaceMode::Interlaced,
            2 => InterlaceMode::Progressive,
            _ => InterlaceMode::AutoByHeight,
        };
        let format = match e3 {
            0 => FormatVersion::V2(V2Colorspace::from_bsbpp(e1)?),
            1 => {
                let bps: u8 = e1 / 16 + 1;
                if bps < 8 {
                    return Err(Error::invalid("huffyuv v3: bps out of range"));
                }
                let yuv: bool = e2 % 2 == 1;
                FormatVersion::V3(
                    V3Format {
                        bps,
                        chroma_h_shift: e1 % 4,
                        chroma_v_shift: (e1 / 4) % 4,
                        yuv,
                        chroma: yuv || (e2 / 2) % 2 == 1,
                        alpha: (e2 / 4) % 2 == 1,
                    },
                )
            },
            _ => {
                return Err(Error::invalid("huffyuv extradata: unknown version tag"));
            },
        };
        let (count, symbols): (usize, usize) = match &format {
            FormatVersion::V2(v) => (v.channel_count(), 256),
            FormatVersion::V3(v) => (
                v.table_count(),
                match v.bps {
                    8 => 256,
                    9 => 512,
                    10 => 1024,
                    11 => 2048,
                    12 => 4096,
                    13 => 8192,
                    _ => 16384,
                },
            ),
        };
        let tables = read_tables(extradata, 4, count, symbols)?;
        Ok(
            Self {
                predictor,
                decorrelate: (e0 / 64) % 2 == 1,
                interlace,
                per_frame_tables: (e2 / 64) % 2 == 1,
                format,
                tables,
            },
        )
    }

    /// The number of length tables.
    pub fn table_count(&self) -> (n: usize)
        ensures
            n == self.format.tables(),
    {
        match &self.format {
            FormatVersion::V2(v) => v.channel_count(),
            FormatVersion::V3(v) => v.table_count(),
        }
    }

    /// Bits per sample.
    pub fn bits_per_sample(&self) -> (n: u8)
        ensures
            n == (match self.format {
                FormatVersion::V2(_) => 8,
                FormatVersion::V3(v) => v.bps,
            }),
    {
        match &self.format {
            FormatVersion::V2(_) => 8,
            FormatVersion::V3(v) => v.bps,
        }
    }
}

/// Reads length tables one after another.
fn read_tables(src: &[u8], start: usize, count: usize, symbols: usize) -> (r: Result<
    Vec<HuffTable>,
>)
    requires
        start <= src@.len(),
        symbols <= 16384,
    ensures
        r is Ok <==> length_tables(src@, start as int, count as nat, symbols as nat) is Some,
        r matches Ok(t) ==> {
            &&& length_tables(src@, start as int, count as nat, symbols as nat) == Some(
                lens_of(t@),
            )
            &&& forall|i: int| 0 <= i < t@.len() ==> (#[trigger] t@[i]).wf()
        },
        r matches Err(e) ==> e is InvalidData,
    decreases count,
{
    let mut tables: Vec<HuffTable> = Vec::new();
    if count == 0 {
        assert(lens_of(tables@) =~= Seq::<Seq<u8>>::empty());
        return Ok(tables);
    }
    let tail: &[u8] = &src[start..src.len()];
    proof {
        lemma_expand_tail(src@, start as int, 0, symbols as int);
        lemma_expand_shape(src@, start as int, symbols as int);
    }
    let (lens, used) = decode_lengths(tail, symbols)?;
    let first = HuffTable::from_lengths(lens.as_slice())?;
    let ghost head = first.lens();
    let mut rest = read_tables(src, start + used, count - 1, symbols)?;
    let ghost more = rest@;
    tables.push(first);
    tables.append(&mut rest);
    proof {
        assert(lens_of(tables@) =~= seq![head] + lens_of(more));
        assert forall|i: int| 0 <= i < tables@.len() implies (#[trigger] tables@[i]).wf() by {
            if i > 0 {
                assert(tables@[i] == more[i - 1]);
            }
        }
    }
    Ok(tables)
}

/// Extradata that parses carries as many tables as its format has.
pub proof fn law_table_count(src: Seq<u8>)
    ensures
        parse_extradata(src) matches Some(x) ==> x.tables.len() == x.format.tables(),
{
    if let Some(x) = parse_extradata(src) {
        lemma_table_count(src, 4, x.format.tables(), x.format.symbols());
    }
}

proof fn lemma_table_count(src: Seq<u8>, pos: int, count: nat, n: nat)
    ensures
        length_tables(src, pos, count, n) matches Some(t) ==> t.len() == count,
    decreases count,
{
    if count > 0 {
        if let Some((lens, end)) = expand(src, pos, n as int) {
            lemma_table_count(src, end, (count - 1) as nat, n);
        }
    }
}

} // verus!
