//! The codec as a stream sees it: encoders that take frames and give packets,
//! and decoders that take packets and give frames.
//!
//! A stream has one header for all its frames. It is known from the start where
//! the method is given and the codebooks do not depend on the frames; else the
//! first frame settles it, and later frames keep to it.

use vstd::prelude::*;
use vstd::string::StringExecFns;

use crate::classic::{classic_blob_bytes, lemma_classic_blob};
use crate::decoder::{
    coded_books, decode_frame_with_workers, frame_decodable, frame_decodes_to, stream_books,
    tables_from_extradata, Codebooks, DecodedFrame, ThreeTables,
};
use crate::emit::has_codewords;
use crate::encoder::{
    encode_body_with_pinned_tables, encode_frame_auto_workers, encode_frame_with_mode_workers,
    frame_countable, is_best_encoding, is_coded_frame, is_decodable, is_encodable, is_encoded,
    is_first_best, law_mode_books, lemma_frame_body, mode_tables, ExtradataMode, MethodSelection,
};
use crate::error::Error;
use crate::header::{legal, parse_header, Method, PixelFamily, StreamConfig, StreamInfo};
use crate::layout::{lemma_raster_rows, raster_len, raster_size, Slot};
use crate::lossless::{law_coded_frame_decodes, law_decode_undoes_encode};
use crate::residuals::frame_body;
use crate::strf::{build_bitmapinfoheader, built_header, law_parse_built_header};
use crate::tables::{entries_wf, is_prefix_free, lemma_canonical_entries, three_lengths};

verus! {

/// The name of the codec.
pub const CODEC_ID_STR: &'static str = "huffyuv";

/// Why a codec refuses a call.
#[derive(Debug, Clone, PartialEq, Eq)]
pub enum CodecError {
    /// The call does not fit the codec's state.
    Other(String),
    /// The input is malformed.
    Invalid(String),
    /// The input is recognised but not supported.
    Unsupported(String),
    /// The stream has ended.
    Eof,
    /// More input is needed.
    NeedMore,
}

impl CodecError {
    /// A [`CodecError::Other`] with the given message.
    fn other(msg: &str) -> (e: Self)
        ensures
            e matches CodecError::Other(m) && m@ == msg@,
    {
        CodecError::Other(msg.to_owned())
    }

    /// A [`CodecError::Invalid`] with the given message.
    fn invalid(msg: &str) -> (e: Self)
        ensures
            e matches CodecError::Invalid(m) && m@ == msg@,
    {
        CodecError::Invalid(msg.to_owned())
    }

    /// A codec failure as invalid input: the failure's text behind the name of
    /// the codec.
    fn failed(e: &Error) -> (c: Self)
        ensures
            c matches CodecError::Invalid(m) && m@ == "oxideav-huffyuv: "@ + e.spec_describe(),
    {
        let mut text: String = "oxideav-huffyuv: ".to_owned();
        let what: String = e.describe();
        text.append(what.as_str());
        CodecError::Invalid(text)
    }

    /// The text of the error.
    pub fn message(&self) -> (s: String)
        ensures
            s@ == (match *self {
                CodecError::Other(m) => m@,
                CodecError::Invalid(m) => m@,
                CodecError::Unsupported(m) => m@,
                CodecError::Eof => "end of stream"@,
                CodecError::NeedMore => "need more data"@,
            }),
    {
        match self {
            CodecError::Other(m) => m.clone(),
            CodecError::Invalid(m) => m.clone(),
            CodecError::Unsupported(m) => m.clone(),
            CodecError::Eof => "end of stream".to_owned(),
            CodecError::NeedMore => "need more data".to_owned(),
        }
    }
}

// ---------------------------------------------------------------------------
// Parameters
// ---------------------------------------------------------------------------

/// The pixel formats of a framework, as far as they matter here.
#[derive(Debug, Clone, Copy, PartialEq, Eq, Structural)]
pub enum InputFormat {
    /// Packed `Y1 U Y2 V`.
    Yuyv422,
    /// Packed `B G R`.
    Bgr24,
    /// Packed `B G R A`.
    Bgra,
    /// Any other format.
    Other,
}

/// The family of a pixel format.
pub open spec fn format_family(f: InputFormat) -> Option<PixelFamily> {
    match f {
        InputFormat::Yuyv422 => Some(PixelFamily::Yuy2),
        InputFormat::Bgr24 => Some(PixelFamily::Rgb24),
        InputFormat::Bgra => Some(PixelFamily::Rgb32),
        InputFormat::Other => None,
    }
}

/// The family of a pixel format.
pub fn family_from_pixel_format(pf: InputFormat) -> (family: Option<PixelFamily>)
    ensures
        family == format_family(pf),
{
    match pf {
        InputFormat::Yuyv422 => Some(PixelFamily::Yuy2),
        InputFormat::Bgr24 => Some(PixelFamily::Rgb24),
        InputFormat::Bgra => Some(PixelFamily::Rgb32),
        InputFormat::Other => None,
    }
}

/// The pixel format of a family.
pub fn pixel_format_for_family(family: PixelFamily) -> (pf: InputFormat)
    ensures
        format_family(pf) == Some(family),
        pf == (match family {
            PixelFamily::Yuy2 => InputFormat::Yuyv422,
            PixelFamily::Rgb24 => InputFormat::Bgr24,
            PixelFamily::Rgb32 => InputFormat::Bgra,
        }),
{
    match family {
        PixelFamily::Yuy2 => InputFormat::Yuyv422,
        PixelFamily::Rgb24 => InputFormat::Bgr24,
        PixelFamily::Rgb32 => InputFormat::Bgra,
    }
}

/// The time base of packets, as numerator and denominator: one tick per frame
/// where the frame rate is positive, else microseconds.
pub fn packet_time_base(frame_rate: Option<(i64, i64)>) -> (tb: (i64, i64))
    ensures
        tb == (match frame_rate {
            Some((num, den)) => if num > 0 && den > 0 {
                (den, num)
            } else {
                (1i64, 1000000i64)
            },
            None => (1i64, 1000000i64),
        }),
{
    match frame_rate {
        Some((num, den)) => {
            if num > 0 && den > 0 {
                (den, num)
            } else {
                (1, 1000000)
            }
        },
        None => (1, 1000000),
    }
}

/// The options of an encoder.
#[derive(Debug, Clone, Copy, PartialEq, Eq, Structural)]
pub struct HuffYuvEncoderOptions {
    /// The pixel family; `None` to go by the pixel format.
    pub format: Option<PixelFamily>,
    /// The method; `None` to choose the best one for the first frame.
    pub method: Option<Method>,
    /// Where the codebooks come from.
    pub mode: ExtradataMode,
}

impl Default for HuffYuvEncoderOptions {
    fn default() -> (o: Self)
        ensures
            o == (HuffYuvEncoderOptions {
                format: None,
                method: None,
                mode: ExtradataMode::ClassicV2,
            }),
    {
        HuffYuvEncoderOptions { format: None, method: None, mode: ExtradataMode::ClassicV2 }
    }
}

/// Two texts are the same.
fn same_text(a: &str, b: &str) -> (r: bool)
    ensures
        r == (a@ == b@),
{
    a.to_owned() == b.to_owned()
}

/// The pixel family that an option value names; the outer none is an unknown
/// value, the inner the value `auto`.
pub open spec fn format_option(v: Seq<char>) -> Option<Option<PixelFamily>> {
    if v == "auto"@ {
        Some(None)
    } else if v == "yuy2"@ {
        Some(Some(PixelFamily::Yuy2))
    } else if v == "rgb24"@ {
        Some(Some(PixelFamily::Rgb24))
    } else if v == "rgb32"@ {
        Some(Some(PixelFamily::Rgb32))
    } else {
        None
    }
}

/// The method that an option value names.
pub open spec fn method_option(v: Seq<char>) -> Option<Option<Method>> {
    if v == "auto"@ {
        Some(None)
    } else if v == "predict-old"@ {
        Some(Some(Method::PredictOld))
    } else if v == "left"@ {
        Some(Some(Method::Left))
    } else if v == "gradient"@ {
        Some(Some(Method::Gradient))
    } else if v == "median"@ {
        Some(Some(Method::Median))
    } else if v == "left-decorr"@ {
        Some(Some(Method::LeftDecorr))
    } else if v == "gradient-decorr"@ {
        Some(Some(Method::GradientDecorr))
    } else {
        None
    }
}

/// The codebook source that an option value names.
pub open spec fn mode_option(v: Seq<char>) -> Option<ExtradataMode> {
    if v == "classic-v2"@ {
        Some(ExtradataMode::ClassicV2)
    } else if v == "custom-v2"@ {
        Some(ExtradataMode::CustomV2)
    } else if v == "v1x"@ {
        Some(ExtradataMode::V1xCompat)
    } else {
        None
    }
}

/// Options after one of them is set; none where the key or the value is unknown.
pub open spec fn with_option(
    o: HuffYuvEncoderOptions,
    key: Seq<char>,
    value: Seq<char>,
) -> Option<HuffYuvEncoderOptions> {
    if key == "format"@ {
        match format_option(value) {
            Some(format) => Some(HuffYuvEncoderOptions { format, ..o }),
            None => None,
        }
    } else if key == "method"@ {
        match method_option(value) {
            Some(method) => Some(HuffYuvEncoderOptions { method, ..o }),
            None => None,
        }
    } else if key == "mode"@ {
        match mode_option(value) {
            Some(mode) => Some(HuffYuvEncoderOptions { mode, ..o }),
            None => None,
        }
    } else {
        None
    }
}

impl HuffYuvEncoderOptions {
    /// Sets an option by its name. An unknown name or value changes nothing.
    pub fn apply(&mut self, key: &str, value: &str) -> (r: Result<(), CodecError>)
        ensures
            r is Ok <==> with_option(*old(self), key@, value@) is Some,
            r is Ok ==> with_option(*old(self), key@, value@) == Some(*final(self)),
            r matches Err(e) ==> e is Invalid && *final(self) == *old(self),
    {
        if same_text(key, "format") {
            let format: Option<PixelFamily> = if same_text(value, "auto") {
                None
            } else if same_text(value, "yuy2") {
                Some(PixelFamily::Yuy2)
            } else if same_text(value, "rgb24") {
                Some(PixelFamily::Rgb24)
            } else if same_text(value, "rgb32") {
                Some(PixelFamily::Rgb32)
            } else {
                return Err(CodecError::invalid("oxideav-huffyuv: unknown format"));
            };
            self.format = format;
        } else if same_text(key, "method") {
            let method: Option<Method> = if same_text(value, "auto") {
                None
            } else if same_text(value, "predict-old") {
                Some(Method::PredictOld)
            } else if same_text(value, "left") {
                Some(Method::Left)
            } else if same_text(value, "gradient") {
                Some(Method::Gradient)
            } else if same_text(value, "median") {
                Some(Method::Median)
            } else if same_text(value, "left-decorr") {
                Some(Method::LeftDecorr)
            } else if same_text(value, "gradient-decorr") {
                Some(Method::GradientDecorr)
            } else {
                return Err(CodecError::invalid("oxideav-huffyuv: unknown method"));
            };
            self.method = method;
        } else if same_text(key, "mode") {
            let mode: ExtradataMode = if same_text(value, "classic-v2") {
                ExtradataMode::ClassicV2
            } else if same_text(value, "custom-v2") {
                ExtradataMode::CustomV2
            } else if same_text(value, "v1x") {
                ExtradataMode::V1xCompat
            } else {
                return Err(CodecError::invalid("oxideav-huffyuv: unknown mode"));
            };
            self.mode = mode;
        } else {
            return Err(CodecError::invalid("oxideav-huffyuv: unknown option"));
        }
        Ok(())
    }
}

/// What the parameters of an encoder come to.
pub enum Resolved {
    /// The pixel family, width and height to encode.
    Ready(PixelFamily, u32, u32),
    /// The parameters are missing or contradict each other.
    Refused,
    /// The pixel format is not one that can be encoded.
    NoFamily,
}

/// What the parameters of an encoder come to: the sizes have to be there and
/// positive, the family has to be given by an option or by the pixel format, and
/// both have to agree; YUY2 needs an even width, and the method has to be legal
/// for the family.
pub open spec fn resolve(
    opts: HuffYuvEncoderOptions,
    width: Option<u32>,
    height: Option<u32>,
    pixel_format: Option<InputFormat>,
) -> Resolved {
    match (width, height) {
        (Some(w), Some(h)) => if w == 0 || h == 0 {
            Resolved::Refused
        } else {
            let family = match (opts.format, pixel_format) {
                (Some(f), Some(pf)) => if format_family(pf) == Some(f) {
                    Ok(f)
                } else {
                    Err(Resolved::Refused)
                },
                (Some(f), None) => Ok(f),
                (None, Some(pf)) => match format_family(pf) {
                    Some(f) => Ok(f),
                    None => Err(Resolved::NoFamily),
                },
                (None, None) => Err(Resolved::Refused),
            };
            match family {
                Err(no) => no,
                Ok(f) => if f is Yuy2 && w % 2 != 0 {
                    Resolved::Refused
                } else if opts.method matches Some(m) && !legal(f, m) {
                    Resolved::Refused
                } else {
                    Resolved::Ready(f, w, h)
                },
            }
        },
        _ => Resolved::Refused,
    }
}

// ---------------------------------------------------------------------------
// Encoder
// ---------------------------------------------------------------------------

/// The state of a stream that is being encoded.
#[verifier::ext_equal]
pub struct EncoderState {
    pub family: PixelFamily,
    pub width: u32,
    pub height: u32,
    pub mode: ExtradataMode,
    /// The method of the stream, once it is known.
    pub method: Option<Method>,
    /// The codebooks that were made for the first frame.
    pub pinned: Option<Codebooks>,
    /// The header of the stream; empty until it is known.
    pub extradata: Seq<u8>,
    /// The packet that waits, with its time stamp.
    pub pending: Option<(Seq<u8>, Option<i64>)>,
    /// No more frames come.
    pub ended: bool,
}

/// The header of a stream whose method is known and whose codebooks do not
/// depend on its frames.
pub open spec fn fixed_header(
    family: PixelFamily,
    method: Method,
    width: u32,
    height: u32,
    mode: ExtradataMode,
) -> Seq<u8> {
    built_header(
        family,
        method,
        width,
        height,
        mode_tables(mode, family, method, Seq::empty()),
        !(mode is V1xCompat),
    )
}

/// The header of a stream describes the codebooks that were made for its first
/// frame.
pub open spec fn is_pinned_header(e: EncoderState, method: Method, books: Codebooks) -> bool {
    let tables = e.extradata.subrange(0x2C, e.extradata.len() as int);
    &&& 0x2C < e.extradata.len() <= 0x2C + 1000
    &&& e.extradata == built_header(e.family, method, e.width, e.height, tables, true)
    &&& coded_books(tables) == Some(books)
}

/// What holds of every stream: it has pixels, its method is legal, and its header
/// is the one for its method and its codebooks as soon as they are known.
pub open spec fn is_stream(e: EncoderState) -> bool {
    &&& e.width > 0
    &&& e.height > 0
    &&& e.family is Yuy2 ==> e.width % 2 == 0
    &&& match e.method {
        None => e.extradata.len() == 0 && e.pinned is None,
        Some(m) => {
            &&& legal(e.family, m)
            &&& match e.pinned {
                Some(books) => e.mode is CustomV2 && is_pinned_header(e, m, books),
                None => if e.mode is CustomV2 {
                    e.extradata.len() == 0
                } else {
                    e.extradata == fixed_header(e.family, m, e.width, e.height, e.mode)
                },
            }
        },
    }
}

/// A frame that is offered to an encoder.
#[derive(Debug, Clone, Copy)]
pub enum InputFrame<'a> {
    /// Something that is not video.
    NotVideo,
    /// A video frame: the number of its image planes, and the first of them.
    Video { planes: usize, stride: usize, data: &'a [u8], pts: Option<i64> },
}

/// A frame is one packed raster of the stream's size.
pub open spec fn fits(e: EncoderState, frame: InputFrame) -> bool {
    frame matches InputFrame::Video { planes, stride, data, .. } && planes == 1 && stride == e.width
        * e.family.step() && data@.len() == raster_len(e.family, e.width, e.height)
}

/// The raster of a frame.
pub open spec fn raster_of(frame: InputFrame) -> Seq<u8> {
    match frame {
        InputFrame::NotVideo => Seq::empty(),
        InputFrame::Video { data, .. } => data@,
    }
}

/// The time stamp of a frame.
pub open spec fn stamp_of(frame: InputFrame) -> Option<i64> {
    match frame {
        InputFrame::NotVideo => None,
        InputFrame::Video { pts, .. } => pts,
    }
}

/// The stream has codewords for a raster: the codebooks of its first frame have
/// them, or the raster has residuals where codebooks are to be made for it.
pub open spec fn has_codes(e: EncoderState, p: Seq<u8>) -> bool {
    match (e.method, e.pinned) {
        (Some(m), Some(books)) => has_codewords(
            books,
            e.family,
            m.decorrelates(),
            frame_body(e.family, m, e.width, e.height, p),
        ),
        (Some(m), None) => is_encodable(e.family, m, e.width, e.height, p, e.mode),
        (None, _) => is_encodable(e.family, Method::Left, e.width, e.height, p, e.mode),
    }
}

/// Histograms can be made where the next frame needs them.
pub open spec fn can_count(e: EncoderState, p: Seq<u8>) -> bool {
    e.method is None || (e.mode is CustomV2 && e.pinned is None) ==> forall|m: Method| #[trigger]
        frame_countable(e.family, m, e.width, e.height, p)
}

/// A frame was accepted: its packet waits, and what it settled of the stream is
/// kept.
pub open spec fn sent(
    a: EncoderState,
    b: EncoderState,
    p: Seq<u8>,
    pts: Option<i64>,
) -> bool {
    &&& b.family == a.family && b.width == a.width && b.height == a.height && b.mode == a.mode
    &&& b.ended == a.ended
    &&& b.method matches Some(m) && b.pending matches Some((bytes, t)) && t == pts && (match (
        a.method,
        a.pinned,
    ) {
        (Some(m0), Some(books)) => {
            &&& m == m0
            &&& b.pinned == a.pinned
            &&& b.extradata == a.extradata
            &&& is_coded_frame(books, a.family, m, a.width, a.height, p, bytes)
        },
        (Some(m0), None) => {
            &&& m == m0
            &&& b.pinned is Some <==> a.mode is CustomV2
            &&& is_encoded(a.family, m, a.width, a.height, p, a.mode, b.extradata, bytes)
        },
        (None, _) => {
            &&& b.pinned is Some <==> a.mode is CustomV2
            &&& is_best_encoding(
                a.family,
                MethodSelection::Auto,
                a.width,
                a.height,
                p,
                a.mode,
                b.extradata,
                bytes,
                m,
            )
        },
    })
}

/// The codebooks that length tables describe are prefix-free.
proof fn lemma_coded_books(tables: Seq<u8>)
    ensures
        coded_books(tables) matches Some(books) ==> is_decodable(books),
{
    if let Some(books) = coded_books(tables) {
        let (a, b, c) = three_lengths(tables).unwrap();
        lemma_canonical_entries(a);
        lemma_canonical_entries(b);
        lemma_canonical_entries(c);
        assert forall|slot: Slot| #[trigger]
            entries_wf(books.slot(slot)) && is_prefix_free(books.slot(slot)) by {
            match slot {
                Slot::First => {},
                Slot::Second => {},
                Slot::Third => {},
            }
        }
    }
}

/// The methods to choose from are legal.
proof fn lemma_candidates_legal(family: PixelFamily, i: int)
    requires
        0 <= i < MethodSelection::Auto.spec_candidates(family).len(),
    ensures
        legal(family, MethodSelection::Auto.spec_candidates(family)[i]),
{
}

/// The header and the method of a stream do not change once they are known: what
/// was written down of them holds for all later packets.
pub proof fn law_stream_keeps_header(
    a: EncoderState,
    b: EncoderState,
    p: Seq<u8>,
    pts: Option<i64>,
)
    requires
        is_stream(a),
        sent(a, b, p, pts),
    ensures
        a.method is Some ==> b.method == a.method,
        a.extradata.len() > 0 ==> b.extradata == a.extradata,
        b.extradata.len() > 0,
{
    let m = b.method.unwrap();
    if a.pinned is None {
        assert(mode_tables(a.mode, a.family, m, frame_body(a.family, m, a.width, a.height, p))
            == mode_tables(a.mode, a.family, m, Seq::empty()) || a.mode is CustomV2);
    }
}

/// Every packet of a stream decodes to the frame that it was made of, under the
/// header of the stream. Widths and heights above `2^31`, which a header cannot
/// hold, are left out.
pub proof fn law_packet_decodes(a: EncoderState, b: EncoderState, p: Seq<u8>, pts: Option<i64>)
    requires
        is_stream(a),
        a.width <= 0x8000_0000,
        a.height <= 0x8000_0000,
        p.len() == raster_len(a.family, a.width, a.height),
        p.len() <= usize::MAX,
        has_codes(a, p),
        can_count(a, p),
        sent(a, b, p, pts),
    ensures
        parse_header(b.extradata) matches Some(info) && b.pending matches Some((bytes, _))
            && frame_decodable(info, bytes) && frame_decodes_to(info, bytes, p),
{
    let m = b.method.unwrap();
    let bytes = b.pending.unwrap().0;
    lemma_raster_rows(a.family, a.width, a.height);
    if a.pinned is Some {
        let books = a.pinned.unwrap();
        let tables = a.extradata.subrange(0x2C, a.extradata.len() as int);
        law_parse_built_header(a.family, m, a.width, a.height, tables, true);
        lemma_coded_books(tables);
        let info = parse_header(b.extradata).unwrap();
        assert(stream_books(info) == Some(books));
        law_coded_frame_decodes(books, info, p, bytes);
    } else {
        if a.method is None {
            let i = choose|i: int|
                is_first_best(
                    a.family,
                    MethodSelection::Auto.spec_candidates(a.family),
                    a.width,
                    a.height,
                    p,
                    i,
                ) && #[trigger] MethodSelection::Auto.spec_candidates(a.family)[i] == m;
            lemma_candidates_legal(a.family, i);
        }
        assert(frame_countable(a.family, m, a.width, a.height, p) || !(a.mode is CustomV2));
        law_decode_undoes_encode(
            a.family,
            m,
            a.width,
            a.height,
            p,
            a.mode,
            b.extradata,
            bytes,
        );
    }
}

/// An encoder of one stream.
#[derive(Debug)]
pub struct HuffYuvEncoder {
    family: PixelFamily,
    width: u32,
    height: u32,
    mode: ExtradataMode,
    chosen_method: Option<Method>,
    pinned_custom: Option<ThreeTables>,
    extradata: Vec<u8>,
    pending: Option<(Vec<u8>, Option<i64>)>,
    eof: bool,
    worker_budget: usize,
}

impl View for HuffYuvEncoder {
    type V = EncoderState;

    closed spec fn view(&self) -> EncoderState {
        EncoderState {
            family: self.family,
            width: self.width,
            height: self.height,
            mode: self.mode,
            method: self.chosen_method,
            pinned: match self.pinned_custom {
                Some(t) => Some(t@),
                None => None,
            },
            extradata: self.extradata@,
            pending: match self.pending {
                Some((bytes, pts)) => Some((bytes@, pts)),
                None => None,
            },
            ended: self.eof,
        }
    }
}

/// Makes an encoder. Its header is known from the start where the method is given
/// and the codebooks do not depend on the frames.
pub fn make_encoder(
    opts: &HuffYuvEncoderOptions,
    width: Option<u32>,
    height: Option<u32>,
    pixel_format: Option<InputFormat>,
) -> (r: Result<HuffYuvEncoder, CodecError>)
    ensures
        match resolve(*opts, width, height, pixel_format) {
            Resolved::Ready(family, w, h) => {
                &&& r matches Ok(e) && e.wf() && e.workers() == 1 && e@ == (EncoderState {
                    family,
                    width: w,
                    height: h,
                    mode: opts.mode,
                    method: opts.method,
                    pinned: None,
                    extradata: match opts.method {
                        Some(m) => if opts.mode is CustomV2 {
                            Seq::empty()
                        } else {
                            fixed_header(family, m, w, h, opts.mode)
                        },
                        None => Seq::empty(),
                    },
                    pending: None,
                    ended: false,
                })
            },
            Resolved::Refused => r matches Err(c) && c is Invalid,
            Resolved::NoFamily => r matches Err(c) && c is Unsupported,
        },
{
    let w: u32 = match width {
        Some(w) => w,
        None => 0,
    };
    if w == 0 {
        return Err(CodecError::invalid("oxideav-huffyuv: encoder needs a non-zero width"));
    }
    let h: u32 = match height {
        Some(h) => h,
        None => 0,
    };
    if h == 0 {
        return Err(CodecError::invalid("oxideav-huffyuv: encoder needs a non-zero height"));
    }
    let family: PixelFamily = match (opts.format, pixel_format) {
        (Some(f), Some(pf)) => {
            if family_from_pixel_format(pf) != Some(f) {
                return Err(
                    CodecError::invalid(
                        "oxideav-huffyuv: the format option conflicts with the pixel format",
                    ),
                );
            }
            f
        },
        (Some(f), None) => f,
        (None, Some(pf)) => match family_from_pixel_format(pf) {
            Some(f) => f,
            None => {
                return Err(
                    CodecError::Unsupported(
                        "oxideav-huffyuv: unsupported input pixel format (supported: Yuyv422, Bgr24, Bgra)".to_owned(),
                    ),
                );
            },
        },
        (None, None) => {
            return Err(
                CodecError::invalid(
                    "oxideav-huffyuv: encoder needs an input family: set the pixel format or the format option",
                ),
            );
        },
    };
    if family == PixelFamily::Yuy2 && w % 2 != 0 {
        return Err(CodecError::invalid("oxideav-huffyuv: YUY2 width must be even"));
    }
    let mut extradata: Vec<u8> = Vec::new();
    if let Some(m) = opts.method {
        let is_legal: bool = if family.is_rgb() {
            m.is_rgb_legal()
        } else {
            m.is_yuv_legal()
        };
        if !is_legal {
            return Err(
                CodecError::invalid("oxideav-huffyuv: the method is not legal for the pixel family"),
            );
        }
        match opts.mode {
            ExtradataMode::ClassicV2 => {
                let blob: Vec<u8> = classic_blob_bytes(family, m);
                proof {
                    lemma_classic_blob(family, m);
                }
                extradata = build_bitmapinfoheader(family, m, w, h, blob.as_slice(), true);
            },
            ExtradataMode::V1xCompat => {
                let none: Vec<u8> = Vec::new();
                extradata = build_bitmapinfoheader(family, m, w, h, none.as_slice(), false);
                assert(none@ =~= Seq::<u8>::empty());
            },
            ExtradataMode::CustomV2 => {},
        }
    }
    let e = HuffYuvEncoder {
        family,
        width: w,
        height: h,
        mode: opts.mode,
        chosen_method: opts.method,
        pinned_custom: None,
        extradata,
        pending: None,
        eof: false,
        worker_budget: 1,
    };
    assert(opts.method is None || opts.mode is CustomV2 ==> e@.extradata =~= Seq::<u8>::empty());
    Ok(e)
}

impl HuffYuvEncoder {
    /// The invariant of an encoder.
    pub closed spec fn wf(self) -> bool {
        &&& is_stream(self@)
        &&& self.pinned_custom matches Some(t) ==> t.wf()
        &&& self.worker_budget >= 1
    }

    /// How many workers may share the work on a frame.
    pub closed spec fn workers(self) -> int {
        self.worker_budget as int
    }

    /// An encoder always has a stream in order, and at least one worker.
    pub proof fn law_encoder_invariant(self)
        requires
            self.wf(),
        ensures
            is_stream(self@),
            self.workers() >= 1,
    {
    }

    /// The pixel family of the stream.
    pub fn family(&self) -> (family: PixelFamily)
        ensures
            family == self@.family,
    {
        self.family
    }

    /// The width of the frames.
    pub fn width(&self) -> (width: u32)
        ensures
            width == self@.width,
    {
        self.width
    }

    /// The height of the frames.
    pub fn height(&self) -> (height: u32)
        ensures
            height == self@.height,
    {
        self.height
    }

    /// The method of the stream, once it is known.
    pub fn method(&self) -> (method: Option<Method>)
        ensures
            method == self@.method,
    {
        self.chosen_method
    }

    /// The header of the stream; empty until it is known.
    pub fn extradata(&self) -> (strf: &[u8])
        ensures
            strf@ == self@.extradata,
    {
        self.extradata.as_slice()
    }

    /// Encodes a raster, and settles what its stream still leaves open. Returns
    /// the bytes of the frame.
    fn encode_pixels(&mut self, pixels: &[u8]) -> (r: Result<Vec<u8>, CodecError>)
        requires
            old(self).wf(),
            pixels@.len() == raster_len(old(self)@.family, old(self)@.width, old(self)@.height),
            can_count(old(self)@, pixels@),
        ensures
            final(self).wf(),
            final(self).workers() == old(self).workers(),
            r is Ok <==> has_codes(old(self)@, pixels@),
            r matches Ok(bytes) ==> final(self)@.pending == old(self)@.pending && sent(
                old(self)@,
                (EncoderState { pending: Some((bytes@, None)), ..final(self)@ }),
                pixels@,
                None,
            ),
            r matches Err(c) ==> c is Invalid && final(self)@ == old(self)@,
    {
        let ghost a = self@;
        let ghost p = pixels@;
        proof {
            lemma_raster_rows(a.family, a.width, a.height);
        }
        let (family, width, height) = (self.family, self.width, self.height);
        let m: Method = match self.chosen_method {
            None => {
                assert forall|i: int|
                    0 <= i < MethodSelection::Auto.spec_candidates(family).len() implies
                    frame_countable(
                        family,
                        #[trigger] MethodSelection::Auto.spec_candidates(family)[i],
                        width,
                        height,
                        p,
                    ) by {}
                let (strf, bytes, chosen) = match encode_frame_auto_workers(
                    family,
                    MethodSelection::Auto,
                    width,
                    height,
                    pixels,
                    self.mode,
                    self.worker_budget,
                ) {
                    Ok(done) => done,
                    Err(e) => {
                        return Err(CodecError::failed(&e));
                    },
                };
                proof {
                    let i = choose|i: int|
                        is_first_best(
                            family,
                            MethodSelection::Auto.spec_candidates(family),
                            width,
                            height,
                            p,
                            i,
                        ) && #[trigger] MethodSelection::Auto.spec_candidates(family)[i] == chosen;
                    lemma_candidates_legal(family, i);
                }
                self.settle(chosen, strf, pixels, &bytes);
                return Ok(bytes);
            },
            Some(m) => m,
        };
        if let Some(tabs) = &self.pinned_custom {
            return match encode_body_with_pinned_tables(
                family,
                m,
                width,
                height,
                pixels,
                tabs,
                self.worker_budget,
            ) {
                Ok(bytes) => Ok(bytes),
                Err(e) => Err(CodecError::failed(&e)),
            };
        }
        let (strf, bytes) = match encode_frame_with_mode_workers(
            family,
            m,
            width,
            height,
            pixels,
            self.mode,
            self.worker_budget,
        ) {
            Ok(done) => done,
            Err(e) => {
                return Err(CodecError::failed(&e));
            },
        };
        self.settle(m, strf, pixels, &bytes);
        Ok(bytes)
    }

    /// Keeps what a frame has settled of its stream: the method, the header, and
    /// the codebooks where they were made for the frame.
    fn settle(&mut self, method: Method, strf: Vec<u8>, pixels: &[u8], bytes: &Vec<u8>)
        requires
            old(self).wf(),
            old(self)@.pinned is None,
            old(self)@.method is None || old(self)@.method == Some(method),
            legal(old(self)@.family, method),
            pixels@.len() == raster_len(old(self)@.family, old(self)@.width, old(self)@.height),
            can_count(old(self)@, pixels@),
            is_encoded(
                old(self)@.family,
                method,
                old(self)@.width,
                old(self)@.height,
                pixels@,
                old(self)@.mode,
                strf@,
                bytes@,
            ),
        ensures
            final(self).wf(),
            final(self).workers() == old(self).workers(),
            final(self)@ == (EncoderState {
                method: Some(method),
                pinned: final(self)@.pinned,
                extradata: strf@,
                ..old(self)@
            }),
            final(self)@.pinned is Some <==> old(self)@.mode is CustomV2,
    {
        let ghost a = self@;
        let ghost body = frame_body(a.family, method, a.width, a.height, pixels@);
        let ghost tables = mode_tables(a.mode, a.family, method, body);
        proof {
            lemma_raster_rows(a.family, a.width, a.height);
            lemma_frame_body(a.family, method, a.width, a.height, pixels@);
            assert(frame_countable(a.family, method, a.width, a.height, pixels@) || !(
            a.mode is CustomV2));
            law_mode_books(a.mode, a.family, method, body);
            if !(a.mode is V1xCompat) {
                assert(strf@.len() == 0x2C + tables.len());
                assert(strf@.subrange(0x2C, strf@.len() as int) =~= tables);
            }
        }
        if let ExtradataMode::CustomV2 = self.mode {
            let len: usize = strf.len();
            if let Ok(tabs) = tables_from_extradata(&strf.as_slice()[0x2C..len]) {
                self.pinned_custom = Some(tabs);
            }
        }
        self.chosen_method = Some(method);
        self.extradata = strf;
    }

    /// Encodes a frame; the packet waits to be received. A refused frame leaves
    /// the stream as it was.
    pub fn send_frame(&mut self, frame: &InputFrame) -> (r: Result<(), CodecError>)
        requires
            old(self).wf(),
            fits(old(self)@, *frame) ==> can_count(old(self)@, raster_of(*frame)),
        ensures
            final(self).wf(),
            final(self).workers() == old(self).workers(),
            r is Ok <==> old(self)@.pending is None && !old(self)@.ended && fits(
                old(self)@,
                *frame,
            ) && has_codes(old(self)@, raster_of(*frame)),
            r is Ok ==> sent(old(self)@, final(self)@, raster_of(*frame), stamp_of(*frame)),
            r matches Err(c) ==> final(self)@ == old(self)@ && if old(self)@.pending is Some
                || old(self)@.ended {
                c is Other
            } else {
                c is Invalid
            },
    {
        if self.pending.is_some() {
            return Err(
                CodecError::other(
                    "oxideav-huffyuv: receive_packet must be called before sending another frame",
                ),
            );
        }
        if self.eof {
            return Err(CodecError::other("oxideav-huffyuv: send_frame after flush"));
        }
        match frame {
            InputFrame::NotVideo => Err(
                CodecError::invalid("oxideav-huffyuv: encoder accepts video frames only"),
            ),
            InputFrame::Video { planes, stride, data, pts } => {
                if *planes != 1 {
                    return Err(
                        CodecError::invalid("oxideav-huffyuv: expected 1 packed image plane"),
                    );
                }
                proof {
                    lemma_raster_rows(self.family, self.width, self.height);
                }
                let row_fits: bool = match raster_size(self.family, self.width, 1) {
                    Some(row_bytes) => *stride == row_bytes,
                    None => false,
                };
                if !row_fits {
                    return Err(
                        CodecError::invalid(
                            "oxideav-huffyuv: the plane stride is not the packed row size",
                        ),
                    );
                }
                let len: usize = data.len();
                let size_fits: bool = match raster_size(self.family, self.width, self.height) {
                    Some(expected) => len == expected,
                    None => false,
                };
                if !size_fits {
                    return Err(
                        CodecError::invalid("oxideav-huffyuv: the plane size is not the frame size"),
                    );
                }
                match self.encode_pixels(data) {
                    Ok(bytes) => {
                        self.pending = Some((bytes, *pts));
                        Ok(())
                    },
                    Err(e) => Err(e),
                }
            },
        }
    }

    /// Takes the packet that waits, with its time stamp.
    pub fn receive_packet(&mut self) -> (r: Result<(Vec<u8>, Option<i64>), CodecError>)
        requires
            old(self).wf(),
        ensures
            final(self).wf(),
            final(self).workers() == old(self).workers(),
            final(self)@ == (EncoderState { pending: None, ..old(self)@ }),
            match old(self)@.pending {
                Some((bytes, pts)) => r matches Ok(packet) && packet.0@ == bytes && packet.1 == pts,
                None => r == Err::<(Vec<u8>, Option<i64>), CodecError>(
                    if old(self)@.ended {
                        CodecError::Eof
                    } else {
                        CodecError::NeedMore
                    },
                ),
            },
    {
        match self.pending.take() {
            Some(packet) => Ok(packet),
            None => {
                if self.eof {
                    Err(CodecError::Eof)
                } else {
                    Err(CodecError::NeedMore)
                }
            },
        }
    }

    /// Ends the stream: no more frames come.
    pub fn flush(&mut self)
        requires
            old(self).wf(),
        ensures
            final(self).wf(),
            final(self).workers() == old(self).workers(),
            final(self)@ == (EncoderState { ended: true, ..old(self)@ }),
    {
        self.eof = true;
    }

    /// Sets how many workers may share the work on a frame; at least one.
    pub fn set_execution_context(&mut self, threads: usize)
        requires
            old(self).wf(),
        ensures
            final(self).wf(),
            final(self)@ == old(self)@,
            final(self).workers() == (if threads == 0 {
                1
            } else {
                threads as int
            }),
    {
        self.worker_budget = if threads == 0 {
            1
        } else {
            threads
        };
    }
}

// ---------------------------------------------------------------------------
// Decoder
// ---------------------------------------------------------------------------

/// The state of a stream that is being decoded.
#[verifier::ext_equal]
pub struct DecoderState {
    /// What the header of the stream declares, where there is one.
    pub config: Option<StreamInfo>,
    /// The packet that waits, with its time stamp.
    pub pending: Option<(Seq<u8>, Option<i64>)>,
    /// No more packets come.
    pub ended: bool,
}

/// A decoded frame: one packed raster.
#[derive(Debug)]
pub struct VideoFrame {
    /// The time stamp of its packet.
    pub pts: Option<i64>,
    /// The bytes of a row.
    pub stride: usize,
    /// The raster.
    pub data: Vec<u8>,
}

/// A decoder of one stream.
#[derive(Debug)]
pub struct HuffYuvDecoder {
    stream_config: Option<StreamConfig>,
    pending: Option<(Vec<u8>, Option<i64>)>,
    eof: bool,
    worker_budget: usize,
}

impl View for HuffYuvDecoder {
    type V = DecoderState;

    closed spec fn view(&self) -> DecoderState {
        DecoderState {
            config: match self.stream_config {
                Some(c) => Some(c@),
                None => None,
            },
            pending: match self.pending {
                Some((bytes, pts)) => Some((bytes@, pts)),
                None => None,
            },
            ended: self.eof,
        }
    }
}

/// Makes a decoder for a stream with the given header. Without a header it takes
/// packets but decodes none.
pub fn make_decoder(extradata: &[u8]) -> (r: Result<HuffYuvDecoder, CodecError>)
    ensures
        r is Ok <==> extradata@.len() == 0 || parse_header(extradata@) is Some,
        r matches Ok(d) ==> d.workers() == 1 && d@ == (DecoderState {
            config: if extradata@.len() == 0 {
                None
            } else {
                parse_header(extradata@)
            },
            pending: None,
            ended: false,
        }),
        r matches Err(c) ==> c is Invalid,
{
    let stream_config: Option<StreamConfig> = if extradata.len() == 0 {
        None
    } else {
        match StreamConfig::parse_bitmapinfoheader(extradata) {
            Ok(config) => Some(config),
            Err(e) => {
                return Err(CodecError::failed(&e));
            },
        }
    };
    Ok(HuffYuvDecoder { stream_config, pending: None, eof: false, worker_budget: 1 })
}

/// The bytes of a row of a frame that decodes fit a machine word.
proof fn lemma_row_fits(info: StreamInfo, bytes: Seq<u8>)
    requires
        frame_decodable(info, bytes),
        raster_len(info.family, info.width, info.height) <= usize::MAX,
    ensures
        info.width * info.family.step() <= usize::MAX,
{
    let rb = info.width * info.family.step();
    let h = info.height as int;
    assert(rb * h >= rb) by (nonlinear_arith)
        requires
            rb >= 0,
            h >= 1,
    ;
}

impl HuffYuvDecoder {
    /// How many workers may share the work on a frame.
    pub closed spec fn workers(self) -> int {
        self.worker_budget as int
    }

    /// Takes a packet; it waits to be decoded.
    pub fn send_packet(&mut self, data: &[u8], pts: Option<i64>) -> (r: Result<(), CodecError>)
        ensures
            final(self).workers() == old(self).workers(),
            r is Ok <==> old(self)@.pending is None,
            r is Ok ==> final(self)@ == (DecoderState { pending: Some((data@, pts)), ..old(self)@ }),
            r matches Err(c) ==> c is Other && final(self)@ == old(self)@,
    {
        if self.pending.is_some() {
            return Err(
                CodecError::other(
                    "oxideav-huffyuv: receive_frame must be called before sending another packet",
                ),
            );
        }
        let mut bytes: Vec<u8> = Vec::new();
        bytes.extend_from_slice(data);
        assert(bytes@ =~= data@);
        self.pending = Some((bytes, pts));
        Ok(())
    }

    /// Decodes the packet that waits. It is gone afterwards, even where it could
    /// not be decoded.
    pub fn receive_frame(&mut self) -> (r: Result<VideoFrame, CodecError>)
        ensures
            final(self).workers() == old(self).workers(),
            final(self)@ == (DecoderState { pending: None, ..old(self)@ }),
            match old(self)@.pending {
                Some((bytes, pts)) => match old(self)@.config {
                    Some(info) => {
                        &&& r is Ok <==> frame_decodable(info, bytes)
                        &&& r matches Ok(frame) ==> {
                            &&& frame.pts == pts
                            &&& frame.stride == info.width * info.family.step()
                            &&& frame_decodes_to(info, bytes, frame.data@)
                        }
                        &&& r matches Err(c) ==> c is Invalid
                    },
                    None => r matches Err(c) && c is Invalid,
                },
                None => r == Err::<VideoFrame, CodecError>(
                    if old(self)@.ended {
                        CodecError::Eof
                    } else {
                        CodecError::NeedMore
                    },
                ),
            },
    {
        let (bytes, pts) = match self.pending.take() {
            Some(packet) => packet,
            None => {
                return if self.eof {
                    Err(CodecError::Eof)
                } else {
                    Err(CodecError::NeedMore)
                };
            },
        };
        match &self.stream_config {
            Some(config) => match decode_frame_with_workers(
                config,
                bytes.as_slice(),
                self.worker_budget,
            ) {
                Ok(frame) => {
                    proof {
                        lemma_row_fits(config@, bytes@);
                    }
                    Ok(map_to_video_frame(frame, pts))
                },
                Err(e) => Err(CodecError::failed(&e)),
            },
            None => Err(
                CodecError::invalid("oxideav-huffyuv: missing BITMAPINFOHEADER in the parameters"),
            ),
        }
    }

    /// Ends the stream: no more packets come.
    pub fn flush(&mut self)
        ensures
            final(self).workers() == old(self).workers(),
            final(self)@ == (DecoderState { ended: true, ..old(self)@ }),
    {
        self.eof = true;
    }

    /// Sets how many workers may share the work on a frame; at least one.
    pub fn set_execution_context(&mut self, threads: usize)
        ensures
            final(self)@ == old(self)@,
            final(self).workers() == (if threads == 0 {
                1
            } else {
                threads as int
            }),
    {
        self.worker_budget = if threads == 0 {
            1
        } else {
            threads
        };
    }
}

/// A decoded frame with the time stamp of its packet.
fn map_to_video_frame(frame: DecodedFrame, pts: Option<i64>) -> (v: VideoFrame)
    requires
        frame.width * frame.family.step() <= usize::MAX,
    ensures
        v.pts == pts,
        v.stride == frame.width * frame.family.step(),
        v.data == frame.pixels,
{
    let stride: usize = frame.width as usize * frame.family.bytes_per_pixel_step();
    VideoFrame { pts, stride, data: frame.pixels }
}

} // verus!
