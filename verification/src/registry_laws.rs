//! What the codec interface makes of options, parameters and frames.

use vstd::prelude::*;

use crate::encoder::{frame_cost, ExtradataMode};
use crate::header::{legal, Method, PixelFamily};
use crate::lossless::law_open_choice_is_cheapest;
use crate::registry::{
    fits, raster_of, resolve, sent, stamp_of, with_option, EncoderState,
    HuffYuvEncoderOptions, InputFormat, InputFrame, Resolved,
};

verus! {

/// Every option value by its name. Any other value is refused, and so is any
/// other key.
#[verifier::rlimit(40)]
pub proof fn law_option_values(o: HuffYuvEncoderOptions, key: Seq<char>, value: Seq<char>)
    ensures
        with_option(o, "format"@, value) == (if value == "auto"@ {
            Some(HuffYuvEncoderOptions { format: None, ..o })
        } else if value == "yuy2"@ {
            Some(HuffYuvEncoderOptions { format: Some(PixelFamily::Yuy2), ..o })
        } else if value == "rgb24"@ {
            Some(HuffYuvEncoderOptions { format: Some(PixelFamily::Rgb24), ..o })
        } else if value == "rgb32"@ {
            Some(HuffYuvEncoderOptions { format: Some(PixelFamily::Rgb32), ..o })
        } else {
            None
        }),
        with_option(o, "method"@, value) == (if value == "auto"@ {
            Some(HuffYuvEncoderOptions { method: None, ..o })
        } else if value == "predict-old"@ {
            Some(HuffYuvEncoderOptions { method: Some(Method::PredictOld), ..o })
        } else if value == "left"@ {
            Some(HuffYuvEncoderOptions { method: Some(Method::Left), ..o })
        } else if value == "gradient"@ {
            Some(HuffYuvEncoderOptions { method: Some(Method::Gradient), ..o })
        } else if value == "median"@ {
            Some(HuffYuvEncoderOptions { method: Some(Method::Median), ..o })
        } else if value == "left-decorr"@ {
            Some(HuffYuvEncoderOptions { method: Some(Method::LeftDecorr), ..o })
        } else if value == "gradient-decorr"@ {
            Some(HuffYuvEncoderOptions { method: Some(Method::GradientDecorr), ..o })
        } else {
            None
        }),
        with_option(o, "mode"@, value) == (if value == "classic-v2"@ {
            Some(HuffYuvEncoderOptions { mode: ExtradataMode::ClassicV2, ..o })
        } else if value == "custom-v2"@ {
            Some(HuffYuvEncoderOptions { mode: ExtradataMode::CustomV2, ..o })
        } else if value == "v1x"@ {
            Some(HuffYuvEncoderOptions { mode: ExtradataMode::V1xCompat, ..o })
        } else {
            None
        }),
        key != "format"@ && key != "method"@ && key != "mode"@ ==> with_option(o, key, value)
            is None,
{
    reveal_strlit("format");
    reveal_strlit("method");
    reveal_strlit("mode");
    assert("format"@[0] == 'f' && "method"@[1] == 'e' && "mode"@[1] == 'o');
}

/// Options do not get in each other's way: two of them can be set in either order,
/// and of two values for one option the later one counts.
pub proof fn law_options_are_independent(
    o: HuffYuvEncoderOptions,
    k: Seq<char>,
    v: Seq<char>,
    l: Seq<char>,
    w: Seq<char>,
)
    requires
        with_option(o, k, v) is Some,
        with_option(o, l, w) is Some,
    ensures
        ({
            let first = with_option(o, k, v)->0;
            let second = with_option(o, l, w)->0;
            if k == l {
                with_option(first, l, w) == Some(second)
            } else {
                with_option(first, l, w) is Some && with_option(first, l, w) == with_option(
                    second,
                    k,
                    v,
                )
            }
        }),
{
    reveal_strlit("format");
    reveal_strlit("method");
    reveal_strlit("mode");
    assert("format"@[0] == 'f' && "method"@[1] == 'e' && "mode"@[1] == 'o');
}

/// A stream can be made of a family and sizes just where both sizes are given and
/// positive, the family is the one asked for and the one of the pixel format, as
/// far as they are given, one of the two is given, YUY2 pixels come in pairs, and
/// the family has the method. A pixel format that has no family is unsupported
/// where no family was asked for.
pub proof fn law_stream_parameters(
    opts: HuffYuvEncoderOptions,
    width: Option<u32>,
    height: Option<u32>,
    pixel_format: Option<InputFormat>,
    family: PixelFamily,
    w: u32,
    h: u32,
)
    ensures
        resolve(opts, width, height, pixel_format) == Resolved::Ready(family, w, h) <==> {
            &&& width == Some(w)
            &&& height == Some(h)
            &&& w > 0
            &&& h > 0
            &&& opts.format is Some || pixel_format is Some
            &&& opts.format matches Some(f) ==> f == family
            &&& pixel_format matches Some(pf) ==> match family {
                PixelFamily::Yuy2 => pf is Yuyv422,
                PixelFamily::Rgb24 => pf is Bgr24,
                PixelFamily::Rgb32 => pf is Bgra,
            }
            &&& family is Yuy2 ==> w % 2 == 0
            &&& opts.method matches Some(m) ==> legal(family, m)
        },
        resolve(opts, width, height, pixel_format) is NoFamily <==> {
            &&& width matches Some(x) && x > 0
            &&& height matches Some(y) && y > 0
            &&& opts.format is None
            &&& pixel_format == Some(InputFormat::Other)
        },
{
}

/// A stream takes frames of one plane whose rows follow each other without a gap
/// and which have its size: two bytes for a pixel of YUY2, three for one of
/// RGB24 and four for one of RGB32.
pub proof fn law_frames_of_stream(e: EncoderState, frame: InputFrame)
    ensures
        fits(e, frame) <==> (frame matches InputFrame::Video { planes, stride, data, .. } && {
            let bytes: int = match e.family {
                PixelFamily::Yuy2 => 2,
                PixelFamily::Rgb24 => 3,
                PixelFamily::Rgb32 => 4,
            };
            &&& planes == 1
            &&& stride == e.width * bytes
            &&& data@.len() == e.width * bytes * e.height
        }),
{
}

/// A frame that was taken leaves its packet with its own time stamp. Size, family
/// and codebook source of the stream stay, and it is not ended by a frame.
pub proof fn law_frame_leaves_packet(a: EncoderState, b: EncoderState, frame: InputFrame)
    requires
        sent(a, b, raster_of(frame), stamp_of(frame)),
    ensures
        b.pending is Some,
        frame matches InputFrame::Video { pts, .. } ==> (b.pending matches Some((_, stamp))
            && stamp == pts),
        b.method is Some,
        b.family == a.family,
        b.width == a.width,
        b.height == a.height,
        b.mode == a.mode,
        b.ended == a.ended,
{
}

/// A stream whose method was left open gets, by its first frame, one that no legal
/// method undercuts on that frame.
pub proof fn law_first_frame_chooses(
    a: EncoderState,
    b: EncoderState,
    p: Seq<u8>,
    pts: Option<i64>,
)
    requires
        a.method is None,
        sent(a, b, p, pts),
    ensures
        b.method matches Some(method) && legal(a.family, method) && forall|m: Method|
            legal(a.family, m) ==> frame_cost(a.family, method, a.width, a.height, p)
                <= #[trigger] frame_cost(a.family, m, a.width, a.height, p),
{
    if let (Some(method), Some((bytes, _))) = (b.method, b.pending) {
        law_open_choice_is_cheapest(
            a.family,
            a.width,
            a.height,
            p,
            a.mode,
            b.extradata,
            bytes,
            method,
        );
        let cost = |m: Method| frame_cost(a.family, m, a.width, a.height, p);
        assert forall|m: Method| legal(a.family, m) implies frame_cost(
            a.family,
            method,
            a.width,
            a.height,
            p,
        ) <= #[trigger] frame_cost(a.family, m, a.width, a.height, p) by {
            assert(cost(method) <= cost(m));
        }
    }
}

} // verus!
