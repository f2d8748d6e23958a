//! AVI files with one video stream.
//!
//! A file is a tree of chunks: four bytes of name, four of little-endian size,
//! the payload, and a padding byte behind a payload of odd size. A `LIST` chunk
//! starts with a second name and holds chunks. The reader finds the header of
//! the first video stream and the frames in the `movi` list, and skips what it
//! does not need; the writer wraps frames into the least that it reads back.

use vstd::prelude::*;

use crate::bits::lemma_word_bytes;
use crate::error::{Error, Result};
use crate::header::u32_at;
use crate::strf::{le_bytes, push_word};

verus! {

/// `RIFF`.
pub const FOURCC_RIFF: [u8; 4] = [0x52, 0x49, 0x46, 0x46];

/// `AVI `.
pub const FOURCC_AVI: [u8; 4] = [0x41, 0x56, 0x49, 0x20];

/// `LIST`.
pub const FOURCC_LIST: [u8; 4] = [0x4C, 0x49, 0x53, 0x54];

/// `hdrl`, the list of headers.
pub const FOURCC_HDRL: [u8; 4] = [0x68, 0x64, 0x72, 0x6C];

/// `strl`, the list of one stream's headers.
pub const FOURCC_STRL: [u8; 4] = [0x73, 0x74, 0x72, 0x6C];

/// `movi`, the list of frames.
pub const FOURCC_MOVI: [u8; 4] = [0x6D, 0x6F, 0x76, 0x69];

/// `strh`, a stream's header.
pub const FOURCC_STRH: [u8; 4] = [0x73, 0x74, 0x72, 0x68];

/// `strf`, a stream's format.
pub const FOURCC_STRF: [u8; 4] = [0x73, 0x74, 0x72, 0x66];

/// `avih`, the file's header.
pub const FOURCC_AVIH: [u8; 4] = [0x61, 0x76, 0x69, 0x68];

/// `vids`, the type of video streams.
pub const STREAM_TYPE_VIDS: [u8; 4] = [0x76, 0x69, 0x64, 0x73];

/// `HFYU`, the codec of a stream.
pub const HANDLER_HFYU: [u8; 4] = [0x48, 0x46, 0x59, 0x55];

/// `00dc`, a compressed frame of the first stream.
pub const FOURCC_00DC: [u8; 4] = [0x30, 0x30, 0x64, 0x63];

// ---------------------------------------------------------------------------
// Chunks
// ---------------------------------------------------------------------------

/// A chunk's name and payload, and the place behind it.
#[verifier::ext_equal]
pub struct Chunk {
    pub id: Seq<u8>,
    pub payload: Seq<u8>,
    pub next: int,
}

/// The chunk at `pos`; none where it does not fit.
pub open spec fn chunk_at(data: Seq<u8>, pos: int) -> Option<Chunk> {
    if pos + 8 > data.len() {
        None
    } else {
        let size = u32_at(data, pos + 4) as int;
        let end = pos + 8 + size;
        if end > data.len() {
            None
        } else {
            Some(
                Chunk {
                    id: data.subrange(pos, pos + 4),
                    payload: data.subrange(pos + 8, end),
                    next: if size % 2 == 1 && end < data.len() {
                        end + 1
                    } else {
                        end
                    },
                },
            )
        }
    }
}

/// Where reading stops that finds no chunk at `pos`: behind its name or its size,
/// as far as they are there.
pub open spec fn broken_at(len: int, pos: int) -> int {
    if len - pos < 4 {
        pos
    } else if len - pos < 8 {
        pos + 4
    } else {
        pos + 8
    }
}

/// The chunk is a list with the given second name.
pub open spec fn is_list(c: Chunk, name: [u8; 4]) -> bool {
    c.id == FOURCC_LIST@ && c.payload.len() >= 4 && c.payload.subrange(0, 4) == name@
}

/// What a list holds.
pub open spec fn inside(c: Chunk) -> Seq<u8> {
    c.payload.subrange(4, c.payload.len() as int)
}

/// The stream header of a stream list from `pos` on, once `video` tells that the
/// stream is a video stream and `strf` is the last format seen; the outer none
/// means that a chunk is broken.
pub open spec fn scan_strl(data: Seq<u8>, pos: int, video: bool, strf: Option<Seq<u8>>) -> Option<
    Option<Seq<u8>>,
>
    decreases data.len() - pos,
{
    if pos >= data.len() {
        if video {
            Some(strf)
        } else {
            Some(None)
        }
    } else {
        match chunk_at(data, pos) {
            None => None,
            Some(c) => {
                let vids = c.id == FOURCC_STRH@ && c.payload.len() >= 4 && c.payload.subrange(0, 4)
                    == STREAM_TYPE_VIDS@;
                scan_strl(
                    data,
                    c.next,
                    video || vids,
                    if c.id == FOURCC_STRF@ {
                        Some(c.payload)
                    } else {
                        strf
                    },
                )
            },
        }
    }
}

/// The header of the first video stream in a header list from `pos` on. Chunks
/// behind it are not looked at.
pub open spec fn scan_hdrl(data: Seq<u8>, pos: int) -> Option<Option<Seq<u8>>>
    decreases data.len() - pos,
{
    if pos >= data.len() {
        Some(None)
    } else {
        match chunk_at(data, pos) {
            None => None,
            Some(c) => if is_list(c, FOURCC_STRL) {
                match scan_strl(inside(c), 0, false, None) {
                    None => None,
                    Some(Some(strf)) => Some(Some(strf)),
                    Some(None) => scan_hdrl(data, c.next),
                }
            } else {
                scan_hdrl(data, c.next)
            },
        }
    }
}

/// The stream header and the frames of a file's chunks from `pos` on, where
/// `strf` and `movi` are those found before. The first stream header counts, and
/// the last frames.
pub open spec fn scan_riff(
    data: Seq<u8>,
    pos: int,
    strf: Option<Seq<u8>>,
    movi: Option<Seq<u8>>,
) -> Option<(Option<Seq<u8>>, Option<Seq<u8>>)>
    decreases data.len() - pos,
{
    if pos >= data.len() {
        Some((strf, movi))
    } else {
        match chunk_at(data, pos) {
            None => None,
            Some(c) => if c.id == FOURCC_LIST@ && c.payload.len() < 4 {
                None
            } else if is_list(c, FOURCC_HDRL) {
                match scan_hdrl(inside(c), 0) {
                    None => None,
                    Some(Some(found)) => scan_riff(
                        data,
                        c.next,
                        if strf is Some {
                            strf
                        } else {
                            Some(found)
                        },
                        movi,
                    ),
                    Some(None) => scan_riff(data, c.next, strf, movi),
                }
            } else if is_list(c, FOURCC_MOVI) {
                scan_riff(data, c.next, strf, Some(inside(c)))
            } else {
                scan_riff(data, c.next, strf, movi)
            },
        }
    }
}

/// The stream header and the frames of a file; the outer none means that the
/// file is malformed, the inner that it has no video stream or no frames.
pub open spec fn parse_avi(file: Seq<u8>) -> Option<Option<(Seq<u8>, Seq<u8>)>> {
    match chunk_at(file, 0) {
        None => None,
        Some(top) => if top.id != FOURCC_RIFF@ || top.payload.len() < 4 || top.payload.subrange(0, 4)
            != FOURCC_AVI@ {
            None
        } else {
            match scan_riff(inside(top), 0, None, None) {
                None => None,
                Some((Some(strf), Some(movi))) => Some(Some((strf, movi))),
                Some(_) => Some(None),
            }
        },
    }
}

/// The chunk holds a video frame.
pub open spec fn is_frame(c: Chunk) -> bool {
    c.id[2] == 0x64 && (c.id[3] == 0x63 || c.id[3] == 0x62)
}

/// What the next look for a frame finds: a frame, the end, or a broken chunk,
/// with the place where it stops.
pub enum Found {
    Frame(Chunk),
    End,
    Broken(int),
}

/// The next frame from `pos` on.
pub open spec fn next_frame(data: Seq<u8>, pos: int) -> Found
    decreases data.len() - pos,
{
    if pos >= data.len() {
        Found::End
    } else {
        match chunk_at(data, pos) {
            None => Found::Broken(broken_at(data.len() as int, pos)),
            Some(c) => if is_frame(c) {
                Found::Frame(c)
            } else {
                next_frame(data, c.next)
            },
        }
    }
}

/// Where the `n`-th look for a frame starts, when each starts where the one before
/// it stopped.
pub open spec fn place_after(data: Seq<u8>, n: nat) -> int
    decreases n,
{
    if n == 0 {
        0
    } else {
        match next_frame(data, place_after(data, (n - 1) as nat)) {
            Found::Frame(c) => c.next,
            Found::End => data.len() as int,
            Found::Broken(stop) => stop,
        }
    }
}

/// Look `i` for a frame finds one, named `00dc`, with the given payload.
pub open spec fn yields(data: Seq<u8>, i: nat, payload: Seq<u8>) -> bool {
    next_frame(data, place_after(data, i)) matches Found::Frame(c) && c.id == FOURCC_00DC@
        && c.payload == payload
}

/// Looking for frames goes from frame to frame of `frames` and then to the end.
pub open spec fn yields_all(data: Seq<u8>, frames: Seq<Seq<u8>>) -> bool {
    &&& forall|i: nat| i < frames.len() ==> #[trigger] yields(data, i, frames[i as int])
    &&& next_frame(data, place_after(data, frames.len())) is End
}

/// Four bytes spell a name.
fn is_name(bytes: &[u8], name: &[u8; 4]) -> (b: bool)
    requires
        bytes@.len() == 4,
    ensures
        b == (bytes@ == name@),
{
    let same: bool = bytes[0] == name[0] && bytes[1] == name[1] && bytes[2] == name[2] && bytes[3]
        == name[3];
    proof {
        if same {
            assert(bytes@ =~= name@);
        }
    }
    same
}

/// Reads chunks one after another.
struct Cursor<'a> {
    data: &'a [u8],
    pos: usize,
}

impl<'a> Cursor<'a> {
    /// The cursor is within its buffer.
    spec fn wf(&self) -> bool {
        self.pos <= self.data@.len()
    }

    /// A cursor at the start of a buffer.
    fn new(data: &'a [u8]) -> (c: Self)
        ensures
            c.wf(),
            c.data == data,
            c.pos == 0,
    {
        Self { data, pos: 0 }
    }

    /// Nothing is left.
    fn is_done(&self) -> (b: bool)
        ensures
            b == (self.pos >= self.data@.len()),
    {
        self.pos >= self.data.len()
    }

    /// Takes `n` bytes.
    fn take(&mut self, n: usize) -> (r: Result<&'a [u8]>)
        requires
            old(self).wf(),
        ensures
            final(self).wf(),
            final(self).data == old(self).data,
            r is Ok <==> old(self).pos + n <= old(self).data@.len(),
            r matches Ok(out) ==> out@ == old(self).data@.subrange(
                old(self).pos as int,
                old(self).pos + n,
            ) && final(self).pos == old(self).pos + n,
            r matches Err(e) ==> e is InvalidData && final(self).pos == old(self).pos,
    {
        if n > self.data.len() - self.pos {
            return Err(Error::invalid("RIFF: read exceeds buffer"));
        }
        let data: &'a [u8] = self.data;
        let out: &'a [u8] = &data[self.pos..self.pos + n];
        self.pos = self.pos + n;
        Ok(out)
    }

    /// Reads a chunk: its name and its payload.
    fn read_chunk(&mut self) -> (r: Result<(&'a [u8], &'a [u8])>)
        requires
            old(self).wf(),
        ensures
            final(self).wf(),
            final(self).data == old(self).data,
            r is Ok <==> chunk_at(old(self).data@, old(self).pos as int) is Some,
            r matches Ok((id, payload)) ==> chunk_at(old(self).data@, old(self).pos as int) == Some(
                Chunk { id: id@, payload: payload@, next: final(self).pos as int },
            ) && id@.len() == 4,
            r matches Err(e) ==> e is InvalidData && final(self).pos == broken_at(
                old(self).data@.len() as int,
                old(self).pos as int,
            ),
    {
        let ghost (data, start) = (self.data@, self.pos as int);
        let id: &'a [u8] = self.take(4)?;
        let s: &'a [u8] = self.take(4)?;
        let size: u32 = (s[0] as u32) | ((s[1] as u32) << 8) | ((s[2] as u32) << 16) | ((s[3] as u32)
            << 24);
        assert(size == u32_at(data, start + 4)) by {
            assert(s@[0] == data[start + 4] && s@[1] == data[start + 5] && s@[2] == data[start + 6]
                && s@[3] == data[start + 7]);
        }
        let payload: &'a [u8] = self.take(size as usize)?;
        if size % 2 == 1 && self.pos < self.data.len() {
            self.pos = self.pos + 1;
        }
        Ok((id, payload))
    }
}

/// One frame of a file.
#[derive(Debug, Clone)]
pub struct AviFrame<'a> {
    /// The chunk's name: two digits of stream number, then `dc` for a compressed
    /// or `db` for an uncompressed frame.
    pub chunk_id: [u8; 4],
    /// The payload without padding.
    pub payload: &'a [u8],
}

/// The video stream of a file.
#[derive(Debug)]
pub struct AviVideoStream<'a> {
    /// The stream header.
    pub bitmap_info_header: &'a [u8],
    /// The `movi` list without its name.
    pub movi_payload: &'a [u8],
}

impl<'a> AviVideoStream<'a> {
    /// Finds the first video stream of a file.
    pub fn parse(file: &'a [u8]) -> (r: Result<Option<Self>>)
        ensures
            r is Ok <==> parse_avi(file@) is Some,
            r matches Ok(found) ==> (match found {
                Some(s) => parse_avi(file@) == Some(
                    Some((s.bitmap_info_header@, s.movi_payload@)),
                ),
                None => parse_avi(file@) == Some(None::<(Seq<u8>, Seq<u8>)>),
            }),
            r matches Err(e) ==> e is InvalidData,
    {
        let mut top = Cursor::new(file);
        let (top_id, top_payload): (&'a [u8], &'a [u8]) = top.read_chunk()?;
        if !is_name(top_id, &FOURCC_RIFF) {
            return Err(Error::invalid("AVI: expected top RIFF"));
        }
        if top_payload.len() < 4 || !is_name(&top_payload[0..4], &FOURCC_AVI) {
            return Err(Error::invalid("AVI: expected AVI form"));
        }
        let body: &'a [u8] = &top_payload[4..top_payload.len()];
        let mut riff = Cursor::new(body);
        let mut strf: Option<&'a [u8]> = None;
        let mut movi: Option<&'a [u8]> = None;
        let ghost want = scan_riff(body@, 0, None, None);
        while !riff.is_done()
            invariant
                riff.wf(),
                riff.data@ == body@,
                want == scan_riff(body@, riff.pos as int, seen(strf), seen(movi)),
                want == scan_riff(body@, 0, None, None),
                chunk_at(file@, 0) matches Some(c) && c.id == FOURCC_RIFF@ && c.payload.len() >= 4
                    && c.payload.subrange(0, 4) == FOURCC_AVI@ && inside(c) == body@,
            decreases riff.data@.len() - riff.pos,
        {
            let (id, payload): (&'a [u8], &'a [u8]) = riff.read_chunk()?;
            if is_name(id, &FOURCC_LIST) {
                if payload.len() < 4 {
                    return Err(Error::invalid("AVI: LIST chunk too small"));
                }
                let name: &'a [u8] = &payload[0..4];
                let inner: &'a [u8] = &payload[4..payload.len()];
                if is_name(name, &FOURCC_HDRL) {
                    match scan_hdrl_for_bitmap_info_header(inner)? {
                        Some(found) => {
                            if strf.is_none() {
                                strf = Some(found);
                            }
                        },
                        None => {},
                    }
                } else if is_name(name, &FOURCC_MOVI) {
                    movi = Some(inner);
                    proof {
                        lemma_names_differ();
                    }
                }
            }
        }
        match (strf, movi) {
            (Some(bitmap_info_header), Some(movi_payload)) => Ok(
                Some(Self { bitmap_info_header, movi_payload }),
            ),
            _ => Ok(None),
        }
    }

    /// Goes through the frames of the stream.
    pub fn frames(&self) -> (it: AviFrameIter<'a>)
        ensures
            it.wf(),
            it.source() == self.movi_payload@,
            it.pos() == 0,
    {
        AviFrameIter { cursor: Cursor::new(self.movi_payload) }
    }
}

/// A found slice as a sequence.
pub open spec fn seen(s: Option<&[u8]>) -> Option<Seq<u8>> {
    match s {
        Some(v) => Some(v@),
        None => None,
    }
}

/// The names of the two lists differ.
proof fn lemma_names_differ()
    ensures
        FOURCC_HDRL@ != FOURCC_MOVI@,
{
    assert(FOURCC_HDRL@[0] == 0x68);
    assert(FOURCC_MOVI@[0] == 0x6D);
}

/// Goes through the frames of a stream.
pub struct AviFrameIter<'a> {
    cursor: Cursor<'a>,
}

impl<'a> AviFrameIter<'a> {
    /// The buffer of frames.
    pub closed spec fn source(&self) -> Seq<u8> {
        self.cursor.data@
    }

    /// The place reached.
    pub closed spec fn pos(&self) -> int {
        self.cursor.pos as int
    }

    /// The place is within the buffer.
    pub closed spec fn wf(&self) -> bool {
        self.cursor.wf()
    }

    /// The next frame. Chunks without a frame are skipped; a broken chunk is an
    /// error.
    pub fn next(&mut self) -> (r: Option<Result<AviFrame<'a>>>)
        requires
            old(self).wf(),
        ensures
            final(self).wf(),
            final(self).source() == old(self).source(),
            match next_frame(old(self).source(), old(self).pos()) {
                Found::End => r is None && final(self).pos() == final(self).source().len(),
                Found::Broken(stop) => (r matches Some(Err(e)) && e is InvalidData)
                    && final(self).pos() == stop,
                Found::Frame(c) => (r matches Some(Ok(f)) && f.chunk_id@ == c.id && f.payload@
                    == c.payload) && final(self).pos() == c.next,
            },
    {
        let ghost want = next_frame(self.source(), self.pos());
        while !self.cursor.is_done()
            invariant
                self.wf(),
                self.source() == old(self).source(),
                want == next_frame(self.source(), self.pos()),
                want == next_frame(old(self).source(), old(self).pos()),
            decreases self.cursor.data@.len() - self.cursor.pos,
        {
            let (id, payload): (&'a [u8], &'a [u8]) = match self.cursor.read_chunk() {
                Ok(c) => c,
                Err(e) => {
                    return Some(Err(e));
                },
            };
            if id[2] == 0x64 && (id[3] == 0x63 || id[3] == 0x62) {
                let chunk_id: [u8; 4] = [id[0], id[1], id[2], id[3]];
                assert(chunk_id@ =~= id@);
                return Some(Ok(AviFrame { chunk_id, payload }));
            }
        }
        None
    }
}

/// The header of the first video stream in a header list.
fn scan_hdrl_for_bitmap_info_header<'a>(hdrl: &'a [u8]) -> (r: Result<Option<&'a [u8]>>)
    ensures
        r is Ok <==> scan_hdrl(hdrl@, 0) is Some,
        r matches Ok(found) ==> scan_hdrl(hdrl@, 0) == Some(seen(found)),
        r matches Err(e) ==> e is InvalidData,
{
    let mut cursor = Cursor::new(hdrl);
    while !cursor.is_done()
        invariant
            cursor.wf(),
            cursor.data@ == hdrl@,
            scan_hdrl(hdrl@, cursor.pos as int) == scan_hdrl(hdrl@, 0),
        decreases cursor.data@.len() - cursor.pos,
    {
        let (id, payload): (&'a [u8], &'a [u8]) = cursor.read_chunk()?;
        if is_name(id, &FOURCC_LIST) && payload.len() >= 4 {
            if is_name(&payload[0..4], &FOURCC_STRL) {
                match scan_strl_for_video_strf(&payload[4..payload.len()])? {
                    Some(strf) => {
                        return Ok(Some(strf));
                    },
                    None => {},
                }
            }
        }
    }
    Ok(None)
}

/// The stream header of a stream list, where it is that of a video stream.
fn scan_strl_for_video_strf<'a>(strl: &'a [u8]) -> (r: Result<Option<&'a [u8]>>)
    ensures
        r is Ok <==> scan_strl(strl@, 0, false, None) is Some,
        r matches Ok(found) ==> scan_strl(strl@, 0, false, None) == Some(seen(found)),
        r matches Err(e) ==> e is InvalidData,
{
    let mut cursor = Cursor::new(strl);
    let mut is_video: bool = false;
    let mut strf: Option<&'a [u8]> = None;
    while !cursor.is_done()
        invariant
            cursor.wf(),
            cursor.data@ == strl@,
            scan_strl(strl@, cursor.pos as int, is_video, seen(strf)) == scan_strl(
                strl@,
                0,
                false,
                None,
            ),
        decreases cursor.data@.len() - cursor.pos,
    {
        let (id, payload): (&'a [u8], &'a [u8]) = cursor.read_chunk()?;
        if is_name(id, &FOURCC_STRH) {
            if payload.len() >= 4 && is_name(&payload[0..4], &STREAM_TYPE_VIDS) {
                is_video = true;
            }
            proof {
                lemma_stream_names_differ();
            }
        } else if is_name(id, &FOURCC_STRF) {
            strf = Some(payload);
        }
    }
    if is_video {
        Ok(strf)
    } else {
        Ok(None)
    }
}

/// The names of a stream's two chunks differ.
proof fn lemma_stream_names_differ()
    ensures
        FOURCC_STRH@ != FOURCC_STRF@,
{
    assert(FOURCC_STRH@[3] == 0x68);
    assert(FOURCC_STRF@[3] == 0x66);
}

// ---------------------------------------------------------------------------
// Writing
// ---------------------------------------------------------------------------

/// The bytes of a chunk.
pub open spec fn chunk_bytes(id: Seq<u8>, payload: Seq<u8>) -> Seq<u8> {
    id + le_bytes(payload.len() as u32) + payload + (if payload.len() % 2 == 1 {
        seq![0u8]
    } else {
        Seq::empty()
    })
}

/// The two little-endian bytes of a number's low half.
pub open spec fn le_half(v: u32) -> Seq<u8> {
    seq![(v & 0xFF) as u8, ((v >> 8) & 0xFF) as u8]
}

/// The header of the video stream: thirty frames a second.
pub open spec fn stream_header(n_frames: nat, width: u32, height: u32) -> Seq<u8> {
    STREAM_TYPE_VIDS@ + HANDLER_HFYU@ + le_bytes(0) + le_bytes(0) + le_bytes(0) + le_bytes(1)
        + le_bytes(30) + le_bytes(0) + le_bytes(n_frames as u32) + le_bytes(0) + le_bytes(
        0xFFFF_FFFF,
    ) + le_bytes(0) + le_bytes(0) + le_half(width) + le_half(height)
}

/// The header of the file.
pub open spec fn file_header(n_frames: nat, width: u32, height: u32) -> Seq<u8> {
    le_bytes(33333) + le_bytes(0) + le_bytes(0) + le_bytes(0x10) + le_bytes(n_frames as u32)
        + le_bytes(0) + le_bytes(1) + le_bytes(0) + le_bytes(width) + le_bytes(height) + le_bytes(0)
        + le_bytes(0) + le_bytes(0) + le_bytes(0)
}

/// The stream list.
pub open spec fn stream_list(strf: Seq<u8>, n_frames: nat, width: u32, height: u32) -> Seq<u8> {
    FOURCC_STRL@ + chunk_bytes(FOURCC_STRH@, stream_header(n_frames, width, height)) + chunk_bytes(
        FOURCC_STRF@,
        strf,
    )
}

/// The header list.
pub open spec fn header_list(strf: Seq<u8>, n_frames: nat, width: u32, height: u32) -> Seq<u8> {
    FOURCC_HDRL@ + chunk_bytes(FOURCC_AVIH@, file_header(n_frames, width, height)) + chunk_bytes(
        FOURCC_LIST@,
        stream_list(strf, n_frames, width, height),
    )
}

/// Frames as chunks, one after another.
pub open spec fn frame_chunks(frames: Seq<Seq<u8>>) -> Seq<u8>
    decreases frames.len(),
{
    if frames.len() == 0 {
        Seq::empty()
    } else {
        frame_chunks(frames.drop_last()) + chunk_bytes(FOURCC_00DC@, frames.last())
    }
}

/// What stands in the outermost chunk of a file.
pub open spec fn file_body(strf: Seq<u8>, frames: Seq<Seq<u8>>, width: u32, height: u32) -> Seq<u8> {
    FOURCC_AVI@ + chunk_bytes(FOURCC_LIST@, header_list(strf, frames.len(), width, height))
        + chunk_bytes(FOURCC_LIST@, FOURCC_MOVI@ + frame_chunks(frames))
}

/// A file with one video stream.
pub open spec fn minimal_avi(strf: Seq<u8>, frames: Seq<Seq<u8>>, width: u32, height: u32) -> Seq<u8> {
    FOURCC_RIFF@ + le_bytes(file_body(strf, frames, width, height).len() as u32) + file_body(
        strf,
        frames,
        width,
        height,
    )
}

/// Vectors as sequences.
pub open spec fn frame_seqs(frames: Seq<Vec<u8>>) -> Seq<Seq<u8>> {
    Seq::new(frames.len(), |i: int| frames[i]@)
}

/// Appends the low half of a word, least significant byte first.
fn push_half(out: &mut Vec<u8>, v: u32)
    ensures
        final(out)@ == old(out)@ + le_half(v),
{
    out.push((v & 0xFF) as u8);
    out.push(((v >> 8) & 0xFF) as u8);
    assert(out@ =~= old(out)@ + le_half(v));
}

/// Appends a chunk.
pub fn push_chunk(out: &mut Vec<u8>, fourcc: &[u8; 4], payload: &[u8])
    ensures
        final(out)@ == old(out)@ + chunk_bytes(fourcc@, payload@),
{
    out.extend_from_slice(fourcc);
    push_word(out, payload.len() as u32);
    out.extend_from_slice(payload);
    if payload.len() % 2 == 1 {
        out.push(0);
    }
    assert(out@ =~= old(out)@ + chunk_bytes(fourcc@, payload@));
}

/// Appends a list; the payload starts with its second name.
pub fn push_list(out: &mut Vec<u8>, payload: &[u8])
    ensures
        final(out)@ == old(out)@ + chunk_bytes(FOURCC_LIST@, payload@),
{
    push_chunk(out, &FOURCC_LIST, payload);
}

/// The header of the video stream.
fn make_stream_header(n_frames: usize, width: u32, height: u32) -> (h: Vec<u8>)
    ensures
        h@ == stream_header(n_frames as nat, width, height),
{
    let mut h: Vec<u8> = Vec::new();
    h.extend_from_slice(&STREAM_TYPE_VIDS);
    h.extend_from_slice(&HANDLER_HFYU);
    push_word(&mut h, 0);
    push_word(&mut h, 0);
    push_word(&mut h, 0);
    push_word(&mut h, 1);
    push_word(&mut h, 30);
    push_word(&mut h, 0);
    push_word(&mut h, n_frames as u32);
    push_word(&mut h, 0);
    push_word(&mut h, 0xFFFF_FFFF);
    push_word(&mut h, 0);
    push_word(&mut h, 0);
    push_half(&mut h, width);
    push_half(&mut h, height);
    assert(h@ =~= stream_header(n_frames as nat, width, height));
    h
}

/// The header of the file.
fn make_file_header(n_frames: usize, width: u32, height: u32) -> (h: Vec<u8>)
    ensures
        h@ == file_header(n_frames as nat, width, height),
{
    let mut h: Vec<u8> = Vec::new();
    push_word(&mut h, 33333);
    push_word(&mut h, 0);
    push_word(&mut h, 0);
    push_word(&mut h, 0x10);
    push_word(&mut h, n_frames as u32);
    push_word(&mut h, 0);
    push_word(&mut h, 1);
    push_word(&mut h, 0);
    push_word(&mut h, width);
    push_word(&mut h, height);
    push_word(&mut h, 0);
    push_word(&mut h, 0);
    push_word(&mut h, 0);
    push_word(&mut h, 0);
    assert(h@ =~= file_header(n_frames as nat, width, height));
    h
}

/// The header list of a file.
fn make_header_list(strf: &[u8], n_frames: usize, width: u32, height: u32) -> (hdrl: Vec<u8>)
    ensures
        hdrl@ == header_list(strf@, n_frames as nat, width, height),
{
    let strh: Vec<u8> = make_stream_header(n_frames, width, height);
    let mut strl: Vec<u8> = Vec::new();
    strl.extend_from_slice(&FOURCC_STRL);
    push_chunk(&mut strl, &FOURCC_STRH, strh.as_slice());
    push_chunk(&mut strl, &FOURCC_STRF, strf);
    assert(strl@ =~= stream_list(strf@, n_frames as nat, width, height));
    let avih: Vec<u8> = make_file_header(n_frames, width, height);
    let mut hdrl: Vec<u8> = Vec::new();
    hdrl.extend_from_slice(&FOURCC_HDRL);
    push_chunk(&mut hdrl, &FOURCC_AVIH, avih.as_slice());
    push_list(&mut hdrl, strl.as_slice());
    assert(hdrl@ =~= header_list(strf@, n_frames as nat, width, height));
    hdrl
}

/// The frame list of a file.
fn make_frame_list(frames: &[Vec<u8>]) -> (movi: Vec<u8>)
    ensures
        movi@ == FOURCC_MOVI@ + frame_chunks(frame_seqs(frames@)),
{
    let n: usize = frames.len();
    let ghost all = frame_seqs(frames@);
    let mut movi: Vec<u8> = Vec::new();
    movi.extend_from_slice(&FOURCC_MOVI);
    let mut i: usize = 0;
    assert(movi@ =~= FOURCC_MOVI@ + frame_chunks(all.take(0)));
    while i < n
        invariant
            i <= n,
            n == frames@.len(),
            all == frame_seqs(frames@),
            movi@ == FOURCC_MOVI@ + frame_chunks(all.take(i as int)),
        decreases n - i,
    {
        push_chunk(&mut movi, &FOURCC_00DC, frames[i].as_slice());
        proof {
            let next = all.take(i + 1);
            assert(next.drop_last() =~= all.take(i as int));
            assert(next.last() == frames@[i as int]@);
            assert(movi@ =~= FOURCC_MOVI@ + frame_chunks(next));
        }
        i = i + 1;
    }
    assert(all.take(n as int) =~= all);
    movi
}

/// Wraps a stream header and frames into a file.
pub fn build_minimal_avi(strf: &[u8], frames: &[Vec<u8>], width: u32, height: u32) -> (out: Vec<u8>)
    ensures
        out@ == minimal_avi(strf@, frame_seqs(frames@), width, height),
{
    let ghost all = frame_seqs(frames@);
    let hdrl: Vec<u8> = make_header_list(strf, frames.len(), width, height);
    let movi: Vec<u8> = make_frame_list(frames);
    let mut body: Vec<u8> = Vec::new();
    body.extend_from_slice(&FOURCC_AVI);
    push_list(&mut body, hdrl.as_slice());
    push_list(&mut body, movi.as_slice());
    assert(body@ =~= file_body(strf@, all, width, height));
    let mut out: Vec<u8> = Vec::new();
    out.extend_from_slice(&FOURCC_RIFF);
    push_word(&mut out, body.len() as u32);
    out.extend_from_slice(body.as_slice());
    assert(out@ =~= minimal_avi(strf@, all, width, height));
    out
}

// ---------------------------------------------------------------------------
// Reading back
// ---------------------------------------------------------------------------

/// A chunk is read back from between other bytes.
pub proof fn law_chunk_is_read(before: Seq<u8>, id: Seq<u8>, payload: Seq<u8>, after: Seq<u8>)
    requires
        id.len() == 4,
        payload.len() <= u32::MAX,
    ensures
        chunk_at(before + chunk_bytes(id, payload) + after, before.len() as int) == Some(
            Chunk { id, payload, next: (before.len() + chunk_bytes(id, payload).len()) as int },
        ),
{
    let whole = before + chunk_bytes(id, payload) + after;
    let pos = before.len() as int;
    let size = payload.len() as u32;
    let w = le_bytes(size);
    assert(whole[pos + 4] == w[0] && whole[pos + 5] == w[1] && whole[pos + 6] == w[2] && whole[pos
        + 7] == w[3]);
    lemma_word_bytes(size);
    assert(u32_at(whole, pos + 4) == size);
    assert(whole.subrange(pos, pos + 4) =~= id);
    assert(whole.subrange(pos + 8, pos + 8 + size) =~= payload);
}

/// A frame that was written is found where its chunk starts.
proof fn lemma_frame_found(frames: Seq<Seq<u8>>, i: int)
    requires
        0 <= i < frames.len(),
        frame_chunks(frames).len() <= u32::MAX,
    ensures
        next_frame(frame_chunks(frames), frame_chunks(frames.take(i)).len() as int)
            == Found::Frame(
            Chunk {
                id: FOURCC_00DC@,
                payload: frames[i],
                next: frame_chunks(frames.take(i + 1)).len() as int,
            },
        ),
{
    let data = frame_chunks(frames);
    let before = frame_chunks(frames.take(i));
    let f = frames[i];
    assert(frames.take(i + 1).drop_last() =~= frames.take(i));
    assert(frames.take(i + 1).last() == f);
    lemma_frames_prefix(frames, i + 1);
    let b = frame_chunks(frames.take(i + 1));
    let after = data.subrange(b.len() as int, data.len() as int);
    lemma_front(data, b);
    assert(b == before + chunk_bytes(FOURCC_00DC@, f));
    law_chunk_is_read(before, FOURCC_00DC@, f, after);
}

/// Looking for frames goes from chunk to chunk.
proof fn lemma_place_after(frames: Seq<Seq<u8>>, n: nat)
    requires
        n <= frames.len(),
        frame_chunks(frames).len() <= u32::MAX,
    ensures
        place_after(frame_chunks(frames), n) == frame_chunks(frames.take(n as int)).len(),
    decreases n,
{
    if n > 0 {
        lemma_place_after(frames, (n - 1) as nat);
        lemma_frame_found(frames, n - 1);
    }
}

/// Frames that were written are found in turn, and then the end.
proof fn lemma_frames_in_turn(frames: Seq<Seq<u8>>)
    requires
        frame_chunks(frames).len() <= u32::MAX,
    ensures
        yields_all(frame_chunks(frames), frames),
{
    let m = frame_chunks(frames);
    assert forall|i: nat| i < frames.len() implies #[trigger] yields(m, i, frames[i as int]) by {
        lemma_place_after(frames, i);
        lemma_frame_found(frames, i as int);
    }
    lemma_place_after(frames, frames.len());
    assert(frames.take(frames.len() as int) =~= frames);
}

/// Bytes consist of their front and the rest.
proof fn lemma_front(data: Seq<u8>, front: Seq<u8>)
    requires
        front.len() <= data.len(),
        data.subrange(0, front.len() as int) == front,
    ensures
        data == front + data.subrange(front.len() as int, data.len() as int),
{
    assert(data =~= data.subrange(0, front.len() as int) + data.subrange(
        front.len() as int,
        data.len() as int,
    ));
}

/// The two parts of a sequence are found in it.
proof fn lemma_halves(a: Seq<u8>, b: Seq<u8>)
    ensures
        (a + b).subrange(0, a.len() as int) == a,
        (a + b).subrange(a.len() as int, (a + b).len() as int) == b,
{
    assert((a + b).subrange(0, a.len() as int) =~= a);
    assert((a + b).subrange(a.len() as int, (a + b).len() as int) =~= b);
}

/// Three parts can be joined in either order.
proof fn lemma_regroup(a: Seq<u8>, b: Seq<u8>, c: Seq<u8>)
    ensures
        a + b + c == a + (b + c),
{
    assert(a + b + c =~= a + (b + c));
}

/// The chunks of the first frames come first.
proof fn lemma_frames_prefix(frames: Seq<Seq<u8>>, n: int)
    requires
        0 <= n <= frames.len(),
    ensures
        frame_chunks(frames.take(n)).len() <= frame_chunks(frames).len(),
        frame_chunks(frames).subrange(0, frame_chunks(frames.take(n)).len() as int)
            == frame_chunks(frames.take(n)),
    decreases frames.len() - n,
{
    if n == frames.len() {
        assert(frames.take(n) =~= frames);
        assert(frame_chunks(frames).subrange(0, frame_chunks(frames).len() as int)
            =~= frame_chunks(frames));
    } else {
        lemma_frames_prefix(frames, n + 1);
        let (a, b) = (frame_chunks(frames.take(n)), frame_chunks(frames.take(n + 1)));
        assert(frames.take(n + 1).drop_last() =~= frames.take(n));
        let data = frame_chunks(frames);
        assert(data.subrange(0, a.len() as int) =~= data.subrange(0, b.len() as int).subrange(
            0,
            a.len() as int,
        ));
        assert(b.subrange(0, a.len() as int) =~= a);
    }
}

/// The first video stream of a file is the one that is found: a stream header
/// that was found stays, whatever follows it.
pub proof fn law_first_stream_stays(
    data: Seq<u8>,
    pos: int,
    strf: Seq<u8>,
    movi: Option<Seq<u8>>,
)
    ensures
        scan_riff(data, pos, Some(strf), movi) matches Some((found, _)) ==> found == Some(strf),
    decreases data.len() - pos,
{
    if pos < data.len() {
        if let Some(c) = chunk_at(data, pos) {
            if is_list(c, FOURCC_MOVI) {
                law_first_stream_stays(data, c.next, strf, Some(inside(c)));
            }
            law_first_stream_stays(data, c.next, strf, movi);
        }
    }
}

/// Reading a file that was written gives back the stream header and the frames:
/// one look after another finds each frame in turn, in a chunk named `00dc`, and
/// then the end. The file starts with its name and with the size of what follows.
/// Files of four gigabytes and more are left out: their sizes do not fit.
pub proof fn law_avi_round_trip(strf: Seq<u8>, frames: Seq<Seq<u8>>, width: u32, height: u32)
    requires
        file_body(strf, frames, width, height).len() <= u32::MAX,
    ensures
        minimal_avi(strf, frames, width, height).subrange(0, 4) == FOURCC_RIFF@,
        u32_at(minimal_avi(strf, frames, width, height), 4) == minimal_avi(
            strf,
            frames,
            width,
            height,
        ).len() - 8,
        parse_avi(minimal_avi(strf, frames, width, height)) == Some(
            Some((strf, frame_chunks(frames))),
        ),
        yields_all(frame_chunks(frames), frames),
{
    let hdrl = header_list(strf, frames.len(), width, height);
    assert(hdrl.len() <= u32::MAX && frame_chunks(frames).len() <= u32::MAX);
    assert(parse_avi(minimal_avi(strf, frames, width, height)) == Some(
        Some((strf, frame_chunks(frames))),
    )) by {
        lemma_hdrl_read(strf, frames.len(), width, height);
        lemma_file_read(hdrl, frame_chunks(frames), strf);
    }
    lemma_top_chunk(file_body(strf, frames, width, height));
    lemma_frames_in_turn(frames);
}

/// The stream header and the frames are found in a file.
proof fn lemma_file_read(hdrl: Seq<u8>, m: Seq<u8>, strf: Seq<u8>)
    requires
        ({
            let body = FOURCC_AVI@ + chunk_bytes(FOURCC_LIST@, hdrl) + chunk_bytes(
                FOURCC_LIST@,
                FOURCC_MOVI@ + m,
            );
            body.len() <= u32::MAX
        }),
        hdrl.len() >= 4,
        hdrl.subrange(0, 4) == FOURCC_HDRL@,
        scan_hdrl(hdrl.subrange(4, hdrl.len() as int), 0) == Some(Some(strf)),
    ensures
        ({
            let body = FOURCC_AVI@ + chunk_bytes(FOURCC_LIST@, hdrl) + chunk_bytes(
                FOURCC_LIST@,
                FOURCC_MOVI@ + m,
            );
            parse_avi(FOURCC_RIFF@ + le_bytes(body.len() as u32) + body) == Some(Some((strf, m)))
        }),
{
    let movi = FOURCC_MOVI@ + m;
    let (c1, c2) = (chunk_bytes(FOURCC_LIST@, hdrl), chunk_bytes(FOURCC_LIST@, movi));
    let body = FOURCC_AVI@ + c1 + c2;
    lemma_top_chunk(body);
    lemma_regroup(FOURCC_AVI@, c1, c2);
    lemma_halves(FOURCC_AVI@, c1 + c2);
    lemma_halves(FOURCC_MOVI@, m);
    lemma_lists_read(hdrl, movi, strf);
}

/// The stream header and the frames are found in the two lists of a file.
proof fn lemma_lists_read(hdrl: Seq<u8>, movi: Seq<u8>, strf: Seq<u8>)
    requires
        4 <= hdrl.len() <= u32::MAX,
        4 <= movi.len() <= u32::MAX,
        hdrl.subrange(0, 4) == FOURCC_HDRL@,
        movi.subrange(0, 4) == FOURCC_MOVI@,
        scan_hdrl(hdrl.subrange(4, hdrl.len() as int), 0) == Some(Some(strf)),
    ensures
        scan_riff(
            chunk_bytes(FOURCC_LIST@, hdrl) + chunk_bytes(FOURCC_LIST@, movi),
            0,
            None,
            None,
        ) == Some((Some(strf), Some(movi.subrange(4, movi.len() as int)))),
{
    let e = Seq::<u8>::empty();
    let (c1, c2) = (chunk_bytes(FOURCC_LIST@, hdrl), chunk_bytes(FOURCC_LIST@, movi));
    let inner = c1 + c2;
    let m = movi.subrange(4, movi.len() as int);
    assert(e + c1 + c2 =~= inner);
    law_chunk_is_read(e, FOURCC_LIST@, hdrl, c2);
    assert(c1 + c2 + e =~= inner);
    law_chunk_is_read(c1, FOURCC_LIST@, movi, e);
    lemma_names_differ();
    let found = Some((Some(strf), Some(m)));
    assert(scan_riff(inner, inner.len() as int, Some(strf), Some(m)) == found);
    assert(scan_riff(inner, c1.len() as int, Some(strf), None) == found);
}

/// The stream header is found in the stream list.
proof fn lemma_strl_read(strf: Seq<u8>, n: nat, width: u32, height: u32)
    requires
        strf.len() <= u32::MAX,
    ensures
        scan_strl(
            stream_list(strf, n, width, height).subrange(
                4,
                stream_list(strf, n, width, height).len() as int,
            ),
            0,
            false,
            None,
        ) == Some(Some(strf)),
{
    let e = Seq::<u8>::empty();
    let strh = stream_header(n, width, height);
    let strl = stream_list(strf, n, width, height);
    let parts = strl.subrange(4, strl.len() as int);
    let (b1, b2) = (chunk_bytes(FOURCC_STRH@, strh), chunk_bytes(FOURCC_STRF@, strf));
    assert(e + b1 + b2 =~= parts);
    law_chunk_is_read(e, FOURCC_STRH@, strh, b2);
    assert(b1 + b2 + e =~= parts);
    law_chunk_is_read(b1, FOURCC_STRF@, strf, e);
    assert(strh.subrange(0, 4) =~= STREAM_TYPE_VIDS@);
    lemma_stream_names_differ();
    assert(scan_strl(parts, parts.len() as int, true, Some(strf)) == Some(Some(strf)));
    assert(scan_strl(parts, b1.len() as int, true, None) == Some(Some(strf)));
}

/// The stream header is found in the header list.
#[verifier::rlimit(30)]
proof fn lemma_hdrl_read(strf: Seq<u8>, n: nat, width: u32, height: u32)
    requires
        header_list(strf, n, width, height).len() <= u32::MAX,
    ensures
        header_list(strf, n, width, height).len() >= 4,
        header_list(strf, n, width, height).subrange(0, 4) == FOURCC_HDRL@,
        scan_hdrl(
            header_list(strf, n, width, height).subrange(
                4,
                header_list(strf, n, width, height).len() as int,
            ),
            0,
        ) == Some(Some(strf)),
{
    let e = Seq::<u8>::empty();
    let strl = stream_list(strf, n, width, height);
    let hdrl = header_list(strf, n, width, height);
    let avih = file_header(n, width, height);
    assert(hdrl.subrange(0, 4) =~= FOURCC_HDRL@);
    let heads = hdrl.subrange(4, hdrl.len() as int);
    let (a1, a2) = (chunk_bytes(FOURCC_AVIH@, avih), chunk_bytes(FOURCC_LIST@, strl));
    assert(e + a1 + a2 =~= heads);
    law_chunk_is_read(e, FOURCC_AVIH@, avih, a2);
    assert(a1 + a2 + e =~= heads);
    law_chunk_is_read(a1, FOURCC_LIST@, strl, e);
    assert(FOURCC_AVIH@[0] == 0x61 && FOURCC_LIST@[0] == 0x4C);
    assert(strl.subrange(0, 4) =~= FOURCC_STRL@);
    lemma_strl_read(strf, n, width, height);
    assert(scan_hdrl(heads, a1.len() as int) == Some(Some(strf)));
}

/// The outermost chunk, which nothing follows, needs no padding.
pub proof fn lemma_top_chunk(body: Seq<u8>)
    requires
        body.len() <= u32::MAX,
    ensures
        chunk_at(FOURCC_RIFF@ + le_bytes(body.len() as u32) + body, 0) == Some(
            Chunk { id: FOURCC_RIFF@, payload: body, next: 8 + body.len() as int },
        ),
        u32_at(FOURCC_RIFF@ + le_bytes(body.len() as u32) + body, 4) == body.len(),
        (FOURCC_RIFF@ + le_bytes(body.len() as u32) + body).len() == body.len() + 8,
        (FOURCC_RIFF@ + le_bytes(body.len() as u32) + body).subrange(0, 4) == FOURCC_RIFF@,
{
    let file = FOURCC_RIFF@ + le_bytes(body.len() as u32) + body;
    let size = body.len() as u32;
    let w = le_bytes(size);
    assert(file[4] == w[0] && file[5] == w[1] && file[6] == w[2] && file[7] == w[3]);
    lemma_word_bytes(size);
    assert(u32_at(file, 4) == size);
    assert(file.subrange(0, 4) =~= FOURCC_RIFF@);
    assert(file.subrange(8, 8 + size) =~= body);
}

} // verus!
