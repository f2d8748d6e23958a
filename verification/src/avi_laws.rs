//! What reading a file finds among its chunks.

use vstd::prelude::*;

use crate::avi::{
    chunk_at, chunk_bytes, file_body, file_header, frame_chunks, inside, law_chunk_is_read,
    le_half, minimal_avi, next_frame, parse_avi, place_after, scan_hdrl, scan_riff, scan_strl,
    stream_header, Chunk, Found, FOURCC_00DC, FOURCC_AVI, FOURCC_AVIH, FOURCC_HDRL, FOURCC_LIST,
    FOURCC_MOVI, FOURCC_RIFF, FOURCC_STRF, FOURCC_STRH, FOURCC_STRL, STREAM_TYPE_VIDS,
};
use crate::header_laws::{lemma_number_at, lemma_number_bytes, number_at};
use crate::strf::le_bytes;

verus! {

/// A chunk's name and payload.
pub type Part = (Seq<u8>, Seq<u8>);

/// Chunks, one after another.
pub open spec fn parts_bytes(parts: Seq<Part>) -> Seq<u8>
    decreases parts.len(),
{
    if parts.len() == 0 {
        Seq::empty()
    } else {
        chunk_bytes(parts[0].0, parts[0].1) + parts_bytes(parts.drop_first())
    }
}

/// Names have four bytes, and sizes fit.
pub open spec fn are_parts(parts: Seq<Part>) -> bool {
    forall|i: int|
        0 <= i < parts.len() ==> (#[trigger] parts[i]).0.len() == 4 && parts[i].1.len() <= u32::MAX
}

/// A file with the given chunks.
pub open spec fn file_with(body: Seq<u8>) -> Seq<u8> {
    FOURCC_RIFF@ + le_bytes((4 + body.len()) as u32) + (FOURCC_AVI@ + body)
}

/// What a function finds in the first chunk in which it finds something.
pub open spec fn is_first(
    parts: Seq<Part>,
    find: spec_fn(Part) -> Option<Seq<u8>>,
    found: Option<Seq<u8>>,
) -> bool {
    match found {
        Some(x) => exists|i: int|
            0 <= i < parts.len() && find(#[trigger] parts[i]) == Some(x) && forall|k: int|
                0 <= k < i ==> find(#[trigger] parts[k]) is None,
        None => forall|k: int| 0 <= k < parts.len() ==> find(#[trigger] parts[k]) is None,
    }
}

/// What a function finds in the last chunk in which it finds something.
pub open spec fn is_last(
    parts: Seq<Part>,
    find: spec_fn(Part) -> Option<Seq<u8>>,
    found: Option<Seq<u8>>,
) -> bool {
    match found {
        Some(x) => exists|i: int|
            0 <= i < parts.len() && find(#[trigger] parts[i]) == Some(x) && forall|k: int|
                i < k < parts.len() ==> find(#[trigger] parts[k]) is None,
        None => forall|k: int| 0 <= k < parts.len() ==> find(#[trigger] parts[k]) is None,
    }
}

/// The first find is in the first chunk, or the first find of the others.
proof fn lemma_first_cons(
    parts: Seq<Part>,
    find: spec_fn(Part) -> Option<Seq<u8>>,
    found: Option<Seq<u8>>,
)
    requires
        parts.len() > 0,
        is_first(parts.drop_first(), find, found),
    ensures
        find(parts[0]) is Some ==> is_first(parts, find, find(parts[0])),
        find(parts[0]) is None ==> is_first(parts, find, found),
{
    let tail = parts.drop_first();
    if find(parts[0]) is None {
        match found {
            Some(x) => {
                let i = choose|i: int|
                    0 <= i < tail.len() && find(#[trigger] tail[i]) == Some(x) && forall|k: int|
                        0 <= k < i ==> find(#[trigger] tail[k]) is None;
                assert(find(parts[i + 1]) == Some(x));
                assert forall|k: int| 0 <= k < i + 1 implies find(#[trigger] parts[k]) is None by {
                    if k > 0 {
                        assert(parts[k] == tail[k - 1]);
                    }
                }
            },
            None => {
                assert forall|k: int| 0 <= k < parts.len() implies find(
                    #[trigger] parts[k],
                ) is None by {
                    if k > 0 {
                        assert(parts[k] == tail[k - 1]);
                    }
                }
            },
        }
    }
}

/// The last find is that of the chunks behind the first, or in the first.
proof fn lemma_last_cons(
    parts: Seq<Part>,
    find: spec_fn(Part) -> Option<Seq<u8>>,
    found: Option<Seq<u8>>,
)
    requires
        parts.len() > 0,
        is_last(parts.drop_first(), find, found),
    ensures
        found is Some ==> is_last(parts, find, found),
        found is None ==> is_last(parts, find, find(parts[0])),
{
    let tail = parts.drop_first();
    match found {
        Some(x) => {
            let i = choose|i: int|
                0 <= i < tail.len() && find(#[trigger] tail[i]) == Some(x) && forall|k: int|
                    i < k < tail.len() ==> find(#[trigger] tail[k]) is None;
            assert(find(parts[i + 1]) == Some(x));
            assert forall|k: int| i + 1 < k < parts.len() implies find(
                #[trigger] parts[k],
            ) is None by {
                assert(parts[k] == tail[k - 1]);
            }
        },
        None => {
            assert forall|k: int| 0 < k < parts.len() implies find(#[trigger] parts[k]) is None by {
                assert(parts[k] == tail[k - 1]);
            }
        },
    }
}

/// The first of several chunks is read, and the others follow it.
proof fn lemma_part_is_read(pre: Seq<u8>, parts: Seq<Part>, rest: Seq<u8>)
    requires
        parts.len() > 0,
        are_parts(parts),
    ensures
        ({
            let c = chunk_bytes(parts[0].0, parts[0].1);
            let data = pre + (parts_bytes(parts) + rest);
            &&& chunk_at(data, pre.len() as int) == Some(
                Chunk {
                    id: parts[0].0,
                    payload: parts[0].1,
                    next: (pre + c).len() as int,
                },
            )
            &&& data == (pre + c) + (parts_bytes(parts.drop_first()) + rest)
            &&& pre.len() < (pre + c).len() <= data.len()
            &&& are_parts(parts.drop_first())
        }),
{
    let c = chunk_bytes(parts[0].0, parts[0].1);
    let tail = parts.drop_first();
    let after = parts_bytes(tail) + rest;
    let data = pre + (parts_bytes(parts) + rest);
    assert(parts[0].0.len() == 4);
    law_chunk_is_read(pre, parts[0].0, parts[0].1, after);
    assert(data =~= pre + c + after);
    assert forall|i: int| 0 <= i < tail.len() implies (#[trigger] tail[i]).0.len() == 4
        && tail[i].1.len() <= u32::MAX by {
        assert(tail[i] == parts[i + 1]);
    }
}

// ---------------------------------------------------------------------------
// Stream lists
// ---------------------------------------------------------------------------

/// The stream header that a chunk of a stream list is.
pub open spec fn format_in(part: Part) -> Option<Seq<u8>> {
    if part.0 == FOURCC_STRF@ {
        Some(part.1)
    } else {
        None
    }
}

/// The chunk says that its stream is a video stream.
pub open spec fn says_video(part: Part) -> bool {
    part.0 == FOURCC_STRH@ && part.1.len() >= 4 && part.1.subrange(0, 4) == STREAM_TYPE_VIDS@
}

proof fn lemma_strl(pre: Seq<u8>, parts: Seq<Part>, video: bool, strf: Option<Seq<u8>>) -> (found:
    Option<Seq<u8>>)
    requires
        are_parts(parts),
    ensures
        is_last(parts, |q: Part| format_in(q), found),
        ({
            let is_video = video || exists|i: int|
                0 <= i < parts.len() && says_video(#[trigger] parts[i]);
            scan_strl(pre + parts_bytes(parts), pre.len() as int, video, strf) == Some(
                if !is_video {
                    None
                } else if found is Some {
                    found
                } else {
                    strf
                },
            )
        }),
    decreases parts.len(),
{
    let e = Seq::<u8>::empty();
    let find = |q: Part| format_in(q);
    if parts.len() == 0 {
        assert(pre + parts_bytes(parts) =~= pre);
        None
    } else {
        lemma_part_is_read(pre, parts, e);
        assert(parts_bytes(parts) + e =~= parts_bytes(parts));
        let tail = parts.drop_first();
        assert(parts_bytes(tail) + e =~= parts_bytes(tail));
        let c = chunk_bytes(parts[0].0, parts[0].1);
        let more = video || says_video(parts[0]);
        let now = if parts[0].0 == FOURCC_STRF@ {
            Some(parts[0].1)
        } else {
            strf
        };
        let found = lemma_strl(pre + c, tail, more, now);
        lemma_last_cons(parts, find, found);
        let (all, others) = (
            exists|i: int| 0 <= i < parts.len() && says_video(#[trigger] parts[i]),
            exists|i: int| 0 <= i < tail.len() && says_video(#[trigger] tail[i]),
        );
        assert(all == (says_video(parts[0]) || others)) by {
            if others {
                let i = choose|i: int| 0 <= i < tail.len() && says_video(#[trigger] tail[i]);
                assert(says_video(parts[i + 1]));
            }
            if all && !says_video(parts[0]) {
                let i = choose|i: int| 0 <= i < parts.len() && says_video(#[trigger] parts[i]);
                assert(says_video(tail[i - 1]));
            }
        }
        if found is Some {
            found
        } else {
            find(parts[0])
        }
    }
}

/// A stream list whose chunks can be read gives a stream header exactly where one
/// of its chunks says that the stream is a video stream and one holds a stream
/// header; the last one counts. Other chunks, and their order, do not matter.
pub proof fn law_stream_list(parts: Seq<Part>) -> (found: Option<Seq<u8>>)
    requires
        are_parts(parts),
    ensures
        is_last(parts, |q: Part| format_in(q), found),
        scan_strl(parts_bytes(parts), 0, false, None) == Some(
            if exists|i: int| 0 <= i < parts.len() && says_video(#[trigger] parts[i]) {
                found
            } else {
                None
            },
        ),
{
    let e = Seq::<u8>::empty();
    let found = lemma_strl(e, parts, false, None);
    assert(e + parts_bytes(parts) =~= parts_bytes(parts));
    found
}

// ---------------------------------------------------------------------------
// Header lists
// ---------------------------------------------------------------------------

/// The chunk is a list with the given second name.
pub open spec fn is_list_of(part: Part, name: Seq<u8>) -> bool {
    part.0 == FOURCC_LIST@ && part.1.len() >= 4 && part.1.subrange(0, 4) == name
}

/// What a list holds behind its second name.
pub open spec fn held(part: Part) -> Seq<u8> {
    part.1.subrange(4, part.1.len() as int)
}

/// The stream header of the video stream that a chunk of a header list describes.
pub open spec fn stream_in(part: Part) -> Option<Seq<u8>> {
    if is_list_of(part, FOURCC_STRL@) {
        match scan_strl(held(part), 0, false, None) {
            Some(found) => found,
            None => None,
        }
    } else {
        None
    }
}

/// The stream lists among some chunks can be read.
pub open spec fn streams_readable(parts: Seq<Part>) -> bool {
    forall|i: int|
        0 <= i < parts.len() && is_list_of(#[trigger] parts[i], FOURCC_STRL@) ==> scan_strl(
            held(parts[i]),
            0,
            false,
            None,
        ) is Some
}

proof fn lemma_hdrl(pre: Seq<u8>, parts: Seq<Part>) -> (found: Option<Seq<u8>>)
    requires
        are_parts(parts),
        streams_readable(parts),
    ensures
        is_first(parts, |q: Part| stream_in(q), found),
        scan_hdrl(pre + parts_bytes(parts), pre.len() as int) == Some(found),
    decreases parts.len(),
{
    let e = Seq::<u8>::empty();
    let find = |q: Part| stream_in(q);
    if parts.len() == 0 {
        assert(pre + parts_bytes(parts) =~= pre);
        None
    } else {
        lemma_part_is_read(pre, parts, e);
        assert(parts_bytes(parts) + e =~= parts_bytes(parts));
        let tail = parts.drop_first();
        assert(parts_bytes(tail) + e =~= parts_bytes(tail));
        let c = chunk_bytes(parts[0].0, parts[0].1);
        assert(streams_readable(tail)) by {
            assert forall|i: int|
                0 <= i < tail.len() && is_list_of(#[trigger] tail[i], FOURCC_STRL@) implies scan_strl(
                held(tail[i]),
                0,
                false,
                None,
            ) is Some by {
                assert(tail[i] == parts[i + 1]);
            }
        }
        assert(is_list_of(parts[0], FOURCC_STRL@) ==> scan_strl(
            held(parts[0]),
            0,
            false,
            None,
        ) is Some);
        let found = lemma_hdrl(pre + c, tail);
        lemma_first_cons(parts, find, found);
        if find(parts[0]) is Some {
            find(parts[0])
        } else {
            found
        }
    }
}

/// A header list whose stream lists can be read gives the stream header of the
/// first video stream in it. Other streams and other chunks do not matter.
pub proof fn law_header_list(parts: Seq<Part>) -> (found: Option<Seq<u8>>)
    requires
        are_parts(parts),
        streams_readable(parts),
    ensures
        is_first(parts, |q: Part| stream_in(q), found),
        scan_hdrl(parts_bytes(parts), 0) == Some(found),
{
    let e = Seq::<u8>::empty();
    let found = lemma_hdrl(e, parts);
    assert(e + parts_bytes(parts) =~= parts_bytes(parts));
    found
}

// ---------------------------------------------------------------------------
// Files
// ---------------------------------------------------------------------------

/// The stream header that a chunk of a file leads to.
pub open spec fn header_in(part: Part) -> Option<Seq<u8>> {
    if is_list_of(part, FOURCC_HDRL@) {
        match scan_hdrl(held(part), 0) {
            Some(found) => found,
            None => None,
        }
    } else {
        None
    }
}

/// The frames that a chunk of a file holds.
pub open spec fn frames_in(part: Part) -> Option<Seq<u8>> {
    if is_list_of(part, FOURCC_MOVI@) {
        Some(held(part))
    } else {
        None
    }
}

/// The lists among some chunks have a second name, and header lists can be read.
pub open spec fn lists_readable(parts: Seq<Part>) -> bool {
    &&& forall|i: int|
        0 <= i < parts.len() && (#[trigger] parts[i]).0 == FOURCC_LIST@ ==> parts[i].1.len() >= 4
    &&& forall|i: int|
        0 <= i < parts.len() && is_list_of(#[trigger] parts[i], FOURCC_HDRL@) ==> scan_hdrl(
            held(parts[i]),
            0,
        ) is Some
}

/// The chunks behind the first can be read too.
proof fn lemma_lists_readable_tail(parts: Seq<Part>)
    requires
        parts.len() > 0,
        lists_readable(parts),
    ensures
        lists_readable(parts.drop_first()),
{
    let tail = parts.drop_first();
    assert forall|i: int|
        0 <= i < tail.len() && (#[trigger] tail[i]).0 == FOURCC_LIST@ implies tail[i].1.len()
        >= 4 by {
        assert(tail[i] == parts[i + 1]);
    }
    assert forall|i: int|
        0 <= i < tail.len() && is_list_of(#[trigger] tail[i], FOURCC_HDRL@) implies scan_hdrl(
        held(tail[i]),
        0,
    ) is Some by {
        assert(tail[i] == parts[i + 1]);
    }
}

/// A list has one second name.
proof fn lemma_second_names_differ()
    ensures
        FOURCC_HDRL@ != FOURCC_MOVI@,
{
    assert(FOURCC_HDRL@[0] == 0x68);
    assert(FOURCC_MOVI@[0] == 0x6D);
}

proof fn lemma_riff(
    pre: Seq<u8>,
    parts: Seq<Part>,
    strf: Option<Seq<u8>>,
    movi: Option<Seq<u8>>,
) -> (found: (Option<Seq<u8>>, Option<Seq<u8>>))
    requires
        are_parts(parts),
        lists_readable(parts),
    ensures
        is_first(parts, |q: Part| header_in(q), found.0),
        is_last(parts, |q: Part| frames_in(q), found.1),
        scan_riff(pre + parts_bytes(parts), pre.len() as int, strf, movi) == Some(
            (
                if strf is Some {
                    strf
                } else {
                    found.0
                },
                if found.1 is Some {
                    found.1
                } else {
                    movi
                },
            ),
        ),
    decreases parts.len(),
{
    let e = Seq::<u8>::empty();
    let (first, last) = (|q: Part| header_in(q), |q: Part| frames_in(q));
    if parts.len() == 0 {
        assert(pre + parts_bytes(parts) =~= pre);
        (None, None)
    } else {
        lemma_part_is_read(pre, parts, e);
        assert(parts_bytes(parts) + e =~= parts_bytes(parts));
        let tail = parts.drop_first();
        assert(parts_bytes(tail) + e =~= parts_bytes(tail));
        lemma_lists_readable_tail(parts);
        lemma_second_names_differ();
        let c = chunk_bytes(parts[0].0, parts[0].1);
        assert(parts[0].0 == FOURCC_LIST@ ==> parts[0].1.len() >= 4);
        assert(is_list_of(parts[0], FOURCC_HDRL@) ==> scan_hdrl(held(parts[0]), 0) is Some);
        let s = if strf is Some {
            strf
        } else {
            header_in(parts[0])
        };
        let m = if frames_in(parts[0]) is Some {
            frames_in(parts[0])
        } else {
            movi
        };
        let found = lemma_riff(pre + c, tail, s, m);
        lemma_first_cons(parts, first, found.0);
        lemma_last_cons(parts, last, found.1);
        (
            if first(parts[0]) is Some {
                first(parts[0])
            } else {
                found.0
            },
            if found.1 is Some {
                found.1
            } else {
                last(parts[0])
            },
        )
    }
}

/// The outermost chunk of a file holds its chunks.
proof fn lemma_file_opens(body: Seq<u8>)
    requires
        4 + body.len() <= u32::MAX,
    ensures
        chunk_at(file_with(body), 0) matches Some(top) && top.id == FOURCC_RIFF@
            && top.payload.len() >= 4 && top.payload.subrange(0, 4) == FOURCC_AVI@ && inside(top)
            == body,
{
    let whole = FOURCC_AVI@ + body;
    crate::avi::lemma_top_chunk(whole);
    assert(whole.subrange(0, 4) =~= FOURCC_AVI@);
    assert(whole.subrange(4, whole.len() as int) =~= body);
}

/// Reading a file finds the stream header that the first header list with a video
/// stream gives, and the frames of the last list of frames; both have to be there.
/// All other chunks are passed over, whatever they are and wherever they stand.
pub proof fn law_file_lists(parts: Seq<Part>) -> (found: (Option<Seq<u8>>, Option<Seq<u8>>))
    requires
        are_parts(parts),
        lists_readable(parts),
        4 + parts_bytes(parts).len() <= u32::MAX,
    ensures
        is_first(parts, |q: Part| header_in(q), found.0),
        is_last(parts, |q: Part| frames_in(q), found.1),
        parse_avi(file_with(parts_bytes(parts))) == Some(
            match found {
                (Some(strf), Some(movi)) => Some((strf, movi)),
                _ => None,
            },
        ),
{
    let e = Seq::<u8>::empty();
    let body = parts_bytes(parts);
    lemma_file_opens(body);
    let found = lemma_riff(e, parts, None, None);
    assert(e + body =~= body);
    found
}

/// What is known after a chunk; none where it cannot be read.
spec fn known_after(
    part: Part,
    strf: Option<Seq<u8>>,
    movi: Option<Seq<u8>>,
) -> Option<(Option<Seq<u8>>, Option<Seq<u8>>)> {
    if part.0 == FOURCC_LIST@ && part.1.len() < 4 {
        None
    } else if is_list_of(part, FOURCC_HDRL@) && scan_hdrl(held(part), 0) is None {
        None
    } else {
        Some(
            (
                if strf is Some {
                    strf
                } else {
                    header_in(part)
                },
                if frames_in(part) is Some {
                    frames_in(part)
                } else {
                    movi
                },
            ),
        )
    }
}

/// Reading goes on behind a chunk with what is known after it.
proof fn lemma_riff_step(
    data: Seq<u8>,
    pos: int,
    c: Chunk,
    strf: Option<Seq<u8>>,
    movi: Option<Seq<u8>>,
)
    requires
        pos < data.len(),
        chunk_at(data, pos) == Some(c),
    ensures
        scan_riff(data, pos, strf, movi) == (match known_after((c.id, c.payload), strf, movi) {
            None => None,
            Some((s, m)) => scan_riff(data, c.next, s, m),
        }),
{
    lemma_second_names_differ();
    let part = (c.id, c.payload);
    assert(inside(c) == held(part));
    assert(crate::avi::is_list(c, FOURCC_HDRL) == is_list_of(part, FOURCC_HDRL@));
    assert(crate::avi::is_list(c, FOURCC_MOVI) == is_list_of(part, FOURCC_MOVI@));
}

/// Only what follows a place decides what is found from there on.
proof fn lemma_riff_suffix(
    x: Seq<u8>,
    y: Seq<u8>,
    rest: Seq<u8>,
    k: int,
    strf: Option<Seq<u8>>,
    movi: Option<Seq<u8>>,
)
    requires
        0 <= k <= rest.len(),
    ensures
        scan_riff(x + rest, x.len() + k, strf, movi) == scan_riff(
            y + rest,
            y.len() + k,
            strf,
            movi,
        ),
    decreases rest.len() - k,
{
    if k < rest.len() {
        let (a, b) = (x + rest, y + rest);
        lemma_chunk_suffix(x, y, rest, k);
        if let Some(c) = chunk_at(a, x.len() + k) {
            let d = chunk_at(b, y.len() + k).unwrap();
            lemma_riff_step(a, x.len() + k, c, strf, movi);
            lemma_riff_step(b, y.len() + k, d, strf, movi);
            if let Some((s, m)) = known_after((c.id, c.payload), strf, movi) {
                lemma_riff_suffix(x, y, rest, c.next - x.len(), s, m);
            }
        }
    }
}

/// A chunk does not depend on what stands before it.
proof fn lemma_chunk_suffix(x: Seq<u8>, y: Seq<u8>, rest: Seq<u8>, k: int)
    requires
        0 <= k < rest.len(),
    ensures
        match (chunk_at(x + rest, x.len() + k), chunk_at(y + rest, y.len() + k)) {
            (Some(c), Some(d)) => {
                &&& c.id == d.id
                &&& c.payload == d.payload
                &&& c.next - x.len() == d.next - y.len()
                &&& k < c.next - x.len() <= rest.len()
            },
            (None, None) => true,
            _ => false,
        },
{
    let (a, b) = (x + rest, y + rest);
    let (i, j) = (x.len() + k, y.len() + k);
    if k + 8 <= rest.len() {
        assert(a[i + 4] == b[j + 4] && a[i + 5] == b[j + 5] && a[i + 6] == b[j + 6] && a[i + 7]
            == b[j + 7]);
        let size = crate::header::u32_at(a, i + 4) as int;
        if k + 8 + size <= rest.len() {
            assert(a.subrange(i, i + 4) =~= b.subrange(j, j + 4));
            assert(a.subrange(i + 8, i + 8 + size) =~= b.subrange(j + 8, j + 8 + size));
        }
    }
}

proof fn lemma_riff_insert(
    x: Seq<u8>,
    y: Seq<u8>,
    parts: Seq<Part>,
    part: Part,
    rest: Seq<u8>,
    strf: Option<Seq<u8>>,
    movi: Option<Seq<u8>>,
)
    requires
        are_parts(parts),
        part.0.len() == 4,
        part.1.len() <= u32::MAX,
        part.0 != FOURCC_LIST@,
    ensures
        scan_riff(
            x + (parts_bytes(parts) + (chunk_bytes(part.0, part.1) + rest)),
            x.len() as int,
            strf,
            movi,
        ) == scan_riff(y + (parts_bytes(parts) + rest), y.len() as int, strf, movi),
    decreases parts.len(),
{
    let own = chunk_bytes(part.0, part.1);
    let a = x + (parts_bytes(parts) + (own + rest));
    let b = y + (parts_bytes(parts) + rest);
    if parts.len() == 0 {
        law_chunk_is_read(x, part.0, part.1, rest);
        assert(a =~= x + own + rest);
        assert(b =~= y + rest);
        let c = chunk_at(a, x.len() as int).unwrap();
        lemma_riff_step(a, x.len() as int, c, strf, movi);
        lemma_riff_suffix(x + own, y, rest, 0, strf, movi);
    } else {
        lemma_part_is_read(x, parts, own + rest);
        lemma_part_is_read(y, parts, rest);
        let first = chunk_bytes(parts[0].0, parts[0].1);
        let c = chunk_at(a, x.len() as int).unwrap();
        let d = chunk_at(b, y.len() as int).unwrap();
        lemma_riff_step(a, x.len() as int, c, strf, movi);
        lemma_riff_step(b, y.len() as int, d, strf, movi);
        if let Some((s, m)) = known_after(parts[0], strf, movi) {
            lemma_riff_insert(x + first, y + first, parts.drop_first(), part, rest, s, m);
        }
    }
}

/// A chunk that is no list, such as padding or an index, changes nothing: with it
/// or without it, before, between or behind other chunks, reading the file gives
/// the same result.
pub proof fn law_other_chunks_do_not_count(parts: Seq<Part>, part: Part, rest: Seq<u8>)
    requires
        are_parts(parts),
        part.0.len() == 4,
        part.1.len() <= u32::MAX,
        part.0 != FOURCC_LIST@,
        4 + parts_bytes(parts).len() + chunk_bytes(part.0, part.1).len() + rest.len() <= u32::MAX,
    ensures
        parse_avi(
            file_with(parts_bytes(parts) + (chunk_bytes(part.0, part.1) + rest)),
        ) == parse_avi(file_with(parts_bytes(parts) + rest)),
{
    let e = Seq::<u8>::empty();
    let own = chunk_bytes(part.0, part.1);
    let (a, b) = (parts_bytes(parts) + (own + rest), parts_bytes(parts) + rest);
    lemma_file_opens(a);
    lemma_file_opens(b);
    lemma_riff_insert(e, e, parts, part, rest, None, None);
    assert(e + a =~= a && e + b =~= b);
}

// ---------------------------------------------------------------------------
// Frames
// ---------------------------------------------------------------------------

/// The chunk is a video frame: its name ends in `dc` or in `db`.
pub open spec fn is_frame_part(part: Part) -> bool {
    part.0[2] == 0x64 && (part.0[3] == 0x63 || part.0[3] == 0x62)
}

/// The video frames among some chunks, in order.
pub open spec fn frame_parts(parts: Seq<Part>) -> Seq<Part>
    decreases parts.len(),
{
    if parts.len() == 0 {
        Seq::empty()
    } else if is_frame_part(parts[0]) {
        seq![parts[0]] + frame_parts(parts.drop_first())
    } else {
        frame_parts(parts.drop_first())
    }
}

/// Looking for a frame finds the next chunk whose name ends in `dc` or in `db`.
pub proof fn law_next_frame(pre: Seq<u8>, part: Part, rest: Seq<u8>)
    requires
        part.0.len() == 4,
        part.1.len() <= u32::MAX,
    ensures
        ({
            let c = chunk_bytes(part.0, part.1);
            let data = pre + c + rest;
            next_frame(data, pre.len() as int) == (if part.0[2] == 0x64 && (part.0[3] == 0x63
                || part.0[3] == 0x62) {
                Found::Frame(
                    Chunk { id: part.0, payload: part.1, next: (pre + c).len() as int },
                )
            } else {
                next_frame(data, (pre + c).len() as int)
            })
        }),
{
    law_chunk_is_read(pre, part.0, part.1, rest);
}

/// Where a look for a frame stops.
spec fn stop_of(data: Seq<u8>, pos: int) -> int {
    match next_frame(data, pos) {
        Found::Frame(c) => c.next,
        Found::End => data.len() as int,
        Found::Broken(stop) => stop,
    }
}

/// Where the `n`-th look for a frame starts, the first one being at `pos`.
spec fn place_from(data: Seq<u8>, pos: int, n: nat) -> int
    decreases n,
{
    if n == 0 {
        pos
    } else {
        place_from(data, stop_of(data, pos), (n - 1) as nat)
    }
}

proof fn lemma_place_from(data: Seq<u8>, pos: int, n: nat)
    ensures
        place_from(data, pos, n + 1) == stop_of(data, place_from(data, pos, n)),
    decreases n,
{
    reveal_with_fuel(place_from, 2);
    if n > 0 {
        lemma_place_from(data, stop_of(data, pos), (n - 1) as nat);
    }
}

proof fn lemma_place_after(data: Seq<u8>, n: nat)
    ensures
        place_after(data, n) == place_from(data, 0, n),
    decreases n,
{
    if n > 0 {
        lemma_place_after(data, (n - 1) as nat);
        lemma_place_from(data, 0, (n - 1) as nat);
    }
}

/// What look `i` for a frame finds among the given frames.
pub open spec fn finds(found: Found, frames: Seq<Part>, i: nat) -> bool {
    if i < frames.len() {
        found matches Found::Frame(c) && c.id == frames[i as int].0 && c.payload
            == frames[i as int].1
    } else {
        found is End
    }
}

proof fn lemma_walk(pre: Seq<u8>, parts: Seq<Part>, i: nat)
    requires
        are_parts(parts),
        i <= frame_parts(parts).len(),
    ensures
        finds(
            next_frame(
                pre + parts_bytes(parts),
                place_from(pre + parts_bytes(parts), pre.len() as int, i),
            ),
            frame_parts(parts),
            i,
        ),
    decreases parts.len(),
{
    let e = Seq::<u8>::empty();
    let data = pre + parts_bytes(parts);
    if parts.len() == 0 {
        assert(data =~= pre);
    } else {
        lemma_part_is_read(pre, parts, e);
        assert(parts_bytes(parts) + e =~= parts_bytes(parts));
        let tail = parts.drop_first();
        assert(parts_bytes(tail) + e =~= parts_bytes(tail));
        let c = chunk_bytes(parts[0].0, parts[0].1);
        let next = (pre + c).len() as int;
        assert(data == (pre + c) + parts_bytes(tail));
        if is_frame_part(parts[0]) {
            if i > 0 {
                lemma_walk(pre + c, tail, (i - 1) as nat);
                assert(frame_parts(parts)[i as int] == frame_parts(tail)[i - 1] || i
                    == frame_parts(parts).len());
            }
        } else {
            lemma_walk(pre + c, tail, i);
            assert(next_frame(data, pre.len() as int) == next_frame(data, next));
            assert(stop_of(data, pre.len() as int) == stop_of(data, next));
        }
    }
}

/// Going through a list of frames finds the chunks whose names end in `dc` or in
/// `db`, each once, in their order, and then the end. Other chunks, such as sound,
/// are passed over.
pub proof fn law_frames_in_order(parts: Seq<Part>, i: nat)
    requires
        are_parts(parts),
        i <= frame_parts(parts).len(),
    ensures
        finds(
            next_frame(parts_bytes(parts), place_after(parts_bytes(parts), i)),
            frame_parts(parts),
            i,
        ),
{
    let e = Seq::<u8>::empty();
    lemma_walk(e, parts, i);
    assert(e + parts_bytes(parts) =~= parts_bytes(parts));
    lemma_place_after(parts_bytes(parts), i);
}

/// A chunk is four bytes of name, four bytes of size, and as many bytes as the
/// size says; a padding byte that makes the size even is passed over where it is
/// there. A chunk that is cut off is none.
pub proof fn law_chunk_extent(data: Seq<u8>, pos: int)
    requires
        0 <= pos,
    ensures
        match chunk_at(data, pos) {
            Some(c) => {
                let end = pos + 8 + number_at(data, pos + 4);
                &&& end <= data.len()
                &&& c.id == data.subrange(pos, pos + 4)
                &&& c.payload == data.subrange(pos + 8, end)
                &&& c.next == (if (end - pos) % 2 == 1 && end < data.len() {
                    end + 1
                } else {
                    end
                })
            },
            None => pos + 8 > data.len() || pos + 8 + number_at(data, pos + 4) > data.len(),
        },
{
    lemma_number_at(data, pos + 4);
}

/// A look for a frame that meets a broken chunk stops behind its name and its
/// size, as far as they are there, and not before them where not even the name is
/// there.
pub proof fn law_broken_chunk(data: Seq<u8>, pos: int)
    requires
        0 <= pos < data.len(),
        chunk_at(data, pos) is None,
    ensures
        next_frame(data, pos) == Found::Broken(
            if pos + 8 <= data.len() {
                pos + 8
            } else if pos + 4 <= data.len() {
                pos + 4
            } else {
                pos
            },
        ),
{
}

/// The fields of the two headers that are written: thirty frames a second, no
/// flag but that of an index, one video stream of this codec with best quality,
/// the number of frames, and the size of the picture. All other fields are zero.
#[verifier::rlimit(30)]
pub proof fn law_written_headers(n: nat, width: u32, height: u32)
    requires
        n <= u32::MAX,
    ensures
        ({
            let s = stream_header(n, width, height);
            &&& s.len() == 56
            &&& s[0] == 0x76 && s[1] == 0x69 && s[2] == 0x64 && s[3] == 0x73
            &&& s[4] == 0x48 && s[5] == 0x46 && s[6] == 0x59 && s[7] == 0x55
            &&& number_at(s, 20) == 1
            &&& number_at(s, 24) == 30
            &&& number_at(s, 32) == n
            &&& number_at(s, 40) == 0xFFFF_FFFF
            &&& s[52] + 256 * s[53] == width % 65536
            &&& s[54] + 256 * s[55] == height % 65536
            &&& number_at(s, 8) == 0 && number_at(s, 12) == 0 && number_at(s, 16) == 0
            &&& number_at(s, 28) == 0 && number_at(s, 36) == 0
            &&& number_at(s, 44) == 0 && number_at(s, 48) == 0
        }),
        ({
            let f = file_header(n, width, height);
            &&& f.len() == 56
            &&& number_at(f, 0) == 33333
            &&& number_at(f, 12) == 16
            &&& number_at(f, 16) == n
            &&& number_at(f, 24) == 1
            &&& number_at(f, 32) == width
            &&& number_at(f, 36) == height
            &&& number_at(f, 4) == 0 && number_at(f, 8) == 0 && number_at(f, 20) == 0
            &&& number_at(f, 28) == 0 && number_at(f, 40) == 0 && number_at(f, 44) == 0
            &&& number_at(f, 48) == 0 && number_at(f, 52) == 0
        }),
{
    lemma_number_bytes(0);
    lemma_number_bytes(1);
    lemma_number_bytes(16);
    lemma_number_bytes(30);
    lemma_number_bytes(33333);
    lemma_number_bytes(0xFFFF_FFFF);
    lemma_number_bytes(n as u32);
    lemma_number_bytes(width);
    lemma_number_bytes(height);
    lemma_half_bytes(width);
    lemma_half_bytes(height);
}

/// The two bytes of a number's low half.
proof fn lemma_half_bytes(v: u32)
    ensures
        le_half(v)[0] + 256 * le_half(v)[1] == v % 65536,
{
    assert((v & 0xFF) as u8 + 256 * (((v >> 8) & 0xFF) as u8) == v % 65536) by (bit_vector);
}

/// What a written file is made of: a list of headers with the file header and a
/// list for the one stream, which holds its header and its format, and a list of
/// frames, each in a chunk named `00dc`.
pub proof fn law_written_file(
    strf: Seq<u8>,
    frames: Seq<Seq<u8>>,
    frame: Seq<u8>,
    width: u32,
    height: u32,
)
    ensures
        ({
            let list = seq![0x4Cu8, 0x49, 0x53, 0x54];
            let file = minimal_avi(strf, frames, width, height);
            let n = frames.len();
            let stream = seq![0x73u8, 0x74, 0x72, 0x6C] + chunk_bytes(
                seq![0x73, 0x74, 0x72, 0x68],
                stream_header(n, width, height),
            ) + chunk_bytes(seq![0x73, 0x74, 0x72, 0x66], strf);
            let headers = seq![0x68u8, 0x64, 0x72, 0x6C] + chunk_bytes(
                seq![0x61, 0x76, 0x69, 0x68],
                file_header(n, width, height),
            ) + chunk_bytes(list, stream);
            let movi = seq![0x6Du8, 0x6F, 0x76, 0x69] + frame_chunks(frames);
            file == seq![0x52u8, 0x49, 0x46, 0x46] + le_bytes((file.len() - 8) as u32) + (
            seq![0x41u8, 0x56, 0x49, 0x20] + chunk_bytes(list, headers) + chunk_bytes(list, movi))
        }),
        frame_chunks(Seq::empty()) == Seq::<u8>::empty(),
        frame_chunks(frames.push(frame)) == frame_chunks(frames) + chunk_bytes(
            seq![0x30, 0x30, 0x64, 0x63],
            frame,
        ),
{
    assert(FOURCC_RIFF@ =~= seq![0x52u8, 0x49, 0x46, 0x46]);
    assert(FOURCC_AVI@ =~= seq![0x41u8, 0x56, 0x49, 0x20]);
    assert(FOURCC_LIST@ =~= seq![0x4Cu8, 0x49, 0x53, 0x54]);
    assert(FOURCC_HDRL@ =~= seq![0x68u8, 0x64, 0x72, 0x6C]);
    assert(FOURCC_AVIH@ =~= seq![0x61u8, 0x76, 0x69, 0x68]);
    assert(FOURCC_STRL@ =~= seq![0x73u8, 0x74, 0x72, 0x6C]);
    assert(FOURCC_STRH@ =~= seq![0x73u8, 0x74, 0x72, 0x68]);
    assert(FOURCC_STRF@ =~= seq![0x73u8, 0x74, 0x72, 0x66]);
    assert(FOURCC_MOVI@ =~= seq![0x6Du8, 0x6F, 0x76, 0x69]);
    assert(FOURCC_00DC@ =~= seq![0x30u8, 0x30, 0x64, 0x63]);
    assert(frames.push(frame).drop_last() =~= frames);
    assert(minimal_avi(strf, frames, width, height).len() - 8 == file_body(
        strf,
        frames,
        width,
        height,
    ).len());
}

/// A chunk is written as its name, the size of what it holds, and what it holds,
/// filled up to a whole number of byte pairs by a zero.
pub proof fn law_chunk_bytes(id: Seq<u8>, payload: Seq<u8>)
    requires
        id.len() == 4,
        payload.len() <= u32::MAX,
    ensures
        ({
            let c = chunk_bytes(id, payload);
            &&& c.len() == 8 + payload.len() + payload.len() % 2
            &&& c.subrange(0, 4) == id
            &&& number_at(c, 4) == payload.len()
            &&& c.subrange(8, 8 + payload.len() as int) == payload
            &&& payload.len() % 2 == 1 ==> c.last() == 0
        }),
{
    let c = chunk_bytes(id, payload);
    lemma_number_bytes(payload.len() as u32);
    assert(c.subrange(4, 8) =~= le_bytes(payload.len() as u32));
    let part = c.subrange(4, 8);
    assert(part[0] == c[4] && part[1] == c[5] && part[2] == c[6] && part[3] == c[7]);
}

} // verus!
