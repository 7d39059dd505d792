//! Coding a group: first the anchors, one after the other, then the frames in
//! between.
use vstd::prelude::*;

use super::encode::{
    encode_bframe, encode_iframe, encode_pframe, is_bframe_chunk, is_codable, is_codable_gop,
    is_iframe_chunk, is_pframe_chunk, pictures, Transform,
};
use super::FrameOrder;
use crate::bits::{bytes_bits, lemma_bytes_bits_len, lemma_padded, padded};
use crate::bitstream::BitStreamWriter;
use crate::block::Block;
use crate::error::Result;
use crate::lossy::frame::prediction::Plane;
use crate::lossy::frame::Kind;
use crate::lossy::{Picture, SubSampleBlockGroup};
use crate::parallel::par_map_range;

verus! {

/// The number of anchors before a position of a group.
pub open spec fn anchors_before(order: FrameOrder, n: int) -> nat
    decreases n,
{
    if n <= 0 {
        0
    } else {
        anchors_before(order, n - 1) + if order.gop_kind(n - 1) != Kind::B {
            1nat
        } else {
            0
        }
    }
}

/// The last anchor at or before a position.
pub open spec fn anchor_up_to(order: FrameOrder, idx: int) -> int
    decreases idx,
{
    if idx <= 0 || order.gop_kind(idx) != Kind::B {
        idx
    } else {
        anchor_up_to(order, idx - 1)
    }
}

/// The first anchor from a position on, in a group of `len` frames.
pub open spec fn anchor_from(order: FrameOrder, idx: int, len: int) -> Option<int>
    decreases len - idx,
{
    if idx >= len {
        None
    } else if order.gop_kind(idx) != Kind::B {
        Some(idx)
    } else {
        anchor_from(order, idx + 1, len)
    }
}

/// The anchor that stands for a position. Behind the last one, the last one does.
pub open spec fn anchor_number(order: FrameOrder, pos: int, anchors: int) -> int {
    let number = pos / (order.anchor_distance as int);
    if number < anchors {
        number
    } else {
        anchors - 1
    }
}

/// The frame that a frame in between follows.
pub open spec fn backward_of(order: FrameOrder, anchors: Seq<Picture<i16>>, idx: int) -> Picture<
    i16,
> {
    anchors[anchor_number(order, anchor_up_to(order, idx), anchors.len() as int)]
}

/// The frame that follows a frame in between, where the group has one.
pub open spec fn forward_of(
    order: FrameOrder,
    anchors: Seq<Picture<i16>>,
    idx: int,
    len: int,
) -> Option<Picture<i16>> {
    match anchor_from(order, idx + 1, len) {
        Some(pos) => Some(anchors[anchor_number(order, pos, anchors.len() as int)]),
        None => None,
    }
}

/// The bits of the frame at a position of a group. `anchors` are the anchors as
/// a reader will see them.
#[verifier::opaque]
pub open spec fn is_frame_chunk<
    D: Fn(&Block<i16>) -> Block<i16>,
    I: Fn(&Block<i16>) -> Block<i16>,
    C: Fn(Plane, &Block<i16>) -> Block<i16>,
    R: Fn(Plane, &Block<i16>, &Block<i16>) -> Block<i16>,
>(
    transform: Transform<D, I, C, R>,
    order: FrameOrder,
    frames: Seq<Picture<i16>>,
    anchors: Seq<Picture<i16>>,
    idx: int,
    bits: Seq<bool>,
) -> bool {
    let number = anchors_before(order, idx) as int;
    match order.gop_kind(idx) {
        Kind::I => is_iframe_chunk(
            transform.dct,
            transform.idct,
            frames[idx],
            bits,
            anchors[number],
        ),
        Kind::P => is_pframe_chunk(
            transform.code,
            transform.restore,
            frames[idx],
            anchors[number - 1],
            bits,
            anchors[number],
        ),
        Kind::B => is_bframe_chunk(
            transform.code,
            frames[idx],
            forward_of(order, anchors, idx, frames.len() as int),
            backward_of(order, anchors, idx),
            bits,
        ),
    }
}

/// The bytes of the frames of a group, in the order in which they are shown.
pub open spec fn are_gop_chunks<
    D: Fn(&Block<i16>) -> Block<i16>,
    I: Fn(&Block<i16>) -> Block<i16>,
    C: Fn(Plane, &Block<i16>) -> Block<i16>,
    R: Fn(Plane, &Block<i16>, &Block<i16>) -> Block<i16>,
>(
    transform: Transform<D, I, C, R>,
    order: FrameOrder,
    frames: Seq<Picture<i16>>,
    anchors: Seq<Picture<i16>>,
    chunks: Seq<Seq<u8>>,
) -> bool {
    &&& anchors.len() == anchors_before(order, frames.len() as int)
    &&& chunks.len() == frames.len()
    &&& forall|idx: int|
        0 <= idx < chunks.len() ==> is_frame_chunk(
            transform,
            order,
            frames,
            anchors,
            idx,
            bytes_bits(#[trigger] chunks[idx]),
        )
}

/// The bits of byte strings, one behind the other.
pub open spec fn joined_bits(chunks: Seq<Seq<u8>>) -> Seq<bool>
    decreases chunks.len(),
{
    if chunks.len() == 0 {
        Seq::empty()
    } else {
        joined_bits(chunks.drop_last()) + bytes_bits(chunks.last())
    }
}

/// A stream went on with a group, from a byte boundary on.
pub open spec fn is_gop_written<
    D: Fn(&Block<i16>) -> Block<i16>,
    I: Fn(&Block<i16>) -> Block<i16>,
    C: Fn(Plane, &Block<i16>) -> Block<i16>,
    R: Fn(Plane, &Block<i16>, &Block<i16>) -> Block<i16>,
>(
    transform: Transform<D, I, C, R>,
    order: FrameOrder,
    frames: Seq<Picture<i16>>,
    before: Seq<bool>,
    after: Seq<bool>,
) -> bool {
    exists|anchors: Seq<Picture<i16>>, chunks: Seq<Seq<u8>>|
        {
            &&& #[trigger] are_gop_chunks(transform, order, frames, anchors, chunks)
            &&& after == padded(before) + joined_bits(chunks)
        }
}

proof fn lemma_anchors_before_grows(order: FrameOrder, a: int, b: int)
    requires
        0 <= a <= b,
    ensures
        anchors_before(order, a) <= anchors_before(order, b),
    decreases b,
{
    if a < b {
        lemma_anchors_before_grows(order, a, b - 1);
    }
}

/// The first frame is an anchor.
proof fn lemma_first_anchor(order: FrameOrder, n: int)
    requires
        0 < n,
    ensures
        anchors_before(order, n) >= 1,
{
    assert(anchors_before(order, 0) == 0);
    assert(anchors_before(order, 1) == 1);
    lemma_anchors_before_grows(order, 1, n);
}

/// The anchors of a group.
pub struct GopAnchors {
    /// The bytes of the anchors, each with its position.
    pub encoded_frames: Vec<(usize, Vec<u8>)>,
    /// The anchors as a reader will see them.
    pub reconstructed: Vec<SubSampleBlockGroup<i16>>,
}

/// The anchor at a position was coded.
pub open spec fn has_anchor<
    D: Fn(&Block<i16>) -> Block<i16>,
    I: Fn(&Block<i16>) -> Block<i16>,
    C: Fn(Plane, &Block<i16>) -> Block<i16>,
    R: Fn(Plane, &Block<i16>, &Block<i16>) -> Block<i16>,
>(
    transform: Transform<D, I, C, R>,
    order: FrameOrder,
    frames: Seq<Picture<i16>>,
    anchors: GopAnchors,
    idx: int,
) -> bool {
    let number = anchors_before(order, idx) as int;
    order.gop_kind(idx) != Kind::B ==> {
        &&& number < anchors.encoded_frames@.len()
        &&& anchors.encoded_frames@[number].0 == idx
        &&& is_frame_chunk(
            transform,
            order,
            frames,
            pictures(anchors.reconstructed@),
            idx,
            bytes_bits(anchors.encoded_frames@[number].1@),
        )
    }
}

/// The anchors among the first `n` frames were coded.
pub open spec fn is_anchor_chain<
    D: Fn(&Block<i16>) -> Block<i16>,
    I: Fn(&Block<i16>) -> Block<i16>,
    C: Fn(Plane, &Block<i16>) -> Block<i16>,
    R: Fn(Plane, &Block<i16>, &Block<i16>) -> Block<i16>,
>(
    transform: Transform<D, I, C, R>,
    order: FrameOrder,
    frames: Seq<Picture<i16>>,
    n: int,
    anchors: GopAnchors,
) -> bool {
    &&& anchors.encoded_frames@.len() == anchors_before(order, n)
    &&& anchors.reconstructed@.len() == anchors_before(order, n)
    &&& forall|k: int|
        0 <= k < anchors.reconstructed@.len() ==> (#[trigger] anchors.reconstructed@[k]).cb@.len()
            == anchors.reconstructed@[k].cr@.len()
    &&& forall|idx: int|
        0 <= idx < n ==> #[trigger] has_anchor(transform, order, frames, anchors, idx)
}

/// Codes the anchors of a group, each from the one before it as a reader will
/// see it.
pub fn encode_anchor_chain<
    D: Fn(&Block<i16>) -> Block<i16> + Sync + Send,
    I: Fn(&Block<i16>) -> Block<i16> + Sync + Send,
    C: Fn(Plane, &Block<i16>) -> Block<i16> + Sync + Send,
    R: Fn(Plane, &Block<i16>, &Block<i16>) -> Block<i16> + Sync + Send,
>(
    transform: &Transform<D, I, C, R>,
    frames: &[SubSampleBlockGroup<i16>],
    order: FrameOrder,
) -> (r: Result<GopAnchors>)
    requires
        transform.takes_all(),
        is_codable_gop(order, pictures(frames@)),
    ensures
        r is Ok,
        is_anchor_chain(
            *transform,
            order,
            pictures(frames@),
            frames@.len() as int,
            r->Ok_0,
        ),
{
    let mut anchors = GopAnchors { encoded_frames: Vec::new(), reconstructed: Vec::new() };
    let mut idx: usize = 0;
    while idx < frames.len()
        invariant
            idx <= frames@.len(),
            transform.takes_all(),
            is_codable_gop(order, pictures(frames@)),
            is_anchor_chain(*transform, order, pictures(frames@), idx as int, anchors),
        decreases frames@.len() - idx,
    {
        let kind = order.gop_frame_kind(idx);
        let ghost before = anchors;
        let ghost shown = pictures(frames@);
        assert(is_codable(shown[idx as int], order.gop_kind(idx as int)));
        assert(shown[idx as int] == frames@[idx as int]@);
        if kind != Kind::B {
            let frame = frames[idx].as_ref();
            let coded = if kind == Kind::I {
                encode_iframe(&transform.dct, &transform.idct, &frame)
            } else {
                proof {
                    lemma_first_anchor(order, idx as int);
                }
                let last: usize = anchors.reconstructed.len() - 1;
                encode_pframe(
                    &transform.code,
                    &transform.restore,
                    &frame,
                    &anchors.reconstructed[last].as_ref(),
                )
            };
            match coded {
                Ok((bytes, back)) => {
                    anchors.encoded_frames.push((idx, bytes));
                    anchors.reconstructed.push(back);
                },
                Err(e) => {
                    return Err(e);
                },
            }
        }
        proof {
            reveal(is_frame_chunk);
            let was = pictures(before.reconstructed@);
            let now = pictures(anchors.reconstructed@);
            assert forall|i: int| 0 <= i < idx + 1 implies #[trigger] has_anchor(
                *transform,
                order,
                shown,
                anchors,
                i,
            ) by {
                let number = anchors_before(order, i) as int;
                lemma_anchors_before_grows(order, i, idx as int);
                if i < idx {
                    assert(has_anchor(*transform, order, shown, before, i));
                    if order.gop_kind(i) != Kind::B {
                        assert(now[number] == was[number]);
                        if order.gop_kind(i) == Kind::P {
                            lemma_first_anchor(order, i);
                            assert(now[number - 1] == was[number - 1]);
                        }
                    }
                } else if kind != Kind::B {
                    assert(now[number] == anchors.reconstructed@[number]@);
                    if kind == Kind::P {
                        lemma_first_anchor(order, i);
                        assert(now[number - 1] == before.reconstructed@[number - 1]@);
                    }
                }
            }
        }
        idx = idx + 1;
    }
    Ok(anchors)
}

/// Finds the last anchor at or before a position.
fn find_anchor_up_to(order: &FrameOrder, idx: usize) -> (r: usize)
    ensures
        r == anchor_up_to(*order, idx as int),
        r <= idx,
{
    let mut pos: usize = idx;
    while pos > 0 && order.gop_frame_kind(pos) == Kind::B
        invariant
            pos <= idx,
            anchor_up_to(*order, pos as int) == anchor_up_to(*order, idx as int),
        decreases pos,
    {
        pos = pos - 1;
    }
    pos
}

/// Finds the first anchor behind a position.
fn find_anchor_from(order: &FrameOrder, idx: usize, len: usize) -> (r: Option<usize>)
    requires
        idx < len,
    ensures
        match r {
            Some(pos) => anchor_from(*order, idx + 1, len as int) == Some(pos as int) && pos < len,
            None => anchor_from(*order, idx + 1, len as int) is None,
        },
{
    let mut pos: usize = idx + 1;
    while pos < len && order.gop_frame_kind(pos) == Kind::B
        invariant
            pos <= len,
            anchor_from(*order, pos as int, len as int) == anchor_from(
                *order,
                idx + 1,
                len as int,
            ),
        decreases len - pos,
    {
        pos = pos + 1;
    }
    if pos < len {
        Some(pos)
    } else {
        None
    }
}

/// The number of the anchor that stands for a position.
fn find_anchor_number(order: &FrameOrder, pos: usize, anchors: usize) -> (r: usize)
    requires
        order.anchor_distance > 0,
        anchors > 0,
    ensures
        r == anchor_number(*order, pos as int, anchors as int),
        r < anchors,
{
    let number: usize = pos / order.anchor_distance;
    if number < anchors {
        number
    } else {
        anchors - 1
    }
}

/// The frame at a position, where it lies between anchors, was coded.
pub open spec fn is_between_coded<
    D: Fn(&Block<i16>) -> Block<i16>,
    I: Fn(&Block<i16>) -> Block<i16>,
    C: Fn(Plane, &Block<i16>) -> Block<i16>,
    R: Fn(Plane, &Block<i16>, &Block<i16>) -> Block<i16>,
>(
    transform: Transform<D, I, C, R>,
    order: FrameOrder,
    frames: Seq<Picture<i16>>,
    anchors: Seq<Picture<i16>>,
    idx: int,
    r: Option<Vec<u8>>,
) -> bool {
    &&& r is Some <==> order.gop_kind(idx) == Kind::B
    &&& r is Some ==> is_frame_chunk(
        transform,
        order,
        frames,
        anchors,
        idx,
        bytes_bits(r->0@),
    )
}

/// The frames between the anchors of a group were coded.
pub open spec fn are_between_coded<
    D: Fn(&Block<i16>) -> Block<i16>,
    I: Fn(&Block<i16>) -> Block<i16>,
    C: Fn(Plane, &Block<i16>) -> Block<i16>,
    R: Fn(Plane, &Block<i16>, &Block<i16>) -> Block<i16>,
>(
    transform: Transform<D, I, C, R>,
    order: FrameOrder,
    frames: Seq<Picture<i16>>,
    anchors: Seq<Picture<i16>>,
    r: Seq<Option<Vec<u8>>>,
) -> bool {
    &&& r.len() == frames.len()
    &&& forall|idx: int|
        0 <= idx < frames.len() ==> is_between_coded(
            transform,
            order,
            frames,
            anchors,
            idx,
            #[trigger] r[idx],
        )
}

/// Codes the frame at a position, where it lies between anchors.
fn encode_between<
    D: Fn(&Block<i16>) -> Block<i16> + Sync + Send,
    I: Fn(&Block<i16>) -> Block<i16> + Sync + Send,
    C: Fn(Plane, &Block<i16>) -> Block<i16> + Sync + Send,
    R: Fn(Plane, &Block<i16>, &Block<i16>) -> Block<i16> + Sync + Send,
>(
    transform: &Transform<D, I, C, R>,
    frames: &[SubSampleBlockGroup<i16>],
    order: FrameOrder,
    anchors: &[SubSampleBlockGroup<i16>],
    idx: usize,
) -> (r: Option<Vec<u8>>)
    requires
        idx < frames@.len(),
        transform.takes_all(),
        is_codable_gop(order, pictures(frames@)),
        anchors@.len() == anchors_before(order, frames@.len() as int),
    ensures
        is_between_coded(
            *transform,
            order,
            pictures(frames@),
            pictures(anchors@),
            idx as int,
            r,
        ),
{
    if order.gop_frame_kind(idx) != Kind::B {
        return None;
    }
    let ghost shown = pictures(frames@);
    let ghost seen = pictures(anchors@);
    proof {
        assert(is_codable(shown[idx as int], order.gop_kind(idx as int)));
        assert(shown[idx as int] == frames@[idx as int]@);
        lemma_first_anchor(order, frames@.len() as int);
    }
    let frame = frames[idx].as_ref();
    let before = find_anchor_up_to(&order, idx);
    let backward_number = find_anchor_number(&order, before, anchors.len());
    let backward = anchors[backward_number].as_ref();
    assert(backward@ == seen[backward_number as int]);
    let forward = match find_anchor_from(&order, idx, frames.len()) {
        Some(pos) => {
            let number = find_anchor_number(&order, pos, anchors.len());
            assert(anchors@[number as int]@ == seen[number as int]);
            Some(anchors[number].as_ref())
        },
        None => None,
    };
    proof {
        reveal(is_frame_chunk);
    }
    match encode_bframe(&transform.code, &frame, forward, &backward) {
        Ok(bytes) => Some(bytes),
        Err(_) => None,
    }
}

/// Codes the frames between the anchors of a group.
pub fn encode_bframes<
    D: Fn(&Block<i16>) -> Block<i16> + Sync + Send,
    I: Fn(&Block<i16>) -> Block<i16> + Sync + Send,
    C: Fn(Plane, &Block<i16>) -> Block<i16> + Sync + Send,
    R: Fn(Plane, &Block<i16>, &Block<i16>) -> Block<i16> + Sync + Send,
>(
    transform: &Transform<D, I, C, R>,
    frames: &[SubSampleBlockGroup<i16>],
    order: FrameOrder,
    anchors: &GopAnchors,
) -> (r: Vec<Option<Vec<u8>>>)
    requires
        transform.takes_all(),
        is_codable_gop(order, pictures(frames@)),
        anchors.reconstructed@.len() == anchors_before(order, frames@.len() as int),
    ensures
        are_between_coded(
            *transform,
            order,
            pictures(frames@),
            pictures(anchors.reconstructed@),
            r@,
        ),
{
    let work = |idx: usize| -> (r: Option<Vec<u8>>)
        requires
            idx < frames@.len(),
            transform.takes_all(),
            is_codable_gop(order, pictures(frames@)),
            anchors.reconstructed@.len() == anchors_before(order, frames@.len() as int)
        ensures
            is_between_coded(
                *transform,
                order,
                pictures(frames@),
                pictures(anchors.reconstructed@),
                idx as int,
                r,
            )
        { encode_between(transform, frames, order, anchors.reconstructed.as_slice(), idx) };
    let r = par_map_range(frames.len(), work);
    proof {
        assert forall|idx: int| 0 <= idx < frames@.len() implies is_between_coded(
            *transform,
            order,
            pictures(frames@),
            pictures(anchors.reconstructed@),
            idx,
            #[trigger] r@[idx],
        ) by {
            assert(call_ensures(work, (idx as usize,), r@[(idx as usize) as int]));
        }
    }
    r
}

/// Bytes that come behind the bytes of a group.
proof fn lemma_joined_push(
    start: Seq<bool>,
    before: Seq<bool>,
    chunks: Seq<Seq<u8>>,
    chunk: Seq<u8>,
)
    requires
        padded(before) == padded(start) + joined_bits(chunks),
    ensures
        padded(before) + bytes_bits(chunk) == padded(start) + joined_bits(chunks.push(chunk)),
        (padded(before) + bytes_bits(chunk)).len() % 8 == 0,
        padded(padded(before) + bytes_bits(chunk)) == padded(before) + bytes_bits(chunk),
{
    let now = chunks.push(chunk);
    assert(now.drop_last() =~= chunks);
    lemma_padded(before);
    lemma_bytes_bits_len(chunk);
    assert(padded(before) + bytes_bits(chunk) =~= padded(start) + joined_bits(now));
    lemma_padded(padded(before) + bytes_bits(chunk));
}

/// Writes the frames of a group in the order in which they are shown.
pub fn write_gop<
    D: Fn(&Block<i16>) -> Block<i16> + Sync + Send,
    I: Fn(&Block<i16>) -> Block<i16> + Sync + Send,
    C: Fn(Plane, &Block<i16>) -> Block<i16> + Sync + Send,
    R: Fn(Plane, &Block<i16>, &Block<i16>) -> Block<i16> + Sync + Send,
>(
    transform: &Transform<D, I, C, R>,
    frames: &[SubSampleBlockGroup<i16>],
    order: FrameOrder,
    anchors: &GopAnchors,
    between: &[Option<Vec<u8>>],
    stream: &mut BitStreamWriter,
) -> (r: Result<()>)
    requires
        frames@.len() > 0,
        is_anchor_chain(
            *transform,
            order,
            pictures(frames@),
            frames@.len() as int,
            *anchors,
        ),
        are_between_coded(
            *transform,
            order,
            pictures(frames@),
            pictures(anchors.reconstructed@),
            between@,
        ),
    ensures
        r is Ok,
        is_gop_written(*transform, order, pictures(frames@), old(stream)@, final(stream)@),
{
    let ghost start = stream@;
    let ghost shown = pictures(frames@);
    let ghost seen = pictures(anchors.reconstructed@);
    let ghost mut chunks: Seq<Seq<u8>> = Seq::empty();
    proof {
        assert(padded(start) + joined_bits(chunks) =~= padded(start));
    }
    let count: usize = anchors.encoded_frames.len();
    let mut next: usize = 0;
    let mut idx: usize = 0;
    while idx < frames.len()
        invariant
            idx <= frames@.len(),
            count == anchors.encoded_frames@.len(),
            shown == pictures(frames@),
            seen == pictures(anchors.reconstructed@),
            next == anchors_before(order, idx as int),
            is_anchor_chain(*transform, order, shown, frames@.len() as int, *anchors),
            between@.len() == frames@.len(),
            forall|i: int|
                0 <= i < frames@.len() ==> is_between_coded(
                    *transform,
                    order,
                    shown,
                    seen,
                    i,
                    #[trigger] between@[i],
                ),
            chunks.len() == idx,
            forall|i: int|
                0 <= i < idx ==> is_frame_chunk(
                    *transform,
                    order,
                    shown,
                    seen,
                    i,
                    bytes_bits(#[trigger] chunks[i]),
                ),
            padded(stream@) == padded(start) + joined_bits(chunks),
            idx > 0 ==> stream@.len() % 8 == 0,
        decreases frames@.len() - idx,
    {
        let ghost before = stream@;
        let ghost written = chunks;
        proof {
            assert(is_between_coded(
                *transform,
                order,
                shown,
                seen,
                idx as int,
                between@[idx as int],
            ));
            assert(has_anchor(*transform, order, shown, *anchors, idx as int));
        }
        let chunk: &Vec<u8> = match &between[idx] {
            Some(bytes) => bytes,
            None => {
                let found = &anchors.encoded_frames[next];
                next = next + 1;
                &found.1
            },
        };
        stream.write_aligned_bytes(chunk.as_slice())?;
        proof {
            chunks = written.push(chunk@);
            lemma_joined_push(start, before, written, chunk@);
        }
        idx = idx + 1;
    }
    proof {
        lemma_padded(stream@);
        assert(are_gop_chunks(*transform, order, shown, seen, chunks));
    }
    Ok(())
}

proof fn lemma_kind_between(order: FrameOrder, idx: int)
    requires
        0 < order.anchor_distance,
        0 <= idx,
        idx < order.full_image_distance || order.full_image_distance == 0,
    ensures
        order.gop_kind(idx) == Kind::B <==> idx % (order.anchor_distance as int) != 0,
{
    let a = order.anchor_distance as int;
    if order.full_image_distance > 0 {
        vstd::arithmetic::div_mod::lemma_small_mod(
            idx as nat,
            order.full_image_distance as nat,
        );
    }
    if idx == 0 {
        vstd::arithmetic::div_mod::lemma_small_mod(0, a as nat);
    }
}

/// Before a position of a group there are as many anchors as anchor distances were begun.
pub proof fn law_anchors_come_at_their_distance(order: FrameOrder, n: int)
    requires
        0 < order.anchor_distance,
        0 <= n,
        n <= order.full_image_distance || order.full_image_distance == 0,
    ensures
        (anchors_before(order, n) - 1) * order.anchor_distance < n,
        n <= anchors_before(order, n) * order.anchor_distance,
    decreases n,
{
    let a = order.anchor_distance as int;
    if n > 0 {
        law_anchors_come_at_their_distance(order, n - 1);
        lemma_kind_between(order, n - 1);
        let k = anchors_before(order, n - 1) as int;
        crate::numeric::lemma_place_parts(n - 1, a);
        let q = (n - 1) / a;
        let b = (n - 1) % a;
        assert(b == 0 ==> k == q) by (nonlinear_arith)
            requires
                (k - 1) * a < n - 1 <= k * a,
                n - 1 == q * a + b,
                a > 0,
        ;
        assert(b > 0 ==> k == q + 1) by (nonlinear_arith)
            requires
                (k - 1) * a < n - 1 <= k * a,
                n - 1 == q * a + b,
                0 <= b < a,
        ;
        assert((q + 1) * a == q * a + a) by (nonlinear_arith);
    } else {
        assert((0 - 1) * a < 0 && 0 * a == 0) by (nonlinear_arith)
            requires
                a > 0,
        ;
    }
}

proof fn lemma_anchor_up_to(order: FrameOrder, m: int, b: int)
    requires
        0 < order.anchor_distance,
        0 <= m,
        0 <= b < order.anchor_distance,
        m * order.anchor_distance + b < order.full_image_distance || order.full_image_distance
            == 0,
    ensures
        anchor_up_to(order, m * order.anchor_distance + b) == m * order.anchor_distance,
    decreases b,
{
    let a = order.anchor_distance as int;
    crate::numeric::lemma_place(m, b, a);
    lemma_kind_between(order, m * a + b);
    if b > 0 {
        lemma_anchor_up_to(order, m, b - 1);
    }
}

proof fn lemma_anchor_from(order: FrameOrder, m: int, b: int, len: int)
    requires
        0 < order.anchor_distance,
        0 <= m,
        0 < b <= order.anchor_distance,
        len <= order.full_image_distance || order.full_image_distance == 0,
    ensures
        anchor_from(order, m * order.anchor_distance + b, len) == if (m + 1)
            * order.anchor_distance < len {
            Some((m + 1) * order.anchor_distance)
        } else {
            None
        },
    decreases order.anchor_distance - b,
{
    let a = order.anchor_distance as int;
    let idx = m * a + b;
    assert((m + 1) * a == m * a + a && 0 <= m * a) by (nonlinear_arith)
        requires
            0 <= m,
            0 < a,
    ;
    if idx < len {
        lemma_kind_between(order, idx);
        if b == a {
            crate::numeric::lemma_place(m + 1, 0, a);
        } else {
            crate::numeric::lemma_place(m, b, a);
            lemma_anchor_from(order, m, b + 1, len);
        }
    }
}

/// A frame between two anchors is predicted from the closest anchor before it, and from the
/// closest one behind it where the group still has one.
pub proof fn law_closest_anchors_are_taken(
    order: FrameOrder,
    anchors: Seq<Picture<i16>>,
    m: int,
    b: int,
    len: int,
)
    requires
        0 < order.anchor_distance,
        0 <= m,
        0 < b < order.anchor_distance,
        m * order.anchor_distance + b < len,
        len <= order.full_image_distance || order.full_image_distance == 0,
        anchors.len() == anchors_before(order, len),
    ensures
        ({
            let idx = m * order.anchor_distance + b;
            &&& m < anchors.len()
            &&& backward_of(order, anchors, idx) == anchors[m]
            &&& (m + 1) * order.anchor_distance < len ==> m + 1 < anchors.len() && forward_of(
                order,
                anchors,
                idx,
                len,
            ) == Some(anchors[m + 1])
            &&& (m + 1) * order.anchor_distance >= len ==> forward_of(
                order,
                anchors,
                idx,
                len,
            ) is None
        }),
{
    let a = order.anchor_distance as int;
    let idx = m * a + b;
    let count = anchors.len() as int;
    law_anchors_come_at_their_distance(order, len);
    lemma_anchor_up_to(order, m, b);
    lemma_anchor_from(order, m, b + 1, len);
    crate::numeric::lemma_place(m, 0, a);
    crate::numeric::lemma_place(m + 1, 0, a);
    assert(m < count) by (nonlinear_arith)
        requires
            m * a + b < len,
            len <= count * a,
            0 < b,
            0 < a,
    ;
    assert((m + 1) * a < len ==> m + 1 < count) by (nonlinear_arith)
        requires
            len <= count * a,
            0 < a,
    ;
}

} // verus!
