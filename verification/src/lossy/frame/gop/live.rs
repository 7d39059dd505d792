//! A video that is written frame by frame is read back.
use vstd::prelude::*;

use super::calls::{are_nice, finds_all, is_answer, is_calls_run, law_calls_show_all};
use super::coming_back::{
    is_frame_small, is_sound_frame, lemma_holds_macros, lemma_holds_planes, lemma_planes_read,
    lemma_pmacros_read,
};
use super::data::{header_kind, is_data_read, DecodedFrameData};
use super::encode::{frame_start, lemma_frame_start_len, macros_bits, Transform};
use super::frames_reader::{
    is_anchor_ready, is_flushed, is_frame_taken, is_step, only_bits_went, ReaderState,
};
use super::frames_writer::{
    are_frames_streamed, is_frame_streamed, is_iframe_streamed, is_pframe_streamed, stream_kind,
    stream_pos, StreamState,
};
use super::header::{end_bits, holds_end, holds_frame};
use super::round_trip::{gives_image_back, is_frame_back, lemma_image_plane_close};
use super::scene::is_scene_change;
use super::streaming::{is_frames_run, is_fresh};
use super::video::lemma_end_mark;
use super::{DecodedFrame, FrameOrder};
use crate::bits::{lemma_padded, padded};
use crate::block::quantization::{
    table_steps, VIDEO_CHROMINANCE_QUANTIZATION, VIDEO_LUMINANCE_QUANTIZATION,
};
use crate::block::{block_views, Block};
use crate::encoders::ans::{compressed_bits, is_kept, items_bytes, models};
use crate::error::{Error, Result};
use crate::lossy::frame::assembly::{gives_back, is_assembled, lemma_assembled_len};
use crate::lossy::frame::coding::{all_close, is_full};
use crate::lossy::frame::iframe::{
    are_planes_kept, frame_bits, lemma_compressed_bits_len, lemma_frame_bits_len,
    lemma_frame_start_apart,
};
use crate::lossy::frame::macroblock::pmacro::PMacroBlock;
use crate::lossy::frame::pframe::{are_macroblocks, law_pframe_comes_back};
use crate::lossy::frame::prediction::Plane;
use crate::lossy::frame::same::{
    is_steady, law_assembled_is_one, lemma_assembled_moves, lemma_same_blocks,
};
use crate::lossy::frame::Kind;
use crate::lossy::transform::is_coded_plane;
use crate::lossy::Picture;

verus! {

/// What frame `i` of a stream is predicted from.
pub open spec fn streamed_kind(
    order: FrameOrder,
    frames: Seq<Picture<i16>>,
    states: Seq<StreamState>,
    i: int,
) -> Kind {
    stream_kind(order, stream_pos(states[i], frames[i]))
}

/// The bits of frame `i` of a stream.
pub open spec fn streamed_bits(bits: Seq<Seq<bool>>, i: int) -> Seq<bool> {
    bits[i + 1].skip(bits[i].len() as int)
}

/// Whether a stream of frames can be read again: its frames can, and their bytes
/// are few enough.
pub open spec fn is_sound_stream<
    D: Fn(&Block<i16>) -> Block<i16>,
    I: Fn(&Block<i16>) -> Block<i16>,
    C: Fn(Plane, &Block<i16>) -> Block<i16>,
    R: Fn(Plane, &Block<i16>, &Block<i16>) -> Block<i16>,
>(
    transform: Transform<D, I, C, R>,
    order: FrameOrder,
    frames: Seq<Picture<i16>>,
    states: Seq<StreamState>,
    bits: Seq<Seq<bool>>,
) -> bool {
    &&& are_frames_streamed(transform, order, frames, states, bits)
    &&& bits.first().len() == 0
    &&& forall|i: int|
        0 <= i < frames.len() ==> {
            &&& is_sound_frame(#[trigger] frames[i])
            &&& is_frame_small(transform, frames[i], streamed_kind(order, frames, states, i))
        }
}

/// The bits of a frame that stands alone.
#[verifier::opaque]
spec fn is_iframe_bits<D: Fn(&Block<i16>) -> Block<i16>>(
    dct: D,
    frame: Picture<i16>,
    chunk: Seq<bool>,
) -> bool {
    exists|y: Seq<Block<i16>>, cb: Seq<Block<i16>>, cr: Seq<Block<i16>>|
        {
            let luma = table_steps::<i16>(VIDEO_LUMINANCE_QUANTIZATION@);
            let chroma = table_steps::<i16>(VIDEO_CHROMINANCE_QUANTIZATION@);
            &&& is_coded_plane(dct, luma, frame.y, y)
            &&& is_coded_plane(dct, chroma, frame.cb, cb)
            &&& is_coded_plane(dct, chroma, frame.cr, cr)
            &&& are_planes_kept(frame.dimensions, frame.subsampling, y, cb, cr)
            &&& chunk == #[trigger] frame_bits(
                frame_start(frame, Kind::I),
                frame.dimensions,
                frame.subsampling,
                y,
                cb,
                cr,
            )
        }
}

/// The bits of a frame that is predicted from the one before.
#[verifier::opaque]
spec fn is_pframe_bits<
    C: Fn(Plane, &Block<i16>) -> Block<i16>,
    R: Fn(Plane, &Block<i16>, &Block<i16>) -> Block<i16>,
>(
    code: C,
    restore: R,
    frame: Picture<i16>,
    anchor: Picture<i16>,
    chunk: Seq<bool>,
    next: Picture<i16>,
) -> bool {
    exists|coded: Seq<PMacroBlock<i16>>|
        {
            &&& #[trigger] are_macroblocks(code, frame, anchor, coded)
            &&& is_kept(items_bytes::<PMacroBlock<i16>>(models(coded)))
            &&& chunk == macros_bits(frame_start(frame, Kind::P), coded)
            &&& is_assembled(restore, None, anchor, coded, next)
        }
}

/// What stands behind a beginning.
proof fn lemma_behind(before: Seq<bool>, start: Seq<bool>, body: Seq<bool>)
    ensures
        (before + start + body).skip(before.len() as int) == start + body,
        before + start + body == before + (start + body),
{
    assert((before + start + body).skip(before.len() as int) =~= start + body);
    assert(before + start + body =~= before + (start + body));
}

proof fn lemma_iframe_grows<D: Fn(&Block<i16>) -> Block<i16>>(
    dct: D,
    frame: Picture<i16>,
    before: Seq<bool>,
    after: Seq<bool>,
)
    requires
        before.len() % 8 == 0,
        is_iframe_streamed(dct, frame, before, after),
    ensures
        ({
            let chunk = after.skip(before.len() as int);
            &&& after == before + chunk
            &&& chunk.len() % 8 == 0
            &&& is_iframe_bits(dct, frame, chunk)
        }),
{
    reveal(is_iframe_bits);
    let luma = table_steps::<i16>(VIDEO_LUMINANCE_QUANTIZATION@);
    let chroma = table_steps::<i16>(VIDEO_CHROMINANCE_QUANTIZATION@);
    let start = frame_start(frame, Kind::I);
    let (y, cb, cr) = choose|y: Seq<Block<i16>>, cb: Seq<Block<i16>>, cr: Seq<Block<i16>>|
        {
            &&& is_coded_plane(dct, luma, frame.y, y)
            &&& is_coded_plane(dct, chroma, frame.cb, cb)
            &&& is_coded_plane(dct, chroma, frame.cr, cr)
            &&& are_planes_kept(frame.dimensions, frame.subsampling, y, cb, cr)
            &&& after == #[trigger] frame_bits(
                before + start,
                frame.dimensions,
                frame.subsampling,
                y,
                cb,
                cr,
            )
        };
    let chunk = frame_bits(start, frame.dimensions, frame.subsampling, y, cb, cr);
    assert(after == before + chunk && chunk.len() % 8 == 0) by {
        lemma_frame_moves(frame, before, y, cb, cr);
    }
    assert(after.skip(before.len() as int) =~= chunk);
}

/// A frame behind whole bytes is the frame alone.
proof fn lemma_frame_moves(
    frame: Picture<i16>,
    before: Seq<bool>,
    y: Seq<Block<i16>>,
    cb: Seq<Block<i16>>,
    cr: Seq<Block<i16>>,
)
    requires
        before.len() % 8 == 0,
    ensures
        ({
            let start = frame_start(frame, Kind::I);
            let chunk = frame_bits(start, frame.dimensions, frame.subsampling, y, cb, cr);
            &&& frame_bits(
                before + start,
                frame.dimensions,
                frame.subsampling,
                y,
                cb,
                cr,
            ) == before + chunk
            &&& chunk.len() % 8 == 0
        }),
{
    let start = frame_start(frame, Kind::I);
    let body = frame_bits(Seq::empty(), frame.dimensions, frame.subsampling, y, cb, cr);
    assert(start.len() % 8 == 0) by {
        lemma_frame_start_len(frame, Kind::I);
    }
    lemma_frame_start_apart(before + start, frame.dimensions, frame.subsampling, y, cb, cr);
    lemma_frame_start_apart(start, frame.dimensions, frame.subsampling, y, cb, cr);
    lemma_frame_bits_len(start, frame.dimensions, frame.subsampling, y, cb, cr);
    lemma_behind(before, start, body);
}

proof fn lemma_pframe_grows<
    C: Fn(Plane, &Block<i16>) -> Block<i16>,
    R: Fn(Plane, &Block<i16>, &Block<i16>) -> Block<i16>,
>(
    code: C,
    restore: R,
    frame: Picture<i16>,
    anchor: Picture<i16>,
    before: Seq<bool>,
    after: Seq<bool>,
    next: Picture<i16>,
)
    requires
        before.len() % 8 == 0,
        is_pframe_streamed(code, restore, frame, anchor, before, after, next),
    ensures
        ({
            let chunk = after.skip(before.len() as int);
            &&& after == before + chunk
            &&& chunk.len() % 8 == 0
            &&& is_pframe_bits(code, restore, frame, anchor, chunk, next)
        }),
{
    reveal(is_pframe_bits);
    let start = frame_start(frame, Kind::P);
    let coded = choose|coded: Seq<PMacroBlock<i16>>|
        {
            &&& #[trigger] are_macroblocks(code, frame, anchor, coded)
            &&& is_kept(items_bytes::<PMacroBlock<i16>>(models(coded)))
            &&& after == padded(before + start) + compressed_bits(
                items_bytes::<PMacroBlock<i16>>(models(coded)),
            )
            &&& is_assembled(restore, None, anchor, coded, next)
        };
    lemma_macros_grow(frame, before, coded);
    assert(after.skip(before.len() as int) == macros_bits(start, coded));
}

/// Macroblocks behind whole bytes are the macroblocks alone.
proof fn lemma_macros_grow(frame: Picture<i16>, before: Seq<bool>, coded: Seq<PMacroBlock<i16>>)
    requires
        before.len() % 8 == 0,
    ensures
        ({
            let start = frame_start(frame, Kind::P);
            let chunk = macros_bits(start, coded);
            let after = padded(before + start) + compressed_bits(
                items_bytes::<PMacroBlock<i16>>(models(coded)),
            );
            &&& after == before + chunk
            &&& after.skip(before.len() as int) == chunk
            &&& chunk.len() % 8 == 0
        }),
{
    let start = frame_start(frame, Kind::P);
    let body = compressed_bits(items_bytes::<PMacroBlock<i16>>(models(coded)));
    lemma_frame_start_len(frame, Kind::P);
    lemma_padded(before + start);
    lemma_compressed_bits_len(items_bytes::<PMacroBlock<i16>>(models(coded)));
    lemma_behind(before, start, body);
    assert(start + body == macros_bits(start, coded));
}

/// A stream grows by whole bytes, which are those of the next frame.
proof fn lemma_stream_grows<
    D: Fn(&Block<i16>) -> Block<i16>,
    I: Fn(&Block<i16>) -> Block<i16>,
    C: Fn(Plane, &Block<i16>) -> Block<i16>,
    R: Fn(Plane, &Block<i16>, &Block<i16>) -> Block<i16>,
>(
    transform: Transform<D, I, C, R>,
    order: FrameOrder,
    frames: Seq<Picture<i16>>,
    states: Seq<StreamState>,
    bits: Seq<Seq<bool>>,
    i: int,
)
    requires
        are_frames_streamed(transform, order, frames, states, bits),
        bits.first().len() == 0,
        0 <= i < frames.len(),
    ensures
        bits[i].len() % 8 == 0,
        bits[i + 1].len() % 8 == 0,
        bits[i + 1] == bits[i] + streamed_bits(bits, i),
        streamed_kind(order, frames, states, i) == Kind::I ==> is_iframe_bits(
            transform.dct,
            frames[i],
            streamed_bits(bits, i),
        ),
        streamed_kind(order, frames, states, i) != Kind::I ==> streamed_kind(
            order,
            frames,
            states,
            i,
        ) == Kind::P && states[i].anchor is Some && is_pframe_bits(
            transform.code,
            transform.restore,
            frames[i],
            states[i].anchor->0,
            streamed_bits(bits, i),
            states[i + 1].anchor->0,
        ),
    decreases i,
{
    if i > 0 {
        lemma_stream_grows(transform, order, frames, states, bits, i - 1);
    }
    lemma_one_streamed(
        transform,
        order,
        states[i],
        frames[i],
        bits[i],
        states[i + 1],
        bits[i + 1],
    );
}

/// A stream grows by the bits of a frame.
proof fn lemma_one_streamed<
    D: Fn(&Block<i16>) -> Block<i16>,
    I: Fn(&Block<i16>) -> Block<i16>,
    C: Fn(Plane, &Block<i16>) -> Block<i16>,
    R: Fn(Plane, &Block<i16>, &Block<i16>) -> Block<i16>,
>(
    transform: Transform<D, I, C, R>,
    order: FrameOrder,
    state: StreamState,
    frame: Picture<i16>,
    before: Seq<bool>,
    next: StreamState,
    after: Seq<bool>,
)
    requires
        before.len() % 8 == 0,
        is_frame_streamed(transform, order, state, frame, before, next, after),
    ensures
        ({
            let kind = stream_kind(order, stream_pos(state, frame));
            let chunk = after.skip(before.len() as int);
            &&& after.len() % 8 == 0
            &&& after == before + chunk
            &&& kind == Kind::I ==> is_iframe_bits(transform.dct, frame, chunk)
            &&& kind != Kind::I ==> kind == Kind::P && state.anchor is Some && is_pframe_bits(
                transform.code,
                transform.restore,
                frame,
                state.anchor->0,
                chunk,
                next.anchor->0,
            )
        }),
{
    if stream_kind(order, stream_pos(state, frame)) == Kind::I {
        lemma_iframe_grows(transform.dct, frame, before, after);
    } else {
        lemma_pframe_grows(
            transform.code,
            transform.restore,
            frame,
            state.anchor->0,
            before,
            after,
            next.anchor->0,
        );
    }
}

/// All bits of a stream of frames.
pub open spec fn stream_bits(bits: Seq<Seq<bool>>) -> Seq<bool> {
    padded(bits.last() + end_bits())
}

/// A stream goes on from the one before by whole bytes.
spec fn is_grown(bits: Seq<Seq<bool>>, i: int) -> bool {
    &&& bits[i].len() % 8 == 0
    &&& bits[i + 1].len() % 8 == 0
    &&& bits[i + 1] == bits[i] + streamed_bits(bits, i)
}

/// Every stream goes on from the one before by whole bytes.
spec fn is_growing(bits: Seq<Seq<bool>>) -> bool {
    forall|i: int| 0 <= i < bits.len() - 1 ==> #[trigger] is_grown(bits, i)
}

proof fn lemma_growing<
    D: Fn(&Block<i16>) -> Block<i16>,
    I: Fn(&Block<i16>) -> Block<i16>,
    C: Fn(Plane, &Block<i16>) -> Block<i16>,
    R: Fn(Plane, &Block<i16>, &Block<i16>) -> Block<i16>,
>(
    transform: Transform<D, I, C, R>,
    order: FrameOrder,
    frames: Seq<Picture<i16>>,
    states: Seq<StreamState>,
    bits: Seq<Seq<bool>>,
)
    requires
        are_frames_streamed(transform, order, frames, states, bits),
        bits.first().len() == 0,
    ensures
        bits.len() == frames.len() + 1,
        is_growing(bits),
{
    assert forall|i: int| 0 <= i < bits.len() - 1 implies #[trigger] is_grown(bits, i) by {
        lemma_stream_grows(transform, order, frames, states, bits, i);
    }
}

/// A later stream starts with an earlier one.
proof fn lemma_stream_starts(bits: Seq<Seq<bool>>, i: int, n: int)
    requires
        is_growing(bits),
        bits.first().len() == 0,
        0 <= i <= n < bits.len(),
    ensures
        bits[i].len() <= bits[n].len(),
        bits[n].take(bits[i].len() as int) == bits[i],
        bits[n].len() % 8 == 0,
    decreases n - i,
{
    if i == n {
        assert(bits[n].take(bits[i].len() as int) =~= bits[i]);
        if n > 0 {
            assert(is_grown(bits, n - 1));
        }
    } else {
        lemma_stream_starts(bits, i + 1, n);
        let len = bits[i].len() as int;
        assert(is_grown(bits, i));
        assert(bits[i + 1].take(len) =~= bits[i]);
        assert(bits[n].take(len) =~= bits[n].take(bits[i + 1].len() as int).take(len));
    }
}

proof fn lemma_tail(before: Seq<bool>, chunk: Seq<bool>, whole: Seq<bool>, end: Seq<bool>)
    requires
        before.len() + chunk.len() <= whole.len(),
        whole.take((before.len() + chunk.len()) as int) == before + chunk,
    ensures
        (whole + end).skip(before.len() as int) == chunk + (whole + end).skip(
            (before.len() + chunk.len()) as int,
        ),
{
    let all = whole + end;
    let n = before.len() as int;
    let m = n + chunk.len();
    let joined = chunk + all.skip(m);
    assert forall|j: int| 0 <= j < joined.len() implies all.skip(n)[j] == joined[j] by {
        if j < chunk.len() {
            assert(whole.take(m)[n + j] == (before + chunk)[n + j]);
        }
    }
    assert(all.skip(n) =~= joined);
}

/// What a reader that took `i` frames finds.
proof fn lemma_stream_tail<
    D: Fn(&Block<i16>) -> Block<i16>,
    I: Fn(&Block<i16>) -> Block<i16>,
    C: Fn(Plane, &Block<i16>) -> Block<i16>,
    R: Fn(Plane, &Block<i16>, &Block<i16>) -> Block<i16>,
>(
    transform: Transform<D, I, C, R>,
    order: FrameOrder,
    frames: Seq<Picture<i16>>,
    states: Seq<StreamState>,
    bits: Seq<Seq<bool>>,
    i: int,
)
    requires
        are_frames_streamed(transform, order, frames, states, bits),
        bits.first().len() == 0,
        0 <= i <= frames.len(),
    ensures
        ({
            let all = stream_bits(bits);
            let tail = all.skip(bits[i].len() as int);
            &&& tail.len() % 8 == 0
            &&& i == frames.len() ==> tail == end_bits()
            &&& i < frames.len() ==> tail == streamed_bits(bits, i) + all.skip(
                bits[i + 1].len() as int,
            )
        }),
{
    lemma_growing(transform, order, frames, states, bits);
    lemma_growing_tail(bits, i);
}

proof fn lemma_growing_tail(bits: Seq<Seq<bool>>, i: int)
    requires
        is_growing(bits),
        bits.first().len() == 0,
        0 <= i < bits.len(),
    ensures
        ({
            let all = stream_bits(bits);
            let tail = all.skip(bits[i].len() as int);
            &&& tail.len() % 8 == 0
            &&& i == bits.len() - 1 ==> tail == end_bits()
            &&& i < bits.len() - 1 ==> tail == streamed_bits(bits, i) + all.skip(
                bits[i + 1].len() as int,
            )
        }),
{
    let n = bits.len() - 1;
    let all = stream_bits(bits);
    lemma_end_mark();
    lemma_stream_starts(bits, i, n);
    lemma_padded(bits[n] + end_bits());
    assert(all =~= bits[n] + end_bits());
    let tail = all.skip(bits[i].len() as int);
    lemma_stream_starts(bits, i, i);
    if i == n {
        assert(tail =~= end_bits());
    } else {
        assert(is_grown(bits, i));
        lemma_stream_starts(bits, i + 1, n);
        lemma_tail(bits[i], streamed_bits(bits, i), bits[n], end_bits());
    }
}

/// The transform gives a block of a frame that stands alone back exactly.
pub open spec fn is_exact<
    D: Fn(&Block<i16>) -> Block<i16>,
    I: Fn(&Block<i16>) -> Block<i16>,
>(dct: D, idct: I) -> bool {
    let luma = table_steps::<i16>(VIDEO_LUMINANCE_QUANTIZATION@);
    let chroma = table_steps::<i16>(VIDEO_CHROMINANCE_QUANTIZATION@);
    let same = |a: Seq<i16>, b: Seq<i16>| a == b;
    gives_image_back(dct, idct, luma, same) && gives_image_back(dct, idct, chroma, same)
}

/// Planes that come back exactly are the same.
proof fn lemma_exact_plane(a: Seq<Block<i16>>, b: Seq<Block<i16>>)
    requires
        all_close(a, b, |x: Seq<i16>, y: Seq<i16>| x == y),
    ensures
        a == b,
{
    assert forall|t: int| 0 <= t < a.len() implies block_views(a)[t]
        == block_views(b)[t] by {
        assert(a[t]@ == b[t]@);
    }
    assert(block_views(a) =~= block_views(b));
    lemma_same_blocks(a, b);
}

/// The coder and the reader see the same anchors: the transform is steady and
/// gives frames that stand alone back exactly, and gives others back up to
/// `close`, and all frames have one subsampling.
pub open spec fn is_exact_stream<
    D: Fn(&Block<i16>) -> Block<i16>,
    I: Fn(&Block<i16>) -> Block<i16>,
    C: Fn(Plane, &Block<i16>) -> Block<i16>,
    R: Fn(Plane, &Block<i16>, &Block<i16>) -> Block<i16>,
>(
    transform: Transform<D, I, C, R>,
    frames: Seq<Picture<i16>>,
    close: spec_fn(Seq<i16>, Seq<i16>) -> bool,
) -> bool {
    &&& is_exact(transform.dct, transform.idct)
    &&& is_steady(transform.restore)
    &&& gives_back(transform.code, transform.restore, Plane::Luma, close)
    &&& gives_back(transform.code, transform.restore, Plane::Chroma, close)
    &&& forall|i: int|
        0 <= i < frames.len() ==> (#[trigger] frames[i]).subsampling == frames[0].subsampling
}

/// Where a reader stands after it took `k` frames.
spec fn is_stream_after<
    D: Fn(&Block<i16>) -> Block<i16>,
    I: Fn(&Block<i16>) -> Block<i16>,
    C: Fn(Plane, &Block<i16>) -> Block<i16>,
    R: Fn(Plane, &Block<i16>, &Block<i16>) -> Block<i16>,
>(
    transform: Transform<D, I, C, R>,
    order: FrameOrder,
    frames: Seq<Picture<i16>>,
    states: Seq<StreamState>,
    bits: Seq<Seq<bool>>,
    close: spec_fn(Seq<i16>, Seq<i16>) -> bool,
    k: int,
    state: ReaderState,
) -> bool {
    &&& state.bits == stream_bits(bits).skip(bits[k].len() as int)
    &&& state.pending.len() == 0
    &&& !state.eof
    &&& state.ready.len() == k
    &&& k == 0 ==> state.anchor is None
    &&& k > 0 ==> state.anchor is Some
    &&& forall|i: int|
        0 <= i < k ==> {
            let kind = streamed_kind(order, frames, states, i);
            &&& (#[trigger] state.ready[i]).0 == kind
            &&& kind == Kind::I ==> is_frame_back(frames[i], state.ready[i].1, kind, close)
            &&& is_exact_stream(transform, frames, close) ==> is_frame_back(
                frames[i],
                state.ready[i].1,
                kind,
                close,
            )
        }
    &&& is_exact_stream(transform, frames, close) && k > 0 ==> {
        let anchor = states[k].anchor->0;
        &&& state.anchor == states[k].anchor
        &&& is_full(anchor)
        &&& anchor.subsampling == frames[0].subsampling
    }
}

/// A reader takes the next frame of a stream.
proof fn lemma_stream_step<
    D: Fn(&Block<i16>) -> Block<i16>,
    I: Fn(&Block<i16>) -> Block<i16>,
    C: Fn(Plane, &Block<i16>) -> Block<i16>,
    R: Fn(Plane, &Block<i16>, &Block<i16>) -> Block<i16>,
>(
    transform: Transform<D, I, C, R>,
    order: FrameOrder,
    frames: Seq<Picture<i16>>,
    states: Seq<StreamState>,
    bits: Seq<Seq<bool>>,
    close: spec_fn(Seq<i16>, Seq<i16>) -> bool,
    k: int,
    before: ReaderState,
    r: Result<bool>,
    after: ReaderState,
)
    requires
        is_sound_stream(transform, order, frames, states, bits),
        gives_image_back(
            transform.dct,
            transform.idct,
            table_steps::<i16>(VIDEO_LUMINANCE_QUANTIZATION@),
            close,
        ),
        gives_image_back(
            transform.dct,
            transform.idct,
            table_steps::<i16>(VIDEO_CHROMINANCE_QUANTIZATION@),
            close,
        ),
        0 <= k < frames.len(),
        is_stream_after(transform, order, frames, states, bits, close, k, before),
        is_step(transform.idct, transform.restore, before, r, after),
    ensures
        r == Ok::<bool, Error>(true),
        is_stream_after(transform, order, frames, states, bits, close, k + 1, after),
{
    let frame = frames[k];
    let kind = streamed_kind(order, frames, states, k);
    let chunk = streamed_bits(bits, k);
    let rest = stream_bits(bits).skip(bits[k + 1].len() as int);
    let idct = transform.idct;
    let restore = transform.restore;
    assert(is_sound_frame(frame));
    lemma_stream_grows(transform, order, frames, states, bits, k);
    lemma_stream_tail(transform, order, frames, states, bits, k);
    lemma_stream_tail(transform, order, frames, states, bits, k + 1);
    assert(before.bits == chunk + rest);
    assert(is_frame_streamed(
        transform,
        order,
        states[k],
        frame,
        bits[k],
        states[k + 1],
        bits[k + 1],
    ));
    lemma_streamed_header(transform, order, frames, states, bits, k, rest);
    reveal(is_iframe_bits);
    reveal(is_pframe_bits);
    let read = choose|read: Result<DecodedFrameData>|
        {
            &&& #[trigger] is_data_read(
                idct,
                header_kind(before.bits),
                before.bits.skip(88),
                read,
                after.bits,
            )
            &&& read is Err ==> r is Err && r->Err_0 == read->Err_0 && only_bits_went(
                before,
                after,
            )
            &&& read is Ok ==> is_frame_taken(restore, before, read->Ok_0, r, after)
        };
    if kind == Kind::I {
        let luma = table_steps::<i16>(VIDEO_LUMINANCE_QUANTIZATION@);
        let chroma = table_steps::<i16>(VIDEO_CHROMINANCE_QUANTIZATION@);
        let (y, cb, cr) = choose|y: Seq<Block<i16>>, cb: Seq<Block<i16>>, cr: Seq<Block<i16>>|
            {
                &&& is_coded_plane(transform.dct, luma, frame.y, y)
                &&& is_coded_plane(transform.dct, chroma, frame.cb, cb)
                &&& is_coded_plane(transform.dct, chroma, frame.cr, cr)
                &&& are_planes_kept(frame.dimensions, frame.subsampling, y, cb, cr)
                &&& chunk == #[trigger] frame_bits(
                    frame_start(frame, Kind::I),
                    frame.dimensions,
                    frame.subsampling,
                    y,
                    cb,
                    cr,
                )
            };
        lemma_planes_read(
            transform.dct,
            idct,
            frame,
            y,
            cb,
            cr,
            chunk,
            rest,
            read,
            after.bits,
        );
        let shown = read->Ok_0->IFrame_0@;
        let dct = transform.dct;
        lemma_image_plane_close(dct, idct, luma, frame.y, y, shown.y, close);
        lemma_image_plane_close(dct, idct, chroma, frame.cb, cb, shown.cb, close);
        lemma_image_plane_close(dct, idct, chroma, frame.cr, cr, shown.cr, close);
        if is_exact_stream(transform, frames, close) {
            let same = |a: Seq<i16>, b: Seq<i16>| a == b;
            lemma_image_plane_close(dct, idct, luma, frame.y, y, shown.y, same);
            lemma_image_plane_close(dct, idct, chroma, frame.cb, cb, shown.cb, same);
            lemma_image_plane_close(dct, idct, chroma, frame.cr, cr, shown.cr, same);
            lemma_exact_plane(frame.y, shown.y);
            lemma_exact_plane(frame.cb, shown.cb);
            lemma_exact_plane(frame.cr, shown.cr);
            assert(shown == frame);
        }
        lemma_stream_shown(
            transform,
            order,
            frames,
            states,
            bits,
            close,
            k,
            before,
            shown,
            after,
        );
    } else {
        let anchor = states[k].anchor->0;
        let next = states[k + 1].anchor->0;
        let coded = choose|coded: Seq<PMacroBlock<i16>>|
            {
                &&& #[trigger] are_macroblocks(transform.code, frame, anchor, coded)
                &&& is_kept(items_bytes::<PMacroBlock<i16>>(models(coded)))
                &&& chunk == macros_bits(frame_start(frame, Kind::P), coded)
                &&& is_assembled(restore, None, anchor, coded, next)
            };
        lemma_pmacros_read(idct, frame, coded, chunk, rest, read, after.bits);
        assert(k > 0);
        let found = before.anchor->0;
        let macro_blocks = read->Ok_0->PFrame_0@;
        let shown = choose|shown: Picture<i16>|
            {
                &&& r == Ok::<bool, Error>(true)
                &&& #[trigger] is_assembled(restore, None, found, macro_blocks, shown)
                &&& is_anchor_ready(restore, before, Kind::P, shown, after)
            };
        if is_exact_stream(transform, frames, close) {
            lemma_assembled_moves(restore, None, anchor, macro_blocks, coded, shown);
            law_assembled_is_one(restore, None, anchor, coded, shown, next);
            assert(!is_scene_change(anchor, frame));
            law_pframe_comes_back(
                transform.code,
                restore,
                frame,
                anchor,
                coded,
                next,
                close,
            );
            lemma_assembled_len(restore, None, anchor, coded, next);
        }
        lemma_stream_shown(
            transform,
            order,
            frames,
            states,
            bits,
            close,
            k,
            before,
            shown,
            after,
        );
    }
}

/// The stream says which kind of frame comes.
proof fn lemma_streamed_header<
    D: Fn(&Block<i16>) -> Block<i16>,
    I: Fn(&Block<i16>) -> Block<i16>,
    C: Fn(Plane, &Block<i16>) -> Block<i16>,
    R: Fn(Plane, &Block<i16>, &Block<i16>) -> Block<i16>,
>(
    transform: Transform<D, I, C, R>,
    order: FrameOrder,
    frames: Seq<Picture<i16>>,
    states: Seq<StreamState>,
    bits: Seq<Seq<bool>>,
    k: int,
    rest: Seq<bool>,
)
    requires
        are_frames_streamed(transform, order, frames, states, bits),
        bits.first().len() == 0,
        0 <= k < frames.len(),
    ensures
        ({
            let stream = streamed_bits(bits, k) + rest;
            &&& holds_frame(stream)
            &&& !holds_end(stream)
            &&& header_kind(stream) == streamed_kind(order, frames, states, k)
        }),
{
    let frame = frames[k];
    let chunk = streamed_bits(bits, k);
    lemma_stream_grows(transform, order, frames, states, bits, k);
    if streamed_kind(order, frames, states, k) == Kind::I {
        lemma_iframe_header(transform.dct, frame, chunk, rest);
    } else {
        lemma_pframe_header(
            transform.code,
            transform.restore,
            frame,
            states[k].anchor->0,
            chunk,
            states[k + 1].anchor->0,
            rest,
        );
    }
}

proof fn lemma_iframe_header<D: Fn(&Block<i16>) -> Block<i16>>(
    dct: D,
    frame: Picture<i16>,
    chunk: Seq<bool>,
    rest: Seq<bool>,
)
    requires
        is_iframe_bits(dct, frame, chunk),
    ensures
        holds_frame(chunk + rest),
        !holds_end(chunk + rest),
        header_kind(chunk + rest) == Kind::I,
{
    reveal(is_iframe_bits);
    let start = frame_start(frame, Kind::I);
    let (y, cb, cr) = choose|y: Seq<Block<i16>>, cb: Seq<Block<i16>>, cr: Seq<Block<i16>>|
        chunk == #[trigger] frame_bits(
            start,
            frame.dimensions,
            frame.subsampling,
            y,
            cb,
            cr,
        );
    lemma_holds_planes(frame, y, cb, cr, rest);
}

proof fn lemma_pframe_header<
    C: Fn(Plane, &Block<i16>) -> Block<i16>,
    R: Fn(Plane, &Block<i16>, &Block<i16>) -> Block<i16>,
>(
    code: C,
    restore: R,
    frame: Picture<i16>,
    anchor: Picture<i16>,
    chunk: Seq<bool>,
    next: Picture<i16>,
    rest: Seq<bool>,
)
    requires
        is_pframe_bits(code, restore, frame, anchor, chunk, next),
    ensures
        holds_frame(chunk + rest),
        !holds_end(chunk + rest),
        header_kind(chunk + rest) == Kind::P,
{
    reveal(is_pframe_bits);
    let start = frame_start(frame, Kind::P);
    let coded = choose|coded: Seq<PMacroBlock<i16>>|
        {
            &&& #[trigger] are_macroblocks(code, frame, anchor, coded)
            &&& chunk == macros_bits(start, coded)
        };
    lemma_holds_macros(frame, Kind::P, coded, rest);
}

/// An anchor that was read is the next frame that is ready.
proof fn lemma_stream_shown<
    D: Fn(&Block<i16>) -> Block<i16>,
    I: Fn(&Block<i16>) -> Block<i16>,
    C: Fn(Plane, &Block<i16>) -> Block<i16>,
    R: Fn(Plane, &Block<i16>, &Block<i16>) -> Block<i16>,
>(
    transform: Transform<D, I, C, R>,
    order: FrameOrder,
    frames: Seq<Picture<i16>>,
    states: Seq<StreamState>,
    bits: Seq<Seq<bool>>,
    close: spec_fn(Seq<i16>, Seq<i16>) -> bool,
    k: int,
    before: ReaderState,
    shown: Picture<i16>,
    after: ReaderState,
)
    requires
        0 <= k < frames.len(),
        is_stream_after(transform, order, frames, states, bits, close, k, before),
        after.bits == stream_bits(bits).skip(bits[k + 1].len() as int),
        ({
            let kind = streamed_kind(order, frames, states, k);
            &&& is_anchor_ready(transform.restore, before, kind, shown, after)
            &&& kind == Kind::I ==> is_frame_back(frames[k], shown, kind, close)
            &&& is_exact_stream(transform, frames, close) ==> {
                &&& is_frame_back(frames[k], shown, kind, close)
                &&& states[k + 1].anchor == Some(shown)
                &&& is_full(shown)
                &&& shown.subsampling == frames[0].subsampling
            }
        }),
    ensures
        is_stream_after(transform, order, frames, states, bits, close, k + 1, after),
{
    let kind = streamed_kind(order, frames, states, k);
    let flushed = choose|flushed: Seq<(Kind, Picture<i16>)>|
        {
            &&& #[trigger] is_flushed(
                transform.restore,
                Some(shown),
                before.anchor,
                before.pending,
                flushed,
            )
            &&& after.ready == before.ready + flushed + seq![(kind, shown)]
        };
    assert(flushed.len() == 0);
    assert forall|i: int| 0 <= i < k + 1 implies {
        let expected = streamed_kind(order, frames, states, i);
        &&& (#[trigger] after.ready[i]).0 == expected
        &&& expected == Kind::I ==> is_frame_back(frames[i], after.ready[i].1, expected, close)
        &&& is_exact_stream(transform, frames, close) ==> is_frame_back(
            frames[i],
            after.ready[i].1,
            expected,
            close,
        )
    } by {
        if i < k {
            assert(after.ready[i] == before.ready[i]);
        } else {
            assert(after.ready[i] == (kind, shown));
        }
    }
}

proof fn lemma_stream_run<
    D: Fn(&Block<i16>) -> Block<i16>,
    I: Fn(&Block<i16>) -> Block<i16>,
    C: Fn(Plane, &Block<i16>) -> Block<i16>,
    R: Fn(Plane, &Block<i16>, &Block<i16>) -> Block<i16>,
>(
    transform: Transform<D, I, C, R>,
    order: FrameOrder,
    frames: Seq<Picture<i16>>,
    states: Seq<StreamState>,
    bits: Seq<Seq<bool>>,
    close: spec_fn(Seq<i16>, Seq<i16>) -> bool,
    readers: Seq<ReaderState>,
    answers: Seq<Result<bool>>,
    k: int,
)
    requires
        is_sound_stream(transform, order, frames, states, bits),
        gives_image_back(
            transform.dct,
            transform.idct,
            table_steps::<i16>(VIDEO_LUMINANCE_QUANTIZATION@),
            close,
        ),
        gives_image_back(
            transform.dct,
            transform.idct,
            table_steps::<i16>(VIDEO_CHROMINANCE_QUANTIZATION@),
            close,
        ),
        is_frames_run(transform.idct, transform.restore, readers, answers),
        is_fresh(readers[0]),
        readers[0].bits == stream_bits(bits),
        0 <= k <= frames.len(),
        k <= answers.len(),
    ensures
        is_stream_after(transform, order, frames, states, bits, close, k, readers[k]),
        forall|i: int| 0 <= i < k ==> #[trigger] answers[i] == Ok::<bool, Error>(true),
    decreases k,
{
    if k == 0 {
        assert(stream_bits(bits).skip(0) =~= stream_bits(bits));
    } else {
        lemma_stream_run(
            transform,
            order,
            frames,
            states,
            bits,
            close,
            readers,
            answers,
            k - 1,
        );
        assert(is_step(
            transform.idct,
            transform.restore,
            readers[k - 1],
            answers[k - 1],
            readers[k],
        ));
        lemma_stream_step(
            transform,
            order,
            frames,
            states,
            bits,
            close,
            k - 1,
            readers[k - 1],
            answers[k - 1],
            readers[k],
        );
    }
}

/// A video that was written frame by frame is read back: every frame is found,
/// and behind the mark of the end all of them are ready in the order in which
/// they were written, each of the kind that it was written as. Frames that stand
/// alone come back block by block as close as the transform gives back single
/// blocks. Predicted frames are coded from the frames themselves and put together
/// from what was read of them. So they come back as closely only where the
/// transform gives frames that stand alone back exactly.
pub proof fn law_stream_comes_back<
    D: Fn(&Block<i16>) -> Block<i16>,
    I: Fn(&Block<i16>) -> Block<i16>,
    C: Fn(Plane, &Block<i16>) -> Block<i16>,
    R: Fn(Plane, &Block<i16>, &Block<i16>) -> Block<i16>,
>(
    transform: Transform<D, I, C, R>,
    order: FrameOrder,
    frames: Seq<Picture<i16>>,
    states: Seq<StreamState>,
    bits: Seq<Seq<bool>>,
    close: spec_fn(Seq<i16>, Seq<i16>) -> bool,
    readers: Seq<ReaderState>,
    answers: Seq<Result<bool>>,
)
    requires
        is_sound_stream(transform, order, frames, states, bits),
        gives_image_back(
            transform.dct,
            transform.idct,
            table_steps::<i16>(VIDEO_LUMINANCE_QUANTIZATION@),
            close,
        ),
        gives_image_back(
            transform.dct,
            transform.idct,
            table_steps::<i16>(VIDEO_CHROMINANCE_QUANTIZATION@),
            close,
        ),
        is_frames_run(transform.idct, transform.restore, readers, answers),
        answers.len() == frames.len() + 1,
        is_fresh(readers[0]),
        readers[0].bits == stream_bits(bits),
    ensures
        forall|i: int| 0 <= i < frames.len() ==> #[trigger] answers[i] == Ok::<bool, Error>(true),
        answers.last() == Ok::<bool, Error>(false),
        ({
            let ready = readers.last().ready;
            &&& ready.len() == frames.len()
            &&& forall|i: int|
                0 <= i < frames.len() ==> {
                    let kind = streamed_kind(order, frames, states, i);
                    &&& (#[trigger] ready[i]).0 == kind
                    &&& kind == Kind::I ==> is_frame_back(frames[i], ready[i].1, kind, close)
                    &&& is_exact_stream(transform, frames, close) ==> is_frame_back(
                        frames[i],
                        ready[i].1,
                        kind,
                        close,
                    )
                }
        }),
{
    let n = frames.len() as int;
    lemma_stream_run(
        transform,
        order,
        frames,
        states,
        bits,
        close,
        readers,
        answers,
        n,
    );
    assert(is_step(transform.idct, transform.restore, readers[n], answers[n], readers[n + 1]));
    lemma_stream_ends(
        transform,
        order,
        frames,
        states,
        bits,
        close,
        readers[n],
        answers[n],
        readers[n + 1],
    );
}

/// What is shown of frame `i`: a frame of the kind that it was written as, as close
/// as the transform gives back single blocks where it stands alone, and where the
/// coder and the reader see the same anchors.
pub open spec fn is_streamed_back<
    D: Fn(&Block<i16>) -> Block<i16>,
    I: Fn(&Block<i16>) -> Block<i16>,
    C: Fn(Plane, &Block<i16>) -> Block<i16>,
    R: Fn(Plane, &Block<i16>, &Block<i16>) -> Block<i16>,
>(
    transform: Transform<D, I, C, R>,
    order: FrameOrder,
    frames: Seq<Picture<i16>>,
    states: Seq<StreamState>,
    close: spec_fn(Seq<i16>, Seq<i16>) -> bool,
    i: int,
    shown: (Kind, Picture<i16>),
) -> bool {
    let kind = streamed_kind(order, frames, states, i);
    &&& shown.0 == kind
    &&& kind == Kind::I ==> is_frame_back(frames[i], shown.1, kind, close)
    &&& is_exact_stream(transform, frames, close) ==> is_frame_back(
        frames[i],
        shown.1,
        kind,
        close,
    )
}

/// A reader that took all frames finds the mark of the end.
proof fn lemma_stream_ends<
    D: Fn(&Block<i16>) -> Block<i16>,
    I: Fn(&Block<i16>) -> Block<i16>,
    C: Fn(Plane, &Block<i16>) -> Block<i16>,
    R: Fn(Plane, &Block<i16>, &Block<i16>) -> Block<i16>,
>(
    transform: Transform<D, I, C, R>,
    order: FrameOrder,
    frames: Seq<Picture<i16>>,
    states: Seq<StreamState>,
    bits: Seq<Seq<bool>>,
    close: spec_fn(Seq<i16>, Seq<i16>) -> bool,
    before: ReaderState,
    r: Result<bool>,
    after: ReaderState,
)
    requires
        is_sound_stream(transform, order, frames, states, bits),
        is_stream_after(
            transform,
            order,
            frames,
            states,
            bits,
            close,
            frames.len() as int,
            before,
        ),
        is_step(transform.idct, transform.restore, before, r, after),
    ensures
        r == Ok::<bool, Error>(false),
        after.ready == before.ready,
{
    lemma_stream_tail(transform, order, frames, states, bits, frames.len() as int);
    lemma_end_mark();
    let last = before.anchor;
    let shown = choose|shown: Seq<(Kind, Picture<i16>)>|
        #[trigger] is_flushed(transform.restore, last, last, before.pending, shown) && after.ready
            == before.ready + shown;
    assert(shown.len() == 0);
    assert(after.ready =~= before.ready);
}

/// A video that was written frame by frame is shown frame by frame: as many calls
/// as there are frames give them in the order in which they were written, each of
/// the kind that it was written as, and every later call gives none.
pub proof fn law_calls_give_the_stream<
    D: Fn(&Block<i16>) -> Block<i16>,
    I: Fn(&Block<i16>) -> Block<i16>,
    C: Fn(Plane, &Block<i16>) -> Block<i16>,
    R: Fn(Plane, &Block<i16>, &Block<i16>) -> Block<i16>,
>(
    transform: Transform<D, I, C, R>,
    order: FrameOrder,
    frames: Seq<Picture<i16>>,
    states: Seq<StreamState>,
    bits: Seq<Seq<bool>>,
    close: spec_fn(Seq<i16>, Seq<i16>) -> bool,
    readers: Seq<ReaderState>,
    results: Seq<Option<Result<DecodedFrame>>>,
)
    requires
        is_sound_stream(transform, order, frames, states, bits),
        gives_image_back(
            transform.dct,
            transform.idct,
            table_steps::<i16>(VIDEO_LUMINANCE_QUANTIZATION@),
            close,
        ),
        gives_image_back(
            transform.dct,
            transform.idct,
            table_steps::<i16>(VIDEO_CHROMINANCE_QUANTIZATION@),
            close,
        ),
        is_calls_run(transform.idct, transform.restore, readers, results),
        is_fresh(readers[0]),
        readers[0].bits == stream_bits(bits),
    ensures
        forall|i: int|
            0 <= i < results.len() && i < frames.len() ==> {
                &&& #[trigger] results[i] is Some
                &&& results[i]->0 is Ok
                &&& is_streamed_back(
                    transform,
                    order,
                    frames,
                    states,
                    close,
                    i,
                    results[i]->0->Ok_0@,
                )
            },
        forall|i: int| frames.len() <= i < results.len() ==> #[trigger] results[i] is None,
{
    let n = frames.len() as int;
    let at = |k: int, s: ReaderState|
        is_stream_after(transform, order, frames, states, bits, close, k, s);
    let nice = |i: int, f: (Kind, Picture<i16>)|
        is_streamed_back(transform, order, frames, states, close, i, f);
    assert(finds_all(transform.idct, transform.restore, n, at, nice)) by {
        assert forall|k: int, s: ReaderState| #[trigger] at(k, s) && 0 <= k <= n implies !s.eof
            && s.ready.len() <= n && are_nice(nice, s.ready) by {}
        assert forall|k: int, s: ReaderState, r: Result<bool>, t: ReaderState|
            0 <= k < n && #[trigger] at(k, s) && #[trigger] is_step(
                transform.idct,
                transform.restore,
                s,
                r,
                t,
            ) implies r == Ok::<bool, Error>(true) && at(k + 1, t) by {
            lemma_stream_step(transform, order, frames, states, bits, close, k, s, r, t);
        }
        assert forall|s: ReaderState, r: Result<bool>, t: ReaderState|
            at(n, s) && #[trigger] is_step(
                transform.idct,
                transform.restore,
                s,
                r,
                t,
            ) implies r == Ok::<bool, Error>(false) && t.ready.len() == n && are_nice(
            nice,
            t.ready,
        ) by {
            lemma_stream_ends(transform, order, frames, states, bits, close, s, r, t);
        }
    }
    assert(at(0, readers[0])) by {
        assert(stream_bits(bits).skip(0) =~= stream_bits(bits));
    }
    law_calls_show_all(transform.idct, transform.restore, n, at, nice, readers, results);
    assert forall|i: int| 0 <= i < results.len() && i < frames.len() implies {
        &&& #[trigger] results[i] is Some
        &&& results[i]->0 is Ok
        &&& is_streamed_back(
            transform,
            order,
            frames,
            states,
            close,
            i,
            results[i]->0->Ok_0@,
        )
    } by {
        assert(is_answer(n, nice, i, results[i]));
    }
    assert forall|i: int| frames.len() <= i < results.len() implies #[trigger] results[i] is None
        by {
        assert(is_answer(n, nice, i, results[i]));
    }
}

} // verus!
