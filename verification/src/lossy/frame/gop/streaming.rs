//! A video that is written group by group and read frame by frame comes back.
use vstd::prelude::*;

use super::assemble::{backward_pos, forward_pos};
use super::calls::{are_nice, finds_all, is_answer, is_calls_run, law_calls_show_all};
use super::coming_back::{
    are_frames_small, is_bframe_back, is_data_back, is_sound_frame, is_sound_group,
    lemma_next_chunk,
};
use super::data::{header_kind, is_data_read, DecodedFrameData};
use super::encode::{is_codable, Transform};
use super::frames_reader::{
    is_anchor_ready, is_flushed, is_frame_taken, is_step, only_bits_went, ReaderState,
};
use super::group::{
    anchor_up_to, anchors_before, are_gop_chunks, backward_of, forward_of, joined_bits,
};
use super::header::{end_bits, holds_end, holds_frame};
use super::round_trip::{
    gives_all_back, is_frame_back, law_chain_agrees, law_references_agree, lemma_anchor_close,
    lemma_anchor_shape,
};
use super::video::{
    has_group, is_sound_video, law_groups_keep_all, lemma_end_mark, lemma_frame_group,
    lemma_groups_bits_first, lemma_groups_bits_len, lemma_next_position, video_bits,
};
use super::writer::groups;
use super::{law_group_follows_order, DecodedFrame, FrameOrder};
use crate::block::Block;
use crate::error::{Error, Result};
use crate::lossy::frame::assembly::{base_of, is_assembled};
use crate::lossy::frame::bframe;
use crate::lossy::frame::bframe::{
    law_bframe_comes_back, law_known_references, law_lone_bframe_comes_back,
};
use crate::lossy::frame::coding::is_full;
use crate::lossy::frame::macroblock::bmacro::BMacroBlock;
use crate::lossy::frame::macroblock::pmacro::PMacroBlock;
use crate::lossy::frame::pframe;
use crate::lossy::frame::prediction::{looks_ahead, Plane};
use crate::lossy::frame::same::{
    are_same_macros, is_same_macro, law_assembled_is_one, lemma_assembled_moves,
};
use crate::lossy::frame::Kind;
use crate::lossy::Picture;

verus! {

/// Behind the last anchor up to a position there is none.
proof fn lemma_last_anchor(order: FrameOrder, idx: int)
    requires
        0 <= idx,
    ensures
        0 <= anchor_up_to(order, idx) <= idx,
        order.gop_kind(anchor_up_to(order, idx)) != Kind::B,
        forall|m: int|
            anchor_up_to(order, idx) < m <= idx ==> #[trigger] order.gop_kind(m) == Kind::B,
        anchors_before(order, idx + 1) == anchors_before(order, anchor_up_to(order, idx)) + 1,
    decreases idx,
{
    if idx > 0 && order.gop_kind(idx) == Kind::B {
        lemma_last_anchor(order, idx - 1);
    }
}

/// A frame that is held back is what was written of the frame at a position.
spec fn is_pending_back<
    D: Fn(&Block<i16>) -> Block<i16>,
    I: Fn(&Block<i16>) -> Block<i16>,
    C: Fn(Plane, &Block<i16>) -> Block<i16>,
    R: Fn(Plane, &Block<i16>, &Block<i16>) -> Block<i16>,
>(
    transform: Transform<D, I, C, R>,
    order: FrameOrder,
    gop: Seq<Picture<i16>>,
    anchors: Seq<Picture<i16>>,
    idx: int,
    read: Seq<BMacroBlock<i16>>,
) -> bool {
    is_bframe_back(
        transform.code,
        gop[idx],
        forward_of(order, anchors, idx, gop.len() as int),
        backward_of(order, anchors, idx),
        read,
    )
}

/// A frame that is held back comes back where the next anchor of its group is
/// there.
proof fn lemma_pending_close<
    D: Fn(&Block<i16>) -> Block<i16>,
    I: Fn(&Block<i16>) -> Block<i16>,
    C: Fn(Plane, &Block<i16>) -> Block<i16>,
    R: Fn(Plane, &Block<i16>, &Block<i16>) -> Block<i16>,
>(
    transform: Transform<D, I, C, R>,
    order: FrameOrder,
    gop: Seq<Picture<i16>>,
    anchors: Seq<Picture<i16>>,
    chunks: Seq<Seq<u8>>,
    close: spec_fn(Seq<i16>, Seq<i16>) -> bool,
    idx: int,
    last: int,
    next: int,
    read: Seq<BMacroBlock<i16>>,
    shown: Picture<i16>,
)
    requires
        is_sound_group(order, gop),
        are_gop_chunks(transform, order, gop, anchors, chunks),
        gives_all_back(transform, close),
        0 <= last < idx < next < gop.len(),
        order.gop_kind(last) != Kind::B,
        order.gop_kind(next) != Kind::B,
        forall|m: int| last < m < next ==> #[trigger] order.gop_kind(m) == Kind::B,
        is_pending_back(transform, order, gop, anchors, idx, read),
        is_assembled(
            transform.restore,
            Some(anchors[anchors_before(order, next) as int]),
            anchors[anchors_before(order, last) as int],
            read,
            shown,
        ),
    ensures
        is_frame_back(gop[idx], shown, Kind::B, close),
{
    let len = gop.len() as int;
    assert(order.gop_kind(idx) == Kind::B);
    assert(order.anchor_distance > 0) by {
        assert(is_codable(gop[idx], order.gop_kind(idx)));
    }
    law_references_agree(order, anchors, idx, len);
    let before = backward_pos(order, Kind::B, idx);
    let after = forward_pos(order, idx);
    assert(before == last);
    assert(after == next);
    lemma_anchor_shape(transform, order, gop, anchors, chunks, next);
    lemma_coded_close(transform, order, gop, anchors, chunks, close, idx, read, shown);
}

/// A frame that is put together from the anchors it was coded from comes back.
proof fn lemma_coded_close<
    D: Fn(&Block<i16>) -> Block<i16>,
    I: Fn(&Block<i16>) -> Block<i16>,
    C: Fn(Plane, &Block<i16>) -> Block<i16>,
    R: Fn(Plane, &Block<i16>, &Block<i16>) -> Block<i16>,
>(
    transform: Transform<D, I, C, R>,
    order: FrameOrder,
    gop: Seq<Picture<i16>>,
    anchors: Seq<Picture<i16>>,
    chunks: Seq<Seq<u8>>,
    close: spec_fn(Seq<i16>, Seq<i16>) -> bool,
    idx: int,
    read: Seq<BMacroBlock<i16>>,
    shown: Picture<i16>,
)
    requires
        is_sound_group(order, gop),
        gives_all_back(transform, close),
        0 <= idx < gop.len(),
        is_pending_back(transform, order, gop, anchors, idx, read),
        ({
            let forward = forward_of(order, anchors, idx, gop.len() as int);
            let backward = backward_of(order, anchors, idx);
            let base = base_of(forward, backward);
            &&& is_assembled(transform.restore, forward, backward, read, shown)
            &&& is_full(base)
            &&& base.dimensions == gop[0].dimensions
            &&& base.subsampling == gop[0].subsampling
        }),
    ensures
        is_frame_back(gop[idx], shown, Kind::B, close),
{
    let forward = forward_of(order, anchors, idx, gop.len() as int);
    let backward = backward_of(order, anchors, idx);
    assert(is_sound_frame(gop[idx]));
    let coded = choose|coded: Seq<BMacroBlock<i16>>|
        {
            &&& #[trigger] bframe::are_macroblocks(
                transform.code,
                gop[idx],
                forward,
                backward,
                coded,
            )
            &&& are_same_macros(read, coded)
        };
    lemma_assembled_moves(transform.restore, forward, backward, read, coded, shown);
    law_bframe_comes_back(
        transform.code,
        transform.restore,
        gop[idx],
        forward,
        backward,
        coded,
        shown,
        close,
    );
}

/// Behind the last anchor of a group, frames are coded without one that follows.
proof fn lemma_trailing<
    D: Fn(&Block<i16>) -> Block<i16>,
    I: Fn(&Block<i16>) -> Block<i16>,
    C: Fn(Plane, &Block<i16>) -> Block<i16>,
    R: Fn(Plane, &Block<i16>, &Block<i16>) -> Block<i16>,
>(
    transform: Transform<D, I, C, R>,
    order: FrameOrder,
    gop: Seq<Picture<i16>>,
    anchors: Seq<Picture<i16>>,
    chunks: Seq<Seq<u8>>,
    idx: int,
    last: int,
    read: Seq<BMacroBlock<i16>>,
)
    requires
        is_sound_group(order, gop),
        are_gop_chunks(transform, order, gop, anchors, chunks),
        0 <= last < idx < gop.len(),
        order.gop_kind(last) != Kind::B,
        forall|m: int| last < m < gop.len() ==> #[trigger] order.gop_kind(m) == Kind::B,
        is_pending_back(transform, order, gop, anchors, idx, read),
    ensures
        forward_of(order, anchors, idx, gop.len() as int) is None,
        backward_of(order, anchors, idx) == anchors[anchors_before(order, last) as int],
        !has_look_ahead(read),
{
    let len = gop.len() as int;
    assert(order.gop_kind(idx) == Kind::B);
    assert(order.anchor_distance > 0) by {
        assert(is_codable(gop[idx], order.gop_kind(idx)));
    }
    law_references_agree(order, anchors, idx, len);
    let before = backward_pos(order, Kind::B, idx);
    let after = forward_pos(order, idx);
    assert(before == last);
    assert(after >= len);
    assert(is_sound_frame(gop[idx]));
    let backward = backward_of(order, anchors, idx);
    let coded = choose|coded: Seq<BMacroBlock<i16>>|
        {
            &&& #[trigger] bframe::are_macroblocks(
                transform.code,
                gop[idx],
                None::<Picture<i16>>,
                backward,
                coded,
            )
            &&& are_same_macros(read, coded)
        };
    law_known_references(transform.code, gop[idx], None, backward, coded);
    if has_look_ahead(read) {
        let j = choose|j: int|
            0 <= j < read.len() && looks_ahead((#[trigger] read[j]).prediction);
        assert(is_same_macro(read[j], coded[j]));
        assert(looks_ahead(coded[j].prediction));
    }
}

/// A frame behind the last anchor of its group comes back, whatever stands for
/// the anchor that follows.
proof fn lemma_trailing_close<
    D: Fn(&Block<i16>) -> Block<i16>,
    I: Fn(&Block<i16>) -> Block<i16>,
    C: Fn(Plane, &Block<i16>) -> Block<i16>,
    R: Fn(Plane, &Block<i16>, &Block<i16>) -> Block<i16>,
>(
    transform: Transform<D, I, C, R>,
    order: FrameOrder,
    gop: Seq<Picture<i16>>,
    anchors: Seq<Picture<i16>>,
    chunks: Seq<Seq<u8>>,
    close: spec_fn(Seq<i16>, Seq<i16>) -> bool,
    idx: int,
    last: int,
    next: Picture<i16>,
    read: Seq<BMacroBlock<i16>>,
    shown: Picture<i16>,
)
    requires
        is_sound_group(order, gop),
        are_gop_chunks(transform, order, gop, anchors, chunks),
        gives_all_back(transform, close),
        0 <= last < idx < gop.len(),
        order.gop_kind(last) != Kind::B,
        forall|m: int| last < m < gop.len() ==> #[trigger] order.gop_kind(m) == Kind::B,
        is_pending_back(transform, order, gop, anchors, idx, read),
        is_full(next),
        next.dimensions == gop[0].dimensions,
        next.subsampling == gop[0].subsampling,
        is_assembled(
            transform.restore,
            Some(next),
            anchors[anchors_before(order, last) as int],
            read,
            shown,
        ),
    ensures
        is_frame_back(gop[idx], shown, Kind::B, close),
{
    lemma_trailing(transform, order, gop, anchors, chunks, idx, last, read);
    lemma_anchor_shape(transform, order, gop, anchors, chunks, last);
    assert(is_sound_frame(gop[idx]));
    let backward = backward_of(order, anchors, idx);
    let coded = choose|coded: Seq<BMacroBlock<i16>>|
        {
            &&& #[trigger] bframe::are_macroblocks(
                transform.code,
                gop[idx],
                None::<Picture<i16>>,
                backward,
                coded,
            )
            &&& are_same_macros(read, coded)
        };
    lemma_assembled_moves(transform.restore, Some(next), backward, read, coded, shown);
    law_lone_bframe_comes_back(
        transform.code,
        transform.restore,
        gop[idx],
        next,
        backward,
        coded,
        shown,
        close,
    );
}

/// Frames that are ready are the first of a video, each as its position says.
pub open spec fn are_ready_back(
    order: FrameOrder,
    frames: Seq<Picture<i16>>,
    ready: Seq<(Kind, Picture<i16>)>,
    close: spec_fn(Seq<i16>, Seq<i16>) -> bool,
) -> bool {
    forall|i: int|
        0 <= i < ready.len() ==> {
            &&& (#[trigger] ready[i]).0 == order.kind_of(i)
            &&& is_frame_back(frames[i], ready[i].1, order.kind_of(i), close)
        }
}

/// All frames have the size of the first.
pub open spec fn are_same_size(frames: Seq<Picture<i16>>) -> bool {
    forall|i: int|
        0 <= i < frames.len() ==> {
            &&& (#[trigger] frames[i]).dimensions == frames[0].dimensions
            &&& frames[i].subsampling == frames[0].subsampling
        }
}

/// Where a reader stands behind the frame at position `idx` of group `g`.
spec fn is_behind<
    D: Fn(&Block<i16>) -> Block<i16>,
    I: Fn(&Block<i16>) -> Block<i16>,
    C: Fn(Plane, &Block<i16>) -> Block<i16>,
    R: Fn(Plane, &Block<i16>, &Block<i16>) -> Block<i16>,
>(
    transform: Transform<D, I, C, R>,
    order: FrameOrder,
    frames: Seq<Picture<i16>>,
    anchors: Seq<Seq<Picture<i16>>>,
    chunks: Seq<Seq<Seq<u8>>>,
    close: spec_fn(Seq<i16>, Seq<i16>) -> bool,
    g: int,
    idx: int,
    state: ReaderState,
) -> bool {
    let gop = groups(order, None, frames)[g];
    let last = anchor_up_to(order, idx);
    &&& state.bits == joined_bits(chunks[g].skip(idx + 1)) + video_bits(chunks.skip(g + 1))
    &&& state.anchor == Some(anchors[g][anchors_before(order, last) as int])
    &&& state.ready.len() == g * order.full_image_distance + last + 1
    &&& are_ready_back(order, frames, state.ready, close)
    &&& state.pending.len() == idx - last
    &&& forall|j: int|
        0 <= j < state.pending.len() ==> is_pending_back(
            transform,
            order,
            gop,
            anchors[g],
            last + 1 + j,
            #[trigger] state.pending[j],
        )
    &&& !state.eof
}

/// Where a reader stands after it took `k` frames.
spec fn is_after<
    D: Fn(&Block<i16>) -> Block<i16>,
    I: Fn(&Block<i16>) -> Block<i16>,
    C: Fn(Plane, &Block<i16>) -> Block<i16>,
    R: Fn(Plane, &Block<i16>, &Block<i16>) -> Block<i16>,
>(
    transform: Transform<D, I, C, R>,
    order: FrameOrder,
    frames: Seq<Picture<i16>>,
    anchors: Seq<Seq<Picture<i16>>>,
    chunks: Seq<Seq<Seq<u8>>>,
    close: spec_fn(Seq<i16>, Seq<i16>) -> bool,
    k: int,
    state: ReaderState,
) -> bool {
    let full = order.full_image_distance as int;
    if k == 0 {
        &&& state.bits == video_bits(chunks)
        &&& state.ready.len() == 0
        &&& state.pending.len() == 0
        &&& state.anchor is None
        &&& !state.eof
    } else {
        is_behind(
            transform,
            order,
            frames,
            anchors,
            chunks,
            close,
            (k - 1) / full,
            (k - 1) % full,
            state,
        )
    }
}

/// What a reader finds after it took `k` frames.
proof fn lemma_coming<
    D: Fn(&Block<i16>) -> Block<i16>,
    I: Fn(&Block<i16>) -> Block<i16>,
    C: Fn(Plane, &Block<i16>) -> Block<i16>,
    R: Fn(Plane, &Block<i16>, &Block<i16>) -> Block<i16>,
>(
    transform: Transform<D, I, C, R>,
    order: FrameOrder,
    frames: Seq<Picture<i16>>,
    anchors: Seq<Seq<Picture<i16>>>,
    chunks: Seq<Seq<Seq<u8>>>,
    close: spec_fn(Seq<i16>, Seq<i16>) -> bool,
    k: int,
    state: ReaderState,
)
    requires
        is_sound_video(transform, order, frames, anchors, chunks, close),
        0 <= k < frames.len(),
        is_after(transform, order, frames, anchors, chunks, close, k, state),
    ensures
        ({
            let full = order.full_image_distance as int;
            let g = k / full;
            let idx = k % full;
            let gop = groups(order, None, frames)[g];
            let left = joined_bits(chunks[g].skip(idx + 1)) + video_bits(chunks.skip(g + 1));
            &&& holds_frame(state.bits)
            &&& !holds_end(state.bits)
            &&& header_kind(state.bits) == order.gop_kind(idx)
            &&& forall|r: Result<DecodedFrameData>, behind: Seq<bool>| #[trigger]
                is_data_read(
                    transform.idct,
                    order.gop_kind(idx),
                    state.bits.skip(88),
                    r,
                    behind,
                ) ==> r is Ok && behind == left && is_data_back(
                    transform,
                    order,
                    gop,
                    anchors[g],
                    idx,
                    r->Ok_0,
                )
        }),
{
    let full = order.full_image_distance as int;
    let g = k / full;
    let idx = k % full;
    let gops = groups(order, None, frames);
    lemma_frame_group(order, frames, k);
    lemma_next_position(k, full);
    let gop = gops[g];
    assert(is_sound_group(order, gop));
    assert(are_gop_chunks(transform, order, gop, anchors[g], chunks[g]));
    assert(are_frames_small(transform, order, gop));
    let rest = video_bits(chunks.skip(g + 1));
    lemma_groups_bits_len(chunks.skip(g + 1));
    lemma_end_mark();
    assert(rest.len() % 8 == 0);
    assert(state.bits == joined_bits(chunks[g].skip(idx)) + rest) by {
        lemma_groups_bits_first(chunks.skip(g));
        assert(chunks.skip(g).skip(1) =~= chunks.skip(g + 1));
        assert(video_bits(chunks.skip(g)) =~= joined_bits(chunks[g]) + rest);
        assert(chunks[g].skip(0) =~= chunks[g]);
        if k == 0 {
            vstd::arithmetic::div_mod::lemma_fundamental_div_mod_converse(0, full, 0, 0);
            assert(chunks.skip(0) =~= chunks);
        } else {
            lemma_next_position(k - 1, full);
            if idx == 0 {
                lemma_frame_group(order, frames, k - 1);
                let done = chunks[g - 1];
                assert(gops[g - 1].len() == full);
                assert(are_gop_chunks(
                    transform,
                    order,
                    gops[g - 1],
                    anchors[g - 1],
                    chunks[g - 1],
                ));
                assert(done.skip(full) =~= Seq::empty());
                assert(joined_bits(done.skip(full)) + video_bits(chunks.skip(g)) =~= video_bits(
                    chunks.skip(g),
                ));
            }
        }
    }
    lemma_next_chunk(transform, order, gop, anchors[g], chunks[g], rest, idx);
}

/// The first frame of a group is the frame of the video at its position.
proof fn lemma_group_frame(order: FrameOrder, frames: Seq<Picture<i16>>, k: int, i: int)
    requires
        order.full_image_distance > 0,
        0 <= k < frames.len(),
        0 <= i < groups(order, None, frames)[k / (order.full_image_distance as int)].len(),
    ensures
        ({
            let full = order.full_image_distance as int;
            let g = k / full;
            &&& 0 <= g * full + i < frames.len()
            &&& groups(order, None, frames)[g][i] == frames[g * full + i]
            &&& order.kind_of(g * full + i) == order.gop_kind(i)
        }),
{
    let full = order.full_image_distance as int;
    let g = k / full;
    lemma_next_position(k, full);
    lemma_frame_group(order, frames, k);
    law_groups_keep_all(order, frames);
    assert(has_group(order, frames, g));
    law_group_follows_order(order, g, i);
}

/// The frames that were held back come back where an anchor follows them.
proof fn lemma_flushed<
    D: Fn(&Block<i16>) -> Block<i16>,
    I: Fn(&Block<i16>) -> Block<i16>,
    C: Fn(Plane, &Block<i16>) -> Block<i16>,
    R: Fn(Plane, &Block<i16>, &Block<i16>) -> Block<i16>,
>(
    transform: Transform<D, I, C, R>,
    order: FrameOrder,
    frames: Seq<Picture<i16>>,
    anchors: Seq<Seq<Picture<i16>>>,
    chunks: Seq<Seq<Seq<u8>>>,
    close: spec_fn(Seq<i16>, Seq<i16>) -> bool,
    k: int,
    before: ReaderState,
    anchor: Picture<i16>,
    shown: Seq<(Kind, Picture<i16>)>,
)
    requires
        is_sound_video(transform, order, frames, anchors, chunks, close),
        are_same_size(frames),
        0 < k < frames.len(),
        is_after(transform, order, frames, anchors, chunks, close, k, before),
        ({
            let full = order.full_image_distance as int;
            let idx = k % full;
            &&& order.gop_kind(idx) != Kind::B
            &&& anchor == anchors[k / full][anchors_before(order, idx) as int]
        }),
        is_flushed(transform.restore, Some(anchor), before.anchor, before.pending, shown),
    ensures
        before.ready.len() + shown.len() == k,
        are_ready_back(order, frames, before.ready + shown, close),
{
    let full = order.full_image_distance as int;
    let gops = groups(order, None, frames);
    let g = k / full;
    let idx = k % full;
    let h = (k - 1) / full;
    let place = (k - 1) % full;
    let last = anchor_up_to(order, place);
    lemma_next_position(k, full);
    lemma_next_position(k - 1, full);
    lemma_frame_group(order, frames, k - 1);
    lemma_frame_group(order, frames, k);
    lemma_last_anchor(order, place);
    let gop = gops[h];
    assert(is_sound_group(order, gop));
    assert(is_sound_group(order, gops[g]));
    assert(are_gop_chunks(transform, order, gop, anchors[h], chunks[h]));
    assert(are_gop_chunks(transform, order, gops[g], anchors[g], chunks[g]));
    let n = before.ready.len() as int;
    let all = before.ready + shown;
    assert forall|i: int| 0 <= i < all.len() implies {
        &&& (#[trigger] all[i]).0 == order.kind_of(i)
        &&& is_frame_back(frames[i], all[i].1, order.kind_of(i), close)
    } by {
        if i < n {
            assert(all[i] == before.ready[i]);
        } else {
            let j = i - n;
            let at = last + 1 + j;
            assert(all[i] == shown[j]);
            assert(is_pending_back(transform, order, gop, anchors[h], at, before.pending[j]));
            lemma_group_frame(order, frames, k - 1, at);
            assert(h * full + at == i);
            if idx == 0 {
                lemma_group_frame(order, frames, k - 1, 0);
                lemma_group_frame(order, frames, k, 0);
                lemma_anchor_shape(transform, order, gops[g], anchors[g], chunks[g], idx);
                lemma_trailing_close(
                    transform,
                    order,
                    gop,
                    anchors[h],
                    chunks[h],
                    close,
                    at,
                    last,
                    anchor,
                    before.pending[j],
                    shown[j].1,
                );
            } else {
                lemma_pending_close(
                    transform,
                    order,
                    gop,
                    anchors[h],
                    chunks[h],
                    close,
                    at,
                    last,
                    idx,
                    before.pending[j],
                    shown[j].1,
                );
            }
        }
    }
}

/// A reader that took an anchor stands behind it.
proof fn lemma_anchor_taken<
    D: Fn(&Block<i16>) -> Block<i16>,
    I: Fn(&Block<i16>) -> Block<i16>,
    C: Fn(Plane, &Block<i16>) -> Block<i16>,
    R: Fn(Plane, &Block<i16>, &Block<i16>) -> Block<i16>,
>(
    transform: Transform<D, I, C, R>,
    order: FrameOrder,
    frames: Seq<Picture<i16>>,
    anchors: Seq<Seq<Picture<i16>>>,
    chunks: Seq<Seq<Seq<u8>>>,
    close: spec_fn(Seq<i16>, Seq<i16>) -> bool,
    k: int,
    before: ReaderState,
    after: ReaderState,
)
    requires
        is_sound_video(transform, order, frames, anchors, chunks, close),
        are_same_size(frames),
        0 <= k < frames.len(),
        is_after(transform, order, frames, anchors, chunks, close, k, before),
        ({
            let full = order.full_image_distance as int;
            let g = k / full;
            let idx = k % full;
            &&& order.gop_kind(idx) != Kind::B
            &&& is_anchor_ready(
                transform.restore,
                before,
                order.gop_kind(idx),
                anchors[g][anchors_before(order, idx) as int],
                after,
            )
            &&& after.bits == joined_bits(chunks[g].skip(idx + 1)) + video_bits(
                chunks.skip(g + 1),
            )
        }),
    ensures
        is_after(transform, order, frames, anchors, chunks, close, k + 1, after),
{
    let full = order.full_image_distance as int;
    let gops = groups(order, None, frames);
    let g = k / full;
    let idx = k % full;
    let kind = order.gop_kind(idx);
    let anchor = anchors[g][anchors_before(order, idx) as int];
    lemma_next_position(k, full);
    lemma_frame_group(order, frames, k);
    lemma_group_frame(order, frames, k, idx);
    assert(is_sound_group(order, gops[g]));
    assert(are_gop_chunks(transform, order, gops[g], anchors[g], chunks[g]));
    lemma_anchor_close(transform, order, gops[g], anchors[g], chunks[g], idx, close);
    let shown = choose|shown: Seq<(Kind, Picture<i16>)>|
        {
            &&& #[trigger] is_flushed(
                transform.restore,
                Some(anchor),
                before.anchor,
                before.pending,
                shown,
            )
            &&& after.ready == before.ready + shown + seq![(kind, anchor)]
        };
    if k > 0 {
        lemma_flushed(
            transform,
            order,
            frames,
            anchors,
            chunks,
            close,
            k,
            before,
            anchor,
            shown,
        );
    }
    let so_far = before.ready + shown;
    assert(so_far.len() == k);
    assert forall|i: int| 0 <= i < after.ready.len() implies {
        &&& (#[trigger] after.ready[i]).0 == order.kind_of(i)
        &&& is_frame_back(frames[i], after.ready[i].1, order.kind_of(i), close)
    } by {
        if i < k {
            assert(after.ready[i] == so_far[i]);
        } else {
            assert(after.ready[i] == (kind, anchor));
        }
    }
}

/// A reader takes the next frame of a video.
proof fn lemma_frame_taken<
    D: Fn(&Block<i16>) -> Block<i16>,
    I: Fn(&Block<i16>) -> Block<i16>,
    C: Fn(Plane, &Block<i16>) -> Block<i16>,
    R: Fn(Plane, &Block<i16>, &Block<i16>) -> Block<i16>,
>(
    transform: Transform<D, I, C, R>,
    order: FrameOrder,
    frames: Seq<Picture<i16>>,
    anchors: Seq<Seq<Picture<i16>>>,
    chunks: Seq<Seq<Seq<u8>>>,
    close: spec_fn(Seq<i16>, Seq<i16>) -> bool,
    k: int,
    before: ReaderState,
    r: Result<bool>,
    after: ReaderState,
)
    requires
        is_sound_video(transform, order, frames, anchors, chunks, close),
        are_same_size(frames),
        0 <= k < frames.len(),
        is_after(transform, order, frames, anchors, chunks, close, k, before),
        is_step(transform.idct, transform.restore, before, r, after),
    ensures
        r == Ok::<bool, Error>(true),
        is_after(transform, order, frames, anchors, chunks, close, k + 1, after),
{
    let full = order.full_image_distance as int;
    let gops = groups(order, None, frames);
    let g = k / full;
    let idx = k % full;
    let restore = transform.restore;
    lemma_coming(transform, order, frames, anchors, chunks, close, k, before);
    lemma_next_position(k, full);
    lemma_frame_group(order, frames, k);
    let gop = gops[g];
    let number = anchors_before(order, idx) as int;
    assert(is_sound_group(order, gop));
    assert(are_gop_chunks(transform, order, gop, anchors[g], chunks[g]));
    let read = choose|read: Result<DecodedFrameData>|
        {
            &&& #[trigger] is_data_read(
                transform.idct,
                header_kind(before.bits),
                before.bits.skip(88),
                read,
                after.bits,
            )
            &&& read is Err ==> r is Err && r->Err_0 == read->Err_0 && only_bits_went(
                before,
                after,
            )
            &&& read is Ok ==> is_frame_taken(restore, before, read->Ok_0, r, after)
        };
    let data = read->Ok_0;
    assert(is_data_back(transform, order, gop, anchors[g], idx, data));
    assert(is_frame_taken(restore, before, data, r, after));
    if k > 0 {
        lemma_next_position(k - 1, full);
    }
    match data {
        DecodedFrameData::IFrame(frame) => {
            lemma_anchor_taken(
                transform,
                order,
                frames,
                anchors,
                chunks,
                close,
                k,
                before,
                after,
            );
        },
        DecodedFrameData::PFrame(macro_blocks) => {
            law_chain_agrees(order, idx, gop.len() as int);
            lemma_last_anchor(order, idx - 1);
            assert(k > 0);
            let previous = anchors[g][number - 1];
            assert(before.anchor == Some(previous));
            let frame = choose|frame: Picture<i16>|
                {
                    &&& r == Ok::<bool, Error>(true)
                    &&& #[trigger] is_assembled(restore, None, previous, macro_blocks@, frame)
                    &&& is_anchor_ready(restore, before, Kind::P, frame, after)
                };
            let coded = choose|coded: Seq<PMacroBlock<i16>>|
                {
                    &&& #[trigger] pframe::are_macroblocks(
                        transform.code,
                        gop[idx],
                        previous,
                        coded,
                    )
                    &&& is_assembled(restore, None, previous, coded, anchors[g][number])
                    &&& are_same_macros(macro_blocks@, coded)
                };
            lemma_assembled_moves(restore, None, previous, macro_blocks@, coded, frame);
            law_assembled_is_one(
                restore,
                None,
                previous,
                coded,
                frame,
                anchors[g][number],
            );
            lemma_anchor_taken(
                transform,
                order,
                frames,
                anchors,
                chunks,
                close,
                k,
                before,
                after,
            );
        },
        DecodedFrameData::BFrame(macro_blocks) => {
            assert(idx > 0);
            let last = anchor_up_to(order, idx);
            assert(last == anchor_up_to(order, idx - 1));
            lemma_last_anchor(order, idx);
            assert forall|j: int| 0 <= j < after.pending.len() implies is_pending_back(
                transform,
                order,
                gop,
                anchors[g],
                last + 1 + j,
                #[trigger] after.pending[j],
            ) by {
                if j < before.pending.len() {
                    assert(after.pending[j] == before.pending[j]);
                }
            }
        },
    }
}

/// Behind the last frame, a reader finds the mark of the end and shows all
/// frames that were held back.
proof fn lemma_end_taken<
    D: Fn(&Block<i16>) -> Block<i16>,
    I: Fn(&Block<i16>) -> Block<i16>,
    C: Fn(Plane, &Block<i16>) -> Block<i16>,
    R: Fn(Plane, &Block<i16>, &Block<i16>) -> Block<i16>,
>(
    transform: Transform<D, I, C, R>,
    order: FrameOrder,
    frames: Seq<Picture<i16>>,
    anchors: Seq<Seq<Picture<i16>>>,
    chunks: Seq<Seq<Seq<u8>>>,
    close: spec_fn(Seq<i16>, Seq<i16>) -> bool,
    before: ReaderState,
    r: Result<bool>,
    after: ReaderState,
)
    requires
        is_sound_video(transform, order, frames, anchors, chunks, close),
        is_after(
            transform,
            order,
            frames,
            anchors,
            chunks,
            close,
            frames.len() as int,
            before,
        ),
        is_step(transform.idct, transform.restore, before, r, after),
    ensures
        r == Ok::<bool, Error>(false),
        after.ready.len() == frames.len(),
        are_ready_back(order, frames, after.ready, close),
{
    let full = order.full_image_distance as int;
    let gops = groups(order, None, frames);
    let n = frames.len() as int;
    let restore = transform.restore;
    lemma_end_mark();
    law_groups_keep_all(order, frames);
    if n == 0 {
        if gops.len() > 0 {
            assert(has_group(order, frames, 0));
        }
        assert(video_bits(chunks) =~= end_bits());
        let shown = choose|shown: Seq<(Kind, Picture<i16>)>|
            #[trigger] is_flushed(restore, before.anchor, before.anchor, before.pending, shown)
                && after.ready == before.ready + shown;
        assert(shown.len() == 0);
    } else {
        let g = (n - 1) / full;
        let place = (n - 1) % full;
        let last = anchor_up_to(order, place);
        lemma_next_position(n - 1, full);
        lemma_frame_group(order, frames, n - 1);
        lemma_last_anchor(order, place);
        let gop = gops[g];
        assert(is_sound_group(order, gop));
        assert(are_gop_chunks(transform, order, gop, anchors[g], chunks[g]));
        assert(place + 1 == gop.len()) by {
            if place + 1 < gop.len() {
                lemma_group_frame(order, frames, n - 1, place + 1);
            }
        }
        assert(g + 1 == gops.len()) by {
            if g + 1 < gops.len() {
                assert(has_group(order, frames, g + 1));
                assert((g + 1) * full == g * full + full) by (nonlinear_arith);
            }
        }
        assert(chunks[g].skip(place + 1) =~= Seq::empty());
        assert(chunks.skip(g + 1) =~= Seq::empty());
        assert(before.bits =~= end_bits());
        let pending = before.pending;
        lemma_anchor_shape(transform, order, gop, anchors[g], chunks[g], last);
        let shown = choose|shown: Seq<(Kind, Picture<i16>)>|
            #[trigger] is_flushed(restore, before.anchor, before.anchor, pending, shown)
                && after.ready == before.ready + shown;
        let ready = before.ready.len() as int;
        assert(after.ready.len() == n);
        assert forall|i: int| 0 <= i < after.ready.len() implies {
            &&& (#[trigger] after.ready[i]).0 == order.kind_of(i)
            &&& is_frame_back(frames[i], after.ready[i].1, order.kind_of(i), close)
        } by {
            if i < ready {
                assert(after.ready[i] == before.ready[i]);
            } else {
                let j = i - ready;
                let at = last + 1 + j;
                assert(after.ready[i] == shown[j]);
                assert(is_pending_back(transform, order, gop, anchors[g], at, pending[j]));
                lemma_group_frame(order, frames, n - 1, at);
                assert(g * full + at == i);
                lemma_trailing_close(
                    transform,
                    order,
                    gop,
                    anchors[g],
                    chunks[g],
                    close,
                    at,
                    last,
                    before.anchor->0,
                    pending[j],
                    shown[j].1,
                );
            }
        }
    }
}

/// A reader went through `states` while it read what came next, and answered
/// each time.
pub open spec fn is_frames_run<
    I: Fn(&Block<i16>) -> Block<i16>,
    R: Fn(Plane, &Block<i16>, &Block<i16>) -> Block<i16>,
>(
    idct: I,
    restore: R,
    states: Seq<ReaderState>,
    answers: Seq<Result<bool>>,
) -> bool {
    &&& states.len() == answers.len() + 1
    &&& forall|i: int|
        0 <= i < answers.len() ==> is_step(
            idct,
            restore,
            states[i],
            #[trigger] answers[i],
            states[i + 1],
        )
}

/// Whether a macroblock needs the frame that follows.
spec fn has_look_ahead(macro_blocks: Seq<BMacroBlock<i16>>) -> bool {
    exists|j: int|
        0 <= j < macro_blocks.len() && looks_ahead((#[trigger] macro_blocks[j]).prediction)
}

/// A reader at the start of a stream.
pub open spec fn is_fresh(state: ReaderState) -> bool {
    &&& state.ready.len() == 0
    &&& state.pending.len() == 0
    &&& state.anchor is None
    &&& !state.eof
}

proof fn lemma_frames_run<
    D: Fn(&Block<i16>) -> Block<i16>,
    I: Fn(&Block<i16>) -> Block<i16>,
    C: Fn(Plane, &Block<i16>) -> Block<i16>,
    R: Fn(Plane, &Block<i16>, &Block<i16>) -> Block<i16>,
>(
    transform: Transform<D, I, C, R>,
    order: FrameOrder,
    frames: Seq<Picture<i16>>,
    anchors: Seq<Seq<Picture<i16>>>,
    chunks: Seq<Seq<Seq<u8>>>,
    close: spec_fn(Seq<i16>, Seq<i16>) -> bool,
    states: Seq<ReaderState>,
    answers: Seq<Result<bool>>,
    k: int,
)
    requires
        is_sound_video(transform, order, frames, anchors, chunks, close),
        are_same_size(frames),
        is_frames_run(transform.idct, transform.restore, states, answers),
        is_fresh(states[0]),
        states[0].bits == video_bits(chunks),
        0 <= k <= frames.len(),
        k <= answers.len(),
    ensures
        is_after(transform, order, frames, anchors, chunks, close, k, states[k]),
        forall|i: int| 0 <= i < k ==> #[trigger] answers[i] == Ok::<bool, Error>(true),
    decreases k,
{
    if k > 0 {
        lemma_frames_run(
            transform,
            order,
            frames,
            anchors,
            chunks,
            close,
            states,
            answers,
            k - 1,
        );
        assert(is_step(
            transform.idct,
            transform.restore,
            states[k - 1],
            answers[k - 1],
            states[k],
        ));
        lemma_frame_taken(
            transform,
            order,
            frames,
            anchors,
            chunks,
            close,
            k - 1,
            states[k - 1],
            answers[k - 1],
            states[k],
        );
    }
}

/// A video of frames of one size that was written group by group is read back
/// frame by frame: every frame is found, and behind the mark of the end all of
/// them are ready in the order in which they were written, each predicted as its
/// position says and block by block as close as the transform gives back single
/// blocks.
pub proof fn law_frames_come_back<
    D: Fn(&Block<i16>) -> Block<i16>,
    I: Fn(&Block<i16>) -> Block<i16>,
    C: Fn(Plane, &Block<i16>) -> Block<i16>,
    R: Fn(Plane, &Block<i16>, &Block<i16>) -> Block<i16>,
>(
    transform: Transform<D, I, C, R>,
    order: FrameOrder,
    frames: Seq<Picture<i16>>,
    anchors: Seq<Seq<Picture<i16>>>,
    chunks: Seq<Seq<Seq<u8>>>,
    close: spec_fn(Seq<i16>, Seq<i16>) -> bool,
    states: Seq<ReaderState>,
    answers: Seq<Result<bool>>,
)
    requires
        is_sound_video(transform, order, frames, anchors, chunks, close),
        are_same_size(frames),
        is_frames_run(transform.idct, transform.restore, states, answers),
        answers.len() == frames.len() + 1,
        is_fresh(states[0]),
        states[0].bits == video_bits(chunks),
    ensures
        forall|i: int| 0 <= i < frames.len() ==> #[trigger] answers[i] == Ok::<bool, Error>(true),
        answers.last() == Ok::<bool, Error>(false),
        states.last().ready.len() == frames.len(),
        are_ready_back(order, frames, states.last().ready, close),
{
    let n = frames.len() as int;
    lemma_frames_run(
        transform,
        order,
        frames,
        anchors,
        chunks,
        close,
        states,
        answers,
        n,
    );
    assert(is_step(transform.idct, transform.restore, states[n], answers[n], states[n + 1]));
    lemma_end_taken(
        transform,
        order,
        frames,
        anchors,
        chunks,
        close,
        states[n],
        answers[n],
        states[n + 1],
    );
}

/// No more frames are ready than were taken.
proof fn lemma_ready_few<
    D: Fn(&Block<i16>) -> Block<i16>,
    I: Fn(&Block<i16>) -> Block<i16>,
    C: Fn(Plane, &Block<i16>) -> Block<i16>,
    R: Fn(Plane, &Block<i16>, &Block<i16>) -> Block<i16>,
>(
    transform: Transform<D, I, C, R>,
    order: FrameOrder,
    frames: Seq<Picture<i16>>,
    anchors: Seq<Seq<Picture<i16>>>,
    chunks: Seq<Seq<Seq<u8>>>,
    close: spec_fn(Seq<i16>, Seq<i16>) -> bool,
    k: int,
    state: ReaderState,
)
    requires
        order.full_image_distance > 0,
        0 <= k,
        is_after(transform, order, frames, anchors, chunks, close, k, state),
    ensures
        state.ready.len() <= k,
        !state.eof,
        are_ready_back(order, frames, state.ready, close),
{
    if k > 0 {
        let full = order.full_image_distance as int;
        lemma_next_position(k - 1, full);
        lemma_last_anchor(order, (k - 1) % full);
    }
}

/// A video of frames of one size that was written group by group is shown frame
/// by frame: as many calls as there are frames give them in the order in which
/// they were written, each predicted as its position says and block by block as
/// close as the transform gives back single blocks, and every later call gives
/// none.
pub proof fn law_calls_give_the_frames<
    D: Fn(&Block<i16>) -> Block<i16>,
    I: Fn(&Block<i16>) -> Block<i16>,
    C: Fn(Plane, &Block<i16>) -> Block<i16>,
    R: Fn(Plane, &Block<i16>, &Block<i16>) -> Block<i16>,
>(
    transform: Transform<D, I, C, R>,
    order: FrameOrder,
    frames: Seq<Picture<i16>>,
    anchors: Seq<Seq<Picture<i16>>>,
    chunks: Seq<Seq<Seq<u8>>>,
    close: spec_fn(Seq<i16>, Seq<i16>) -> bool,
    states: Seq<ReaderState>,
    results: Seq<Option<Result<DecodedFrame>>>,
)
    requires
        is_sound_video(transform, order, frames, anchors, chunks, close),
        are_same_size(frames),
        is_calls_run(transform.idct, transform.restore, states, results),
        is_fresh(states[0]),
        states[0].bits == video_bits(chunks),
    ensures
        forall|i: int|
            0 <= i < results.len() && i < frames.len() ==> {
                &&& #[trigger] results[i] is Some
                &&& results[i]->0 is Ok
                &&& results[i]->0->Ok_0@.0 == order.kind_of(i)
                &&& is_frame_back(
                    frames[i],
                    results[i]->0->Ok_0@.1,
                    order.kind_of(i),
                    close,
                )
            },
        forall|i: int| frames.len() <= i < results.len() ==> #[trigger] results[i] is None,
{
    let n = frames.len() as int;
    let at = |k: int, s: ReaderState|
        is_after(transform, order, frames, anchors, chunks, close, k, s);
    let nice = |i: int, f: (Kind, Picture<i16>)|
        f.0 == order.kind_of(i) && is_frame_back(frames[i], f.1, order.kind_of(i), close);
    assert(finds_all(transform.idct, transform.restore, n, at, nice)) by {
        assert forall|k: int, s: ReaderState| #[trigger] at(k, s) && 0 <= k <= n implies !s.eof
            && s.ready.len() <= n && are_nice(nice, s.ready) by {
            lemma_ready_few(transform, order, frames, anchors, chunks, close, k, s);
        }
        assert forall|k: int, s: ReaderState, r: Result<bool>, t: ReaderState|
            0 <= k < n && #[trigger] at(k, s) && #[trigger] is_step(
                transform.idct,
                transform.restore,
                s,
                r,
                t,
            ) implies r == Ok::<bool, Error>(true) && at(k + 1, t) by {
            lemma_frame_taken(
                transform,
                order,
                frames,
                anchors,
                chunks,
                close,
                k,
                s,
                r,
                t,
            );
        }
        assert forall|s: ReaderState, r: Result<bool>, t: ReaderState|
            at(n, s) && #[trigger] is_step(
                transform.idct,
                transform.restore,
                s,
                r,
                t,
            ) implies r == Ok::<bool, Error>(false) && t.ready.len() == n && are_nice(
            nice,
            t.ready,
        ) by {
            lemma_end_taken(transform, order, frames, anchors, chunks, close, s, r, t);
        }
    }
    law_calls_show_all(transform.idct, transform.restore, n, at, nice, states, results);
    assert forall|i: int| 0 <= i < results.len() && i < frames.len() implies {
        &&& #[trigger] results[i] is Some
        &&& results[i]->0 is Ok
        &&& results[i]->0->Ok_0@.0 == order.kind_of(i)
        &&& is_frame_back(frames[i], results[i]->0->Ok_0@.1, order.kind_of(i), close)
    } by {
        assert(is_answer(n, nice, i, results[i]));
    }
    assert forall|i: int| frames.len() <= i < results.len() implies #[trigger] results[i] is None
        by {
        assert(is_answer(n, nice, i, results[i]));
    }
}

} // verus!
