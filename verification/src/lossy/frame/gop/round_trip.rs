//! A group that is written and read comes back.
use vstd::arithmetic::div_mod::{
    lemma_fundamental_div_mod, lemma_fundamental_div_mod_converse, lemma_small_mod,
};
use vstd::prelude::*;

use super::assemble::{
    anchor_size, backward_pos, forward_frame, forward_pos, has_anchor_at, is_anchor_connected,
    is_anchor_shown, is_between_connected, is_between_shown, is_connected, is_gop_reassembled,
    needs_ahead, shown_pictures,
};
use super::coming_back::{
    are_data_back, are_frames_small, is_data_back, is_sound_frame, is_sound_group, is_steady_back,
    law_group_is_read, lemma_one_iframe,
};
use super::data::DecodedFrameData;
use super::encode::{chroma_len, is_iframe_chunk, is_iframe_coded, is_pframe_chunk, Transform};
use super::group::{
    anchor_from, anchor_number, anchor_up_to, anchors_before, are_gop_chunks, backward_of,
    forward_of, is_frame_chunk, joined_bits,
};
use super::header::holds_end;
use super::reader::{is_gop_decoded, is_gop_read};
use super::{DecodedFrame, FrameOrder};
use crate::bits::bytes_bits;
use crate::block::quantization::{
    table_steps, VIDEO_CHROMINANCE_QUANTIZATION, VIDEO_LUMINANCE_QUANTIZATION,
};
use crate::block::Block;
use crate::color::Subsampling;
use crate::error::Result;
use crate::lossy::frame::assembly::{gives_back, is_assembled, is_in_planes, lemma_assembled_len};
use crate::lossy::frame::bframe;
use crate::lossy::frame::bframe::{law_bframe_comes_back, law_known_references};
use crate::lossy::frame::coding::{all_close, is_full};
use crate::lossy::frame::macroblock::bmacro::BMacroBlock;
use crate::lossy::frame::macroblock::pmacro::PMacroBlock;
use crate::lossy::frame::pframe;
use crate::lossy::frame::pframe::law_pframe_comes_back;
use crate::lossy::frame::prediction::{looks_ahead, Plane};
use crate::lossy::frame::same::{
    are_same_macros, is_same_macro, is_steady, law_assembled_is_one, lemma_assembled_moves,
};
use crate::lossy::frame::Kind;
use crate::lossy::transform::{is_back_block, is_back_plane, is_coded_block, is_coded_plane};
use crate::lossy::Picture;

verus! {

/// Anchors stand at the multiples of their distance.
proof fn lemma_anchor_kind(order: FrameOrder, idx: int)
    requires
        0 <= idx < order.full_image_distance,
        order.anchor_distance > 0,
    ensures
        order.gop_kind(idx) != Kind::B <==> idx % (order.anchor_distance as int) == 0,
{
    if idx > 0 {
        lemma_one_iframe(order, idx);
    } else {
        lemma_small_mod(0, order.anchor_distance as nat);
    }
}

/// A number that is not a multiple, between two multiples.
proof fn lemma_between(idx: int, pos: int, a: int)
    requires
        a > 0,
        pos % a == 0,
        pos - a < idx < pos,
    ensures
        idx % a == idx - (pos - a),
{
    lemma_fundamental_div_mod(pos, a);
    let q = pos / a;
    assert(a * (q - 1) == pos - a) by (nonlinear_arith)
        requires
            pos == a * q,
    ;
    assert((q - 1) * a == a * (q - 1)) by (nonlinear_arith);
    lemma_fundamental_div_mod_converse(idx, a, q - 1, idx - (pos - a));
}

/// The multiples on both sides of a number.
proof fn lemma_sides(idx: int, a: int)
    requires
        0 <= idx,
        a > 0,
    ensures
        (idx - idx % a) % a == 0,
        (idx - idx % a) / a == idx / a,
        (idx - idx % a + a) % a == 0,
        (idx - idx % a + a) / a == idx / a + 1,
        0 <= idx % a < a,
        0 <= idx - idx % a,
{
    lemma_fundamental_div_mod(idx, a);
    let q = idx / a;
    assert(a * (q + 1) == a * q + a) by (nonlinear_arith);
    assert((q + 1) * a == a * (q + 1)) by (nonlinear_arith);
    assert(q * a == a * q) by (nonlinear_arith);
    assert(q >= 0) by (nonlinear_arith)
        requires
            idx >= 0,
            a > 0,
            q == idx / a,
    ;
    assert(a * q >= 0) by (nonlinear_arith)
        requires
            a > 0,
            q >= 0,
    ;
    lemma_fundamental_div_mod_converse(idx - idx % a, a, q, 0);
    lemma_fundamental_div_mod_converse(idx - idx % a + a, a, q + 1, 0);
}

/// Before a position there is an anchor for every multiple.
proof fn lemma_anchor_count(order: FrameOrder, n: int)
    requires
        0 <= n <= order.full_image_distance,
        order.anchor_distance > 0,
    ensures
        ({
            let a = order.anchor_distance as int;
            anchors_before(order, n) == n / a + if n % a == 0 {
                0int
            } else {
                1
            }
        }),
    decreases n,
{
    let a = order.anchor_distance as int;
    if n == 0 {
        lemma_small_mod(0, a as nat);
        lemma_fundamental_div_mod_converse(0, a, 0, 0);
    } else {
        lemma_anchor_count(order, n - 1);
        lemma_anchor_kind(order, n - 1);
        let m = n - 1;
        lemma_fundamental_div_mod(m, a);
        let q = m / a;
        assert(q * a == a * q) by (nonlinear_arith);
        if m % a + 1 < a {
            lemma_fundamental_div_mod_converse(n, a, q, m % a + 1);
        } else {
            assert((q + 1) * a == a * q + a) by (nonlinear_arith);
            lemma_fundamental_div_mod_converse(n, a, q + 1, 0);
        }
    }
}

/// The last anchor up to a position.
proof fn lemma_anchor_up_to(order: FrameOrder, idx: int)
    requires
        0 <= idx < order.full_image_distance,
        order.anchor_distance > 0,
    ensures
        anchor_up_to(order, idx) == idx - idx % (order.anchor_distance as int),
    decreases idx,
{
    let a = order.anchor_distance as int;
    lemma_anchor_kind(order, idx);
    lemma_sides(idx, a);
    if idx > 0 && order.gop_kind(idx) == Kind::B {
        lemma_anchor_up_to(order, idx - 1);
        let low = idx - idx % a;
        if idx - 1 == low {
        } else {
            lemma_between(idx - 1, low + a, a);
        }
    } else if idx == 0 {
        lemma_small_mod(0, a as nat);
    }
}

/// The first anchor from a position on.
proof fn lemma_anchor_from(order: FrameOrder, idx: int, pos: int, len: int)
    requires
        order.anchor_distance > 0,
        pos % (order.anchor_distance as int) == 0,
        pos - order.anchor_distance < idx <= pos,
        0 < idx,
        len <= order.full_image_distance,
    ensures
        anchor_from(order, idx, len) == if pos < len {
            Some(pos)
        } else {
            None
        },
    decreases pos - idx,
{
    let a = order.anchor_distance as int;
    if idx < len {
        lemma_anchor_kind(order, idx);
        if idx < pos {
            lemma_between(idx, pos, a);
            lemma_anchor_from(order, idx + 1, pos, len);
        }
    }
}

/// The anchor at a multiple of the distance is the one with its number.
proof fn lemma_anchor_number(order: FrameOrder, pos: int, len: int)
    requires
        order.anchor_distance > 0,
        0 <= pos < len <= order.full_image_distance,
        pos % (order.anchor_distance as int) == 0,
    ensures
        anchors_before(order, pos) == pos / (order.anchor_distance as int),
        anchors_before(order, pos) < anchors_before(order, len),
        anchor_number(order, pos, anchors_before(order, len) as int) == anchors_before(order, pos),
{
    let a = order.anchor_distance as int;
    lemma_anchor_count(order, pos);
    lemma_anchor_count(order, len);
    lemma_fundamental_div_mod(pos, a);
    lemma_fundamental_div_mod(len, a);
    let k = pos / a;
    let q = len / a;
    assert(k <= q && (k == q ==> len % a != 0)) by (nonlinear_arith)
        requires
            a > 0,
            pos == a * k,
            len == a * q + len % a,
            0 <= len % a < a,
            pos < len,
    ;
}

/// The coder and the reader predict the frames in between from the same anchors.
pub proof fn law_references_agree(
    order: FrameOrder,
    anchors: Seq<Picture<i16>>,
    idx: int,
    len: int,
)
    requires
        0 <= idx < len <= order.full_image_distance,
        order.anchor_distance > 0,
        order.gop_kind(idx) == Kind::B,
        anchors.len() == anchors_before(order, len),
    ensures
        ({
            let before = backward_pos(order, Kind::B, idx);
            let after = forward_pos(order, idx);
            &&& 0 <= before < idx < after
            &&& order.gop_kind(before) != Kind::B
            &&& backward_of(order, anchors, idx) == anchors[anchors_before(order, before) as int]
            &&& after < len ==> order.gop_kind(after) != Kind::B && forward_of(
                order,
                anchors,
                idx,
                len,
            ) == Some(anchors[anchors_before(order, after) as int])
            &&& after >= len ==> forward_of(order, anchors, idx, len) is None
            &&& forall|m: int|
                before < m < after && m < len ==> #[trigger] order.gop_kind(m) == Kind::B
        }),
{
    let a = order.anchor_distance as int;
    let before = backward_pos(order, Kind::B, idx);
    let after = forward_pos(order, idx);
    lemma_sides(idx, a);
    lemma_anchor_kind(order, idx);
    lemma_anchor_kind(order, before);
    lemma_anchor_up_to(order, idx);
    lemma_anchor_number(order, before, len);
    lemma_anchor_from(order, idx + 1, after, len);
    if after < len {
        lemma_anchor_kind(order, after);
        lemma_anchor_number(order, after, len);
    }
    assert forall|m: int| before < m < after && m < len implies #[trigger] order.gop_kind(m)
        == Kind::B by {
        lemma_between(m, after, a);
        lemma_anchor_kind(order, m);
    }
}

/// The coder and the reader predict an anchor from the same one before it.
pub proof fn law_chain_agrees(order: FrameOrder, idx: int, len: int)
    requires
        0 <= idx < len <= order.full_image_distance,
        order.gop_kind(idx) == Kind::P,
    ensures
        ({
            let before = backward_pos(order, Kind::P, idx);
            &&& order.anchor_distance > 0
            &&& 0 <= before < idx
            &&& order.gop_kind(before) != Kind::B
            &&& anchors_before(order, before) == anchors_before(order, idx) - 1
            &&& anchors_before(order, idx) < anchors_before(order, len)
        }),
{
    let a = order.anchor_distance as int;
    assert(idx > 0);
    lemma_one_iframe(order, idx);
    lemma_anchor_kind(order, idx);
    lemma_anchor_number(order, idx, len);
    lemma_fundamental_div_mod(idx, a);
    let q = idx / a;
    assert(q >= 1) by (nonlinear_arith)
        requires
            idx == a * q,
            idx > 0,
            a > 0,
    ;
    assert(a * (q - 1) == idx - a && (q - 1) * a == a * (q - 1)) by (nonlinear_arith)
        requires
            idx == a * q,
    ;
    assert(a * (q - 1) >= 0) by (nonlinear_arith)
        requires
            a > 0,
            q >= 1,
    ;
    lemma_fundamental_div_mod_converse(idx - a, a, q - 1, 0);
    lemma_anchor_kind(order, idx - a);
    lemma_anchor_number(order, idx - a, len);
}

/// A group that was read back can be put together.
proof fn lemma_group_connected<
    D: Fn(&Block<i16>) -> Block<i16>,
    I: Fn(&Block<i16>) -> Block<i16>,
    C: Fn(Plane, &Block<i16>) -> Block<i16>,
    R: Fn(Plane, &Block<i16>, &Block<i16>) -> Block<i16>,
>(
    transform: Transform<D, I, C, R>,
    order: FrameOrder,
    frames: Seq<Picture<i16>>,
    anchors: Seq<Picture<i16>>,
    data: Seq<DecodedFrameData>,
)
    requires
        is_sound_group(order, frames),
        anchors.len() == anchors_before(order, frames.len() as int),
        data.len() == frames.len(),
        are_data_back(transform, order, frames, anchors, data, frames.len() as int),
    ensures
        is_connected(order, data),
{
    let len = frames.len() as int;
    assert(data[0].kind_of() == Kind::I) by {
        assert(is_data_back(transform, order, frames, anchors, 0, data[0]));
    }
    assert forall|idx: int| 0 <= idx < data.len() implies #[trigger] is_anchor_connected(
        order,
        data,
        idx,
    ) by {
        assert(is_data_back(transform, order, frames, anchors, idx, data[idx]));
        if data[idx].kind_of() == Kind::P {
            law_chain_agrees(order, idx, len);
            let before = backward_pos(order, Kind::P, idx);
            assert(is_data_back(transform, order, frames, anchors, before, data[before]));
        }
    }
    assert forall|idx: int| 0 <= idx < data.len() implies #[trigger] is_between_connected(
        order,
        data,
        idx,
    ) by {
        assert(is_data_back(transform, order, frames, anchors, idx, data[idx]));
        if data[idx].kind_of() == Kind::B {
            lemma_between_connected(transform, order, frames, anchors, data, idx);
        }
    }
}

/// A frame in between that was read back has the anchors that it needs.
proof fn lemma_between_connected<
    D: Fn(&Block<i16>) -> Block<i16>,
    I: Fn(&Block<i16>) -> Block<i16>,
    C: Fn(Plane, &Block<i16>) -> Block<i16>,
    R: Fn(Plane, &Block<i16>, &Block<i16>) -> Block<i16>,
>(
    transform: Transform<D, I, C, R>,
    order: FrameOrder,
    frames: Seq<Picture<i16>>,
    anchors: Seq<Picture<i16>>,
    data: Seq<DecodedFrameData>,
    idx: int,
)
    requires
        is_sound_group(order, frames),
        anchors.len() == anchors_before(order, frames.len() as int),
        data.len() == frames.len(),
        are_data_back(transform, order, frames, anchors, data, frames.len() as int),
        0 <= idx < frames.len(),
        data[idx].kind_of() == Kind::B,
    ensures
        is_between_connected(order, data, idx),
        order.anchor_distance > 0,
        has_anchor_at(data, forward_pos(order, idx)) <==> forward_pos(order, idx) < frames.len(),
{
    let len = frames.len() as int;
    assert(is_data_back(transform, order, frames, anchors, idx, data[idx]));
    assert(is_sound_frame(frames[idx]));
    law_references_agree(order, anchors, idx, len);
    let before = backward_pos(order, Kind::B, idx);
    let after = forward_pos(order, idx);
    let forward = forward_of(order, anchors, idx, len);
    let backward = backward_of(order, anchors, idx);
    assert(is_data_back(transform, order, frames, anchors, before, data[before]));
    if after < len {
        assert(is_data_back(transform, order, frames, anchors, after, data[after]));
    }
    let read = data[idx]->BFrame_0@;
    let coded = choose|coded: Seq<BMacroBlock<i16>>|
        {
            &&& #[trigger] bframe::are_macroblocks(
                transform.code,
                frames[idx],
                forward,
                backward,
                coded,
            )
            &&& are_same_macros(read, coded)
        };
    law_known_references(transform.code, frames[idx], forward, backward, coded);
    let size = anchor_size(order, data, before);
    if needs_ahead(read, size) {
        let j = choose|j: int|
            0 <= j < read.len() && looks_ahead((#[trigger] read[j]).prediction) && is_in_planes(
                read[j],
                size,
            );
        assert(is_same_macro(read[j], coded[j]));
        assert(looks_ahead(coded[j].prediction));
    }
}

/// The anchors are shown as the coder saw them.
proof fn lemma_anchor_same<
    D: Fn(&Block<i16>) -> Block<i16>,
    I: Fn(&Block<i16>) -> Block<i16>,
    C: Fn(Plane, &Block<i16>) -> Block<i16>,
    R: Fn(Plane, &Block<i16>, &Block<i16>) -> Block<i16>,
>(
    transform: Transform<D, I, C, R>,
    order: FrameOrder,
    frames: Seq<Picture<i16>>,
    anchors: Seq<Picture<i16>>,
    data: Seq<DecodedFrameData>,
    shown: Seq<Picture<i16>>,
    idx: int,
)
    requires
        is_sound_group(order, frames),
        is_steady(transform.restore),
        anchors.len() == anchors_before(order, frames.len() as int),
        data.len() == frames.len(),
        are_data_back(transform, order, frames, anchors, data, frames.len() as int),
        forall|i: int|
            0 <= i < data.len() ==> #[trigger] is_anchor_shown(
                transform.restore,
                order,
                data,
                shown,
                i,
            ),
        0 <= idx < frames.len(),
        order.gop_kind(idx) != Kind::B,
    ensures
        shown[idx] == anchors[anchors_before(order, idx) as int],
    decreases idx,
{
    let restore = transform.restore;
    let number = anchors_before(order, idx) as int;
    assert(is_data_back(transform, order, frames, anchors, idx, data[idx]));
    assert(is_anchor_shown(restore, order, data, shown, idx));
    match data[idx] {
        DecodedFrameData::IFrame(_) => {},
        DecodedFrameData::PFrame(read) => {
            law_chain_agrees(order, idx, frames.len() as int);
            let before = backward_pos(order, Kind::P, idx);
            lemma_anchor_same(transform, order, frames, anchors, data, shown, before);
            let previous = anchors[number - 1];
            let coded = choose|coded: Seq<PMacroBlock<i16>>|
                {
                    &&& #[trigger] pframe::are_macroblocks(
                        transform.code,
                        frames[idx],
                        previous,
                        coded,
                    )
                    &&& is_assembled(restore, None, previous, coded, anchors[number])
                    &&& are_same_macros(read@, coded)
                };
            lemma_assembled_moves(restore, None, previous, read@, coded, shown[idx]);
            law_assembled_is_one(
                restore,
                None,
                previous,
                coded,
                shown[idx],
                anchors[number],
            );
        },
        DecodedFrameData::BFrame(_) => {},
    }
}

/// The anchors have the size of the frames.
pub proof fn lemma_anchor_shape<
    D: Fn(&Block<i16>) -> Block<i16>,
    I: Fn(&Block<i16>) -> Block<i16>,
    C: Fn(Plane, &Block<i16>) -> Block<i16>,
    R: Fn(Plane, &Block<i16>, &Block<i16>) -> Block<i16>,
>(
    transform: Transform<D, I, C, R>,
    order: FrameOrder,
    frames: Seq<Picture<i16>>,
    anchors: Seq<Picture<i16>>,
    chunks: Seq<Seq<u8>>,
    idx: int,
)
    requires
        is_sound_group(order, frames),
        are_gop_chunks(transform, order, frames, anchors, chunks),
        0 <= idx < frames.len(),
        order.gop_kind(idx) != Kind::B,
    ensures
        ({
            let anchor = anchors[anchors_before(order, idx) as int];
            &&& is_full(anchor)
            &&& anchor.dimensions == frames[0].dimensions
            &&& anchor.subsampling == frames[0].subsampling
        }),
    decreases idx,
{
    reveal(is_frame_chunk);
    let number = anchors_before(order, idx) as int;
    let frame = frames[idx];
    let bits = bytes_bits(chunks[idx]);
    assert(is_sound_frame(frame));
    assert(is_frame_chunk(transform, order, frames, anchors, idx, bits));
    if order.gop_kind(idx) == Kind::I {
        assert(is_iframe_chunk(transform.dct, transform.idct, frame, bits, anchors[number]));
        let n = chroma_len(frame) as int;
        assert(frame.cb.take(n).len() == n);
        assert(frame.cr.take(n).len() == n);
    } else {
        law_chain_agrees(order, idx, frames.len() as int);
        let before = backward_pos(order, Kind::P, idx);
        lemma_anchor_shape(transform, order, frames, anchors, chunks, before);
        let previous = anchors[number - 1];
        assert(is_pframe_chunk(
            transform.code,
            transform.restore,
            frame,
            previous,
            bits,
            anchors[number],
        ));
        let coded = choose|coded: Seq<PMacroBlock<i16>>|
            {
                &&& #[trigger] pframe::are_macroblocks(transform.code, frame, previous, coded)
                &&& is_assembled(transform.restore, None, previous, coded, anchors[number])
            };
        lemma_assembled_len(transform.restore, None, previous, coded, anchors[number]);
    }
}

/// The transform gives a block of a frame that stands alone back up to `close`.
pub open spec fn gives_image_back<
    D: Fn(&Block<i16>) -> Block<i16>,
    I: Fn(&Block<i16>) -> Block<i16>,
>(
    dct: D,
    idct: I,
    steps: Seq<i16>,
    close: spec_fn(Seq<i16>, Seq<i16>) -> bool,
) -> bool {
    forall|block: Block<i16>, coded: Block<i16>, r: Block<i16>| #[trigger]
        is_coded_block(dct, steps, block, coded) && #[trigger] is_back_block(
            idct,
            steps,
            coded,
            r,
        ) ==> close(block@, r@)
}

/// A plane of a frame that stands alone comes back up to `close`.
pub proof fn lemma_image_plane_close<
    D: Fn(&Block<i16>) -> Block<i16>,
    I: Fn(&Block<i16>) -> Block<i16>,
>(
    dct: D,
    idct: I,
    steps: Seq<i16>,
    blocks: Seq<Block<i16>>,
    coded: Seq<Block<i16>>,
    r: Seq<Block<i16>>,
    close: spec_fn(Seq<i16>, Seq<i16>) -> bool,
)
    requires
        gives_image_back(dct, idct, steps, close),
        is_coded_plane(dct, steps, blocks, coded),
        is_back_plane(idct, steps, coded, r),
    ensures
        all_close(blocks, r, close),
{
    assert forall|t: int| 0 <= t < blocks.len() implies close(
        blocks[t]@,
        (#[trigger] r[t])@,
    ) by {
        assert(is_coded_block(dct, steps, blocks[t], coded[t]));
        assert(is_back_block(idct, steps, coded[t], r[t]));
    }
}

/// What the transform gives back, `close` takes for the same.
pub open spec fn gives_all_back<
    D: Fn(&Block<i16>) -> Block<i16>,
    I: Fn(&Block<i16>) -> Block<i16>,
    C: Fn(Plane, &Block<i16>) -> Block<i16>,
    R: Fn(Plane, &Block<i16>, &Block<i16>) -> Block<i16>,
>(
    transform: Transform<D, I, C, R>,
    close: spec_fn(Seq<i16>, Seq<i16>) -> bool,
) -> bool {
    let luma = table_steps::<i16>(VIDEO_LUMINANCE_QUANTIZATION@);
    let chroma = table_steps::<i16>(VIDEO_CHROMINANCE_QUANTIZATION@);
    &&& gives_image_back(transform.dct, transform.idct, luma, close)
    &&& gives_image_back(transform.dct, transform.idct, chroma, close)
    &&& gives_back(transform.code, transform.restore, Plane::Luma, close)
    &&& gives_back(transform.code, transform.restore, Plane::Chroma, close)
}

/// A frame came back, block by block: all luma blocks, and all chroma blocks,
/// unless it is predicted and its chroma planes have a quarter of the columns.
pub open spec fn is_frame_back(
    frame: Picture<i16>,
    shown: Picture<i16>,
    kind: Kind,
    close: spec_fn(Seq<i16>, Seq<i16>) -> bool,
) -> bool {
    &&& shown.dimensions == frame.dimensions
    &&& shown.subsampling == frame.subsampling
    &&& all_close(frame.y, shown.y, close)
    &&& kind == Kind::I || frame.subsampling != Subsampling::Sample411 ==> all_close(
        frame.cb,
        shown.cb,
        close,
    ) && all_close(frame.cr, shown.cr, close)
}

/// An anchor is as close to its frame as the transform gives back single blocks.
pub proof fn lemma_anchor_close<
    D: Fn(&Block<i16>) -> Block<i16>,
    I: Fn(&Block<i16>) -> Block<i16>,
    C: Fn(Plane, &Block<i16>) -> Block<i16>,
    R: Fn(Plane, &Block<i16>, &Block<i16>) -> Block<i16>,
>(
    transform: Transform<D, I, C, R>,
    order: FrameOrder,
    frames: Seq<Picture<i16>>,
    anchors: Seq<Picture<i16>>,
    chunks: Seq<Seq<u8>>,
    idx: int,
    close: spec_fn(Seq<i16>, Seq<i16>) -> bool,
)
    requires
        is_sound_group(order, frames),
        are_gop_chunks(transform, order, frames, anchors, chunks),
        gives_all_back(transform, close),
        0 <= idx < frames.len(),
        order.gop_kind(idx) != Kind::B,
    ensures
        is_frame_back(
            frames[idx],
            anchors[anchors_before(order, idx) as int],
            order.gop_kind(idx),
            close,
        ),
{
    reveal(is_frame_chunk);
    let number = anchors_before(order, idx) as int;
    let frame = frames[idx];
    let anchor = anchors[number];
    let bits = bytes_bits(chunks[idx]);
    lemma_anchor_shape(transform, order, frames, anchors, chunks, idx);
    assert(is_sound_frame(frame));
    assert(is_frame_chunk(transform, order, frames, anchors, idx, bits));
    if order.gop_kind(idx) == Kind::I {
        let luma = table_steps::<i16>(VIDEO_LUMINANCE_QUANTIZATION@);
        let chroma = table_steps::<i16>(VIDEO_CHROMINANCE_QUANTIZATION@);
        assert(is_iframe_chunk(transform.dct, transform.idct, frame, bits, anchor));
        let n = chroma_len(frame) as int;
        assert(frame.cb.take(n) =~= frame.cb);
        assert(frame.cr.take(n) =~= frame.cr);
        let (y, cb, cr) = choose|y: Seq<Block<i16>>, cb: Seq<Block<i16>>, cr: Seq<Block<i16>>|
            #[trigger] is_iframe_coded(
                transform.dct,
                transform.idct,
                frame,
                y,
                cb,
                cr,
                anchor,
            );
        lemma_image_plane_close(
            transform.dct,
            transform.idct,
            luma,
            frame.y,
            y,
            anchor.y,
            close,
        );
        lemma_image_plane_close(
            transform.dct,
            transform.idct,
            chroma,
            frame.cb,
            cb,
            anchor.cb,
            close,
        );
        lemma_image_plane_close(
            transform.dct,
            transform.idct,
            chroma,
            frame.cr,
            cr,
            anchor.cr,
            close,
        );
    } else {
        law_chain_agrees(order, idx, frames.len() as int);
        let before = backward_pos(order, Kind::P, idx);
        lemma_anchor_shape(transform, order, frames, anchors, chunks, before);
        let previous = anchors[number - 1];
        assert(is_pframe_chunk(
            transform.code,
            transform.restore,
            frame,
            previous,
            bits,
            anchor,
        ));
        let coded = choose|coded: Seq<PMacroBlock<i16>>|
            {
                &&& #[trigger] pframe::are_macroblocks(transform.code, frame, previous, coded)
                &&& is_assembled(transform.restore, None, previous, coded, anchor)
            };
        law_pframe_comes_back(
            transform.code,
            transform.restore,
            frame,
            previous,
            coded,
            anchor,
            close,
        );
    }
}

proof fn lemma_between_close<
    D: Fn(&Block<i16>) -> Block<i16>,
    I: Fn(&Block<i16>) -> Block<i16>,
    C: Fn(Plane, &Block<i16>) -> Block<i16>,
    R: Fn(Plane, &Block<i16>, &Block<i16>) -> Block<i16>,
>(
    transform: Transform<D, I, C, R>,
    order: FrameOrder,
    frames: Seq<Picture<i16>>,
    anchors: Seq<Picture<i16>>,
    chunks: Seq<Seq<u8>>,
    data: Seq<DecodedFrameData>,
    shown: Seq<Picture<i16>>,
    idx: int,
    close: spec_fn(Seq<i16>, Seq<i16>) -> bool,
)
    requires
        is_sound_group(order, frames),
        are_gop_chunks(transform, order, frames, anchors, chunks),
        gives_all_back(transform, close),
        is_steady(transform.restore),
        data.len() == frames.len(),
        are_data_back(transform, order, frames, anchors, data, frames.len() as int),
        forall|i: int|
            0 <= i < data.len() ==> #[trigger] is_anchor_shown(
                transform.restore,
                order,
                data,
                shown,
                i,
            ),
        is_between_shown(transform.restore, order, data, shown, idx),
        0 <= idx < frames.len(),
        order.gop_kind(idx) == Kind::B,
    ensures
        is_frame_back(frames[idx], shown[idx], Kind::B, close),
{
    let len = frames.len() as int;
    let frame = frames[idx];
    assert(is_data_back(transform, order, frames, anchors, idx, data[idx]));
    assert(is_sound_frame(frame));
    lemma_between_connected(transform, order, frames, anchors, data, idx);
    law_references_agree(order, anchors, idx, len);
    let before = backward_pos(order, Kind::B, idx);
    let after = forward_pos(order, idx);
    let forward = forward_of(order, anchors, idx, len);
    let backward = backward_of(order, anchors, idx);
    lemma_anchor_same(transform, order, frames, anchors, data, shown, before);
    lemma_anchor_shape(transform, order, frames, anchors, chunks, before);
    if after < len {
        lemma_anchor_same(transform, order, frames, anchors, data, shown, after);
        lemma_anchor_shape(transform, order, frames, anchors, chunks, after);
    }
    assert(forward_frame(order, data, shown, idx) == forward);
    assert(shown[before] == backward);
    let read = data[idx]->BFrame_0@;
    let coded = choose|coded: Seq<BMacroBlock<i16>>|
        {
            &&& #[trigger] bframe::are_macroblocks(
                transform.code,
                frame,
                forward,
                backward,
                coded,
            )
            &&& are_same_macros(read, coded)
        };
    lemma_assembled_moves(transform.restore, forward, backward, read, coded, shown[idx]);
    law_bframe_comes_back(
        transform.code,
        transform.restore,
        frame,
        forward,
        backward,
        coded,
        shown[idx],
        close,
    );
}

/// A group of frames came back, each as its position says.
pub open spec fn is_group_back(
    order: FrameOrder,
    frames: Seq<Picture<i16>>,
    shown: Seq<DecodedFrame>,
    close: spec_fn(Seq<i16>, Seq<i16>) -> bool,
) -> bool {
    &&& shown.len() == frames.len()
    &&& forall|i: int|
        0 <= i < frames.len() ==> {
            &&& (#[trigger] shown[i]).kind == order.gop_kind(i)
            &&& is_frame_back(frames[i], shown[i].data@, order.gop_kind(i), close)
        }
}

/// A group that was written is read and put together again, where it is as long
/// as a group may be or the mark of the end follows it: every frame comes back
/// in its place, block by block as close as the transform gives back single
/// blocks, and the stream goes on behind the group. The transform has to be
/// steady, so that the reader sees the anchors that the coder saw.
pub proof fn law_group_comes_back<
    D: Fn(&Block<i16>) -> Block<i16>,
    I: Fn(&Block<i16>) -> Block<i16>,
    C: Fn(Plane, &Block<i16>) -> Block<i16>,
    R: Fn(Plane, &Block<i16>, &Block<i16>) -> Block<i16>,
>(
    transform: Transform<D, I, C, R>,
    order: FrameOrder,
    frames: Seq<Picture<i16>>,
    anchors: Seq<Picture<i16>>,
    chunks: Seq<Seq<u8>>,
    rest: Seq<bool>,
    r: Result<Vec<DecodedFrame>>,
    behind: Seq<bool>,
    ended: bool,
    close: spec_fn(Seq<i16>, Seq<i16>) -> bool,
)
    requires
        is_sound_group(order, frames),
        are_gop_chunks(transform, order, frames, anchors, chunks),
        are_frames_small(transform, order, frames),
        is_steady_back(transform.idct),
        is_steady(transform.restore),
        gives_all_back(transform, close),
        rest.len() % 8 == 0,
        frames.len() == order.full_image_distance || holds_end(rest),
        is_gop_decoded(
            transform.idct,
            transform.restore,
            order,
            joined_bits(chunks) + rest,
            r,
            behind,
            ended,
        ),
    ensures
        r is Ok,
        is_group_back(order, frames, r->Ok_0@, close),
        ended == (frames.len() < order.full_image_distance),
        behind == if frames.len() < order.full_image_distance {
            rest.skip(8)
        } else {
            rest
        },
{
    let idct = transform.idct;
    let restore = transform.restore;
    let read = choose|read: Result<(Vec<DecodedFrameData>, bool)>|
        {
            &&& #[trigger] is_gop_read(idct, order, joined_bits(chunks) + rest, read, behind)
            &&& read is Err ==> r is Err && r->Err_0 == read->Err_0 && !ended
            &&& read is Ok ==> is_gop_reassembled(restore, order, read->Ok_0.0@, r) && ended
                == read->Ok_0.1
        };
    law_group_is_read(
        transform,
        order,
        frames,
        anchors,
        chunks,
        rest,
        read,
        behind,
    );
    let data = read->Ok_0.0@;
    lemma_group_connected(transform, order, frames, anchors, data);
    let shown = shown_pictures(r->Ok_0@);
    assert forall|i: int| 0 <= i < data.len() implies #[trigger] is_anchor_shown(
        restore,
        order,
        data,
        shown,
        i,
    ) by {
        assert(r->Ok_0@[i].kind == data[i].kind_of());
    }
    assert forall|i: int| 0 <= i < frames.len() implies {
        &&& (#[trigger] r->Ok_0@[i]).kind == order.gop_kind(i)
        &&& is_frame_back(frames[i], r->Ok_0@[i].data@, order.gop_kind(i), close)
    } by {
        assert(is_data_back(transform, order, frames, anchors, i, data[i]));
        assert(shown[i] == r->Ok_0@[i].data@);
        if order.gop_kind(i) == Kind::B {
            lemma_between_close(
                transform,
                order,
                frames,
                anchors,
                chunks,
                data,
                shown,
                i,
                close,
            );
        } else {
            lemma_anchor_same(transform, order, frames, anchors, data, shown, i);
            lemma_anchor_close(transform, order, frames, anchors, chunks, i, close);
        }
    }
}

} // verus!
