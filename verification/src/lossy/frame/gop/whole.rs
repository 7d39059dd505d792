//! What is written of a video is what is shown of it, from one end to the other.
use vstd::prelude::*;

use super::calls::is_calls_run;
use super::coming_back::{
    are_frames_small, is_frame_small, is_sound_frame, is_sound_group, is_steady_back,
};
use super::encode::Transform;
use super::frames_reader::ReaderState;
use super::frames_writer::{are_frames_streamed, is_stream_written, StreamState};
use super::live::{is_sound_stream, is_streamed_back, law_calls_give_the_stream, stream_bits};
use super::reader::GroupOfPicturesReader;
use super::round_trip::{gives_all_back, gives_image_back, is_frame_back};
use super::streaming::{are_same_size, is_fresh, law_calls_give_the_frames};
use super::video::{
    are_video_chunks, group_of, has_group, is_reader_run, is_shown_back, is_sound_video,
    law_groups_keep_all, law_video_comes_back, law_video_has_chunks, video_bits,
};
use super::writer::{are_codable, groups, is_video_written};
use super::{law_group_follows_order, DecodedFrame, FrameOrder};
use crate::block::quantization::{
    table_steps, VIDEO_CHROMINANCE_QUANTIZATION, VIDEO_LUMINANCE_QUANTIZATION,
};
use crate::block::Block;
use crate::error::Result;
use crate::lossy::frame::prediction::Plane;
use crate::lossy::frame::same::is_steady;
use crate::lossy::frame::Kind;
use crate::lossy::Picture;

verus! {

/// Whether the frames of a video can be read again: all have one size, a block
/// for every place, and bytes that are few enough for a stream.
pub open spec fn are_sound_frames<
    D: Fn(&Block<i16>) -> Block<i16>,
    I: Fn(&Block<i16>) -> Block<i16>,
    C: Fn(Plane, &Block<i16>) -> Block<i16>,
    R: Fn(Plane, &Block<i16>, &Block<i16>) -> Block<i16>,
>(transform: Transform<D, I, C, R>, order: FrameOrder, frames: Seq<Picture<i16>>) -> bool {
    &&& are_same_size(frames)
    &&& forall|i: int|
        0 <= i < frames.len() ==> {
            &&& is_sound_frame(#[trigger] frames[i])
            &&& is_frame_small(transform, frames[i], order.kind_of(i))
        }
}

/// The groups of frames that can be read again can be read again.
proof fn lemma_sound_groups<
    D: Fn(&Block<i16>) -> Block<i16>,
    I: Fn(&Block<i16>) -> Block<i16>,
    C: Fn(Plane, &Block<i16>) -> Block<i16>,
    R: Fn(Plane, &Block<i16>, &Block<i16>) -> Block<i16>,
>(transform: Transform<D, I, C, R>, order: FrameOrder, frames: Seq<Picture<i16>>, g: int)
    requires
        order.full_image_distance > 0,
        are_sound_frames(transform, order, frames),
        are_codable(order, groups(order, None, frames)),
        0 <= g < groups(order, None, frames).len(),
    ensures
        is_sound_group(order, groups(order, None, frames)[g]),
        are_frames_small(transform, order, groups(order, None, frames)[g]),
{
    let gops = groups(order, None, frames);
    let gop = gops[g];
    let full = order.full_image_distance as int;
    law_groups_keep_all(order, frames);
    assert(has_group(order, frames, g));
    assert(gop == group_of(order, frames, g));
    let start = g * full;
    assert forall|i: int| 0 <= i < gop.len() implies {
        &&& #[trigger] gop[i] == frames[start + i]
        &&& is_sound_frame(gop[i])
        &&& is_frame_small(transform, gop[i], order.gop_kind(i))
        &&& gop[i].dimensions == gop[0].dimensions
        &&& gop[i].subsampling == gop[0].subsampling
    } by {
        assert(gop[i] == frames[start + i]);
        assert(gop[0] == frames[start]);
        law_group_follows_order(order, g, i);
    }
}

/// What the writer of groups writes of frames that can be read again is a sound
/// video.
proof fn lemma_written_is_sound<
    D: Fn(&Block<i16>) -> Block<i16>,
    I: Fn(&Block<i16>) -> Block<i16>,
    C: Fn(Plane, &Block<i16>) -> Block<i16>,
    R: Fn(Plane, &Block<i16>, &Block<i16>) -> Block<i16>,
>(
    transform: Transform<D, I, C, R>,
    order: FrameOrder,
    frames: Seq<Picture<i16>>,
    bits: Seq<bool>,
    close: spec_fn(Seq<i16>, Seq<i16>) -> bool,
) -> (r: (Seq<Seq<Picture<i16>>>, Seq<Seq<Seq<u8>>>))
    requires
        order.full_image_distance > 0,
        are_sound_frames(transform, order, frames),
        is_steady_back(transform.idct),
        is_steady(transform.restore),
        gives_all_back(transform, close),
        are_codable(order, groups(order, None, frames)),
        is_video_written(transform, order, groups(order, None, frames), Seq::empty(), bits),
    ensures
        is_sound_video(transform, order, frames, r.0, r.1, close),
        bits == video_bits(r.1),
{
    let gops = groups(order, None, frames);
    let none = Seq::<bool>::empty();
    law_video_has_chunks(transform, order, gops, none, bits);
    let (anchors, chunks) = choose|
        anchors: Seq<Seq<Picture<i16>>>,
        chunks: Seq<Seq<Seq<u8>>>,
    |
        {
            &&& #[trigger] are_video_chunks(transform, order, gops, anchors, chunks)
            &&& bits == none + video_bits(chunks)
        };
    assert(none + video_bits(chunks) =~= video_bits(chunks));
    assert forall|g: int| 0 <= g < gops.len() implies is_sound_group(
        order,
        #[trigger] gops[g],
    ) && are_frames_small(transform, order, gops[g]) by {
        lemma_sound_groups(transform, order, frames, g);
    }
    (anchors, chunks)
}

/// What the writer of groups wrote, a reader shows frame by frame: as many calls as
/// there are frames give them in the order in which they were given to the
/// writer, each of the kind that its position says and block by block as close as
/// the transform gives back single blocks, and every later call gives none.
pub proof fn law_written_video_is_shown<
    D: Fn(&Block<i16>) -> Block<i16>,
    I: Fn(&Block<i16>) -> Block<i16>,
    C: Fn(Plane, &Block<i16>) -> Block<i16>,
    R: Fn(Plane, &Block<i16>, &Block<i16>) -> Block<i16>,
>(
    transform: Transform<D, I, C, R>,
    order: FrameOrder,
    frames: Seq<Picture<i16>>,
    bits: Seq<bool>,
    close: spec_fn(Seq<i16>, Seq<i16>) -> bool,
    states: Seq<ReaderState>,
    results: Seq<Option<Result<DecodedFrame>>>,
)
    requires
        order.full_image_distance > 0,
        are_sound_frames(transform, order, frames),
        is_steady_back(transform.idct),
        is_steady(transform.restore),
        gives_all_back(transform, close),
        are_codable(order, groups(order, None, frames)),
        is_video_written(transform, order, groups(order, None, frames), Seq::empty(), bits),
        is_calls_run(transform.idct, transform.restore, states, results),
        is_fresh(states[0]),
        states[0].bits == bits,
    ensures
        forall|i: int|
            0 <= i < results.len() && i < frames.len() ==> {
                &&& #[trigger] results[i] is Some
                &&& results[i]->0 is Ok
                &&& results[i]->0->Ok_0@.0 == order.kind_of(i)
                &&& is_frame_back(
                    frames[i],
                    results[i]->0->Ok_0@.1,
                    order.kind_of(i),
                    close,
                )
            },
        forall|i: int| frames.len() <= i < results.len() ==> #[trigger] results[i] is None,
{
    let (anchors, chunks) = lemma_written_is_sound(transform, order, frames, bits, close);
    law_calls_give_the_frames(
        transform,
        order,
        frames,
        anchors,
        chunks,
        close,
        states,
        results,
    );
}

/// What the writer of groups wrote, a reader of groups gives back in the same way.
pub proof fn law_written_video_is_read<
    D: Fn(&Block<i16>) -> Block<i16>,
    I: Fn(&Block<i16>) -> Block<i16>,
    C: Fn(Plane, &Block<i16>) -> Block<i16>,
    R: Fn(Plane, &Block<i16>, &Block<i16>) -> Block<i16>,
>(
    transform: Transform<D, I, C, R>,
    order: FrameOrder,
    frames: Seq<Picture<i16>>,
    bits: Seq<bool>,
    close: spec_fn(Seq<i16>, Seq<i16>) -> bool,
    readers: Seq<GroupOfPicturesReader>,
    answers: Seq<Option<Result<DecodedFrame>>>,
)
    requires
        order.full_image_distance > 0,
        are_sound_frames(transform, order, frames),
        is_steady_back(transform.idct),
        is_steady(transform.restore),
        gives_all_back(transform, close),
        are_codable(order, groups(order, None, frames)),
        is_video_written(transform, order, groups(order, None, frames), Seq::empty(), bits),
        readers.len() > 0,
        readers[0].ordering == order,
        readers[0].source@ == bits,
        readers[0].decoded_frames@.len() == 0,
        !readers[0].eof,
        is_reader_run(transform.idct, transform.restore, readers, answers),
    ensures
        forall|k: int|
            0 <= k < answers.len() && k < frames.len() ==> (#[trigger] answers[k]) is Some
                && answers[k]->0 is Ok && is_shown_back(
                order,
                frames,
                k,
                answers[k]->0->Ok_0,
                close,
            ),
        forall|k: int| frames.len() <= k < answers.len() ==> (#[trigger] answers[k]) is None,
{
    let (anchors, chunks) = lemma_written_is_sound(transform, order, frames, bits, close);
    law_video_comes_back(
        transform,
        order,
        frames,
        anchors,
        chunks,
        close,
        readers,
        answers,
    );
}

/// What the writer of single frames wrote, a reader shows frame by frame: as many
/// calls as there are frames give them in the order in which they were given to
/// the writer, each of the kind that it was written as, and every later call
/// gives none.
pub proof fn law_written_stream_is_shown<
    D: Fn(&Block<i16>) -> Block<i16>,
    I: Fn(&Block<i16>) -> Block<i16>,
    C: Fn(Plane, &Block<i16>) -> Block<i16>,
    R: Fn(Plane, &Block<i16>, &Block<i16>) -> Block<i16>,
>(
    transform: Transform<D, I, C, R>,
    order: FrameOrder,
    frames: Seq<Picture<i16>>,
    written: Seq<bool>,
    close: spec_fn(Seq<i16>, Seq<i16>) -> bool,
    readers: Seq<ReaderState>,
    results: Seq<Option<Result<DecodedFrame>>>,
)
    requires
        forall|i: int|
            0 <= i < frames.len() ==> {
                &&& is_sound_frame(#[trigger] frames[i])
                &&& is_frame_small(transform, frames[i], Kind::I)
                &&& is_frame_small(transform, frames[i], Kind::P)
            },
        gives_image_back(
            transform.dct,
            transform.idct,
            table_steps::<i16>(VIDEO_LUMINANCE_QUANTIZATION@),
            close,
        ),
        gives_image_back(
            transform.dct,
            transform.idct,
            table_steps::<i16>(VIDEO_CHROMINANCE_QUANTIZATION@),
            close,
        ),
        is_stream_written(transform, order, frames, Seq::empty(), written),
        is_calls_run(transform.idct, transform.restore, readers, results),
        is_fresh(readers[0]),
        readers[0].bits == written,
    ensures
        exists|states: Seq<StreamState>, bits: Seq<Seq<bool>>|
            {
                &&& #[trigger] are_frames_streamed(transform, order, frames, states, bits)
                &&& written == stream_bits(bits)
                &&& forall|i: int|
                    0 <= i < results.len() && i < frames.len() ==> {
                        &&& #[trigger] results[i] is Some
                        &&& results[i]->0 is Ok
                        &&& is_streamed_back(
                            transform,
                            order,
                            frames,
                            states,
                            close,
                            i,
                            results[i]->0->Ok_0@,
                        )
                    }
            },
        forall|i: int| frames.len() <= i < results.len() ==> #[trigger] results[i] is None,
{
    let none = Seq::<bool>::empty();
    let (states, bits) = choose|states: Seq<StreamState>, bits: Seq<Seq<bool>>|
        {
            &&& #[trigger] are_frames_streamed(transform, order, frames, states, bits)
            &&& bits.first() == none
            &&& written == stream_bits(bits)
        };
    assert(is_sound_stream(transform, order, frames, states, bits));
    law_calls_give_the_stream(
        transform,
        order,
        frames,
        states,
        bits,
        close,
        readers,
        results,
    );
    assert(are_frames_streamed(transform, order, frames, states, bits));
}

} // verus!
