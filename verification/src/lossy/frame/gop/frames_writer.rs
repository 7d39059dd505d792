//! Writing a video frame by frame, without frames that look ahead.
use vstd::prelude::*;

use super::encode::{can_count, frame_start, write_start, Transform};
use super::header::{end_bits, GroupOfPicturesHeader};
use super::scene::{detect_scene_change, is_scene_change};
use super::{FrameOrder, FrameReader};
use crate::bits::{lemma_padded, padded};
use crate::bitstream::BitStreamWriter;
use crate::block::quantization::{
    table_steps, VIDEO_CHROMINANCE_QUANTIZATION, VIDEO_LUMINANCE_QUANTIZATION,
};
use crate::block::Block;
use crate::encoders::ans::{compressed_bits, is_kept, items_bytes, models};
use crate::error::{Error, Result};
use crate::lossy::frame::assembly::{is_assembled, lemma_assembled_len};
use crate::lossy::frame::iframe::{
    are_planes_kept, frame_bits, is_countable, lemma_compressed_bits_len, lemma_frame_bits_len,
    IFrame,
};
use crate::lossy::frame::macroblock::pmacro::{PMacroBlock, PMacroBlocks};
use crate::lossy::frame::pframe::{
    are_macroblocks, can_precede, can_predict, has_rows, law_predicted_frames_fit, PFrame,
};
use crate::lossy::frame::prediction::Plane;
use crate::lossy::frame::Kind;
use crate::lossy::transform::is_coded_plane;
use crate::lossy::{Picture, SubSampleBlockGroup, SubSampleBlockGroupRef};

verus! {

/// Where a stream of frames stands: the position in the group, and the frame
/// that the next one is predicted from.
pub struct StreamState {
    pub pos: int,
    pub anchor: Option<Picture<i16>>,
}

/// The position of a frame in its group. A new scene starts a group.
pub open spec fn stream_pos(state: StreamState, frame: Picture<i16>) -> int {
    if state.anchor is Some && is_scene_change(state.anchor->0, frame) {
        0
    } else {
        state.pos
    }
}

/// What a frame is predicted from. Nothing looks ahead in a stream.
pub open spec fn stream_kind(order: FrameOrder, pos: int) -> Kind {
    match order.kind_of(pos) {
        Kind::I => Kind::I,
        _ => Kind::P,
    }
}

/// Whether all planes of a frame can be counted.
pub open spec fn is_whole(frame: Picture<i16>) -> bool {
    is_countable(
        frame.dimensions,
        frame.subsampling,
        frame.y.len(),
        frame.cb.len(),
        frame.cr.len(),
    )
}

/// Whether a frame can be streamed at any place.
pub open spec fn is_streamable(frame: Picture<i16>) -> bool {
    &&& is_whole(frame)
    &&& has_rows(frame.dimensions)
    &&& can_precede(frame)
}

/// Whether a frame can be streamed where the stream stands.
pub open spec fn is_accepted(order: FrameOrder, state: StreamState, frame: Picture<i16>) -> bool {
    if stream_kind(order, stream_pos(state, frame)) == Kind::I {
        is_whole(frame)
    } else {
        has_rows(frame.dimensions) && can_precede(state.anchor->0)
    }
}

/// A stream went on with a frame that stands alone.
pub open spec fn is_iframe_streamed<D: Fn(&Block<i16>) -> Block<i16>>(
    dct: D,
    frame: Picture<i16>,
    before: Seq<bool>,
    after: Seq<bool>,
) -> bool {
    exists|y: Seq<Block<i16>>, cb: Seq<Block<i16>>, cr: Seq<Block<i16>>|
        {
            let luma = table_steps::<i16>(VIDEO_LUMINANCE_QUANTIZATION@);
            let chroma = table_steps::<i16>(VIDEO_CHROMINANCE_QUANTIZATION@);
            &&& is_coded_plane(dct, luma, frame.y, y)
            &&& is_coded_plane(dct, chroma, frame.cb, cb)
            &&& is_coded_plane(dct, chroma, frame.cr, cr)
            &&& are_planes_kept(frame.dimensions, frame.subsampling, y, cb, cr)
            &&& after == #[trigger] frame_bits(
                before + frame_start(frame, Kind::I),
                frame.dimensions,
                frame.subsampling,
                y,
                cb,
                cr,
            )
        }
}

/// A stream went on with a frame that is predicted from the one before, and
/// what a reader that saw the same will see of it.
pub open spec fn is_pframe_streamed<
    C: Fn(Plane, &Block<i16>) -> Block<i16>,
    R: Fn(Plane, &Block<i16>, &Block<i16>) -> Block<i16>,
>(
    code: C,
    restore: R,
    frame: Picture<i16>,
    anchor: Picture<i16>,
    before: Seq<bool>,
    after: Seq<bool>,
    r: Picture<i16>,
) -> bool {
    exists|macro_blocks: Seq<PMacroBlock<i16>>|
        {
            &&& #[trigger] are_macroblocks(code, frame, anchor, macro_blocks)
            &&& is_kept(items_bytes::<PMacroBlock<i16>>(models(macro_blocks)))
            &&& after == padded(before + frame_start(frame, Kind::P)) + compressed_bits(
                items_bytes::<PMacroBlock<i16>>(models(macro_blocks)),
            )
            &&& is_assembled(restore, None, anchor, macro_blocks, r)
        }
}

/// A stream went on with a frame.
pub open spec fn is_frame_streamed<
    D: Fn(&Block<i16>) -> Block<i16>,
    I: Fn(&Block<i16>) -> Block<i16>,
    C: Fn(Plane, &Block<i16>) -> Block<i16>,
    R: Fn(Plane, &Block<i16>, &Block<i16>) -> Block<i16>,
>(
    transform: Transform<D, I, C, R>,
    order: FrameOrder,
    state: StreamState,
    frame: Picture<i16>,
    before: Seq<bool>,
    next: StreamState,
    after: Seq<bool>,
) -> bool {
    let pos = stream_pos(state, frame);
    &&& next.pos == (pos + 1) % (order.full_image_distance as int)
    &&& next.anchor is Some
    &&& if stream_kind(order, pos) == Kind::I {
        &&& is_whole(frame)
        &&& is_iframe_streamed(transform.dct, frame, before, after)
        &&& next.anchor->0 == frame
    } else {
        &&& has_rows(frame.dimensions)
        &&& state.anchor is Some
        &&& is_pframe_streamed(
            transform.code,
            transform.restore,
            frame,
            state.anchor->0,
            before,
            after,
            next.anchor->0,
        )
    }
}

/// Writes a frame that is predicted from an anchor of its size, and tells what a
/// reader that saw the same will see of it.
fn write_predicted<
    D: Fn(&Block<i16>) -> Block<i16> + Sync + Send,
    I: Fn(&Block<i16>) -> Block<i16> + Sync + Send,
    C: Fn(Plane, &Block<i16>) -> Block<i16> + Sync + Send,
    R: Fn(Plane, &Block<i16>, &Block<i16>) -> Block<i16> + Sync + Send,
>(
    transform: &Transform<D, I, C, R>,
    frame: &SubSampleBlockGroupRef<'_, i16>,
    anchor: &SubSampleBlockGroupRef<'_, i16>,
    stream: &mut BitStreamWriter,
) -> (r: Result<SubSampleBlockGroup<i16>>)
    requires
        transform.takes_all(),
        frame.dimensions == anchor.dimensions,
    ensures
        r is Ok <==> has_rows(frame.dimensions) && can_precede(anchor@),
        r is Ok ==> can_precede(r->Ok_0@) && is_pframe_streamed(
            transform.code,
            transform.restore,
            frame@,
            anchor@,
            old(stream)@,
            final(stream)@,
            r->Ok_0@,
        ),
        r is Err ==> r->Err_0 is InvalidData && final(stream)@ == old(stream)@,
{
    let ghost before = stream@;
    if frame.dimensions.height == 0 || frame.dimensions.width.checked_mul(
        frame.dimensions.height,
    ).is_none() || !can_predict(anchor) {
        return Err(Error::InvalidData);
    }
    write_start(frame, Kind::P, stream)?;
    let macro_blocks = PFrame::new(*frame, *anchor).get_macroblocks(&transform.code);
    let list = PMacroBlocks::new(macro_blocks);
    list.encode(stream)?;
    proof {
        lemma_compressed_bits_len(items_bytes::<PMacroBlock<i16>>(models(list@)));
        lemma_padded(before + frame_start(frame@, Kind::P));
        lemma_padded(stream@);
    }
    stream.align_to_byte()?;
    stream.flush()?;
    let macro_blocks = list.into_inner();
    assert(are_macroblocks(transform.code, frame@, anchor@, macro_blocks@));
    proof {
        law_predicted_frames_fit(transform.code, frame@, anchor@, macro_blocks@);
    }
    let back = PFrame::reassemble(anchor, macro_blocks.as_slice(), &transform.restore)?;
    proof {
        lemma_assembled_len(transform.restore, None, anchor@, macro_blocks@, back@);
        assert(is_pframe_streamed(
            transform.code,
            transform.restore,
            frame@,
            anchor@,
            before,
            stream@,
            back@,
        ));
    }
    Ok(back)
}

/// Frames that are written one after the other.
pub struct FrameStream {
    ordering: FrameOrder,
    frame_pos: usize,
    last_anchor: Option<SubSampleBlockGroup<i16>>,
}

impl View for FrameStream {
    type V = StreamState;

    closed spec fn view(&self) -> StreamState {
        StreamState {
            pos: self.frame_pos as int,
            anchor: match self.last_anchor {
                Some(frame) => Some(frame@),
                None => None,
            },
        }
    }
}

impl FrameStream {
    /// The order of the frames.
    pub closed spec fn order(&self) -> FrameOrder {
        self.ordering
    }

    /// The position lies in the group, and only the first frame has none before
    /// it.
    pub closed spec fn well_formed(&self) -> bool {
        &&& self.frame_pos < self.ordering.full_image_distance
        &&& self.last_anchor is None ==> self.frame_pos == 0
    }

    /// A stream without frames.
    pub fn new(ordering: FrameOrder) -> (r: Self)
        requires
            ordering.full_image_distance > 0,
        ensures
            r.well_formed(),
            r.order() == ordering,
            r@ == (StreamState { pos: 0, anchor: None }),
    {
        FrameStream { ordering, frame_pos: 0, last_anchor: None }
    }

    /// Writes a frame. One that cannot be coded is invalid data.
    pub fn write_frame<
        D: Fn(&Block<i16>) -> Block<i16> + Sync + Send,
        I: Fn(&Block<i16>) -> Block<i16> + Sync + Send,
        C: Fn(Plane, &Block<i16>) -> Block<i16> + Sync + Send,
        R: Fn(Plane, &Block<i16>, &Block<i16>) -> Block<i16> + Sync + Send,
    >(
        &mut self,
        transform: &Transform<D, I, C, R>,
        frame: SubSampleBlockGroup<i16>,
        stream: &mut BitStreamWriter,
    ) -> (r: Result<()>)
        requires
            old(self).well_formed(),
            transform.takes_all(),
        ensures
            final(self).well_formed(),
            final(self).order() == old(self).order(),
            r is Ok <==> is_accepted(old(self).order(), old(self)@, frame@),
            r is Ok ==> is_frame_streamed(
                *transform,
                old(self).order(),
                old(self)@,
                frame@,
                old(stream)@,
                final(self)@,
                final(stream)@,
            ),
            r is Ok && stream_kind(old(self).order(), stream_pos(old(self)@, frame@)) == Kind::P
                ==> can_precede(final(self)@.anchor->0),
            r is Err ==> r->Err_0 is InvalidData && final(self)@ == old(self)@ && final(stream)@
                == old(stream)@,
    {
        let order = self.ordering;
        let ghost before = stream@;
        let mut pos: usize = self.frame_pos;
        match &self.last_anchor {
            Some(anchor) => {
                if detect_scene_change(&anchor.as_ref(), &frame.as_ref()) {
                    pos = 0;
                }
            },
            None => {},
        }
        let next_pos: usize = if pos + 1 == order.full_image_distance {
            0
        } else {
            pos + 1
        };
        proof {
            let full = order.full_image_distance as int;
            vstd::arithmetic::div_mod::lemma_mod_self_0(full);
            if pos + 1 < full {
                vstd::arithmetic::div_mod::lemma_small_mod((pos + 1) as nat, full as nat);
            }
            vstd::arithmetic::div_mod::lemma_small_mod(pos as nat, full as nat);
        }
        if order.frame_kind(pos) == Kind::I {
            let group = frame.as_ref();
            if !can_count(&group, group.cb.len(), group.cr.len()) {
                return Err(Error::InvalidData);
            }
            write_start(&group, Kind::I, stream)?;
            let ghost start = stream@;
            IFrame::new(group).encode(&transform.dct, stream)?;
            let ghost planes = choose|y: Seq<Block<i16>>, cb: Seq<Block<i16>>, cr: Seq<Block<i16>>|
                {
                    let luma = table_steps::<i16>(VIDEO_LUMINANCE_QUANTIZATION@);
                    let chroma = table_steps::<i16>(VIDEO_CHROMINANCE_QUANTIZATION@);
                    &&& is_coded_plane(transform.dct, luma, group.y@, y)
                    &&& is_coded_plane(transform.dct, chroma, group.cb@, cb)
                    &&& is_coded_plane(transform.dct, chroma, group.cr@, cr)
                    &&& are_planes_kept(group.dimensions, group.subsampling, y, cb, cr)
                    &&& stream@ == #[trigger] frame_bits(
                        start,
                        group.dimensions,
                        group.subsampling,
                        y,
                        cb,
                        cr,
                    )
                };
            proof {
                lemma_frame_bits_len(
                    start,
                    group.dimensions,
                    group.subsampling,
                    planes.0,
                    planes.1,
                    planes.2,
                );
                lemma_padded(stream@);
                assert(stream@ == frame_bits(
                    before + frame_start(frame@, Kind::I),
                    frame@.dimensions,
                    frame@.subsampling,
                    planes.0,
                    planes.1,
                    planes.2,
                ));
                assert(is_iframe_streamed(transform.dct, frame@, before, stream@));
            }
            stream.align_to_byte()?;
            stream.flush()?;
            self.last_anchor = Some(frame);
        } else {
            let back = match &self.last_anchor {
                Some(anchor) => {
                    let group = frame.as_ref();
                    write_predicted(transform, &group, &anchor.as_ref(), stream)?
                },
                None => {
                    assert(false);
                    return Err(Error::InvalidData);
                },
            };
            self.last_anchor = Some(back);
        }
        self.frame_pos = next_pos;
        Ok(())
    }
}

/// Where a stream stands while frames are written, and the bits that were
/// written by then.
pub open spec fn are_frames_streamed<
    D: Fn(&Block<i16>) -> Block<i16>,
    I: Fn(&Block<i16>) -> Block<i16>,
    C: Fn(Plane, &Block<i16>) -> Block<i16>,
    R: Fn(Plane, &Block<i16>, &Block<i16>) -> Block<i16>,
>(
    transform: Transform<D, I, C, R>,
    order: FrameOrder,
    frames: Seq<Picture<i16>>,
    states: Seq<StreamState>,
    bits: Seq<Seq<bool>>,
) -> bool {
    &&& states.len() == frames.len() + 1
    &&& bits.len() == frames.len() + 1
    &&& states[0] == (StreamState { pos: 0, anchor: None })
    &&& forall|i: int|
        0 <= i < frames.len() ==> is_frame_streamed(
            transform,
            order,
            states[i],
            #[trigger] frames[i],
            bits[i],
            states[i + 1],
            bits[i + 1],
        )
}

/// A stream went on with frames and the mark of the end.
pub open spec fn is_stream_written<
    D: Fn(&Block<i16>) -> Block<i16>,
    I: Fn(&Block<i16>) -> Block<i16>,
    C: Fn(Plane, &Block<i16>) -> Block<i16>,
    R: Fn(Plane, &Block<i16>, &Block<i16>) -> Block<i16>,
>(
    transform: Transform<D, I, C, R>,
    order: FrameOrder,
    frames: Seq<Picture<i16>>,
    before: Seq<bool>,
    after: Seq<bool>,
) -> bool {
    exists|states: Seq<StreamState>, bits: Seq<Seq<bool>>|
        {
            &&& #[trigger] are_frames_streamed(transform, order, frames, states, bits)
            &&& bits.first() == before
            &&& after == padded(bits.last() + end_bits())
        }
}

/// A stream went on with the frames before one that cannot be streamed.
pub open spec fn is_stream_refused<
    D: Fn(&Block<i16>) -> Block<i16>,
    I: Fn(&Block<i16>) -> Block<i16>,
    C: Fn(Plane, &Block<i16>) -> Block<i16>,
    R: Fn(Plane, &Block<i16>, &Block<i16>) -> Block<i16>,
>(
    transform: Transform<D, I, C, R>,
    order: FrameOrder,
    frames: Seq<Picture<i16>>,
    before: Seq<bool>,
    after: Seq<bool>,
) -> bool {
    exists|written: Seq<Picture<i16>>, states: Seq<StreamState>, bits: Seq<Seq<bool>>|
        {
            &&& #[trigger] are_frames_streamed(transform, order, written, states, bits)
            &&& written.len() < frames.len()
            &&& written == frames.take(written.len() as int)
            &&& !is_accepted(order, states.last(), frames[written.len() as int])
            &&& bits.first() == before
            &&& after == bits.last()
        }
}

/// A stream went on with the first frames of a video.
pub open spec fn is_stream_cut<
    D: Fn(&Block<i16>) -> Block<i16>,
    I: Fn(&Block<i16>) -> Block<i16>,
    C: Fn(Plane, &Block<i16>) -> Block<i16>,
    R: Fn(Plane, &Block<i16>, &Block<i16>) -> Block<i16>,
>(
    transform: Transform<D, I, C, R>,
    order: FrameOrder,
    frames: Seq<Picture<i16>>,
    before: Seq<bool>,
    after: Seq<bool>,
) -> bool {
    exists|written: Seq<Picture<i16>>, states: Seq<StreamState>, bits: Seq<Seq<bool>>|
        {
            &&& #[trigger] are_frames_streamed(transform, order, written, states, bits)
            &&& written.len() <= frames.len()
            &&& written == frames.take(written.len() as int)
            &&& bits.first() == before
            &&& after == bits.last()
        }
}

/// Writes a video frame by frame.
pub struct FramesWriter<FR> {
    pub ordering: FrameOrder,
    pub content: FR,
}

impl<FR: FrameReader<i16>> FramesWriter<FR> {
    /// A writer of the frames that a reader gives.
    pub fn new(content: FR, ordering: FrameOrder) -> (r: Self)
        ensures
            r.content == content,
            r.ordering == ordering,
    {
        FramesWriter { ordering, content }
    }

    /// Writes all frames that the reader gives, and the mark of the end. A frame
    /// that cannot be coded is invalid data, and the frames before it are
    /// written. So are the frames before an error of the reader, which is handed
    /// on.
    pub fn encode<
        D: Fn(&Block<i16>) -> Block<i16> + Sync + Send,
        I: Fn(&Block<i16>) -> Block<i16> + Sync + Send,
        C: Fn(Plane, &Block<i16>) -> Block<i16> + Sync + Send,
        R: Fn(Plane, &Block<i16>, &Block<i16>) -> Block<i16> + Sync + Send,
    >(&mut self, transform: &Transform<D, I, C, R>, stream: &mut BitStreamWriter) -> (r: Result<
        (),
    >)
        requires
            old(self).ordering.full_image_distance > 0,
            transform.takes_all(),
        ensures
            final(self).ordering == old(self).ordering,
            r is Ok ==> is_stream_written(
                *transform,
                old(self).ordering,
                old(self).content.coming(),
                old(stream)@,
                final(stream)@,
            ) && final(self).content.coming().len() == 0,
            r is Err ==> {
                ||| r->Err_0 is InvalidData && is_stream_refused(
                    *transform,
                    old(self).ordering,
                    old(self).content.coming(),
                    old(stream)@,
                    final(stream)@,
                )
                ||| final(self).content.failure() == Some(r->Err_0) && is_stream_cut(
                    *transform,
                    old(self).ordering,
                    old(self).content.coming(),
                    old(stream)@,
                    final(stream)@,
                )
            },
            old(self).content.is_sound() && r is Err ==> r->Err_0 is InvalidData
                && is_stream_refused(
                *transform,
                old(self).ordering,
                old(self).content.coming(),
                old(stream)@,
                final(stream)@,
            ),
            old(self).content.is_sound() && (forall|i: int|
                0 <= i < old(self).content.coming().len() ==> is_streamable(
                    #[trigger] old(self).content.coming()[i],
                )) ==> r is Ok,
    {
        let mut frames = FrameStream::new(self.ordering);
        let ghost all = self.content.coming();
        let ghost order = self.ordering;
        let ghost mut done: int = 0;
        let ghost mut states: Seq<StreamState> = seq![frames@];
        let ghost mut bits: Seq<Seq<bool>> = seq![stream@];
        assert(all.take(0) =~= Seq::<Picture<i16>>::empty());
        assert(all.skip(0) =~= all);
        loop
            invariant
                transform.takes_all(),
                self.ordering == old(self).ordering,
                order == self.ordering,
                all == old(self).content.coming(),
                0 <= done <= all.len(),
                self.content.coming() == all.skip(done),
                old(self).content.is_sound() ==> self.content.is_sound(),
                frames.well_formed(),
                frames.order() == order,
                are_frames_streamed(*transform, order, all.take(done), states, bits),
                states.last() == frames@,
                bits.first() == old(stream)@,
                bits.last() == stream@,
                (forall|i: int| 0 <= i < all.len() ==> is_streamable(#[trigger] all[i])) ==> (
                frames@.anchor is Some ==> can_precede(frames@.anchor->0)),
            ensures
                done == all.len(),
            decreases all.len() - done,
        {
            let frame = match self.content.read_frame() {
                Ok(Some(frame)) => frame,
                Ok(None) => {
                    break;
                },
                Err(e) => {
                    assert(are_frames_streamed(*transform, order, all.take(done), states, bits));
                    return Err(e);
                },
            };
            assert(frame@ == all[done]);
            let ghost state = frames@;
            match frames.write_frame(transform, frame, stream) {
                Ok(()) => {},
                Err(e) => {
                    proof {
                        vstd::arithmetic::div_mod::lemma_small_mod(
                            0,
                            order.full_image_distance as nat,
                        );
                        assert(state.anchor is None ==> stream_kind(
                            order,
                            stream_pos(state, frame@),
                        ) == Kind::I);
                        assert(!is_streamable(all[done]) || !can_precede(state.anchor->0));
                    }
                    return Err(e);
                },
            }
            proof {
                let written = all.take(done);
                let now = all.take(done + 1);
                let states_now = states.push(frames@);
                let bits_now = bits.push(stream@);
                assert forall|i: int| 0 <= i < now.len() implies is_frame_streamed(
                    *transform,
                    order,
                    states_now[i],
                    #[trigger] now[i],
                    bits_now[i],
                    states_now[i + 1],
                    bits_now[i + 1],
                ) by {
                    if i < done {
                        assert(now[i] == written[i]);
                    }
                }
                assert(all.skip(done).skip(1) =~= all.skip(done + 1));
                states = states_now;
                bits = bits_now;
                done = done + 1;
            }
        }
        assert(all.take(done) =~= all);
        GroupOfPicturesHeader::End.encode(stream)?;
        stream.flush()
    }
}

/// A frame belongs to the scene of its anchor.
#[verifier::opaque]
pub open spec fn scene_goes_on(
    frames: Seq<Picture<i16>>,
    states: Seq<StreamState>,
    k: int,
) -> bool {
    states[k].anchor is Some && !is_scene_change(states[k].anchor->0, frames[k])
}

/// A stream starts with a frame that stands alone, and every frame of another scene than its
/// anchor stands alone. Behind a frame that does, and while the scene lasts, all frames are
/// predicted from the one before until the next group starts.
pub proof fn law_stream_refreshes<
    D: Fn(&Block<i16>) -> Block<i16>,
    I: Fn(&Block<i16>) -> Block<i16>,
    C: Fn(Plane, &Block<i16>) -> Block<i16>,
    R: Fn(Plane, &Block<i16>, &Block<i16>) -> Block<i16>,
>(
    transform: Transform<D, I, C, R>,
    order: FrameOrder,
    frames: Seq<Picture<i16>>,
    states: Seq<StreamState>,
    bits: Seq<Seq<bool>>,
    i: int,
    n: int,
)
    requires
        0 < order.full_image_distance,
        are_frames_streamed(transform, order, frames, states, bits),
        0 <= i,
        0 < n <= order.full_image_distance,
        i + n < frames.len(),
    ensures
        ({
            let kind = stream_kind(order, stream_pos(states[i], frames[i]));
            let later = stream_kind(order, stream_pos(states[i + n], frames[i + n]));
            &&& i == 0 ==> kind == Kind::I
            &&& states[i].anchor is Some && is_scene_change(states[i].anchor->0, frames[i])
                ==> kind == Kind::I
            &&& kind == Kind::I || kind == Kind::P
            &&& kind == Kind::I ==> states[i + 1].anchor == Some(frames[i])
            &&& kind == Kind::I && (forall|k: int|
                i < k <= i + n ==> #[trigger] scene_goes_on(frames, states, k)) ==> later == if n
                == order.full_image_distance {
                Kind::I
            } else {
                Kind::P
            }
        }),
{
    lemma_steps(transform, order, frames, states, bits);
    lemma_refreshes(order, frames, states, i, n);
}

/// The position goes on by one frame.
spec fn is_step(
    order: FrameOrder,
    frame: Picture<i16>,
    state: StreamState,
    next: StreamState,
) -> bool {
    let pos = stream_pos(state, frame);
    &&& next.pos == (pos + 1) % (order.full_image_distance as int)
    &&& next.anchor is Some
    &&& stream_kind(order, pos) == Kind::I ==> next.anchor->0 == frame
}

/// The position goes on frame by frame, from the start of a group on.
#[verifier::opaque]
spec fn are_steps(order: FrameOrder, frames: Seq<Picture<i16>>, states: Seq<StreamState>) -> bool {
    &&& states[0] == (StreamState { pos: 0, anchor: None })
    &&& forall|k: int|
        #![trigger frames[k]]
        0 <= k < frames.len() ==> is_step(order, frames[k], states[k], states[k + 1])
}

proof fn lemma_steps<
    D: Fn(&Block<i16>) -> Block<i16>,
    I: Fn(&Block<i16>) -> Block<i16>,
    C: Fn(Plane, &Block<i16>) -> Block<i16>,
    R: Fn(Plane, &Block<i16>, &Block<i16>) -> Block<i16>,
>(
    transform: Transform<D, I, C, R>,
    order: FrameOrder,
    frames: Seq<Picture<i16>>,
    states: Seq<StreamState>,
    bits: Seq<Seq<bool>>,
)
    requires
        are_frames_streamed(transform, order, frames, states, bits),
    ensures
        are_steps(order, frames, states),
{
    reveal(are_steps);
    assert forall|k: int| #![trigger frames[k]] 0 <= k < frames.len() implies is_step(
        order,
        frames[k],
        states[k],
        states[k + 1],
    ) by {
        assert(is_frame_streamed(
            transform,
            order,
            states[k],
            frames[k],
            bits[k],
            states[k + 1],
            bits[k + 1],
        ));
    }
}

proof fn lemma_step(order: FrameOrder, frames: Seq<Picture<i16>>, states: Seq<StreamState>, k: int)
    requires
        are_steps(order, frames, states),
        0 <= k < frames.len(),
    ensures
        states[0] == (StreamState { pos: 0, anchor: None }),
        is_step(order, frames[k], states[k], states[k + 1]),
{
    reveal(are_steps);
}

proof fn lemma_refreshes(
    order: FrameOrder,
    frames: Seq<Picture<i16>>,
    states: Seq<StreamState>,
    i: int,
    n: int,
)
    requires
        0 < order.full_image_distance,
        are_steps(order, frames, states),
        0 <= i,
        0 < n <= order.full_image_distance,
        i + n < frames.len(),
    ensures
        ({
            let kind = stream_kind(order, stream_pos(states[i], frames[i]));
            let later = stream_kind(order, stream_pos(states[i + n], frames[i + n]));
            &&& i == 0 ==> kind == Kind::I
            &&& states[i].anchor is Some && is_scene_change(states[i].anchor->0, frames[i])
                ==> kind == Kind::I
            &&& kind == Kind::I || kind == Kind::P
            &&& kind == Kind::I ==> states[i + 1].anchor == Some(frames[i])
            &&& kind == Kind::I && (forall|k: int|
                i < k <= i + n ==> #[trigger] scene_goes_on(frames, states, k)) ==> later == if n
                == order.full_image_distance {
                Kind::I
            } else {
                Kind::P
            }
        }),
{
    let full = order.full_image_distance as int;
    vstd::arithmetic::div_mod::lemma_small_mod(0, full as nat);
    lemma_step(order, frames, states, i);
    let pos = stream_pos(states[i], frames[i]);
    if stream_kind(order, pos) == Kind::I && (forall|k: int|
        i < k <= i + n ==> #[trigger] scene_goes_on(frames, states, k)) {
        lemma_pos_goes_on(order, frames, states, i, n);
        vstd::arithmetic::div_mod::lemma_mod_twice(n, full);
        if n < full {
            vstd::arithmetic::div_mod::lemma_small_mod(n as nat, full as nat);
        } else {
            vstd::arithmetic::div_mod::lemma_mod_self_0(full);
        }
    }
}

proof fn lemma_pos_goes_on(
    order: FrameOrder,
    frames: Seq<Picture<i16>>,
    states: Seq<StreamState>,
    i: int,
    n: int,
)
    requires
        0 < order.full_image_distance,
        are_steps(order, frames, states),
        0 <= i,
        0 < n,
        i + n < frames.len(),
        stream_kind(order, stream_pos(states[i], frames[i])) == Kind::I,
        forall|k: int| i < k <= i + n ==> #[trigger] scene_goes_on(frames, states, k),
    ensures
        stream_pos(states[i + n], frames[i + n]) == n % (order.full_image_distance as int),
    decreases n,
{
    let full = order.full_image_distance as int;
    let k = i + n - 1;
    lemma_step(order, frames, states, k);
    let pos = stream_pos(states[k], frames[k]);
    assert(scene_goes_on(frames, states, i + n));
    assert(stream_pos(states[i + n], frames[i + n]) == states[i + n].pos) by {
        reveal(scene_goes_on);
    }
    if n == 1 {
        assert(pos % full == 0);
        vstd::arithmetic::div_mod::lemma_add_mod_noop(pos, 1, full);
        vstd::arithmetic::div_mod::lemma_mod_twice(1, full);
    } else {
        lemma_pos_goes_on(order, frames, states, i, n - 1);
        vstd::arithmetic::div_mod::lemma_add_mod_noop(pos, 1, full);
        vstd::arithmetic::div_mod::lemma_add_mod_noop(n - 1, 1, full);
        vstd::arithmetic::div_mod::lemma_mod_twice(n - 1, full);
    }
}

} // verus!
