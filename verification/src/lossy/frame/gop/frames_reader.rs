//! Reading a video frame by frame.
//!
//! A frame that is predicted from both sides is held back until the anchor that
//! follows it is read. Then all frames that were held back are shown, and the
//! anchor behind them.
use std::collections::VecDeque;

use vstd::prelude::*;

use super::data::{
    decode_frame, header_kind, is_data_read, is_frame_refused, lemma_header_read, DecodedFrameData,
};
use super::header::{holds_end, holds_frame, GroupOfPicturesHeader};
use super::DecodedFrame;
use crate::bits::bytes_bits;
use crate::bitstream::BitStreamReader;
use crate::block::Block;
use crate::error::{Error, Result};
use crate::lossy::frame::assembly::{is_assembled, lemma_assembled_len, lemma_like_planes_fit};
use crate::lossy::frame::bframe::BFrame;
use crate::lossy::frame::macroblock::bmacro::BMacroBlock;
use crate::lossy::frame::pframe::PFrame;
use crate::lossy::frame::prediction::Plane;
use crate::lossy::frame::Kind;
use crate::lossy::{Picture, SubSampleBlockGroup, SubSampleBlockGroupRef};
use crate::parallel::par_map;

verus! {

/// Where a reader stands: what it has still to read, the frames that are ready
/// to be shown, the frames that are held back, and the last anchor.
pub struct ReaderState {
    pub bits: Seq<bool>,
    pub ready: Seq<(Kind, Picture<i16>)>,
    pub pending: Seq<Seq<BMacroBlock<i16>>>,
    pub anchor: Option<Picture<i16>>,
    pub eof: bool,
}

/// Frames that were held back were put together.
pub open spec fn are_pending_shown<R: Fn(Plane, &Block<i16>, &Block<i16>) -> Block<i16>>(
    restore: R,
    forward: Option<Picture<i16>>,
    backward: Picture<i16>,
    pending: Seq<Seq<BMacroBlock<i16>>>,
    shown: Seq<(Kind, Picture<i16>)>,
) -> bool {
    &&& shown.len() == pending.len()
    &&& forall|j: int|
        0 <= j < pending.len() ==> {
            &&& (#[trigger] shown[j]).0 == Kind::B
            &&& is_assembled(restore, forward, backward, pending[j], shown[j].1)
        }
}

/// The frames that were held back were put together. Where nothing stands before
/// them, none is.
pub open spec fn is_flushed<R: Fn(Plane, &Block<i16>, &Block<i16>) -> Block<i16>>(
    restore: R,
    forward: Option<Picture<i16>>,
    anchor: Option<Picture<i16>>,
    pending: Seq<Seq<BMacroBlock<i16>>>,
    shown: Seq<(Kind, Picture<i16>)>,
) -> bool {
    match anchor {
        Some(backward) => are_pending_shown(restore, forward, backward, pending, shown),
        None => shown.len() == 0,
    }
}

/// An anchor was read: the frames that were held back are shown, and the anchor
/// behind them.
pub open spec fn is_anchor_ready<R: Fn(Plane, &Block<i16>, &Block<i16>) -> Block<i16>>(
    restore: R,
    before: ReaderState,
    kind: Kind,
    anchor: Picture<i16>,
    after: ReaderState,
) -> bool {
    &&& after.pending.len() == 0
    &&& after.anchor == Some(anchor)
    &&& after.eof == before.eof
    &&& exists|shown: Seq<(Kind, Picture<i16>)>|
        {
            &&& #[trigger] is_flushed(
                restore,
                Some(anchor),
                before.anchor,
                before.pending,
                shown,
            )
            &&& after.ready == before.ready + shown + seq![(kind, anchor)]
        }
}

/// Nothing changed but what is still to be read.
pub open spec fn only_bits_went(before: ReaderState, after: ReaderState) -> bool {
    after == (ReaderState { bits: after.bits, ..before })
}

/// A frame was read.
pub open spec fn is_frame_taken<R: Fn(Plane, &Block<i16>, &Block<i16>) -> Block<i16>>(
    restore: R,
    before: ReaderState,
    data: DecodedFrameData,
    r: Result<bool>,
    after: ReaderState,
) -> bool {
    match data {
        DecodedFrameData::IFrame(frame) => {
            r == Ok::<bool, Error>(true) && is_anchor_ready(restore, before, Kind::I, frame@, after)
        },
        DecodedFrameData::PFrame(macro_blocks) => match before.anchor {
            Some(backward) => exists|frame: Picture<i16>|
                {
                    &&& r == Ok::<bool, Error>(true)
                    &&& #[trigger] is_assembled(restore, None, backward, macro_blocks@, frame)
                    &&& is_anchor_ready(restore, before, Kind::P, frame, after)
                },
            None => r is Err && r->Err_0 is InvalidData && only_bits_went(before, after),
        },
        DecodedFrameData::BFrame(macro_blocks) => {
            &&& r == Ok::<bool, Error>(true)
            &&& after.ready == before.ready
            &&& after.pending == before.pending.push(macro_blocks@)
            &&& after.anchor == before.anchor
            &&& after.eof == before.eof
        },
    }
}

/// How a frame is taken does not depend on what is still to be read.
proof fn lemma_taken_alike<R: Fn(Plane, &Block<i16>, &Block<i16>) -> Block<i16>>(
    restore: R,
    a: ReaderState,
    b: ReaderState,
    data: DecodedFrameData,
    r: Result<bool>,
    after: ReaderState,
)
    requires
        is_frame_taken(restore, a, data, r, after),
        a.ready == b.ready,
        a.pending == b.pending,
        a.anchor == b.anchor,
        a.eof == b.eof,
    ensures
        is_frame_taken(restore, b, data, r, after),
{
    match data {
        DecodedFrameData::IFrame(frame) => {
            assert(is_anchor_ready(restore, b, Kind::I, frame@, after));
        },
        DecodedFrameData::PFrame(macro_blocks) => {
            if let Some(backward) = a.anchor {
                let frame = choose|frame: Picture<i16>|
                    {
                        &&& #[trigger] is_assembled(restore, None, backward, macro_blocks@, frame)
                        &&& is_anchor_ready(restore, a, Kind::P, frame, after)
                    };
                assert(is_assembled(restore, None, backward, macro_blocks@, frame));
                assert(is_anchor_ready(restore, b, Kind::P, frame, after));
            }
        },
        DecodedFrameData::BFrame(_) => {},
    }
}

/// The mark of the end was read: the frames that were held back are put
/// together, and the last anchor stands for the one that does not follow.
pub open spec fn is_end_taken<R: Fn(Plane, &Block<i16>, &Block<i16>) -> Block<i16>>(
    restore: R,
    before: ReaderState,
    r: Result<bool>,
    after: ReaderState,
) -> bool {
    &&& after.eof
    &&& after.anchor == before.anchor
    &&& r == Ok::<bool, Error>(false)
    &&& before.anchor is Some ==> after.pending.len() == 0
    &&& before.anchor is None ==> after.pending == before.pending
    &&& exists|shown: Seq<(Kind, Picture<i16>)>|
        #[trigger] is_flushed(restore, before.anchor, before.anchor, before.pending, shown)
            && after.ready == before.ready + shown
}

/// How the mark of the end is taken does not depend on what is still to be read.
proof fn lemma_end_alike<R: Fn(Plane, &Block<i16>, &Block<i16>) -> Block<i16>>(
    restore: R,
    a: ReaderState,
    b: ReaderState,
    r: Result<bool>,
    after: ReaderState,
)
    requires
        is_end_taken(restore, a, r, after),
        a.ready == b.ready,
        a.pending == b.pending,
        a.anchor == b.anchor,
    ensures
        is_end_taken(restore, b, r, after),
{
    let shown = choose|shown: Seq<(Kind, Picture<i16>)>|
        #[trigger] is_flushed(restore, a.anchor, a.anchor, a.pending, shown) && after.ready
            == a.ready + shown;
    assert(is_flushed(restore, b.anchor, b.anchor, b.pending, shown));
}

/// What reading what comes next answers: whether it was a frame.
pub open spec fn is_step<
    I: Fn(&Block<i16>) -> Block<i16>,
    R: Fn(Plane, &Block<i16>, &Block<i16>) -> Block<i16>,
>(idct: I, restore: R, before: ReaderState, r: Result<bool>, after: ReaderState) -> bool {
    if holds_end(before.bits) {
        after.bits == before.bits.skip(8) && is_end_taken(restore, before, r, after)
    } else if holds_frame(before.bits) {
        exists|data: Result<DecodedFrameData>|
            {
                &&& #[trigger] is_data_read(
                    idct,
                    header_kind(before.bits),
                    before.bits.skip(88),
                    data,
                    after.bits,
                )
                &&& data is Err ==> r is Err && r->Err_0 == data->Err_0 && only_bits_went(
                    before,
                    after,
                )
                &&& data is Ok ==> is_frame_taken(restore, before, data->Ok_0, r, after)
            }
    } else {
        &&& r is Err
        &&& is_frame_refused(idct, before.bits, r->Err_0, after.bits)
        &&& only_bits_went(before, after)
    }
}

/// Puts frames that were held back together, side by side.
fn assemble_pending<R: Fn(Plane, &Block<i16>, &Block<i16>) -> Block<i16> + Sync + Send>(
    restore: &R,
    forward: &SubSampleBlockGroupRef<'_, i16>,
    backward: &SubSampleBlockGroupRef<'_, i16>,
    pending: &[Vec<BMacroBlock<i16>>],
) -> (r: Vec<SubSampleBlockGroup<i16>>)
    requires
        forward.cb@.len() == forward.cr@.len(),
        forall|plane: Plane, p: Block<i16>, b: Block<i16>| #[trigger]
            call_requires(*restore, (plane, &p, &b)),
    ensures
        are_pending_shown(
            *restore,
            Some(forward@),
            backward@,
            pending_views(pending@),
            between_views(r@),
        ),
{
    let ghost views = pending_views(pending@);
    let work = |macro_blocks: &Vec<BMacroBlock<i16>>| -> (r: SubSampleBlockGroup<i16>)
        requires
            forward.cb@.len() == forward.cr@.len(),
            forall|plane: Plane, p: Block<i16>, b: Block<i16>| #[trigger]
                call_requires(*restore, (plane, &p, &b))
        ensures
            is_assembled(*restore, Some(forward@), backward@, macro_blocks@, r@)
        {
            proof {
                lemma_like_planes_fit(macro_blocks@, forward@, true);
            }
            BFrame::reassemble(Some(forward), backward, macro_blocks.as_slice(), restore).unwrap()
        };
    let r = par_map(pending, work);
    proof {
        let shown = between_views(r@);
        assert forall|j: int| 0 <= j < views.len() implies {
            &&& (#[trigger] shown[j]).0 == Kind::B
            &&& is_assembled(*restore, Some(forward@), backward@, views[j], shown[j].1)
        } by {
            assert(call_ensures(work, (&pending@[j],), r@[j]));
        }
    }
    r
}

/// The macroblocks of frames that are held back.
pub open spec fn pending_views(pending: Seq<Vec<BMacroBlock<i16>>>) -> Seq<Seq<BMacroBlock<i16>>> {
    Seq::new(pending.len(), |j: int| pending[j]@)
}

/// Frames between anchors.
pub open spec fn between_views(frames: Seq<SubSampleBlockGroup<i16>>) -> Seq<
    (Kind, Picture<i16>),
> {
    Seq::new(frames.len(), |j: int| (Kind::B, frames[j]@))
}

/// What frames are.
pub open spec fn frame_views(frames: Seq<DecodedFrame>) -> Seq<(Kind, Picture<i16>)> {
    Seq::new(frames.len(), |j: int| frames[j]@)
}

/// Reads a video frame by frame.
pub struct FramesReader {
    source: BitStreamReader,
    ready: VecDeque<DecodedFrame>,
    pending_bframes: Vec<Vec<BMacroBlock<i16>>>,
    last_anchor: Option<SubSampleBlockGroup<i16>>,
    eof: bool,
}

impl View for FramesReader {
    type V = ReaderState;

    closed spec fn view(&self) -> ReaderState {
        ReaderState {
            bits: self.source@,
            ready: frame_views(self.ready@),
            pending: pending_views(self.pending_bframes@),
            anchor: match self.last_anchor {
                Some(anchor) => Some(anchor@),
                None => None,
            },
            eof: self.eof,
        }
    }
}

impl FramesReader {
    /// The last anchor has as many blocks in both chroma planes.
    pub closed spec fn well_formed(&self) -> bool {
        self.last_anchor matches Some(anchor) ==> anchor.cb@.len() == anchor.cr@.len()
    }

    /// A reader at the start of the bytes.
    pub fn new(source: Vec<u8>) -> (r: Self)
        ensures
            r.well_formed(),
            r@.bits == bytes_bits(source@),
            r@.ready.len() == 0,
            r@.pending.len() == 0,
            r@.anchor is None,
            !r@.eof,
    {
        FramesReader {
            source: BitStreamReader::new(source),
            ready: VecDeque::new(),
            pending_bframes: Vec::new(),
            last_anchor: None,
            eof: false,
        }
    }

    /// Makes frames ready to be shown.
    fn show_between(&mut self, frames: Vec<SubSampleBlockGroup<i16>>)
        ensures
            final(self)@.ready == old(self)@.ready + between_views(frames@),
            final(self).source == old(self).source,
            final(self).pending_bframes == old(self).pending_bframes,
            final(self).last_anchor == old(self).last_anchor,
            final(self).eof == old(self).eof,
    {
        let ghost start = self@.ready;
        let ghost all = between_views(frames@);
        let mut left = frames;
        let mut turned: Vec<SubSampleBlockGroup<i16>> = Vec::new();
        while left.len() > 0
            invariant
                left@.len() + turned@.len() == all.len(),
                all == between_views(frames@),
                forall|j: int| 0 <= j < left@.len() ==> left@[j] == frames@[j],
                forall|j: int|
                    0 <= j < turned@.len() ==> turned@[j] == frames@[all.len() - 1 - j],
            decreases left@.len(),
        {
            match left.pop() {
                Some(frame) => {
                    turned.push(frame);
                },
                None => {},
            }
        }
        assert(start + all.take(0) =~= start);
        while turned.len() > 0
            invariant
                turned@.len() <= all.len(),
                all == between_views(frames@),
                forall|j: int|
                    0 <= j < turned@.len() ==> turned@[j] == frames@[all.len() - 1 - j],
                self@.ready == start + all.take(all.len() - turned@.len()),
                self.source == old(self).source,
                self.pending_bframes == old(self).pending_bframes,
                self.last_anchor == old(self).last_anchor,
                self.eof == old(self).eof,
            decreases turned@.len(),
        {
            let ghost n = all.len() - turned@.len();
            let ghost before = self@.ready;
            match turned.pop() {
                Some(frame) => {
                    assert(frame == frames@[n]);
                    self.ready.push_back(DecodedFrame { kind: Kind::B, data: frame });
                },
                None => {},
            }
            assert(self@.ready =~= before.push(all[n]));
            assert(all.take(n + 1) =~= all.take(n).push(all[n]));
            assert(self@.ready =~= start + all.take(n + 1));
        }
        assert(all.take(all.len() as int) =~= all);
    }

    /// Takes an anchor: shows the frames that were held back, and the anchor
    /// behind them.
    fn flush_bframes<R: Fn(Plane, &Block<i16>, &Block<i16>) -> Block<i16> + Sync + Send>(
        &mut self,
        restore: &R,
        kind: Kind,
        frame: SubSampleBlockGroup<i16>,
    )
        requires
            old(self).well_formed(),
            frame.cb@.len() == frame.cr@.len(),
            forall|plane: Plane, p: Block<i16>, b: Block<i16>| #[trigger]
                call_requires(*restore, (plane, &p, &b)),
        ensures
            final(self).well_formed(),
            final(self)@.bits == old(self)@.bits,
            is_anchor_ready(*restore, old(self)@, kind, frame@, final(self)@),
    {
        let mut pending: Vec<Vec<BMacroBlock<i16>>> = Vec::new();
        std::mem::swap(&mut pending, &mut self.pending_bframes);
        let ghost held = pending_views(pending@);
        let shown = match &self.last_anchor {
            Some(backward) => assemble_pending(
                restore,
                &frame.as_ref(),
                &backward.as_ref(),
                pending.as_slice(),
            ),
            None => Vec::new(),
        };
        let ghost views = between_views(shown@);
        assert(is_flushed(
            *restore,
            Some(frame@),
            old(self)@.anchor,
            old(self)@.pending,
            views,
        ));
        self.show_between(shown);
        let ghost before = self@.ready;
        self.ready.push_back(DecodedFrame { kind, data: frame.clone() });
        assert(self@.ready =~= before.push((kind, frame@)));
        self.last_anchor = Some(frame);
        assert(self@.ready =~= old(self)@.ready + views + seq![(kind, frame@)]);
    }

    /// Takes a frame that was read.
    fn take_frame<R: Fn(Plane, &Block<i16>, &Block<i16>) -> Block<i16> + Sync + Send>(
        &mut self,
        restore: &R,
        data: DecodedFrameData,
    ) -> (r: Result<bool>)
        requires
            old(self).well_formed(),
            data.well_formed(),
            forall|plane: Plane, p: Block<i16>, b: Block<i16>| #[trigger]
                call_requires(*restore, (plane, &p, &b)),
        ensures
            final(self).well_formed(),
            final(self)@.bits == old(self)@.bits,
            is_frame_taken(*restore, old(self)@, data, r, final(self)@),
            r is Err ==> final(self)@ == old(self)@,
    {
        match data {
            DecodedFrameData::IFrame(frame) => {
                self.flush_bframes(restore, Kind::I, frame);
            },
            DecodedFrameData::PFrame(macro_blocks) => {
                let frame = match &self.last_anchor {
                    Some(backward) => {
                        let backward = backward.as_ref();
                        proof {
                            lemma_like_planes_fit(macro_blocks@, backward@, false);
                        }
                        let frame = PFrame::reassemble(
                            &backward,
                            macro_blocks.as_slice(),
                            restore,
                        ).unwrap();
                        proof {
                            lemma_assembled_len(
                                *restore,
                                None,
                                backward@,
                                macro_blocks@,
                                frame@,
                            );
                        }
                        frame
                    },
                    None => {
                        return Err(Error::InvalidData);
                    },
                };
                self.flush_bframes(restore, Kind::P, frame);
            },
            DecodedFrameData::BFrame(macro_blocks) => {
                let ghost before = self@.pending;
                self.pending_bframes.push(macro_blocks);
                assert(self@.pending =~= before.push(macro_blocks@));
            },
        }
        Ok(true)
    }

    /// Takes the mark of the end: shows the frames that were held back, with the
    /// last anchor on both sides.
    fn take_end<R: Fn(Plane, &Block<i16>, &Block<i16>) -> Block<i16> + Sync + Send>(
        &mut self,
        restore: &R,
    ) -> (r: Result<bool>)
        requires
            old(self).well_formed(),
            forall|plane: Plane, p: Block<i16>, b: Block<i16>| #[trigger]
                call_requires(*restore, (plane, &p, &b)),
        ensures
            final(self).well_formed(),
            final(self)@.bits == old(self)@.bits,
            is_end_taken(*restore, old(self)@, r, final(self)@),
    {
        self.eof = true;
        let shown = match &self.last_anchor {
            Some(anchor) => assemble_pending(
                restore,
                &anchor.as_ref(),
                &anchor.as_ref(),
                self.pending_bframes.as_slice(),
            ),
            None => {
                let ghost none: Seq<(Kind, Picture<i16>)> = Seq::empty();
                assert(is_flushed(*restore, None, None, old(self)@.pending, none));
                assert(self@.ready =~= old(self)@.ready + none);
                return Ok(false);
            },
        };
        self.pending_bframes.clear();
        let ghost views = between_views(shown@);
        assert(is_flushed(
            *restore,
            old(self)@.anchor,
            old(self)@.anchor,
            old(self)@.pending,
            views,
        ));
        self.show_between(shown);
        Ok(false)
    }

    /// Reads what comes next, and tells whether it was a frame.
    pub fn decode_next<
        I: Fn(&Block<i16>) -> Block<i16> + Sync + Send,
        R: Fn(Plane, &Block<i16>, &Block<i16>) -> Block<i16> + Sync + Send,
    >(&mut self, idct: &I, restore: &R) -> (r: Result<bool>)
        requires
            old(self).well_formed(),
            forall|b: Block<i16>| #[trigger] call_requires(*idct, (&b,)),
            forall|plane: Plane, p: Block<i16>, b: Block<i16>| #[trigger]
                call_requires(*restore, (plane, &p, &b)),
        ensures
            final(self).well_formed(),
            is_step(*idct, *restore, old(self)@, r, final(self)@),
            r is Ok && r->Ok_0 ==> final(self)@.bits.len() < old(self)@.bits.len(),
    {
        let ghost start = self@;
        let header = GroupOfPicturesHeader::decode(&mut self.source);
        proof {
            lemma_header_read(start.bits, header, self.source@);
        }
        match header {
            Ok(GroupOfPicturesHeader::End) => {
                let ghost before = self@;
                let r = self.take_end(restore);
                proof {
                    lemma_end_alike(*restore, before, start, r, self@);
                }
                r
            },
            Ok(GroupOfPicturesHeader::Frame { kind, .. }) => {
                let read = decode_frame(idct, kind, &mut self.source);
                let ghost before = self@;
                let ghost answer = read;
                assert(is_data_read(
                    *idct,
                    header_kind(start.bits),
                    start.bits.skip(88),
                    answer,
                    before.bits,
                ));
                match read {
                    Ok(data) => {
                        let r = self.take_frame(restore, data);
                        proof {
                            lemma_taken_alike(*restore, before, start, data, r, self@);
                        }
                        r
                    },
                    Err(e) => Err(e),
                }
            },
            Err(e) => Err(e),
        }
    }

    /// Gives the next frame, in the order in which frames are shown. None behind
    /// the last. `idct` and `restore` take blocks back through the transform.
    pub fn next<
        I: Fn(&Block<i16>) -> Block<i16> + Sync + Send,
        R: Fn(Plane, &Block<i16>, &Block<i16>) -> Block<i16> + Sync + Send,
    >(&mut self, idct: &I, restore: &R) -> (r: Option<Result<DecodedFrame>>)
        requires
            old(self).well_formed(),
            forall|b: Block<i16>| #[trigger] call_requires(*idct, (&b,)),
            forall|plane: Plane, p: Block<i16>, b: Block<i16>| #[trigger]
                call_requires(*restore, (plane, &p, &b)),
        ensures
            final(self).well_formed(),
            is_call(*idct, *restore, old(self)@, r, final(self)@),
    {
        let ghost start = self@;
        let queued = self.ready.pop_front();
        match queued {
            Some(frame) => {
                assert(self@.ready =~= start.ready.skip(1));
                return Some(Ok(frame));
            },
            None => {
                assert(self@.ready =~= start.ready);
            },
        }
        if self.eof {
            return None;
        }
        let ghost mut states: Seq<ReaderState> = seq![self@];
        assert(self@ == start);
        loop
            invariant
                self.well_formed(),
                self@.ready.len() == 0,
                forall|b: Block<i16>| #[trigger] call_requires(*idct, (&b,)),
                forall|plane: Plane, p: Block<i16>, b: Block<i16>| #[trigger]
                    call_requires(*restore, (plane, &p, &b)),
                start == old(self)@,
                start.ready.len() == 0,
                !start.eof,
                are_silent_steps(*idct, *restore, states),
                states.first() == start,
                states.last() == self@,
            decreases self@.bits.len(),
        {
            let ghost before = self@;
            let read = self.decode_next(idct, restore);
            let ghost answer = read;
            let ghost after = self@;
            assert(is_step(*idct, *restore, before, answer, after));
            let more = match read {
                Ok(more) => more,
                Err(e) => {
                    return Some(Err(e));
                },
            };
            let ready = self.ready.pop_front();
            match ready {
                Some(frame) => {
                    assert(self@.ready =~= after.ready.skip(1));
                    assert(is_shown(after, Some(Ok(frame)), self@));
                    return Some(Ok(frame));
                },
                None => {
                    assert(self@.ready =~= after.ready);
                    assert(self@ == after);
                },
            }
            if !more {
                assert(is_shown(after, None::<Result<DecodedFrame>>, self@));
                return None;
            }
            proof {
                let now = states.push(self@);
                assert forall|i: int| 0 <= i < now.len() - 1 implies #[trigger] is_silent_step(
                    *idct,
                    *restore,
                    now,
                    i,
                ) by {
                    if i < states.len() - 1 {
                        assert(is_silent_step(*idct, *restore, states, i));
                    }
                }
                states = now;
            }
        }
    }
}

/// The first frame that is ready is shown, or none where there is none.
pub open spec fn is_shown(
    before: ReaderState,
    r: Option<Result<DecodedFrame>>,
    after: ReaderState,
) -> bool {
    if before.ready.len() > 0 {
        &&& r is Some
        &&& r->0 is Ok
        &&& r->0->Ok_0@ == before.ready[0]
        &&& after == (ReaderState { ready: before.ready.skip(1), ..before })
    } else {
        r is None && after == before
    }
}

/// A frame was read, and nothing became ready.
pub open spec fn is_silent_step<
    I: Fn(&Block<i16>) -> Block<i16>,
    R: Fn(Plane, &Block<i16>, &Block<i16>) -> Block<i16>,
>(idct: I, restore: R, states: Seq<ReaderState>, i: int) -> bool {
    &&& is_step(idct, restore, states[i], Ok(true), states[i + 1])
    &&& states[i + 1].ready.len() == 0
}

/// Frames were read, and nothing became ready.
pub open spec fn are_silent_steps<
    I: Fn(&Block<i16>) -> Block<i16>,
    R: Fn(Plane, &Block<i16>, &Block<i16>) -> Block<i16>,
>(idct: I, restore: R, states: Seq<ReaderState>) -> bool {
    &&& states.len() > 0
    &&& forall|i: int|
        0 <= i < states.len() - 1 ==> #[trigger] is_silent_step(idct, restore, states, i)
}

/// What asking for a frame answers where none is ready: frames are read until
/// one is, the stream ends or an error comes.
pub open spec fn is_next_shown<
    I: Fn(&Block<i16>) -> Block<i16>,
    R: Fn(Plane, &Block<i16>, &Block<i16>) -> Block<i16>,
>(
    idct: I,
    restore: R,
    before: ReaderState,
    r: Option<Result<DecodedFrame>>,
    after: ReaderState,
) -> bool {
    exists|states: Seq<ReaderState>, read: Result<bool>, reached: ReaderState|
        {
            &&& #[trigger] are_silent_steps(idct, restore, states)
            &&& states.first() == before
            &&& #[trigger] is_step(idct, restore, states.last(), read, reached)
            &&& read is Err ==> r is Some && r->0 is Err && r->0->Err_0 == read->Err_0 && after
                == reached
            &&& read is Ok ==> is_shown(reached, r, after) && (read->Ok_0 ==> reached.ready.len()
                > 0)
        }
}

/// What asking for a frame answers.
pub open spec fn is_call<
    I: Fn(&Block<i16>) -> Block<i16>,
    R: Fn(Plane, &Block<i16>, &Block<i16>) -> Block<i16>,
>(
    idct: I,
    restore: R,
    before: ReaderState,
    r: Option<Result<DecodedFrame>>,
    after: ReaderState,
) -> bool {
    if before.ready.len() > 0 || before.eof {
        is_shown(before, r, after)
    } else {
        is_next_shown(idct, restore, before, r, after)
    }
}

/// The kinds of frames.
pub open spec fn kinds(frames: Seq<(Kind, Picture<i16>)>) -> Seq<Kind> {
    Seq::new(frames.len(), |i: int| frames[i].0)
}

/// The kinds of all frames that were read and not yet shown, in the order in
/// which they will be: those that are ready, and behind them those that are held
/// back.
pub open spec fn coming_kinds(state: ReaderState) -> Seq<Kind> {
    kinds(state.ready) + Seq::new(state.pending.len(), |i: int| Kind::B)
}

/// Whether no frame is held back without an anchor before it.
pub open spec fn is_anchored(state: ReaderState) -> bool {
    state.pending.len() > 0 ==> state.anchor is Some
}

/// A frame that is read comes behind all frames that were read before it: frames
/// are shown in the order in which the stream holds them.
pub proof fn law_frames_keep_their_order<
    I: Fn(&Block<i16>) -> Block<i16>,
    R: Fn(Plane, &Block<i16>, &Block<i16>) -> Block<i16>,
>(idct: I, restore: R, before: ReaderState, after: ReaderState)
    requires
        is_step(idct, restore, before, Ok(true), after),
        is_anchored(before),
        before.anchor is None ==> header_kind(before.bits) == Kind::I,
    ensures
        coming_kinds(after) == coming_kinds(before).push(header_kind(before.bits)),
        is_anchored(after),
        after.anchor is Some,
{
    let data = choose|data: Result<DecodedFrameData>|
        {
            &&& #[trigger] is_data_read(
                idct,
                header_kind(before.bits),
                before.bits.skip(88),
                data,
                after.bits,
            )
            &&& data is Err ==> false
            &&& data is Ok ==> is_frame_taken(restore, before, data->Ok_0, Ok(true), after)
        };
    let kind = header_kind(before.bits);
    let data = data->Ok_0;
    assert(data.kind_of() == kind) by {
        reveal(is_data_read);
    }
    if kind == Kind::B {
        assert(coming_kinds(after) =~= coming_kinds(before).push(kind));
    } else {
        let anchor = after.anchor->0;
        assert(is_anchor_ready(restore, before, kind, anchor, after));
        let shown = choose|shown: Seq<(Kind, Picture<i16>)>|
            {
                &&& #[trigger] is_flushed(
                    restore,
                    Some(anchor),
                    before.anchor,
                    before.pending,
                    shown,
                )
                &&& after.ready == before.ready + shown + seq![(kind, anchor)]
            };
        assert(shown.len() == before.pending.len());
        assert(coming_kinds(after) =~= coming_kinds(before).push(kind));
    }
}

/// At the mark of the end all frames that were held back become ready, in their
/// order.
pub proof fn law_end_shows_all<
    I: Fn(&Block<i16>) -> Block<i16>,
    R: Fn(Plane, &Block<i16>, &Block<i16>) -> Block<i16>,
>(idct: I, restore: R, before: ReaderState, after: ReaderState)
    requires
        is_step(idct, restore, before, Ok(false), after),
        is_anchored(before),
    ensures
        kinds(after.ready) == coming_kinds(before),
        after.pending.len() == 0,
        after.eof,
{
    if holds_frame(before.bits) && !holds_end(before.bits) {
        let data = choose|data: Result<DecodedFrameData>|
            {
                &&& #[trigger] is_data_read(
                    idct,
                    header_kind(before.bits),
                    before.bits.skip(88),
                    data,
                    after.bits,
                )
                &&& data is Err ==> false
                &&& data is Ok ==> is_frame_taken(
                    restore,
                    before,
                    data->Ok_0,
                    Ok(false),
                    after,
                )
            };
        assert(is_frame_taken(restore, before, data->Ok_0, Ok(false), after));
    }
    let shown = choose|shown: Seq<(Kind, Picture<i16>)>|
        #[trigger] is_flushed(
            restore,
            before.anchor,
            before.anchor,
            before.pending,
            shown,
        )
            && after.ready == before.ready + shown;
    assert(kinds(after.ready) =~= coming_kinds(before));
}

/// A whole video that is read and not yet shown has the kinds of its frames in
/// the order in which the stream holds them.
pub proof fn law_video_keeps_its_order<
    I: Fn(&Block<i16>) -> Block<i16>,
    R: Fn(Plane, &Block<i16>, &Block<i16>) -> Block<i16>,
>(idct: I, restore: R, states: Seq<ReaderState>)
    requires
        states.len() > 0,
        states[0].ready.len() == 0,
        states[0].pending.len() == 0,
        states[0].anchor is None,
        states.len() > 1 ==> header_kind(states[0].bits) == Kind::I,
        forall|i: int|
            0 <= i < states.len() - 1 ==> is_step(
                idct,
                restore,
                #[trigger] states[i],
                Ok(true),
                states[i + 1],
            ),
    ensures
        coming_kinds(states.last()) == Seq::new(
            (states.len() - 1) as nat,
            |i: int| header_kind(states[i].bits),
        ),
        is_anchored(states.last()),
    decreases states.len(),
{
    let n = states.len() - 1;
    let expected = Seq::new(n as nat, |i: int| header_kind(states[i].bits));
    if n == 0 {
        assert(coming_kinds(states.last()) =~= expected);
    } else {
        let first = states.drop_last();
        assert forall|i: int| 0 <= i < first.len() - 1 implies is_step(
            idct,
            restore,
            #[trigger] first[i],
            Ok(true),
            first[i + 1],
        ) by {
            assert(states[i] == first[i]);
        }
        law_video_keeps_its_order(idct, restore, first);
        let before = states[n - 1];
        assert(is_step(idct, restore, before, Ok(true), states[n]));
        if n > 1 {
            let earlier = states[n - 2];
            assert(is_step(idct, restore, earlier, Ok(true), before));
            law_anchor_stays(idct, restore, states, n - 1);
        }
        law_frames_keep_their_order(idct, restore, before, states[n]);
        let so_far = Seq::new((n - 1) as nat, |i: int| header_kind(first[i].bits));
        assert(so_far.push(header_kind(before.bits)) =~= expected);
    }
}

/// Behind the first frame, which stands alone, there is always an anchor.
pub proof fn law_anchor_stays<
    I: Fn(&Block<i16>) -> Block<i16>,
    R: Fn(Plane, &Block<i16>, &Block<i16>) -> Block<i16>,
>(idct: I, restore: R, states: Seq<ReaderState>, n: int)
    requires
        0 < n < states.len(),
        states[0].pending.len() == 0,
        header_kind(states[0].bits) == Kind::I,
        forall|i: int|
            0 <= i < states.len() - 1 ==> is_step(
                idct,
                restore,
                #[trigger] states[i],
                Ok(true),
                states[i + 1],
            ),
    ensures
        states[n].anchor is Some,
    decreases n,
{
    let before = states[n - 1];
    assert(is_step(idct, restore, before, Ok(true), states[n]));
    if n > 1 {
        law_anchor_stays(idct, restore, states, n - 1);
    }
    law_frames_keep_their_order(idct, restore, before, states[n]);
}

/// When an anchor comes, the frames that waited for it are shown first, each put together between
/// the anchor before and the one that came, and the anchor itself behind them.
pub proof fn law_waiting_frames_lie_between<R: Fn(Plane, &Block<i16>, &Block<i16>) -> Block<i16>>(
    restore: R,
    before: ReaderState,
    kind: Kind,
    anchor: Picture<i16>,
    after: ReaderState,
    j: int,
)
    requires
        is_anchor_ready(restore, before, kind, anchor, after),
        before.anchor is Some,
        0 <= j < before.pending.len(),
    ensures
        ({
            let n = before.ready.len() as int;
            let waiting = before.pending.len() as int;
            &&& after.ready.len() == n + waiting + 1
            &&& after.ready.take(n) == before.ready
            &&& after.ready[n + j].0 == Kind::B
            &&& is_assembled(
                restore,
                Some(anchor),
                before.anchor->0,
                before.pending[j],
                after.ready[n + j].1,
            )
            &&& after.ready[n + waiting] == (kind, anchor)
            &&& after.anchor == Some(anchor)
            &&& after.pending.len() == 0
        }),
{
    let shown = choose|shown: Seq<(Kind, Picture<i16>)>|
        {
            &&& #[trigger] is_flushed(
                restore,
                Some(anchor),
                before.anchor,
                before.pending,
                shown,
            )
            &&& after.ready == before.ready + shown + seq![(kind, anchor)]
        };
    let n = before.ready.len() as int;
    assert(after.ready.take(n) =~= before.ready);
    assert(after.ready[n + j] == shown[j]);
}

} // verus!
