//! Writing a video group by group.
use vstd::prelude::*;

use super::encode::{can_code_gop, is_codable_gop, pictures, Transform};
use super::group::{
    anchors_before, are_between_coded, encode_anchor_chain, encode_bframes, is_anchor_chain,
    is_gop_written, write_gop, GopAnchors,
};
use super::header::{end_bits, GroupOfPicturesHeader};
use super::scene::{detect_scene_change, is_scene_change};
use super::{FrameOrder, FrameReader};
use crate::bits::padded;
use crate::bitstream::BitStreamWriter;
use crate::block::Block;
use crate::error::{Error, Result};
use crate::lossy::frame::prediction::Plane;
use crate::lossy::frame::Kind;
use crate::lossy::{Picture, SubSampleBlockGroup};
use crate::parallel::{par_map, par_map_range};

verus! {

/// A group that was gathered, the frame that was held back for the next one,
/// and the frames that come then.
pub struct Gathered {
    pub gop: Seq<Picture<i16>>,
    pub held: Option<Picture<i16>>,
    pub rest: Seq<Picture<i16>>,
}

/// Gathers a group. Where it starts with a frame that was held back, it ends at
/// a frame that stands alone or starts a new scene, and holds that one back.
pub open spec fn gathered(
    order: FrameOrder,
    gop: Seq<Picture<i16>>,
    coming: Seq<Picture<i16>>,
    continued: bool,
    pos: int,
) -> Gathered
    decreases order.full_image_distance - pos,
{
    if pos >= order.full_image_distance || coming.len() == 0 {
        Gathered { gop, held: None, rest: coming }
    } else if continued && (order.kind_of(pos + gop.len()) == Kind::I || is_scene_change(
        gop[0],
        coming[0],
    )) {
        Gathered { gop, held: Some(coming[0]), rest: coming.skip(1) }
    } else {
        gathered(order, gop.push(coming[0]), coming.skip(1), continued, pos + 1)
    }
}

/// The next group of a video.
pub open spec fn next_gop(
    order: FrameOrder,
    held: Option<Picture<i16>>,
    coming: Seq<Picture<i16>>,
) -> Gathered {
    match held {
        Some(frame) => gathered(order, seq![frame], coming, true, 0),
        None => gathered(order, Seq::empty(), coming, false, 0),
    }
}

/// The number of frames that are held back.
pub open spec fn held_len(held: Option<Picture<i16>>) -> nat {
    match held {
        Some(_) => 1,
        None => 0,
    }
}

/// No frame is lost or made up.
proof fn lemma_gathered_len(
    order: FrameOrder,
    gop: Seq<Picture<i16>>,
    coming: Seq<Picture<i16>>,
    continued: bool,
    pos: int,
)
    ensures
        ({
            let r = gathered(order, gop, coming, continued, pos);
            &&& r.gop.len() + held_len(r.held) + r.rest.len() == gop.len() + coming.len()
            &&& r.gop.len() >= gop.len()
        }),
    decreases order.full_image_distance - pos,
{
    if pos >= order.full_image_distance || coming.len() == 0 {
    } else if continued && (order.kind_of(pos + gop.len()) == Kind::I || is_scene_change(
        gop[0],
        coming[0],
    )) {
    } else {
        lemma_gathered_len(order, gop.push(coming[0]), coming.skip(1), continued, pos + 1);
    }
}

/// No frame is lost or made up.
pub proof fn lemma_next_gop_len(
    order: FrameOrder,
    held: Option<Picture<i16>>,
    coming: Seq<Picture<i16>>,
)
    ensures
        ({
            let r = next_gop(order, held, coming);
            r.gop.len() + held_len(r.held) + r.rest.len() == held_len(held) + coming.len()
        }),
{
    match held {
        Some(frame) => {
            lemma_gathered_len(order, seq![frame], coming, true, 0);
        },
        None => {
            lemma_gathered_len(order, Seq::empty(), coming, false, 0);
        },
    }
}

/// An empty group takes no frame.
proof fn lemma_empty_gop(order: FrameOrder, held: Option<Picture<i16>>, coming: Seq<Picture<i16>>)
    requires
        next_gop(order, held, coming).gop.len() == 0,
    ensures
        held is None,
        next_gop(order, held, coming).held is None,
        next_gop(order, held, coming).rest == coming,
{
    match held {
        Some(frame) => {
            lemma_gathered_len(order, seq![frame], coming, true, 0);
        },
        None => {
            let gop = Seq::<Picture<i16>>::empty();
            if order.full_image_distance > 0 && coming.len() > 0 {
                lemma_gathered_len(order, gop.push(coming[0]), coming.skip(1), false, 1);
            }
        },
    }
}

/// The groups of a video, up to the first that is empty.
pub open spec fn groups(
    order: FrameOrder,
    held: Option<Picture<i16>>,
    coming: Seq<Picture<i16>>,
) -> Seq<Seq<Picture<i16>>>
    decreases held_len(held) + coming.len(),
{
    let r = next_gop(order, held, coming);
    if r.gop.len() == 0 {
        Seq::empty()
    } else {
        proof {
            lemma_next_gop_len(order, held, coming);
        }
        seq![r.gop] + groups(order, r.held, r.rest)
    }
}

/// All frames of all groups can be coded.
pub open spec fn are_codable(order: FrameOrder, gops: Seq<Seq<Picture<i16>>>) -> bool {
    forall|i: int| 0 <= i < gops.len() ==> is_codable_gop(order, #[trigger] gops[i])
}

/// A stream went through `states` while the groups were written.
pub open spec fn are_gops_written<
    D: Fn(&Block<i16>) -> Block<i16>,
    I: Fn(&Block<i16>) -> Block<i16>,
    C: Fn(Plane, &Block<i16>) -> Block<i16>,
    R: Fn(Plane, &Block<i16>, &Block<i16>) -> Block<i16>,
>(
    transform: Transform<D, I, C, R>,
    order: FrameOrder,
    gops: Seq<Seq<Picture<i16>>>,
    states: Seq<Seq<bool>>,
) -> bool {
    &&& states.len() == gops.len() + 1
    &&& forall|i: int|
        0 <= i < gops.len() ==> is_gop_written(
            transform,
            order,
            #[trigger] gops[i],
            states[i],
            states[i + 1],
        )
}

/// A stream went on with the groups of a video and the mark of the end.
pub open spec fn is_video_written<
    D: Fn(&Block<i16>) -> Block<i16>,
    I: Fn(&Block<i16>) -> Block<i16>,
    C: Fn(Plane, &Block<i16>) -> Block<i16>,
    R: Fn(Plane, &Block<i16>, &Block<i16>) -> Block<i16>,
>(
    transform: Transform<D, I, C, R>,
    order: FrameOrder,
    gops: Seq<Seq<Picture<i16>>>,
    before: Seq<bool>,
    after: Seq<bool>,
) -> bool {
    exists|states: Seq<Seq<bool>>|
        {
            &&& #[trigger] are_gops_written(transform, order, gops, states)
            &&& states.first() == before
            &&& after == padded(states.last() + end_bits())
        }
}

/// The groups from `start` that are coded side by side.
pub open spec fn batch_at(order: FrameOrder, gops: Seq<Seq<Picture<i16>>>, start: int) -> Seq<
    Seq<Picture<i16>>,
> {
    let end = start + order.batch_len();
    gops.subrange(
        start,
        if end < gops.len() {
            end
        } else {
            gops.len() as int
        },
    )
}

/// A stream went on with the groups before the batch that holds the first one
/// that cannot be coded.
pub open spec fn is_video_refused<
    D: Fn(&Block<i16>) -> Block<i16>,
    I: Fn(&Block<i16>) -> Block<i16>,
    C: Fn(Plane, &Block<i16>) -> Block<i16>,
    R: Fn(Plane, &Block<i16>, &Block<i16>) -> Block<i16>,
>(
    transform: Transform<D, I, C, R>,
    order: FrameOrder,
    gops: Seq<Seq<Picture<i16>>>,
    before: Seq<bool>,
    after: Seq<bool>,
) -> bool {
    exists|done: Seq<Seq<Picture<i16>>>, states: Seq<Seq<bool>>|
        {
            &&& #[trigger] are_gops_written(transform, order, done, states)
            &&& done.len() < gops.len()
            &&& (done.len() as int) % order.batch_len() == 0
            &&& done == gops.take(done.len() as int)
            &&& are_codable(order, done)
            &&& !are_codable(order, batch_at(order, gops, done.len() as int))
            &&& states.first() == before
            &&& after == states.last()
        }
}

/// A stream went on with the first batches of groups.
pub open spec fn is_video_cut<
    D: Fn(&Block<i16>) -> Block<i16>,
    I: Fn(&Block<i16>) -> Block<i16>,
    C: Fn(Plane, &Block<i16>) -> Block<i16>,
    R: Fn(Plane, &Block<i16>, &Block<i16>) -> Block<i16>,
>(
    transform: Transform<D, I, C, R>,
    order: FrameOrder,
    gops: Seq<Seq<Picture<i16>>>,
    before: Seq<bool>,
    after: Seq<bool>,
) -> bool {
    exists|done: Seq<Seq<Picture<i16>>>, states: Seq<Seq<bool>>|
        {
            &&& #[trigger] are_gops_written(transform, order, done, states)
            &&& done.len() <= gops.len()
            &&& done.len() < gops.len() ==> (done.len() as int) % order.batch_len() == 0
            &&& done == gops.take(done.len() as int)
            &&& are_codable(order, done)
            &&& states.first() == before
            &&& after == states.last()
        }
}

/// The pictures of groups.
pub open spec fn gop_pictures(batch: Seq<Vec<SubSampleBlockGroup<i16>>>) -> Seq<
    Seq<Picture<i16>>,
> {
    Seq::new(batch.len(), |i: int| pictures(batch[i]@))
}

/// Codes groups side by side and writes them one behind the other. Nothing is
/// written where a frame cannot be coded.
pub fn encode_batch<
    D: Fn(&Block<i16>) -> Block<i16> + Sync + Send,
    I: Fn(&Block<i16>) -> Block<i16> + Sync + Send,
    C: Fn(Plane, &Block<i16>) -> Block<i16> + Sync + Send,
    R: Fn(Plane, &Block<i16>, &Block<i16>) -> Block<i16> + Sync + Send,
>(
    transform: &Transform<D, I, C, R>,
    batch: &[Vec<SubSampleBlockGroup<i16>>],
    order: FrameOrder,
    stream: &mut BitStreamWriter,
) -> (r: Result<()>)
    requires
        transform.takes_all(),
        forall|i: int| 0 <= i < batch@.len() ==> (#[trigger] batch@[i])@.len() > 0,
    ensures
        r is Ok <==> are_codable(order, gop_pictures(batch@)),
        r is Err ==> r->Err_0 is InvalidData && final(stream)@ == old(stream)@,
        r is Ok ==> exists|states: Seq<Seq<bool>>|
            {
                &&& #[trigger] are_gops_written(*transform, order, gop_pictures(batch@), states)
                &&& states.first() == old(stream)@
                &&& states.last() == final(stream)@
            },
{
    let ghost gops = gop_pictures(batch@);
    let mut i: usize = 0;
    while i < batch.len()
        invariant
            i <= batch@.len(),
            gops == gop_pictures(batch@),
            forall|j: int| 0 <= j < i ==> is_codable_gop(order, #[trigger] gops[j]),
            stream@ == old(stream)@,
        decreases batch@.len() - i,
    {
        assert(gops[i as int] == pictures(batch@[i as int]@));
        if !can_code_gop(&order, batch[i].as_slice()) {
            return Err(Error::InvalidData);
        }
        i = i + 1;
    }
    let chain = |frames: &Vec<SubSampleBlockGroup<i16>>| -> (r: GopAnchors)
        requires
            transform.takes_all(),
            is_codable_gop(order, pictures(frames@))
        ensures
            is_anchor_chain(*transform, order, pictures(frames@), frames@.len() as int, r)
        { encode_anchor_chain(transform, frames.as_slice(), order).unwrap() };
    proof {
        assert forall|j: int| 0 <= j < batch@.len() implies call_requires(
            chain,
            (&#[trigger] batch@[j],),
        ) by {
            assert(is_codable_gop(order, gops[j]));
        }
    }
    let anchors = par_map(batch, chain);
    proof {
        assert forall|j: int| 0 <= j < batch@.len() implies is_anchor_chain(
            *transform,
            order,
            gops[j],
            gops[j].len() as int,
            #[trigger] anchors@[j],
        ) by {
            assert(call_ensures(chain, (&batch@[j],), anchors@[j]));
        }
    }
    let fill = |j: usize| -> (r: Vec<Option<Vec<u8>>>)
        requires
            j < batch@.len(),
            anchors@.len() == batch@.len(),
            transform.takes_all(),
            is_codable_gop(order, pictures(batch@[j as int]@)),
            anchors@[j as int].reconstructed@.len() == anchors_before(
                order,
                batch@[j as int]@.len() as int,
            )
        ensures
            are_between_coded(
                *transform,
                order,
                pictures(batch@[j as int]@),
                pictures(anchors@[j as int].reconstructed@),
                r@,
            )
        { encode_bframes(transform, batch[j].as_slice(), order, &anchors[j]) };
    proof {
        assert forall|j: usize| j < batch@.len() implies call_requires(fill, (j,)) by {
            assert(is_codable_gop(order, gops[j as int]));
            assert(is_anchor_chain(
                *transform,
                order,
                gops[j as int],
                gops[j as int].len() as int,
                anchors@[j as int],
            ));
        }
    }
    let between = par_map_range(batch.len(), fill);
    proof {
        assert forall|j: int| 0 <= j < batch@.len() implies are_between_coded(
            *transform,
            order,
            gops[j],
            pictures(anchors@[j].reconstructed@),
            (#[trigger] between@[j])@,
        ) by {
            assert(call_ensures(fill, (j as usize,), between@[(j as usize) as int]));
        }
    }
    let ghost mut states: Seq<Seq<bool>> = seq![stream@];
    let mut i: usize = 0;
    while i < batch.len()
        invariant
            i <= batch@.len(),
            anchors@.len() == between@.len() == batch@.len() == gops.len(),
            gops == gop_pictures(batch@),
            forall|j: int| 0 <= j < batch@.len() ==> (#[trigger] batch@[j])@.len() > 0,
            forall|j: int|
                0 <= j < batch@.len() ==> is_anchor_chain(
                    *transform,
                    order,
                    gops[j],
                    gops[j].len() as int,
                    #[trigger] anchors@[j],
                ),
            forall|j: int|
                0 <= j < batch@.len() ==> are_between_coded(
                    *transform,
                    order,
                    gops[j],
                    pictures(anchors@[j].reconstructed@),
                    (#[trigger] between@[j])@,
                ),
            states.len() == i + 1,
            states[0] == old(stream)@,
            states[i as int] == stream@,
            forall|j: int|
                0 <= j < i ==> is_gop_written(
                    *transform,
                    order,
                    #[trigger] gops[j],
                    states[j],
                    states[j + 1],
                ),
        decreases batch@.len() - i,
    {
        assert(gops[i as int] == pictures(batch@[i as int]@));
        assert(batch@[i as int]@.len() > 0);
        assert(are_between_coded(
            *transform,
            order,
            gops[i as int],
            pictures(anchors@[i as int].reconstructed@),
            between@[i as int]@,
        ));
        match write_gop(
            transform,
            batch[i].as_slice(),
            order,
            &anchors[i],
            between[i].as_slice(),
            stream,
        ) {
            Ok(()) => {},
            Err(e) => {
                return Err(e);
            },
        }
        proof {
            let before = states;
            states = before.push(stream@);
            assert forall|j: int| 0 <= j < i + 1 implies is_gop_written(
                *transform,
                order,
                #[trigger] gops[j],
                states[j],
                states[j + 1],
            ) by {
                if j < i {
                    assert(is_gop_written(*transform, order, gops[j], before[j], before[j + 1]));
                }
            }
        }
        i = i + 1;
    }
    assert(are_gops_written(*transform, order, gops, states));
    Ok(())
}

/// Writes a video group by group.
pub struct GroupOfPicturesWriter<FR> {
    pub ordering: FrameOrder,
    pub content: FR,
    pub buffered_frame: Option<SubSampleBlockGroup<i16>>,
}

impl<FR: FrameReader<i16>> GroupOfPicturesWriter<FR> {
    /// A writer of the frames that a reader gives.
    pub fn new(content: FR, ordering: FrameOrder) -> (r: Self)
        ensures
            r.content == content,
            r.ordering == ordering,
            r.buffered_frame is None,
    {
        GroupOfPicturesWriter { ordering, content, buffered_frame: None }
    }

    /// The frame that was held back for the next group.
    pub open spec fn held(&self) -> Option<Picture<i16>> {
        match self.buffered_frame {
            Some(frame) => Some(frame@),
            None => None,
        }
    }

    /// The groups that are still to be written.
    pub open spec fn groups(&self) -> Seq<Seq<Picture<i16>>> {
        groups(self.ordering, self.held(), self.content.coming())
    }

    /// Gathers the frames of the next group. None is gathered behind the last
    /// frame.
    pub fn collect_gop_frames(&mut self) -> (r: Result<Vec<SubSampleBlockGroup<i16>>>)
        ensures
            final(self).ordering == old(self).ordering,
            old(self).content.is_sound() ==> r is Ok && final(self).content.is_sound(),
            r is Err ==> final(self).content.failure() == Some(r->Err_0),
            r is Err ==> final(self).held() is None,
            r is Ok ==> {
                let next = next_gop(
                    old(self).ordering,
                    old(self).held(),
                    old(self).content.coming(),
                );
                &&& pictures(r->Ok_0@) == next.gop
                &&& final(self).held() == next.held
                &&& final(self).content.coming() == next.rest
            },
    {
        let ghost next = next_gop(self.ordering, self.held(), self.content.coming());
        let mut frames: Vec<SubSampleBlockGroup<i16>> = Vec::new();
        let held = self.buffered_frame.take();
        let continued = held.is_some();
        match held {
            Some(frame) => {
                frames.push(frame);
                assert(pictures(frames@) =~= seq![frame@]);
            },
            None => {
                assert(pictures(frames@) =~= Seq::<Picture<i16>>::empty());
            },
        }
        let full: usize = self.ordering.full_image_distance;
        let mut local_pos: usize = 0;
        while local_pos < full
            invariant_except_break
                local_pos <= full,
                self.held() is None,
                next == gathered(
                    self.ordering,
                    pictures(frames@),
                    self.content.coming(),
                    continued,
                    local_pos as int,
                ),
            invariant
                full == self.ordering.full_image_distance,
                self.ordering == old(self).ordering,
                next == next_gop(old(self).ordering, old(self).held(), old(self).content.coming()),
                old(self).content.is_sound() ==> self.content.is_sound(),
                continued ==> frames@.len() > 0,
            ensures
                next.gop == pictures(frames@),
                next.held == self.held(),
                next.rest == self.content.coming(),
            decreases full - local_pos,
        {
            let frame = match self.content.read_frame() {
                Ok(Some(frame)) => frame,
                Ok(None) => {
                    break;
                },
                Err(e) => {
                    return Err(e);
                },
            };
            if continued {
                assert(pictures(frames@)[0] == frames@[0]@);
                if self.ordering.wide_frame_kind(local_pos as u128 + frames.len() as u128)
                    == Kind::I || detect_scene_change(&frames[0].as_ref(), &frame.as_ref()) {
                    self.buffered_frame = Some(frame);
                    break;
                }
            }
            let ghost before = pictures(frames@);
            frames.push(frame);
            assert(pictures(frames@) =~= before.push(frame@));
            local_pos = local_pos + 1;
        }
        Ok(frames)
    }

    /// Gathers the groups that are coded side by side. None is gathered behind the
    /// last frame.
    pub fn collect_batch(&mut self) -> (r: Result<Vec<Vec<SubSampleBlockGroup<i16>>>>)
        ensures
            final(self).ordering == old(self).ordering,
            old(self).content.is_sound() ==> r is Ok && final(self).content.is_sound(),
            r is Err ==> final(self).content.failure() == Some(r->Err_0),
            r is Err ==> final(self).held() is None,
            r is Ok ==> {
                &&& old(self).groups() == gop_pictures(r->Ok_0@) + final(self).groups()
                &&& gop_pictures(r->Ok_0@) == batch_at(old(self).ordering, old(self).groups(), 0)
                &&& forall|i: int|
                    0 <= i < r->Ok_0@.len() ==> (#[trigger] r->Ok_0@[i])@.len() > 0
            },
    {
        let parallel: usize = self.ordering.effective_parallel_gops();
        let mut batch: Vec<Vec<SubSampleBlockGroup<i16>>> = Vec::new();
        let mut n: usize = 0;
        assert(gop_pictures(batch@) + self.groups() =~= self.groups());
        while n < parallel
            invariant_except_break
                n <= parallel,
                batch@.len() == n,
            invariant
                parallel > 0,
                parallel == self.ordering.batch_len(),
                batch@.len() <= parallel,
                self.ordering == old(self).ordering,
                old(self).content.is_sound() ==> self.content.is_sound(),
                old(self).groups() == gop_pictures(batch@) + self.groups(),
                forall|i: int| 0 <= i < batch@.len() ==> (#[trigger] batch@[i])@.len() > 0,
            ensures
                batch@.len() == parallel || self.groups().len() == 0,
            decreases parallel - n,
        {
            let ghost before = self.groups();
            let ghost next = next_gop(self.ordering, self.held(), self.content.coming());
            let ghost done = gop_pictures(batch@);
            proof {
                if next.gop.len() == 0 {
                    lemma_empty_gop(self.ordering, self.held(), self.content.coming());
                }
            }
            let frames = match self.collect_gop_frames() {
                Ok(frames) => frames,
                Err(e) => {
                    return Err(e);
                },
            };
            assert(pictures(frames@).len() == frames@.len());
            proof {
                if frames@.len() == 0 {
                    assert(before =~= Seq::<Seq<Picture<i16>>>::empty());
                    assert(self.groups() == before);
                } else {
                    assert(before == seq![next.gop] + self.groups());
                }
            }
            if frames.is_empty() {
                break;
            }
            batch.push(frames);
            assert(gop_pictures(batch@) =~= done.push(next.gop));
            assert(gop_pictures(batch@) + self.groups() =~= done + before);
            n = n + 1;
        }
        assert(gop_pictures(batch@) =~= batch_at(self.ordering, old(self).groups(), 0));
        Ok(batch)
    }

    /// Writes all frames that the reader gives, and the mark of the end. A frame
    /// that cannot be coded is invalid data, and nothing of its batch of groups
    /// is written. An error of the reader is handed on, and the batches before it
    /// are written.
    pub fn encode<
        D: Fn(&Block<i16>) -> Block<i16> + Sync + Send,
        I: Fn(&Block<i16>) -> Block<i16> + Sync + Send,
        C: Fn(Plane, &Block<i16>) -> Block<i16> + Sync + Send,
        R: Fn(Plane, &Block<i16>, &Block<i16>) -> Block<i16> + Sync + Send,
    >(&mut self, transform: &Transform<D, I, C, R>, stream: &mut BitStreamWriter) -> (r: Result<
        (),
    >)
        requires
            transform.takes_all(),
        ensures
            final(self).ordering == old(self).ordering,
            r is Ok ==> are_codable(old(self).ordering, old(self).groups()) && is_video_written(
                *transform,
                old(self).ordering,
                old(self).groups(),
                old(stream)@,
                final(stream)@,
            ) && final(self).groups().len() == 0,
            old(self).content.is_sound() && are_codable(old(self).ordering, old(self).groups())
                ==> r is Ok,
            r is Err ==> {
                ||| r->Err_0 is InvalidData && is_video_refused(
                    *transform,
                    old(self).ordering,
                    old(self).groups(),
                    old(stream)@,
                    final(stream)@,
                )
                ||| final(self).content.failure() == Some(r->Err_0) && is_video_cut(
                    *transform,
                    old(self).ordering,
                    old(self).groups(),
                    old(stream)@,
                    final(stream)@,
                )
            },
            old(self).content.is_sound() && r is Err ==> r->Err_0 is InvalidData
                && is_video_refused(
                *transform,
                old(self).ordering,
                old(self).groups(),
                old(stream)@,
                final(stream)@,
            ),
    {
        let order = self.ordering;
        let ghost all = self.groups();
        let ghost mut done: Seq<Seq<Picture<i16>>> = Seq::empty();
        let ghost mut states: Seq<Seq<bool>> = seq![stream@];
        assert(done + self.groups() =~= all);
        loop
            invariant
                transform.takes_all(),
                self.ordering == order,
                order == old(self).ordering,
                all == old(self).groups(),
                all == done + self.groups(),
                old(self).content.is_sound() ==> self.content.is_sound(),
                are_codable(order, done),
                are_gops_written(*transform, order, done, states),
                states.first() == old(stream)@,
                states.last() == stream@,
                self.groups().len() > 0 ==> (done.len() as int) % order.batch_len() == 0,
            ensures
                self.groups().len() == 0,
            decreases self.groups().len(),
        {
            let ghost before = self.groups();
            let batch = match self.collect_batch() {
                Ok(batch) => batch,
                Err(e) => {
                    proof {
                        assert(all.take(done.len() as int) =~= done);
                        assert(are_gops_written(*transform, order, done, states));
                    }
                    return Err(e);
                },
            };
            if batch.is_empty() {
                assert(before =~= self.groups());
                break;
            }
            let ghost now = gop_pictures(batch@);
            proof {
                assert(now =~= batch_at(order, all, done.len() as int));
                assert(all.take(done.len() as int) =~= done);
            }
            let coded = encode_batch(transform, batch.as_slice(), order, stream);
            proof {
                assert(before == now + self.groups());
                assert forall|i: int| 0 <= i < now.len() implies now[i] == all[done.len()
                    + i] by {
                    assert(all[done.len() + i] == before[i]);
                }
                if are_codable(order, all) {
                    assert forall|i: int| 0 <= i < now.len() implies is_codable_gop(
                        order,
                        #[trigger] now[i],
                    ) by {
                        assert(is_codable_gop(order, all[done.len() + i]));
                    }
                }
            }
            match coded {
                Ok(()) => {},
                Err(e) => {
                    return Err(e);
                },
            }
            proof {
                let more = choose|more: Seq<Seq<bool>>|
                    {
                        &&& #[trigger] are_gops_written(*transform, order, now, more)
                        &&& more.first() == states.last()
                        &&& more.last() == stream@
                    };
                lemma_gops_written_join(*transform, order, done, states, now, more);
                vstd::arithmetic::div_mod::lemma_mod_add_multiples_vanish(
                    done.len() as int,
                    order.batch_len(),
                );
                assert(done + now + self.groups() =~= done + before);
                done = done + now;
                states = states + more.skip(1);
            }
        }
        proof {
            assert(done =~= all);
        }
        GroupOfPicturesHeader::End.encode(stream)?;
        stream.flush()
    }
}

/// Groups that were written one behind the other.
proof fn lemma_gops_written_join<
    D: Fn(&Block<i16>) -> Block<i16>,
    I: Fn(&Block<i16>) -> Block<i16>,
    C: Fn(Plane, &Block<i16>) -> Block<i16>,
    R: Fn(Plane, &Block<i16>, &Block<i16>) -> Block<i16>,
>(
    transform: Transform<D, I, C, R>,
    order: FrameOrder,
    a: Seq<Seq<Picture<i16>>>,
    a_states: Seq<Seq<bool>>,
    b: Seq<Seq<Picture<i16>>>,
    b_states: Seq<Seq<bool>>,
)
    requires
        are_gops_written(transform, order, a, a_states),
        are_gops_written(transform, order, b, b_states),
        are_codable(order, a),
        are_codable(order, b),
        a_states.last() == b_states.first(),
    ensures
        are_gops_written(transform, order, a + b, a_states + b_states.skip(1)),
        are_codable(order, a + b),
        (a_states + b_states.skip(1)).first() == a_states.first(),
        (a_states + b_states.skip(1)).last() == b_states.last(),
{
    let gops = a + b;
    let states = a_states + b_states.skip(1);
    assert forall|i: int| 0 <= i < gops.len() implies is_gop_written(
        transform,
        order,
        #[trigger] gops[i],
        states[i],
        states[i + 1],
    ) && is_codable_gop(order, gops[i]) by {
        if i < a.len() {
            assert(gops[i] == a[i]);
        } else {
            assert(gops[i] == b[i - a.len()]);
        }
    }
}

/// The frame that is held back, if there is one, as a sequence.
pub open spec fn held_frames(held: Option<Picture<i16>>) -> Seq<Picture<i16>> {
    match held {
        Some(frame) => seq![frame],
        None => Seq::empty(),
    }
}

/// Gathering a group loses no frame, makes up none and keeps the order: the group, what is held
/// back and the rest are the frames that were there. A group that starts with no frame held
/// back takes as many frames as a group may have, or all.
pub proof fn law_gathering_keeps_all(
    order: FrameOrder,
    held: Option<Picture<i16>>,
    coming: Seq<Picture<i16>>,
)
    ensures
        ({
            let r = next_gop(order, held, coming);
            &&& r.gop + held_frames(r.held) + r.rest == held_frames(held) + coming
            &&& held is None ==> r.held is None
            &&& held is None ==> r.gop.len() == order.full_image_distance || r.rest.len() == 0
            &&& held is None ==> r.gop.len() <= order.full_image_distance
            &&& held is Some ==> r.gop.len() >= 1
        }),
{
    match held {
        Some(frame) => {
            lemma_gathered_all(order, seq![frame], coming, true, 0);
        },
        None => {
            lemma_gathered_all(order, Seq::empty(), coming, false, 0);
        },
    }
}

proof fn lemma_gathered_all(
    order: FrameOrder,
    gop: Seq<Picture<i16>>,
    coming: Seq<Picture<i16>>,
    continued: bool,
    pos: int,
)
    requires
        0 <= pos <= order.full_image_distance,
    ensures
        ({
            let r = gathered(order, gop, coming, continued, pos);
            &&& r.gop + held_frames(r.held) + r.rest == gop + coming
            &&& r.gop.len() >= gop.len()
            &&& !continued ==> r.held is None
            &&& r.held is None ==> r.gop.len() - gop.len() == order.full_image_distance - pos
                || r.rest.len() == 0
            &&& r.gop.len() - gop.len() <= order.full_image_distance - pos
        }),
    decreases order.full_image_distance - pos,
{
    let r = gathered(order, gop, coming, continued, pos);
    if pos >= order.full_image_distance || coming.len() == 0 {
        assert(r.gop + held_frames(r.held) + r.rest =~= gop + coming);
    } else if continued && (order.kind_of(pos + gop.len()) == Kind::I || is_scene_change(
        gop[0],
        coming[0],
    )) {
        assert(r.gop + held_frames(r.held) + r.rest =~= gop + coming);
    } else {
        lemma_gathered_all(order, gop.push(coming[0]), coming.skip(1), continued, pos + 1);
        assert(gop.push(coming[0]) + coming.skip(1) =~= gop + coming);
    }
}

/// A group that starts with a frame that was held back holds no frame of another scene than that
/// one, and goes on until a frame is, or stands alone by its place, or the group is full.
pub proof fn law_scene_ends_a_group(
    order: FrameOrder,
    frame: Picture<i16>,
    coming: Seq<Picture<i16>>,
    j: int,
)
    requires
        1 <= j < next_gop(order, Some(frame), coming).gop.len(),
    ensures
        ({
            let r = next_gop(order, Some(frame), coming);
            &&& r.gop[0] == frame
            &&& !is_scene_change(frame, r.gop[j])
            &&& order.kind_of(2 * j - 1) != Kind::I
            &&& r.held is Some ==> is_scene_change(frame, r.held->0) || order.kind_of(
                2 * r.gop.len() - 1,
            ) == Kind::I
            &&& r.held is None ==> r.gop.len() == order.full_image_distance + 1 || r.rest.len()
                == 0
        }),
{
    lemma_gathered_scene(order, seq![frame], coming, 0, j);
}

proof fn lemma_gathered_scene(
    order: FrameOrder,
    gop: Seq<Picture<i16>>,
    coming: Seq<Picture<i16>>,
    pos: int,
    j: int,
)
    requires
        0 <= pos <= order.full_image_distance,
        gop.len() == pos + 1,
        0 <= j,
    ensures
        ({
            let r = gathered(order, gop, coming, true, pos);
            &&& r.gop.len() >= gop.len()
            &&& forall|i: int| 0 <= i < gop.len() ==> #[trigger] r.gop[i] == gop[i]
            &&& gop.len() <= j < r.gop.len() ==> !is_scene_change(gop[0], r.gop[j])
                && order.kind_of(2 * j - 1) != Kind::I
            &&& r.held is Some ==> is_scene_change(gop[0], r.held->0) || order.kind_of(
                2 * r.gop.len() - 1,
            ) == Kind::I
            &&& r.held is None ==> r.gop.len() == order.full_image_distance + 1 || r.rest.len()
                == 0
        }),
    decreases order.full_image_distance - pos,
{
    if pos >= order.full_image_distance || coming.len() == 0 {
    } else if order.kind_of(pos + gop.len()) == Kind::I || is_scene_change(gop[0], coming[0]) {
    } else {
        let next = gop.push(coming[0]);
        lemma_gathered_scene(order, next, coming.skip(1), pos + 1, j);
        assert(next[0] == gop[0]);
        let r = gathered(order, gop, coming, true, pos);
        assert(r == gathered(order, next, coming.skip(1), true, pos + 1));
        assert(r.gop[pos + 1] == next[pos + 1]);
        assert forall|i: int| 0 <= i < gop.len() implies #[trigger] r.gop[i] == gop[i] by {
            assert(r.gop[i] == next[i]);
        }
    }
}

/// Groups are coded side by side in batches of the same length, one batch behind the other, and
/// the last one may be shorter.
pub proof fn law_group_is_in_its_batch(
    order: FrameOrder,
    gops: Seq<Seq<Picture<i16>>>,
    batch: int,
    i: int,
)
    requires
        0 <= batch,
        0 <= i < order.batch_len(),
        batch * order.batch_len() + i < gops.len(),
    ensures
        ({
            let r = batch_at(order, gops, batch * order.batch_len());
            &&& i < r.len() <= order.batch_len()
            &&& r[i] == gops[batch * order.batch_len() + i]
            &&& r.len() == order.batch_len() || batch * order.batch_len() + r.len()
                == gops.len()
        }),
{
    assert(0 <= batch * order.batch_len()) by (nonlinear_arith)
        requires
            0 <= batch,
            0 <= order.batch_len(),
    ;
}

} // verus!
