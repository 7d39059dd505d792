//! Putting the frames of a group together.
use vstd::prelude::*;

use super::data::DecodedFrameData;
use super::{DecodedFrame, FrameOrder};
use crate::block::Block;
use crate::error::{Error, Result};
use crate::lossy::frame::assembly::{
    is_assembled, is_in_planes, is_touched, lemma_assembled_len, lemma_like_planes_fit,
    lies_in_planes,
};
use crate::lossy::frame::bframe::BFrame;
use crate::lossy::frame::macroblock::bmacro::{BMacroBlock, Prediction};
use crate::lossy::frame::macroblock::AssemblableMacroBlock;
use crate::lossy::frame::pframe::PFrame;
use crate::lossy::frame::prediction::{looks_ahead, Plane};
use crate::lossy::frame::Kind;
use crate::lossy::{Picture, SubSampleBlockGroup, SubSampleBlockGroupRef};
use crate::parallel::par_map_range;

verus! {

/// Whether a macroblock that lies in the planes of a frame needs the frame that
/// follows.
pub open spec fn needs_ahead(macro_blocks: Seq<BMacroBlock<i16>>, base: Picture<i16>) -> bool {
    exists|j: int|
        0 <= j < macro_blocks.len() && looks_ahead((#[trigger] macro_blocks[j]).prediction)
            && is_in_planes(macro_blocks[j], base)
}

/// Tells whether a macroblock that lies in the planes of a frame needs the frame
/// that follows.
fn needs_forward(
    macro_blocks: &[BMacroBlock<i16>],
    base: &SubSampleBlockGroupRef<'_, i16>,
) -> (r: bool)
    ensures
        r == needs_ahead(macro_blocks@, base@),
{
    let mut j: usize = 0;
    while j < macro_blocks.len()
        invariant
            j <= macro_blocks@.len(),
            forall|i: int|
                0 <= i < j ==> !(looks_ahead((#[trigger] macro_blocks@[i]).prediction)
                    && is_in_planes(macro_blocks@[i], base@)),
        decreases macro_blocks@.len() - j,
    {
        match macro_blocks[j].prediction {
            Prediction::Backward(_) => {},
            _ => {
                assert(looks_ahead(macro_blocks@[j as int].prediction));
                if lies_in_planes(&macro_blocks[j], base) {
                    return true;
                }
            },
        }
        j = j + 1;
    }
    false
}

/// The position of the frame that a predicted frame follows.
pub open spec fn backward_pos(order: FrameOrder, kind: Kind, idx: int) -> int {
    if kind == Kind::P {
        if idx < order.anchor_distance {
            0
        } else {
            idx - order.anchor_distance
        }
    } else {
        idx - idx % (order.anchor_distance as int)
    }
}

/// The position of the anchor that follows a frame.
pub open spec fn forward_pos(order: FrameOrder, idx: int) -> int {
    idx + order.anchor_distance - idx % (order.anchor_distance as int)
}

/// Whether the group has an anchor at a position.
pub open spec fn has_anchor_at(data: Seq<DecodedFrameData>, pos: int) -> bool {
    0 <= pos < data.len() && data[pos].kind_of() != Kind::B
}

/// The anchor at a position was put together: a frame that stands alone as it
/// was read, and a predicted one from the anchor that it follows.
pub open spec fn is_anchor_shown<R: Fn(Plane, &Block<i16>, &Block<i16>) -> Block<i16>>(
    restore: R,
    order: FrameOrder,
    data: Seq<DecodedFrameData>,
    frames: Seq<Picture<i16>>,
    idx: int,
) -> bool {
    match data[idx] {
        DecodedFrameData::IFrame(frame) => frames[idx] == frame@,
        DecodedFrameData::PFrame(macro_blocks) => is_assembled(
            restore,
            None,
            frames[backward_pos(order, Kind::P, idx)],
            macro_blocks@,
            frames[idx],
        ),
        DecodedFrameData::BFrame(_) => true,
    }
}

/// The frame that follows a frame in between, where the group has it.
pub open spec fn forward_frame(
    order: FrameOrder,
    data: Seq<DecodedFrameData>,
    frames: Seq<Picture<i16>>,
    idx: int,
) -> Option<Picture<i16>> {
    if has_anchor_at(data, forward_pos(order, idx)) {
        Some(frames[forward_pos(order, idx)])
    } else {
        None
    }
}

/// A frame in between was put together from the anchors on both sides.
pub open spec fn is_between_shown<R: Fn(Plane, &Block<i16>, &Block<i16>) -> Block<i16>>(
    restore: R,
    order: FrameOrder,
    data: Seq<DecodedFrameData>,
    frames: Seq<Picture<i16>>,
    idx: int,
) -> bool {
    data[idx] matches DecodedFrameData::BFrame(macro_blocks) ==> is_assembled(
        restore,
        forward_frame(order, data, frames, idx),
        frames[backward_pos(order, Kind::B, idx)],
        macro_blocks@,
        frames[idx],
    )
}

/// The anchor at a position has the anchor that it follows.
pub open spec fn is_anchor_connected(
    order: FrameOrder,
    data: Seq<DecodedFrameData>,
    idx: int,
) -> bool {
    data[idx].kind_of() == Kind::P ==> {
        &&& backward_pos(order, Kind::P, idx) < idx
        &&& has_anchor_at(data, backward_pos(order, Kind::P, idx))
    }
}

/// The frame that stands alone that an anchor goes back to.
pub open spec fn origin(order: FrameOrder, data: Seq<DecodedFrameData>, idx: int) -> int
    decreases idx,
{
    let before = backward_pos(order, Kind::P, idx);
    if data[idx].kind_of() == Kind::P && 0 <= before < idx {
        origin(order, data, before)
    } else {
        idx
    }
}

/// The frame whose size an anchor has.
pub open spec fn anchor_size(
    order: FrameOrder,
    data: Seq<DecodedFrameData>,
    idx: int,
) -> Picture<i16> {
    data[origin(order, data, idx)]->IFrame_0@
}

/// Two frames have the same size, and as many blocks in their chroma planes.
pub open spec fn is_like(a: Picture<i16>, b: Picture<i16>) -> bool {
    &&& a.dimensions == b.dimensions
    &&& a.subsampling == b.subsampling
    &&& a.cb.len() == b.cb.len()
    &&& a.cr.len() == b.cr.len()
}

/// What macroblocks need depends only on the size of the frame.
proof fn lemma_needs_alike(
    macro_blocks: Seq<BMacroBlock<i16>>,
    a: Picture<i16>,
    b: Picture<i16>,
)
    requires
        is_like(a, b),
    ensures
        needs_ahead(macro_blocks, a) == needs_ahead(macro_blocks, b),
{
    assert forall|j: int| 0 <= j < macro_blocks.len() implies is_in_planes(
        #[trigger] macro_blocks[j],
        a,
    ) == is_in_planes(macro_blocks[j], b) by {
        let location = macro_blocks[j].at().mapped_to_chroma(a.subsampling);
        assert forall|k: int| is_touched(location, a, k) == #[trigger] is_touched(
            location,
            b,
            k,
        ) by {}
        if is_in_planes(macro_blocks[j], a) {
            let k = choose|k: int| #[trigger] is_touched(location, a, k);
            assert(is_touched(location, b, k));
        }
    }
}

/// The frame in between has the anchors that it needs. A macroblock outside the
/// planes needs none.
pub open spec fn is_between_connected(
    order: FrameOrder,
    data: Seq<DecodedFrameData>,
    idx: int,
) -> bool {
    data[idx] matches DecodedFrameData::BFrame(macro_blocks) ==> {
        &&& order.anchor_distance > 0
        &&& has_anchor_at(data, backward_pos(order, Kind::B, idx))
        &&& needs_ahead(
            macro_blocks@,
            anchor_size(order, data, backward_pos(order, Kind::B, idx)),
        ) ==> has_anchor_at(data, forward_pos(order, idx))
    }
}

/// Whether a group can be put together: it starts with a frame that stands
/// alone, and every other frame has the frames that it needs.
pub open spec fn is_connected(order: FrameOrder, data: Seq<DecodedFrameData>) -> bool {
    &&& data[0].kind_of() == Kind::I
    &&& forall|idx: int| 0 <= idx < data.len() ==> #[trigger] is_anchor_connected(order, data, idx)
    &&& forall|idx: int|
        0 <= idx < data.len() ==> #[trigger] is_between_connected(order, data, idx)
}

/// The pictures of frames that were read.
pub open spec fn shown_pictures(frames: Seq<DecodedFrame>) -> Seq<Picture<i16>> {
    Seq::new(frames.len(), |i: int| frames[i].data@)
}

/// The frames of a group were put together.
pub open spec fn is_gop_shown<R: Fn(Plane, &Block<i16>, &Block<i16>) -> Block<i16>>(
    restore: R,
    order: FrameOrder,
    data: Seq<DecodedFrameData>,
    frames: Seq<DecodedFrame>,
) -> bool {
    &&& frames.len() == data.len()
    &&& forall|idx: int|
        0 <= idx < data.len() ==> {
            &&& (#[trigger] frames[idx]).kind == data[idx].kind_of()
            &&& is_anchor_shown(restore, order, data, shown_pictures(frames), idx)
            &&& is_between_shown(restore, order, data, shown_pictures(frames), idx)
        }
}

/// What putting a group together answers.
pub open spec fn is_gop_reassembled<R: Fn(Plane, &Block<i16>, &Block<i16>) -> Block<i16>>(
    restore: R,
    order: FrameOrder,
    data: Seq<DecodedFrameData>,
    r: Result<Vec<DecodedFrame>>,
) -> bool {
    if data.len() == 0 {
        r is Ok && r->Ok_0@.len() == 0
    } else if is_connected(order, data) {
        r is Ok && is_gop_shown(restore, order, data, r->Ok_0@)
    } else {
        r is Err && r->Err_0 is InvalidData
    }
}

/// All frames that stand alone are well formed.
pub open spec fn is_data_well_formed(data: Seq<DecodedFrameData>) -> bool {
    forall|i: int| 0 <= i < data.len() ==> (#[trigger] data[i]).well_formed()
}

/// The pictures of the anchors. What stands at other positions does not matter.
pub open spec fn anchor_pictures(anchors: Seq<Option<SubSampleBlockGroup<i16>>>) -> Seq<
    Picture<i16>,
> {
    Seq::new(anchors.len(), |i: int| anchors[i]->0@)
}

/// The anchors among the first frames were put together.
pub open spec fn are_anchors_shown<R: Fn(Plane, &Block<i16>, &Block<i16>) -> Block<i16>>(
    restore: R,
    order: FrameOrder,
    data: Seq<DecodedFrameData>,
    anchors: Seq<Option<SubSampleBlockGroup<i16>>>,
) -> bool {
    &&& anchors.len() <= data.len()
    &&& forall|i: int|
        0 <= i < anchors.len() ==> {
            &&& (#[trigger] anchors[i]) is Some <==> data[i].kind_of() != Kind::B
            &&& anchors[i] is Some ==> anchors[i]->0.cb@.len() == anchors[i]->0.cr@.len()
            &&& anchors[i] is Some ==> is_like(anchors[i]->0@, anchor_size(order, data, i))
            &&& is_anchor_connected(order, data, i)
            &&& is_anchor_shown(restore, order, data, anchor_pictures(anchors), i)
        }
}

/// There is an anchor wherever the group has one.
pub open spec fn are_anchors_there(
    order: FrameOrder,
    data: Seq<DecodedFrameData>,
    anchors: Seq<Option<SubSampleBlockGroup<i16>>>,
) -> bool {
    &&& anchors.len() == data.len()
    &&& forall|i: int|
        0 <= i < anchors.len() ==> {
            &&& (#[trigger] anchors[i]) is Some <==> data[i].kind_of() != Kind::B
            &&& anchors[i] is Some ==> anchors[i]->0.cb@.len() == anchors[i]->0.cr@.len()
            &&& anchors[i] is Some ==> is_like(anchors[i]->0@, anchor_size(order, data, i))
        }
}

/// Puts the anchors of a group together, one after the other.
fn assemble_anchors<R: Fn(Plane, &Block<i16>, &Block<i16>) -> Block<i16>>(
    restore: &R,
    order: FrameOrder,
    data: &[DecodedFrameData],
) -> (r: Result<Vec<Option<SubSampleBlockGroup<i16>>>>)
    requires
        is_data_well_formed(data@),
        forall|plane: Plane, p: Block<i16>, b: Block<i16>| #[trigger]
            call_requires(*restore, (plane, &p, &b)),
    ensures
        r is Ok ==> r->Ok_0@.len() == data@.len() && are_anchors_shown(
            *restore,
            order,
            data@,
            r->Ok_0@,
        ),
        r is Err ==> r->Err_0 is InvalidData && exists|i: int|
            0 <= i < data@.len() && !#[trigger] is_anchor_connected(order, data@, i),
{
    let mut anchors: Vec<Option<SubSampleBlockGroup<i16>>> = Vec::new();
    let mut idx: usize = 0;
    while idx < data.len()
        invariant
            idx == anchors@.len(),
            idx <= data@.len(),
            is_data_well_formed(data@),
            forall|plane: Plane, p: Block<i16>, b: Block<i16>| #[trigger]
                call_requires(*restore, (plane, &p, &b)),
            are_anchors_shown(*restore, order, data@, anchors@),
        decreases data@.len() - idx,
    {
        assert(data@[idx as int].well_formed());
        let ghost before = anchors@;
        let shown: Option<SubSampleBlockGroup<i16>> = match &data[idx] {
            DecodedFrameData::IFrame(frame) => Some(frame.clone()),
            DecodedFrameData::PFrame(macro_blocks) => {
                let pos: usize = if idx < order.anchor_distance {
                    0
                } else {
                    idx - order.anchor_distance
                };
                if pos >= idx {
                    assert(!is_anchor_connected(order, data@, idx as int));
                    return Err(Error::InvalidData);
                }
                match &anchors[pos] {
                    Some(anchor) => {
                        proof {
                            lemma_like_planes_fit(macro_blocks@, anchor@, false);
                        }
                        let r = PFrame::reassemble(
                            &anchor.as_ref(),
                            macro_blocks.as_slice(),
                            restore,
                        );
                        match r {
                            Ok(frame) => {
                                proof {
                                    lemma_assembled_len(
                                        *restore,
                                        None,
                                        anchor@,
                                        macro_blocks@,
                                        frame@,
                                    );
                                }
                                Some(frame)
                            },
                            Err(e) => {
                                return Err(e);
                            },
                        }
                    },
                    None => {
                        assert(!is_anchor_connected(order, data@, idx as int));
                        return Err(Error::InvalidData);
                    },
                }
            },
            DecodedFrameData::BFrame(_) => None,
        };
        anchors.push(shown);
        proof {
            let was = anchor_pictures(before);
            let now = anchor_pictures(anchors@);
            assert forall|i: int| 0 <= i < anchors@.len() implies {
                &&& (#[trigger] anchors@[i]) is Some <==> data@[i].kind_of() != Kind::B
                &&& anchors@[i] is Some ==> anchors@[i]->0.cb@.len() == anchors@[i]->0.cr@.len()
                &&& anchors@[i] is Some ==> is_like(
                    anchors@[i]->0@,
                    anchor_size(order, data@, i),
                )
                &&& is_anchor_connected(order, data@, i)
                &&& is_anchor_shown(*restore, order, data@, now, i)
            } by {
                let pos = backward_pos(order, Kind::P, i);
                if i < idx {
                    assert(anchors@[i] == before[i]);
                    assert(now[i] == was[i]);
                    if data@[i].kind_of() == Kind::P {
                        assert(now[pos] == was[pos]);
                    }
                } else if data@[i].kind_of() == Kind::P {
                    assert(now[pos] == before[pos]->0@);
                    assert(is_like(before[pos]->0@, anchor_size(order, data@, pos)));
                }
            }
        }
        idx = idx + 1;
    }
    Ok(anchors)
}

/// What putting the frame at a position together from the anchors answers,
/// where it lies between them.
pub open spec fn is_between_answered<R: Fn(Plane, &Block<i16>, &Block<i16>) -> Block<i16>>(
    restore: R,
    order: FrameOrder,
    data: Seq<DecodedFrameData>,
    anchors: Seq<Picture<i16>>,
    idx: int,
    r: Result<Option<SubSampleBlockGroup<i16>>>,
) -> bool {
    &&& r is Ok <==> is_between_connected(order, data, idx)
    &&& r is Err ==> r->Err_0 is InvalidData
    &&& r is Ok ==> (r->Ok_0 is Some <==> data[idx].kind_of() == Kind::B)
    &&& r is Ok && r->Ok_0 is Some ==> is_assembled(
        restore,
        forward_frame(order, data, anchors, idx),
        anchors[backward_pos(order, Kind::B, idx)],
        data[idx]->BFrame_0@,
        r->Ok_0->0@,
    )
}

/// Puts the frame at a position together from the anchors, where it lies between
/// them.
fn assemble_between<R: Fn(Plane, &Block<i16>, &Block<i16>) -> Block<i16>>(
    restore: &R,
    order: FrameOrder,
    data: &[DecodedFrameData],
    anchors: &[Option<SubSampleBlockGroup<i16>>],
    idx: usize,
) -> (r: Result<Option<SubSampleBlockGroup<i16>>>)
    requires
        idx < data@.len(),
        are_anchors_there(order, data@, anchors@),
        forall|plane: Plane, p: Block<i16>, b: Block<i16>| #[trigger]
            call_requires(*restore, (plane, &p, &b)),
    ensures
        is_between_answered(*restore, order, data@, anchor_pictures(anchors@), idx as int, r),
{
    let macro_blocks = match &data[idx] {
        DecodedFrameData::BFrame(macro_blocks) => macro_blocks,
        _ => {
            return Ok(None);
        },
    };
    if order.anchor_distance == 0 {
        return Err(Error::InvalidData);
    }
    let behind: usize = idx % order.anchor_distance;
    proof {
        vstd::arithmetic::div_mod::lemma_mod_decreases(idx as nat, order.anchor_distance as nat);
    }
    let before: usize = idx - behind;
    let ahead: Option<usize> = idx.checked_add(order.anchor_distance - behind);
    assert(anchors@[before as int] is Some <==> data@[before as int].kind_of() != Kind::B);
    let backward = match &anchors[before] {
        Some(backward) => backward.as_ref(),
        None => {
            return Err(Error::InvalidData);
        },
    };
    assert(backward@ == anchor_pictures(anchors@)[before as int]);
    let forward = match ahead {
        Some(ahead) => if ahead < anchors.len() {
            assert(anchors@[ahead as int] is Some <==> data@[ahead as int].kind_of() != Kind::B);
            match &anchors[ahead] {
                Some(forward) => {
                    assert(forward@ == anchor_pictures(anchors@)[ahead as int]);
                    Some(forward.as_ref())
                },
                None => None,
            }
        } else {
            None
        },
        None => None,
    };
    assert(match forward {
        Some(forward) => forward_frame(
            order,
            data@,
            anchor_pictures(anchors@),
            idx as int,
        ) == Some(forward@),
        None => forward_frame(order, data@, anchor_pictures(anchors@), idx as int) is None,
    });
    proof {
        lemma_needs_alike(
            macro_blocks@,
            backward@,
            anchor_size(order, data@, before as int),
        );
    }
    match &forward {
        Some(forward) => {
            proof {
                lemma_like_planes_fit(macro_blocks@, forward@, true);
            }
            match BFrame::reassemble(Some(forward), &backward, macro_blocks.as_slice(), restore) {
                Ok(frame) => Ok(Some(frame)),
                Err(e) => Err(e),
            }
        },
        None => {
            if needs_forward(macro_blocks.as_slice(), &backward) {
                return Err(Error::InvalidData);
            }
            proof {
                lemma_like_planes_fit(macro_blocks@, backward@, false);
            }
            match BFrame::reassemble(None, &backward, macro_blocks.as_slice(), restore) {
                Ok(frame) => Ok(Some(frame)),
                Err(e) => Err(e),
            }
        },
    }
}

/// An answer for a position holds a frame where the position lies between
/// anchors.
spec fn is_between_fit(
    data: DecodedFrameData,
    answer: Result<Option<SubSampleBlockGroup<i16>>>,
) -> bool {
    &&& answer is Ok ==> (answer->Ok_0 is Some <==> data.kind_of() == Kind::B)
    &&& answer is Err ==> answer->Err_0 is InvalidData
}

/// Brings anchors and the frames between them into the order in which they are
/// shown.
fn join(
    order: FrameOrder,
    data: &[DecodedFrameData],
    anchors: Vec<Option<SubSampleBlockGroup<i16>>>,
    between: Vec<Result<Option<SubSampleBlockGroup<i16>>>>,
) -> (r: Result<Vec<DecodedFrame>>)
    requires
        are_anchors_there(order, data@, anchors@),
        between@.len() == data@.len(),
        forall|i: int| 0 <= i < data@.len() ==> is_between_fit(data@[i], #[trigger] between@[i]),
    ensures
        r is Err ==> r->Err_0 is InvalidData && exists|i: int|
            0 <= i < between@.len() && (#[trigger] between@[i]) is Err,
        r is Ok ==> {
            &&& r->Ok_0@.len() == data@.len()
            &&& forall|i: int| 0 <= i < data@.len() ==> (#[trigger] between@[i]) is Ok
            &&& forall|i: int|
                0 <= i < data@.len() ==> {
                    &&& (#[trigger] r->Ok_0@[i]).kind == data@[i].kind_of()
                    &&& data@[i].kind_of() == Kind::B ==> r->Ok_0@[i].data@
                        == between@[i]->Ok_0->0@
                    &&& data@[i].kind_of() != Kind::B ==> r->Ok_0@[i].data@ == anchors@[i]->0@
                }
        },
{
    let ghost whole = anchors@;
    let ghost answers = between@;
    let mut left = anchors;
    let mut open = between;
    let mut frames: Vec<DecodedFrame> = Vec::new();
    let mut idx: usize = 0;
    while idx < data.len()
        invariant
            idx <= data@.len(),
            frames@.len() == idx,
            data@.len() == left@.len() == open@.len() == whole.len() == answers.len(),
            whole == anchors@,
            answers == between@,
            are_anchors_there(order, data@, whole),
            forall|i: int| idx <= i < data@.len() ==> left@[i] == whole[i],
            forall|i: int| idx <= i < data@.len() ==> open@[i] == answers[i],
            forall|i: int|
                0 <= i < data@.len() ==> is_between_fit(data@[i], #[trigger] answers[i]),
            forall|i: int| 0 <= i < idx ==> (#[trigger] answers[i]) is Ok,
            forall|i: int|
                0 <= i < idx ==> {
                    &&& (#[trigger] frames@[i]).kind == data@[i].kind_of()
                    &&& data@[i].kind_of() == Kind::B ==> frames@[i].data@
                        == answers[i]->Ok_0->0@
                    &&& data@[i].kind_of() != Kind::B ==> frames@[i].data@ == whole[i]->0@
                },
        decreases data@.len() - idx,
    {
        let kind = data[idx].kind();
        assert(whole[idx as int] is Some <==> data@[idx as int].kind_of() != Kind::B);
        assert(is_between_fit(data@[idx as int], answers[idx as int]));
        let mut answer: Result<Option<SubSampleBlockGroup<i16>>> = Ok(None);
        std::mem::swap(&mut answer, &mut open[idx]);
        let shown = match answer {
            Ok(Some(frame)) => Some(frame),
            Ok(None) => left[idx].take(),
            Err(e) => {
                assert(answers[idx as int] is Err);
                return Err(e);
            },
        };
        match shown {
            Some(frame) => {
                frames.push(DecodedFrame { kind, data: frame });
            },
            None => {
                assert(false);
                return Err(Error::InvalidData);
            },
        }
        idx = idx + 1;
    }
    Ok(frames)
}

/// Puts the frames of a group together: first the anchors, then side by side the
/// frames between them.
pub fn reassemble_gop<
    R: Fn(Plane, &Block<i16>, &Block<i16>) -> Block<i16> + Sync + Send,
>(restore: &R, order: FrameOrder, data: &[DecodedFrameData]) -> (r: Result<Vec<DecodedFrame>>)
    requires
        is_data_well_formed(data@),
        forall|plane: Plane, p: Block<i16>, b: Block<i16>| #[trigger]
            call_requires(*restore, (plane, &p, &b)),
    ensures
        is_gop_reassembled(*restore, order, data@, r),
{
    if data.len() == 0 {
        return Ok(Vec::new());
    }
    if data[0].kind() != Kind::I {
        return Err(Error::InvalidData);
    }
    let anchors = match assemble_anchors(restore, order, data) {
        Ok(anchors) => anchors,
        Err(e) => {
            proof {
                let i = choose|i: int|
                    0 <= i < data@.len() && !#[trigger] is_anchor_connected(order, data@, i);
                assert(!is_anchor_connected(order, data@, i));
            }
            return Err(e);
        },
    };
    let ghost whole = anchors@;
    let ghost seen = anchor_pictures(whole);
    let work = |idx: usize| -> (r: Result<Option<SubSampleBlockGroup<i16>>>)
        requires
            idx < data@.len(),
            are_anchors_there(order, data@, anchors@),
            forall|plane: Plane, p: Block<i16>, b: Block<i16>| #[trigger]
                call_requires(*restore, (plane, &p, &b))
        ensures
            is_between_answered(*restore, order, data@, anchor_pictures(anchors@), idx as int, r)
        { assemble_between(restore, order, data, anchors.as_slice(), idx) };
    let between = par_map_range(data.len(), work);
    let ghost answers = between@;
    proof {
        assert forall|i: int| 0 <= i < data@.len() implies is_between_answered(
            *restore,
            order,
            data@,
            seen,
            i,
            #[trigger] answers[i],
        ) by {
            assert(call_ensures(work, (i as usize,), answers[(i as usize) as int]));
        }
    }
    proof {
        assert forall|i: int| 0 <= i < data@.len() implies is_between_fit(
            data@[i],
            #[trigger] answers[i],
        ) by {
            assert(is_between_answered(*restore, order, data@, seen, i, answers[i]));
        }
    }
    let frames = match join(order, data, anchors, between) {
        Ok(frames) => frames,
        Err(e) => {
            proof {
                let i = choose|i: int| 0 <= i < answers.len() && (#[trigger] answers[i]) is Err;
                assert(is_between_answered(*restore, order, data@, seen, i, answers[i]));
                assert(!is_between_connected(order, data@, i));
            }
            return Err(e);
        },
    };
    proof {
        let shown = shown_pictures(frames@);
        assert forall|i: int| 0 <= i < data@.len() implies #[trigger] is_anchor_connected(
            order,
            data@,
            i,
        ) by {
            assert(whole[i] is Some <==> data@[i].kind_of() != Kind::B);
        }
        assert forall|i: int| 0 <= i < data@.len() implies #[trigger] is_between_connected(
            order,
            data@,
            i,
        ) by {
            assert(is_between_answered(*restore, order, data@, seen, i, answers[i]));
            assert(answers[i] is Ok);
        }
        assert(is_connected(order, data@));
        assert forall|i: int| 0 <= i < data@.len() implies {
            &&& (#[trigger] frames@[i]).kind == data@[i].kind_of()
            &&& is_anchor_shown(*restore, order, data@, shown, i)
            &&& is_between_shown(*restore, order, data@, shown, i)
        } by {
            assert(is_between_connected(order, data@, i));
            assert(whole[i] is Some <==> data@[i].kind_of() != Kind::B);
            assert(shown[i] == frames@[i].data@);
            if data@[i].kind_of() == Kind::P {
                let pos = backward_pos(order, Kind::P, i);
                assert(shown[pos] == frames@[pos].data@);
            } else if data@[i].kind_of() == Kind::B {
                let pos = backward_pos(order, Kind::B, i);
                assert(shown[pos] == frames@[pos].data@);
                let ahead = forward_pos(order, i);
                if has_anchor_at(data@, ahead) {
                    assert(shown[ahead] == frames@[ahead].data@);
                }
                assert(is_between_answered(*restore, order, data@, seen, i, answers[i]));
            }
        }
    }
    Ok(frames)
}

/// An anchor follows the one an anchor distance before it, and a frame between two anchors
/// lies between the last one before it and the first one behind it.
pub proof fn law_references_lie_around(order: FrameOrder, m: int, b: int)
    requires
        0 < order.anchor_distance,
        0 <= m,
        0 <= b < order.anchor_distance,
    ensures
        ({
            let a = order.anchor_distance as int;
            &&& backward_pos(order, Kind::B, m * a + b) == m * a
            &&& forward_pos(order, m * a + b) == (m + 1) * a
            &&& backward_pos(order, Kind::P, (m + 1) * a) == m * a
        }),
{
    let a = order.anchor_distance as int;
    crate::numeric::lemma_place(m, b, a);
    assert((m + 1) * a == m * a + a) by (nonlinear_arith);
}

/// A group without frames is shown as none. One that does not start with a frame that stands
/// alone is invalid data, and so is one with a frame whose anchor before it is not there.
pub proof fn law_loose_groups_are_refused<R: Fn(Plane, &Block<i16>, &Block<i16>) -> Block<i16>>(
    restore: R,
    order: FrameOrder,
    data: Seq<DecodedFrameData>,
    r: Result<Vec<DecodedFrame>>,
    m: int,
    b: int,
)
    requires
        is_gop_reassembled(restore, order, data, r),
        0 < order.anchor_distance,
        0 <= m,
        0 <= b < order.anchor_distance,
    ensures
        ({
            let a = order.anchor_distance as int;
            let refused = r is Err && r->Err_0 is InvalidData;
            &&& data.len() == 0 ==> r is Ok && r->Ok_0@.len() == 0
            &&& data.len() > 0 && data[0].kind_of() != Kind::I ==> refused
            &&& (m + 1) * a < data.len() && data[(m + 1) * a].kind_of() == Kind::P && data[m
                * a].kind_of() == Kind::B ==> refused
            &&& m * a + b < data.len() && data[m * a + b].kind_of() == Kind::B && data[m
                * a].kind_of() == Kind::B ==> refused
        }),
{
    let a = order.anchor_distance as int;
    law_references_lie_around(order, m, b);
    assert(0 <= m * a && (m + 1) * a == m * a + a) by (nonlinear_arith)
        requires
            0 <= m,
            0 < a,
    ;
    if data.len() > 0 && is_connected(order, data) {
        if (m + 1) * a < data.len() {
            assert(is_anchor_connected(order, data, (m + 1) * a));
        }
        if m * a + b < data.len() {
            assert(is_between_connected(order, data, m * a + b));
        }
    }
}

} // verus!
