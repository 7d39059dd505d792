//! Groups of pictures: a frame that stands alone and the frames that are
//! predicted from it.
use vstd::prelude::*;

use super::Kind;
use crate::error::{Error, Result};
use crate::lossy::{Picture, SubSampleBlockGroup};

pub mod assemble;
pub mod calls;
pub mod coming_back;
pub mod data;
pub mod encode;
pub mod frames_reader;
pub mod frames_writer;
pub mod group;
pub mod header;
pub mod live;
pub mod reader;
pub mod round_trip;
pub mod scene;
pub mod size;
pub mod streaming;
pub mod video;
pub mod whole;
pub mod writer;

verus! {

/// The distance between anchors of an order that is not chosen otherwise.
pub const DEFAULT_ANCHOR_DISTANCE: usize = 5;

/// The length of a group in an order that is not chosen otherwise.
pub const DEFAULT_FULL_IMAGE_DISTANCE: usize = 30;

/// How many groups are coded side by side where the number of processors is not
/// known.
pub const DEFAULT_PARALLEL_GOPS: usize = 4;

/// A frame that was read, and what it was predicted from.
pub struct DecodedFrame {
    pub kind: Kind,
    pub data: SubSampleBlockGroup<i16>,
}

impl View for DecodedFrame {
    type V = (Kind, Picture<i16>);

    open spec fn view(&self) -> (Kind, Picture<i16>) {
        (self.kind, self.data@)
    }
}

/// Which frames of a video stand alone, and which are predicted.
#[derive(Debug, Clone, Copy, PartialEq, Eq, Structural)]
pub struct FrameOrder {
    /// The distance between frames that others are predicted from.
    pub anchor_distance: usize,
    /// The distance between frames that stand alone.
    pub full_image_distance: usize,
    /// How many groups are coded side by side.
    pub parallel_gops: usize,
}

/// Whether a number is a multiple of another. Zero alone is a multiple of zero.
pub open spec fn is_multiple(value: int, of: int) -> bool {
    if of == 0 {
        value == 0
    } else {
        value % of == 0
    }
}

impl FrameOrder {
    /// What the frame at a position of the video is predicted from.
    pub open spec fn kind_of(self, pos: int) -> Kind {
        let group_pos = pos % (self.full_image_distance as int);
        if group_pos == 0 {
            Kind::I
        } else if is_multiple(group_pos, self.anchor_distance as int) {
            Kind::P
        } else {
            Kind::B
        }
    }

    /// What the frame at a position of a group is predicted from.
    pub open spec fn gop_kind(self, idx: int) -> Kind {
        if idx == 0 || is_multiple(idx, self.full_image_distance as int) {
            Kind::I
        } else if is_multiple(idx, self.anchor_distance as int) {
            Kind::P
        } else {
            Kind::B
        }
    }

    /// The order that is used where none is chosen, for a machine with
    /// `available` processors.
    pub fn with_parallelism(available: Option<usize>) -> (r: Self)
        ensures
            r.anchor_distance == 5,
            r.full_image_distance == 30,
            available is Some ==> r.parallel_gops == available->0,
            available is None ==> r.parallel_gops == 4,
    {
        FrameOrder {
            anchor_distance: DEFAULT_ANCHOR_DISTANCE,
            full_image_distance: DEFAULT_FULL_IMAGE_DISTANCE,
            parallel_gops: match available {
                Some(count) => count,
                None => DEFAULT_PARALLEL_GOPS,
            },
        }
    }

    /// How many groups are coded side by side.
    pub open spec fn batch_len(&self) -> int {
        if self.parallel_gops == 0 {
            1
        } else {
            self.parallel_gops as int
        }
    }

    /// How many groups are coded side by side: at least one.
    pub fn effective_parallel_gops(&self) -> (r: usize)
        ensures
            r == self.batch_len(),
    {
        if self.parallel_gops == 0 {
            1
        } else {
            self.parallel_gops
        }
    }

    /// What the frame at a position of the video is predicted from.
    pub fn frame_kind(&self, pos: usize) -> (r: Kind)
        requires
            self.full_image_distance > 0,
        ensures
            r == self.kind_of(pos as int),
    {
        self.wide_frame_kind(pos as u128)
    }

    /// What the frame at a position of the video is predicted from.
    pub(crate) fn wide_frame_kind(&self, pos: u128) -> (r: Kind)
        requires
            self.full_image_distance > 0,
        ensures
            r == self.kind_of(pos as int),
    {
        let group_pos: u128 = pos % (self.full_image_distance as u128);
        if group_pos == 0 {
            Kind::I
        } else if self.anchor_distance != 0 && group_pos % (self.anchor_distance as u128) == 0 {
            Kind::P
        } else {
            Kind::B
        }
    }

    /// What the frame at a position of a group is predicted from.
    pub fn gop_frame_kind(&self, local_idx: usize) -> (r: Kind)
        ensures
            r == self.gop_kind(local_idx as int),
    {
        if local_idx == 0 || (self.full_image_distance != 0 && local_idx % self.full_image_distance
            == 0) {
            Kind::I
        } else if self.anchor_distance != 0 && local_idx % self.anchor_distance == 0 {
            Kind::P
        } else {
            Kind::B
        }
    }
}

/// Within a group, a frame is predicted from the same as its position in the
/// video says.
pub proof fn law_group_follows_order(order: FrameOrder, group: int, idx: int)
    requires
        0 <= idx < order.full_image_distance,
        0 <= group,
    ensures
        order.gop_kind(idx) == order.kind_of(group * order.full_image_distance + idx),
{
    let full = order.full_image_distance as int;
    vstd::arithmetic::div_mod::lemma_mod_multiples_vanish(group, idx, full);
    vstd::arithmetic::div_mod::lemma_small_mod(idx as nat, full as nat);
    vstd::arithmetic::mul::lemma_mul_is_commutative(group, full);
}

/// What asking for a frame answers where `before` are the frames that are still
/// to come, and `after` those that come then: the next frame, or none behind
/// the last. What an error leaves behind is open.
pub open spec fn is_next_frame<T>(
    before: Seq<Picture<T>>,
    r: Result<Option<SubSampleBlockGroup<T>>>,
    after: Seq<Picture<T>>,
) -> bool {
    r is Ok ==> if before.len() > 0 {
        r->Ok_0 is Some && r->Ok_0->0@ == before[0] && after == before.skip(1)
    } else {
        r->Ok_0 is None && after == before
    }
}

/// Where the frames of a video come from.
pub trait FrameReader<T> {
    /// The frames that are still to come.
    open spec fn coming(&self) -> Seq<Picture<T>> {
        arbitrary()
    }

    /// Whether no call fails from now on.
    open spec fn is_sound(&self) -> bool {
        arbitrary()
    }

    /// The error that the last call gave, where it failed. A reader that has no
    /// other use for it can keep it in ghost state.
    open spec fn failure(&self) -> Option<Error> {
        arbitrary()
    }

    /// Gives the next frame, or none behind the last.
    fn read_frame(&mut self) -> (r: Result<Option<SubSampleBlockGroup<T>>>)
        ensures
            is_next_frame(old(self).coming(), r, final(self).coming()),
            old(self).is_sound() ==> r is Ok && final(self).is_sound(),
            r is Err ==> final(self).failure() == Some(r->Err_0),
    ;
}

/// In every group the first frame stands alone. Of the others, those a whole number of
/// anchor distances behind it are predicted from the frame before, and those between
/// two such places from both sides, as are all where there is no anchor distance.
pub proof fn law_kinds_alternate(order: FrameOrder, group: int, anchor: int, behind: int)
    requires
        0 <= group,
        0 <= anchor,
        0 <= behind,
        0 < anchor * order.anchor_distance + behind < order.full_image_distance,
        behind < order.anchor_distance || order.anchor_distance == 0,
    ensures
        ({
            let start = group * order.full_image_distance;
            let idx = anchor * order.anchor_distance + behind;
            &&& order.kind_of(start) == Kind::I
            &&& order.gop_kind(start) == Kind::I
            &&& order.kind_of(start + idx) == if behind == 0 {
                Kind::P
            } else {
                Kind::B
            }
            &&& order.gop_kind(idx) == order.kind_of(start + idx)
        }),
{
    let full = order.full_image_distance as int;
    let start = group * full;
    let idx = anchor * order.anchor_distance + behind;
    vstd::arithmetic::div_mod::lemma_mod_multiples_vanish(group, idx, full);
    vstd::arithmetic::div_mod::lemma_mod_multiples_vanish(group, 0, full);
    vstd::arithmetic::div_mod::lemma_small_mod(idx as nat, full as nat);
    vstd::arithmetic::div_mod::lemma_small_mod(0, full as nat);
    vstd::arithmetic::mul::lemma_mul_is_commutative(group, full);
    if order.anchor_distance > 0 {
        crate::numeric::lemma_place(anchor, behind, order.anchor_distance as int);
    } else {
        assert(anchor * order.anchor_distance == 0) by (nonlinear_arith)
            requires
                order.anchor_distance == 0,
        ;
    }
}

/// At least one group is coded at a time, and as many as were asked for.
pub proof fn law_batches_are_as_asked(order: FrameOrder)
    ensures
        order.batch_len() >= 1,
        order.batch_len() >= order.parallel_gops,
        order.batch_len() > order.parallel_gops ==> order.parallel_gops == 0
            && order.batch_len() == 1,
{
}

/// In a group that goes on behind its length, a frame stands alone a whole number of lengths behind
/// the first one, and else is predicted by its distance to that one.
pub proof fn law_long_groups_go_on(order: FrameOrder, anchor: int, behind: int)
    requires
        0 <= anchor,
        0 <= behind < order.anchor_distance,
        0 < anchor * order.anchor_distance + behind,
    ensures
        ({
            let idx = anchor * order.anchor_distance + behind;
            let full = order.full_image_distance as int;
            &&& full > 0 && idx % full == 0 ==> order.gop_kind(idx) == Kind::I
            &&& full == 0 || idx % full != 0 ==> order.gop_kind(idx) == if behind == 0 {
                Kind::P
            } else {
                Kind::B
            }
        }),
{
    crate::numeric::lemma_place(anchor, behind, order.anchor_distance as int);
}

} // verus!
