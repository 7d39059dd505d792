//! Reading a video group by group.
use std::collections::VecDeque;

use vstd::prelude::*;

use super::assemble::{is_data_well_formed, is_gop_reassembled, reassemble_gop};
use super::data::{
    decode_frame, header_kind, is_data_read, is_frame_at, is_frame_refused, lemma_header_read,
    DecodedFrameData,
};
use super::header::{holds_end, holds_frame, GroupOfPicturesHeader};
use super::{DecodedFrame, FrameOrder};
use crate::bits::bytes_bits;
use crate::bitstream::BitStreamReader;
use crate::block::Block;
use crate::error::Result;
use crate::lossy::frame::prediction::Plane;
use crate::lossy::frame::Kind;

verus! {

/// A stream went through `states` while frames were read.
pub open spec fn are_frames_read<I: Fn(&Block<i16>) -> Block<i16>>(
    idct: I,
    data: Seq<DecodedFrameData>,
    states: Seq<Seq<bool>>,
) -> bool {
    &&& states.len() == data.len() + 1
    &&& forall|i: int|
        0 <= i < data.len() ==> is_frame_at(idct, states[i], #[trigger] data[i], states[i + 1])
}

/// Whether a frame that stands alone is among the frames.
pub open spec fn has_iframe(data: Seq<DecodedFrameData>) -> bool {
    exists|i: int| 0 <= i < data.len() && (#[trigger] data[i]).kind_of() == Kind::I
}

/// Whether a group is as long as it may become.
pub open spec fn is_gop_full(order: FrameOrder, data: Seq<DecodedFrameData>) -> bool {
    data.len() > 0 && data.len() >= order.full_image_distance
}

/// The frame at a position belongs to the group of those before it: the group
/// was not full, and it is not a second one that stands alone.
pub open spec fn continues_gop(order: FrameOrder, data: Seq<DecodedFrameData>, i: int) -> bool {
    &&& !is_gop_full(order, data.take(i))
    &&& data[i].kind_of() == Kind::I ==> !has_iframe(data.take(i))
}

/// All frames belong to one group.
pub open spec fn is_one_gop(order: FrameOrder, data: Seq<DecodedFrameData>) -> bool {
    forall|i: int| 0 <= i < data.len() ==> #[trigger] continues_gop(order, data, i)
}

/// What a group ends with: its length, the mark of the end, or the next frame
/// that stands alone, which is read and dropped. `last` is what the stream holds
/// behind the frames of the group. The answer says whether the mark of the end
/// was read.
pub open spec fn is_gop_ended<I: Fn(&Block<i16>) -> Block<i16>>(
    idct: I,
    order: FrameOrder,
    data: Seq<DecodedFrameData>,
    last: Seq<bool>,
    r: Result<(Vec<DecodedFrameData>, bool)>,
    rest: Seq<bool>,
) -> bool {
    if is_gop_full(order, data) {
        r is Ok && r->Ok_0.0@ == data && !r->Ok_0.1 && rest == last
    } else if holds_end(last) {
        r is Ok && r->Ok_0.0@ == data && r->Ok_0.1 && rest == last.skip(8)
    } else if holds_frame(last) && header_kind(last) == Kind::I && has_iframe(data) {
        exists|next: Result<DecodedFrameData>|
            {
                &&& #[trigger] is_data_read(idct, Kind::I, last.skip(88), next, rest)
                &&& next is Ok ==> r is Ok && r->Ok_0.0@ == data && !r->Ok_0.1
                &&& next is Err ==> r is Err && r->Err_0 == next->Err_0
            }
    } else {
        r is Err && is_frame_refused(idct, last, r->Err_0, rest)
    }
}

/// What reading the frames of a group answers.
pub open spec fn is_gop_read<I: Fn(&Block<i16>) -> Block<i16>>(
    idct: I,
    order: FrameOrder,
    bits: Seq<bool>,
    r: Result<(Vec<DecodedFrameData>, bool)>,
    rest: Seq<bool>,
) -> bool {
    exists|data: Seq<DecodedFrameData>, states: Seq<Seq<bool>>|
        {
            &&& #[trigger] are_frames_read(idct, data, states)
            &&& states.first() == bits
            &&& is_one_gop(order, data)
            &&& is_gop_ended(idct, order, data, states.last(), r, rest)
        }
}

/// Reads the frames of a group.
pub fn read_gop<I: Fn(&Block<i16>) -> Block<i16> + Sync + Send>(
    idct: &I,
    order: FrameOrder,
    source: &mut BitStreamReader,
) -> (r: Result<(Vec<DecodedFrameData>, bool)>)
    requires
        forall|b: Block<i16>| #[trigger] call_requires(*idct, (&b,)),
    ensures
        is_gop_read(*idct, order, old(source)@, r, final(source)@),
        r is Ok ==> is_data_well_formed(r->Ok_0.0@),
{
    let mut data: Vec<DecodedFrameData> = Vec::new();
    let mut seen = false;
    let ghost mut states: Seq<Seq<bool>> = seq![source@];
    loop
        invariant
            forall|b: Block<i16>| #[trigger] call_requires(*idct, (&b,)),
            are_frames_read(*idct, data@, states),
            states.first() == old(source)@,
            states.last() == source@,
            is_one_gop(order, data@),
            is_data_well_formed(data@),
            !is_gop_full(order, data@),
            seen == has_iframe(data@),
        decreases source@.len(),
    {
        let ghost bits = source@;
        let header = GroupOfPicturesHeader::decode(source);
        let ghost behind = source@;
        proof {
            lemma_header_read(bits, header, behind);
        }
        let kind = match header {
            Ok(GroupOfPicturesHeader::Frame { kind, .. }) => kind,
            Ok(GroupOfPicturesHeader::End) => {
                return Ok((data, true));
            },
            Err(e) => {
                return Err(e);
            },
        };
        let read = decode_frame(idct, kind, source);
        assert(is_data_read(*idct, kind, bits.skip(88), read, source@));
        if seen && kind == Kind::I {
            match read {
                Ok(_) => {
                    return Ok((data, false));
                },
                Err(e) => {
                    return Err(e);
                },
            }
        }
        let frame = match read {
            Ok(frame) => frame,
            Err(e) => {
                return Err(e);
            },
        };
        let ghost before = data@;
        data.push(frame);
        if kind == Kind::I {
            seen = true;
        }
        proof {
            let now = data@;
            let states_now = states.push(source@);
            assert forall|i: int| 0 <= i < now.len() implies is_frame_at(
                *idct,
                states_now[i],
                #[trigger] now[i],
                states_now[i + 1],
            ) by {
                if i < before.len() {
                    assert(now[i] == before[i]);
                }
            }
            assert forall|i: int| 0 <= i < now.len() implies #[trigger] continues_gop(
                order,
                now,
                i,
            ) by {
                if i < before.len() {
                    assert(continues_gop(order, before, i));
                    assert(now.take(i) =~= before.take(i));
                } else {
                    assert(now.take(i) =~= before);
                }
            }
            states = states_now;
            if has_iframe(before) {
                let i = choose|i: int|
                    0 <= i < before.len() && (#[trigger] before[i]).kind_of() == Kind::I;
                assert(now[i] == before[i]);
            }
            if kind == Kind::I {
                assert(now[before.len() as int].kind_of() == Kind::I);
            } else if has_iframe(now) {
                let i = choose|i: int|
                    0 <= i < now.len() && (#[trigger] now[i]).kind_of() == Kind::I;
                assert(now[i] == before[i]);
            }
            assert(seen == has_iframe(now));
            assert(are_frames_read(*idct, data@, states));
        }
        if data.len() >= order.full_image_distance {
            return Ok((data, false));
        }
    }
}

/// What reading a group and putting it together answers. `ended` says whether
/// the mark of the end was read.
pub open spec fn is_gop_decoded<
    I: Fn(&Block<i16>) -> Block<i16>,
    R: Fn(Plane, &Block<i16>, &Block<i16>) -> Block<i16>,
>(
    idct: I,
    restore: R,
    order: FrameOrder,
    bits: Seq<bool>,
    r: Result<Vec<DecodedFrame>>,
    rest: Seq<bool>,
    ended: bool,
) -> bool {
    exists|read: Result<(Vec<DecodedFrameData>, bool)>|
        {
            &&& #[trigger] is_gop_read(idct, order, bits, read, rest)
            &&& read is Err ==> r is Err && r->Err_0 == read->Err_0 && !ended
            &&& read is Ok ==> is_gop_reassembled(restore, order, read->Ok_0.0@, r) && ended
                == read->Ok_0.1
        }
}

/// Reads a video group by group.
pub struct GroupOfPicturesReader {
    pub ordering: FrameOrder,
    pub source: BitStreamReader,
    pub decoded_frames: VecDeque<DecodedFrame>,
    pub eof: bool,
}

impl GroupOfPicturesReader {
    /// A reader at the start of the bytes.
    pub fn new(source: Vec<u8>, ordering: FrameOrder) -> (r: Self)
        ensures
            r.ordering == ordering,
            r.source@ == bytes_bits(source@),
            r.decoded_frames@.len() == 0,
            !r.eof,
    {
        GroupOfPicturesReader {
            ordering,
            source: BitStreamReader::new(source),
            decoded_frames: VecDeque::new(),
            eof: false,
        }
    }

    /// Reads a group and puts its frames together.
    fn decode_gop<
        I: Fn(&Block<i16>) -> Block<i16> + Sync + Send,
        R: Fn(Plane, &Block<i16>, &Block<i16>) -> Block<i16> + Sync + Send,
    >(&mut self, idct: &I, restore: &R) -> (r: Result<Vec<DecodedFrame>>)
        requires
            !old(self).eof,
            forall|b: Block<i16>| #[trigger] call_requires(*idct, (&b,)),
            forall|plane: Plane, p: Block<i16>, b: Block<i16>| #[trigger]
                call_requires(*restore, (plane, &p, &b)),
        ensures
            final(self).ordering == old(self).ordering,
            final(self).decoded_frames == old(self).decoded_frames,
            is_gop_decoded(
                *idct,
                *restore,
                old(self).ordering,
                old(self).source@,
                r,
                final(self).source@,
                final(self).eof,
            ),
    {
        let read = read_gop(idct, self.ordering, &mut self.source);
        assert(is_gop_read(*idct, self.ordering, old(self).source@, read, self.source@));
        match read {
            Ok((data, ended)) => {
                if ended {
                    self.eof = true;
                }
                reassemble_gop(restore, self.ordering, data.as_slice())
            },
            Err(e) => Err(e),
        }
    }

    /// Gives the next frame, in the order in which frames are shown. None behind
    /// the last, and where a group is empty. `idct` and `restore` take blocks
    /// back through the transform.
    pub fn next<
        I: Fn(&Block<i16>) -> Block<i16> + Sync + Send,
        R: Fn(Plane, &Block<i16>, &Block<i16>) -> Block<i16> + Sync + Send,
    >(&mut self, idct: &I, restore: &R) -> (r: Option<Result<DecodedFrame>>)
        requires
            forall|b: Block<i16>| #[trigger] call_requires(*idct, (&b,)),
            forall|plane: Plane, p: Block<i16>, b: Block<i16>| #[trigger]
                call_requires(*restore, (plane, &p, &b)),
        ensures
            is_reader_step(*idct, *restore, *old(self), r, *final(self)),
    {
        let queued = self.decoded_frames.pop_front();
        match queued {
            Some(frame) => {
                assert(self.decoded_frames@ =~= old(self).decoded_frames@.skip(1));
                return Some(Ok(frame));
            },
            None => {},
        }
        if self.eof {
            return None;
        }
        let decoded = self.decode_gop(idct, restore);
        assert(is_gop_decoded(
            *idct,
            *restore,
            old(self).ordering,
            old(self).source@,
            decoded,
            self.source@,
            self.eof,
        ));
        let ghost source = self.source;
        let ghost ended = self.eof;
        let ghost answer = decoded;
        match decoded {
            Ok(frames) => {
                let ghost all = frames@;
                let mut waiting = frames;
                while waiting.len() > 0
                    invariant
                        waiting@.len() <= all.len(),
                        waiting@ == all.take(waiting@.len() as int),
                        self.decoded_frames@ == all.skip(waiting@.len() as int),
                        self.ordering == old(self).ordering,
                        self.source == source,
                        self.eof == ended,
                    decreases waiting@.len(),
                {
                    let ghost n = waiting@.len() as int;
                    match waiting.pop() {
                        Some(frame) => {
                            self.decoded_frames.push_front(frame);
                        },
                        None => {},
                    }
                    assert(waiting@ =~= all.take(n - 1));
                    assert(self.decoded_frames@ =~= all.skip(n - 1));
                }
                assert(self.decoded_frames@ =~= all);
                let first = self.decoded_frames.pop_front();
                proof {
                    if all.len() > 0 {
                        assert(self.decoded_frames@ =~= all.skip(1));
                    }
                }
                assert(is_gop_decoded(
                    *idct,
                    *restore,
                    old(self).ordering,
                    old(self).source@,
                    answer,
                    self.source@,
                    self.eof,
                ));
                match first {
                    Some(frame) => Some(Ok(frame)),
                    None => None,
                }
            },
            Err(e) => Some(Err(e)),
        }
    }
}

/// What asking for a frame answers where a group has to be read first: the first
/// of its frames, and the others wait.
pub open spec fn is_next_gop_frame<
    I: Fn(&Block<i16>) -> Block<i16>,
    R: Fn(Plane, &Block<i16>, &Block<i16>) -> Block<i16>,
>(
    idct: I,
    restore: R,
    before: GroupOfPicturesReader,
    r: Option<Result<DecodedFrame>>,
    after: GroupOfPicturesReader,
) -> bool {
    exists|frames: Result<Vec<DecodedFrame>>|
        {
            &&& #[trigger] is_gop_decoded(
                idct,
                restore,
                before.ordering,
                before.source@,
                frames,
                after.source@,
                after.eof,
            )
            &&& frames is Err ==> r is Some && r->0 is Err && r->0->Err_0 == frames->Err_0
                && after.decoded_frames@.len() == 0
            &&& frames is Ok && frames->Ok_0@.len() == 0 ==> r is None
                && after.decoded_frames@.len() == 0
            &&& frames is Ok && frames->Ok_0@.len() > 0 ==> r is Some && r->0 is Ok
                && r->0->Ok_0 == frames->Ok_0@[0] && after.decoded_frames@
                == frames->Ok_0@.skip(1)
        }
}

/// What asking for a frame answers: the first of the frames that wait, or else
/// that of the next group. None behind the mark of the end.
pub open spec fn is_reader_step<
    I: Fn(&Block<i16>) -> Block<i16>,
    R: Fn(Plane, &Block<i16>, &Block<i16>) -> Block<i16>,
>(
    idct: I,
    restore: R,
    before: GroupOfPicturesReader,
    r: Option<Result<DecodedFrame>>,
    after: GroupOfPicturesReader,
) -> bool {
    let queue = before.decoded_frames@;
    &&& after.ordering == before.ordering
    &&& if queue.len() > 0 {
        &&& r is Some && r->0 is Ok && r->0->Ok_0 == queue[0]
        &&& after.decoded_frames@ == queue.skip(1)
        &&& after.source == before.source
        &&& after.eof == before.eof
    } else if before.eof {
        &&& r is None
        &&& after.decoded_frames@ == queue
        &&& after.source == before.source
        &&& after.eof
    } else {
        is_next_gop_frame(idct, restore, before, r, after)
    }
}

/// Frames that are read as one group are no more than a group may have, though at least one
/// may be read, and only one of them stands alone.
pub proof fn law_group_has_one_start(
    order: FrameOrder,
    data: Seq<DecodedFrameData>,
    i: int,
    j: int,
)
    requires
        is_one_gop(order, data),
        0 <= i < j < data.len(),
    ensures
        data.len() <= order.full_image_distance,
        !(data[i].kind_of() == Kind::I && data[j].kind_of() == Kind::I),
{
    assert(continues_gop(order, data, j));
    assert(continues_gop(order, data, data.len() - 1));
    if data[i].kind_of() == Kind::I {
        assert(data.take(j)[i].kind_of() == Kind::I);
    }
}

} // verus!
