//! A video that is written and read comes back.
use vstd::arithmetic::div_mod::{lemma_fundamental_div_mod, lemma_fundamental_div_mod_converse};
use vstd::prelude::*;

use super::coming_back::{
    are_frames_small, is_sound_group, is_steady_back, lemma_joined_len,
};
use super::encode::Transform;
use super::group::{are_gop_chunks, is_gop_written, joined_bits};
use super::header::{end_bits, holds_end};
use super::assemble::is_gop_reassembled;
use super::data::{is_frame_at, DecodedFrameData};
use super::reader::{
    are_frames_read, is_gop_decoded, is_gop_ended, is_gop_read, is_one_gop, is_reader_step,
    GroupOfPicturesReader,
};
use super::round_trip::{gives_all_back, is_frame_back, law_group_comes_back};
use super::writer::{are_gops_written, gathered, groups, is_video_written, next_gop, Gathered};
use super::{law_group_follows_order, DecodedFrame, FrameOrder};
use crate::bits::{lemma_be_bits_len, lemma_padded, padded};
use crate::bitstream::law_value_comes_back;
use crate::block::Block;
use crate::error::Result;
use crate::lossy::frame::prediction::Plane;
use crate::lossy::frame::same::is_steady;
use crate::lossy::Picture;

verus! {

/// The smaller of two numbers.
spec fn least(a: int, b: int) -> int {
    if a < b {
        a
    } else {
        b
    }
}

proof fn lemma_gathered(
    order: FrameOrder,
    gop: Seq<Picture<i16>>,
    coming: Seq<Picture<i16>>,
    pos: int,
)
    requires
        0 <= pos <= order.full_image_distance,
    ensures
        ({
            let n = least(order.full_image_distance - pos, coming.len() as int);
            gathered(order, gop, coming, false, pos) == (Gathered {
                gop: gop + coming.take(n),
                held: None,
                rest: coming.skip(n),
            })
        }),
    decreases order.full_image_distance - pos,
{
    let n = least(order.full_image_distance - pos, coming.len() as int);
    if n > 0 {
        lemma_gathered(order, gop.push(coming[0]), coming.skip(1), pos + 1);
        assert(gop.push(coming[0]) + coming.skip(1).take(n - 1) =~= gop + coming.take(n));
        assert(coming.skip(1).skip(n - 1) =~= coming.skip(n));
    } else {
        assert(gop + coming.take(n) =~= gop);
        assert(coming.skip(n) =~= coming);
    }
}

/// The frames of a video that its group `g` holds.
pub open spec fn group_of(order: FrameOrder, frames: Seq<Picture<i16>>, g: int) -> Seq<
    Picture<i16>,
> {
    let full = order.full_image_distance as int;
    let start = g * full;
    frames.subrange(
        start,
        if start + full < frames.len() {
            start + full
        } else {
            frames.len() as int
        },
    )
}

/// Whether a video is long enough for a group `g`.
pub open spec fn has_group(order: FrameOrder, frames: Seq<Picture<i16>>, g: int) -> bool {
    0 <= g * order.full_image_distance < frames.len()
}

/// Grouping loses no frame, makes up none and keeps the order: every group holds
/// the next frames, as many as a group may have as long as there are so many.
pub proof fn law_groups_keep_all(order: FrameOrder, frames: Seq<Picture<i16>>)
    requires
        order.full_image_distance > 0,
    ensures
        ({
            let gops = groups(order, None, frames);
            let full = order.full_image_distance as int;
            &&& gops.len() * full >= frames.len()
            &&& forall|g: int| 0 <= g < gops.len() ==> #[trigger] has_group(order, frames, g)
            &&& forall|g: int|
                0 <= g < gops.len() ==> #[trigger] gops[g] == group_of(order, frames, g)
        }),
    decreases frames.len(),
{
    let full = order.full_image_distance as int;
    let gops = groups(order, None, frames);
    let n = least(full, frames.len() as int);
    let none = Seq::<Picture<i16>>::empty();
    lemma_gathered(order, none, frames, 0);
    assert(none + frames.take(n) =~= frames.take(n));
    let next = next_gop(order, None, frames);
    if frames.len() == 0 {
        assert(gops =~= Seq::empty());
        assert(gops.len() * full == 0) by (nonlinear_arith)
            requires
                gops.len() == 0,
        ;
    } else {
        let left = frames.skip(n);
        law_groups_keep_all(order, left);
        let others = groups(order, None, left);
        assert(gops == seq![frames.take(n)] + others);
        assert(gops.len() * full == others.len() * full + full) by (nonlinear_arith)
            requires
                gops.len() == others.len() + 1,
        ;
        assert forall|g: int| 0 <= g < gops.len() implies #[trigger] has_group(
            order,
            frames,
            g,
        ) by {
            if g > 0 {
                assert(has_group(order, left, g - 1));
                assert(g * full == (g - 1) * full + full) by (nonlinear_arith);
            } else {
                assert(g * full == 0) by (nonlinear_arith)
                    requires
                        g == 0,
                ;
            }
        }
        assert forall|g: int| 0 <= g < gops.len() implies #[trigger] gops[g] == group_of(
            order,
            frames,
            g,
        ) by {
            if g == 0 {
                assert(gops[0] =~= group_of(order, frames, 0));
            } else {
                assert(gops[g] == others[g - 1]);
                assert(g * full == (g - 1) * full + full) by (nonlinear_arith);
                assert(has_group(order, left, g - 1));
                assert(group_of(order, left, g - 1) =~= group_of(order, frames, g));
            }
        }
    }
}

/// The bytes of the groups of a video.
pub open spec fn are_video_chunks<
    D: Fn(&Block<i16>) -> Block<i16>,
    I: Fn(&Block<i16>) -> Block<i16>,
    C: Fn(Plane, &Block<i16>) -> Block<i16>,
    R: Fn(Plane, &Block<i16>, &Block<i16>) -> Block<i16>,
>(
    transform: Transform<D, I, C, R>,
    order: FrameOrder,
    gops: Seq<Seq<Picture<i16>>>,
    anchors: Seq<Seq<Picture<i16>>>,
    chunks: Seq<Seq<Seq<u8>>>,
) -> bool {
    &&& anchors.len() == gops.len()
    &&& chunks.len() == gops.len()
    &&& forall|g: int|
        0 <= g < gops.len() ==> are_gop_chunks(
            transform,
            order,
            #[trigger] gops[g],
            anchors[g],
            chunks[g],
        )
}

/// The bits of groups, one behind the other.
pub open spec fn groups_bits(chunks: Seq<Seq<Seq<u8>>>) -> Seq<bool>
    decreases chunks.len(),
{
    if chunks.len() == 0 {
        Seq::empty()
    } else {
        groups_bits(chunks.drop_last()) + joined_bits(chunks.last())
    }
}

/// The bits of a video: those of its groups and the mark of the end.
pub open spec fn video_bits(chunks: Seq<Seq<Seq<u8>>>) -> Seq<bool> {
    groups_bits(chunks) + end_bits()
}

/// The bits of groups fill whole bytes.
pub proof fn lemma_groups_bits_len(chunks: Seq<Seq<Seq<u8>>>)
    ensures
        groups_bits(chunks).len() % 8 == 0,
    decreases chunks.len(),
{
    if chunks.len() > 0 {
        lemma_groups_bits_len(chunks.drop_last());
        lemma_joined_len(chunks.last());
    }
}

/// The bits of groups start with those of the first.
pub proof fn lemma_groups_bits_first(chunks: Seq<Seq<Seq<u8>>>)
    requires
        chunks.len() > 0,
    ensures
        groups_bits(chunks) == joined_bits(chunks[0]) + groups_bits(chunks.skip(1)),
    decreases chunks.len(),
{
    let before = chunks.drop_last();
    if chunks.len() == 1 {
        assert(groups_bits(before) =~= Seq::empty());
        assert(chunks.skip(1) =~= Seq::empty());
        assert(groups_bits(chunks) =~= joined_bits(chunks[0]) + groups_bits(chunks.skip(1)));
    } else {
        lemma_groups_bits_first(before);
        assert(chunks.skip(1).drop_last() =~= before.skip(1));
        assert(groups_bits(chunks) =~= joined_bits(chunks[0]) + groups_bits(chunks.skip(1)));
    }
}

/// The mark of the end is a byte.
pub proof fn lemma_end_mark()
    ensures
        end_bits().len() == 8,
        holds_end(end_bits()),
{
    lemma_be_bits_len(1, 8);
    law_value_comes_back(1u8, Seq::empty());
    assert(end_bits() + Seq::<bool>::empty() =~= end_bits());
}

/// A video that was written consists of the bytes of its groups and the mark of
/// the end.
pub proof fn law_video_has_chunks<
    D: Fn(&Block<i16>) -> Block<i16>,
    I: Fn(&Block<i16>) -> Block<i16>,
    C: Fn(Plane, &Block<i16>) -> Block<i16>,
    R: Fn(Plane, &Block<i16>, &Block<i16>) -> Block<i16>,
>(
    transform: Transform<D, I, C, R>,
    order: FrameOrder,
    gops: Seq<Seq<Picture<i16>>>,
    before: Seq<bool>,
    after: Seq<bool>,
)
    requires
        is_video_written(transform, order, gops, before, after),
        before.len() % 8 == 0,
    ensures
        exists|anchors: Seq<Seq<Picture<i16>>>, chunks: Seq<Seq<Seq<u8>>>|
            {
                &&& #[trigger] are_video_chunks(transform, order, gops, anchors, chunks)
                &&& after == before + video_bits(chunks)
            },
{
    let states = choose|states: Seq<Seq<bool>>|
        {
            &&& #[trigger] are_gops_written(transform, order, gops, states)
            &&& states.first() == before
            &&& after == padded(states.last() + end_bits())
        };
    let (anchors, chunks) = lemma_gops_have_chunks(
        transform,
        order,
        gops,
        before,
        states,
        gops.len() as int,
    );
    lemma_groups_bits_len(chunks);
    lemma_end_mark();
    lemma_padded(states.last() + end_bits());
    assert(gops.take(gops.len() as int) =~= gops);
    assert(after =~= before + video_bits(chunks));
    assert(are_video_chunks(transform, order, gops, anchors, chunks));
}

proof fn lemma_gops_have_chunks<
    D: Fn(&Block<i16>) -> Block<i16>,
    I: Fn(&Block<i16>) -> Block<i16>,
    C: Fn(Plane, &Block<i16>) -> Block<i16>,
    R: Fn(Plane, &Block<i16>, &Block<i16>) -> Block<i16>,
>(
    transform: Transform<D, I, C, R>,
    order: FrameOrder,
    gops: Seq<Seq<Picture<i16>>>,
    before: Seq<bool>,
    states: Seq<Seq<bool>>,
    n: int,
) -> (r: (Seq<Seq<Picture<i16>>>, Seq<Seq<Seq<u8>>>))
    requires
        are_gops_written(transform, order, gops, states),
        states.first() == before,
        before.len() % 8 == 0,
        0 <= n <= gops.len(),
    ensures
        are_video_chunks(transform, order, gops.take(n), r.0, r.1),
        states[n] == before + groups_bits(r.1),
    decreases n,
{
    if n == 0 {
        assert(before + groups_bits(Seq::empty()) =~= before);
        (Seq::empty(), Seq::empty())
    } else {
        let (anchors, chunks) = lemma_gops_have_chunks(
            transform,
            order,
            gops,
            before,
            states,
            n - 1,
        );
        let gop = gops[n - 1];
        assert(is_gop_written(transform, order, gop, states[n - 1], states[n]));
        let (seen, bytes) = choose|seen: Seq<Picture<i16>>, bytes: Seq<Seq<u8>>|
            {
                &&& #[trigger] are_gop_chunks(transform, order, gop, seen, bytes)
                &&& states[n] == padded(states[n - 1]) + joined_bits(bytes)
            };
        lemma_groups_bits_len(chunks);
        lemma_padded(states[n - 1]);
        let all = chunks.push(bytes);
        assert(all.drop_last() =~= chunks);
        assert(states[n] =~= before + groups_bits(all));
        assert forall|g: int| 0 <= g < n implies are_gop_chunks(
            transform,
            order,
            #[trigger] gops.take(n)[g],
            anchors.push(seen)[g],
            all[g],
        ) by {
            if g < n - 1 {
                assert(gops.take(n - 1)[g] == gops.take(n)[g]);
            }
        }
        (anchors.push(seen), all)
    }
}

/// Whether a video that was written can be read again: its groups can, and the
/// transform is steady and gives blocks back up to `close`.
pub open spec fn is_sound_video<
    D: Fn(&Block<i16>) -> Block<i16>,
    I: Fn(&Block<i16>) -> Block<i16>,
    C: Fn(Plane, &Block<i16>) -> Block<i16>,
    R: Fn(Plane, &Block<i16>, &Block<i16>) -> Block<i16>,
>(
    transform: Transform<D, I, C, R>,
    order: FrameOrder,
    frames: Seq<Picture<i16>>,
    anchors: Seq<Seq<Picture<i16>>>,
    chunks: Seq<Seq<Seq<u8>>>,
    close: spec_fn(Seq<i16>, Seq<i16>) -> bool,
) -> bool {
    let gops = groups(order, None, frames);
    &&& order.full_image_distance > 0
    &&& forall|g: int| 0 <= g < gops.len() ==> is_sound_group(order, #[trigger] gops[g])
    &&& are_video_chunks(transform, order, gops, anchors, chunks)
    &&& forall|g: int|
        0 <= g < gops.len() ==> are_frames_small(transform, order, #[trigger] gops[g])
    &&& is_steady_back(transform.idct)
    &&& is_steady(transform.restore)
    &&& gives_all_back(transform, close)
}

/// Frame `k` of a video was shown.
pub open spec fn is_shown_back(
    order: FrameOrder,
    frames: Seq<Picture<i16>>,
    k: int,
    shown: DecodedFrame,
    close: spec_fn(Seq<i16>, Seq<i16>) -> bool,
) -> bool {
    &&& shown.kind == order.kind_of(k)
    &&& is_frame_back(frames[k], shown.data@, order.kind_of(k), close)
}

/// Where a reader stands after it gave `k` frames.
spec fn is_reader_at(
    order: FrameOrder,
    frames: Seq<Picture<i16>>,
    chunks: Seq<Seq<Seq<u8>>>,
    k: int,
    reader: GroupOfPicturesReader,
    close: spec_fn(Seq<i16>, Seq<i16>) -> bool,
) -> bool {
    let full = order.full_image_distance as int;
    let g = k / full;
    let idx = k % full;
    let queue = reader.decoded_frames@;
    let len = group_of(order, frames, g).len();
    &&& reader.ordering == order
    &&& if k >= frames.len() {
        queue.len() == 0 && (reader.eof || reader.source@ == end_bits())
    } else if idx == 0 {
        queue.len() == 0 && !reader.eof && reader.source@ == video_bits(chunks.skip(g))
    } else {
        &&& queue.len() == len - idx
        &&& forall|j: int|
            0 <= j < queue.len() ==> is_shown_back(
                order,
                frames,
                k + j,
                #[trigger] queue[j],
                close,
            )
        &&& len == full ==> !reader.eof && reader.source@ == video_bits(chunks.skip(g + 1))
        &&& len < full ==> reader.eof
    }
}

/// The position behind a position.
pub proof fn lemma_next_position(k: int, full: int)
    requires
        0 <= k,
        0 < full,
    ensures
        k == (k / full) * full + k % full,
        0 <= k % full < full,
        0 <= k / full,
        k % full + 1 < full ==> (k + 1) / full == k / full && (k + 1) % full == k % full + 1,
        k % full + 1 == full ==> (k + 1) / full == k / full + 1 && (k + 1) % full == 0,
{
    lemma_fundamental_div_mod(k, full);
    let g = k / full;
    assert(full * g == g * full) by (nonlinear_arith);
    assert(g >= 0) by (nonlinear_arith)
        requires
            k >= 0,
            full > 0,
            g == k / full,
    ;
    if k % full + 1 < full {
        lemma_fundamental_div_mod_converse(k + 1, full, g, k % full + 1);
    } else {
        assert((g + 1) * full == g * full + full) by (nonlinear_arith);
        lemma_fundamental_div_mod_converse(k + 1, full, g + 1, 0);
    }
}

/// The group that a frame belongs to.
pub proof fn lemma_frame_group(order: FrameOrder, frames: Seq<Picture<i16>>, k: int)
    requires
        order.full_image_distance > 0,
        0 <= k < frames.len(),
    ensures
        ({
            let gops = groups(order, None, frames);
            let full = order.full_image_distance as int;
            let g = k / full;
            &&& 0 <= g < gops.len()
            &&& gops[g] == group_of(order, frames, g)
            &&& k % full < gops[g].len() <= full
            &&& gops[g].len() < full ==> g + 1 == gops.len() && g * full + gops[g].len()
                == frames.len()
            &&& forall|i: int| 0 <= i < gops[g].len() ==> #[trigger] gops[g][i] == frames[g * full
                + i]
        }),
{
    let full = order.full_image_distance as int;
    let g = k / full;
    let gops = groups(order, None, frames);
    law_groups_keep_all(order, frames);
    lemma_next_position(k, full);
    assert(g < gops.len()) by (nonlinear_arith)
        requires
            g * full <= k,
            k < frames.len(),
            gops.len() * full >= frames.len(),
            full > 0,
    ;
    assert(has_group(order, frames, g));
    if g + 1 < gops.len() {
        assert(has_group(order, frames, g + 1));
        assert((g + 1) * full == g * full + full) by (nonlinear_arith);
    }
}

/// Behind the groups there is nothing but the mark of the end.
proof fn lemma_end_is_read<
    I: Fn(&Block<i16>) -> Block<i16>,
    R: Fn(Plane, &Block<i16>, &Block<i16>) -> Block<i16>,
>(
    idct: I,
    restore: R,
    order: FrameOrder,
    r: Result<Vec<DecodedFrame>>,
    rest: Seq<bool>,
    ended: bool,
)
    requires
        is_gop_decoded(idct, restore, order, end_bits(), r, rest, ended),
    ensures
        r is Ok,
        r->Ok_0@.len() == 0,
        ended,
{
    lemma_end_mark();
    let read = choose|read: Result<(Vec<DecodedFrameData>, bool)>|
        {
            &&& #[trigger] is_gop_read(idct, order, end_bits(), read, rest)
            &&& read is Err ==> r is Err && r->Err_0 == read->Err_0 && !ended
            &&& read is Ok ==> is_gop_reassembled(restore, order, read->Ok_0.0@, r) && ended
                == read->Ok_0.1
        };
    let (data, states) = choose|data: Seq<DecodedFrameData>, states: Seq<Seq<bool>>|
        {
            &&& #[trigger] are_frames_read(idct, data, states)
            &&& states.first() == end_bits()
            &&& is_one_gop(order, data)
            &&& is_gop_ended(idct, order, data, states.last(), read, rest)
        };
    if data.len() > 0 {
        assert(is_frame_at(idct, states[0], data[0], states[1]));
    }
}

/// A reader that has to read a group gives its first frame.
proof fn lemma_group_step<
    D: Fn(&Block<i16>) -> Block<i16>,
    I: Fn(&Block<i16>) -> Block<i16>,
    C: Fn(Plane, &Block<i16>) -> Block<i16>,
    R: Fn(Plane, &Block<i16>, &Block<i16>) -> Block<i16>,
>(
    transform: Transform<D, I, C, R>,
    order: FrameOrder,
    frames: Seq<Picture<i16>>,
    anchors: Seq<Seq<Picture<i16>>>,
    chunks: Seq<Seq<Seq<u8>>>,
    close: spec_fn(Seq<i16>, Seq<i16>) -> bool,
    k: int,
    before: GroupOfPicturesReader,
    r: Option<Result<DecodedFrame>>,
    after: GroupOfPicturesReader,
)
    requires
        is_sound_video(transform, order, frames, anchors, chunks, close),
        0 <= k < frames.len(),
        k % (order.full_image_distance as int) == 0,
        is_reader_at(order, frames, chunks, k, before, close),
        is_reader_step(transform.idct, transform.restore, before, r, after),
    ensures
        r is Some,
        r->0 is Ok,
        is_shown_back(order, frames, k, r->0->Ok_0, close),
        is_reader_at(order, frames, chunks, k + 1, after, close),
{
    let full = order.full_image_distance as int;
    let g = k / full;
    let gops = groups(order, None, frames);
    lemma_frame_group(order, frames, k);
    lemma_next_position(k, full);
    let gop = gops[g];
    assert(is_sound_group(order, gop));
    let rest = video_bits(chunks.skip(g + 1));
    lemma_groups_bits_first(chunks.skip(g));
    assert(chunks.skip(g).skip(1) =~= chunks.skip(g + 1));
    assert(video_bits(chunks.skip(g)) =~= joined_bits(chunks[g]) + rest);
    lemma_groups_bits_len(chunks.skip(g + 1));
    lemma_end_mark();
    if gop.len() < full {
        assert(chunks.skip(g + 1) =~= Seq::empty());
        assert(rest =~= end_bits());
    }
    let shown = choose|shown: Result<Vec<DecodedFrame>>|
        {
            &&& #[trigger] is_gop_decoded(
                transform.idct,
                transform.restore,
                before.ordering,
                before.source@,
                shown,
                after.source@,
                after.eof,
            )
            &&& shown is Err ==> r is Some && r->0 is Err && r->0->Err_0 == shown->Err_0
                && after.decoded_frames@.len() == 0
            &&& shown is Ok && shown->Ok_0@.len() == 0 ==> r is None
                && after.decoded_frames@.len() == 0
            &&& shown is Ok && shown->Ok_0@.len() > 0 ==> r is Some && r->0 is Ok
                && r->0->Ok_0 == shown->Ok_0@[0] && after.decoded_frames@
                == shown->Ok_0@.skip(1)
        };
    law_group_comes_back(
        transform,
        order,
        gop,
        anchors[g],
        chunks[g],
        rest,
        shown,
        after.source@,
        after.eof,
        close,
    );
    let all = shown->Ok_0@;
    assert forall|i: int| 0 <= i < all.len() implies is_shown_back(
        order,
        frames,
        k + i,
        #[trigger] all[i],
        close,
    ) by {
        law_group_follows_order(order, g, i);
        assert(gop[i] == frames[k + i]);
    }
    let queue = after.decoded_frames@;
    assert forall|j: int| 0 <= j < queue.len() implies is_shown_back(
        order,
        frames,
        k + 1 + j,
        #[trigger] queue[j],
        close,
    ) by {
        assert(queue[j] == all[j + 1]);
    }
    assert(is_shown_back(order, frames, k + 0, all[0], close));
    if k + 1 >= frames.len() {
        if gop.len() == full {
            assert(g + 1 == gops.len()) by {
                if g + 1 < gops.len() {
                    law_groups_keep_all(order, frames);
                    assert(has_group(order, frames, g + 1));
                    assert((g + 1) * full == g * full + full) by (nonlinear_arith);
                }
            }
            assert(chunks.skip(g + 1) =~= Seq::empty());
            assert(rest =~= end_bits());
        }
    }
}

/// A reader gives the next frame, or none behind the last.
proof fn lemma_reader_step<
    D: Fn(&Block<i16>) -> Block<i16>,
    I: Fn(&Block<i16>) -> Block<i16>,
    C: Fn(Plane, &Block<i16>) -> Block<i16>,
    R: Fn(Plane, &Block<i16>, &Block<i16>) -> Block<i16>,
>(
    transform: Transform<D, I, C, R>,
    order: FrameOrder,
    frames: Seq<Picture<i16>>,
    anchors: Seq<Seq<Picture<i16>>>,
    chunks: Seq<Seq<Seq<u8>>>,
    close: spec_fn(Seq<i16>, Seq<i16>) -> bool,
    k: int,
    before: GroupOfPicturesReader,
    r: Option<Result<DecodedFrame>>,
    after: GroupOfPicturesReader,
)
    requires
        is_sound_video(transform, order, frames, anchors, chunks, close),
        0 <= k,
        is_reader_at(order, frames, chunks, k, before, close),
        is_reader_step(transform.idct, transform.restore, before, r, after),
    ensures
        k < frames.len() ==> r is Some && r->0 is Ok && is_shown_back(
            order,
            frames,
            k,
            r->0->Ok_0,
            close,
        ),
        k >= frames.len() ==> r is None,
        is_reader_at(order, frames, chunks, k + 1, after, close),
{
    let full = order.full_image_distance as int;
    let g = k / full;
    let idx = k % full;
    lemma_next_position(k, full);
    if k >= frames.len() {
        if !before.eof {
            let shown = choose|shown: Result<Vec<DecodedFrame>>|
                {
                    &&& #[trigger] is_gop_decoded(
                        transform.idct,
                        transform.restore,
                        before.ordering,
                        before.source@,
                        shown,
                        after.source@,
                        after.eof,
                    )
                    &&& shown is Err ==> r is Some && r->0 is Err && r->0->Err_0 == shown->Err_0
                        && after.decoded_frames@.len() == 0
                    &&& shown is Ok && shown->Ok_0@.len() == 0 ==> r is None
                        && after.decoded_frames@.len() == 0
                    &&& shown is Ok && shown->Ok_0@.len() > 0 ==> r is Some && r->0 is Ok
                        && r->0->Ok_0 == shown->Ok_0@[0] && after.decoded_frames@
                        == shown->Ok_0@.skip(1)
                };
            lemma_end_is_read(
                transform.idct,
                transform.restore,
                order,
                shown,
                after.source@,
                after.eof,
            );
        }
    } else if idx == 0 {
        lemma_group_step(
            transform,
            order,
            frames,
            anchors,
            chunks,
            close,
            k,
            before,
            r,
            after,
        );
    } else {
        lemma_frame_group(order, frames, k);
        let gops = groups(order, None, frames);
        let gop = gops[g];
        let queue = before.decoded_frames@;
        let left = after.decoded_frames@;
        assert(is_shown_back(order, frames, k + 0, queue[0], close));
        assert forall|j: int| 0 <= j < left.len() implies is_shown_back(
            order,
            frames,
            k + 1 + j,
            #[trigger] left[j],
            close,
        ) by {
            assert(left[j] == queue[j + 1]);
            assert(is_shown_back(order, frames, k + (j + 1), queue[j + 1], close));
        }
        if k + 1 >= frames.len() && gop.len() == full {
            assert(g + 1 == gops.len()) by {
                if g + 1 < gops.len() {
                    law_groups_keep_all(order, frames);
                    assert(has_group(order, frames, g + 1));
                    assert((g + 1) * full == g * full + full) by (nonlinear_arith);
                }
            }
            assert(chunks.skip(g + 1) =~= Seq::empty());
            assert(video_bits(chunks.skip(g + 1)) =~= end_bits());
        }
    }
}

/// A reader went through `readers` while it was asked for frames.
pub open spec fn is_reader_run<
    I: Fn(&Block<i16>) -> Block<i16>,
    R: Fn(Plane, &Block<i16>, &Block<i16>) -> Block<i16>,
>(
    idct: I,
    restore: R,
    readers: Seq<GroupOfPicturesReader>,
    answers: Seq<Option<Result<DecodedFrame>>>,
) -> bool {
    &&& readers.len() == answers.len() + 1
    &&& forall|k: int|
        0 <= k < answers.len() ==> is_reader_step(
            idct,
            restore,
            readers[k],
            #[trigger] answers[k],
            readers[k + 1],
        )
}

proof fn lemma_reader_run<
    D: Fn(&Block<i16>) -> Block<i16>,
    I: Fn(&Block<i16>) -> Block<i16>,
    C: Fn(Plane, &Block<i16>) -> Block<i16>,
    R: Fn(Plane, &Block<i16>, &Block<i16>) -> Block<i16>,
>(
    transform: Transform<D, I, C, R>,
    order: FrameOrder,
    frames: Seq<Picture<i16>>,
    anchors: Seq<Seq<Picture<i16>>>,
    chunks: Seq<Seq<Seq<u8>>>,
    close: spec_fn(Seq<i16>, Seq<i16>) -> bool,
    readers: Seq<GroupOfPicturesReader>,
    answers: Seq<Option<Result<DecodedFrame>>>,
    k: int,
)
    requires
        is_sound_video(transform, order, frames, anchors, chunks, close),
        readers.len() > 0,
        readers[0].ordering == order,
        readers[0].source@ == video_bits(chunks),
        readers[0].decoded_frames@.len() == 0,
        !readers[0].eof,
        is_reader_run(transform.idct, transform.restore, readers, answers),
        0 <= k <= answers.len(),
    ensures
        is_reader_at(order, frames, chunks, k, readers[k], close),
    decreases k,
{
    let full = order.full_image_distance as int;
    if k == 0 {
        lemma_fundamental_div_mod_converse(0, full, 0, 0);
        assert(chunks.skip(0) =~= chunks);
        if frames.len() == 0 {
            law_groups_keep_all(order, frames);
            if chunks.len() > 0 {
                assert(has_group(order, frames, 0));
            }
            assert(video_bits(chunks) =~= end_bits());
        }
    } else {
        lemma_reader_run(
            transform,
            order,
            frames,
            anchors,
            chunks,
            close,
            readers,
            answers,
            k - 1,
        );
        assert(is_reader_step(
            transform.idct,
            transform.restore,
            readers[k - 1],
            answers[k - 1],
            readers[k],
        ));
        lemma_reader_step(
            transform,
            order,
            frames,
            anchors,
            chunks,
            close,
            k - 1,
            readers[k - 1],
            answers[k - 1],
            readers[k],
        );
    }
}

/// A video that was written is read back: asked again and again, a reader gives
/// every frame in its place, predicted as its position says and block by block
/// as close as the transform gives back single blocks, and then nothing.
pub proof fn law_video_comes_back<
    D: Fn(&Block<i16>) -> Block<i16>,
    I: Fn(&Block<i16>) -> Block<i16>,
    C: Fn(Plane, &Block<i16>) -> Block<i16>,
    R: Fn(Plane, &Block<i16>, &Block<i16>) -> Block<i16>,
>(
    transform: Transform<D, I, C, R>,
    order: FrameOrder,
    frames: Seq<Picture<i16>>,
    anchors: Seq<Seq<Picture<i16>>>,
    chunks: Seq<Seq<Seq<u8>>>,
    close: spec_fn(Seq<i16>, Seq<i16>) -> bool,
    readers: Seq<GroupOfPicturesReader>,
    answers: Seq<Option<Result<DecodedFrame>>>,
)
    requires
        is_sound_video(transform, order, frames, anchors, chunks, close),
        readers.len() > 0,
        readers[0].ordering == order,
        readers[0].source@ == video_bits(chunks),
        readers[0].decoded_frames@.len() == 0,
        !readers[0].eof,
        is_reader_run(transform.idct, transform.restore, readers, answers),
    ensures
        forall|k: int|
            0 <= k < answers.len() && k < frames.len() ==> (#[trigger] answers[k]) is Some
                && answers[k]->0 is Ok && is_shown_back(
                order,
                frames,
                k,
                answers[k]->0->Ok_0,
                close,
            ),
        forall|k: int| frames.len() <= k < answers.len() ==> (#[trigger] answers[k]) is None,
{
    assert forall|k: int| 0 <= k < answers.len() implies {
        &&& k < frames.len() ==> (#[trigger] answers[k]) is Some && answers[k]->0 is Ok
            && is_shown_back(order, frames, k, answers[k]->0->Ok_0, close)
        &&& k >= frames.len() ==> answers[k] is None
    } by {
        lemma_reader_run(
            transform,
            order,
            frames,
            anchors,
            chunks,
            close,
            readers,
            answers,
            k,
        );
        assert(is_reader_step(
            transform.idct,
            transform.restore,
            readers[k],
            answers[k],
            readers[k + 1],
        ));
        lemma_reader_step(
            transform,
            order,
            frames,
            anchors,
            chunks,
            close,
            k,
            readers[k],
            answers[k],
            readers[k + 1],
        );
    }
}

/// Frame `k` of a video stands in group `k / n` at place `k % n`, where groups have `n` frames.
pub proof fn law_frame_is_in_its_group(order: FrameOrder, frames: Seq<Picture<i16>>, k: int)
    requires
        order.full_image_distance > 0,
        0 <= k < frames.len(),
    ensures
        ({
            let gops = groups(order, None, frames);
            let n = order.full_image_distance as int;
            &&& 0 <= k / n < gops.len()
            &&& 0 <= k % n < gops[k / n].len() <= n
            &&& gops[k / n][k % n] == frames[k]
        }),
{
    let gops = groups(order, None, frames);
    let n = order.full_image_distance as int;
    law_groups_keep_all(order, frames);
    crate::numeric::lemma_place_parts(k, n);
    let g = k / n;
    assert(g < gops.len()) by (nonlinear_arith)
        requires
            k == g * n + k % n,
            0 <= k % n,
            k < frames.len() <= gops.len() * n,
            n > 0,
    ;
    assert(gops[g] == group_of(order, frames, g));
}

} // verus!
