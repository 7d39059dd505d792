//! What a reader shows that is asked for frame after frame.
use vstd::prelude::*;

use super::data::{header_kind, is_data_read, DecodedFrameData};
use super::frames_reader::{
    are_silent_steps, is_anchor_ready, is_call, is_end_taken, is_flushed, is_frame_taken,
    is_shown, is_silent_step, is_step, only_bits_went, ReaderState,
};
use super::header::{holds_end, holds_frame};
use super::DecodedFrame;
use crate::block::Block;
use crate::error::{Error, Result};
use crate::lossy::frame::assembly::is_assembled;
use crate::lossy::frame::prediction::Plane;
use crate::lossy::frame::Kind;
use crate::lossy::Picture;

verus! {

/// A reader went through `states` while it was asked for frame after frame, and
/// answered each time.
pub open spec fn is_calls_run<
    I: Fn(&Block<i16>) -> Block<i16>,
    R: Fn(Plane, &Block<i16>, &Block<i16>) -> Block<i16>,
>(
    idct: I,
    restore: R,
    states: Seq<ReaderState>,
    results: Seq<Option<Result<DecodedFrame>>>,
) -> bool {
    &&& states.len() == results.len() + 1
    &&& forall|i: int|
        0 <= i < results.len() ==> is_call(
            idct,
            restore,
            states[i],
            #[trigger] results[i],
            states[i + 1],
        )
}

/// A reader with more frames before those that are ready.
pub open spec fn with_shown(shown: Seq<(Kind, Picture<i16>)>, state: ReaderState) -> ReaderState {
    ReaderState { ready: shown + state.ready, ..state }
}

/// What reading what comes next does is the same, whatever was shown before.
proof fn lemma_step_with_shown<
    I: Fn(&Block<i16>) -> Block<i16>,
    R: Fn(Plane, &Block<i16>, &Block<i16>) -> Block<i16>,
>(
    idct: I,
    restore: R,
    shown: Seq<(Kind, Picture<i16>)>,
    before: ReaderState,
    r: Result<bool>,
    after: ReaderState,
)
    requires
        is_step(idct, restore, before, r, after),
    ensures
        is_step(idct, restore, with_shown(shown, before), r, with_shown(shown, after)),
{
    let a = with_shown(shown, before);
    let b = with_shown(shown, after);
    if holds_end(before.bits) {
        let more = choose|more: Seq<(Kind, Picture<i16>)>|
            #[trigger] is_flushed(restore, before.anchor, before.anchor, before.pending, more)
                && after.ready == before.ready + more;
        assert(is_flushed(restore, a.anchor, a.anchor, a.pending, more));
        assert(b.ready =~= a.ready + more);
        assert(is_end_taken(restore, a, r, b));
    } else if holds_frame(before.bits) {
        let data = choose|data: Result<DecodedFrameData>|
            {
                &&& #[trigger] is_data_read(
                    idct,
                    header_kind(before.bits),
                    before.bits.skip(88),
                    data,
                    after.bits,
                )
                &&& data is Err ==> r is Err && r->Err_0 == data->Err_0 && only_bits_went(
                    before,
                    after,
                )
                &&& data is Ok ==> is_frame_taken(restore, before, data->Ok_0, r, after)
            };
        if data is Ok {
            match data->Ok_0 {
                DecodedFrameData::IFrame(frame) => {
                    lemma_anchor_with_shown(restore, shown, before, Kind::I, frame@, after);
                },
                DecodedFrameData::PFrame(macro_blocks) => {
                    if let Some(backward) = before.anchor {
                        let frame = choose|frame: Picture<i16>|
                            {
                                &&& r == Ok::<bool, Error>(true)
                                &&& #[trigger] is_assembled(
                                    restore,
                                    None,
                                    backward,
                                    macro_blocks@,
                                    frame,
                                )
                                &&& is_anchor_ready(restore, before, Kind::P, frame, after)
                            };
                        lemma_anchor_with_shown(restore, shown, before, Kind::P, frame, after);
                        assert(is_assembled(restore, None, backward, macro_blocks@, frame));
                    }
                },
                DecodedFrameData::BFrame(_) => {},
            }
            assert(is_frame_taken(restore, a, data->Ok_0, r, b));
        }
        assert(is_data_read(idct, header_kind(a.bits), a.bits.skip(88), data, b.bits));
    }
}

proof fn lemma_anchor_with_shown<R: Fn(Plane, &Block<i16>, &Block<i16>) -> Block<i16>>(
    restore: R,
    shown: Seq<(Kind, Picture<i16>)>,
    before: ReaderState,
    kind: Kind,
    anchor: Picture<i16>,
    after: ReaderState,
)
    requires
        is_anchor_ready(restore, before, kind, anchor, after),
    ensures
        is_anchor_ready(
            restore,
            with_shown(shown, before),
            kind,
            anchor,
            with_shown(shown, after),
        ),
{
    let a = with_shown(shown, before);
    let b = with_shown(shown, after);
    let more = choose|more: Seq<(Kind, Picture<i16>)>|
        {
            &&& #[trigger] is_flushed(
                restore,
                Some(anchor),
                before.anchor,
                before.pending,
                more,
            )
            &&& after.ready == before.ready + more + seq![(kind, anchor)]
        };
    assert(is_flushed(restore, Some(anchor), a.anchor, a.pending, more));
    assert(b.ready =~= a.ready + more + seq![(kind, anchor)]);
}

/// Only the mark of the end is no frame, and behind it nothing is read.
proof fn lemma_end_found<
    I: Fn(&Block<i16>) -> Block<i16>,
    R: Fn(Plane, &Block<i16>, &Block<i16>) -> Block<i16>,
>(idct: I, restore: R, before: ReaderState, after: ReaderState)
    requires
        is_step(idct, restore, before, Ok(false), after),
    ensures
        after.eof,
{
}

/// How the frames of a stream are found: `at(k, s)` holds where `k` frames were
/// taken, all `n` of them are found and then the mark of the end, and `nice(i, f)`
/// holds of the frame that is ready at place `i`.
pub open spec fn finds_all<
    I: Fn(&Block<i16>) -> Block<i16>,
    R: Fn(Plane, &Block<i16>, &Block<i16>) -> Block<i16>,
>(
    idct: I,
    restore: R,
    n: int,
    at: spec_fn(int, ReaderState) -> bool,
    nice: spec_fn(int, (Kind, Picture<i16>)) -> bool,
) -> bool {
    &&& forall|k: int, s: ReaderState| #[trigger]
        at(k, s) && 0 <= k <= n ==> !s.eof && s.ready.len() <= n && are_nice(nice, s.ready)
    &&& forall|k: int, s: ReaderState, r: Result<bool>, t: ReaderState|
        0 <= k < n && #[trigger] at(k, s) && #[trigger] is_step(idct, restore, s, r, t) ==> r
            == Ok::<bool, Error>(true) && at(k + 1, t)
    &&& forall|s: ReaderState, r: Result<bool>, t: ReaderState|
        at(n, s) && #[trigger] is_step(idct, restore, s, r, t) ==> r == Ok::<bool, Error>(false)
            && t.ready.len() == n && are_nice(nice, t.ready)
}

/// All frames are as their places say.
pub open spec fn are_nice(
    nice: spec_fn(int, (Kind, Picture<i16>)) -> bool,
    frames: Seq<(Kind, Picture<i16>)>,
) -> bool {
    forall|i: int| 0 <= i < frames.len() ==> nice(i, #[trigger] frames[i])
}

/// The answer to call `i`: a frame as its place says, or none behind the last.
pub open spec fn is_answer(
    n: int,
    nice: spec_fn(int, (Kind, Picture<i16>)) -> bool,
    i: int,
    result: Option<Result<DecodedFrame>>,
) -> bool {
    if i < n {
        result matches Some(Ok(frame)) && nice(i, frame@)
    } else {
        result is None
    }
}

/// Where a reader stands that showed some frames already.
spec fn is_standing(
    n: int,
    at: spec_fn(int, ReaderState) -> bool,
    nice: spec_fn(int, (Kind, Picture<i16>)) -> bool,
    k: int,
    s: ReaderState,
) -> bool {
    ||| 0 <= k <= n && at(k, s)
    ||| k == n + 1 && s.eof && s.ready.len() == n && are_nice(nice, s.ready)
}

/// Frames that were read without one becoming ready.
proof fn lemma_silent<
    I: Fn(&Block<i16>) -> Block<i16>,
    R: Fn(Plane, &Block<i16>, &Block<i16>) -> Block<i16>,
>(
    idct: I,
    restore: R,
    n: int,
    at: spec_fn(int, ReaderState) -> bool,
    nice: spec_fn(int, (Kind, Picture<i16>)) -> bool,
    shown: Seq<(Kind, Picture<i16>)>,
    states: Seq<ReaderState>,
    k: int,
    j: int,
)
    requires
        finds_all(idct, restore, n, at, nice),
        are_silent_steps(idct, restore, states),
        0 <= k <= n,
        at(k, with_shown(shown, states[0])),
        0 <= j < states.len(),
    ensures
        k + j <= n,
        at(k + j, with_shown(shown, states[j])),
    decreases j,
{
    if j > 0 {
        lemma_silent(idct, restore, n, at, nice, shown, states, k, j - 1);
        assert(is_silent_step(idct, restore, states, j - 1));
        lemma_step_with_shown(
            idct,
            restore,
            shown,
            states[j - 1],
            Ok(true),
            states[j],
        );
        assert(at(k + j - 1, with_shown(shown, states[j - 1])));
    }
}

/// One call more: what is shown, and where the reader stands then.
proof fn lemma_call<
    I: Fn(&Block<i16>) -> Block<i16>,
    R: Fn(Plane, &Block<i16>, &Block<i16>) -> Block<i16>,
>(
    idct: I,
    restore: R,
    n: int,
    at: spec_fn(int, ReaderState) -> bool,
    nice: spec_fn(int, (Kind, Picture<i16>)) -> bool,
    shown: Seq<(Kind, Picture<i16>)>,
    k: int,
    before: ReaderState,
    result: Option<Result<DecodedFrame>>,
    after: ReaderState,
) -> (r: (int, Seq<(Kind, Picture<i16>)>))
    requires
        finds_all(idct, restore, n, at, nice),
        is_call(idct, restore, before, result, after),
        is_standing(n, at, nice, k, with_shown(shown, before)),
        shown.len() <= n,
    ensures
        is_standing(n, at, nice, r.0, with_shown(r.1, after)),
        shown.len() < n ==> r.1.len() == shown.len() + 1,
        shown.len() == n ==> r.1 == shown,
        is_answer(n, nice, shown.len() as int, result),
{
    let s = with_shown(shown, before);
    if before.ready.len() > 0 || before.eof {
        lemma_shown(n, at, nice, shown, k, before, result, after)
    } else {
        let (states, read, reached) = choose|
            states: Seq<ReaderState>,
            read: Result<bool>,
            reached: ReaderState,
        |
            {
                &&& #[trigger] are_silent_steps(idct, restore, states)
                &&& states.first() == before
                &&& #[trigger] is_step(idct, restore, states.last(), read, reached)
                &&& read is Err ==> result is Some && result->0 is Err && result->0->Err_0
                    == read->Err_0 && after == reached
                &&& read is Ok ==> is_shown(reached, result, after) && (read->Ok_0
                    ==> reached.ready.len() > 0)
            };
        let last = states.len() - 1;
        assert(at(k, s));
        lemma_silent(idct, restore, n, at, nice, shown, states, k, last);
        lemma_step_with_shown(idct, restore, shown, states[last], read, reached);
        let there = with_shown(shown, states[last]);
        let then = with_shown(shown, reached);
        assert(at(k + last, there));
        assert(is_step(idct, restore, there, read, then));
        if k + last == n {
            assert(at(n, there));
            lemma_end_found(idct, restore, there, then);
        }
        lemma_shown(n, at, nice, shown, k + last + 1, reached, result, after)
    }
}

/// A frame that is ready is shown, or none where there is none.
proof fn lemma_shown(
    n: int,
    at: spec_fn(int, ReaderState) -> bool,
    nice: spec_fn(int, (Kind, Picture<i16>)) -> bool,
    shown: Seq<(Kind, Picture<i16>)>,
    k: int,
    before: ReaderState,
    result: Option<Result<DecodedFrame>>,
    after: ReaderState,
) -> (r: (int, Seq<(Kind, Picture<i16>)>))
    requires
        is_standing(n, at, nice, k, with_shown(shown, before)),
        with_shown(shown, before).ready.len() <= n,
        are_nice(nice, with_shown(shown, before).ready),
        is_shown(before, result, after),
        before.ready.len() > 0 || (k == n + 1 && before.eof),
        shown.len() <= n,
    ensures
        is_standing(n, at, nice, r.0, with_shown(r.1, after)),
        shown.len() < n ==> r.1.len() == shown.len() + 1,
        shown.len() == n ==> r.1 == shown,
        is_answer(n, nice, shown.len() as int, result),
{
    let s = with_shown(shown, before);
    if before.ready.len() > 0 {
        let now = shown.push(before.ready[0]);
        assert(now + before.ready.skip(1) =~= s.ready);
        assert(with_shown(now, after) == s);
        assert(s.ready[shown.len() as int] == before.ready[0]);
        (k, now)
    } else {
        assert(s.ready =~= shown);
        (k, shown)
    }
}

/// The reader after `m` calls.
proof fn lemma_calls<
    I: Fn(&Block<i16>) -> Block<i16>,
    R: Fn(Plane, &Block<i16>, &Block<i16>) -> Block<i16>,
>(
    idct: I,
    restore: R,
    n: int,
    at: spec_fn(int, ReaderState) -> bool,
    nice: spec_fn(int, (Kind, Picture<i16>)) -> bool,
    states: Seq<ReaderState>,
    results: Seq<Option<Result<DecodedFrame>>>,
    m: int,
) -> (r: (int, Seq<(Kind, Picture<i16>)>))
    requires
        0 <= n,
        finds_all(idct, restore, n, at, nice),
        is_calls_run(idct, restore, states, results),
        at(0, states[0]),
        states[0].ready.len() == 0,
        0 <= m <= results.len(),
    ensures
        is_standing(n, at, nice, r.0, with_shown(r.1, states[m])),
        r.1.len() == if m < n {
            m
        } else {
            n
        },
        forall|i: int| 0 <= i < m ==> is_answer(n, nice, i, #[trigger] results[i]),
    decreases m,
{
    if m == 0 {
        let none = Seq::<(Kind, Picture<i16>)>::empty();
        assert(none + states[0].ready =~= states[0].ready);
        assert(with_shown(none, states[0]) == states[0]);
        (0, none)
    } else {
        let (k, shown) = lemma_calls(
            idct,
            restore,
            n,
            at,
            nice,
            states,
            results,
            m - 1,
        );
        assert(is_call(idct, restore, states[m - 1], results[m - 1], states[m]));
        lemma_call(
            idct,
            restore,
            n,
            at,
            nice,
            shown,
            k,
            states[m - 1],
            results[m - 1],
            states[m],
        )
    }
}

/// A reader that finds all frames of a stream shows them, call by call, in their
/// order, and behind the last one none.
pub proof fn law_calls_show_all<
    I: Fn(&Block<i16>) -> Block<i16>,
    R: Fn(Plane, &Block<i16>, &Block<i16>) -> Block<i16>,
>(
    idct: I,
    restore: R,
    n: int,
    at: spec_fn(int, ReaderState) -> bool,
    nice: spec_fn(int, (Kind, Picture<i16>)) -> bool,
    states: Seq<ReaderState>,
    results: Seq<Option<Result<DecodedFrame>>>,
)
    requires
        0 <= n,
        finds_all(idct, restore, n, at, nice),
        is_calls_run(idct, restore, states, results),
        at(0, states[0]),
        states[0].ready.len() == 0,
    ensures
        forall|i: int| 0 <= i < results.len() ==> is_answer(n, nice, i, #[trigger] results[i]),
{
    let m = results.len() as int;
    let last = lemma_calls(idct, restore, n, at, nice, states, results, m);
}

} // verus!
