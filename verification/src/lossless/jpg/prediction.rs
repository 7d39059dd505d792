//! How a sample is predicted from its neighbours, and what a stream of
//! residuals stands for.
//!
//! The samples of an image form one sequence, line after line, without the
//! gaps that a stride may leave. `line` is the number of samples of a line and
//! `depth` the number of channels, so that the sample to the left of place `t`
//! is at `t - depth` and the one above it at `t - line`.
use vstd::prelude::*;

use crate::bits::{leading_zeros, lemma_leading_zeros_bounds};
use crate::bitstream::last_zeros;
use crate::rice::depth8::low16;
use crate::rice::{
    activity, behind_stop, fold, is_rice_parameter, is_rice_settled, law_rice_comes_back,
    left_behind_rice, rice_bits, rice_number, unfold,
};

verus! {

/// The sample to the left, zero at the start of a line.
pub open spec fn left(p: Seq<int>, line: int, depth: int, t: int) -> int {
    if t % line >= depth {
        p[t - depth]
    } else {
        0
    }
}

/// The sample above, zero in the first line.
pub open spec fn above(p: Seq<int>, line: int, t: int) -> int {
    if t >= line {
        p[t - line]
    } else {
        0
    }
}

/// The sample above to the left.
pub open spec fn above_left(p: Seq<int>, line: int, depth: int, t: int) -> int {
    if t >= line && t % line >= depth {
        p[t - line - depth]
    } else {
        0
    }
}

/// The sample above to the right, zero at the end of a line.
pub open spec fn above_right(p: Seq<int>, line: int, depth: int, t: int) -> int {
    if t >= line && t % line + depth < line {
        p[t - line + depth]
    } else {
        0
    }
}

/// The median edge detector: the neighbour across an edge, or the plane
/// through the three neighbours.
pub open spec fn median(a: int, c: int, b: int) -> int {
    let low = if a <= b {
        a
    } else {
        b
    };
    let high = if a <= b {
        b
    } else {
        a
    };
    if c >= high {
        low
    } else if c <= low {
        high
    } else {
        a + b - c
    }
}

/// What the sample at `t` is expected to be.
pub open spec fn prediction(p: Seq<int>, line: int, depth: int, t: int) -> int {
    median(left(p, line, depth, t), above_left(p, line, depth, t), above(p, line, t))
}

/// The number of low bits for the residual at `t`.
pub open spec fn low_bits(p: Seq<int>, line: int, depth: int, t: int) -> nat {
    choose|k: nat|
        #[trigger] is_rice_parameter(
            k,
            activity(
                left(p, line, depth, t),
                above_left(p, line, depth, t),
                above(p, line, t),
                above_right(p, line, depth, t),
            ),
        )
}

/// The code of the sample at `t`.
pub open spec fn sample_bits(p: Seq<int>, line: int, depth: int, t: int) -> Seq<bool> {
    rice_bits(low_bits(p, line, depth, t), fold(p[t] - prediction(p, line, depth, t)))
}

/// The codes of the first `t` samples.
pub open spec fn encoded(p: Seq<int>, line: int, depth: int, t: int) -> Seq<bool>
    decreases t,
{
    if t <= 0 {
        Seq::empty()
    } else {
        encoded(p, line, depth, t - 1) + sample_bits(p, line, depth, t - 1)
    }
}

/// The sample that a prediction and a Rice number stand for, in the range up
/// to `max`: 8-bit samples are clamped to their range, 16-bit samples keep
/// their low bits.
pub open spec fn settle(max: int, prediction: int, n: nat) -> int {
    if max == 255 {
        let x = prediction + low16(unfold(n));
        if x < 0 {
            0
        } else if x > 255 {
            255
        } else {
            x
        }
    } else {
        (prediction + unfold(n)) % 0x1_0000
    }
}

/// How far the reading of a stream came.
pub enum Status {
    /// What is left of the stream is known, and can be read on.
    Open,
    /// The stream ended inside the low bits of the last code, and what the
    /// reader has left is not settled.
    Unsettled,
    /// The stream ended before the one of the next code.
    Ended,
}

/// What the reading of a stream gave.
pub struct Decoded {
    pub samples: Seq<int>,
    pub rest: Seq<bool>,
    pub status: Status,
}

/// Reads the first `t` samples of a stream.
pub open spec fn decoded(max: int, line: int, depth: int, t: int, bits: Seq<bool>) -> Decoded
    decreases t,
{
    if t <= 0 {
        Decoded { samples: Seq::empty(), rest: bits, status: Status::Open }
    } else {
        let so_far = decoded(max, line, depth, t - 1, bits);
        if so_far.status is Open {
            decoded_step(max, line, depth, so_far)
        } else {
            so_far
        }
    }
}

/// Reads one more sample.
pub open spec fn decoded_step(max: int, line: int, depth: int, so_far: Decoded) -> Decoded {
    let p = so_far.samples;
    let t = p.len() as int;
    let k = low_bits(p, line, depth, t);
    if leading_zeros(so_far.rest) == so_far.rest.len() {
        Decoded {
            samples: p,
            rest: last_zeros(so_far.rest.len()),
            status: Status::Ended,
        }
    } else {
        let x = settle(max, prediction(p, line, depth, t), rice_number(k, so_far.rest));
        if is_rice_settled(k, so_far.rest) {
            Decoded {
                samples: p.push(x),
                rest: left_behind_rice(k, so_far.rest),
                status: Status::Open,
            }
        } else {
            Decoded { samples: p.push(x), rest: so_far.rest, status: Status::Unsettled }
        }
    }
}

/// All samples are in the range up to `max`.
pub open spec fn in_range(p: Seq<int>, max: int) -> bool {
    forall|i: int| 0 <= i < p.len() ==> 0 <= #[trigger] p[i] <= max
}

pub proof fn lemma_median_range(a: int, c: int, b: int, max: int)
    requires
        0 <= a <= max,
        0 <= b <= max,
        0 <= c <= max,
    ensures
        0 <= median(a, c, b) <= max,
{
}

/// The neighbours of a place are in range, and they stand before it: a longer
/// sequence has the same ones.
pub proof fn lemma_neighbours(p: Seq<int>, q: Seq<int>, line: int, depth: int, t: int, max: int)
    requires
        0 < depth,
        0 < line,
        0 <= t <= p.len() <= q.len(),
        0 <= max,
        in_range(p, max),
        forall|i: int| 0 <= i < t ==> #[trigger] p[i] == q[i],
    ensures
        0 <= left(p, line, depth, t) <= max,
        0 <= above(p, line, t) <= max,
        0 <= above_left(p, line, depth, t) <= max,
        0 <= above_right(p, line, depth, t) <= max,
        left(p, line, depth, t) == left(q, line, depth, t),
        above(p, line, t) == above(q, line, t),
        above_left(p, line, depth, t) == above_left(q, line, depth, t),
        above_right(p, line, depth, t) == above_right(q, line, depth, t),
        prediction(p, line, depth, t) == prediction(q, line, depth, t),
        low_bits(p, line, depth, t) == low_bits(q, line, depth, t),
{
    crate::numeric::lemma_place_parts(t, line);
    assert(t / line >= 1 ==> t >= line) by (nonlinear_arith)
        requires
            t == (t / line) * line + t % line,
            0 <= t % line,
            0 < line,
    ;
    if t >= line {
        assert(t - line >= t % line) by (nonlinear_arith)
            requires
                t == (t / line) * line + t % line,
                0 <= t % line < line,
                t >= line,
                0 < line,
        ;
    }
    assert(t >= t % line) by (nonlinear_arith)
        requires
            t == (t / line) * line + t % line,
            0 <= t / line,
            0 < line,
    ;
}

pub proof fn lemma_parameter_exists(activity: int)
    requires
        activity <= 0x3_0000,
    ensures
        exists|k: nat|
            k <= 16 && (activity <= 765 ==> k <= 8) && #[trigger] is_rice_parameter(k, activity),
{
    vstd::arithmetic::power2::lemma2_to64();
    if activity <= 3 {
        assert(is_rice_parameter(0, activity));
    } else if activity <= 6 {
        assert(is_rice_parameter(1, activity));
    } else if activity <= 12 {
        assert(is_rice_parameter(2, activity));
    } else if activity <= 24 {
        assert(is_rice_parameter(3, activity));
    } else if activity <= 48 {
        assert(is_rice_parameter(4, activity));
    } else if activity <= 96 {
        assert(is_rice_parameter(5, activity));
    } else if activity <= 192 {
        assert(is_rice_parameter(6, activity));
    } else if activity <= 384 {
        assert(is_rice_parameter(7, activity));
    } else if activity <= 768 {
        assert(is_rice_parameter(8, activity));
    } else if activity <= 1536 {
        assert(is_rice_parameter(9, activity));
    } else if activity <= 3072 {
        assert(is_rice_parameter(10, activity));
    } else if activity <= 6144 {
        assert(is_rice_parameter(11, activity));
    } else if activity <= 12288 {
        assert(is_rice_parameter(12, activity));
    } else if activity <= 24576 {
        assert(is_rice_parameter(13, activity));
    } else if activity <= 49152 {
        assert(is_rice_parameter(14, activity));
    } else if activity <= 98304 {
        assert(is_rice_parameter(15, activity));
    } else {
        assert(is_rice_parameter(16, activity));
    }
}

/// The number of low bits is the one that the neighbours ask for.
pub proof fn lemma_low_bits(p: Seq<int>, line: int, depth: int, t: int, max: int)
    requires
        0 < depth,
        0 < line,
        0 <= t <= p.len(),
        0 <= max <= 0xffff,
        in_range(p, max),
    ensures
        low_bits(p, line, depth, t) <= 16,
        max <= 255 ==> low_bits(p, line, depth, t) <= 8,
        is_rice_parameter(
            low_bits(p, line, depth, t),
            activity(
                left(p, line, depth, t),
                above_left(p, line, depth, t),
                above(p, line, t),
                above_right(p, line, depth, t),
            ),
        ),
{
    lemma_neighbours(p, p, line, depth, t, max);
    let activity = activity(
        left(p, line, depth, t),
        above_left(p, line, depth, t),
        above(p, line, t),
        above_right(p, line, depth, t),
    );
    lemma_parameter_exists(activity);
    let k = choose|k: nat|
        k <= 16 && (activity <= 765 ==> k <= 8) && #[trigger] is_rice_parameter(k, activity);
    crate::rice::lemma_rice_parameter_unique(k, low_bits(p, line, depth, t), activity);
}

/// What a reader has left behind a code is settled, but for one of 16 low bits
/// with a single byte behind its one.
pub proof fn law_codes_settle(k: nat, bits: Seq<bool>)
    requires
        k <= 16,
        leading_zeros(bits) < bits.len(),
    ensures
        k <= 8 ==> is_rice_settled(k, bits),
        !is_rice_settled(k, bits) ==> k == 16 && behind_stop(bits).len() == 8,
{
}

/// A residual of samples in range gives the sample back.
pub proof fn lemma_settle(max: int, prediction: int, x: int)
    requires
        max == 255 || max == 0xffff,
        0 <= prediction <= max,
        0 <= x <= max,
    ensures
        settle(max, prediction, fold(x - prediction)) == x,
        fold(x - prediction) < 0x1_0000_0000,
{
    crate::rice::lemma_unfold_of_fold(x - prediction);
}

/// What `decoded` holds at every step.
pub proof fn lemma_decoded(max: int, line: int, depth: int, t: int, bits: Seq<bool>)
    requires
        0 < depth,
        0 < line,
        max == 255 || max == 0xffff,
        0 <= t,
    ensures
        decoded(max, line, depth, t, bits).samples.len() <= t,
        decoded(max, line, depth, t, bits).status is Open ==> decoded(
            max,
            line,
            depth,
            t,
            bits,
        ).samples.len() == t,
        in_range(decoded(max, line, depth, t, bits).samples, max),
        max == 255 ==> decoded(max, line, depth, t, bits).status !is Unsettled,
    decreases t,
{
    if t > 0 {
        lemma_decoded(max, line, depth, t - 1, bits);
        let so_far = decoded(max, line, depth, t - 1, bits);
        lemma_leading_zeros_bounds(so_far.rest);
        if so_far.status is Open && leading_zeros(so_far.rest) < so_far.rest.len() {
            lemma_low_bits(so_far.samples, line, depth, t - 1, max);
            law_codes_settle(low_bits(so_far.samples, line, depth, t - 1), so_far.rest);
        }
    }
}

/// Nothing is lost: the codes of samples are read back as the samples, and
/// what came behind them is left.
pub proof fn law_samples_come_back(
    p: Seq<int>,
    max: int,
    line: int,
    depth: int,
    t: int,
    rest: Seq<bool>,
)
    requires
        max == 255 || max == 0xffff,
        0 < depth,
        0 < line,
        0 <= t <= p.len(),
        in_range(p, max),
    ensures
        decoded(max, line, depth, t, encoded(p, line, depth, t) + rest) == (Decoded {
            samples: p.take(t),
            rest,
            status: Status::Open,
        }),
    decreases t,
{
    if t == 0 {
        assert(encoded(p, line, depth, 0) + rest =~= rest);
        assert(p.take(0) =~= Seq::empty());
    } else {
        let s = t - 1;
        let code = sample_bits(p, line, depth, s);
        assert(encoded(p, line, depth, t) + rest =~= encoded(p, line, depth, s) + (code + rest));
        law_samples_come_back(p, max, line, depth, s, code + rest);
        let q = p.take(s);
        assert(in_range(q, max)) by {
            assert forall|i: int| 0 <= i < q.len() implies 0 <= #[trigger] q[i] <= max by {
                assert(q[i] == p[i]);
            }
        }
        lemma_neighbours(q, p, line, depth, s, max);
        lemma_low_bits(p, line, depth, s, max);
        lemma_median_range(
            left(q, line, depth, s),
            above_left(q, line, depth, s),
            above(q, line, s),
            max,
        );
        let guess = prediction(p, line, depth, s);
        lemma_settle(max, guess, p[s]);
        law_rice_comes_back(low_bits(p, line, depth, s), fold(p[s] - guess), rest);
        assert(q.push(p[s]) =~= p.take(t));
    }
}

/// The neighbours of a sample are the samples of the same channel in the pixels to the left,
/// above, above to the left and above to the right. Those outside the image are zero.
pub proof fn law_neighbours_are_next_to_it(
    p: Seq<int>,
    width: int,
    depth: int,
    row: int,
    col: int,
    channel: int,
)
    requires
        0 <= row,
        0 <= col < width,
        0 <= channel < depth,
    ensures
        ({
            let line = width * depth;
            let t = row * line + (col * depth + channel);
            let at = |row: int, col: int| p[row * line + (col * depth + channel)];
            &&& left(p, line, depth, t) == if col >= 1 {
                at(row, col - 1)
            } else {
                0
            }
            &&& above(p, line, t) == if row >= 1 {
                at(row - 1, col)
            } else {
                0
            }
            &&& above_left(p, line, depth, t) == if row >= 1 && col >= 1 {
                at(row - 1, col - 1)
            } else {
                0
            }
            &&& above_right(p, line, depth, t) == if row >= 1 && col + 1 < width {
                at(row - 1, col + 1)
            } else {
                0
            }
        }),
{
    let line = width * depth;
    let place = col * depth + channel;
    let t = row * line + place;
    crate::numeric::lemma_place(col, channel, depth);
    crate::numeric::lemma_place_bound(col, channel, depth, width);
    crate::numeric::lemma_place(row, place, line);
    assert((col - 1) * depth == col * depth - depth && (col + 1) * depth == col * depth + depth)
        by (nonlinear_arith);
    assert((row - 1) * line == row * line - line) by (nonlinear_arith);
    assert(row >= 1 ==> t >= line) by (nonlinear_arith)
        requires
            t == row * line + place,
            0 <= place < line,
    ;
    assert(row == 0 ==> t < line) by (nonlinear_arith)
        requires
            t == row * line + place,
            0 <= place < line,
    ;
    assert(col >= 1 ==> col * depth >= depth) by (nonlinear_arith)
        requires
            depth > 0,
    ;
    assert(col == 0 ==> col * depth == 0) by (nonlinear_arith);
    assert(col + 1 < width ==> col * depth + depth + depth <= line) by (nonlinear_arith)
        requires
            depth > 0,
            line == width * depth,
    ;
    assert(col + 1 == width ==> col * depth + depth == line) by (nonlinear_arith)
        requires
            line == width * depth,
    ;
}

/// A sample is predicted between its neighbours to the left and above, by the plane
/// through the three of them where that lies between, and else by the closer end.
pub proof fn law_prediction_is_a_median(a: int, c: int, b: int)
    ensures
        ({
            let r = median(a, c, b);
            let plane = a + b - c;
            &&& r == median(b, c, a)
            &&& a <= b ==> a <= r <= b
            &&& a <= plane <= b ==> r == plane
            &&& a <= b && plane < a ==> r == a
            &&& a <= b && plane > b ==> r == b
        }),
{
}

/// What a code adds to a prediction puts it right: with samples of a byte as far as they go, and
/// with samples of two bytes around their end.
pub proof fn law_settling_adds_the_miss(prediction: int, miss: int)
    requires
        -0x8000 <= miss < 0x8000,
    ensures
        ({
            let sum = prediction + miss;
            let byte = settle(255, prediction, fold(miss));
            let word = settle(0xffff, prediction, fold(miss));
            &&& 0 <= byte <= 255
            &&& 0 <= sum <= 255 ==> byte == sum
            &&& sum < 0 ==> byte == 0
            &&& sum > 255 ==> byte == 255
            &&& 0 <= word <= 0xffff
            &&& 0 <= sum <= 0xffff ==> word == sum
            &&& (word - sum) % 0x1_0000 == 0
        }),
{
    crate::rice::lemma_unfold_of_fold(miss);
}

} // verus!
