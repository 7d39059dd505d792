//! Streams whose lines are longer than they are apart.
//!
//! The lines of such an image overlap: a sample may stand where one of the next
//! line will stand, and the last line runs out of the image. The stream is read
//! until it ends, or until the first sample that falls outside of the image.
use vstd::prelude::*;

use super::prediction::{in_range, law_codes_settle, lemma_parameter_exists, median, settle};
use super::{
    lemma_row_start, lemma_zero_runs_behind, lemma_zero_runs_tail, nums, LosslessSample,
};
use crate::bits::{leading_zeros, lemma_leading_zeros_bounds};
use crate::bitstream::{last_zeros, zero_runs_fit, BitStreamReader};
use crate::error::{is_eof, Error, Result};
use crate::numeric::{lemma_place, lemma_place_bound, lemma_place_parts};
use crate::rice::{
    activity, holds_rice, is_rice_parameter, is_rice_settled, left_behind_rice,
    lemma_rice_parameter_unique, rice_number,
};

verus! {

/// The measures of an image: the largest sample, the length of a line, how far
/// the lines are apart, how many they are, and the number of channels.
pub struct Measures {
    pub max: int,
    pub line: int,
    pub stride: int,
    pub height: int,
    pub depth: int,
}

/// How far the reading came.
pub enum Course {
    /// It can go on.
    Open,
    /// What the reader has left is not settled.
    Unsettled,
    /// The stream ended before the next sample.
    Ended,
    /// The last sample falls outside of the image.
    Outside,
}

/// What the reading of a stream gave: the pixels, for every channel the sample
/// to the left of the next one, the one above it and the one between these, and
/// what is left of the stream.
pub struct Walk {
    pub pixels: Seq<int>,
    pub left: Seq<int>,
    pub above: Seq<int>,
    pub above_left: Seq<int>,
    pub rest: Seq<bool>,
    pub course: Course,
}

/// So many zeros.
pub open spec fn no_samples(count: int) -> Seq<int> {
    Seq::new(count as nat, |i: int| 0)
}

/// The number of low bits for a sample with these neighbours.
pub open spec fn low_bits_for(a: int, c: int, b: int, d: int) -> nat {
    choose|k: nat| #[trigger] is_rice_parameter(k, activity(a, c, b, d))
}

/// Reads the first `t` samples of a stream.
pub open spec fn walk(m: Measures, t: int, bits: Seq<bool>) -> Walk
    decreases t,
{
    if t <= 0 {
        Walk {
            pixels: no_samples(m.height * m.stride),
            left: no_samples(m.depth),
            above: no_samples(m.depth),
            above_left: no_samples(m.depth),
            rest: bits,
            course: Course::Open,
        }
    } else {
        let w = walk(m, t - 1, bits);
        if w.course is Open {
            walk_step(m, (t - 1) / m.line, (t - 1) % m.line, w)
        } else {
            w
        }
    }
}

/// The sample above to the right of a place, zero at the end of a line.
pub open spec fn above_right(m: Measures, row: int, col: int, pixels: Seq<int>) -> int {
    if row > 0 && col + m.depth < m.line {
        pixels[(row - 1) * m.stride + (col + m.depth)]
    } else {
        0
    }
}

/// Reads one more sample.
pub open spec fn walk_step(m: Measures, row: int, col: int, w: Walk) -> Walk {
    let channel = col % m.depth;
    let a = w.left[channel];
    let b = w.above[channel];
    let c = w.above_left[channel];
    let d = above_right(m, row, col, w.pixels);
    let k = low_bits_for(a, c, b, d);
    if leading_zeros(w.rest) == w.rest.len() {
        Walk { rest: last_zeros(w.rest.len()), course: Course::Ended, ..w }
    } else if row * m.stride + col >= m.height * m.stride {
        Walk { course: Course::Outside, ..w }
    } else {
        let x = settle(m.max, median(a, c, b), rice_number(k, w.rest));
        let pixels = w.pixels.update(row * m.stride + col, x);
        let course = if is_rice_settled(k, w.rest) {
            Course::Open
        } else {
            Course::Unsettled
        };
        let rest = left_behind_rice(k, w.rest);
        if col + 1 == m.line {
            Walk {
                pixels,
                left: no_samples(m.depth),
                above: pixels.subrange(row * m.stride, row * m.stride + m.depth),
                above_left: no_samples(m.depth),
                rest,
                course,
            }
        } else {
            Walk {
                pixels,
                left: w.left.update(channel, x),
                above: w.above.update(channel, d),
                above_left: w.above_left.update(channel, b),
                rest,
                course,
            }
        }
    }
}

/// The measures of an image whose lines overlap.
pub open spec fn overlaps(m: Measures) -> bool {
    &&& m.max == 255 || m.max == 0xffff
    &&& 0 < m.depth <= m.line
    &&& 0 < m.stride < m.line
    &&& 0 < m.height
}

/// A reading that has stopped goes no further.
proof fn lemma_walk_stops(m: Measures, t: int, n: int, bits: Seq<bool>)
    requires
        0 <= t <= n,
        walk(m, t, bits).course !is Open,
    ensures
        walk(m, n, bits) == walk(m, t, bits),
    decreases n - t,
{
    if t < n {
        lemma_walk_stops(m, t, n - 1, bits);
    }
}

/// The reading never comes to the end of the last line.
proof fn lemma_walk_ends(m: Measures, bits: Seq<bool>)
    requires
        overlaps(m),
    ensures
        walk(m, m.height * m.line, bits).course !is Open,
{
    let row = m.height - 1;
    let t = row * m.line + m.stride;
    lemma_place(row, m.stride, m.line);
    lemma_place_bound(row, m.stride, m.line, m.height);
    assert(row * m.stride + m.stride == m.height * m.stride) by (nonlinear_arith)
        requires
            row == m.height - 1,
    ;
    assert(walk(m, t + 1, bits).course !is Open);
    lemma_walk_stops(m, t + 1, m.height * m.line, bits);
}

/// All samples that a reading has behind it lie in the image.
proof fn lemma_walk_inside(m: Measures, t: int, s: int, bits: Seq<bool>)
    requires
        0 <= s < t,
        walk(m, t, bits).course is Open,
    ensures
        (s / m.line) * m.stride + s % m.line < m.height * m.stride,
        walk(m, s, bits).course is Open,
    decreases t,
{
    if s < t - 1 {
        lemma_walk_inside(m, t - 1, s, bits);
    }
}

/// The sample above to the right is one of the image.
proof fn lemma_above_right(m: Measures, row: int, col: int, bits: Seq<bool>)
    requires
        overlaps(m),
        0 < row < m.height,
        0 <= col,
        col + m.depth < m.line,
        walk(m, row * m.line + col, bits).course is Open,
    ensures
        0 <= (row - 1) * m.stride + (col + m.depth) < m.height * m.stride,
{
    let s = (row - 1) * m.line + (col + m.depth);
    lemma_place(row - 1, col + m.depth, m.line);
    assert((row - 1) * m.line + m.line == row * m.line) by (nonlinear_arith);
    assert((row - 1) * m.stride >= 0) by (nonlinear_arith)
        requires
            row > 0,
            m.stride > 0,
    ;
    lemma_walk_inside(m, row * m.line + col, s, bits);
}

/// What a reading holds while it can go on.
pub open spec fn is_walk_sound(m: Measures, w: Walk) -> bool {
    &&& w.pixels.len() == m.height * m.stride
    &&& w.left.len() == m.depth
    &&& w.above.len() == m.depth
    &&& w.above_left.len() == m.depth
    &&& in_range(w.pixels, m.max)
    &&& in_range(w.left, m.max)
    &&& in_range(w.above, m.max)
    &&& in_range(w.above_left, m.max)
}

/// The low bits of bytes are few.
proof fn lemma_low_bits_for(a: int, c: int, b: int, d: int, max: int)
    requires
        max == 255 || max == 0xffff,
        0 <= a <= max,
        0 <= b <= max,
        0 <= c <= max,
        0 <= d <= max,
    ensures
        low_bits_for(a, c, b, d) <= 16,
        max == 255 ==> low_bits_for(a, c, b, d) <= 8,
        is_rice_parameter(low_bits_for(a, c, b, d), activity(a, c, b, d)),
{
    let activity = activity(a, c, b, d);
    lemma_parameter_exists(activity);
    let k = choose|k: nat|
        k <= 16 && (activity <= 765 ==> k <= 8) && #[trigger] is_rice_parameter(k, activity);
    lemma_rice_parameter_unique(k, low_bits_for(a, c, b, d), activity);
}

/// The neighbours stay in the range of the samples.
proof fn lemma_walk_sound(m: Measures, t: int, bits: Seq<bool>)
    requires
        overlaps(m),
        0 <= t <= m.height * m.line,
    ensures
        m.max == 255 ==> walk(m, t, bits).course !is Unsettled,
        walk(m, t, bits).course is Open ==> is_walk_sound(m, walk(m, t, bits)),
    decreases t,
{
    assert(m.height * m.stride >= 0) by (nonlinear_arith)
        requires
            m.height > 0,
            m.stride > 0,
    ;
    if t > 0 {
        lemma_walk_sound(m, t - 1, bits);
        let w = walk(m, t - 1, bits);
        if w.course is Open {
            let row = (t - 1) / m.line;
            let col = (t - 1) % m.line;
            let channel = col % m.depth;
            lemma_place_parts(t - 1, m.line);
            assert(row < m.height) by (nonlinear_arith)
                requires
                    t - 1 == row * m.line + col,
                    0 <= col,
                    t <= m.height * m.line,
                    m.line > 0,
            ;
            vstd::arithmetic::div_mod::lemma_mod_bound(col, m.depth);
            if row > 0 && col + m.depth < m.line {
                lemma_above_right(m, row, col, bits);
            }
            lemma_row_start(row, m.stride, m.height);
            let d = above_right(m, row, col, w.pixels);
            let k = low_bits_for(w.left[channel], w.above_left[channel], w.above[channel], d);
            lemma_low_bits_for(
                w.left[channel],
                w.above_left[channel],
                w.above[channel],
                d,
                m.max,
            );
            lemma_leading_zeros_bounds(w.rest);
            if leading_zeros(w.rest) < w.rest.len() {
                law_codes_settle(k, w.rest);
            }
            let next = walk(m, t, bits);
            assert(next == walk_step(m, row, col, w));
            if next.course is Open {
                assert(in_range(next.pixels, m.max));
                if col + 1 == m.line {
                    assert forall|i: int| 0 <= i < next.above.len() implies 0
                        <= #[trigger] next.above[i] <= m.max by {
                        assert(next.above[i] == next.pixels[row * m.stride + i]);
                    }
                }
            }
        }
    }
}

/// Channels come in turn.
proof fn lemma_next_channel(col: int, depth: int)
    requires
        0 <= col,
        0 < depth,
    ensures
        (col + 1) % depth == if col % depth + 1 == depth {
            0
        } else {
            col % depth + 1
        },
{
    lemma_place_parts(col, depth);
    let q = col / depth;
    let c = col % depth;
    if c + 1 == depth {
        assert((q + 1) * depth == q * depth + depth) by (nonlinear_arith);
        lemma_place(q + 1, 0, depth);
    } else {
        lemma_place(q, c + 1, depth);
    }
}

/// Reads a stream whose lines overlap. The end of the stream is found, or the
/// first sample that falls outside of the image overflows it.
#[verifier::rlimit(60)]
pub(crate) fn read_overlapping<T: LosslessSample>(
    height: usize,
    line: usize,
    step: usize,
    stride: usize,
    total: usize,
    stream: &mut BitStreamReader,
) -> (r: Result<Vec<T>>)
    requires
        zero_runs_fit(old(stream)@),
        total == height * stride,
        0 < step <= line,
        0 < stride < line,
        0 < height,
    ensures
        ({
            let m = Measures {
                max: T::max(),
                line: line as int,
                stride: stride as int,
                height: height as int,
                depth: step as int,
            };
            let w = walk(m, height * line, old(stream)@);
            &&& is_eof(r) || (r is Err && r->Err_0 is BufferOverflow)
            &&& w.course !is Open
            &&& w.course is Ended ==> is_eof(r) && final(stream)@ == w.rest
            &&& w.course is Outside ==> r is Err && r->Err_0 is BufferOverflow
            &&& T::max() == 255 ==> w.course !is Unsettled
        }),
{
    let zero: T = T::zero();
    let mut pixels: Vec<T> = T::zeros(total);
    let mut left: Vec<T> = T::zeros(step);
    let mut above: Vec<T> = T::zeros(step);
    let mut above_left: Vec<T> = T::zeros(step);
    let ghost bits = stream@;
    let ghost m = Measures {
        max: T::max(),
        line: line as int,
        stride: stride as int,
        height: height as int,
        depth: step as int,
    };
    let ghost n = height * line;
    proof {
        zero.lemma_range();
        lemma_walk_ends(m, bits);
        lemma_walk_sound(m, n, bits);
        assert(nums(pixels@) =~= no_samples(height * stride));
        assert(nums(left@) =~= no_samples(step as int));
        assert(nums(above@) =~= no_samples(step as int));
        assert(nums(above_left@) =~= no_samples(step as int));
    }
    let mut row: usize = 0;
    while row < height
        invariant
            row <= height,
            overlaps(m),
            m == (Measures {
                max: T::max(),
                line: line as int,
                stride: stride as int,
                height: height as int,
                depth: step as int,
            }),
            n == height * line,
            total == height * stride,
            bits == old(stream)@,
            walk(m, n, bits).course !is Open,
            T::max() == 255 ==> walk(m, n, bits).course !is Unsettled,
            zero.num() == 0,
            pixels@.len() == total,
            left@.len() == step,
            above@.len() == step,
            above_left@.len() == step,
            zero_runs_fit(stream@),
            row > 0 ==> (row - 1) * stride + line <= total,
            row > 0 ==> (row - 1) * stride >= 0,
            is_walked(m, row * line, bits, pixels@, left@, above@, above_left@, stream@),
        decreases height - row,
    {
        proof {
            lemma_row_start(row as int, stride as int, height as int);
        }
        let this: usize = row * stride;
        let mut col: usize = 0;
        let mut channel: usize = 0;
        while col < line
            invariant
                row < height,
                this == row * stride,
                this < total,
                row > 0 ==> this - stride == (row - 1) * stride,
                row > 0 ==> this >= stride,
                row > 0 ==> this - stride + line <= total,
                col <= line,
                this + col <= total,
                col < line ==> channel == col as int % step as int,
                overlaps(m),
                m == (Measures {
                    max: T::max(),
                    line: line as int,
                    stride: stride as int,
                    height: height as int,
                    depth: step as int,
                }),
                n == height * line,
                total == height * stride,
                bits == old(stream)@,
                walk(m, n, bits).course !is Open,
                T::max() == 255 ==> walk(m, n, bits).course !is Unsettled,
                zero.num() == 0,
                pixels@.len() == total,
                left@.len() == step,
                above@.len() == step,
                above_left@.len() == step,
                zero_runs_fit(stream@),
                is_walked(m, row * line + col, bits, pixels@, left@, above@, above_left@, stream@),
            decreases line - col,
        {
            let ghost t = row * line + col;
            let ghost w = walk(m, t, bits);
            proof {
                lemma_place(row as int, col as int, line as int);
                lemma_place_bound(row as int, col as int, line as int, height as int);
                lemma_walk_sound(m, t, bits);
                lemma_zero_runs_tail(stream@, 0);
                lemma_leading_zeros_bounds(stream@);
                vstd::arithmetic::div_mod::lemma_mod_bound(col as int, step as int);
            }
            let a: T = left[channel];
            let b: T = above[channel];
            let c: T = above_left[channel];
            let d: T = if row > 0 && step < line - col {
                pixels[this - stride + col + step]
            } else {
                zero
            };
            let k: u32 = T::low_bit_count(a, c, b, d);
            let guess: i32 = T::predict(a, c, b);
            let ghost before = stream@;
            let ghost next = walk(m, t + 1, bits);
            proof {
                lemma_rice_parameter_unique(
                    k as nat,
                    low_bits_for(a.num(), c.num(), b.num(), d.num()),
                    activity(a.num(), c.num(), b.num(), d.num()),
                );
                if w.course is Open {
                    assert(next == walk_step(m, row as int, col as int, w));
                    if next.course !is Open {
                        lemma_walk_stops(m, t + 1, n, bits);
                    }
                } else {
                    lemma_walk_stops(m, t, n, bits);
                }
            }
            let x: T = match T::read_sample(k, guess, stream) {
                Ok(x) => x,
                Err(e) => {
                    return Err(e);
                },
            };
            if col >= total - this {
                return Err(Error::BufferOverflow);
            }
            proof {
                if holds_rice(k as nat, before) {
                    lemma_zero_runs_behind(before, k as nat);
                } else {
                    assert(zero_runs_fit(stream@));
                }
            }
            let ghost pixels0 = pixels@;
            let ghost left0 = left@;
            let ghost above0 = above@;
            let ghost above_left0 = above_left@;
            pixels.set(this + col, x);
            if col + 1 == line {
                left = T::zeros(step);
                above_left = T::zeros(step);
                above = vstd::slice::slice_to_vec(
                    vstd::slice::slice_subrange(pixels.as_slice(), this, this + step),
                );
                channel = 0;
                proof {
                    if w.course is Open {
                        assert(nums(pixels@) =~= nums(pixels0).update(this + col, x.num()));
                        assert(nums(left@) =~= no_samples(step as int));
                        assert(nums(above_left@) =~= no_samples(step as int));
                        assert(nums(above@) =~= nums(pixels@).subrange(
                            this as int,
                            this + step,
                        ));
                    }
                }
            } else {
                left.set(channel, x);
                above_left.set(channel, b);
                above.set(channel, d);
                let ghost at = channel;
                proof {
                    lemma_next_channel(col as int, step as int);
                }
                channel = if channel + 1 == step {
                    0
                } else {
                    channel + 1
                };
                proof {
                    if w.course is Open {
                        assert(nums(pixels@) =~= nums(pixels0).update(this + col, x.num()));
                        assert(nums(left@) =~= nums(left0).update(at as int, x.num()));
                        assert(nums(above_left@) =~= nums(above_left0).update(
                            at as int,
                            b.num(),
                        ));
                        assert(nums(above@) =~= nums(above0).update(at as int, d.num()));
                    }
                }
            }
            col = col + 1;
        }
        proof {
            assert(row * line + line == (row + 1) * line) by (nonlinear_arith);
        }
        row = row + 1;
    }
    Err(Error::BufferOverflow)
}

/// Whether a reader stands where a reading of `t` samples came, as far as that
/// is settled.
spec fn is_walked<T: LosslessSample>(
    m: Measures,
    t: int,
    bits: Seq<bool>,
    pixels: Seq<T>,
    left: Seq<T>,
    above: Seq<T>,
    above_left: Seq<T>,
    rest: Seq<bool>,
) -> bool {
    let w = walk(m, t, bits);
    &&& w.course is Open || w.course is Unsettled
    &&& w.course is Open ==> {
        &&& w.pixels == nums(pixels)
        &&& w.left == nums(left)
        &&& w.above == nums(above)
        &&& w.above_left == nums(above_left)
        &&& w.rest == rest
    }
}

} // verus!
