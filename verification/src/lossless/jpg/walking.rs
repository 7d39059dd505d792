//! Reading along the lines and reading sample by sample come to the same.
use vstd::prelude::*;

use super::overlap::{
    above_right, low_bits_for, no_samples, walk, walk_step, Course, Measures, Walk,
};
use super::prediction;
use super::prediction::{
    above, above_left, decoded, decoded_step, left, lemma_decoded, lemma_low_bits, low_bits,
    Decoded, Status,
};
use crate::bits::leading_zeros;
use crate::numeric::{lemma_place, lemma_place_bound, lemma_place_parts};
use crate::rice::lemma_rice_parameter_unique;

verus! {

/// The measures of an image whose lines lie apart.
spec fn is_apart(m: Measures) -> bool {
    &&& m.max == 255 || m.max == 0xffff
    &&& 0 < m.depth <= m.line <= m.stride
    &&& 0 <= m.height
}

/// The neighbours that are kept for the channel of a place are those of the place.
spec fn is_ready(m: Measures, p: Seq<int>, w: Walk, q: int) -> bool {
    let channel = (q % m.line) % m.depth;
    &&& w.left[channel] == left(p, m.line, m.depth, q)
    &&& w.above[channel] == above(p, m.line, q)
    &&& w.above_left[channel] == above_left(p, m.line, m.depth, q)
}

/// The pixel of a sample holds it.
spec fn holds_sample(m: Measures, p: Seq<int>, pixels: Seq<int>, row: int, col: int) -> bool {
    row * m.line + col < p.len() ==> pixels[row * m.stride + col] == p[row * m.line + col]
}

/// Every sample stands at its place.
spec fn holds_samples(m: Measures, p: Seq<int>, pixels: Seq<int>) -> bool {
    forall|row: int, col: int|
        0 <= row < m.height && 0 <= col < m.line ==> #[trigger] holds_sample(
            m,
            p,
            pixels,
            row,
            col,
        )
}

/// The two ways of reading have come to the same.
spec fn is_level(m: Measures, t: int, d: Decoded, w: Walk) -> bool {
    &&& w.pixels.len() == m.height * m.stride
    &&& w.left.len() == m.depth
    &&& w.above.len() == m.depth
    &&& w.above_left.len() == m.depth
    &&& d.status is Open <==> w.course is Open
    &&& d.status is Unsettled <==> w.course is Unsettled
    &&& d.status is Ended <==> w.course is Ended
    &&& d.status !is Unsettled ==> d.rest == w.rest
    &&& holds_samples(m, d.samples, w.pixels)
    &&& d.status is Open ==> d.samples.len() == t
    &&& d.status is Open ==> forall|q: int|
        t <= q < t + m.depth && q < (t / m.line + 1) * m.line ==> #[trigger] is_ready(
            m,
            d.samples,
            w,
            q,
        )
}

/// A place so few samples on belongs to another channel.
proof fn lemma_other_channel(col: int, depth: int, j: int)
    requires
        0 <= col,
        0 < j <= depth,
    ensures
        j < depth ==> (col + j) % depth != col % depth,
        j == depth ==> (col + j) % depth == col % depth,
{
    lemma_place_parts(col, depth);
    let a = col / depth;
    let b = col % depth;
    assert((a + 1) * depth == a * depth + depth) by (nonlinear_arith);
    if b + j < depth {
        lemma_place(a, b + j, depth);
    } else {
        lemma_place(a + 1, b + j - depth, depth);
    }
}

proof fn lemma_level(m: Measures, t: int, bits: Seq<bool>)
    requires
        is_apart(m),
        0 <= t <= m.height * m.line,
    ensures
        is_level(m, t, decoded(m.max, m.line, m.depth, t, bits), walk(m, t, bits)),
    decreases t,
{
    let d = decoded(m.max, m.line, m.depth, t, bits);
    let w = walk(m, t, bits);
    if t == 0 {
        assert(0 <= m.height * m.stride) by (nonlinear_arith)
            requires
                0 <= m.height,
                0 <= m.stride,
        ;
        assert forall|row: int, col: int|
            0 <= row < m.height && 0 <= col < m.line implies #[trigger] holds_sample(
            m,
            d.samples,
            w.pixels,
            row,
            col,
        ) by {
            lemma_place(row, col, m.line);
        }
        assert forall|q: int|
            0 <= q < m.depth && q < (0int / m.line + 1) * m.line implies #[trigger] is_ready(
            m,
            d.samples,
            w,
            q,
        ) by {
            assert(0 * m.line == 0 && 0 * m.depth == 0) by (nonlinear_arith);
            lemma_place(0, q, m.line);
            lemma_place(0, q, m.depth);
        }
    } else {
        lemma_level(m, t - 1, bits);
        let so_far = decoded(m.max, m.line, m.depth, t - 1, bits);
        let before = walk(m, t - 1, bits);
        if so_far.status is Open {
            lemma_level_step(m, t - 1, bits, so_far, before);
        } else {
            assert(d == so_far && w == before);
        }
    }
}

proof fn lemma_level_step(m: Measures, t: int, bits: Seq<bool>, d: Decoded, w: Walk)
    requires
        is_apart(m),
        0 <= t < m.height * m.line,
        d == decoded(m.max, m.line, m.depth, t, bits),
        d.status is Open,
        is_level(m, t, d, w),
    ensures
        is_level(
            m,
            t + 1,
            decoded_step(m.max, m.line, m.depth, d),
            walk_step(m, t / m.line, t % m.line, w),
        ),
{
    let p = d.samples;
    lemma_decoded(m.max, m.line, m.depth, t, bits);
    lemma_place_parts(t, m.line);
    let row = t / m.line;
    let col = t % m.line;
    assert(0 <= row < m.height) by (nonlinear_arith)
        requires
            t == row * m.line + col,
            0 <= col < m.line,
            0 <= t < m.height * m.line,
    ;
    assert((row + 1) * m.line == row * m.line + m.line) by (nonlinear_arith);
    assert(is_ready(m, p, w, t));
    let channel = col % m.depth;
    vstd::arithmetic::div_mod::lemma_mod_bound(col, m.depth);
    lemma_above_right(m, t, p, w.pixels, row, col);
    lemma_low_bits(p, m.line, m.depth, t, m.max);
    let right = above_right(m, row, col, w.pixels);
    let k = low_bits(p, m.line, m.depth, t);
    let l = low_bits_for(w.left[channel], w.above_left[channel], w.above[channel], right);
    assert(k == l) by {
        let activity = crate::rice::activity(
            w.left[channel],
            w.above_left[channel],
            w.above[channel],
            right,
        );
        assert(crate::rice::is_rice_parameter(k, activity));
        assert(crate::rice::is_rice_parameter(l, activity));
        lemma_rice_parameter_unique(k, l, activity);
    }
    lemma_place(row, col, m.stride);
    lemma_place_bound(row, col, m.stride, m.height);
    if leading_zeros(d.rest) < d.rest.len() {
        let e = decoded_step(m.max, m.line, m.depth, d);
        let v = walk_step(m, row, col, w);
        let x = e.samples[t];
        assert(e.samples == p.push(x));
        assert(v.pixels == w.pixels.update(row * m.stride + col, x));
        lemma_pixels_level(m, t, p, w.pixels, x, row, col);
        lemma_ready_next(m, t, p, w, x, right, row, col, v);
    } else {
        crate::bits::lemma_leading_zeros_bounds(d.rest);
    }
}

proof fn lemma_above_right(
    m: Measures,
    t: int,
    p: Seq<int>,
    pixels: Seq<int>,
    row: int,
    col: int,
)
    requires
        is_apart(m),
        p.len() == t,
        0 <= row < m.height,
        0 <= col < m.line,
        t == row * m.line + col,
        holds_samples(m, p, pixels),
    ensures
        above_right(m, row, col, pixels) == prediction::above_right(p, m.line, m.depth, t),
{
    lemma_place(row, col, m.line);
    assert((row - 1) * m.line == row * m.line - m.line) by (nonlinear_arith);
    assert(row > 0 ==> t >= m.line) by (nonlinear_arith)
        requires
            t == row * m.line + col,
            0 <= col,
            0 < m.line,
    ;
    assert(row == 0 ==> t < m.line) by (nonlinear_arith)
        requires
            t == row * m.line + col,
            col < m.line,
    ;
    if row > 0 && col + m.depth < m.line {
        assert(holds_sample(m, p, pixels, row - 1, col + m.depth));
    }
}

proof fn lemma_pixels_level(
    m: Measures,
    t: int,
    p: Seq<int>,
    pixels: Seq<int>,
    x: int,
    row: int,
    col: int,
)
    requires
        is_apart(m),
        p.len() == t,
        pixels.len() == m.height * m.stride,
        0 <= row < m.height,
        0 <= col < m.line,
        t == row * m.line + col,
        holds_samples(m, p, pixels),
    ensures
        holds_samples(m, p.push(x), pixels.update(row * m.stride + col, x)),
{
    let next = pixels.update(row * m.stride + col, x);
    lemma_place(row, col, m.stride);
    lemma_place_bound(row, col, m.stride, m.height);
    lemma_place(row, col, m.line);
    assert forall|r: int, c: int|
        0 <= r < m.height && 0 <= c < m.line implies #[trigger] holds_sample(
        m,
        p.push(x),
        next,
        r,
        c,
    ) by {
        assert(holds_sample(m, p, pixels, r, c));
        lemma_place(r, c, m.stride);
        lemma_place_bound(r, c, m.stride, m.height);
        lemma_place(r, c, m.line);
    }
}

proof fn lemma_ready_next(
    m: Measures,
    t: int,
    p: Seq<int>,
    w: Walk,
    x: int,
    right: int,
    row: int,
    col: int,
    v: Walk,
)
    requires
        is_apart(m),
        p.len() == t,
        w.pixels.len() == m.height * m.stride,
        w.left.len() == m.depth,
        w.above.len() == m.depth,
        w.above_left.len() == m.depth,
        0 <= row < m.height,
        0 <= col < m.line,
        t == row * m.line + col,
        holds_samples(m, p.push(x), v.pixels),
        v.pixels == w.pixels.update(row * m.stride + col, x),
        right == prediction::above_right(p, m.line, m.depth, t),
        forall|q: int|
            t <= q < t + m.depth && q < (row + 1) * m.line ==> #[trigger] is_ready(m, p, w, q),
        col + 1 == m.line ==> {
            &&& v.left == no_samples(m.depth)
            &&& v.above == v.pixels.subrange(row * m.stride, row * m.stride + m.depth)
            &&& v.above_left == no_samples(m.depth)
        },
        col + 1 < m.line ==> {
            let channel = col % m.depth;
            &&& v.left == w.left.update(channel, x)
            &&& v.above == w.above.update(channel, right)
            &&& v.above_left == w.above_left.update(channel, w.above[channel])
        },
    ensures
        v.left.len() == m.depth,
        v.above.len() == m.depth,
        v.above_left.len() == m.depth,
        forall|q: int|
            t + 1 <= q < t + 1 + m.depth && q < ((t + 1) / m.line + 1) * m.line
                ==> #[trigger] is_ready(m, p.push(x), v, q),
{
    let next = p.push(x);
    let channel = col % m.depth;
    vstd::arithmetic::div_mod::lemma_mod_bound(col, m.depth);
    lemma_place(row, col, m.line);
    lemma_place(row, 0, m.stride);
    lemma_place_bound(row, 0, m.stride, m.height);
    assert((row + 1) * m.line == row * m.line + m.line && (row + 1) * m.stride == row * m.stride
        + m.stride && (row + 1 + 1) * m.line == (row + 1) * m.line + m.line) by (nonlinear_arith);
    assert(row > 0 ==> row * m.line >= m.line) by (nonlinear_arith)
        requires
            0 < m.line,
    ;
    assert(row == 0 ==> row * m.line == 0) by (nonlinear_arith);
    if col + 1 == m.line {
        lemma_place(row + 1, 0, m.line);
        assert forall|q: int|
            t + 1 <= q < t + 1 + m.depth && q < ((t + 1) / m.line + 1)
                * m.line implies #[trigger] is_ready(m, next, v, q) by {
            let c = q - (t + 1);
            lemma_place(row + 1, c, m.line);
            vstd::arithmetic::div_mod::lemma_small_mod(c as nat, m.depth as nat);
            assert(holds_sample(m, next, v.pixels, row, c));
        }
    } else {
        lemma_place(row, col + 1, m.line);
        assert(is_ready(m, p, w, t));
        assert forall|q: int|
            t + 1 <= q < t + 1 + m.depth && q < ((t + 1) / m.line + 1)
                * m.line implies #[trigger] is_ready(m, next, v, q) by {
            let j = q - t;
            lemma_place(row, col + j, m.line);
            lemma_other_channel(col, m.depth, j);
            vstd::arithmetic::div_mod::lemma_mod_bound(col + j, m.depth);
            if j < m.depth {
                assert(is_ready(m, p, w, q));
            }
        }
    }
}

/// Where the lines of an image lie apart, reading along them gives what reading sample by sample
/// gives: the same samples, each in its line and column, the same end, and the same rest of the
/// stream where that is known.
pub proof fn law_both_ways_read_alike(m: Measures, t: int, bits: Seq<bool>, row: int, col: int)
    requires
        m.max == 255 || m.max == 0xffff,
        0 < m.depth <= m.line <= m.stride,
        0 <= m.height,
        0 <= t <= m.height * m.line,
        0 <= row < m.height,
        0 <= col < m.line,
    ensures
        ({
            let d = decoded(m.max, m.line, m.depth, t, bits);
            let w = walk(m, t, bits);
            &&& w.pixels.len() == m.height * m.stride
            &&& row * m.line + col < d.samples.len() ==> w.pixels[row * m.stride + col]
                == d.samples[row * m.line + col]
            &&& d.status == Status::Open <==> w.course == Course::Open
            &&& d.status == Status::Unsettled <==> w.course == Course::Unsettled
            &&& d.status == Status::Ended <==> w.course == Course::Ended
            &&& d.status != Status::Unsettled ==> d.rest == w.rest
        }),
{
    lemma_level(m, t, bits);
    let d = decoded(m.max, m.line, m.depth, t, bits);
    let w = walk(m, t, bits);
    assert(holds_sample(m, d.samples, w.pixels, row, col));
}

} // verus!
