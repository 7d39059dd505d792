//! Lossless images: every sample is predicted from its neighbours, and what
//! the prediction missed is written with a Rice code.
use vstd::arithmetic::power2::{lemma2_to64, pow2};
use vstd::prelude::*;

use crate::bits::{be_bits, bits_value, leading_zeros, lemma_leading_zeros_bounds, padded};
use crate::bitstream::{
    last_zeros, law_bits_come_back, zero_runs_fit, BitStreamReader, BitStreamWriter,
};
use crate::color::Subsampling;
use crate::dimensions::{
    law_pixel_dimensions_come_back, read_height, read_width, PixelDimensions,
};
use crate::error::{is_eof, is_failed_to_decode, Error, Result};
use crate::image::{Image, ImageRef};
use crate::numeric::{lemma_place, lemma_place_bound, lemma_place_parts};
use crate::pixels::{Depth, Pixels, PixelsRef};
use crate::rice::{
    activity, behind_rice, fold, holds_rice, is_rice_parameter, is_rice_settled, left_behind_rice,
    rice_bits, rice_number,
};
use self::overlap::{read_overlapping, walk, Measures, Walk};
use self::prediction::{
    above, above_left, above_right, decoded, decoded_step, encoded, in_range, left,
    law_samples_come_back, lemma_decoded, lemma_low_bits, lemma_neighbours, low_bits, median,
    prediction, settle, Decoded,
};

pub mod overlap;
pub mod prediction;
pub mod rgb16;
pub mod rgb8;
pub mod walking;

verus! {

/// An image to be written, or the kind of image to be read.
pub struct Jpg<'a, T> {
    pub image: ImageRef<'a, T>,
}

/// Samples that can be written without loss.
pub trait LosslessSample: Copy {
    /// The largest sample.
    spec fn max() -> int;

    /// The number of bits of the stride in a stream.
    spec fn stride_width() -> nat;

    /// The number that a sample stands for.
    spec fn num(self) -> int;

    proof fn lemma_range(self)
        ensures
            Self::max() == 255 || Self::max() == 0xffff,
            0 <= self.num() <= Self::max(),
            Self::stride_width() == 32 || Self::stride_width() == 64,
    ;

    fn zero() -> (r: Self)
        ensures
            r.num() == 0,
    ;

    /// So many zeros.
    fn zeros(count: usize) -> (r: Vec<Self>)
        ensures
            r@.len() == count,
            forall|i: int| 0 <= i < count ==> (#[trigger] r@[i]).num() == 0,
    ;

    /// The number of low bits for a sample with these neighbours.
    fn low_bit_count(a: Self, c: Self, b: Self, d: Self) -> (k: u32)
        ensures
            is_rice_parameter(k as nat, activity(a.num(), c.num(), b.num(), d.num())),
            k <= 16,
    ;

    /// The median edge detector.
    fn predict(a: Self, c: Self, b: Self) -> (r: i32)
        ensures
            r == median(a.num(), c.num(), b.num()),
            0 <= r <= Self::max(),
    ;

    /// Writes what a prediction missed.
    fn write_sample(k: u32, x: Self, prediction: i32, stream: &mut BitStreamWriter) -> (r: Result<
        (),
    >)
        requires
            k <= 16,
            0 <= prediction <= Self::max(),
        ensures
            r is Ok,
            final(stream)@ == old(stream)@ + rice_bits(k as nat, fold(x.num() - prediction)),
    ;

    /// Reads what a prediction missed, and puts it right.
    fn read_sample(k: u32, prediction: i32, stream: &mut BitStreamReader) -> (r: Result<Self>)
        requires
            k <= 16,
            0 <= prediction <= Self::max(),
            leading_zeros(old(stream)@) <= u32::MAX,
        ensures
            leading_zeros(old(stream)@) == old(stream)@.len() ==> is_eof(r)
                && final(stream)@ == last_zeros(old(stream)@.len()),
            leading_zeros(old(stream)@) < old(stream)@.len() ==> r is Ok && r->Ok_0.num() == settle(
                Self::max(),
                prediction as int,
                rice_number(k as nat, old(stream)@),
            ),
            r is Ok && !holds_rice(k as nat, old(stream)@) ==> final(stream)@.len() < k,
            r is Ok && is_rice_settled(k as nat, old(stream)@) ==> final(stream)@
                == left_behind_rice(k as nat, old(stream)@),
    ;

    /// Writes the length of a line.
    fn write_stride(stride: usize, stream: &mut BitStreamWriter) -> (r: Result<()>)
        ensures
            r is Ok,
            final(stream)@ == old(stream)@ + be_bits(stride as nat, Self::stride_width()),
    ;

    /// Reads the length of a line.
    fn read_stride(stream: &mut BitStreamReader) -> (r: Result<Option<u64>>)
        ensures
            r is Ok,
            Self::stride_width() <= old(stream)@.len() ==> r->Ok_0 is Some && r->Ok_0->0
                == bits_value(old(stream)@.take(Self::stride_width() as int)) && final(stream)@
                == old(stream)@.skip(Self::stride_width() as int),
            Self::stride_width() > old(stream)@.len() ==> r->Ok_0 is None,
    ;
}

/// The samples of an image whose lines are `stride` apart, without what stands
/// behind the lines.
pub open spec fn dense<T: LosslessSample>(pixels: Seq<T>, line: int, stride: int, t: int) -> Seq<
    int,
> {
    Seq::new(t as nat, |i: int| pixels[(i / line) * stride + i % line].num())
}

/// The samples with lines `stride` apart, and zeros behind the lines.
pub open spec fn spread(p: Seq<int>, line: int, stride: int, height: int) -> Seq<int> {
    Seq::new(
        (height * stride) as nat,
        |i: int|
            if i % stride < line && (i / stride) * line + i % stride < p.len() {
                p[(i / stride) * line + i % stride]
            } else {
                0
            },
    )
}

/// The numbers of samples.
pub open spec fn nums<T: LosslessSample>(pixels: Seq<T>) -> Seq<int> {
    Seq::new(pixels.len(), |i: int| pixels[i].num())
}

proof fn lemma_dense_range<T: LosslessSample>(pixels: Seq<T>, line: int, stride: int, t: int)
    requires
        0 <= t,
    ensures
        in_range(dense(pixels, line, stride, t), T::max()),
{
    let p = dense(pixels, line, stride, t);
    assert forall|i: int| 0 <= i < p.len() implies 0 <= #[trigger] p[i] <= T::max() by {
        pixels[(i / line) * stride + i % line].lemma_range();
    }
}

/// The neighbours of the sample in row `row` and column `col`.
proof fn lemma_grid_neighbours(p: Seq<int>, line: int, depth: int, row: int, col: int)
    requires
        0 <= row,
        0 <= col < line,
        0 < depth,
    ensures
        ({
            let t = row * line + col;
            &&& left(p, line, depth, t) == if col >= depth {
                p[row * line + (col - depth)]
            } else {
                0
            }
            &&& above(p, line, t) == if row > 0 {
                p[(row - 1) * line + col]
            } else {
                0
            }
            &&& above_left(p, line, depth, t) == if row > 0 && col >= depth {
                p[(row - 1) * line + (col - depth)]
            } else {
                0
            }
            &&& above_right(p, line, depth, t) == if row > 0 && col + depth < line {
                p[(row - 1) * line + (col + depth)]
            } else {
                0
            }
        }),
{
    let t = row * line + col;
    lemma_place(row, col, line);
    assert((row - 1) * line == row * line - line) by (nonlinear_arith);
    assert(row > 0 ==> row * line >= line) by (nonlinear_arith)
        requires
            0 < line,
    ;
}

/// Where a sample of an image stands in the sequence of samples.
proof fn lemma_dense_at<T: LosslessSample>(
    pixels: Seq<T>,
    line: int,
    stride: int,
    height: int,
    row: int,
    col: int,
)
    requires
        0 <= row < height,
        0 <= col < line,
    ensures
        dense(pixels, line, stride, height * line)[row * line + col] == pixels[row * stride
            + col].num(),
        0 <= row * line + col < height * line,
{
    lemma_place(row, col, line);
    lemma_place_bound(row, col, line, height);
}

/// Where a sample of the sequence stands in the image.
proof fn lemma_spread_at(p: Seq<int>, line: int, stride: int, height: int, row: int, col: int)
    requires
        0 <= row < height,
        0 <= col < line <= stride,
        row * line + col < p.len(),
    ensures
        0 <= row * stride + col < height * stride,
        spread(p, line, stride, height)[row * stride + col] == p[row * line + col],
{
    lemma_place(row, col, stride);
    lemma_place_bound(row, col, stride, height);
}

/// One more sample in the sequence is one more sample in the image.
proof fn lemma_spread_push(
    p: Seq<int>,
    line: int,
    stride: int,
    height: int,
    row: int,
    col: int,
    x: int,
)
    requires
        0 <= row < height,
        0 <= col < line <= stride,
        row * line + col == p.len(),
    ensures
        spread(p.push(x), line, stride, height) == spread(p, line, stride, height).update(
            row * stride + col,
            x,
        ),
        0 <= row * stride + col < height * stride,
{
    lemma_place(row, col, stride);
    lemma_place(row, col, line);
    lemma_place_bound(row, col, stride, height);
    let old_seq = spread(p, line, stride, height);
    let new_seq = spread(p.push(x), line, stride, height);
    assert forall|i: int| 0 <= i < height * stride implies new_seq[i] == old_seq.update(
        row * stride + col,
        x,
    )[i] by {
        lemma_place_parts(i, stride);
        let r = i / stride;
        let c = i % stride;
        if c < line {
            lemma_place(r, c, line);
            if r * line + c == row * line + col {
                assert(r == row && c == col);
            }
        }
    }
    assert(new_seq =~= old_seq.update(row * stride + col, x));
}

/// The start of a row, and what is left behind it.
proof fn lemma_row_start(row: int, stride: int, height: int)
    requires
        0 <= row < height,
        0 <= stride,
    ensures
        0 <= row * stride <= (height - 1) * stride,
        row > 0 ==> row * stride - stride == (row - 1) * stride,
        row > 0 ==> row * stride >= stride,
        row * stride + stride <= height * stride,
{
    assert(0 <= row * stride <= (height - 1) * stride) by (nonlinear_arith)
        requires
            0 <= row <= height - 1,
            0 <= stride,
    ;
    assert(row * stride - stride == (row - 1) * stride) by (nonlinear_arith);
    assert(row > 0 ==> row * stride >= stride) by (nonlinear_arith)
        requires
            0 <= stride,
    ;
    assert((height - 1) * stride + stride == height * stride) by (nonlinear_arith);
}

/// What a stream holds before the samples: the size, the number of channels
/// and the length of a line.
pub open spec fn header_bits<T: LosslessSample>(
    dimensions: PixelDimensions,
    depth: u8,
    stride: usize,
) -> Seq<bool> {
    dimensions.stream_bits() + be_bits(depth as nat, 8) + be_bits(
        stride as nat,
        T::stride_width(),
    )
}

/// What a stream holds of an image with the samples `p`.
pub open spec fn jpg_bits<T: LosslessSample>(
    dimensions: PixelDimensions,
    depth: u8,
    stride: usize,
    p: Seq<int>,
) -> Seq<bool> {
    header_bits::<T>(dimensions, depth, stride) + encoded(
        p,
        dimensions.width * depth,
        depth as int,
        dimensions.height * (dimensions.width * depth),
    )
}

/// Writes the samples of an image.
pub(crate) fn compress<T: LosslessSample>(
    dimensions: PixelDimensions,
    pixels: &[T],
    depth: u8,
    stride: usize,
    stream: &mut BitStreamWriter,
) -> (r: Result<()>)
    requires
        depth > 0,
        dimensions.width * depth <= stride,
        dimensions.height > 0 ==> (dimensions.height - 1) * stride + dimensions.width * depth
            <= pixels@.len(),
    ensures
        r is Ok,
        final(stream)@ == padded(
            old(stream)@ + jpg_bits::<T>(
                dimensions,
                depth,
                stride,
                dense(
                    pixels@,
                    dimensions.width * depth,
                    stride as int,
                    dimensions.height * (dimensions.width * depth),
                ),
            ),
        ),
{
    let ghost start = stream@;
    dimensions.encode(stream)?;
    stream.write(depth)?;
    T::write_stride(stride, stream)?;
    let ghost header = stream@;
    assert(header =~= start + header_bits::<T>(dimensions, depth, stride));

    let width: usize = dimensions.width;
    let height: usize = dimensions.height;
    let depth: usize = depth as usize;
    let line: usize = width * depth;
    let zero: T = T::zero();
    let ghost all = dense(pixels@, line as int, stride as int, (height * line) as int);
    proof {
        assert(0 <= height * line) by (nonlinear_arith)
            requires
                0 <= height,
                0 <= line,
        ;
        lemma_dense_range(pixels@, line as int, stride as int, (height * line) as int);
        zero.lemma_range();
    }
    let len: usize = pixels.len();
    assert(header + encoded(all, line as int, depth as int, 0) =~= header);
    let mut row: usize = 0;
    while row < height
        invariant
            row <= height,
            0 < depth,
            line == width * depth <= stride,
            height > 0 ==> (height - 1) * stride + line <= pixels@.len(),
            all == dense(pixels@, line as int, stride as int, (height * line) as int),
            in_range(all, T::max()),
            T::max() == 255 || T::max() == 0xffff,
            zero.num() == 0,
            pixels@.len() == len,
            stream@ == header + encoded(all, line as int, depth as int, (row * line) as int),
        decreases height - row,
    {
        let ghost row0 = row as int;
        proof {
            lemma_row_start(row as int, stride as int, height as int);
        }
        let this: usize = row * stride;
        let mut col: usize = 0;
        while col < line
            invariant
                row < height,
                row == row0,
                this == row * stride,
                this + line <= pixels@.len(),
                row > 0 ==> this >= stride,
                0 < depth,
                col <= line,
                line <= stride,
                all == dense(pixels@, line as int, stride as int, (height * line) as int),
                in_range(all, T::max()),
                T::max() == 255 || T::max() == 0xffff,
                zero.num() == 0,
                pixels@.len() == len,
                row > 0 ==> this - stride == (row - 1) * stride,
                stream@ == header + encoded(all, line as int, depth as int, row * line + col),
            decreases line - col,
        {
            let ghost t = row * line + col;
            proof {
                lemma_grid_neighbours(all, line as int, depth as int, row as int, col as int);
                lemma_dense_at(
                    pixels@,
                    line as int,
                    stride as int,
                    height as int,
                    row as int,
                    col as int,
                );
                if col >= depth {
                    lemma_dense_at(
                        pixels@,
                        line as int,
                        stride as int,
                        height as int,
                        row as int,
                        col - depth,
                    );
                }
                if row > 0 {
                    lemma_dense_at(
                        pixels@,
                        line as int,
                        stride as int,
                        height as int,
                        row - 1,
                        col as int,
                    );
                    if col >= depth {
                        lemma_dense_at(
                            pixels@,
                            line as int,
                            stride as int,
                            height as int,
                            row - 1,
                            col - depth,
                        );
                    }
                    if col + depth < line {
                        lemma_dense_at(
                            pixels@,
                            line as int,
                            stride as int,
                            height as int,
                            row - 1,
                            col + depth,
                        );
                    }
                }
                lemma_low_bits(all, line as int, depth as int, t, T::max());
                lemma_neighbours(all, all, line as int, depth as int, t, T::max());
            }
            let x: T = pixels[this + col];
            let a: T = if col >= depth {
                pixels[this + col - depth]
            } else {
                zero
            };
            let b: T = if row > 0 {
                pixels[this - stride + col]
            } else {
                zero
            };
            let c: T = if row > 0 && col >= depth {
                pixels[this - stride + col - depth]
            } else {
                zero
            };
            let d: T = if row > 0 && depth < line - col {
                pixels[this - stride + col + depth]
            } else {
                zero
            };
            let k: u32 = T::low_bit_count(a, c, b, d);
            let guess: i32 = T::predict(a, c, b);
            let ghost before = stream@;
            proof {
                crate::rice::lemma_rice_parameter_unique(
                    k as nat,
                    low_bits(all, line as int, depth as int, t),
                    activity(a.num(), c.num(), b.num(), d.num()),
                );
            }
            T::write_sample(k, x, guess, stream)?;
            assert(stream@ =~= header + encoded(all, line as int, depth as int, t + 1));
            col = col + 1;
        }
        proof {
            assert(row * line + line == (row + 1) * line) by (nonlinear_arith);
        }
        row = row + 1;
    }
    assert(stream@ =~= start + jpg_bits::<T>(
        dimensions,
        depth as u8,
        stride,
        all,
    ));
    stream.flush()
}

/// A stream whose runs of zeros can be counted has only such tails.
pub proof fn lemma_zero_runs_tail(bits: Seq<bool>, n: int)
    requires
        zero_runs_fit(bits),
        0 <= n <= bits.len(),
    ensures
        zero_runs_fit(bits.skip(n)),
        leading_zeros(bits) <= u32::MAX,
{
    let tail = bits.skip(n);
    assert forall|i: int| 0 <= i && i + 0x1_0000_0000 <= tail.len() implies leading_zeros(
        #[trigger] tail.skip(i),
    ) <= u32::MAX by {
        assert(tail.skip(i) =~= bits.skip(n + i));
    }
    lemma_leading_zeros_bounds(bits);
    if bits.len() >= 0x1_0000_0000 {
        assert(bits.skip(0) =~= bits);
    }
}

/// What reading one more sample leaves of a stream can still be read.
proof fn lemma_zero_runs_behind(bits: Seq<bool>, k: nat)
    requires
        zero_runs_fit(bits),
        holds_rice(k, bits),
    ensures
        zero_runs_fit(behind_rice(k, bits)),
{
    let n = leading_zeros(bits) as int + 1 + k as int;
    lemma_zero_runs_tail(bits, n);
    assert(behind_rice(k, bits) =~= bits.skip(n));
}

/// Whether pixels hold what reading a stream gave.
pub open spec fn holds_decoded<T: LosslessSample>(
    pixels: Seq<T>,
    d: Decoded,
    line: int,
    stride: int,
    height: int,
) -> bool {
    nums(pixels) == spread(d.samples, line, stride, height)
}

/// The measures of an image.
pub open spec fn measures<T: LosslessSample>(
    dimensions: PixelDimensions,
    depth: int,
    stride: int,
) -> Measures {
    Measures {
        max: T::max(),
        line: dimensions.width * depth,
        stride,
        height: dimensions.height as int,
        depth,
    }
}

/// Reads the samples of an image. Low bits that the stream lacks count as
/// zero, and the reading goes on with what the reader has left; where that is
/// not settled, it succeeds or finds the end of the stream. Lines may be longer
/// than they are apart: the first sample that falls outside of the image then
/// overflows it, unless the stream ends before that.
pub(crate) fn decompress<T: LosslessSample>(
    dimensions: PixelDimensions,
    depth: u8,
    stride: usize,
    stream: &mut BitStreamReader,
) -> (r: Result<Vec<T>>)
    requires
        zero_runs_fit(old(stream)@),
    ensures
        depth == 0 ==> r is Err && r->Err_0 == Error::InvalidDepth(0) && final(stream)@ == old(
            stream,
        )@,
        depth > 0 && (dimensions.width == 0 || dimensions.height == 0) ==> r is Err && r->Err_0
            == (Error::InvalidDimensions { width: dimensions.width, height: dimensions.height })
            && final(stream)@ == old(stream)@,
        depth > 0 && dimensions.width > 0 && dimensions.height > 0 ==> {
            let line = dimensions.width * depth;
            let d = decoded(
                T::max(),
                line,
                depth as int,
                dimensions.height * line,
                old(stream)@,
            );
            let w = walk(
                measures::<T>(dimensions, depth as int, stride as int),
                dimensions.height * line,
                old(stream)@,
            );
            &&& stride == 0 ==> r is Err && r->Err_0 == Error::InvalidStride(0) && final(stream)@
                == old(stream)@
            &&& stride > 0 && (dimensions.height * stride > usize::MAX || line > usize::MAX)
                ==> r is Err && r->Err_0 is BufferOverflow && final(stream)@ == old(stream)@
            &&& 0 < stride < line <= usize::MAX && dimensions.height * stride <= usize::MAX ==> {
                &&& is_eof(r) || (r is Err && r->Err_0 is BufferOverflow)
                &&& w.course !is Open
                &&& w.course is Ended ==> is_eof(r) && final(stream)@ == w.rest
                &&& w.course is Outside ==> r is Err && r->Err_0 is BufferOverflow
                &&& T::max() == 255 ==> w.course !is Unsettled
            }
            &&& stride >= line && dimensions.height * stride <= usize::MAX ==> {
                &&& d.status is Ended ==> is_eof(r)
                &&& d.samples.len() == dimensions.height * line ==> r is Ok && holds_decoded(
                    r->Ok_0@,
                    d,
                    line,
                    stride as int,
                    dimensions.height as int,
                )
                &&& d.status !is Unsettled ==> final(stream)@ == d.rest
                &&& r is Err ==> is_eof(r)
                &&& T::max() == 255 ==> d.status !is Unsettled
                &&& r is Ok ==> r->Ok_0@.len() == dimensions.height * stride
            }
        },
{
    let width: usize = dimensions.width;
    let height: usize = dimensions.height;
    if depth == 0 {
        return Err(Error::InvalidDepth(0));
    }
    if width == 0 || height == 0 {
        return Err(Error::InvalidDimensions { width, height });
    }
    proof {
        assert(width * depth > 0 && width * depth >= depth) by (nonlinear_arith)
            requires
                width > 0,
                depth > 0,
        ;
    }
    if stride == 0 {
        return Err(Error::InvalidStride(stride));
    }
    let step: usize = depth as usize;
    let line: usize = match width.checked_mul(step) {
        Some(line) => line,
        None => {
            return Err(Error::BufferOverflow);
        },
    };
    let total: usize = match height.checked_mul(stride) {
        Some(total) => total,
        None => {
            return Err(Error::BufferOverflow);
        },
    };
    if stride < line {
        return read_overlapping(height, line, step, stride, total, stream);
    }
    read_apart(height, line, step, stride, total, stream)
}

/// Reads the samples of an image whose lines do not overlap.
#[verifier::rlimit(60)]
fn read_apart<T: LosslessSample>(
    height: usize,
    line: usize,
    step: usize,
    stride: usize,
    total: usize,
    stream: &mut BitStreamReader,
) -> (r: Result<Vec<T>>)
    requires
        zero_runs_fit(old(stream)@),
        total == height * stride,
        0 < step,
        0 < line <= stride,
        0 < height,
    ensures
        ({
            let d = decoded(
                T::max(),
                line as int,
                step as int,
                height * line,
                old(stream)@,
            );
            &&& d.status is Ended ==> is_eof(r)
            &&& d.samples.len() == height * line ==> r is Ok && holds_decoded(
                r->Ok_0@,
                d,
                line as int,
                stride as int,
                height as int,
            )
            &&& d.status !is Unsettled ==> final(stream)@ == d.rest
            &&& r is Err ==> is_eof(r)
            &&& T::max() == 255 ==> d.status !is Unsettled
            &&& r is Ok ==> r->Ok_0@.len() == total
        }),
{
    let zero: T = T::zero();
    let mut pixels: Vec<T> = T::zeros(total);
    let ghost bits = stream@;
    let ghost max = T::max();
    proof {
        zero.lemma_range();
        assert(nums(pixels@) =~= spread(Seq::empty(), line as int, stride as int, height as int));
        lemma_decoded(max, line as int, step as int, height * line, bits);
    }
    let mut row: usize = 0;
    while row < height
        invariant
            row <= height,
            0 < step,
            0 < line <= stride,
            bits == old(stream)@,
            total == height * stride,
            max == T::max(),
            max == 255 || max == 0xffff,
            max == 255 ==> decoded(max, line as int, step as int, height * line, bits).status
                !is Unsettled,
            zero.num() == 0,
            pixels@.len() == total,
            zero_runs_fit(stream@),
            ({
                let d = decoded(max, line as int, step as int, row * line, bits);
                &&& d.status !is Ended
                &&& d.status is Open ==> stream@ == d.rest
                &&& d.samples.len() == row * line ==> holds_decoded(
                    pixels@,
                    d,
                    line as int,
                    stride as int,
                    height as int,
                )
            }),
        decreases height - row,
    {
        proof {
            lemma_row_start(row as int, stride as int, height as int);
        }
        let this: usize = row * stride;
        let mut col: usize = 0;
        while col < line
            invariant
                row < height,
                this == row * stride,
                this + stride <= total,
                row > 0 ==> this - stride == (row - 1) * stride,
                row > 0 ==> this >= stride,
                0 < step,
                col <= line,
                0 < line <= stride,
                bits == old(stream)@,
                total == height * stride,
                max == T::max(),
                max == 255 || max == 0xffff,
                max == 255 ==> decoded(max, line as int, step as int, height * line, bits).status
                    !is Unsettled,
                zero.num() == 0,
                pixels@.len() == total,
                zero_runs_fit(stream@),
                ({
                    let d = decoded(max, line as int, step as int, row * line + col, bits);
                    &&& d.status !is Ended
                    &&& d.status is Open ==> stream@ == d.rest
                    &&& d.samples.len() == row * line + col ==> holds_decoded(
                        pixels@,
                        d,
                        line as int,
                        stride as int,
                        height as int,
                    )
                }),
            decreases line - col,
        {
            let ghost t = row * line + col;
            let ghost d0 = decoded(max, line as int, step as int, t, bits);
            let ghost p = d0.samples;
            proof {
                lemma_place(row as int, col as int, line as int);
                lemma_place_bound(row as int, col as int, line as int, height as int);
                lemma_decoded(max, line as int, step as int, t, bits);
                if d0.status is Open {
                    lemma_decoded_neighbours(
                        nums(pixels@),
                        p,
                        line as int,
                        stride as int,
                        height as int,
                        step as int,
                        row as int,
                        col as int,
                    );
                    lemma_low_bits(p, line as int, step as int, t, max);
                }
                lemma_zero_runs_tail(stream@, 0);
                lemma_leading_zeros_bounds(stream@);
            }
            let a: T = if col >= step {
                pixels[this + col - step]
            } else {
                zero
            };
            let b: T = if row > 0 {
                pixels[this - stride + col]
            } else {
                zero
            };
            let c: T = if row > 0 && col >= step {
                pixels[this - stride + col - step]
            } else {
                zero
            };
            let d: T = if row > 0 && step < line - col {
                pixels[this - stride + col + step]
            } else {
                zero
            };
            let k: u32 = T::low_bit_count(a, c, b, d);
            let guess: i32 = T::predict(a, c, b);
            let ghost before = stream@;
            proof {
                if d0.status is Open {
                    crate::rice::lemma_rice_parameter_unique(
                        k as nat,
                        low_bits(p, line as int, step as int, t),
                        activity(a.num(), c.num(), b.num(), d.num()),
                    );
                    if !(decoded(max, line as int, step as int, t + 1, bits).status is Open) {
                        lemma_decoded_stops(
                            max,
                            line as int,
                            step as int,
                            t + 1,
                            height * line,
                            bits,
                        );
                    }
                } else {
                    lemma_decoded_stops(max, line as int, step as int, t, height * line, bits);
                }
            }
            let x: T = match T::read_sample(k, guess, stream) {
                Ok(x) => x,
                Err(e) => {
                    return Err(e);
                },
            };
            let ghost pixels0 = pixels@;
            pixels.set(this + col, x);
            proof {
                if holds_rice(k as nat, before) {
                    lemma_zero_runs_behind(before, k as nat);
                } else {
                    assert(zero_runs_fit(stream@));
                }
                if d0.status is Open {
                    assert(decoded(max, line as int, step as int, t + 1, bits) == decoded_step(
                        max,
                        line as int,
                        step as int,
                        d0,
                    ));
                    lemma_spread_push(
                        p,
                        line as int,
                        stride as int,
                        height as int,
                        row as int,
                        col as int,
                        x.num(),
                    );
                    assert(nums(pixels@) =~= nums(pixels0).update(this + col, x.num()));
                }
            }
            col = col + 1;
        }
        proof {
            assert(row * line + line == (row + 1) * line) by (nonlinear_arith);
        }
        row = row + 1;
    }
    Ok(pixels)
}

/// The neighbours of the next sample, read from pixels that hold the samples
/// before it.
proof fn lemma_decoded_neighbours(
    q: Seq<int>,
    p: Seq<int>,
    line: int,
    stride: int,
    height: int,
    depth: int,
    row: int,
    col: int,
)
    requires
        0 <= row < height,
        0 <= col < line <= stride,
        0 < depth,
        p.len() == row * line + col,
        q == spread(p, line, stride, height),
    ensures
        ({
            let t = row * line + col;
            &&& left(p, line, depth, t) == if col >= depth {
                q[row * stride + (col - depth)]
            } else {
                0
            }
            &&& above(p, line, t) == if row > 0 {
                q[(row - 1) * stride + col]
            } else {
                0
            }
            &&& above_left(p, line, depth, t) == if row > 0 && col >= depth {
                q[(row - 1) * stride + (col - depth)]
            } else {
                0
            }
            &&& above_right(p, line, depth, t) == if row > 0 && col + depth < line {
                q[(row - 1) * stride + (col + depth)]
            } else {
                0
            }
        }),
{
    lemma_grid_neighbours(p, line, depth, row, col);
    assert((row - 1) * line + line == row * line) by (nonlinear_arith);
    if col >= depth {
        lemma_spread_at(p, line, stride, height, row, col - depth);
    }
    if row > 0 {
        lemma_spread_at(p, line, stride, height, row - 1, col);
        if col >= depth {
            lemma_spread_at(p, line, stride, height, row - 1, col - depth);
        }
        if col + depth < line {
            lemma_spread_at(p, line, stride, height, row - 1, col + depth);
        }
    }
}

/// A reading that has stopped gives no more samples.
proof fn lemma_decoded_stops(max: int, line: int, depth: int, t: int, n: int, bits: Seq<bool>)
    requires
        0 <= t <= n,
        decoded(max, line, depth, t, bits).status !is Open,
    ensures
        decoded(max, line, depth, n, bits) == decoded(max, line, depth, t, bits),
    decreases n - t,
{
    if t < n {
        lemma_decoded_stops(max, line, depth, t, n - 1, bits);
    }
}

/// The samples of an image, line after line.
pub open spec fn image_samples<const DEPTH: usize, T: LosslessSample>(
    image: ImageRef<'_, PixelsRef<'_, DEPTH, T>>,
) -> Seq<int> {
    dense(
        image.spec_pixels()@,
        image.spec_dimensions().width * (DEPTH as u8),
        image.spec_line_stride() as int,
        image.spec_dimensions().height * (image.spec_dimensions().width * (DEPTH as u8)),
    )
}

/// Whether the lines of an image are all there.
pub open spec fn image_complete<const DEPTH: usize, T: LosslessSample>(
    image: ImageRef<'_, PixelsRef<'_, DEPTH, T>>,
) -> bool {
    let line = image.spec_dimensions().width * (DEPTH as u8);
    &&& 0 < DEPTH < 256
    &&& line <= image.spec_line_stride()
    &&& image.spec_dimensions().height > 0 ==> (image.spec_dimensions().height - 1)
        * image.spec_line_stride() + line <= image.spec_pixels()@.len()
}

impl<'a, const DEPTH: usize, T: LosslessSample> Jpg<'a, PixelsRef<'a, DEPTH, T>> {
    /// Writes the image.
    pub fn encode(&self, stream: &mut BitStreamWriter) -> (r: Result<()>)
        requires
            image_complete(self.image),
        ensures
            r is Ok,
            final(stream)@ == padded(
                old(stream)@ + jpg_bits::<T>(
                    self.image.spec_dimensions(),
                    DEPTH as u8,
                    self.image.spec_line_stride(),
                    image_samples(self.image),
                ),
            ),
    {
        let dimensions = self.image.dimensions();
        let stride: usize = self.image.line_stride();
        let depth: u8 = self.image.depth();
        compress(dimensions, self.image.pixels().as_slice(), depth, stride, stream)
    }
}

/// The number of channels that a stream holds behind the size.
pub open spec fn read_depth(bits: Seq<bool>) -> nat {
    bits_value(bits.skip(64).take(8))
}

/// The length of a line that a stream holds behind the number of channels.
pub open spec fn read_line_stride<T: LosslessSample>(bits: Seq<bool>) -> nat {
    bits_value(bits.skip(72).take(T::stride_width() as int))
}

/// What a stream holds behind the header.
pub open spec fn body<T: LosslessSample>(bits: Seq<bool>) -> Seq<bool> {
    bits.skip(72 + T::stride_width() as int)
}

/// What reading the samples behind a whole header gives.
pub open spec fn decoded_body<T: LosslessSample>(bits: Seq<bool>) -> Decoded {
    let line = read_width(bits) * read_depth(bits);
    decoded(
        T::max(),
        line as int,
        read_depth(bits) as int,
        (read_height(bits) * line) as int,
        body::<T>(bits),
    )
}

/// A header that no image has, and the error that says so.
pub open spec fn header_refused<const DEPTH: usize, T: LosslessSample>(
    bits: Seq<bool>,
    e: Error,
) -> bool {
    let width = read_width(bits);
    let height = read_height(bits);
    let depth = read_depth(bits);
    let stride = read_line_stride::<T>(bits);
    if stride > usize::MAX {
        e is BufferOverflow
    } else if depth == 0 {
        e == Error::InvalidDepth(0)
    } else if width == 0 || height == 0 {
        e == (Error::InvalidDimensions { width: width as usize, height: height as usize })
    } else if stride == 0 {
        e == Error::InvalidStride(0)
    } else if height * stride > usize::MAX || width * depth > usize::MAX {
        e is BufferOverflow
    } else if stride >= width * depth && (DEPTH as u8) * width > usize::MAX {
        e is BufferOverflow
    } else {
        false
    }
}

/// Whether a header is that of an image whose lines overlap.
pub open spec fn header_overlaps<T: LosslessSample>(bits: Seq<bool>) -> bool {
    let width = read_width(bits);
    let height = read_height(bits);
    let depth = read_depth(bits);
    let stride = read_line_stride::<T>(bits);
    &&& 0 < depth
    &&& 0 < width
    &&& 0 < height
    &&& 0 < stride < width * depth <= usize::MAX
    &&& height * stride <= usize::MAX
}

/// What reading the samples behind a header gives whose lines overlap.
pub open spec fn walked_body<T: LosslessSample>(bits: Seq<bool>) -> Walk {
    let line = read_width(bits) * read_depth(bits);
    walk(
        Measures {
            max: T::max(),
            line: line as int,
            stride: read_line_stride::<T>(bits) as int,
            height: read_height(bits) as int,
            depth: read_depth(bits) as int,
        },
        (read_height(bits) * line) as int,
        body::<T>(bits),
    )
}

/// Whether a header is that of an image which fits the memory.
pub open spec fn header_accepted<const DEPTH: usize, T: LosslessSample>(bits: Seq<bool>) -> bool {
    let width = read_width(bits);
    let height = read_height(bits);
    let depth = read_depth(bits);
    let stride = read_line_stride::<T>(bits);
    &&& 0 < depth
    &&& 0 < width
    &&& 0 < height
    &&& width * depth <= stride <= usize::MAX
    &&& height * stride <= usize::MAX
    &&& (DEPTH as u8) * width <= usize::MAX
}

impl<'a, const DEPTH: usize, T: LosslessSample> Jpg<'a, Pixels<DEPTH, T>> {
    /// Reads an image. The number of channels and the length of a line are
    /// those of the stream. Low bits that the stream lacks count as zero, and
    /// the reading goes on with what the reader has left; where that is not
    /// settled, which images of bytes never meet, it succeeds or finds the end
    /// of the stream. Lines may be longer than they are apart: the first sample
    /// that falls outside of the image then overflows it, unless the stream ends
    /// before that.
    pub fn decode(stream: &mut BitStreamReader) -> (r: Result<Image<Pixels<DEPTH, T>>>)
        requires
            zero_runs_fit(old(stream)@),
        ensures
            old(stream)@.len() < 32 ==> is_failed_to_decode(r, "width"@),
            32 <= old(stream)@.len() < 64 ==> is_failed_to_decode(r, "height"@),
            64 <= old(stream)@.len() < 72 ==> is_failed_to_decode(r, "depth"@),
            72 <= old(stream)@.len() < 72 + T::stride_width() ==> is_failed_to_decode(r, "stride"@),
            72 + T::stride_width() <= old(stream)@.len() && !header_accepted::<DEPTH, T>(
                old(stream)@,
            ) && !header_overlaps::<T>(old(stream)@) ==> r is Err && header_refused::<DEPTH, T>(
                old(stream)@,
                r->Err_0,
            ) && final(stream)@ == body::<T>(old(stream)@),
            72 + T::stride_width() <= old(stream)@.len() && header_overlaps::<T>(old(stream)@)
                ==> {
                let w = walked_body::<T>(old(stream)@);
                &&& is_eof(r) || (r is Err && r->Err_0 is BufferOverflow)
                &&& w.course !is Open
                &&& w.course is Ended ==> is_eof(r) && final(stream)@ == w.rest
                &&& w.course is Outside ==> r is Err && r->Err_0 is BufferOverflow
                &&& T::max() == 255 ==> w.course !is Unsettled
            },
            72 + T::stride_width() <= old(stream)@.len() && header_accepted::<DEPTH, T>(
                old(stream)@,
            ) ==> {
                let d = decoded_body::<T>(old(stream)@);
                let line = read_width(old(stream)@) * read_depth(old(stream)@);
                &&& d.status is Ended ==> is_eof(r)
                &&& d.samples.len() == read_height(old(stream)@) * line ==> r is Ok
                    && holds_decoded(
                    r->Ok_0.spec_pixels()@,
                    d,
                    line as int,
                    read_line_stride::<T>(old(stream)@) as int,
                    read_height(old(stream)@) as int,
                )
                &&& d.status !is Unsettled ==> final(stream)@ == d.rest
                &&& r is Err ==> is_eof(r)
                &&& T::max() == 255 ==> d.status !is Unsettled
                &&& r is Ok ==> {
                    &&& r->Ok_0.spec_dimensions().width == read_width(old(stream)@)
                    &&& r->Ok_0.spec_dimensions().height == read_height(old(stream)@)
                    &&& r->Ok_0.spec_subsampling() == Subsampling::Sample444
                    &&& r->Ok_0.spec_line_stride() == (DEPTH as u8) * read_width(old(stream)@)
                    &&& r->Ok_0.spec_pixels()@.len() == read_height(old(stream)@)
                        * read_line_stride::<T>(old(stream)@)
                }
            },
    {
        let ghost bits = stream@;
        proof {
            lemma2_to64();
        }
        let dimensions = PixelDimensions::decode(stream)?;
        let depth: u8 = match stream.read::<u8>()? {
            Some(depth) => depth,
            None => {
                return Err(Error::FailedToDecode("depth".to_owned()));
            },
        };
        assert(stream@ =~= bits.skip(72));
        let stride: u64 = match T::read_stride(stream)? {
            Some(stride) => stride,
            None => {
                return Err(Error::FailedToDecode("stride".to_owned()));
            },
        };
        proof {
            assert(stream@ =~= body::<T>(bits));
            lemma_zero_runs_tail(bits, 72 + T::stride_width() as int);
        }
        if stride > usize::MAX as u64 {
            return Err(Error::BufferOverflow);
        }
        let stride: usize = stride as usize;
        if depth > 0 && dimensions.width > 0 && dimensions.height > 0 {
            proof {
                assert(dimensions.width * depth > 0) by (nonlinear_arith)
                    requires
                        dimensions.width > 0,
                        depth > 0,
                ;
            }
            let short: bool = match dimensions.width.checked_mul(depth as usize) {
                Some(line) => stride < line,
                None => true,
            };
            if !short {
                let channels: u8 = <Pixels<DEPTH, T> as Depth>::depth();
                match dimensions.width.checked_mul(channels as usize) {
                    Some(_) => {},
                    None => {
                        proof {
                            vstd::arithmetic::mul::lemma_mul_is_commutative(
                                dimensions.width as int,
                                channels as int,
                            );
                        }
                        return Err(Error::BufferOverflow);
                    },
                }
            }
        }
        proof {
            vstd::arithmetic::mul::lemma_mul_is_commutative(
                dimensions.width as int,
                (DEPTH as u8) as int,
            );
        }
        match decompress::<T>(dimensions, depth, stride, stream) {
            Ok(pixels) => Ok(Image::new(dimensions, Pixels::new(pixels), Subsampling::Sample444)),
            Err(e) => Err(e),
        }
    }
}

/// What a reader finds in the header of an image that was written.
proof fn lemma_header_comes_back<T: LosslessSample>(
    dimensions: PixelDimensions,
    depth: u8,
    stride: usize,
    rest: Seq<bool>,
)
    requires
        dimensions.width <= u32::MAX,
        dimensions.height <= u32::MAX,
        stride < pow2(T::stride_width()),
    ensures
        ({
            let stream = header_bits::<T>(dimensions, depth, stride) + rest;
            &&& stream.len() >= 72 + T::stride_width()
            &&& read_width(stream) == dimensions.width
            &&& read_height(stream) == dimensions.height
            &&& read_depth(stream) == depth
            &&& read_line_stride::<T>(stream) == stride
            &&& body::<T>(stream) == rest
        }),
{
    lemma2_to64();
    let stride_bits = be_bits(stride as nat, T::stride_width());
    let depth_bits = be_bits(depth as nat, 8);
    let stream = header_bits::<T>(dimensions, depth, stride) + rest;
    assert(stream =~= dimensions.stream_bits() + (depth_bits + (stride_bits + rest)));
    law_pixel_dimensions_come_back(dimensions, depth_bits + (stride_bits + rest));
    law_bits_come_back(depth as nat, 8, stride_bits + rest);
    law_bits_come_back(stride as nat, T::stride_width(), rest);
    assert(stream.skip(72) =~= stream.skip(64).skip(8));
    assert(body::<T>(stream) =~= stream.skip(72).skip(T::stride_width() as int));
}

/// Nothing is lost: an image that was written without gaps between its lines
/// is read back sample by sample, and the stream goes on behind it.
pub proof fn law_image_comes_back<const DEPTH: usize, T: LosslessSample>(
    dimensions: PixelDimensions,
    pixels: Seq<T>,
    stride: usize,
    rest: Seq<bool>,
)
    requires
        0 < DEPTH < 256,
        0 < dimensions.width <= u32::MAX,
        0 < dimensions.height <= u32::MAX,
        stride == dimensions.width * DEPTH,
        stride < pow2(T::stride_width()),
        dimensions.height * stride <= usize::MAX,
        pixels.len() == dimensions.height * stride,
    ensures
        ({
            let p = dense(
                pixels,
                stride as int,
                stride as int,
                dimensions.height * stride,
            );
            let stream = jpg_bits::<T>(dimensions, DEPTH as u8, stride, p) + rest;
            let d = decoded_body::<T>(stream);
            &&& stream.len() >= 72 + T::stride_width()
            &&& header_accepted::<DEPTH, T>(stream)
            &&& read_width(stream) == dimensions.width
            &&& read_height(stream) == dimensions.height
            &&& read_depth(stream) == DEPTH
            &&& read_line_stride::<T>(stream) == stride
            &&& d.status is Open
            &&& d.rest == rest
            &&& d.samples.len() == dimensions.height * stride
            &&& forall|q: Seq<T>|
                #[trigger] holds_decoded(
                    q,
                    d,
                    stride as int,
                    stride as int,
                    dimensions.height as int,
                ) ==> nums(q) == nums(pixels)
        }),
{
    let line = stride as int;
    let height = dimensions.height as int;
    let n = height * line;
    let p = dense(pixels, line, line, n);
    let depth = DEPTH as u8;
    let codes = encoded(p, line, depth as int, n);
    let stream = jpg_bits::<T>(dimensions, depth, stride, p) + rest;
    assert(stream =~= header_bits::<T>(dimensions, depth, stride) + (codes + rest));
    lemma_header_comes_back::<T>(dimensions, depth, stride, codes + rest);
    assert(line > 0) by (nonlinear_arith)
        requires
            line == dimensions.width * DEPTH,
            0 < DEPTH,
            0 < dimensions.width,
    ;
    assert(n >= 0);
    lemma_dense_range(pixels, line, line, n);
    if pixels.len() > 0 {
        pixels[0].lemma_range();
    }
    assert(n > 0) by (nonlinear_arith)
        requires
            n == height * line,
            height > 0,
            line > 0,
    ;
    law_samples_come_back(p, T::max(), line, depth as int, n, rest);
    assert(p.take(n) =~= p);
    vstd::arithmetic::mul::lemma_mul_is_commutative(dimensions.width as int, depth as int);
    let d = decoded_body::<T>(stream);
    assert forall|q: Seq<T>| #[trigger] holds_decoded(q, d, line, line, height) implies nums(q)
        == nums(pixels) by {
        assert forall|i: int| 0 <= i < n implies spread(p, line, line, height)[i]
            == pixels[i].num() by {
            lemma_place_parts(i, line);
        }
        assert(nums(q) =~= nums(pixels));
    }
}

/// Sample by sample, line by line: a dense image has the samples of the lines and nothing of
/// what lies between them, and a spread one has them in their places and zeros between.
pub proof fn law_lines_keep_their_samples<T: LosslessSample>(
    pixels: Seq<T>,
    p: Seq<int>,
    line: int,
    stride: int,
    height: int,
    row: int,
    col: int,
)
    requires
        0 < line <= stride,
        p.len() == height * line,
        0 <= row < height,
        0 <= col < stride,
    ensures
        spread(p, line, stride, height).len() == height * stride,
        col < line ==> dense(pixels, line, stride, height * line)[row * line + col] == pixels[row
            * stride + col].num(),
        col < line ==> spread(p, line, stride, height)[row * stride + col] == p[row * line + col],
        col >= line ==> spread(p, line, stride, height)[row * stride + col] == 0,
{
    lemma_place(row, col, stride);
    lemma_place_bound(row, col, stride, height);
    if col < line {
        lemma_place(row, col, line);
        lemma_place_bound(row, col, line, height);
    }
}

/// A stream starts with the width, the height, the number of channels and the length of a
/// line.
pub proof fn law_header_has_its_places<T: LosslessSample>(
    dimensions: PixelDimensions,
    depth: u8,
    stride: usize,
)
    requires
        dimensions.width < 0x1_0000_0000,
        dimensions.height < 0x1_0000_0000,
        stride < pow2(T::stride_width()),
    ensures
        ({
            let bits = header_bits::<T>(dimensions, depth, stride);
            &&& bits.len() == 72 + T::stride_width()
            &&& bits_value(bits.subrange(0, 32)) == dimensions.width
            &&& bits_value(bits.subrange(32, 64)) == dimensions.height
            &&& bits_value(bits.subrange(64, 72)) == depth
            &&& bits_value(bits.skip(72)) == stride
        }),
{
    lemma2_to64();
    let bits = header_bits::<T>(dimensions, depth, stride);
    let size = dimensions.stream_bits();
    crate::dimensions::law_width_comes_first(dimensions.width as nat, dimensions.height as nat);
    crate::bits::lemma_be_bits_len(depth as nat, 8);
    crate::bits::lemma_be_bits_len(stride as nat, T::stride_width());
    crate::bits::lemma_bits_value_of_be_bits(depth as nat, 8);
    crate::bits::lemma_bits_value_of_be_bits(stride as nat, T::stride_width());
    assert(bits.subrange(0, 32) =~= size.subrange(0, 32));
    assert(bits.subrange(32, 64) =~= size.subrange(32, 64));
    assert(bits.subrange(64, 72) =~= be_bits(depth as nat, 8));
    assert(bits.skip(72) =~= be_bits(stride as nat, T::stride_width()));
}

/// Every header is that of an image that can be read, that of one whose lines overlap, or refused
/// with one error: no channels, no pixels, no stride, or more than memory holds.
pub proof fn law_headers_are_settled<const DEPTH: usize, T: LosslessSample>(
    bits: Seq<bool>,
    e: Error,
)
    requires
        0 < DEPTH < 256,
    ensures
        ({
            let width = read_width(bits);
            let height = read_height(bits);
            let depth = read_depth(bits);
            let stride = read_line_stride::<T>(bits);
            let fits = stride <= usize::MAX;
            &&& header_accepted::<DEPTH, T>(bits) ==> !header_overlaps::<T>(bits)
                && !header_refused::<DEPTH, T>(bits, e)
            &&& header_overlaps::<T>(bits) ==> !header_refused::<DEPTH, T>(bits, e)
            &&& header_overlaps::<T>(bits) ==> stride < width * depth
            &&& header_accepted::<DEPTH, T>(bits) ==> width * depth <= stride
            &&& !header_accepted::<DEPTH, T>(bits) && !header_overlaps::<T>(bits)
                ==> header_refused::<DEPTH, T>(bits, Error::BufferOverflow) || depth == 0 || width
                == 0 || height == 0 || stride == 0
            &&& fits && depth == 0 ==> (header_refused::<DEPTH, T>(bits, e) <==> e
                == Error::InvalidDepth(0))
            &&& fits && depth > 0 && (width == 0 || height == 0) ==> (header_refused::<DEPTH, T>(
                bits,
                e,
            ) ==> e is InvalidDimensions)
            &&& fits && depth > 0 && width > 0 && height > 0 && stride == 0 ==> (header_refused::<
                DEPTH,
                T,
            >(bits, e) <==> e == Error::InvalidStride(0))
            &&& depth > 0 && width > 0 && height > 0 && stride > 0 && header_refused::<DEPTH, T>(
                bits,
                e,
            ) ==> e is BufferOverflow
            &&& stride > usize::MAX && header_refused::<DEPTH, T>(bits, e) ==> e is BufferOverflow
        }),
{
    let width = read_width(bits) as int;
    let height = read_height(bits) as int;
    let depth = read_depth(bits) as int;
    let stride = read_line_stride::<T>(bits) as int;
    assert(depth == 0 ==> width * depth == 0) by (nonlinear_arith);
    assert(width == 0 ==> width * depth == 0) by (nonlinear_arith);
    assert(depth > 0 && width > 0 ==> width * depth > 0) by (nonlinear_arith);
}

/// The samples of an image that are coded are those of its pixels, channel by channel, line by
/// line, without what lies between the lines.
pub proof fn law_pixels_are_coded_in_order<const DEPTH: usize, T: LosslessSample>(
    image: ImageRef<'_, PixelsRef<'_, DEPTH, T>>,
    row: int,
    col: int,
    channel: int,
)
    requires
        0 < DEPTH < 256,
        0 <= row < image.spec_dimensions().height,
        0 <= col < image.spec_dimensions().width,
        0 <= channel < DEPTH,
    ensures
        ({
            let line = image.spec_dimensions().width * DEPTH;
            let place = col * DEPTH + channel;
            let samples = image_samples(image);
            &&& samples.len() == image.spec_dimensions().height * line
            &&& 0 <= row * line + place < samples.len()
            &&& samples[row * line + place] == image.spec_pixels()@[row
                * image.spec_line_stride() + place].num()
        }),
{
    let width = image.spec_dimensions().width as int;
    let height = image.spec_dimensions().height as int;
    let line = width * DEPTH;
    let place = col * DEPTH + channel;
    lemma_place(col, channel, DEPTH as int);
    lemma_place_bound(col, channel, DEPTH as int, width);
    lemma_place(row, place, line);
    lemma_place_bound(row, place, line, height);
}

/// A stream whose lines lie apart can be read along the lines as well: the samples stand where
/// they are spread to.
pub proof fn law_bodies_are_read_alike<T: LosslessSample>(
    bits: Seq<bool>,
    sample: T,
    row: int,
    col: int,
)
    requires
        ({
            let line = read_width(bits) * read_depth(bits);
            &&& 0 < read_depth(bits) <= line <= read_line_stride::<T>(bits)
            &&& 0 <= row < read_height(bits)
            &&& 0 <= col < line
        }),
    ensures
        ({
            let line = read_width(bits) * read_depth(bits);
            let stride = read_line_stride::<T>(bits);
            let d = decoded_body::<T>(bits);
            let w = walked_body::<T>(bits);
            &&& w.pixels.len() == read_height(bits) * stride
            &&& row * line + col < d.samples.len() ==> w.pixels[row * stride + col]
                == d.samples[row * line + col]
        }),
{
    let line = (read_width(bits) * read_depth(bits)) as int;
    sample.lemma_range();
    let height = read_height(bits) as int;
    assert(0 <= height * line) by (nonlinear_arith)
        requires
            0 <= height,
            0 <= line,
    ;
    let m = Measures {
        max: T::max(),
        line,
        stride: read_line_stride::<T>(bits) as int,
        height,
        depth: read_depth(bits) as int,
    };
    self::walking::law_both_ways_read_alike(m, height * line, body::<T>(bits), row, col);
}

} // verus!
