//! Chroma subsampling.
use vstd::prelude::*;

use crate::bits::{be_bits, bits_value};
use crate::bitstream::{BitStreamReader, BitStreamWriter};
use crate::dimensions::PixelDimensions;
use crate::error::{is_failed_to_decode, Error, Result};
use crate::numeric::{ceil_div, div_ceil, lemma_place, lemma_place_bound, lemma_place_parts};
use crate::parallel::{par_map, par_map_range};

verus! {

/// How many luma samples share a chroma sample.
#[derive(Debug, Clone, Copy, PartialEq, Eq, Structural)]
pub enum Subsampling {
    /// Four in a row.
    Sample411,
    /// Two by two.
    Sample420,
    /// Two in a row.
    Sample422,
    /// One.
    Sample444,
}

impl Subsampling {
    /// The byte that stands for a mode.
    pub open spec fn code(self) -> u8 {
        match self {
            Subsampling::Sample411 => 0,
            Subsampling::Sample420 => 1,
            Subsampling::Sample422 => 2,
            Subsampling::Sample444 => 3,
        }
    }

    /// The mode of a byte.
    pub fn from_code(value: u8) -> (r: Option<Self>)
        ensures
            r is Some <==> value <= 3,
            r is Some ==> r->0.code() == value,
    {
        match value {
            0 => Some(Subsampling::Sample411),
            1 => Some(Subsampling::Sample420),
            2 => Some(Subsampling::Sample422),
            3 => Some(Subsampling::Sample444),
            _ => None,
        }
    }

    /// Writes the mode as a byte.
    pub fn encode(&self, stream: &mut BitStreamWriter) -> (r: Result<()>)
        ensures
            r is Ok,
            final(stream)@ == old(stream)@ + be_bits(self.code() as nat, 8),
    {
        stream.write(u8::from(*self))
    }

    /// Reads a mode. A byte that stands for none is invalid data.
    pub fn decode(stream: &mut BitStreamReader) -> (r: Result<Self>)
        ensures
            old(stream)@.len() < 8 ==> is_failed_to_decode(r, "subsampling"@),
            old(stream)@.len() >= 8 ==> final(stream)@ == old(stream)@.skip(8),
            old(stream)@.len() >= 8 && bits_value(old(stream)@.take(8)) <= 3 ==> r is Ok
                && r->Ok_0.code() == bits_value(old(stream)@.take(8)),
            old(stream)@.len() >= 8 && bits_value(old(stream)@.take(8)) > 3 ==> r is Err
                && r->Err_0 is InvalidData,
    {
        let value: u8 = match stream.read::<u8>()? {
            Some(value) => value,
            None => {
                return Err(Error::FailedToDecode("subsampling".to_owned()));
            },
        };
        match Subsampling::from_code(value) {
            Some(subsampling) => Ok(subsampling),
            None => Err(Error::InvalidData),
        }
    }
}

/// A mode that was written is read back, and the stream goes on behind it.
pub proof fn law_subsampling_comes_back(subsampling: Subsampling, rest: Seq<bool>)
    ensures
        ({
            let stream = be_bits(subsampling.code() as nat, 8) + rest;
            &&& stream.len() >= 8
            &&& bits_value(stream.take(8)) == subsampling.code()
            &&& stream.skip(8) == rest
        }),
        forall|other: Subsampling| #[trigger]
            other.code() == subsampling.code() ==> other == subsampling,
{
    crate::bitstream::law_value_comes_back(subsampling.code(), rest);
}

impl From<Subsampling> for u8 {
    fn from(value: Subsampling) -> (r: Self) {
        match value {
            Subsampling::Sample411 => 0,
            Subsampling::Sample420 => 1,
            Subsampling::Sample422 => 2,
            Subsampling::Sample444 => 3,
        }
    }
}

impl vstd::std_specs::convert::FromSpecImpl<Subsampling> for u8 {
    open spec fn obeys_from_spec() -> bool {
        true
    }

    open spec fn from_spec(value: Subsampling) -> Self {
        value.code()
    }
}

/// A pixel with its opacity.
#[derive(Debug)]
pub struct Rgba<T> {
    pub r: T,
    pub g: T,
    pub b: T,
    pub a: T,
}

impl<T: Copy> Clone for Rgba<T> {
    fn clone(&self) -> (r: Self)
        ensures
            r == *self,
    {
        *self
    }
}

impl<T: Copy> Copy for Rgba<T> {

}

/// The channels of a pixel.
#[derive(Debug, Clone, Copy, PartialEq, Eq, Structural)]
pub enum YCBCRChannels {
    Y,
    CB,
    CR,
    A,
}

/// The samples of a share of the blocks of eight that samples fill. Blocks and
/// shares are rounded up.
pub open spec fn padded_share(samples: int, share: int) -> int {
    ceil_div(ceil_div(samples, 8), share) * 8
}

/// The size of the chroma planes in whole blocks, where they are smaller than
/// the luma plane.
pub open spec fn chroma_dimensions(
    luma: PixelDimensions,
    subsampling: Subsampling,
) -> PixelDimensions {
    match subsampling {
        Subsampling::Sample444 => luma,
        Subsampling::Sample422 => PixelDimensions {
            width: padded_share(luma.width as int, 2) as usize,
            height: luma.height,
        },
        Subsampling::Sample411 => PixelDimensions {
            width: padded_share(luma.width as int, 4) as usize,
            height: luma.height,
        },
        Subsampling::Sample420 => PixelDimensions {
            width: padded_share(luma.width as int, 2) as usize,
            height: padded_share(luma.height as int, 2) as usize,
        },
    }
}

/// A share of samples in whole blocks.
fn share_of(samples: usize, share: usize) -> (r: usize)
    requires
        share == 2 || share == 4,
    ensures
        r == padded_share(samples as int, share as int),
{
    let blocks: usize = div_ceil(samples, 8);
    let part: usize = div_ceil(blocks, share);
    part * 8
}

/// The size of the chroma planes of an image. A side that is subsampled is
/// rounded up to whole blocks, so that reading and writing agree on it.
pub fn calculate_chroma_dimensions(
    luma_dimensions: PixelDimensions,
    subsampling: Subsampling,
) -> (r: PixelDimensions)
    ensures
        r == chroma_dimensions(luma_dimensions, subsampling),
{
    let PixelDimensions { width, height } = luma_dimensions;
    match subsampling {
        Subsampling::Sample444 => luma_dimensions,
        Subsampling::Sample422 => PixelDimensions { width: share_of(width, 2), height },
        Subsampling::Sample411 => PixelDimensions { width: share_of(width, 4), height },
        Subsampling::Sample420 => PixelDimensions {
            width: share_of(width, 2),
            height: share_of(height, 2),
        },
    }
}

/// The planes of an image. The chroma planes may be smaller than the luma
/// plane.
pub struct SubSampleGroup<T> {
    pub dimensions: PixelDimensions,
    pub y: Vec<T>,
    pub cb: Vec<T>,
    pub cr: Vec<T>,
}

/// The planes of an image, borrowed.
pub struct SubSampleGroupRef<'a, T> {
    pub dimensions: PixelDimensions,
    pub y: &'a [T],
    pub cb: &'a [T],
    pub cr: &'a [T],
}

impl<T> SubSampleGroup<T> {
    /// Borrows the planes.
    pub fn as_ref(&self) -> (r: SubSampleGroupRef<'_, T>)
        ensures
            r.dimensions == self.dimensions,
            r.y@ == self.y@,
            r.cb@ == self.cb@,
            r.cr@ == self.cr@,
    {
        SubSampleGroupRef {
            dimensions: self.dimensions,
            y: self.y.as_slice(),
            cb: self.cb.as_slice(),
            cr: self.cr.as_slice(),
        }
    }
}

/// The number of Cb samples of an image with `len` luma samples.
pub open spec fn chroma_len(len: int, subsampling: Subsampling) -> int {
    match subsampling {
        Subsampling::Sample411 | Subsampling::Sample420 => len / 4,
        Subsampling::Sample422 => len / 2,
        Subsampling::Sample444 => len,
    }
}

/// The planes that bytes hold one behind the other: `len` luma samples, `chroma` Cb samples, and
/// the Cr samples.
pub open spec fn are_planes_of(
    data: Seq<u8>,
    len: int,
    chroma: int,
    y: Seq<u8>,
    cb: Seq<u8>,
    cr: Seq<u8>,
) -> bool {
    &&& y == data.take(len)
    &&& cb == data.subrange(len, len + chroma)
    &&& cr == data.skip(len + chroma)
}

impl SubSampleGroup<u8> {
    /// Cuts bytes into the planes of an image: the luma plane, the Cb plane,
    /// and what is left as the Cr plane. Nothing where the bytes do not hold
    /// the first two.
    pub fn from_planes(
        dimensions: PixelDimensions,
        subsampling: Subsampling,
        data: &[u8],
    ) -> (r: Option<Self>)
        ensures
            ({
                let len = dimensions.height * dimensions.width;
                let chroma = chroma_len(len, subsampling);
                &&& r is Some <==> len + chroma <= data@.len()
                &&& r is Some ==> {
                    let group = r->0;
                    &&& group.dimensions == dimensions
                    &&& group.y@ == data@.take(len)
                    &&& group.cb@ == data@.subrange(len, len + chroma)
                    &&& group.cr@ == data@.skip(len + chroma)
                    &&& are_planes_of(data@, len, chroma, group.y@, group.cb@, group.cr@)
                }
            }),
    {
        let total: usize = data.len();
        let len: usize = match dimensions.height.checked_mul(dimensions.width) {
            Some(len) => len,
            None => {
                return None;
            },
        };
        let chroma: usize = match subsampling {
            Subsampling::Sample411 | Subsampling::Sample420 => len / 4,
            Subsampling::Sample422 => len / 2,
            Subsampling::Sample444 => len,
        };
        if len > total || chroma > total - len {
            return None;
        }
        let y = vstd::slice::slice_to_vec(vstd::slice::slice_subrange(data, 0, len));
        let cb = vstd::slice::slice_to_vec(vstd::slice::slice_subrange(data, len, len + chroma));
        let cr = vstd::slice::slice_to_vec(
            vstd::slice::slice_subrange(data, len + chroma, total),
        );
        Some(SubSampleGroup { dimensions, y, cb, cr })
    }
}

/// The number of pixels in a row that share a chroma sample.
pub open spec fn shared_cols(subsampling: Subsampling) -> int {
    match subsampling {
        Subsampling::Sample411 => 4,
        Subsampling::Sample420 | Subsampling::Sample422 => 2,
        Subsampling::Sample444 => 1,
    }
}

/// The number of rows of pixels that share a chroma sample.
pub open spec fn shared_rows(subsampling: Subsampling) -> int {
    match subsampling {
        Subsampling::Sample420 => 2,
        _ => 1,
    }
}

/// The number of chroma samples in a row.
pub open spec fn samples_across(dimensions: PixelDimensions, subsampling: Subsampling) -> int {
    ceil_div(dimensions.width as int, shared_cols(subsampling))
}

/// The number of chroma samples that are taken of an image of `len` pixels.
pub open spec fn sample_count(
    dimensions: PixelDimensions,
    subsampling: Subsampling,
    len: nat,
) -> int {
    match subsampling {
        Subsampling::Sample444 => len as int,
        _ => samples_across(dimensions, subsampling) * ceil_div(
            dimensions.height as int,
            shared_rows(subsampling),
        ),
    }
}

/// The pixel in a row and a column, or another one where the column lies behind
/// the end of the row.
pub open spec fn pixel_or(row: int, col: int, width: int, other: int) -> int {
    if col < width {
        row * width + col
    } else {
        other
    }
}

/// The pixels that chroma sample `i` is the mean of.
pub open spec fn sampled_pixels(
    dimensions: PixelDimensions,
    subsampling: Subsampling,
    i: int,
) -> Seq<int> {
    let width = dimensions.width as int;
    let across = samples_across(dimensions, subsampling);
    let row = (i / across) * shared_rows(subsampling);
    let col = (i % across) * shared_cols(subsampling);
    let first = row * width + col;
    match subsampling {
        Subsampling::Sample444 => seq![i],
        Subsampling::Sample422 => seq![first, pixel_or(row, col + 1, width, first)],
        Subsampling::Sample411 => seq![
            first,
            pixel_or(row, col + 1, width, first),
            pixel_or(row, col + 2, width, first),
            pixel_or(row, col + 3, width, first),
        ],
        Subsampling::Sample420 => seq![
            first,
            pixel_or(row, col + 1, width, first),
            (row + 1) * width + col,
            pixel_or(row + 1, col + 1, width, first),
        ],
    }
}

/// All pixels are there.
pub open spec fn all_there(pixels: Seq<int>, len: nat) -> bool {
    forall|k: int| 0 <= k < pixels.len() ==> #[trigger] pixels[k] < len
}

/// A pair of chroma samples is the mean of pixels. Where one of them is not
/// there, both are defaults.
pub open spec fn is_chroma_sample<P, T: Default, M: Fn(&Vec<P>) -> (T, T)>(
    mean: M,
    image: Seq<P>,
    pixels: Seq<int>,
    r: (T, T),
) -> bool {
    if all_there(pixels, image.len()) {
        exists|taken: Vec<P>|
            {
                &&& taken@ == Seq::new(pixels.len(), |k: int| image[pixels[k]])
                &&& #[trigger] call_ensures(mean, (&taken,), r)
            }
    } else {
        call_ensures(T::default, (), r.0) && call_ensures(T::default, (), r.1)
    }
}

/// A size whose pixels can be counted, with some room.
pub open spec fn is_pixel_size(dimensions: PixelDimensions) -> bool {
    (dimensions.height + 2) * (dimensions.width + 4) <= usize::MAX
}

/// Lists the pixels that a chroma sample is the mean of.
fn list_pixels(
    dimensions: PixelDimensions,
    subsampling: Subsampling,
    i: usize,
    Ghost(len): Ghost<nat>,
) -> (r: Vec<usize>)
    requires
        is_pixel_size(dimensions),
        i < sample_count(dimensions, subsampling, len),
    ensures
        r@.len() == sampled_pixels(dimensions, subsampling, i as int).len(),
        forall|k: int|
            0 <= k < r@.len() ==> #[trigger] r@[k] == sampled_pixels(
                dimensions,
                subsampling,
                i as int,
            )[k],
{
    let width: usize = dimensions.width;
    let mut r: Vec<usize> = Vec::new();
    let (rows, cols): (usize, usize) = match subsampling {
        Subsampling::Sample444 => {
            r.push(i);
            return r;
        },
        Subsampling::Sample422 => (1, 2),
        Subsampling::Sample411 => (1, 4),
        Subsampling::Sample420 => (2, 2),
    };
    let across: usize = div_ceil(width, cols);
    proof {
        lemma_sample_place(dimensions, subsampling, i as int);
    }
    let row: usize = (i / across) * rows;
    let col: usize = (i % across) * cols;
    let first: usize = row * width + col;
    let next: usize = if col + 1 < width {
        first + 1
    } else {
        first
    };
    r.push(first);
    r.push(next);
    match subsampling {
        Subsampling::Sample411 => {
            r.push(
                if col + 2 < width {
                    first + 2
                } else {
                    first
                },
            );
            r.push(
                if col + 3 < width {
                    first + 3
                } else {
                    first
                },
            );
        },
        Subsampling::Sample420 => {
            let below: usize = (row + 1) * width + col;
            r.push(below);
            r.push(
                if col + 1 < width {
                    below + 1
                } else {
                    first
                },
            );
        },
        _ => {},
    }
    r
}

/// The first pixel of a chroma sample lies in the image.
proof fn lemma_sample_place(dimensions: PixelDimensions, subsampling: Subsampling, i: int)
    requires
        is_pixel_size(dimensions),
        subsampling != Subsampling::Sample444,
        0 <= i < sample_count(dimensions, subsampling, 0),
    ensures
        ({
            let across = samples_across(dimensions, subsampling);
            let width = dimensions.width as int;
            let row = (i / across) * shared_rows(subsampling);
            let col = (i % across) * shared_cols(subsampling);
            &&& 0 < across
            &&& 0 <= row < dimensions.height
            &&& 0 <= col < dimensions.width
            &&& 0 <= row * width
            &&& (row + 1) * width == row * width + width
            &&& row * width + 2 * width + 4 <= usize::MAX
        }),
{
    let across = samples_across(dimensions, subsampling);
    let down = ceil_div(dimensions.height as int, shared_rows(subsampling));
    let width = dimensions.width as int;
    let height = dimensions.height as int;
    assert(across > 0 && down > 0) by (nonlinear_arith)
        requires
            0 <= i < across * down,
            across >= 0,
            down >= 0,
    ;
    lemma_place_parts(i, across);
    let line = i / across;
    assert(line < down) by (nonlinear_arith)
        requires
            i == line * across + i % across,
            i % across >= 0,
            i < across * down,
            across > 0,
    ;
    let row = line * shared_rows(subsampling);
    assert(row < height);
    assert((row + 1) * width == row * width + width && 0 <= row * width) by (nonlinear_arith)
        requires
            0 <= row,
            0 <= width,
    ;
    assert(row * width + 2 * width + 4 <= (height + 2) * (width + 4)) by (nonlinear_arith)
        requires
            0 <= row < height,
            0 <= width,
    ;
}

/// The chroma samples of an image.
pub open spec fn is_subsampled<P, T: Default, L: Fn(&P) -> T, M: Fn(&Vec<P>) -> (T, T)>(
    luma: L,
    mean: M,
    dimensions: PixelDimensions,
    image: Seq<P>,
    subsampling: Subsampling,
    r: SubSampleGroup<T>,
) -> bool {
    &&& r.dimensions == dimensions
    &&& r.y@.len() == image.len()
    &&& forall|i: int|
        0 <= i < image.len() ==> call_ensures(luma, (&image[i],), #[trigger] r.y@[i])
    &&& r.cb@.len() == sample_count(dimensions, subsampling, image.len())
    &&& r.cr@.len() == sample_count(dimensions, subsampling, image.len())
    &&& forall|i: int|
        0 <= i < r.cb@.len() ==> is_chroma_sample(
            mean,
            image,
            sampled_pixels(dimensions, subsampling, i),
            (#[trigger] r.cb@[i], r.cr@[i]),
        )
}

/// Takes one pair of chroma samples of an image.
fn take_sample<P: Copy, T: Default, M: Fn(&Vec<P>) -> (T, T)>(
    dimensions: PixelDimensions,
    image: &[P],
    subsampling: Subsampling,
    mean: &M,
    i: usize,
) -> (r: (T, T))
    requires
        is_pixel_size(dimensions),
        i < sample_count(dimensions, subsampling, image@.len()),
        forall|taken: Vec<P>| #[trigger] call_requires(*mean, (&taken,)),
    ensures
        is_chroma_sample(
            *mean,
            image@,
            sampled_pixels(dimensions, subsampling, i as int),
            r,
        ),
{
    let pixels = list_pixels(dimensions, subsampling, i, Ghost(image@.len()));
    let ghost expected = sampled_pixels(dimensions, subsampling, i as int);
    let mut taken: Vec<P> = Vec::new();
    let mut k: usize = 0;
    while k < pixels.len()
        invariant
            k <= pixels@.len(),
            expected == sampled_pixels(dimensions, subsampling, i as int),
            pixels@.len() == expected.len(),
            forall|j: int| 0 <= j < pixels@.len() ==> #[trigger] pixels@[j] == expected[j],
            taken@.len() == k,
            forall|j: int| 0 <= j < k ==> expected[j] < image@.len(),
            forall|j: int| 0 <= j < k ==> #[trigger] taken@[j] == image@[expected[j]],
        decreases pixels@.len() - k,
    {
        if pixels[k] >= image.len() {
            assert(!(expected[k as int] < image@.len()));
            return (T::default(), T::default());
        }
        taken.push(image[pixels[k]]);
        k = k + 1;
    }
    assert(taken@ =~= Seq::new(expected.len(), |j: int| image@[expected[j]]));
    let r = (*mean)(&taken);
    assert(call_ensures(*mean, (&taken,), r));
    r
}

/// Takes the luma sample of every pixel, and of the pixels that share them, the
/// means of the chroma samples. `luma` gives the luma of a pixel, `mean` the
/// mean Cb and the mean Cr of pixels.
pub fn subsample_ycbcr<
    P: Copy + Send + Sync,
    T: Copy + Default + Send,
    L: Fn(&P) -> T + Sync + Send,
    M: Fn(&Vec<P>) -> (T, T) + Sync + Send,
>(
    dimensions: PixelDimensions,
    ycbcr: &[P],
    subsampling: Subsampling,
    luma: &L,
    mean: &M,
) -> (r: SubSampleGroup<T>)
    requires
        is_pixel_size(dimensions),
        forall|pixel: P| #[trigger] call_requires(*luma, (&pixel,)),
        forall|taken: Vec<P>| #[trigger] call_requires(*mean, (&taken,)),
    ensures
        is_subsampled(*luma, *mean, dimensions, ycbcr@, subsampling, r),
{
    let bright = |pixel: &P| -> (r: T)
        requires
            forall|pixel: P| #[trigger] call_requires(*luma, (&pixel,))
        ensures
            call_ensures(*luma, (pixel,), r)
        { (*luma)(pixel) };
    let y = par_map(ycbcr, bright);
    proof {
        assert forall|i: int| 0 <= i < ycbcr@.len() implies call_ensures(
            *luma,
            (&ycbcr@[i],),
            #[trigger] y@[i],
        ) by {
            assert(call_ensures(bright, (&ycbcr@[i],), y@[i]));
        }
    }
    let PixelDimensions { width, height } = dimensions;
    proof {
        lemma_sample_count(dimensions, subsampling, ycbcr@.len());
    }
    let count: usize = match subsampling {
        Subsampling::Sample444 => ycbcr.len(),
        Subsampling::Sample422 => div_ceil(width, 2) * height,
        Subsampling::Sample411 => div_ceil(width, 4) * height,
        Subsampling::Sample420 => div_ceil(width, 2) * div_ceil(height, 2),
    };
    let take = |i: usize| -> (r: (T, T))
        requires
            is_pixel_size(dimensions),
            i < sample_count(dimensions, subsampling, ycbcr@.len()),
            forall|taken: Vec<P>| #[trigger] call_requires(*mean, (&taken,))
        ensures
            is_chroma_sample(
                *mean,
                ycbcr@,
                sampled_pixels(dimensions, subsampling, i as int),
                r,
            )
        { take_sample(dimensions, ycbcr, subsampling, mean, i) };
    let pairs = par_map_range(count, take);
    let mut cb: Vec<T> = Vec::new();
    let mut cr: Vec<T> = Vec::new();
    let mut i: usize = 0;
    while i < pairs.len()
        invariant
            i <= pairs@.len(),
            cb@.len() == i,
            cr@.len() == i,
            forall|j: int| 0 <= j < i ==> (#[trigger] cb@[j], cr@[j]) == pairs@[j],
        decreases pairs@.len() - i,
    {
        cb.push(pairs[i].0);
        cr.push(pairs[i].1);
        i = i + 1;
    }
    proof {
        assert forall|j: int| 0 <= j < cb@.len() implies is_chroma_sample(
            *mean,
            ycbcr@,
            sampled_pixels(dimensions, subsampling, j),
            (#[trigger] cb@[j], cr@[j]),
        ) by {
            assert(call_ensures(take, (j as usize,), pairs@[(j as usize) as int]));
        }
    }
    SubSampleGroup { dimensions, y, cb, cr }
}

/// The chroma samples of an image can be counted.
proof fn lemma_sample_count(dimensions: PixelDimensions, subsampling: Subsampling, len: nat)
    requires
        is_pixel_size(dimensions),
    ensures
        subsampling != Subsampling::Sample444 ==> 0 <= sample_count(dimensions, subsampling, len)
            <= usize::MAX,
        subsampling == Subsampling::Sample422 || subsampling == Subsampling::Sample411
            ==> sample_count(dimensions, subsampling, len) == samples_across(
            dimensions,
            subsampling,
        ) * dimensions.height,
{
    let across = samples_across(dimensions, subsampling);
    let down = ceil_div(dimensions.height as int, shared_rows(subsampling));
    assert(0 <= across <= dimensions.width);
    assert(0 <= down <= dimensions.height);
    assert(0 <= across * down <= (dimensions.height + 2) * (dimensions.width + 4))
        by (nonlinear_arith)
        requires
            0 <= across <= dimensions.width,
            0 <= down <= dimensions.height,
    ;
}

/// The planes of an image, all of the same size.
pub struct UpSampleGroup<T> {
    pub dimensions: PixelDimensions,
    pub y: Vec<T>,
    pub cb: Vec<T>,
    pub cr: Vec<T>,
}

/// The number of chroma samples in a row of a plane of `len` samples. Where
/// rows share samples, the plane is one of whole blocks; else the rows are as
/// long as the plane allows.
pub open spec fn stored_across(
    dimensions: PixelDimensions,
    subsampling: Subsampling,
    len: nat,
) -> int {
    match subsampling {
        Subsampling::Sample420 => chroma_dimensions(dimensions, subsampling).width as int,
        _ => len as int / dimensions.height as int,
    }
}

/// The chroma sample that a pixel gets.
pub open spec fn shared_sample(
    dimensions: PixelDimensions,
    subsampling: Subsampling,
    len: nat,
    row: int,
    col: int,
) -> int {
    (row / shared_rows(subsampling)) * stored_across(dimensions, subsampling, len) + col
        / shared_cols(subsampling)
}

/// A pixel gets the chroma sample that it shares, or a default one where there
/// is none.
pub open spec fn is_shared_sample<T: Default>(
    dimensions: PixelDimensions,
    subsampling: Subsampling,
    plane: Seq<T>,
    len: nat,
    limit: nat,
    t: int,
    x: T,
) -> bool {
    let at = shared_sample(
        dimensions,
        subsampling,
        len,
        t / dimensions.width as int,
        t % dimensions.width as int,
    );
    if at < limit {
        x == plane[at]
    } else {
        call_ensures(T::default, (), x)
    }
}

/// The chroma planes grew to the size of the luma plane.
pub open spec fn is_upsampled<T: Default>(
    dimensions: PixelDimensions,
    subsampling: Subsampling,
    cb: Seq<T>,
    cr: Seq<T>,
    r: UpSampleGroup<T>,
) -> bool {
    if subsampling == Subsampling::Sample444 {
        r.cb@ == cb && r.cr@ == cr
    } else {
        let limit = if cb.len() < cr.len() {
            cb.len()
        } else {
            cr.len()
        };
        &&& r.cb@.len() == dimensions.width * dimensions.height
        &&& r.cr@.len() == dimensions.width * dimensions.height
        &&& forall|t: int|
            0 <= t < r.cb@.len() ==> is_shared_sample(
                dimensions,
                subsampling,
                cb,
                cb.len(),
                limit,
                t,
                #[trigger] r.cb@[t],
            )
        &&& forall|t: int|
            0 <= t < r.cr@.len() ==> is_shared_sample(
                dimensions,
                subsampling,
                cr,
                cb.len(),
                limit,
                t,
                #[trigger] r.cr@[t],
            )
    }
}

/// The chroma sample that a pixel gets, or none where it is not there.
fn find_sample(
    dimensions: PixelDimensions,
    subsampling: Subsampling,
    len: usize,
    limit: usize,
    t: usize,
) -> (r: Option<usize>)
    requires
        subsampling != Subsampling::Sample444,
        t < dimensions.width * dimensions.height,
    ensures
        ({
            let at = shared_sample(
                dimensions,
                subsampling,
                len as nat,
                t as int / dimensions.width as int,
                t as int % dimensions.width as int,
            );
            &&& r is Some <==> at < limit
            &&& r is Some ==> r->0 == at
        }),
{
    proof {
        lemma_row_of_pixel(dimensions, t as int);
    }
    let row: usize = t / dimensions.width;
    let col: usize = t % dimensions.width;
    let across: usize = match subsampling {
        Subsampling::Sample420 => calculate_chroma_dimensions(dimensions, subsampling).width,
        _ => len / dimensions.height,
    };
    let line: usize = match subsampling {
        Subsampling::Sample420 => row / 2,
        _ => row,
    };
    let step: usize = match subsampling {
        Subsampling::Sample411 => col / 4,
        _ => col / 2,
    };
    proof {
        assert(0 <= line * across <= u64::MAX * u64::MAX) by (nonlinear_arith)
            requires
                0 <= line <= u64::MAX,
                0 <= across <= u64::MAX,
        ;
    }
    let at: u128 = line as u128 * across as u128 + step as u128;
    if at < limit as u128 {
        Some(at as usize)
    } else {
        None
    }
}

/// A pixel lies in a row and a column of its image.
proof fn lemma_row_of_pixel(dimensions: PixelDimensions, t: int)
    requires
        0 <= t < dimensions.width * dimensions.height,
    ensures
        dimensions.width > 0,
        dimensions.height > 0,
        0 <= t / dimensions.width as int,
        t / (dimensions.width as int) < dimensions.height,
        0 <= t % dimensions.width as int,
{
    assert(dimensions.width > 0 && dimensions.height > 0) by (nonlinear_arith)
        requires
            0 <= t < dimensions.width * dimensions.height,
            0 <= dimensions.width,
            0 <= dimensions.height,
    ;
    lemma_place_parts(t, dimensions.width as int);
    let row = t / dimensions.width as int;
    let col = t % dimensions.width as int;
    assert(row < dimensions.height) by (nonlinear_arith)
        requires
            t == row * dimensions.width + col,
            col >= 0,
            t < dimensions.width * dimensions.height,
            dimensions.width > 0,
    ;
}

/// Grows a chroma plane to the size of the luma plane.
fn upsample_plane<T: Copy + Default + Send + Sync>(
    dimensions: PixelDimensions,
    subsampling: Subsampling,
    plane: &[T],
    len: usize,
    limit: usize,
) -> (r: Vec<T>)
    requires
        subsampling != Subsampling::Sample444,
        dimensions.width * dimensions.height <= usize::MAX,
        limit <= plane@.len(),
    ensures
        r@.len() == dimensions.width * dimensions.height,
        forall|t: int|
            0 <= t < r@.len() ==> is_shared_sample(
                dimensions,
                subsampling,
                plane@,
                len as nat,
                limit as nat,
                t,
                #[trigger] r@[t],
            ),
{
    let pick = |t: usize| -> (x: T)
        requires
            subsampling != Subsampling::Sample444,
            limit <= plane@.len(),
            t < dimensions.width * dimensions.height
        ensures
            is_shared_sample(
                dimensions,
                subsampling,
                plane@,
                len as nat,
                limit as nat,
                t as int,
                x,
            )
        {
            match find_sample(dimensions, subsampling, len, limit, t) {
                Some(at) => {
                    proof {
                        lemma_shared_sample_positive(
                            dimensions,
                            subsampling,
                            len as nat,
                            t as int,
                        );
                    }
                    plane[at]
                },
                None => T::default(),
            }
        };
    let r = par_map_range(dimensions.width * dimensions.height, pick);
    proof {
        assert forall|t: int| 0 <= t < r@.len() implies is_shared_sample(
            dimensions,
            subsampling,
            plane@,
            len as nat,
            limit as nat,
            t,
            #[trigger] r@[t],
        ) by {
            assert(call_ensures(pick, (t as usize,), r@[(t as usize) as int]));
        }
    }
    r
}

/// No chroma sample lies before the first one.
proof fn lemma_shared_sample_positive(
    dimensions: PixelDimensions,
    subsampling: Subsampling,
    len: nat,
    t: int,
)
    requires
        0 <= t < dimensions.width * dimensions.height,
    ensures
        0 <= shared_sample(
            dimensions,
            subsampling,
            len,
            t / dimensions.width as int,
            t % dimensions.width as int,
        ),
{
    lemma_row_of_pixel(dimensions, t);
    let line = (t / dimensions.width as int) / shared_rows(subsampling);
    let across = stored_across(dimensions, subsampling, len);
    vstd::arithmetic::div_mod::lemma_div_pos_is_pos(len as int, dimensions.height as int);
    assert(0 <= line * across) by (nonlinear_arith)
        requires
            0 <= line,
            0 <= across,
    ;
}

/// Gives every pixel the chroma samples that it shares. Planes of the full size
/// are left as they are.
pub fn upsample_ycbcr<T: Copy + Default + Send + Sync>(
    dimensions: PixelDimensions,
    y: Vec<T>,
    cb: Vec<T>,
    cr: Vec<T>,
    subsampling: Subsampling,
) -> (r: UpSampleGroup<T>)
    requires
        dimensions.width * dimensions.height <= usize::MAX,
    ensures
        r.dimensions == dimensions,
        r.y@ == y@,
        is_upsampled(dimensions, subsampling, cb@, cr@, r),
{
    match subsampling {
        Subsampling::Sample444 => UpSampleGroup { dimensions, y, cb, cr },
        _ => {
            let len: usize = cb.len();
            let limit: usize = if len < cr.len() {
                len
            } else {
                cr.len()
            };
            let all_cb = upsample_plane(dimensions, subsampling, cb.as_slice(), len, limit);
            let all_cr = upsample_plane(dimensions, subsampling, cr.as_slice(), len, limit);
            UpSampleGroup { dimensions, y, cb: all_cb, cr: all_cr }
        },
    }
}

/// So many copies of a pixel.
pub open spec fn is_one_color<P>(image: Seq<P>, pixel: P) -> bool {
    forall|i: int| 0 <= i < image.len() ==> #[trigger] image[i] == pixel
}

/// The pixels of a chroma sample lie in the image, but for those of the last row
/// where two rows share a sample and one of them is missing.
proof fn lemma_sampled_pixels(dimensions: PixelDimensions, subsampling: Subsampling, i: int)
    requires
        is_pixel_size(dimensions),
        subsampling == Subsampling::Sample420 ==> dimensions.height % 2 == 0,
        0 <= i < sample_count(
            dimensions,
            subsampling,
            (dimensions.width * dimensions.height) as nat,
        ),
    ensures
        ({
            let pixels = sampled_pixels(dimensions, subsampling, i);
            &&& pixels.len() > 0
            &&& forall|k: int|
                0 <= k < pixels.len() ==> 0 <= #[trigger] pixels[k] < dimensions.width
                    * dimensions.height
        }),
{
    if subsampling != Subsampling::Sample444 {
        lemma_sample_place(dimensions, subsampling, i);
        let width = dimensions.width as int;
        let height = dimensions.height as int;
        let row = (i / samples_across(dimensions, subsampling)) * shared_rows(subsampling);
        let col = (i % samples_across(dimensions, subsampling)) * shared_cols(subsampling);
        assert(row * width + width <= width * height) by (nonlinear_arith)
            requires
                row + 1 <= height,
                width >= 0,
        ;
        if subsampling == Subsampling::Sample420 {
            assert((row + 1) * width + width <= width * height) by (nonlinear_arith)
                requires
                    row + 2 <= height,
                    width >= 0,
            ;
        }
    }
}

/// The chroma sample that a pixel shares is there, where the planes have the
/// size of whole blocks or one row.
proof fn lemma_shared_sample_there(
    dimensions: PixelDimensions,
    subsampling: Subsampling,
    t: int,
)
    requires
        subsampling != Subsampling::Sample444,
        subsampling == Subsampling::Sample420 ==> dimensions.height % 2 == 0 && (
        dimensions.height == 2 || chroma_dimensions(dimensions, subsampling).width
            == samples_across(dimensions, subsampling)),
        0 <= t < dimensions.width * dimensions.height,
    ensures
        ({
            let count = sample_count(dimensions, subsampling, 0);
            0 <= shared_sample(
                dimensions,
                subsampling,
                count as nat,
                t / dimensions.width as int,
                t % dimensions.width as int,
            ) < count
        }),
{
    lemma_row_of_pixel(dimensions, t);
    lemma_place_parts(t, dimensions.width as int);
    let row = t / dimensions.width as int;
    let col = t % dimensions.width as int;
    let across = samples_across(dimensions, subsampling);
    let down = ceil_div(dimensions.height as int, shared_rows(subsampling));
    let count = sample_count(dimensions, subsampling, 0);
    let line = row / shared_rows(subsampling);
    let stored = stored_across(dimensions, subsampling, count as nat);
    assert(0 <= across * down) by (nonlinear_arith)
        requires
            0 <= across,
            0 <= down,
    ;
    assert(0 <= col / shared_cols(subsampling) < across);
    if subsampling == Subsampling::Sample420 {
        assert(line == row / 2 && down == ceil_div(dimensions.height as int, 2));
    } else {
        assert(line == row && down == dimensions.height) by {
            assert(shared_rows(subsampling) == 1);
            vstd::arithmetic::div_mod::lemma_div_basics(row);
            vstd::arithmetic::div_mod::lemma_div_basics(dimensions.height as int);
        }
    }
    assert(0 <= line < down);
    if subsampling != Subsampling::Sample420 {
        assert(count == across * dimensions.height);
        vstd::arithmetic::div_mod::lemma_div_multiples_vanish(across, dimensions.height as int);
        vstd::arithmetic::mul::lemma_mul_is_commutative(across, dimensions.height as int);
        assert(stored == across);
    }
    if line == 0 {
        assert(line * stored == 0) by (nonlinear_arith)
            requires
                line == 0,
        ;
        assert(across <= across * down) by (nonlinear_arith)
            requires
                0 <= across,
                1 <= down,
        ;
    } else {
        assert(stored == across);
        assert(0 <= line * across && line * across + across <= across * down) by (nonlinear_arith)
            requires
                0 <= across,
                0 <= line,
                line + 1 <= down,
        ;
    }
}

/// An image of one colour comes back: every pixel has the luma of the colour,
/// and as chroma the mean of copies of it. `like_cb` and `like_cr` hold of the
/// means of copies.
pub proof fn law_one_color_comes_back<P, T: Default, L: Fn(&P) -> T, M: Fn(&Vec<P>) -> (T, T)>(
    luma: L,
    mean: M,
    dimensions: PixelDimensions,
    image: Seq<P>,
    pixel: P,
    subsampling: Subsampling,
    group: SubSampleGroup<T>,
    r: UpSampleGroup<T>,
    like_cb: spec_fn(T) -> bool,
    like_cr: spec_fn(T) -> bool,
)
    requires
        is_pixel_size(dimensions),
        image.len() == dimensions.width * dimensions.height,
        is_one_color(image, pixel),
        subsampling == Subsampling::Sample420 ==> dimensions.height % 2 == 0 && (
        dimensions.height == 2 || chroma_dimensions(dimensions, subsampling).width
            == samples_across(dimensions, subsampling)),
        is_subsampled(luma, mean, dimensions, image, subsampling, group),
        r.dimensions == dimensions,
        r.y@ == group.y@,
        is_upsampled(dimensions, subsampling, group.cb@, group.cr@, r),
        forall|taken: Vec<P>, x: (T, T)|
            taken@.len() > 0 && is_one_color(taken@, pixel) && #[trigger] call_ensures(
                mean,
                (&taken,),
                x,
            ) ==> like_cb(x.0) && like_cr(x.1),
    ensures
        r.dimensions == dimensions,
        r.y@.len() == image.len(),
        r.cb@.len() == image.len(),
        r.cr@.len() == image.len(),
        forall|t: int|
            0 <= t < image.len() ==> {
                &&& call_ensures(luma, (&pixel,), #[trigger] r.y@[t])
                &&& like_cb(r.cb@[t])
                &&& like_cr(r.cr@[t])
            },
{
    let cb = group.cb@;
    let cr = group.cr@;
    assert forall|i: int| 0 <= i < cb.len() implies like_cb(#[trigger] cb[i]) && like_cr(
        cr[i],
    ) by {
        let pixels = sampled_pixels(dimensions, subsampling, i);
        lemma_sampled_pixels(dimensions, subsampling, i);
        assert(is_chroma_sample(mean, image, pixels, (cb[i], cr[i])));
        assert(all_there(pixels, image.len()));
        let taken = choose|taken: Vec<P>|
            {
                &&& taken@ == Seq::new(pixels.len(), |k: int| image[pixels[k]])
                &&& #[trigger] call_ensures(mean, (&taken,), (cb[i], cr[i]))
            };
        assert(is_one_color(taken@, pixel));
    }
    assert forall|t: int| 0 <= t < image.len() implies {
        &&& call_ensures(luma, (&pixel,), #[trigger] r.y@[t])
        &&& like_cb(r.cb@[t])
        &&& like_cr(r.cr@[t])
    } by {
        assert(image[t] == pixel);
        if subsampling == Subsampling::Sample444 {
            assert(like_cb(cb[t]));
        } else {
            lemma_shared_sample_there(dimensions, subsampling, t);
            let at = shared_sample(
                dimensions,
                subsampling,
                cb.len(),
                t / dimensions.width as int,
                t % dimensions.width as int,
            );
            assert(like_cb(cb[at]) && like_cr(cr[at]));
            assert(r.cb@[t] == cb[at]);
            assert(r.cr@[t] == cr[at]);
        }
    }
}

/// How many columns and rows of pixels share a chroma sample.
pub open spec fn are_shares(subsampling: Subsampling, cols: int, rows: int) -> bool {
    match subsampling {
        Subsampling::Sample411 => cols == 4 && rows == 1,
        Subsampling::Sample420 => cols == 2 && rows == 2,
        Subsampling::Sample422 => cols == 2 && rows == 1,
        Subsampling::Sample444 => cols == 1 && rows == 1,
    }
}

/// The chroma sample in a line and a column of samples is taken of the pixels that
/// share it, line by line: each pixel of its rows and columns is among them, and no
/// other one. A pixel behind the end of a row is replaced by the first one.
pub proof fn law_sampled_pixels_share(
    dimensions: PixelDimensions,
    subsampling: Subsampling,
    cols: int,
    rows: int,
    line: int,
    k: int,
)
    requires
        are_shares(subsampling, cols, rows),
        0 < dimensions.width,
        0 <= line,
        0 <= k,
        k * cols < dimensions.width,
    ensures
        ({
            let width = dimensions.width as int;
            let i = line * ((width + cols - 1) / cols) + k;
            let pixels = sampled_pixels(dimensions, subsampling, i);
            &&& pixels.len() == rows * cols
            &&& forall|j: int|
                0 <= j < pixels.len() ==> {
                    &&& 0 <= #[trigger] pixels[j]
                    &&& (pixels[j] / width) / rows == line
                    &&& (pixels[j] % width) / cols == k
                }
            &&& forall|row: int, col: int|
                row / rows == line && col / cols == k && 0 <= row && 0 <= col < width
                    ==> #[trigger] pixels.contains(row * width + col)
            &&& width % cols == 0 ==> forall|j: int, m: int|
                0 <= j < m < pixels.len() ==> #[trigger] pixels[j] != #[trigger] pixels[m]
            &&& forall|j: int|
                0 <= j < pixels.len() && k * cols + j % cols >= width ==> #[trigger] pixels[j]
                    == pixels[0]
        }),
{
    let width = dimensions.width as int;
    let across = (width + cols - 1) / cols;
    let i = line * across + k;
    let pixels = sampled_pixels(dimensions, subsampling, i);
    lemma_small_share(rows, cols);
    assert forall|j: int| 0 <= j < pixels.len() implies is_sharing_pixel(
        width,
        rows,
        cols,
        line,
        k,
        #[trigger] pixels[j],
    ) by {
        lemma_one_sampled_pixel(dimensions, subsampling, cols, rows, line, k, j);
    }
    assert forall|row: int, col: int|
        row / rows == line && col / cols == k && 0 <= row && 0 <= col
            < width implies #[trigger] pixels.contains(row * width + col) by {
        let j = (row - line * rows) * cols + (col - k * cols);
        lemma_small_share(row, rows);
        lemma_small_share(line, rows);
        lemma_small_share(col, cols);
        lemma_small_share(k, cols);
        lemma_small_share(row - line * rows, cols);
        lemma_small_share(rows, cols);
        lemma_small_share(j, cols);
        lemma_one_sampled_pixel(dimensions, subsampling, cols, rows, line, k, j);
        assert(pixels[j] == row * width + col);
    }
    if width % cols == 0 {
        assert forall|j: int, m: int| 0 <= j < m < pixels.len() implies #[trigger] pixels[j]
            != #[trigger] pixels[m] by {
            lemma_one_sampled_pixel(dimensions, subsampling, cols, rows, line, k, j);
            lemma_one_sampled_pixel(dimensions, subsampling, cols, rows, line, k, m);
            lemma_small_share(width, cols);
            lemma_small_share(k, cols);
            lemma_small_share(line, rows);
            lemma_small_share(j, cols);
            lemma_small_share(m, cols);
            lemma_place(line * rows + j / cols, k * cols + j % cols, width);
            lemma_place(line * rows + m / cols, k * cols + m % cols, width);
        }
    }
    assert forall|j: int| 0 <= j < pixels.len() && k * cols + j % cols >= width implies
        #[trigger] pixels[j] == pixels[0] by {
        lemma_one_sampled_pixel(dimensions, subsampling, cols, rows, line, k, j);
        lemma_one_sampled_pixel(dimensions, subsampling, cols, rows, line, k, 0);
    }
}

/// A pixel of the rows and columns that share a chroma sample.
spec fn is_sharing_pixel(width: int, rows: int, cols: int, line: int, k: int, pixel: int) -> bool {
    &&& 0 <= pixel
    &&& (pixel / width) / rows == line
    &&& (pixel % width) / cols == k
}

proof fn lemma_small_share(x: int, share: int)
    ensures
        share == 1 ==> x * share == x && x / share == x && x % share == 0,
        share == 2 ==> x * share == 2 * x && x / share == x / 2 && x % share == x % 2,
        share == 4 ==> x * share == 4 * x && x / share == x / 4 && x % share == x % 4,
{
    if share == 1 {
        vstd::arithmetic::div_mod::lemma_div_basics(x);
    }
}

/// Pixel `j` of a chroma sample stands in row `j / cols` and column `j % cols` of the
/// pixels that share it.
proof fn lemma_one_sampled_pixel(
    dimensions: PixelDimensions,
    subsampling: Subsampling,
    cols: int,
    rows: int,
    line: int,
    k: int,
    j: int,
)
    requires
        are_shares(subsampling, cols, rows),
        0 < dimensions.width,
        0 <= line,
        0 <= k,
        k * cols < dimensions.width,
        0 <= j < rows * cols,
    ensures
        ({
            let width = dimensions.width as int;
            let i = line * ((width + cols - 1) / cols) + k;
            let pixels = sampled_pixels(dimensions, subsampling, i);
            let row = line * rows + j / cols;
            let col = k * cols + j % cols;
            &&& pixels.len() == rows * cols
            &&& col < width ==> pixels[j] == row * width + col
            &&& col >= width ==> pixels[j] == line * rows * width + k * cols
            &&& is_sharing_pixel(width, rows, cols, line, k, pixels[j])
        }),
{
    let width = dimensions.width as int;
    let across = (width + cols - 1) / cols;
    let i = line * across + k;
    let row = line * rows + j / cols;
    let col = k * cols + j % cols;
    lemma_small_share(width + cols - 1, cols);
    lemma_small_share(width, cols);
    lemma_small_share(k, cols);
    lemma_small_share(line, rows);
    lemma_small_share(rows, cols);
    lemma_small_share(j, cols);
    lemma_small_share(row, rows);
    lemma_small_share(line * rows, rows);
    lemma_small_share(col, cols);
    lemma_small_share(k * cols, cols);
    assert(across == samples_across(dimensions, subsampling));
    assert(0 <= k < across);
    lemma_place(line, k, across);
    if subsampling == Subsampling::Sample444 {
        assert(i == row * width + col);
    }
    lemma_place(line * rows, k * cols, width);
    if col < width {
        lemma_place(row, col, width);
    }
}

/// An image whose pixels are alike wherever they share a chroma sample comes back:
/// every pixel has its own luma, and as chroma the mean of copies of itself.
/// `like_cb` and `like_cr` hold of a pixel and the means of copies of it.
pub proof fn law_shared_colors_come_back<
    P,
    T: Default,
    L: Fn(&P) -> T,
    M: Fn(&Vec<P>) -> (T, T),
>(
    luma: L,
    mean: M,
    dimensions: PixelDimensions,
    image: Seq<P>,
    subsampling: Subsampling,
    cols: int,
    rows: int,
    group: SubSampleGroup<T>,
    r: UpSampleGroup<T>,
    like_cb: spec_fn(P, T) -> bool,
    like_cr: spec_fn(P, T) -> bool,
)
    requires
        are_shares(subsampling, cols, rows),
        is_pixel_size(dimensions),
        image.len() == dimensions.width * dimensions.height,
        forall|t: int, u: int|
            0 <= t < image.len() && 0 <= u < image.len() && (t / dimensions.width as int)
                / rows == (u / dimensions.width as int) / rows && (t
                % dimensions.width as int) / cols == (u % dimensions.width as int) / cols
                ==> #[trigger] image[t] == #[trigger] image[u],
        subsampling == Subsampling::Sample420 ==> dimensions.height % 2 == 0 && (
        dimensions.height == 2 || dimensions.width % 16 == 0 || dimensions.width % 16 == 15),
        is_subsampled(luma, mean, dimensions, image, subsampling, group),
        r.y@ == group.y@,
        is_upsampled(dimensions, subsampling, group.cb@, group.cr@, r),
        forall|taken: Vec<P>, x: (T, T)|
            taken@.len() > 0 && is_one_color(taken@, taken@[0]) && #[trigger] call_ensures(
                mean,
                (&taken,),
                x,
            ) ==> like_cb(taken@[0], x.0) && like_cr(taken@[0], x.1),
    ensures
        r.y@.len() == image.len(),
        r.cb@.len() == image.len(),
        r.cr@.len() == image.len(),
        forall|t: int|
            0 <= t < image.len() ==> {
                &&& call_ensures(luma, (&image[t],), #[trigger] r.y@[t])
                &&& like_cb(image[t], r.cb@[t])
                &&& like_cr(image[t], r.cr@[t])
            },
{
    let width = dimensions.width as int;
    let cb = group.cb@;
    let cr = group.cr@;
    assert forall|t: int| 0 <= t < image.len() implies {
        &&& call_ensures(luma, (&image[t],), #[trigger] r.y@[t])
        &&& like_cb(image[t], r.cb@[t])
        &&& like_cr(image[t], r.cr@[t])
    } by {
        lemma_row_of_pixel(dimensions, t);
        lemma_place_parts(t, width);
        let line = (t / width) / rows;
        let k = (t % width) / cols;
        let at = line * ((width + cols - 1) / cols) + k;
        lemma_sample_of_pixel(dimensions, subsampling, cols, rows, t, image.len());
        lemma_small_share(t % width, cols);
        lemma_small_share(k, cols);
        lemma_small_share(t / width, rows);
        assert(0 <= k && k * cols < width && 0 <= line);
        law_sampled_pixels_share(dimensions, subsampling, cols, rows, line, k);
        let pixels = sampled_pixels(dimensions, subsampling, at);
        lemma_sampled_pixels(dimensions, subsampling, at);
        assert(is_chroma_sample(mean, image, pixels, (cb[at], cr[at])));
        assert(all_there(pixels, image.len()));
        let taken = choose|taken: Vec<P>|
            {
                &&& taken@ == Seq::new(pixels.len(), |j: int| image[pixels[j]])
                &&& #[trigger] call_ensures(mean, (&taken,), (cb[at], cr[at]))
            };
        assert forall|j: int| 0 <= j < taken@.len() implies #[trigger] taken@[j] == image[t] by {
            assert(image[pixels[j]] == image[t]);
        }
        let x = (cb[at], cr[at]);
        assert(taken@[0] == image[t]);
        assert(is_one_color(taken@, taken@[0]) && call_ensures(mean, (&taken,), x));
        assert(like_cb(image[t], x.0) && like_cr(image[t], x.1));
        assert(r.cb@[t] == cb[at]);
        assert(r.cr@[t] == cr[at]);
    }
}

/// The sample that a pixel gets is the one that was taken of it.
proof fn lemma_sample_of_pixel(
    dimensions: PixelDimensions,
    subsampling: Subsampling,
    cols: int,
    rows: int,
    t: int,
    len: nat,
)
    requires
        are_shares(subsampling, cols, rows),
        len == dimensions.width * dimensions.height,
        subsampling == Subsampling::Sample420 ==> dimensions.height % 2 == 0 && (
        dimensions.height == 2 || dimensions.width % 16 == 0 || dimensions.width % 16 == 15),
        0 <= t < len,
    ensures
        ({
            let width = dimensions.width as int;
            let line = (t / width) / rows;
            let k = (t % width) / cols;
            let at = line * ((width + cols - 1) / cols) + k;
            let count = sample_count(dimensions, subsampling, len);
            &&& 0 <= at < count
            &&& subsampling == Subsampling::Sample444 ==> at == t
            &&& subsampling != Subsampling::Sample444 ==> at == shared_sample(
                dimensions,
                subsampling,
                count as nat,
                t / width,
                t % width,
            )
        }),
{
    let width = dimensions.width as int;
    let line = (t / width) / rows;
    let k = (t % width) / cols;
    lemma_row_of_pixel(dimensions, t);
    lemma_place_parts(t, width);
    lemma_small_share(width + cols - 1, cols);
    lemma_small_share(width, cols);
    lemma_small_share(t % width, cols);
    lemma_small_share(t / width, rows);
    if subsampling == Subsampling::Sample444 {
    } else {
        let across = samples_across(dimensions, subsampling);
        let count = sample_count(dimensions, subsampling, len);
        assert(across == (width + cols - 1) / cols);
        if subsampling == Subsampling::Sample420 {
            if dimensions.height != 2 {
                assert(chroma_dimensions(dimensions, subsampling).width == across);
            } else {
                assert(line == 0);
                let stored = stored_across(dimensions, subsampling, count as nat);
                assert(line * stored == 0 && line * across == 0) by (nonlinear_arith)
                    requires
                        line == 0,
                ;
            }
        } else {
            lemma_small_share(dimensions.height as int, 1);
            vstd::arithmetic::div_mod::lemma_div_multiples_vanish(
                across,
                dimensions.height as int,
            );
            vstd::arithmetic::mul::lemma_mul_is_commutative(across, dimensions.height as int);
            assert(stored_across(dimensions, subsampling, count as nat) == across);
        }
        lemma_shared_sample_there(dimensions, subsampling, t);
    }
}

/// The chroma planes of an image are, in each direction in which pixels share samples,
/// the smallest number of whole blocks whose samples reach every pixel.
pub proof fn law_chroma_planes_just_cover(
    luma: PixelDimensions,
    subsampling: Subsampling,
    cols: int,
    rows: int,
)
    requires
        are_shares(subsampling, cols, rows),
    ensures
        ({
            let r = chroma_dimensions(luma, subsampling);
            &&& cols == 1 ==> r.width == luma.width
            &&& cols != 1 ==> r.width % 8 == 0 && luma.width <= r.width * cols && (r.width
                - 8) * cols < luma.width
            &&& rows == 1 ==> r.height == luma.height
            &&& rows != 1 ==> r.height % 8 == 0 && luma.height <= r.height * rows && (
            r.height - 8) * rows < luma.height
        }),
{
    let r = chroma_dimensions(luma, subsampling);
    lemma_padded_share(luma.width as int);
    lemma_padded_share(luma.height as int);
    lemma_small_share(r.width as int, cols);
    lemma_small_share(r.width - 8, cols);
    lemma_small_share(r.height as int, rows);
    lemma_small_share(r.height - 8, rows);
}

proof fn lemma_padded_share(samples: int)
    requires
        0 <= samples,
    ensures
        ({
            let half = padded_share(samples, 2);
            let quarter = padded_share(samples, 4);
            &&& half % 8 == 0 && samples <= 2 * half && 2 * half - 16 < samples
            &&& quarter % 8 == 0 && samples <= 4 * quarter && 4 * quarter - 32 < samples
        }),
{
    let blocks = (samples + 7) / 8;
    assert(ceil_div(samples, 8) == blocks);
    assert(padded_share(samples, 2) == (blocks + 1) / 2 * 8);
    assert(padded_share(samples, 4) == (blocks + 3) / 4 * 8);
}

/// With chroma planes of the size that goes with an image, every pixel gets, in either
/// channel, the sample in its share of the row and of the column.
pub proof fn law_pixel_gets_its_sample<T: Default>(
    dimensions: PixelDimensions,
    subsampling: Subsampling,
    cols: int,
    rows: int,
    cb: Seq<T>,
    cr: Seq<T>,
    r: UpSampleGroup<T>,
    row: int,
    col: int,
)
    requires
        are_shares(subsampling, cols, rows),
        is_upsampled(dimensions, subsampling, cb, cr, r),
        ({
            let chroma = chroma_dimensions(dimensions, subsampling);
            &&& cb.len() == chroma.height * chroma.width
            &&& cr.len() == cb.len()
        }),
        0 <= row < dimensions.height,
        0 <= col < dimensions.width,
    ensures
        ({
            let width = chroma_dimensions(dimensions, subsampling).width as int;
            let at = (row / rows) * width + col / cols;
            &&& 0 <= at < cb.len()
            &&& r.cb@[row * dimensions.width + col] == cb[at]
            &&& r.cr@[row * dimensions.width + col] == cr[at]
        }),
{
    let chroma = chroma_dimensions(dimensions, subsampling);
    let width = chroma.width as int;
    let height = chroma.height as int;
    let at = (row / rows) * width + col / cols;
    let t = row * dimensions.width + col;
    law_chroma_planes_just_cover(dimensions, subsampling, cols, rows);
    lemma_small_share(width, cols);
    lemma_small_share(height, rows);
    lemma_small_share(row, rows);
    lemma_small_share(col, cols);
    lemma_place(row, col, dimensions.width as int);
    lemma_place_bound(row, col, dimensions.width as int, dimensions.height as int);
    assert(cols == 1 || cols == 2 || cols == 4);
    assert(cols == 4 ==> col / 4 < width && 0 <= col / 4);
    assert(cols == 2 ==> col / 2 < width && 0 <= col / 2);
    assert(0 <= col / cols < width);
    lemma_place_bound(row / rows, col / cols, width, height);
    vstd::arithmetic::mul::lemma_mul_is_commutative(
        dimensions.width as int,
        dimensions.height as int,
    );
    if subsampling == Subsampling::Sample444 {
        assert(at == t);
    } else {
        if subsampling != Subsampling::Sample420 {
            vstd::arithmetic::mul::lemma_mul_is_commutative(width, height);
            vstd::arithmetic::div_mod::lemma_div_multiples_vanish(width, height);
            assert(stored_across(dimensions, subsampling, cb.len()) == width);
        }
        assert(at == shared_sample(dimensions, subsampling, cb.len(), row, col));
        assert(r.cb@[t] == cb[at]);
        assert(r.cr@[t] == cr[at]);
    }
}

/// The Cb plane of an image of whole shares has as many samples as are taken of it.
pub proof fn law_whole_planes_are_counted(
    dimensions: PixelDimensions,
    subsampling: Subsampling,
    cols: int,
    rows: int,
    across: int,
    down: int,
)
    requires
        are_shares(subsampling, cols, rows),
        0 <= across,
        0 <= down,
        dimensions.width == across * cols,
        dimensions.height == down * rows,
    ensures
        ({
            let len = dimensions.height * dimensions.width;
            &&& chroma_len(len, subsampling) == down * across
            &&& sample_count(dimensions, subsampling, len as nat) == down * across
        }),
{
    lemma_small_share(across, cols);
    lemma_small_share(down, rows);
    let len = dimensions.height * dimensions.width;
    assert(len == (down * across) * (rows * cols)) by (nonlinear_arith)
        requires
            len == dimensions.height * dimensions.width,
            dimensions.width == across * cols,
            dimensions.height == down * rows,
    ;
    assert(0 <= down * across) by (nonlinear_arith)
        requires
            0 <= across,
            0 <= down,
    ;
    lemma_small_share(rows, cols);
    lemma_small_share(down * across, rows * cols);
    lemma_small_share(dimensions.width as int, cols);
    lemma_small_share(dimensions.height as int, rows);
    vstd::arithmetic::mul::lemma_mul_is_commutative(down, across);
}

/// The planes that bytes are cut into are the bytes again, one behind the other: luma, Cb and Cr.
/// Of an image of whole shares, the Cb plane has one sample for each share.
pub proof fn law_planes_make_up_the_bytes(
    dimensions: PixelDimensions,
    subsampling: Subsampling,
    cols: int,
    rows: int,
    across: int,
    down: int,
    data: Seq<u8>,
    y: Seq<u8>,
    cb: Seq<u8>,
    cr: Seq<u8>,
)
    requires
        are_shares(subsampling, cols, rows),
        0 <= across,
        0 <= down,
        dimensions.width == across * cols,
        dimensions.height == down * rows,
        dimensions.height * dimensions.width + down * across <= data.len(),
        are_planes_of(
            data,
            dimensions.height * dimensions.width,
            chroma_len(dimensions.height * dimensions.width, subsampling),
            y,
            cb,
            cr,
        ),
    ensures
        y + cb + cr == data,
        y.len() == dimensions.height * dimensions.width,
        cb.len() == down * across,
{
    law_whole_planes_are_counted(dimensions, subsampling, cols, rows, across, down);
    assert(0 <= down * across && 0 <= dimensions.height * dimensions.width) by (nonlinear_arith)
        requires
            0 <= across,
            0 <= down,
            0 <= dimensions.height,
            0 <= dimensions.width,
    ;
    assert(y + cb + cr =~= data);
}

} // verus!
