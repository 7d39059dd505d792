//! Compression that loses what is hard to see.
use vstd::prelude::*;

use crate::block::{
    abs_difference, fits, law_apart_by_nothing, lemma_abs_difference_grows, Block,
};
use crate::color::{
    are_shares, calculate_chroma_dimensions, chroma_dimensions, is_chroma_sample, is_pixel_size,
    is_subsampled, is_upsampled, law_chroma_planes_just_cover, law_pixel_gets_its_sample,
    sampled_pixels, subsample_ycbcr, upsample_ycbcr, SubSampleGroup, Subsampling, UpSampleGroup,
};
use crate::dimensions::{BlockDimensions, PixelDimensions};
use crate::numeric::{ceil_div, div_ceil, lemma_place, lemma_place_bound, lemma_place_parts};
use crate::parallel::{par_map, par_map_range};
use crate::sample::Sample;

pub mod frame;
pub mod jpg;
pub mod transform;

verus! {

/// The blocks of an image, channel by channel.
#[derive(Debug)]
pub struct SubSampleBlockGroup<T> {
    pub dimensions: BlockDimensions,
    pub subsampling: Subsampling,
    pub y: Vec<Block<T>>,
    pub cb: Vec<Block<T>>,
    pub cr: Vec<Block<T>>,
}

/// The blocks of an image, borrowed.
#[derive(Debug)]
pub struct SubSampleBlockGroupRef<'a, T> {
    pub dimensions: BlockDimensions,
    pub subsampling: Subsampling,
    pub y: &'a [Block<T>],
    pub cb: &'a [Block<T>],
    pub cr: &'a [Block<T>],
}

impl<'a, T> Clone for SubSampleBlockGroupRef<'a, T> {
    fn clone(&self) -> (r: Self)
        ensures
            r == *self,
    {
        *self
    }
}

impl<'a, T> Copy for SubSampleBlockGroupRef<'a, T> {

}

/// What the blocks of an image are.
#[verifier::ext_equal]
pub struct Picture<T> {
    pub dimensions: BlockDimensions,
    pub subsampling: Subsampling,
    pub y: Seq<Block<T>>,
    pub cb: Seq<Block<T>>,
    pub cr: Seq<Block<T>>,
}

impl<T> View for SubSampleBlockGroup<T> {
    type V = Picture<T>;

    open spec fn view(&self) -> Picture<T> {
        Picture {
            dimensions: self.dimensions,
            subsampling: self.subsampling,
            y: self.y@,
            cb: self.cb@,
            cr: self.cr@,
        }
    }
}

impl<'a, T> View for SubSampleBlockGroupRef<'a, T> {
    type V = Picture<T>;

    open spec fn view(&self) -> Picture<T> {
        Picture {
            dimensions: self.dimensions,
            subsampling: self.subsampling,
            y: self.y@,
            cb: self.cb@,
            cr: self.cr@,
        }
    }
}

/// What an optional image is.
pub open spec fn picture_of<'a, 'b, T>(
    group: Option<&'b SubSampleBlockGroupRef<'a, T>>,
) -> Option<Picture<T>> {
    match group {
        Some(group) => Some(group@),
        None => None,
    }
}

impl<T> SubSampleBlockGroup<T> {
    /// The group of the blocks.
    pub fn new(
        dimensions: BlockDimensions,
        subsampling: Subsampling,
        y: Vec<Block<T>>,
        cb: Vec<Block<T>>,
        cr: Vec<Block<T>>,
    ) -> (r: Self)
        ensures
            r == (SubSampleBlockGroup { dimensions, subsampling, y, cb, cr }),
    {
        SubSampleBlockGroup { dimensions, subsampling, y, cb, cr }
    }

    /// The same blocks, borrowed.
    pub fn as_ref(&self) -> (r: SubSampleBlockGroupRef<'_, T>)
        ensures
            r@ == self@,
    {
        SubSampleBlockGroupRef {
            dimensions: self.dimensions,
            subsampling: self.subsampling,
            y: self.y.as_slice(),
            cb: self.cb.as_slice(),
            cr: self.cr.as_slice(),
        }
    }
}

impl<T: Copy> Clone for SubSampleBlockGroup<T> {
    fn clone(&self) -> (r: Self)
        ensures
            r@ == self@,
    {
        SubSampleBlockGroup {
            dimensions: self.dimensions,
            subsampling: self.subsampling,
            y: vstd::slice::slice_to_vec(self.y.as_slice()),
            cb: vstd::slice::slice_to_vec(self.cb.as_slice()),
            cr: vstd::slice::slice_to_vec(self.cr.as_slice()),
        }
    }
}

/// How far the first `n` blocks of two lists are apart, added up.
pub open spec fn blocks_apart<T: Sample>(a: Seq<Block<T>>, b: Seq<Block<T>>, n: int) -> int
    decreases n,
{
    if n <= 0 {
        0
    } else {
        blocks_apart(a, b, n - 1) + abs_difference(a[n - 1]@, b[n - 1]@, 64)
    }
}

impl<'a, T: Sample> SubSampleBlockGroupRef<'a, T> {
    /// How far the luma blocks of two images are apart, added up.
    pub fn sum_of_abs_difference(&self, other: SubSampleBlockGroupRef<'_, T>) -> (r: i64)
        requires
            self.y@.len() <= other.y@.len(),
            blocks_apart(self.y@, other.y@, self.y@.len() as int) <= i64::MAX,
        ensures
            r == blocks_apart(self.y@, other.y@, self.y@.len() as int),
    {
        self.distance(&other) as i64
    }

    /// How far the luma blocks of two images are apart, in a number that holds
    /// it in any case.
    pub(crate) fn distance(&self, other: &SubSampleBlockGroupRef<'_, T>) -> (r: u128)
        requires
            self.y@.len() <= other.y@.len(),
        ensures
            r == blocks_apart(self.y@, other.y@, self.y@.len() as int),
    {
        let mut sum: u128 = 0;
        let mut i: usize = 0;
        while i < self.y.len()
            invariant
                i <= self.y@.len() <= other.y@.len(),
                sum == blocks_apart(self.y@, other.y@, i as int),
                sum <= 0x40_0000_0000 * i,
            decreases self.y@.len() - i,
        {
            sum = sum + self.y[i].distance(&other.y[i]) as u128;
            i = i + 1;
        }
        sum
    }
}

/// Every block of `r` holds the numbers of the block of `a` at its place.
pub open spec fn same_numbers<T: Sample, U: Sample>(a: Seq<Block<T>>, r: Seq<Block<U>>) -> bool {
    &&& a.len() == r.len()
    &&& forall|i: int, j: int|
        0 <= i < a.len() && 0 <= j < 64 ==> (#[trigger] r[i]@[j]).num() == a[i]@[j].num()
}

/// Every number of the blocks can be held by other samples.
pub open spec fn all_fit<T: Sample, U: Sample>(a: Seq<Block<T>>) -> bool {
    forall|i: int, j: int|
        0 <= i < a.len() && 0 <= j < 64 ==> fits::<U>((#[trigger] a[i]@[j]).num())
}

fn convert_blocks<T: Sample + Sync, U: Sample + Send>(blocks: &[Block<T>]) -> (r: Vec<Block<U>>)
    requires
        all_fit::<T, U>(blocks@),
    ensures
        same_numbers(blocks@, r@),
{
    assert forall|i: int| 0 <= i < blocks@.len() implies block_fits::<T, U>(
        #[trigger] blocks@[i],
    ) by {
        assert forall|j: int| 0 <= j < 64 implies fits::<U>((#[trigger] blocks@[i]@[j]).num()) by {
        }
    }
    let r = par_map(
        blocks,
        |block: &Block<T>| -> (converted: Block<U>)
            requires
                block_fits::<T, U>(*block),
            ensures
                same_block_numbers(*block, converted)
            { block.convert_to() },
    );
    assert forall|i: int, j: int| 0 <= i < blocks@.len() && 0 <= j < 64 implies (
    #[trigger] r@[i]@[j]).num() == blocks@[i]@[j].num() by {
        assert(same_block_numbers(blocks@[i], r@[i]));
    }
    r
}

/// Every number of a block can be held by other samples.
spec fn block_fits<T: Sample, U: Sample>(block: Block<T>) -> bool {
    forall|j: int| 0 <= j < 64 ==> fits::<U>((#[trigger] block@[j]).num())
}

/// Two blocks hold the same numbers.
spec fn same_block_numbers<T: Sample, U: Sample>(a: Block<T>, b: Block<U>) -> bool {
    forall|j: int| 0 <= j < 64 ==> (#[trigger] b@[j]).num() == a@[j].num()
}

impl<T: Sample + Sync> SubSampleBlockGroup<T> {
    /// The same numbers as other samples.
    pub fn convert_to<U: Sample + Send>(self) -> (r: SubSampleBlockGroup<U>)
        requires
            all_fit::<T, U>(self.y@),
            all_fit::<T, U>(self.cb@),
            all_fit::<T, U>(self.cr@),
        ensures
            r.dimensions == self.dimensions,
            r.subsampling == self.subsampling,
            same_numbers(self.y@, r.y@),
            same_numbers(self.cb@, r.cb@),
            same_numbers(self.cr@, r.cr@),
    {
        SubSampleBlockGroup {
            dimensions: self.dimensions,
            subsampling: self.subsampling,
            y: convert_blocks(self.y.as_slice()),
            cb: convert_blocks(self.cb.as_slice()),
            cr: convert_blocks(self.cr.as_slice()),
        }
    }
}

/// Whether `x` is the sample in row `row` and column `col` of a plane, or a
/// default one where the plane has none. A column behind the end of a line is
/// read from the next line.
pub open spec fn is_plane_sample<T: Default>(
    plane: Seq<T>,
    width: int,
    row: int,
    col: int,
    x: T,
) -> bool {
    if row * width + col < plane.len() {
        x == plane[row * width + col]
    } else {
        call_ensures(T::default, (), x)
    }
}

/// Cuts the block whose first sample is in row `row` and column `col` out of a
/// plane.
pub fn build_block<T: Copy + Default>(
    pixels: &[T],
    row: usize,
    col: usize,
    width: usize,
) -> (r: Block<T>)
    requires
        (row + 7) * width + col + 7 <= usize::MAX,
    ensures
        forall|i: int|
            0 <= i < 64 ==> is_plane_sample(
                pixels@,
                width as int,
                row + i / 8,
                col + i % 8,
                #[trigger] r@[i],
            ),
{
    let mut data: [T; 64] = [T::default(); 64];
    let mut i: usize = 0;
    while i < 64
        invariant
            i <= 64,
            (row + 7) * width + col + 7 <= usize::MAX,
            forall|j: int| i <= j < 64 ==> call_ensures(T::default, (), #[trigger] data@[j]),
            forall|j: int|
                0 <= j < i ==> is_plane_sample(
                    pixels@,
                    width as int,
                    row + j / 8,
                    col + j % 8,
                    #[trigger] data@[j],
                ),
        decreases 64 - i,
    {
        proof {
            assert((row + i / 8) * width <= (row + 7) * width) by (nonlinear_arith)
                requires
                    i / 8 <= 7,
                    0 <= width,
            ;
            assert(0 <= (row + i / 8) * width) by (nonlinear_arith)
                requires
                    0 <= row,
                    0 <= i,
                    0 <= width,
            ;
            assert(row + 7 <= usize::MAX || width == 0) by (nonlinear_arith)
                requires
                    (row + 7) * width + col + 7 <= usize::MAX,
                    0 <= width,
                    0 <= row,
                    0 <= col,
            ;
        }
        let index: usize = if width == 0 {
            col + i % 8
        } else {
            (row + i / 8) * width + (col + i % 8)
        };
        if index < pixels.len() {
            data[i] = pixels[index];
        }
        i = i + 1;
    }
    Block(data)
}

/// The blocks that a plane is cut into, line by line of blocks.
pub open spec fn is_cut<T: Default>(
    plane: Seq<T>,
    width: int,
    height: int,
    blocks: Seq<Block<T>>,
) -> bool {
    &&& blocks.len() == ceil_div(width, 8) * ceil_div(height, 8)
    &&& forall|b: int, i: int|
        0 <= b < blocks.len() && 0 <= i < 64 ==> is_plane_sample(
            plane,
            width,
            (b / ceil_div(width, 8)) * 8 + i / 8,
            (b % ceil_div(width, 8)) * 8 + i % 8,
            #[trigger] blocks[b]@[i],
        )
}

/// Cuts a plane into blocks, line by line of blocks.
pub fn plane_blocks<T: Copy + Default + Send + Sync>(
    plane: &[T],
    width: usize,
    height: usize,
) -> (r: Vec<Block<T>>)
    requires
        (height + 14) * (width + 7) + width + 14 <= usize::MAX,
    ensures
        is_cut(plane@, width as int, height as int, r@),
{
    let across: usize = div_ceil(width, 8);
    let down: usize = div_ceil(height, 8);
    proof {
        assert(across * down <= (height + 14) * (width + 7)) by (nonlinear_arith)
            requires
                0 <= across <= width,
                0 <= down <= height,
        ;
    }
    let blocks = par_map_range(
        across * down,
        |b: usize| -> (block: Block<T>)
            requires
                block_in_plane(b as int, across as int, down as int, width as int, height as int),
            ensures
                is_plane_block(plane@, width as int, b as int, block)
            {
                proof {
                    lemma_block_place(
                        b as int,
                        across as int,
                        down as int,
                        width as int,
                        height as int,
                    );
                }
                build_block(plane, (b / across) * 8, (b % across) * 8, width)
            },
    );
    assert forall|b: int, i: int| 0 <= b < blocks@.len() && 0 <= i < 64 implies is_plane_sample(
        plane@,
        width as int,
        (b / ceil_div(width as int, 8)) * 8 + i / 8,
        (b % ceil_div(width as int, 8)) * 8 + i % 8,
        #[trigger] blocks@[b]@[i],
    ) by {
        assert(blocks@[(b as usize) as int] == blocks@[b]);
        assert(is_plane_block(plane@, width as int, b, blocks@[b]));
    }
    blocks
}

/// One of the blocks that cover a plane.
spec fn block_in_plane(b: int, across: int, down: int, width: int, height: int) -> bool {
    &&& 0 <= b < across * down
    &&& across == ceil_div(width, 8)
    &&& down == ceil_div(height, 8)
    &&& 0 <= width
    &&& 0 <= height
    &&& (height + 14) * (width + 7) + width + 14 <= usize::MAX
}

/// The `b`-th block of a plane.
spec fn is_plane_block<T: Default>(plane: Seq<T>, width: int, b: int, block: Block<T>) -> bool {
    forall|i: int|
        0 <= i < 64 ==> is_plane_sample(
            plane,
            width,
            (b / ceil_div(width, 8)) * 8 + i / 8,
            (b % ceil_div(width, 8)) * 8 + i % 8,
            #[trigger] block@[i],
        )
}

proof fn lemma_block_place(b: int, across: int, down: int, width: int, height: int)
    requires
        block_in_plane(b, across, down, width, height),
    ensures
        0 < across,
        0 <= b / across < down,
        0 <= b % across < across,
        (b / across) * 8 <= height + 7,
        (b % across) * 8 <= width + 7,
        ((b / across) * 8 + 7) * width + (b % across) * 8 + 7 <= usize::MAX,
{
    assert(across > 0) by (nonlinear_arith)
        requires
            0 <= b < across * down,
            across >= 0,
    ;
    lemma_place_parts(b, across);
    assert(b / across < down) by (nonlinear_arith)
        requires
            b == (b / across) * across + b % across,
            0 <= b % across,
            b < across * down,
            0 < across,
    ;
    assert(((b / across) * 8 + 7) * width <= (height + 14) * (width + 7)) by (nonlinear_arith)
        requires
            0 <= (b / across) * 8 + 7 <= height + 14,
            0 <= width,
    ;
}

/// Where the sample in row `row` and column `col` of a plane comes from: a
/// block and a place in it. The blocks of the last column may reach over the
/// end of the lines; what reaches over stands at the start of the next line,
/// within the eight lines that the blocks cover.
pub open spec fn plane_source(blocks: nat, width: int, row: int, col: int) -> (int, int) {
    let across = ceil_div(width, 8);
    let last = (row / 8) * across + across - 1;
    let over = col + width - 8 * (across - 1);
    if across >= 2 && row % 8 >= 1 && over < 8 && last < blocks {
        (last, (row % 8 - 1) * 8 + over)
    } else {
        ((row / 8) * across + col / 8, (row % 8) * 8 + col % 8)
    }
}

/// The plane that blocks make up, each sample brought into its range by `clamp`.
/// Samples without a block are default ones.
pub open spec fn is_joined<T: Default, K: Fn(&T) -> T>(
    clamp: K,
    blocks: Seq<Block<T>>,
    width: int,
    height: int,
    plane: Seq<T>,
) -> bool {
    &&& plane.len() == height * width
    &&& forall|row: int, col: int|
        0 <= row < height && 0 <= col < width ==> {
            let source = plane_source(blocks.len(), width, row, col);
            if source.0 < blocks.len() {
                call_ensures(
                    clamp,
                    (&blocks[source.0]@[source.1],),
                    #[trigger] plane[row * width + col],
                )
            } else {
                call_ensures(T::default, (), plane[row * width + col])
            }
        }
}

/// Puts blocks together to a plane, each sample brought into its range by
/// `clamp`. Samples without a block are default ones.
pub fn assemble_plane<T: Copy + Default, K: Fn(&T) -> T>(
    clamp: &K,
    blocks: &[Block<T>],
    width: usize,
    height: usize,
) -> (r: Vec<T>)
    requires
        width > 0,
        (height + 8) * (width + 8) <= usize::MAX,
        forall|x: T| #[trigger] call_requires(*clamp, (&x,)),
    ensures
        is_joined(*clamp, blocks@, width as int, height as int, r@),
{
    let across: usize = div_ceil(width, 8);
    let mut plane: Vec<T> = Vec::new();
    let mut row: usize = 0;
    assert(0 * width == 0) by (nonlinear_arith);
    while row < height
        invariant
            row <= height,
            width > 0,
            across == ceil_div(width as int, 8),
            across <= width,
            (height + 8) * (width + 8) <= usize::MAX,
            forall|x: T| #[trigger] call_requires(*clamp, (&x,)),
            plane@.len() == row * width,
            forall|t: int|
                0 <= t < plane@.len() ==> plane_holds(
                    *clamp,
                    blocks@,
                    width as int,
                    t,
                    #[trigger] plane@[t],
                ),
        decreases height - row,
    {
        proof {
            assert(row * width + 0 == row * width);
        }
        let mut col: usize = 0;
        while col < width
            invariant
                row < height,
                col <= width,
                width > 0,
                across == ceil_div(width as int, 8),
                across <= width,
                (height + 8) * (width + 8) <= usize::MAX,
                forall|x: T| #[trigger] call_requires(*clamp, (&x,)),
                plane@.len() == row * width + col,
                forall|t: int|
                    0 <= t < plane@.len() ==> plane_holds(
                        *clamp,
                        blocks@,
                        width as int,
                        t,
                        #[trigger] plane@[t],
                    ),
            decreases width - col,
        {
            proof {
                lemma_place(row as int, col as int, width as int);
                lemma_source_bounds(row as int, col as int, width as int, height as int);
            }
            let line: usize = (row / 8) * across;
            let last: usize = line + across - 1;
            let over: usize = col + width - 8 * (across - 1);
            let (block, place): (usize, usize) = if across >= 2 && row % 8 >= 1 && over < 8 && last
                < blocks.len() {
                (last, (row % 8 - 1) * 8 + over)
            } else {
                (line + col / 8, (row % 8) * 8 + col % 8)
            };
            let x: T = if block < blocks.len() {
                (*clamp)(&blocks[block].0[place])
            } else {
                T::default()
            };
            plane.push(x);
            col = col + 1;
        }
        proof {
            assert(row * width + width == (row + 1) * width) by (nonlinear_arith);
        }
        row = row + 1;
    }
    proof {
        assert forall|row: int, col: int| 0 <= row < height && 0 <= col < width implies {
            let source = plane_source(blocks@.len(), width as int, row, col);
            if source.0 < blocks@.len() {
                call_ensures(
                    *clamp,
                    (&blocks@[source.0]@[source.1],),
                    #[trigger] plane@[row * width + col],
                )
            } else {
                call_ensures(T::default, (), plane@[row * width + col])
            }
        } by {
            lemma_place(row, col, width as int);
            lemma_place_bound(row, col, width as int, height as int);
            assert(plane_holds(
                *clamp,
                blocks@,
                width as int,
                row * width + col,
                plane@[row * width + col],
            ));
        }
    }
    plane
}

/// Whether `x` is the sample at place `t` of the plane that blocks make up.
spec fn plane_holds<T: Default, K: Fn(&T) -> T>(
    clamp: K,
    blocks: Seq<Block<T>>,
    width: int,
    t: int,
    x: T,
) -> bool {
    let source = plane_source(blocks.len(), width, t / width, t % width);
    if source.0 < blocks.len() {
        call_ensures(clamp, (&blocks[source.0]@[source.1],), x)
    } else {
        call_ensures(T::default, (), x)
    }
}

proof fn lemma_source_bounds(row: int, col: int, width: int, height: int)
    requires
        0 <= row < height,
        0 <= col < width,
        (height + 8) * (width + 8) <= usize::MAX,
    ensures
        ({
            let across = ceil_div(width, 8);
            &&& 1 <= across
            &&& 8 * across < width + 8
            &&& 8 * (across - 1) < width
            &&& 0 <= (row / 8) * across
            &&& (row / 8) * across + across + width <= usize::MAX
            &&& col + width <= usize::MAX
        }),
{
    let across = ceil_div(width, 8);
    assert(0 <= (row / 8) * across) by (nonlinear_arith)
        requires
            0 <= row / 8,
            0 <= across,
    ;
    assert((row / 8) * across + across + width <= (height + 8) * (width + 8)) by (nonlinear_arith)
        requires
            0 <= row / 8 <= height,
            0 <= across <= width,
            0 <= height,
            0 < width,
    ;
    assert(width + width <= (height + 8) * (width + 8)) by (nonlinear_arith)
        requires
            0 <= height,
            0 < width,
    ;
}

/// A size with room for whole blocks around the image.
pub open spec fn is_image_size(dimensions: PixelDimensions) -> bool {
    (dimensions.height + 32) * (dimensions.width + 32) <= usize::MAX
}

/// The blocks of an image whose chroma planes were subsampled.
pub open spec fn is_blocked<
    P,
    T: Default,
    L: Fn(&P) -> T,
    M: Fn(&Vec<P>) -> (T, T),
>(
    luma: L,
    mean: M,
    dimensions: PixelDimensions,
    image: Seq<P>,
    subsampling: Subsampling,
    r: SubSampleBlockGroup<T>,
) -> bool {
    let chroma = dimensions.subsampled(subsampling);
    &&& r.dimensions.width == ceil_div(dimensions.width as int, 8)
    &&& r.dimensions.height == ceil_div(dimensions.height as int, 8)
    &&& r.subsampling == subsampling
    &&& exists|group: SubSampleGroup<T>|
        {
            &&& #[trigger] is_subsampled(luma, mean, dimensions, image, subsampling, group)
            &&& is_cut(group.y@, dimensions.width as int, dimensions.height as int, r.y@)
            &&& is_cut(group.cb@, chroma.width as int, chroma.height as int, r.cb@)
            &&& is_cut(group.cr@, chroma.width as int, chroma.height as int, r.cr@)
        }
}

/// Subsamples the chroma planes of an image and cuts all planes into blocks.
pub fn subsample_into_block_ycbcr<
    P: Copy + Send + Sync,
    T: Copy + Default + Send + Sync,
    L: Fn(&P) -> T + Sync + Send,
    M: Fn(&Vec<P>) -> (T, T) + Sync + Send,
>(
    dimensions: PixelDimensions,
    ycbcr: &[P],
    subsampling: Subsampling,
    luma: &L,
    mean: &M,
) -> (r: SubSampleBlockGroup<T>)
    requires
        is_image_size(dimensions),
        forall|pixel: P| #[trigger] call_requires(*luma, (&pixel,)),
        forall|taken: Vec<P>| #[trigger] call_requires(*mean, (&taken,)),
    ensures
        is_blocked(*luma, *mean, dimensions, ycbcr@, subsampling, r),
{
    let chroma = dimensions.subsample(subsampling);
    proof {
        lemma_image_size(dimensions, dimensions);
        lemma_image_size(dimensions, chroma);
    }
    let group = subsample_ycbcr(dimensions, ycbcr, subsampling, luma, mean);
    let y = plane_blocks(group.y.as_slice(), dimensions.width, dimensions.height);
    let cb = plane_blocks(group.cb.as_slice(), chroma.width, chroma.height);
    let cr = plane_blocks(group.cr.as_slice(), chroma.width, chroma.height);
    SubSampleBlockGroup::new(BlockDimensions::from(dimensions), subsampling, y, cb, cr)
}

/// What an image has room for, a plane that is not much larger has room for.
proof fn lemma_image_size(dimensions: PixelDimensions, plane: PixelDimensions)
    requires
        is_image_size(dimensions),
        plane.width <= dimensions.width + 16,
        plane.height <= dimensions.height + 16,
    ensures
        is_pixel_size(dimensions),
        dimensions.width * dimensions.height <= usize::MAX,
        (plane.height + 14) * (plane.width + 7) + plane.width + 14 <= usize::MAX,
        (plane.height + 8) * (plane.width + 8) <= usize::MAX,
{
    let width = dimensions.width as int;
    let height = dimensions.height as int;
    let w = plane.width as int;
    let h = plane.height as int;
    assert((h + 14) * (w + 7) + w + 14 <= (height + 32) * (width + 32)) by (nonlinear_arith)
        requires
            0 <= w <= width + 16,
            0 <= h <= height + 16,
    ;
    assert((h + 8) * (w + 8) <= (height + 32) * (width + 32)) by (nonlinear_arith)
        requires
            0 <= w <= width + 16,
            0 <= h <= height + 16,
    ;
    assert((height + 2) * (width + 4) <= (height + 32) * (width + 32) && width * height <= (height
        + 32) * (width + 32)) by (nonlinear_arith)
        requires
            0 <= width,
            0 <= height,
    ;
}

/// The planes that blocks make up, with the chroma planes grown to the size of
/// the luma plane.
pub open spec fn is_unblocked<T: Default, K: Fn(&T) -> T>(
    clamp: K,
    dimensions: PixelDimensions,
    y: Seq<Block<T>>,
    cb: Seq<Block<T>>,
    cr: Seq<Block<T>>,
    subsampling: Subsampling,
    r: UpSampleGroup<T>,
) -> bool {
    let chroma = chroma_dimensions(dimensions, subsampling);
    &&& r.dimensions == dimensions
    &&& is_joined(clamp, y, dimensions.width as int, dimensions.height as int, r.y@)
    &&& exists|plane_cb: Seq<T>, plane_cr: Seq<T>|
        {
            &&& is_joined(clamp, cb, chroma.width as int, chroma.height as int, plane_cb)
            &&& is_joined(clamp, cr, chroma.width as int, chroma.height as int, plane_cr)
            &&& #[trigger] is_upsampled(dimensions, subsampling, plane_cb, plane_cr, r)
        }
}

/// Puts the blocks of an image together to planes, each sample brought into its
/// range by `clamp`, and grows the chroma planes to the size of the luma plane.
pub fn reconstruct_planes<T: Copy + Default + Send + Sync, K: Fn(&T) -> T>(
    clamp: &K,
    dimensions: PixelDimensions,
    y_blocks: &[Block<T>],
    cb_blocks: &[Block<T>],
    cr_blocks: &[Block<T>],
    subsampling: Subsampling,
) -> (r: UpSampleGroup<T>)
    requires
        dimensions.width > 0,
        is_image_size(dimensions),
        forall|x: T| #[trigger] call_requires(*clamp, (&x,)),
    ensures
        is_unblocked(*clamp, dimensions, y_blocks@, cb_blocks@, cr_blocks@, subsampling, r),
{
    let chroma = calculate_chroma_dimensions(dimensions, subsampling);
    proof {
        lemma_image_size(dimensions, dimensions);
        lemma_image_size(dimensions, chroma);
    }
    let y = assemble_plane(clamp, y_blocks, dimensions.width, dimensions.height);
    let cb = assemble_plane(clamp, cb_blocks, chroma.width, chroma.height);
    let cr = assemble_plane(clamp, cr_blocks, chroma.width, chroma.height);
    upsample_ycbcr(dimensions, y, cb, cr, subsampling)
}

/// Two lists of blocks are at least as far apart as any two blocks at the same place.
pub proof fn law_distance_covers_each_pair<T: Sample>(
    a: Seq<Block<T>>,
    b: Seq<Block<T>>,
    n: int,
    i: int,
)
    requires
        0 <= i < n,
    ensures
        abs_difference(a[i]@, b[i]@, 64) <= blocks_apart(a, b, n),
    decreases n,
{
    lemma_abs_difference_grows(a[n - 1]@, b[n - 1]@, 0, 64);
    lemma_apart_not_negative(a, b, n - 1);
    if i < n - 1 {
        law_distance_covers_each_pair(a, b, n - 1, i);
    }
}

proof fn lemma_apart_not_negative<T: Sample>(a: Seq<Block<T>>, b: Seq<Block<T>>, n: int)
    ensures
        0 <= blocks_apart(a, b, n),
    decreases n,
{
    if n > 0 {
        lemma_apart_not_negative(a, b, n - 1);
        lemma_abs_difference_grows(a[n - 1]@, b[n - 1]@, 0, 64);
    }
}

/// Two lists of blocks are not apart exactly where their blocks are equal.
pub proof fn law_not_apart_is_equal<T: Sample>(a: Seq<Block<T>>, b: Seq<Block<T>>, n: int)
    requires
        0 <= n,
    ensures
        0 <= blocks_apart(a, b, n),
        blocks_apart(a, b, n) == 0 <==> forall|i: int| 0 <= i < n ==> #[trigger] a[i] == b[i],
{
    lemma_apart_not_negative(a, b, n);
    if blocks_apart(a, b, n) == 0 {
        assert forall|i: int| 0 <= i < n implies #[trigger] a[i] == b[i] by {
            law_distance_covers_each_pair(a, b, n, i);
            lemma_abs_difference_grows(a[i]@, b[i]@, 0, 64);
            law_apart_by_nothing(a[i], b[i]);
        }
    }
    if forall|i: int| 0 <= i < n ==> #[trigger] a[i] == b[i] {
        lemma_equal_not_apart(a, b, n);
    }
}

proof fn lemma_equal_not_apart<T: Sample>(a: Seq<Block<T>>, b: Seq<Block<T>>, n: int)
    requires
        forall|i: int| 0 <= i < n ==> #[trigger] a[i] == b[i],
    ensures
        blocks_apart(a, b, n) == 0,
    decreases n,
{
    if n > 0 {
        lemma_equal_not_apart(a, b, n - 1);
        law_apart_by_nothing(a[n - 1], b[n - 1]);
        assert(a[n - 1] == b[n - 1]);
    }
}

/// A block that is replaced takes its old distance away and brings its new one.
pub proof fn law_each_block_counts<T: Sample>(
    a: Seq<Block<T>>,
    b: Seq<Block<T>>,
    n: int,
    i: int,
    block: Block<T>,
)
    requires
        0 <= i < n <= a.len(),
    ensures
        blocks_apart(a.update(i, block), b, n) - blocks_apart(a, b, n) == abs_difference(
            block@,
            b[i]@,
            64,
        ) - abs_difference(a[i]@, b[i]@, 64),
    decreases n,
{
    if i < n - 1 {
        law_each_block_counts(a, b, n - 1, i, block);
    } else {
        lemma_apart_of_first(a.update(i, block), a, b, n - 1);
    }
}

proof fn lemma_apart_of_first<T: Sample>(
    a: Seq<Block<T>>,
    other: Seq<Block<T>>,
    b: Seq<Block<T>>,
    n: int,
)
    requires
        forall|i: int| 0 <= i < n ==> #[trigger] a[i] == other[i],
    ensures
        blocks_apart(a, b, n) == blocks_apart(other, b, n),
    decreases n,
{
    if n > 0 {
        lemma_apart_of_first(a, other, b, n - 1);
        assert(a[n - 1] == other[n - 1]);
    }
}

/// The sample in a row and a column of a plane stands in the block of that row and
/// column, counted in eights, at the place that is left over. What the blocks have
/// beyond the plane is a default sample.
pub proof fn law_cut_keeps_places<T: Default>(
    plane: Seq<T>,
    width: int,
    height: int,
    blocks: Seq<Block<T>>,
    row: int,
    col: int,
)
    requires
        0 < width,
        0 < height,
        is_cut(plane, width, height, blocks),
        0 <= row < height,
        0 <= col < width,
    ensures
        ({
            let b = (row / 8) * ((width + 7) / 8) + col / 8;
            let i = (row % 8) * 8 + col % 8;
            &&& 8 * blocks.len() >= width
            &&& 0 <= b < blocks.len()
            &&& row * width + col < plane.len() ==> blocks[b]@[i] == plane[row * width + col]
            &&& row * width + col >= plane.len() ==> call_ensures(
                T::default,
                (),
                blocks[b]@[i],
            )
        }),
{
    let across = ceil_div(width, 8);
    let down = ceil_div(height, 8);
    let b = (row / 8) * across + col / 8;
    let i = (row % 8) * 8 + col % 8;
    lemma_place(row / 8, col / 8, across);
    lemma_place_bound(row / 8, col / 8, across, down);
    assert(across * down == down * across && down * across >= across) by (nonlinear_arith)
        requires
            down >= 1,
            across >= 1,
    ;
    assert(i / 8 == row % 8 && i % 8 == col % 8);
    assert(is_plane_sample(
        plane,
        width,
        (b / across) * 8 + i / 8,
        (b % across) * 8 + i % 8,
        blocks[b]@[i],
    ));
}

proof fn lemma_source_of_cut<T: Default>(
    plane: Seq<T>,
    width: int,
    height: int,
    blocks: Seq<Block<T>>,
    row: int,
    col: int,
)
    requires
        0 < width,
        plane.len() == height * width,
        is_cut(plane, width, height, blocks),
        0 <= row < height,
        0 <= col < width,
    ensures
        ({
            let source = plane_source(blocks.len(), width, row, col);
            &&& 0 <= row * width + col < plane.len()
            &&& 0 <= source.0 < blocks.len()
            &&& blocks[source.0]@[source.1] == plane[row * width + col]
        }),
{
    let across = ceil_div(width, 8);
    let down = ceil_div(height, 8);
    let source = plane_source(blocks.len(), width, row, col);
    let last = (row / 8) * across + across - 1;
    let over = col + width - 8 * (across - 1);
    lemma_place_bound(row, col, width, height);
    if across >= 2 && row % 8 >= 1 && over < 8 && last < blocks.len() {
        lemma_place(row / 8, across - 1, across);
        lemma_place_bound(row / 8, across - 1, across, down);
        assert(source.0 / across == row / 8 && source.0 % across == across - 1);
        assert(source.1 / 8 == row % 8 - 1 && source.1 % 8 == over);
        assert((row - 1) * width + (width + col) == row * width + col) by (nonlinear_arith);
        assert(is_plane_sample(
            plane,
            width,
            (source.0 / across) * 8 + source.1 / 8,
            (source.0 % across) * 8 + source.1 % 8,
            blocks[source.0]@[source.1],
        ));
    } else {
        law_cut_keeps_places(plane, width, height, blocks, row, col);
    }
}

/// Cutting and joining undo each other: what is joined of the blocks of a plane is,
/// sample by sample, what the range makes of that plane, and the plane itself where
/// the range keeps its samples.
pub proof fn law_cut_and_joined<T: Default, K: Fn(&T) -> T>(
    clamp: K,
    plane: Seq<T>,
    width: int,
    height: int,
    blocks: Seq<Block<T>>,
    r: Seq<T>,
)
    requires
        0 < width,
        0 <= height,
        plane.len() == height * width,
        is_cut(plane, width, height, blocks),
        is_joined(clamp, blocks, width, height, r),
    ensures
        r.len() == plane.len(),
        forall|t: int|
            0 <= t < plane.len() ==> call_ensures(clamp, (&plane[t],), #[trigger] r[t]),
        (forall|t: int, x: T|
            0 <= t < plane.len() && #[trigger] call_ensures(clamp, (&plane[t],), x) ==> x
                == plane[t]) ==> r == plane,
{
    assert forall|t: int| 0 <= t < plane.len() implies call_ensures(
        clamp,
        (&plane[t],),
        #[trigger] r[t],
    ) by {
        lemma_place_parts(t, width);
        let row = t / width;
        let col = t % width;
        assert(row < height) by (nonlinear_arith)
            requires
                t == row * width + col,
                col >= 0,
                t < height * width,
                width > 0,
        ;
        assert(0 <= row) by (nonlinear_arith)
            requires
                t == row * width + col,
                col < width,
                0 <= t,
                width > 0,
        ;
        lemma_source_of_cut(plane, width, height, blocks, row, col);
        assert(r[row * width + col] == r[t]);
    }
    if forall|t: int, x: T|
        0 <= t < plane.len() && #[trigger] call_ensures(clamp, (&plane[t],), x) ==> x
            == plane[t] {
        assert forall|t: int| 0 <= t < plane.len() implies #[trigger] r[t] == plane[t] by {
            assert(call_ensures(clamp, (&plane[t],), r[t]));
        }
        assert(r =~= plane);
    }
}

/// In a plane of whole blocks, the sample in a row and a column is made of the block of
/// that row and column, counted in eights, at the place that is left over, or a
/// default sample where there is no such block.
pub proof fn law_joined_keeps_places<T: Default, K: Fn(&T) -> T>(
    clamp: K,
    blocks: Seq<Block<T>>,
    width: int,
    height: int,
    r: Seq<T>,
    row: int,
    col: int,
)
    requires
        width % 8 == 0,
        is_joined(clamp, blocks, width, height, r),
        0 <= row < height,
        0 <= col < width,
    ensures
        ({
            let b = (row / 8) * (width / 8) + col / 8;
            let i = (row % 8) * 8 + col % 8;
            &&& r.len() == height * width
            &&& b < blocks.len() ==> call_ensures(
                clamp,
                (&blocks[b]@[i],),
                r[row * width + col],
            )
            &&& b >= blocks.len() ==> call_ensures(T::default, (), r[row * width + col])
        }),
{
    let source = plane_source(blocks.len(), width, row, col);
    assert(ceil_div(width, 8) == width / 8);
    assert(r[row * width + col] == r[row * width + col]);
}

/// The blocks of an image hold, block by block, the luma of every pixel in its place, and in the
/// chroma planes at every place the pair of samples that is taken of the pixels that share it.
pub proof fn law_blocks_hold_the_image<
    P,
    T: Default,
    L: Fn(&P) -> T,
    M: Fn(&Vec<P>) -> (T, T),
>(
    luma: L,
    mean: M,
    dimensions: PixelDimensions,
    image: Seq<P>,
    subsampling: Subsampling,
    r: SubSampleBlockGroup<T>,
    row: int,
    col: int,
)
    requires
        is_blocked(luma, mean, dimensions, image, subsampling, r),
        image.len() == dimensions.height * dimensions.width,
        0 <= row,
        0 <= col,
    ensures
        r.subsampling == subsampling,
        8 * (r.dimensions.width - 1) < dimensions.width <= 8 * r.dimensions.width,
        8 * (r.dimensions.height - 1) < dimensions.height <= 8 * r.dimensions.height,
        row < dimensions.height && col < dimensions.width ==> {
            let b = (row / 8) * r.dimensions.width + col / 8;
            &&& b < r.y@.len()
            &&& call_ensures(
                luma,
                (&image[row * dimensions.width + col],),
                r.y@[b]@[(row % 8) * 8 + col % 8],
            )
        },
        ({
            let chroma = dimensions.subsampled(subsampling);
            row < chroma.height && col < chroma.width ==> {
                let b = (row / 8) * ((chroma.width + 7) / 8) + col / 8;
                let i = (row % 8) * 8 + col % 8;
                &&& b < r.cb@.len()
                &&& b < r.cr@.len()
                &&& is_chroma_sample(
                    mean,
                    image,
                    sampled_pixels(dimensions, subsampling, row * chroma.width + col),
                    (r.cb@[b]@[i], r.cr@[b]@[i]),
                )
            }
        }),
{
    let chroma = dimensions.subsampled(subsampling);
    let group = choose|group: SubSampleGroup<T>|
        {
            &&& #[trigger] is_subsampled(luma, mean, dimensions, image, subsampling, group)
            &&& is_cut(group.y@, dimensions.width as int, dimensions.height as int, r.y@)
            &&& is_cut(group.cb@, chroma.width as int, chroma.height as int, r.cb@)
            &&& is_cut(group.cr@, chroma.width as int, chroma.height as int, r.cr@)
        };
    if row < dimensions.height && col < dimensions.width {
        law_cut_keeps_places(
            group.y@,
            dimensions.width as int,
            dimensions.height as int,
            r.y@,
            row,
            col,
        );
        lemma_place_bound(row, col, dimensions.width as int, dimensions.height as int);
        let t = row * dimensions.width + col;
        assert(call_ensures(luma, (&image[t],), group.y@[t]));
    }
    if row < chroma.height && col < chroma.width {
        let t = row * chroma.width + col;
        law_cut_keeps_places(
            group.cb@,
            chroma.width as int,
            chroma.height as int,
            r.cb@,
            row,
            col,
        );
        law_cut_keeps_places(
            group.cr@,
            chroma.width as int,
            chroma.height as int,
            r.cr@,
            row,
            col,
        );
        lemma_place_bound(row, col, chroma.width as int, chroma.height as int);
        lemma_chroma_count(dimensions, subsampling, image.len());
        assert(0 <= t < group.cb@.len());
        assert(is_chroma_sample(
            mean,
            image,
            sampled_pixels(dimensions, subsampling, t),
            (group.cb@[t], group.cr@[t]),
        ));
    }
}

/// As many chroma samples are taken of an image as its chroma planes have.
proof fn lemma_chroma_count(dimensions: PixelDimensions, subsampling: Subsampling, len: nat)
    requires
        len == dimensions.height * dimensions.width,
    ensures
        ({
            let chroma = dimensions.subsampled(subsampling);
            crate::color::sample_count(dimensions, subsampling, len) == chroma.height
                * chroma.width
        }),
{
    let chroma = dimensions.subsampled(subsampling);
    vstd::arithmetic::mul::lemma_mul_is_commutative(
        chroma.height as int,
        chroma.width as int,
    );
    vstd::arithmetic::div_mod::lemma_div_basics(dimensions.height as int);
}

/// The planes that blocks make up hold, in an image of whole blocks, what the range makes of the
/// luma sample of every pixel and of the two chroma samples that it shares.
pub proof fn law_planes_hold_the_blocks<T: Default, K: Fn(&T) -> T>(
    clamp: K,
    dimensions: PixelDimensions,
    y: Seq<Block<T>>,
    cb: Seq<Block<T>>,
    cr: Seq<Block<T>>,
    subsampling: Subsampling,
    cols: int,
    rows: int,
    r: UpSampleGroup<T>,
    row: int,
    col: int,
)
    requires
        are_shares(subsampling, cols, rows),
        is_unblocked(clamp, dimensions, y, cb, cr, subsampling, r),
        dimensions.width % 8 == 0,
        0 <= row < dimensions.height,
        0 <= col < dimensions.width,
    ensures
        ({
            let across = chroma_dimensions(dimensions, subsampling).width as int / 8;
            let t = row * dimensions.width + col;
            let b = (row / 8) * (dimensions.width as int / 8) + col / 8;
            let i = (row % 8) * 8 + col % 8;
            let line = row / rows;
            let place = col / cols;
            let c = (line / 8) * across + place / 8;
            let j = (line % 8) * 8 + place % 8;
            &&& r.dimensions == dimensions
            &&& b < y.len() ==> call_ensures(clamp, (&y[b]@[i],), r.y@[t])
            &&& b >= y.len() ==> call_ensures(T::default, (), r.y@[t])
            &&& c < cb.len() ==> call_ensures(clamp, (&cb[c]@[j],), r.cb@[t])
            &&& c >= cb.len() ==> call_ensures(T::default, (), r.cb@[t])
            &&& c < cr.len() ==> call_ensures(clamp, (&cr[c]@[j],), r.cr@[t])
            &&& c >= cr.len() ==> call_ensures(T::default, (), r.cr@[t])
        }),
{
    let chroma = chroma_dimensions(dimensions, subsampling);
    let (plane_cb, plane_cr) = choose|plane_cb: Seq<T>, plane_cr: Seq<T>|
        {
            &&& is_joined(clamp, cb, chroma.width as int, chroma.height as int, plane_cb)
            &&& is_joined(clamp, cr, chroma.width as int, chroma.height as int, plane_cr)
            &&& #[trigger] is_upsampled(dimensions, subsampling, plane_cb, plane_cr, r)
        };
    let width = chroma.width as int;
    let height = chroma.height as int;
    law_joined_keeps_places(
        clamp,
        y,
        dimensions.width as int,
        dimensions.height as int,
        r.y@,
        row,
        col,
    );
    law_pixel_gets_its_sample(
        dimensions,
        subsampling,
        cols,
        rows,
        plane_cb,
        plane_cr,
        r,
        row,
        col,
    );
    law_chroma_planes_just_cover(dimensions, subsampling, cols, rows);
    lemma_share_inside(row, height, dimensions.height as int, rows);
    lemma_share_inside(col, width, dimensions.width as int, cols);
    law_joined_keeps_places(clamp, cb, width, height, plane_cb, row / rows, col / cols);
    law_joined_keeps_places(clamp, cr, width, height, plane_cr, row / rows, col / cols);
}

proof fn lemma_share_inside(x: int, shared: int, size: int, share: int)
    requires
        share == 1 || share == 2 || share == 4,
        0 <= x < size,
        share == 1 ==> shared == size,
        size <= shared * share,
    ensures
        0 <= x / share < shared,
{
    if share == 1 {
        vstd::arithmetic::div_mod::lemma_div_basics(x);
    } else if share == 2 {
        assert(shared * share == 2 * shared) by (nonlinear_arith)
            requires
                share == 2,
        ;
        assert(x / share == x / 2);
    } else {
        assert(shared * share == 4 * shared) by (nonlinear_arith)
            requires
                share == 4,
        ;
        assert(x / share == x / 4);
    }
}

/// Blocks that are converted keep their numbers, block by block and sample by sample, and so do
/// blocks that are converted twice.
pub proof fn law_numbers_stay<T: Sample, U: Sample, V: Sample>(
    a: Seq<Block<T>>,
    b: Seq<Block<U>>,
    c: Seq<Block<V>>,
    i: int,
    j: int,
)
    requires
        same_numbers(a, b),
        same_numbers(b, c),
        0 <= i < a.len(),
        0 <= j < 64,
    ensures
        a.len() == c.len(),
        a[i]@[j].num() == b[i]@[j].num(),
        a[i]@[j].num() == c[i]@[j].num(),
{
    assert(b[i]@[j].num() == a[i]@[j].num());
    assert(c[i]@[j].num() == b[i]@[j].num());
}

} // verus!
