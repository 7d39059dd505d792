//! The size of an image, in pixels and in blocks of eight by eight pixels.
use vstd::arithmetic::power2::lemma2_to64;
use vstd::prelude::*;
use vstd::std_specs::convert::FromSpec;

use crate::bits::{be_bits, bits_value, lemma_be_bits_mod};
use crate::bitstream::{law_bits_come_back, BitStreamReader, BitStreamWriter};
use crate::color::Subsampling;
use crate::error::{is_failed_to_decode, Error, Result};
use crate::numeric::{ceil_div, div_ceil};

verus! {

/// How a stream holds a width and a height: the 32 low bits of both.
pub open spec fn size_bits(width: nat, height: nat) -> Seq<bool> {
    be_bits(width, 32) + be_bits(height, 32)
}

/// The width that a stream starts with.
pub open spec fn read_width(bits: Seq<bool>) -> nat {
    bits_value(bits.take(32))
}

/// The height that follows the width.
pub open spec fn read_height(bits: Seq<bool>) -> nat {
    bits_value(bits.skip(32).take(32))
}

pub proof fn lemma_size_comes_back(width: nat, height: nat, rest: Seq<bool>)
    requires
        width <= u32::MAX,
        height <= u32::MAX,
    ensures
        ({
            let stream = size_bits(width, height) + rest;
            &&& stream.len() >= 64
            &&& read_width(stream) == width
            &&& read_height(stream) == height
            &&& stream.skip(64) == rest
        }),
{
    lemma2_to64();
    let stream = size_bits(width, height) + rest;
    let behind = be_bits(height, 32) + rest;
    assert(stream =~= be_bits(width, 32) + behind);
    law_bits_come_back(width, 32, behind);
    law_bits_come_back(height, 32, rest);
    assert(stream.skip(64) =~= stream.skip(32).skip(32));
}

fn write_size(width: usize, height: usize, stream: &mut BitStreamWriter) -> (r: Result<()>)
    ensures
        r is Ok,
        final(stream)@ == old(stream)@ + size_bits(width as nat, height as nat),
{
    let ghost start = stream@;
    proof {
        lemma2_to64();
        lemma_be_bits_mod(width as nat, 32);
        lemma_be_bits_mod(height as nat, 32);
    }
    stream.write((width as u64 % 0x1_0000_0000) as u32)?;
    stream.write((height as u64 % 0x1_0000_0000) as u32)?;
    assert(stream@ =~= start + size_bits(width as nat, height as nat));
    Ok(())
}

fn read_size(stream: &mut BitStreamReader) -> (r: Result<(usize, usize)>)
    ensures
        r is Ok <==> old(stream)@.len() >= 64,
        r is Ok ==> r->Ok_0.0 == read_width(old(stream)@) && r->Ok_0.1 == read_height(
            old(stream)@,
        ) && final(stream)@ == old(stream)@.skip(64),
        old(stream)@.len() < 32 ==> is_failed_to_decode(r, "width"@),
        32 <= old(stream)@.len() < 64 ==> is_failed_to_decode(r, "height"@),
{
    let ghost start = stream@;
    let width: u32 = match stream.read::<u32>()? {
        Some(width) => width,
        None => {
            return Err(Error::FailedToDecode("width".to_owned()));
        },
    };
    let height: u32 = match stream.read::<u32>()? {
        Some(height) => height,
        None => {
            return Err(Error::FailedToDecode("height".to_owned()));
        },
    };
    assert(start.skip(32).skip(32) =~= start.skip(64));
    Ok((width as usize, height as usize))
}

/// The size of a plane in blocks.
#[derive(Clone, Copy, Debug, PartialEq, Eq, Structural)]
pub struct BlockDimensions {
    pub width: usize,
    pub height: usize,
}

impl BlockDimensions {
    /// The dimensions of the chroma planes.
    pub open spec fn subsampled(self, subsampling: Subsampling) -> Self {
        match subsampling {
            Subsampling::Sample444 => self,
            Subsampling::Sample422 => BlockDimensions {
                width: ceil_div(self.width as int, 2) as usize,
                height: self.height,
            },
            Subsampling::Sample420 => BlockDimensions {
                width: ceil_div(self.width as int, 2) as usize,
                height: ceil_div(self.height as int, 2) as usize,
            },
            Subsampling::Sample411 => BlockDimensions {
                width: ceil_div(self.width as int, 4) as usize,
                height: self.height,
            },
        }
    }

    /// The dimensions of the chroma planes.
    pub fn subsample(self, subsampling: Subsampling) -> (r: Self)
        ensures
            r == self.subsampled(subsampling),
    {
        match subsampling {
            Subsampling::Sample444 => self,
            Subsampling::Sample422 => BlockDimensions {
                width: div_ceil(self.width, 2),
                height: self.height,
            },
            Subsampling::Sample420 => BlockDimensions {
                width: div_ceil(self.width, 2),
                height: div_ceil(self.height, 2),
            },
            Subsampling::Sample411 => BlockDimensions {
                width: div_ceil(self.width, 4),
                height: self.height,
            },
        }
    }

    /// How a stream holds the dimensions: the 32 low bits of both numbers.
    pub open spec fn stream_bits(self) -> Seq<bool> {
        size_bits(self.width as nat, self.height as nat)
    }

    /// Writes the dimensions.
    pub fn encode(&self, stream: &mut BitStreamWriter) -> (r: Result<()>)
        ensures
            r is Ok,
            final(stream)@ == old(stream)@ + self.stream_bits(),
    {
        write_size(self.width, self.height, stream)
    }

    /// Reads dimensions.
    pub fn decode(stream: &mut BitStreamReader) -> (r: Result<Self>)
        ensures
            r is Ok <==> old(stream)@.len() >= 64,
            r is Ok ==> r->Ok_0.width == read_width(old(stream)@) && r->Ok_0.height == read_height(
                old(stream)@,
            ) && final(stream)@ == old(stream)@.skip(64),
            old(stream)@.len() < 32 ==> is_failed_to_decode(r, "width"@),
            32 <= old(stream)@.len() < 64 ==> is_failed_to_decode(r, "height"@),
    {
        match read_size(stream) {
            Ok((width, height)) => Ok(BlockDimensions { width, height }),
            Err(e) => Err(e),
        }
    }
}

/// Dimensions that were written are read back, as far as they fit 32 bits,
/// and the stream goes on behind them.
pub proof fn law_block_dimensions_come_back(dimensions: BlockDimensions, rest: Seq<bool>)
    requires
        dimensions.width <= u32::MAX,
        dimensions.height <= u32::MAX,
    ensures
        ({
            let stream = dimensions.stream_bits() + rest;
            &&& stream.len() >= 64
            &&& read_width(stream) == dimensions.width
            &&& read_height(stream) == dimensions.height
            &&& stream.skip(64) == rest
        }),
{
    lemma_size_comes_back(dimensions.width as nat, dimensions.height as nat, rest);
}

impl From<(u32, u32)> for BlockDimensions {
    fn from(value: (u32, u32)) -> (r: Self) {
        BlockDimensions { width: value.0 as usize, height: value.1 as usize }
    }
}

impl vstd::std_specs::convert::FromSpecImpl<(u32, u32)> for BlockDimensions {
    open spec fn obeys_from_spec() -> bool {
        true
    }

    open spec fn from_spec(value: (u32, u32)) -> Self {
        BlockDimensions { width: value.0 as usize, height: value.1 as usize }
    }
}

impl From<(usize, usize)> for BlockDimensions {
    fn from(value: (usize, usize)) -> (r: Self) {
        BlockDimensions { width: value.0, height: value.1 }
    }
}

impl vstd::std_specs::convert::FromSpecImpl<(usize, usize)> for BlockDimensions {
    open spec fn obeys_from_spec() -> bool {
        true
    }

    open spec fn from_spec(value: (usize, usize)) -> Self {
        BlockDimensions { width: value.0, height: value.1 }
    }
}

impl From<BlockDimensions> for (usize, usize) {
    fn from(dimensions: BlockDimensions) -> (r: Self) {
        (dimensions.width, dimensions.height)
    }
}

impl vstd::std_specs::convert::FromSpecImpl<BlockDimensions> for (usize, usize) {
    open spec fn obeys_from_spec() -> bool {
        true
    }

    open spec fn from_spec(dimensions: BlockDimensions) -> Self {
        (dimensions.width, dimensions.height)
    }
}

/// The size of an image or of a plane in pixels.
#[derive(Clone, Copy, Debug, PartialEq, Eq, Structural)]
pub struct PixelDimensions {
    pub width: usize,
    pub height: usize,
}

impl PixelDimensions {
    /// The dimensions of the chroma planes.
    pub open spec fn subsampled(self, subsampling: Subsampling) -> Self {
        match subsampling {
            Subsampling::Sample444 => self,
            Subsampling::Sample422 => PixelDimensions {
                width: ceil_div(self.width as int, 2) as usize,
                height: self.height,
            },
            Subsampling::Sample420 => PixelDimensions {
                width: ceil_div(self.width as int, 2) as usize,
                height: ceil_div(self.height as int, 2) as usize,
            },
            Subsampling::Sample411 => PixelDimensions {
                width: ceil_div(self.width as int, 4) as usize,
                height: self.height,
            },
        }
    }

    /// The dimensions of the chroma planes.
    pub fn subsample(self, subsampling: Subsampling) -> (r: Self)
        ensures
            r == self.subsampled(subsampling),
    {
        match subsampling {
            Subsampling::Sample444 => self,
            Subsampling::Sample422 => PixelDimensions {
                width: div_ceil(self.width, 2),
                height: self.height,
            },
            Subsampling::Sample420 => PixelDimensions {
                width: div_ceil(self.width, 2),
                height: div_ceil(self.height, 2),
            },
            Subsampling::Sample411 => PixelDimensions {
                width: div_ceil(self.width, 4),
                height: self.height,
            },
        }
    }

    /// How a stream holds the dimensions: the 32 low bits of both numbers.
    pub open spec fn stream_bits(self) -> Seq<bool> {
        size_bits(self.width as nat, self.height as nat)
    }

    /// Writes the dimensions.
    pub fn encode(&self, stream: &mut BitStreamWriter) -> (r: Result<()>)
        ensures
            r is Ok,
            final(stream)@ == old(stream)@ + self.stream_bits(),
    {
        write_size(self.width, self.height, stream)
    }

    /// Reads dimensions.
    pub fn decode(stream: &mut BitStreamReader) -> (r: Result<Self>)
        ensures
            r is Ok <==> old(stream)@.len() >= 64,
            r is Ok ==> r->Ok_0.width == read_width(old(stream)@) && r->Ok_0.height == read_height(
                old(stream)@,
            ) && final(stream)@ == old(stream)@.skip(64),
            old(stream)@.len() < 32 ==> is_failed_to_decode(r, "width"@),
            32 <= old(stream)@.len() < 64 ==> is_failed_to_decode(r, "height"@),
    {
        match read_size(stream) {
            Ok((width, height)) => Ok(PixelDimensions { width, height }),
            Err(e) => Err(e),
        }
    }
}

/// Dimensions that were written are read back, as far as they fit 32 bits,
/// and the stream goes on behind them.
pub proof fn law_pixel_dimensions_come_back(dimensions: PixelDimensions, rest: Seq<bool>)
    requires
        dimensions.width <= u32::MAX,
        dimensions.height <= u32::MAX,
    ensures
        ({
            let stream = dimensions.stream_bits() + rest;
            &&& stream.len() >= 64
            &&& read_width(stream) == dimensions.width
            &&& read_height(stream) == dimensions.height
            &&& stream.skip(64) == rest
        }),
{
    lemma_size_comes_back(dimensions.width as nat, dimensions.height as nat, rest);
}

impl From<(u32, u32)> for PixelDimensions {
    fn from(value: (u32, u32)) -> (r: Self) {
        PixelDimensions { width: value.0 as usize, height: value.1 as usize }
    }
}

impl vstd::std_specs::convert::FromSpecImpl<(u32, u32)> for PixelDimensions {
    open spec fn obeys_from_spec() -> bool {
        true
    }

    open spec fn from_spec(value: (u32, u32)) -> Self {
        PixelDimensions { width: value.0 as usize, height: value.1 as usize }
    }
}

impl From<(usize, usize)> for PixelDimensions {
    fn from(value: (usize, usize)) -> (r: Self) {
        PixelDimensions { width: value.0, height: value.1 }
    }
}

impl vstd::std_specs::convert::FromSpecImpl<(usize, usize)> for PixelDimensions {
    open spec fn obeys_from_spec() -> bool {
        true
    }

    open spec fn from_spec(value: (usize, usize)) -> Self {
        PixelDimensions { width: value.0, height: value.1 }
    }
}

impl From<PixelDimensions> for (usize, usize) {
    fn from(dimensions: PixelDimensions) -> (r: Self) {
        (dimensions.width, dimensions.height)
    }
}

impl vstd::std_specs::convert::FromSpecImpl<PixelDimensions> for (usize, usize) {
    open spec fn obeys_from_spec() -> bool {
        true
    }

    open spec fn from_spec(dimensions: PixelDimensions) -> Self {
        (dimensions.width, dimensions.height)
    }
}

/// The blocks that cover so many pixels.
pub open spec fn covering_blocks(dimensions: PixelDimensions) -> BlockDimensions {
    BlockDimensions {
        width: ceil_div(dimensions.width as int, 8) as usize,
        height: ceil_div(dimensions.height as int, 8) as usize,
    }
}

impl From<PixelDimensions> for BlockDimensions {
    /// Rounds up to cover all pixels.
    fn from(dimensions: PixelDimensions) -> (r: Self) {
        BlockDimensions {
            width: div_ceil(dimensions.width, 8),
            height: div_ceil(dimensions.height, 8),
        }
    }
}

impl vstd::std_specs::convert::FromSpecImpl<PixelDimensions> for BlockDimensions {
    open spec fn obeys_from_spec() -> bool {
        true
    }

    open spec fn from_spec(dimensions: PixelDimensions) -> Self {
        covering_blocks(dimensions)
    }
}

impl From<&PixelDimensions> for BlockDimensions {
    fn from(dimensions: &PixelDimensions) -> (r: Self) {
        BlockDimensions::from(*dimensions)
    }
}

impl vstd::std_specs::convert::FromSpecImpl<&PixelDimensions> for BlockDimensions {
    open spec fn obeys_from_spec() -> bool {
        true
    }

    open spec fn from_spec(dimensions: &PixelDimensions) -> Self {
        covering_blocks(*dimensions)
    }
}

/// The pixels of so many blocks, in the range of `usize`.
pub open spec fn covered_pixels(dimensions: BlockDimensions) -> PixelDimensions {
    PixelDimensions {
        width: (dimensions.width * 8 % (usize::MAX + 1)) as usize,
        height: (dimensions.height * 8 % (usize::MAX + 1)) as usize,
    }
}

impl From<BlockDimensions> for PixelDimensions {
    fn from(dimensions: BlockDimensions) -> (r: Self) {
        PixelDimensions {
            width: dimensions.width.wrapping_mul(8),
            height: dimensions.height.wrapping_mul(8),
        }
    }
}

impl vstd::std_specs::convert::FromSpecImpl<BlockDimensions> for PixelDimensions {
    open spec fn obeys_from_spec() -> bool {
        true
    }

    open spec fn from_spec(dimensions: BlockDimensions) -> Self {
        covered_pixels(dimensions)
    }
}

impl From<&BlockDimensions> for PixelDimensions {
    fn from(dimensions: &BlockDimensions) -> (r: Self) {
        PixelDimensions::from(*dimensions)
    }
}

impl vstd::std_specs::convert::FromSpecImpl<&BlockDimensions> for PixelDimensions {
    open spec fn obeys_from_spec() -> bool {
        true
    }

    open spec fn from_spec(dimensions: &BlockDimensions) -> Self {
        covered_pixels(*dimensions)
    }
}

/// A stream holds the width of a size before its height, in 32 bits each.
pub proof fn law_width_comes_first(width: nat, height: nat)
    requires
        width < 0x1_0000_0000,
        height < 0x1_0000_0000,
    ensures
        ({
            let blocks = BlockDimensions { width: width as usize, height: height as usize };
            let pixels = PixelDimensions { width: width as usize, height: height as usize };
            &&& blocks.stream_bits().len() == 64
            &&& bits_value(blocks.stream_bits().subrange(0, 32)) == width
            &&& bits_value(blocks.stream_bits().subrange(32, 64)) == height
            &&& pixels.stream_bits() == blocks.stream_bits()
        }),
{
    lemma2_to64();
    crate::bits::lemma_be_bits_len(width, 32);
    crate::bits::lemma_be_bits_len(height, 32);
    crate::bits::lemma_bits_value_of_be_bits(width, 32);
    crate::bits::lemma_bits_value_of_be_bits(height, 32);
    let bits = size_bits(width, height);
    assert(bits.subrange(0, 32) =~= be_bits(width, 32));
    assert(bits.subrange(32, 64) =~= be_bits(height, 32));
}

/// A subsampled size is the smallest one whose samples, so many wide and high, reach every
/// pixel or block.
pub proof fn law_subsampled_just_covers(
    blocks: BlockDimensions,
    pixels: PixelDimensions,
    subsampling: Subsampling,
    cols: int,
    rows: int,
)
    requires
        subsampling == Subsampling::Sample411 ==> cols == 4 && rows == 1,
        subsampling == Subsampling::Sample420 ==> cols == 2 && rows == 2,
        subsampling == Subsampling::Sample422 ==> cols == 2 && rows == 1,
        subsampling == Subsampling::Sample444 ==> cols == 1 && rows == 1,
    ensures
        ({
            let b = blocks.subsampled(subsampling);
            let p = pixels.subsampled(subsampling);
            &&& (b.width - 1) * cols < blocks.width <= b.width * cols
            &&& (b.height - 1) * rows < blocks.height <= b.height * rows
            &&& (p.width - 1) * cols < pixels.width <= p.width * cols
            &&& (p.height - 1) * rows < pixels.height <= p.height * rows
        }),
{
    lemma_just_covers(blocks.width as int, cols);
    lemma_just_covers(blocks.height as int, rows);
    lemma_just_covers(pixels.width as int, cols);
    lemma_just_covers(pixels.height as int, rows);
}

proof fn lemma_just_covers(size: int, share: int)
    requires
        0 <= size,
        share == 1 || share == 2 || share == 4,
    ensures
        0 <= ceil_div(size, share) <= size,
        share == 1 ==> ceil_div(size, share) == size,
        share == 2 ==> ceil_div(size, share) == ceil_div(size, 2),
        share == 4 ==> ceil_div(size, share) == ceil_div(size, 4),
        (ceil_div(size, share) - 1) * share < size <= ceil_div(size, share) * share,
{
    crate::numeric::law_ceil_div_just_covers(size, share);
    if share == 1 {
        vstd::arithmetic::div_mod::lemma_div_basics(size);
    }
}

/// The blocks of an image are as few as cover it, and cover so many pixels.
pub proof fn law_blocks_just_cover(pixels: PixelDimensions)
    ensures
        ({
            let blocks = covering_blocks(pixels);
            &&& 8 * (blocks.width - 1) < pixels.width <= 8 * blocks.width
            &&& 8 * (blocks.height - 1) < pixels.height <= 8 * blocks.height
            &&& 8 * blocks.width <= usize::MAX ==> covered_pixels(blocks).width == 8
                * blocks.width
            &&& 8 * blocks.height <= usize::MAX ==> covered_pixels(blocks).height == 8
                * blocks.height
        }),
{
    let blocks = covering_blocks(pixels);
    let all = usize::MAX + 1;
    if 8 * blocks.width <= usize::MAX {
        vstd::arithmetic::div_mod::lemma_small_mod((8 * blocks.width) as nat, all as nat);
    }
    if 8 * blocks.height <= usize::MAX {
        vstd::arithmetic::div_mod::lemma_small_mod((8 * blocks.height) as nat, all as nat);
    }
}

/// A pair of numbers is a width and a height, in this order, both ways.
pub proof fn law_pairs_are_width_and_height(width: usize, height: usize, w: u32, h: u32)
    ensures
        <BlockDimensions as FromSpec<(usize, usize)>>::from_spec((width, height)).width == width,
        <BlockDimensions as FromSpec<(usize, usize)>>::from_spec((width, height)).height
            == height,
        <PixelDimensions as FromSpec<(usize, usize)>>::from_spec((width, height)).width == width,
        <PixelDimensions as FromSpec<(usize, usize)>>::from_spec((width, height)).height
            == height,
        <BlockDimensions as FromSpec<(u32, u32)>>::from_spec((w, h)).width == w,
        <BlockDimensions as FromSpec<(u32, u32)>>::from_spec((w, h)).height == h,
        <PixelDimensions as FromSpec<(u32, u32)>>::from_spec((w, h)).width == w,
        <PixelDimensions as FromSpec<(u32, u32)>>::from_spec((w, h)).height == h,
        <(usize, usize) as FromSpec<BlockDimensions>>::from_spec(
            BlockDimensions { width, height },
        ) == (width, height),
        <(usize, usize) as FromSpec<PixelDimensions>>::from_spec(
            PixelDimensions { width, height },
        ) == (width, height),
{
}

} // verus!
