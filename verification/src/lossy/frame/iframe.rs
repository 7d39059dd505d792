//! Frames that stand alone.
use vstd::prelude::*;

use super::grid::{
    build_macro_blocks, cell, covers, is_grid, is_square, lemma_cell, lemma_covered,
    lemma_grid_comes_back, lemma_locations_inside, lemma_reconstructed_len, lemma_row_and_col,
    lemma_square_index, lemma_square_places, locations, places, reconstruct_blocks_from_macroblock,
    reconstructed, square_blocks, square_index, square_len, SQUARE,
};
use super::macroblock::block_location::BlockLocation;
use super::macroblock::imacro::{IMacroBlock, IMacroBlocks};
use crate::bits::{
    be_bits, bits_bytes, bits_value, bytes_bits, lemma_be_bits_len,
    lemma_bits_bytes_of_bytes_bits, lemma_bytes_bits_len, lemma_padded, padded,
};
use crate::bitstream::{aligned, BitStreamReader, BitStreamWriter};
use crate::block::quantization::{
    dequantizes, is_dequantized, lemma_table_steps, table_steps, Quantizor,
    VIDEO_CHROMINANCE_QUANTIZATION, VIDEO_LUMINANCE_QUANTIZATION,
};
use crate::block::{block_bytes, block_views, lemma_same_nums, parsed_block, Block};
use crate::bytes::{FromBytes, ToBytes};
use crate::color::{law_subsampling_comes_back, Subsampling};
use crate::dimensions::{
    law_block_dimensions_come_back, read_height, read_width, BlockDimensions,
};
use crate::encoders::ans::{
    behind_block, block_payload, compressed_bits, holds_block, is_kept, items_bytes,
    law_block_comes_back, law_items_come_back, lz4_compressed, lz4_decompressed, lz4_refused,
    models, parsed_items, survives_lz4,
};
use crate::error::{is_eof, is_failed_to_decode, Error, Result};
use crate::lossy::transform::{
    code_plane, is_coded_plane, is_dequantized_plane, is_restored_plane, ordered, plane_dequantizes,
    restore_plane,
};
use crate::lossy::{SubSampleBlockGroup, SubSampleBlockGroupRef};
use crate::parallel::par_map;
use crate::sample::Sample;

verus! {

/// What a macroblock stands for.
pub type MacroModel<T> = (BlockLocation, Seq<Seq<T>>);

/// A frame that stands alone.
pub struct IFrame<'a, T>(pub SubSampleBlockGroupRef<'a, T>);

/// The macroblocks of a plane.
pub open spec fn macro_models<T: Sample>(
    blocks: Seq<Block<T>>,
    dimensions: BlockDimensions,
) -> Seq<MacroModel<T>> {
    let found = locations(
        blocks,
        dimensions,
        if blocks.len() == 0 {
            0
        } else {
            dimensions.width * dimensions.height
        },
    );
    Seq::new(
        found.len(),
        |j: int|
            (
                found[j],
                block_views(
                    square_blocks(
                        blocks,
                        dimensions,
                        found[j].start.row as int,
                        found[j].start.col as int,
                        square_len(found[j].end.row - found[j].start.row),
                    ),
                ),
            ),
    )
}

/// The bytes of a plane.
pub open spec fn plane_bytes<T: Sample>(
    blocks: Seq<Block<T>>,
    dimensions: BlockDimensions,
) -> Seq<u8> {
    items_bytes::<IMacroBlock<T>>(macro_models(blocks, dimensions))
}

/// How a stream holds a plane: its macroblocks, compressed.
pub open spec fn plane_bits<T: Sample>(
    blocks: Seq<Block<T>>,
    dimensions: BlockDimensions,
) -> Seq<bool> {
    compressed_bits(plane_bytes(blocks, dimensions))
}

/// Compressed bytes fill whole bytes.
pub proof fn lemma_compressed_bits_len(bytes: Seq<u8>)
    ensures
        compressed_bits(bytes).len() % 8 == 0,
{
    lemma_bytes_bits_len(crate::bits::le_bytes(lz4_compressed(bytes).len(), 4));
    lemma_bytes_bits_len(lz4_compressed(bytes));
}

/// Writes a plane, from a byte boundary to a byte boundary.
fn write_plane<T: Sample>(
    blocks: &[Block<T>],
    dimensions: BlockDimensions,
    stream: &mut BitStreamWriter,
) -> (r: Result<()>)
    requires
        is_grid(blocks@.len(), dimensions),
    ensures
        r is Ok,
        final(stream)@ == padded(old(stream)@) + plane_bits(blocks@, dimensions),
        final(stream)@.len() % 8 == 0,
        is_kept(plane_bytes(blocks@, dimensions)),
{
    let found = build_macro_blocks(blocks, dimensions);
    proof {
        let expected = macro_models(blocks@, dimensions);
        assert forall|j: int| 0 <= j < found@.len() implies models(found@)[j]
            == expected[j] by {
            assert(places(found@)[j] == found@[j].location);
            assert(is_square(blocks@, dimensions, found@[j].location, found@[j].blocks@));
        }
        assert(models(found@) =~= expected);
        lemma_compressed_bits_len(plane_bytes(blocks@, dimensions));
        lemma_padded(stream@);
    }
    IMacroBlocks::new(found).encode(stream)?;
    proof {
        lemma_padded(stream@);
    }
    stream.flush()
}

/// What a stream holds before the planes.
pub open spec fn header_bits<T: Sample>(
    dimensions: BlockDimensions,
    subsampling: Subsampling,
) -> Seq<bool> {
    dimensions.stream_bits() + bytes_bits(
        block_bytes(table_steps::<T>(VIDEO_LUMINANCE_QUANTIZATION@)),
    ) + bytes_bits(block_bytes(table_steps::<T>(VIDEO_CHROMINANCE_QUANTIZATION@))) + be_bits(
        subsampling.code() as nat,
        8,
    )
}

/// How a stream holds a frame: the size, the steps, the subsampling, and the
/// planes.
pub open spec fn frame_bits<T: Sample>(
    start: Seq<bool>,
    dimensions: BlockDimensions,
    subsampling: Subsampling,
    y: Seq<Block<T>>,
    cb: Seq<Block<T>>,
    cr: Seq<Block<T>>,
) -> Seq<bool> {
    let chroma = dimensions.subsampled(subsampling);
    padded(start + header_bits::<T>(dimensions, subsampling)) + plane_bits(y, dimensions)
        + plane_bits(cb, chroma) + plane_bits(cr, chroma)
}

/// Planes that a stream can hold survive the compression.
pub open spec fn are_planes_kept<T: Sample>(
    dimensions: BlockDimensions,
    subsampling: Subsampling,
    y: Seq<Block<T>>,
    cb: Seq<Block<T>>,
    cr: Seq<Block<T>>,
) -> bool {
    let chroma = dimensions.subsampled(subsampling);
    &&& is_kept(plane_bytes(y, dimensions))
    &&& is_kept(plane_bytes(cb, chroma))
    &&& is_kept(plane_bytes(cr, chroma))
}

/// The planes of a frame can be counted.
pub open spec fn is_countable(
    dimensions: BlockDimensions,
    subsampling: Subsampling,
    y: nat,
    cb: nat,
    cr: nat,
) -> bool {
    let chroma = dimensions.subsampled(subsampling);
    is_grid(y, dimensions) && is_grid(cb, chroma) && is_grid(cr, chroma)
}

/// Writes the quantized coefficients of a frame.
pub fn encode_coefficients<T: Sample>(
    dimensions: BlockDimensions,
    subsampling: Subsampling,
    y: &[Block<T>],
    cb: &[Block<T>],
    cr: &[Block<T>],
    stream: &mut BitStreamWriter,
) -> (r: Result<()>)
    requires
        is_countable(dimensions, subsampling, y@.len(), cb@.len(), cr@.len()),
    ensures
        r is Ok,
        final(stream)@ == frame_bits(old(stream)@, dimensions, subsampling, y@, cb@, cr@),
        are_planes_kept(dimensions, subsampling, y@, cb@, cr@),
{
    let ghost start = stream@;
    let luma = Quantizor::<T>::video_luminance();
    let chroma = Quantizor::<T>::video_chrominance();
    proof {
        lemma_table_steps(luma@, VIDEO_LUMINANCE_QUANTIZATION@);
        lemma_table_steps(chroma@, VIDEO_CHROMINANCE_QUANTIZATION@);
    }
    dimensions.encode(stream)?;
    luma.encode(stream)?;
    chroma.encode(stream)?;
    subsampling.encode(stream)?;
    assert(stream@ =~= start + header_bits::<T>(dimensions, subsampling));
    write_plane(y, dimensions, stream)?;
    let chroma_dimensions = dimensions.subsample(subsampling);
    proof {
        lemma_padded(stream@);
    }
    write_plane(cb, chroma_dimensions, stream)?;
    proof {
        lemma_padded(stream@);
    }
    write_plane(cr, chroma_dimensions, stream)?;
    assert(stream@ =~= frame_bits(start, dimensions, subsampling, y@, cb@, cr@));
    Ok(())
}

impl<'a, T: Sample + Send + Sync> IFrame<'a, T> {
    /// The frame of the blocks.
    pub fn new(subsample_block_group: SubSampleBlockGroupRef<'a, T>) -> (r: Self)
        ensures
            r.0 == subsample_block_group,
    {
        IFrame(subsample_block_group)
    }

    /// The blocks of the frame.
    pub fn blocks(&self) -> (r: &SubSampleBlockGroupRef<'a, T>)
        ensures
            *r == self.0,
    {
        &self.0
    }

    /// Writes the frame. `dct` transforms a block.
    pub fn encode<F: Fn(&Block<T>) -> Block<T> + Sync + Send>(
        &self,
        dct: &F,
        stream: &mut BitStreamWriter,
    ) -> (r: Result<()>)
        requires
            is_countable(
                self.0.dimensions,
                self.0.subsampling,
                self.0.y@.len(),
                self.0.cb@.len(),
                self.0.cr@.len(),
            ),
            forall|b: Block<T>| #[trigger] call_requires(*dct, (&b,)),
        ensures
            r is Ok,
            exists|y: Seq<Block<T>>, cb: Seq<Block<T>>, cr: Seq<Block<T>>|
                {
                    let luma = table_steps::<T>(VIDEO_LUMINANCE_QUANTIZATION@);
                    let chroma = table_steps::<T>(VIDEO_CHROMINANCE_QUANTIZATION@);
                    &&& is_coded_plane(*dct, luma, self.0.y@, y)
                    &&& is_coded_plane(*dct, chroma, self.0.cb@, cb)
                    &&& is_coded_plane(*dct, chroma, self.0.cr@, cr)
                    &&& are_planes_kept(self.0.dimensions, self.0.subsampling, y, cb, cr)
                    &&& final(stream)@ == #[trigger] frame_bits(
                        old(stream)@,
                        self.0.dimensions,
                        self.0.subsampling,
                        y,
                        cb,
                        cr,
                    )
                },
    {
        let luma = Quantizor::<T>::video_luminance();
        let chroma = Quantizor::<T>::video_chrominance();
        proof {
            lemma_table_steps(luma@, VIDEO_LUMINANCE_QUANTIZATION@);
            lemma_table_steps(chroma@, VIDEO_CHROMINANCE_QUANTIZATION@);
        }
        let y = code_plane(dct, &luma, self.0.y);
        let cb = code_plane(dct, &chroma, self.0.cb);
        let cr = code_plane(dct, &chroma, self.0.cr);
        encode_coefficients(
            self.0.dimensions,
            self.0.subsampling,
            y.as_slice(),
            cb.as_slice(),
            cr.as_slice(),
            stream,
        )
    }
}

/// All blocks of a macroblock can be multiplied back.
pub open spec fn macro_dequantizes<T: Sample>(
    steps: Seq<T>,
    zigzag: bool,
    item: MacroModel<T>,
) -> bool {
    forall|i: int|
        0 <= i < item.1.len() ==> dequantizes(steps, ordered(zigzag, #[trigger] item.1[i]))
}

/// A macroblock multiplied back.
pub open spec fn is_dequantized_macro<T: Sample>(
    steps: Seq<T>,
    zigzag: bool,
    item: MacroModel<T>,
    r: IMacroBlock<T>,
) -> bool {
    &&& r.location == item.0
    &&& r.blocks@.len() == item.1.len()
    &&& forall|i: int|
        0 <= i < item.1.len() ==> is_dequantized(
            steps,
            ordered(zigzag, item.1[i]),
            (#[trigger] r.blocks@[i])@,
        )
}

/// Blocks of zeros.
pub open spec fn is_blank<T: Sample>(blocks: Seq<Block<T>>, len: int) -> bool {
    &&& blocks.len() == len
    &&& forall|t: int, i: int|
        0 <= t < len && 0 <= i < 64 ==> (#[trigger] blocks[t]@[i]).num() == 0
}

/// A plane of coefficients: the macroblocks, multiplied back and put in their
/// places among zeros.
pub open spec fn is_plane<T: Sample>(
    steps: Seq<T>,
    zigzag: bool,
    items: Seq<MacroModel<T>>,
    dimensions: BlockDimensions,
    r: Seq<Block<T>>,
) -> bool {
    exists|blank: Seq<Block<T>>, back: Seq<IMacroBlock<T>>|
        {
            &&& is_blank(blank, dimensions.width * dimensions.height)
            &&& back.len() == items.len()
            &&& forall|j: int|
                0 <= j < items.len() ==> is_dequantized_macro(
                    steps,
                    zigzag,
                    items[j],
                    #[trigger] back[j],
                )
            &&& r == #[trigger] reconstructed(
                blank,
                back,
                dimensions.width as int,
                back.len() as int,
            )
        }
}

/// The macroblocks that a stream goes on with.
pub open spec fn plane_items<T: Sample>(bits: Seq<bool>) -> Option<Seq<MacroModel<T>>> {
    parsed_items::<IMacroBlock<T>>(lz4_decompressed(block_payload(bits))->Ok_0)
}

/// Whether a stream goes on with a plane.
pub open spec fn holds_plane<T: Sample>(bits: Seq<bool>, steps: Seq<T>, zigzag: bool) -> bool {
    &&& holds_block(bits)
    &&& lz4_decompressed(block_payload(bits)) is Ok
    &&& plane_items::<T>(bits) is Some
    &&& forall|j: int|
        0 <= j < (plane_items::<T>(bits)->0).len() ==> macro_dequantizes(
            steps,
            zigzag,
            #[trigger] plane_items::<T>(bits)->0[j],
        )
}

/// What is answered where a stream does not go on with a plane.
pub open spec fn plane_refused<T>(bits: Seq<bool>, r: Result<T>) -> bool {
    if !holds_block(bits) {
        is_eof(r)
    } else if lz4_decompressed(block_payload(bits)) is Err {
        lz4_refused(r, block_payload(bits))
    } else {
        r is Err && r->Err_0 is InvalidData
    }
}

/// Multiplies the blocks of a macroblock back.
fn dequantize_macro<T: Sample>(
    quantizor: &Quantizor<T>,
    zigzag: bool,
    macro_block: &IMacroBlock<T>,
) -> (r: Option<IMacroBlock<T>>)
    ensures
        r is Some <==> macro_dequantizes(quantizor@, zigzag, macro_block.model()),
        r is Some ==> is_dequantized_macro(quantizor@, zigzag, macro_block.model(), r->0),
{
    let ghost item = macro_block.model();
    let mut blocks: Vec<Block<T>> = Vec::new();
    let mut i: usize = 0;
    while i < macro_block.blocks.len()
        invariant
            i <= macro_block.blocks@.len(),
            item == macro_block.model(),
            blocks@.len() == i,
            forall|k: int|
                0 <= k < i ==> dequantizes(quantizor@, ordered(zigzag, #[trigger] item.1[k])),
            forall|k: int|
                0 <= k < i ==> is_dequantized(
                    quantizor@,
                    ordered(zigzag, item.1[k]),
                    (#[trigger] blocks@[k])@,
                ),
        decreases macro_block.blocks@.len() - i,
    {
        let stored: Block<T> = macro_block.blocks[i];
        let block = if zigzag {
            stored.zagzig()
        } else {
            stored
        };
        assert(item.1[i as int] == stored@);
        assert(block@ == ordered(zigzag, item.1[i as int]));
        match quantizor.try_dequantize(block) {
            Some(back) => {
                blocks.push(back);
            },
            None => {
                return None;
            },
        }
        i = i + 1;
    }
    Some(IMacroBlock { location: macro_block.location, blocks })
}

/// Reads a plane of coefficients.
fn read_plane<T: Sample + Send + Sync>(
    stream: &mut BitStreamReader,
    quantizor: &Quantizor<T>,
    zigzag: bool,
    dimensions: BlockDimensions,
) -> (r: Result<Vec<Block<T>>>)
    requires
        dimensions.width * dimensions.height <= usize::MAX,
    ensures
        !holds_plane::<T>(old(stream)@, quantizor@, zigzag) ==> plane_refused(old(stream)@, r),
        holds_plane::<T>(old(stream)@, quantizor@, zigzag) ==> {
            &&& r is Ok
            &&& final(stream)@ == behind_block(old(stream)@)
            &&& !final(stream).ran_out()
            &&& is_plane(
                quantizor@,
                zigzag,
                plane_items::<T>(old(stream)@)->0,
                dimensions,
                (r->Ok_0)@,
            )
        },
{
    let ghost bits = stream@;
    let found = match IMacroBlocks::<T>::decode(stream) {
        Ok(found) => found.into_inner(),
        Err(e) => {
            return Err(e);
        },
    };
    let ghost items = plane_items::<T>(bits)->0;
    assert(models(found@) == items);
    let work = |m: &IMacroBlock<T>| -> (r: Option<IMacroBlock<T>>)
        ensures
            r is Some <==> macro_dequantizes(quantizor@, zigzag, m.model()),
            r is Some ==> is_dequantized_macro(quantizor@, zigzag, m.model(), r->0)
        { dequantize_macro(quantizor, zigzag, m) };
    let restored = par_map(found.as_slice(), work);
    let total: usize = dimensions.width * dimensions.height;
    let zero: Block<T> = Block([T::zero(); 64]);
    let mut grid: Vec<Block<T>> = Vec::new();
    let mut t: usize = 0;
    while t < total
        invariant
            t <= total,
            forall|i: int| 0 <= i < 64 ==> (#[trigger] zero@[i]).num() == 0,
            is_blank(grid@, t as int),
        decreases total - t,
    {
        grid.push(zero);
        t = t + 1;
    }
    let ghost blank = grid@;
    let ghost mut back: Seq<IMacroBlock<T>> = Seq::empty();
    let width: usize = dimensions.width;
    let mut j: usize = 0;
    while j < restored.len()
        invariant
            j <= restored@.len(),
            restored@.len() == found@.len() == items.len(),
            models(found@) == items,
            items == plane_items::<T>(bits)->0,
            bits == old(stream)@,
            holds_block(bits),
            lz4_decompressed(block_payload(bits)) is Ok,
            forall|k: int|
                0 <= k < found@.len() ==> call_ensures(
                    work,
                    (&found@[k],),
                    #[trigger] restored@[k],
                ),
            forall|m: &IMacroBlock<T>, r: Option<IMacroBlock<T>>| #[trigger]
                call_ensures(work, (m,), r) ==> {
                    &&& r is Some <==> macro_dequantizes(quantizor@, zigzag, m.model())
                    &&& r is Some ==> is_dequantized_macro(
                        quantizor@,
                        zigzag,
                        m.model(),
                        r->0,
                    )
                },
            back.len() == j,
            forall|k: int|
                0 <= k < j ==> is_dequantized_macro(
                    quantizor@,
                    zigzag,
                    items[k],
                    #[trigger] back[k],
                ),
            forall|k: int|
                0 <= k < j ==> macro_dequantizes(quantizor@, zigzag, #[trigger] items[k]),
            grid@ == reconstructed(blank, back, width as int, j as int),
        decreases restored@.len() - j,
    {
        assert(call_ensures(work, (&found@[j as int],), restored@[j as int]));
        assert(items[j as int] == found@[j as int].model());
        match &restored[j] {
            Some(m) => {
                reconstruct_blocks_from_macroblock(m, &mut grid, width);
                proof {
                    let before = back;
                    back = before.push(*m);
                    lemma_reconstructed_prefix(blank, before, back, width as int, j as int);
                }
            },
            None => {
                assert(!macro_dequantizes(
                    quantizor@,
                    zigzag,
                    plane_items::<T>(bits)->0[j as int],
                ));
                return Err(Error::InvalidData);
            },
        }
        j = j + 1;
    }
    proof {
        assert(is_blank(blank, dimensions.width * dimensions.height));
        assert(grid@ == reconstructed(
            blank,
            back,
            dimensions.width as int,
            back.len() as int,
        ));
    }
    Ok(grid)
}

/// The first macroblocks alone decide what they leave behind.
proof fn lemma_reconstructed_prefix<T>(
    blank: Seq<Block<T>>,
    a: Seq<IMacroBlock<T>>,
    b: Seq<IMacroBlock<T>>,
    width: int,
    n: int,
)
    requires
        0 <= n <= a.len(),
        n <= b.len(),
        forall|k: int| 0 <= k < n ==> a[k] == b[k],
    ensures
        reconstructed(blank, a, width, n) == reconstructed(blank, b, width, n),
    decreases n,
{
    if n > 0 {
        lemma_reconstructed_prefix(blank, a, b, width, n - 1);
    }
}

/// The number of bits of the steps.
pub open spec fn steps_len<T: Sample>() -> int {
    512 * T::byte_len() as int
}

/// The steps that a stream goes on with.
pub open spec fn read_steps<T: Sample>(bits: Seq<bool>) -> Seq<T> {
    parsed_block::<T>(bits_bytes(bits.take(steps_len::<T>())))
}

/// What reading the coefficients of a frame answers.
pub open spec fn is_frame_read<T: Sample>(
    bits: Seq<bool>,
    zigzag: bool,
    r: Result<SubSampleBlockGroup<T>>,
    rest: Seq<bool>,
) -> bool {
    let behind_size = bits.skip(64);
    let behind_luma = behind_size.skip(steps_len::<T>());
    let behind_chroma = behind_luma.skip(steps_len::<T>());
    let luma = read_steps::<T>(behind_size);
    let chroma = read_steps::<T>(behind_luma);
    let y = behind_chroma.skip(8);
    let cb = aligned(behind_block(y));
    let cr = aligned(behind_block(cb));
    if bits.len() < 32 {
        is_failed_to_decode(r, "width"@)
    } else if bits.len() < 64 {
        is_failed_to_decode(r, "height"@)
    } else if behind_size.len() < steps_len::<T>() || behind_luma.len() < steps_len::<T>() {
        is_eof(r)
    } else if behind_chroma.len() < 8 {
        is_failed_to_decode(r, "subsampling"@)
    } else if bits_value(behind_chroma.take(8)) > 3 {
        r is Err && r->Err_0 is InvalidData
    } else if read_width(bits) * read_height(bits) > usize::MAX {
        r is Err && r->Err_0 is InvalidData
    } else if !holds_plane::<T>(y, luma, zigzag) {
        plane_refused(y, r)
    } else if !holds_plane::<T>(cb, chroma, zigzag) {
        plane_refused(cb, r)
    } else if !holds_plane::<T>(cr, chroma, zigzag) {
        plane_refused(cr, r)
    } else {
        &&& r is Ok
        &&& rest == behind_block(cr)
        &&& ({
            let group = r->Ok_0;
            let chroma_dims = group.dimensions.subsampled(group.subsampling);
            &&& group.dimensions.width == read_width(bits)
            &&& group.dimensions.height == read_height(bits)
            &&& group.subsampling.code() == bits_value(behind_chroma.take(8))
            &&& is_plane(luma, zigzag, plane_items::<T>(y)->0, group.dimensions, group.y@)
            &&& is_plane(chroma, zigzag, plane_items::<T>(cb)->0, chroma_dims, group.cb@)
            &&& is_plane(chroma, zigzag, plane_items::<T>(cr)->0, chroma_dims, group.cr@)
        })
    }
}

/// A plane of chroma blocks is no larger than the plane of luma blocks.
proof fn lemma_chroma_fits(dimensions: BlockDimensions, subsampling: Subsampling)
    ensures
        dimensions.subsampled(subsampling).width * dimensions.subsampled(subsampling).height
            <= dimensions.width * dimensions.height,
        dimensions.subsampled(subsampling).width <= dimensions.width,
        dimensions.subsampled(subsampling).height <= dimensions.height,
{
    let chroma = dimensions.subsampled(subsampling);
    assert(chroma.width * chroma.height <= dimensions.width * dimensions.height)
        by (nonlinear_arith)
        requires
            0 <= chroma.width <= dimensions.width,
            0 <= chroma.height <= dimensions.height,
    ;
}

/// Reads the coefficients of a frame. `zigzag` says whether the blocks are
/// stored in zigzag order.
pub fn decode_coefficients<T: Sample + Send + Sync>(
    stream: &mut BitStreamReader,
    zigzag: bool,
) -> (r: Result<SubSampleBlockGroup<T>>)
    ensures
        is_frame_read(old(stream)@, zigzag, r, final(stream)@),
        r is Ok ==> !final(stream).ran_out(),
{
    let ghost bits = stream@;
    let dimensions = match BlockDimensions::decode(stream) {
        Ok(dimensions) => dimensions,
        Err(e) => {
            return Err(e);
        },
    };
    let luma = match Quantizor::<T>::decode(stream) {
        Ok(luma) => luma,
        Err(e) => {
            return Err(e);
        },
    };
    let chroma = match Quantizor::<T>::decode(stream) {
        Ok(chroma) => chroma,
        Err(e) => {
            return Err(e);
        },
    };
    let subsampling = match Subsampling::decode(stream) {
        Ok(subsampling) => subsampling,
        Err(e) => {
            return Err(e);
        },
    };
    if dimensions.width.checked_mul(dimensions.height).is_none() {
        return Err(Error::InvalidData);
    }
    let y = match read_plane(stream, &luma, zigzag, dimensions) {
        Ok(y) => y,
        Err(e) => {
            return Err(e);
        },
    };
    stream.align_to_byte()?;
    let chroma_dimensions = dimensions.subsample(subsampling);
    proof {
        lemma_chroma_fits(dimensions, subsampling);
    }
    let cb = match read_plane(stream, &chroma, zigzag, chroma_dimensions) {
        Ok(cb) => cb,
        Err(e) => {
            return Err(e);
        },
    };
    stream.align_to_byte()?;
    let cr = match read_plane(stream, &chroma, zigzag, chroma_dimensions) {
        Ok(cr) => cr,
        Err(e) => {
            return Err(e);
        },
    };
    Ok(SubSampleBlockGroup::new(dimensions, subsampling, y, cb, cr))
}

/// What reading a frame answers: the coefficients, taken back through the
/// transform.
pub open spec fn is_frame_restored<T: Sample, U, F: Fn(&Block<T>) -> Block<U>>(
    idct: F,
    bits: Seq<bool>,
    zigzag: bool,
    r: Result<SubSampleBlockGroup<U>>,
    rest: Seq<bool>,
) -> bool {
    exists|read: Result<SubSampleBlockGroup<T>>|
        {
            &&& #[trigger] is_frame_read(bits, zigzag, read, rest)
            &&& read is Err ==> r is Err && r->Err_0 == read->Err_0
            &&& read is Ok ==> {
                &&& r is Ok
                &&& r->Ok_0.dimensions == read->Ok_0.dimensions
                &&& r->Ok_0.subsampling == read->Ok_0.subsampling
                &&& is_restored_plane(idct, read->Ok_0.y@, r->Ok_0.y@)
                &&& is_restored_plane(idct, read->Ok_0.cb@, r->Ok_0.cb@)
                &&& is_restored_plane(idct, read->Ok_0.cr@, r->Ok_0.cr@)
            }
        }
}

/// Reads a frame.
fn decode_frame<T: Sample + Send + Sync, U: Send, F: Fn(&Block<T>) -> Block<U> + Sync + Send>(
    idct: &F,
    zigzag: bool,
    stream: &mut BitStreamReader,
) -> (r: Result<SubSampleBlockGroup<U>>)
    requires
        forall|b: Block<T>| #[trigger] call_requires(*idct, (&b,)),
    ensures
        is_frame_restored(*idct, old(stream)@, zigzag, r, final(stream)@),
        r is Ok ==> !final(stream).ran_out(),
{
    let read = decode_coefficients::<T>(stream, zigzag);
    let ghost bits = old(stream)@;
    assert(is_frame_read(bits, zigzag, read, stream@));
    match read {
        Ok(group) => {
            let y = restore_plane(idct, group.y.as_slice());
            let cb = restore_plane(idct, group.cb.as_slice());
            let cr = restore_plane(idct, group.cr.as_slice());
            Ok(SubSampleBlockGroup::new(group.dimensions, group.subsampling, y, cb, cr))
        },
        Err(e) => Err(e),
    }
}

impl<'a> IFrame<'a, i16> {
    /// Reads a frame whose blocks are stored in zigzag order. `idct` takes
    /// coefficients back through the transform.
    pub fn decode<U: Send, F: Fn(&Block<i16>) -> Block<U> + Sync + Send>(
        idct: &F,
        stream: &mut BitStreamReader,
    ) -> (r: Result<SubSampleBlockGroup<U>>)
        requires
            forall|b: Block<i16>| #[trigger] call_requires(*idct, (&b,)),
        ensures
            is_frame_restored(*idct, old(stream)@, true, r, final(stream)@),
            r is Ok ==> !final(stream).ran_out(),
    {
        decode_frame(idct, true, stream)
    }
}

impl<'a> IFrame<'a, i32> {
    /// Reads a frame and leaves the samples of its blocks in the order in which
    /// they are stored. `idct` takes coefficients back through the transform.
    pub fn decode<U: Send, F: Fn(&Block<i32>) -> Block<U> + Sync + Send>(
        idct: &F,
        stream: &mut BitStreamReader,
    ) -> (r: Result<SubSampleBlockGroup<U>>)
        requires
            forall|b: Block<i32>| #[trigger] call_requires(*idct, (&b,)),
        ensures
            is_frame_restored(*idct, old(stream)@, false, r, final(stream)@),
            r is Ok ==> !final(stream).ran_out(),
    {
        decode_frame(idct, false, stream)
    }
}

/// A plane of coefficients has a block for every place.
proof fn lemma_plane_len<T: Sample>(
    steps: Seq<T>,
    zigzag: bool,
    items: Seq<MacroModel<T>>,
    dimensions: BlockDimensions,
    r: Seq<Block<T>>,
)
    requires
        is_plane(steps, zigzag, items, dimensions, r),
    ensures
        r.len() == dimensions.width * dimensions.height,
{
    let (blank, back) = choose|blank: Seq<Block<T>>, back: Seq<IMacroBlock<T>>|
        {
            &&& is_blank(blank, dimensions.width * dimensions.height)
            &&& back.len() == items.len()
            &&& r == #[trigger] reconstructed(
                blank,
                back,
                dimensions.width as int,
                back.len() as int,
            )
        };
    lemma_reconstructed_len(blank, back, dimensions.width as int, back.len() as int);
}

/// A frame that was read has a block for every place of its planes.
pub proof fn law_frame_is_full<T: Sample, U, F: Fn(&Block<T>) -> Block<U>>(
    idct: F,
    bits: Seq<bool>,
    zigzag: bool,
    r: Result<SubSampleBlockGroup<U>>,
    rest: Seq<bool>,
)
    requires
        is_frame_restored(idct, bits, zigzag, r, rest),
        r is Ok,
    ensures
        ({
            let group = r->Ok_0;
            let chroma = group.dimensions.subsampled(group.subsampling);
            &&& group.y@.len() == group.dimensions.width * group.dimensions.height
            &&& group.cb@.len() == chroma.width * chroma.height
            &&& group.cr@.len() == chroma.width * chroma.height
        }),
{
    let read = choose|read: Result<SubSampleBlockGroup<T>>|
        {
            &&& #[trigger] is_frame_read(bits, zigzag, read, rest)
            &&& read is Err ==> r is Err && r->Err_0 == read->Err_0
            &&& read is Ok ==> {
                &&& r is Ok
                &&& r->Ok_0.dimensions == read->Ok_0.dimensions
                &&& r->Ok_0.subsampling == read->Ok_0.subsampling
                &&& is_restored_plane(idct, read->Ok_0.y@, r->Ok_0.y@)
                &&& is_restored_plane(idct, read->Ok_0.cb@, r->Ok_0.cb@)
                &&& is_restored_plane(idct, read->Ok_0.cr@, r->Ok_0.cr@)
            }
        };
    let group = read->Ok_0;
    let chroma_dims = group.dimensions.subsampled(group.subsampling);
    let behind_size = bits.skip(64);
    let behind_luma = behind_size.skip(steps_len::<T>());
    let y = behind_luma.skip(steps_len::<T>()).skip(8);
    let cb = aligned(behind_block(y));
    let cr = aligned(behind_block(cb));
    let luma = read_steps::<T>(behind_size);
    let chroma = read_steps::<T>(behind_luma);
    lemma_plane_len(luma, zigzag, plane_items::<T>(y)->0, group.dimensions, group.y@);
    lemma_plane_len(chroma, zigzag, plane_items::<T>(cb)->0, chroma_dims, group.cb@);
    lemma_plane_len(chroma, zigzag, plane_items::<T>(cr)->0, chroma_dims, group.cr@);
}

/// A stream does not grow by a frame being read.
pub proof fn lemma_frame_shrinks<T: Sample, U, F: Fn(&Block<T>) -> Block<U>>(
    idct: F,
    bits: Seq<bool>,
    zigzag: bool,
    r: Result<SubSampleBlockGroup<U>>,
    rest: Seq<bool>,
)
    requires
        is_frame_restored(idct, bits, zigzag, r, rest),
        r is Ok,
    ensures
        rest.len() <= bits.len(),
{
    let behind_size = bits.skip(64);
    let behind_luma = behind_size.skip(steps_len::<T>());
    let y = behind_luma.skip(steps_len::<T>()).skip(8);
    let cb = aligned(behind_block(y));
    let cr = aligned(behind_block(cb));
    assert(rest == behind_block(cr));
}

/// A full plane can be written.
pub open spec fn is_full_plane<T>(blocks: Seq<Block<T>>, dimensions: BlockDimensions) -> bool {
    &&& blocks.len() == dimensions.width * dimensions.height
    &&& is_grid(blocks.len(), dimensions)
}

/// The macroblocks of a full plane give its blocks back, multiplied back.
proof fn lemma_plane_comes_back<T: Sample>(
    steps: Seq<T>,
    zigzag: bool,
    blocks: Seq<Block<T>>,
    dimensions: BlockDimensions,
    r: Seq<Block<T>>,
)
    requires
        is_full_plane(blocks, dimensions),
        is_plane(steps, zigzag, macro_models(blocks, dimensions), dimensions, r),
    ensures
        is_dequantized_plane(steps, zigzag, blocks, r),
{
    let items = macro_models(blocks, dimensions);
    let width = dimensions.width as int;
    let (blank, back) = choose|blank: Seq<Block<T>>, back: Seq<IMacroBlock<T>>|
        {
            &&& is_blank(blank, dimensions.width * dimensions.height)
            &&& back.len() == items.len()
            &&& forall|j: int|
                0 <= j < items.len() ==> is_dequantized_macro(
                    steps,
                    zigzag,
                    items[j],
                    #[trigger] back[j],
                )
            &&& r == #[trigger] reconstructed(blank, back, width, back.len() as int)
        };
    if blocks.len() == 0 {
        lemma_reconstructed_len(blank, back, width, back.len() as int);
    } else {
        let found = locations(blocks, dimensions, blocks.len() as int);
        let whole = Seq::new(
            blocks.len(),
            |t: int|
                choose|b: Block<T>|
                    is_dequantized(steps, ordered(zigzag, blocks[t]@), #[trigger] b@),
        );
        assert forall|j: int| 0 <= j < back.len() implies is_square(
            whole,
            dimensions,
            (#[trigger] back[j]).location,
            back[j].blocks@,
        ) by {
            assert(is_dequantized_macro(steps, zigzag, items[j], back[j]));
            let location = found[j];
            lemma_locations_inside(blocks, dimensions, blocks.len() as int, j);
            lemma_location_is_square(blocks, dimensions, blocks.len() as int, j);
            let size = square_len(location.end.row - location.start.row);
            let row = location.start.row as int;
            let col = location.start.col as int;
            let expected = square_blocks(whole, dimensions, row, col, size);
            assert(square_len(0) == 1 && square_len(1) == 4 && square_len(2) == 9 && square_len(3)
                == 16);
            assert(back[j].blocks@.len() == size);
            lemma_square_places();
            assert forall|i: int| 0 <= i < size implies back[j].blocks@[i] == expected[i] by {
                let reach = location.end.row - location.start.row;
                assert(SQUARE@[i].0 <= reach && SQUARE@[i].1 <= reach);
                let at = cell(
                    dimensions,
                    row + SQUARE@[i].0,
                    col + SQUARE@[i].1,
                );
                lemma_cell(
                    dimensions,
                    row + SQUARE@[i].0,
                    col + SQUARE@[i].1,
                );
                assert(items[j].1[i] == blocks[at]@);
                assert(is_dequantized(
                    steps,
                    ordered(zigzag, blocks[at]@),
                    back[j].blocks@[i]@,
                ));
                let chosen = choose|b: Block<T>|
                    is_dequantized(steps, ordered(zigzag, blocks[at]@), #[trigger] b@);
                assert(is_dequantized(steps, ordered(zigzag, blocks[at]@), chosen@));
                assert forall|k: int| 0 <= k < 64 implies (#[trigger] back[j].blocks@[i]@[k]).num()
                    == chosen@[k].num() by {
                    assert(back[j].blocks@[i]@[k].num() == ordered(
                        zigzag,
                        blocks[at]@,
                    )[k].num() * steps[k].num());
                    assert(chosen@[k].num() == ordered(zigzag, blocks[at]@)[k].num()
                        * steps[k].num());
                }
                lemma_same_nums(back[j].blocks@[i], chosen);
            }
            assert(back[j].blocks@ =~= expected);
        }
        assert(places(back) =~= found) by {
            assert forall|j: int| 0 <= j < found.len() implies places(back)[j]
                == found[j] by {
                assert(is_dequantized_macro(steps, zigzag, items[j], back[j]));
            }
        }
        lemma_grid_comes_back(blocks, whole, dimensions, back, blank);
        assert forall|t: int| 0 <= t < blocks.len() implies is_dequantized(
            steps,
            ordered(zigzag, blocks[t]@),
            (#[trigger] r[t])@,
        ) by {
            lemma_row_and_col(dimensions, t);
            let row = t / width;
            let col = t % width;
            lemma_covered(blocks, dimensions, blocks.len() as int, row, col);
            let j = choose|j: int|
                0 <= j < found.len() && covers(#[trigger] found[j], row, col);
            lemma_locations_inside(blocks, dimensions, blocks.len() as int, j);
            lemma_location_is_square(blocks, dimensions, blocks.len() as int, j);
            let reach = found[j].end.row - found[j].start.row;
            lemma_square_index(
                row - found[j].start.row,
                col - found[j].start.col,
                reach,
            );
            let i = square_index(
                row - found[j].start.row,
                col - found[j].start.col,
            );
            assert(is_dequantized_macro(steps, zigzag, items[j], back[j]));
            assert(items[j].1.len() == square_len(reach));
            assert(items[j].1[i] == blocks[t]@);
            assert(is_dequantized(steps, ordered(zigzag, blocks[t]@), back[j].blocks@[i]@));
        }
    }
}

/// A location is a square of at most four by four.
proof fn lemma_location_is_square<T: Sample>(
    blocks: Seq<Block<T>>,
    dimensions: BlockDimensions,
    n: int,
    j: int,
)
    requires
        0 <= n <= dimensions.width * dimensions.height,
        dimensions.height <= usize::MAX - 3,
        dimensions.width <= usize::MAX - 3,
        0 <= j < locations(blocks, dimensions, n).len(),
    ensures
        ({
            let location = locations(blocks, dimensions, n)[j];
            &&& location.end.row - location.start.row == location.end.col - location.start.col
            &&& 0 <= location.end.row - location.start.row <= 3
        }),
    decreases n,
{
    let so_far = locations(blocks, dimensions, n - 1);
    if j < so_far.len() {
        lemma_location_is_square(blocks, dimensions, n - 1, j);
    } else {
        lemma_row_and_col(dimensions, n - 1);
    }
}

/// A plane can be read again: its bytes survive the compression, and their
/// number is one that a stream can hold.
pub open spec fn is_storable<T: Sample>(
    blocks: Seq<Block<T>>,
    dimensions: BlockDimensions,
) -> bool {
    let bytes = plane_bytes(blocks, dimensions);
    survives_lz4(bytes) && lz4_compressed(bytes).len() <= u32::MAX
}

/// A stream that starts with a plane holds it.
proof fn lemma_holds_plane<T: Sample>(
    steps: Seq<T>,
    zigzag: bool,
    blocks: Seq<Block<T>>,
    dimensions: BlockDimensions,
    rest: Seq<bool>,
)
    requires
        is_full_plane(blocks, dimensions),
        is_storable(blocks, dimensions),
        plane_dequantizes(steps, zigzag, blocks),
        rest.len() % 8 == 0,
    ensures
        ({
            let stream = plane_bits(blocks, dimensions) + rest;
            &&& holds_plane::<T>(stream, steps, zigzag)
            &&& plane_items::<T>(stream) == Some(macro_models(blocks, dimensions))
            &&& behind_block(stream) == rest
        }),
{
    let bytes = plane_bytes(blocks, dimensions);
    let items = macro_models(blocks, dimensions);
    law_block_comes_back(bytes, rest);
    let n = if blocks.len() == 0 {
        0
    } else {
        blocks.len() as int
    };
    let found = locations(blocks, dimensions, n);
    assert forall|j: int| 0 <= j < items.len() implies IMacroBlock::<T>::readable(
        #[trigger] items[j],
    ) && macro_dequantizes(steps, zigzag, items[j]) by {
        let location = found[j];
        lemma_locations_inside(blocks, dimensions, n, j);
        lemma_location_is_square(blocks, dimensions, n, j);
        let reach = location.end.row - location.start.row;
        assert(square_len(0) == 1 && square_len(1) == 4 && square_len(2) == 9 && square_len(3)
            == 16);
        lemma_square_places();
        assert forall|i: int| 0 <= i < items[j].1.len() implies (#[trigger] items[j].1[i]).len()
            == 64 && dequantizes(steps, ordered(zigzag, items[j].1[i])) by {
            assert(SQUARE@[i].0 <= reach && SQUARE@[i].1 <= reach);
            let row = location.start.row + SQUARE@[i].0;
            let col = location.start.col + SQUARE@[i].1;
            lemma_cell(dimensions, row, col);
            assert(items[j].1[i] == blocks[cell(dimensions, row, col)]@);
        }
    }
    law_items_come_back::<IMacroBlock<T>>(items);
}

/// A frame that was written is read back: the size and the subsampling are the
/// same, every coefficient is its quantized value times its step, and the
/// stream goes on behind the frame.
pub proof fn law_frame_comes_back<T: Sample>(
    dimensions: BlockDimensions,
    subsampling: Subsampling,
    y: Seq<Block<T>>,
    cb: Seq<Block<T>>,
    cr: Seq<Block<T>>,
    rest: Seq<bool>,
    r: Result<SubSampleBlockGroup<T>>,
    behind: Seq<bool>,
)
    requires
        dimensions.width <= u32::MAX,
        dimensions.height <= u32::MAX,
        dimensions.width * dimensions.height <= usize::MAX,
        is_full_plane(y, dimensions),
        is_full_plane(cb, dimensions.subsampled(subsampling)),
        is_full_plane(cr, dimensions.subsampled(subsampling)),
        is_storable(y, dimensions),
        is_storable(cb, dimensions.subsampled(subsampling)),
        is_storable(cr, dimensions.subsampled(subsampling)),
        plane_dequantizes(table_steps::<T>(VIDEO_LUMINANCE_QUANTIZATION@), true, y),
        plane_dequantizes(table_steps::<T>(VIDEO_CHROMINANCE_QUANTIZATION@), true, cb),
        plane_dequantizes(table_steps::<T>(VIDEO_CHROMINANCE_QUANTIZATION@), true, cr),
        rest.len() % 8 == 0,
        is_frame_read(
            frame_bits(Seq::empty(), dimensions, subsampling, y, cb, cr) + rest,
            true,
            r,
            behind,
        ),
    ensures
        r is Ok,
        behind == rest,
        r->Ok_0.dimensions == dimensions,
        r->Ok_0.subsampling == subsampling,
        is_dequantized_plane(
            table_steps::<T>(VIDEO_LUMINANCE_QUANTIZATION@),
            true,
            y,
            r->Ok_0.y@,
        ),
        is_dequantized_plane(
            table_steps::<T>(VIDEO_CHROMINANCE_QUANTIZATION@),
            true,
            cb,
            r->Ok_0.cb@,
        ),
        is_dequantized_plane(
            table_steps::<T>(VIDEO_CHROMINANCE_QUANTIZATION@),
            true,
            cr,
            r->Ok_0.cr@,
        ),
{
    let chroma_dims = dimensions.subsampled(subsampling);
    let luma = table_steps::<T>(VIDEO_LUMINANCE_QUANTIZATION@);
    let chroma = table_steps::<T>(VIDEO_CHROMINANCE_QUANTIZATION@);
    let bits = frame_bits(Seq::empty(), dimensions, subsampling, y, cb, cr) + rest;
    let cr_on = plane_bits(cr, chroma_dims) + rest;
    let cb_on = plane_bits(cb, chroma_dims) + cr_on;
    let y_on = plane_bits(y, dimensions) + cb_on;
    lemma_frame_layout(dimensions, subsampling, y, cb, cr, rest);
    lemma_header_comes_back::<T>(dimensions, subsampling, y_on);
    assert(holds_plane::<T>(y_on, luma, true) && plane_items::<T>(y_on) == Some(
        macro_models(y, dimensions),
    ) && behind_block(y_on) == cb_on) by {
        lemma_holds_plane(luma, true, y, dimensions, cb_on);
    }
    assert(holds_plane::<T>(cb_on, chroma, true) && plane_items::<T>(cb_on) == Some(
        macro_models(cb, chroma_dims),
    ) && behind_block(cb_on) == cr_on) by {
        lemma_holds_plane(chroma, true, cb, chroma_dims, cr_on);
    }
    assert(holds_plane::<T>(cr_on, chroma, true) && plane_items::<T>(cr_on) == Some(
        macro_models(cr, chroma_dims),
    ) && behind_block(cr_on) == rest) by {
        lemma_holds_plane(chroma, true, cr, chroma_dims, rest);
    }
    lemma_planes_follow(
        bits,
        dimensions,
        subsampling,
        luma,
        chroma,
        y_on,
        cb_on,
        cr_on,
        rest,
        macro_models(y, dimensions),
        macro_models(cb, chroma_dims),
        macro_models(cr, chroma_dims),
        r,
        behind,
    );
    let group = r->Ok_0;
    lemma_plane_comes_back(luma, true, y, dimensions, group.y@);
    lemma_plane_comes_back(chroma, true, cb, chroma_dims, group.cb@);
    lemma_plane_comes_back(chroma, true, cr, chroma_dims, group.cr@);
}

/// A stream that holds the header and three planes is read.
proof fn lemma_planes_follow<T: Sample>(
    bits: Seq<bool>,
    dimensions: BlockDimensions,
    subsampling: Subsampling,
    luma: Seq<T>,
    chroma: Seq<T>,
    y_on: Seq<bool>,
    cb_on: Seq<bool>,
    cr_on: Seq<bool>,
    rest: Seq<bool>,
    y: Seq<MacroModel<T>>,
    cb: Seq<MacroModel<T>>,
    cr: Seq<MacroModel<T>>,
    r: Result<SubSampleBlockGroup<T>>,
    behind: Seq<bool>,
)
    requires
        is_frame_read(bits, true, r, behind),
        dimensions.width * dimensions.height <= usize::MAX,
        bits.len() >= 64,
        read_width(bits) == dimensions.width,
        read_height(bits) == dimensions.height,
        bits.skip(64).len() >= steps_len::<T>(),
        read_steps::<T>(bits.skip(64)) == luma,
        bits.skip(64).skip(steps_len::<T>()).len() >= steps_len::<T>(),
        read_steps::<T>(bits.skip(64).skip(steps_len::<T>())) == chroma,
        bits.skip(64).skip(steps_len::<T>()).skip(steps_len::<T>()).len() >= 8,
        bits_value(bits.skip(64).skip(steps_len::<T>()).skip(steps_len::<T>()).take(8))
            == subsampling.code(),
        bits.skip(64).skip(steps_len::<T>()).skip(steps_len::<T>()).skip(8) == y_on,
        holds_plane::<T>(y_on, luma, true),
        plane_items::<T>(y_on) == Some(y),
        aligned(behind_block(y_on)) == cb_on,
        holds_plane::<T>(cb_on, chroma, true),
        plane_items::<T>(cb_on) == Some(cb),
        aligned(behind_block(cb_on)) == cr_on,
        holds_plane::<T>(cr_on, chroma, true),
        plane_items::<T>(cr_on) == Some(cr),
        behind_block(cr_on) == rest,
    ensures
        r is Ok,
        behind == rest,
        r->Ok_0.dimensions == dimensions,
        r->Ok_0.subsampling == subsampling,
        is_plane(luma, true, y, dimensions, r->Ok_0.y@),
        is_plane(chroma, true, cb, dimensions.subsampled(subsampling), r->Ok_0.cb@),
        is_plane(chroma, true, cr, dimensions.subsampled(subsampling), r->Ok_0.cr@),
{
    assert(r->Ok_0.subsampling.code() == subsampling.code());
    assert(r->Ok_0.subsampling == subsampling);
    assert(r->Ok_0.dimensions == dimensions);
}

/// How parts lie behind each other, where all but one fill whole bytes.
proof fn lemma_five_parts(
    a: Seq<bool>,
    b: Seq<bool>,
    c: Seq<bool>,
    d: Seq<bool>,
    e: Seq<bool>,
)
    requires
        a.len() % 8 == 0,
        c.len() % 8 == 0,
        d.len() % 8 == 0,
        e.len() % 8 == 0,
    ensures
        padded(Seq::<bool>::empty() + a) + b + c + d + e == a + (b + (c + (d + e))),
        (d + e).len() % 8 == 0,
        (c + (d + e)).len() % 8 == 0,
        aligned(d + e) == d + e,
        aligned(c + (d + e)) == c + (d + e),
{
    assert(Seq::<bool>::empty() + a =~= a);
    lemma_padded(a);
    assert(a + b + c + d + e =~= a + (b + (c + (d + e))));
    assert(aligned(d + e) =~= d + e);
    assert(aligned(c + (d + e)) =~= c + (d + e));
}

/// The header of a frame fills whole bytes.
proof fn lemma_header_len<T: Sample>(dimensions: BlockDimensions, subsampling: Subsampling)
    ensures
        header_bits::<T>(dimensions, subsampling).len() % 8 == 0,
{
    lemma_bytes_bits_len(block_bytes(table_steps::<T>(VIDEO_LUMINANCE_QUANTIZATION@)));
    lemma_bytes_bits_len(block_bytes(table_steps::<T>(VIDEO_CHROMINANCE_QUANTIZATION@)));
    lemma_be_bits_len(subsampling.code() as nat, 8);
    lemma_be_bits_len(dimensions.width as nat, 32);
    lemma_be_bits_len(dimensions.height as nat, 32);
}

/// Parts that fill whole bytes do so together.
proof fn lemma_four_parts(a: Seq<bool>, b: Seq<bool>, c: Seq<bool>, d: Seq<bool>)
    requires
        a.len() % 8 == 0,
        b.len() % 8 == 0,
        c.len() % 8 == 0,
        d.len() % 8 == 0,
    ensures
        (a + b + c + d).len() % 8 == 0,
{
}

/// A frame fills whole bytes.
pub proof fn lemma_frame_bits_len<T: Sample>(
    start: Seq<bool>,
    dimensions: BlockDimensions,
    subsampling: Subsampling,
    y: Seq<Block<T>>,
    cb: Seq<Block<T>>,
    cr: Seq<Block<T>>,
)
    ensures
        frame_bits(start, dimensions, subsampling, y, cb, cr).len() % 8 == 0,
{
    let chroma = dimensions.subsampled(subsampling);
    let header = padded(start + header_bits::<T>(dimensions, subsampling));
    assert(header.len() % 8 == 0) by {
        lemma_padded(start + header_bits::<T>(dimensions, subsampling));
    }
    lemma_compressed_bits_len(plane_bytes(y, dimensions));
    lemma_compressed_bits_len(plane_bytes(cb, chroma));
    lemma_compressed_bits_len(plane_bytes(cr, chroma));
    lemma_four_parts(
        header,
        plane_bits(y, dimensions),
        plane_bits(cb, chroma),
        plane_bits(cr, chroma),
    );
}

/// A frame behind whole bytes is the frame at the start of a stream.
pub proof fn lemma_frame_start_apart<T: Sample>(
    start: Seq<bool>,
    dimensions: BlockDimensions,
    subsampling: Subsampling,
    y: Seq<Block<T>>,
    cb: Seq<Block<T>>,
    cr: Seq<Block<T>>,
)
    requires
        start.len() % 8 == 0,
    ensures
        frame_bits(start, dimensions, subsampling, y, cb, cr) == start + frame_bits(
            Seq::empty(),
            dimensions,
            subsampling,
            y,
            cb,
            cr,
        ),
{
    let header = header_bits::<T>(dimensions, subsampling);
    let none = Seq::<bool>::empty();
    lemma_header_len::<T>(dimensions, subsampling);
    lemma_padded(start + header);
    lemma_padded(none + header);
    assert(none + header =~= header);
    assert(frame_bits(start, dimensions, subsampling, y, cb, cr) =~= start + frame_bits(
        none,
        dimensions,
        subsampling,
        y,
        cb,
        cr,
    ));
}

/// How the parts of a frame lie in a stream.
proof fn lemma_frame_layout<T: Sample>(
    dimensions: BlockDimensions,
    subsampling: Subsampling,
    y: Seq<Block<T>>,
    cb: Seq<Block<T>>,
    cr: Seq<Block<T>>,
    rest: Seq<bool>,
)
    requires
        rest.len() % 8 == 0,
    ensures
        ({
            let chroma_dims = dimensions.subsampled(subsampling);
            let cr_on = plane_bits(cr, chroma_dims) + rest;
            let cb_on = plane_bits(cb, chroma_dims) + cr_on;
            let y_on = plane_bits(y, dimensions) + cb_on;
            &&& frame_bits(Seq::empty(), dimensions, subsampling, y, cb, cr) + rest
                == header_bits::<T>(dimensions, subsampling) + y_on
            &&& cr_on.len() % 8 == 0
            &&& cb_on.len() % 8 == 0
            &&& aligned(cr_on) == cr_on
            &&& aligned(cb_on) == cb_on
        }),
{
    let chroma_dims = dimensions.subsampled(subsampling);
    lemma_compressed_bits_len(plane_bytes(cb, chroma_dims));
    lemma_compressed_bits_len(plane_bytes(cr, chroma_dims));
    lemma_header_len::<T>(dimensions, subsampling);
    lemma_five_parts(
        header_bits::<T>(dimensions, subsampling),
        plane_bits(y, dimensions),
        plane_bits(cb, chroma_dims),
        plane_bits(cr, chroma_dims),
        rest,
    );
}

/// What stands before the planes comes back.
proof fn lemma_header_comes_back<T: Sample>(
    dimensions: BlockDimensions,
    subsampling: Subsampling,
    tail: Seq<bool>,
)
    requires
        dimensions.width <= u32::MAX,
        dimensions.height <= u32::MAX,
    ensures
        ({
            let bits = header_bits::<T>(dimensions, subsampling) + tail;
            let behind_size = bits.skip(64);
            let behind_luma = behind_size.skip(steps_len::<T>());
            let behind_chroma = behind_luma.skip(steps_len::<T>());
            &&& header_bits::<T>(dimensions, subsampling).len() % 8 == 0
            &&& bits.len() >= 64
            &&& read_width(bits) == dimensions.width
            &&& read_height(bits) == dimensions.height
            &&& behind_size.len() >= steps_len::<T>()
            &&& read_steps::<T>(behind_size) == table_steps::<T>(VIDEO_LUMINANCE_QUANTIZATION@)
            &&& behind_luma.len() >= steps_len::<T>()
            &&& read_steps::<T>(behind_luma) == table_steps::<T>(VIDEO_CHROMINANCE_QUANTIZATION@)
            &&& behind_chroma.len() >= 8
            &&& bits_value(behind_chroma.take(8)) == subsampling.code()
            &&& behind_chroma.skip(8) == tail
        }),
{
    T::lemma_type();
    let luma = table_steps::<T>(VIDEO_LUMINANCE_QUANTIZATION@);
    let chroma = table_steps::<T>(VIDEO_CHROMINANCE_QUANTIZATION@);
    let bits = header_bits::<T>(dimensions, subsampling) + tail;
    let luma_bits = bytes_bits(block_bytes(luma));
    let chroma_bits = bytes_bits(block_bytes(chroma));
    let code = be_bits(subsampling.code() as nat, 8);
    let none = Seq::<u8>::empty();
    crate::block::law_block_comes_back(luma, none);
    crate::block::law_block_comes_back(chroma, none);
    assert(block_bytes(luma) + none =~= block_bytes(luma));
    assert(block_bytes(chroma) + none =~= block_bytes(chroma));
    lemma_bytes_bits_len(block_bytes(luma));
    lemma_bytes_bits_len(block_bytes(chroma));
    lemma_bits_bytes_of_bytes_bits(block_bytes(luma));
    lemma_bits_bytes_of_bytes_bits(block_bytes(chroma));
    lemma_be_bits_len(subsampling.code() as nat, 8);
    lemma_be_bits_len(dimensions.width as nat, 32);
    lemma_be_bits_len(dimensions.height as nat, 32);
    let code_on = code + tail;
    let chroma_on = chroma_bits + code_on;
    let luma_on = luma_bits + chroma_on;
    assert(bits =~= dimensions.stream_bits() + luma_on);
    law_block_dimensions_come_back(dimensions, luma_on);
    assert(luma_on.skip(steps_len::<T>()) =~= chroma_on);
    assert(luma_on.take(steps_len::<T>()) =~= luma_bits);
    assert(chroma_on.skip(steps_len::<T>()) =~= code_on);
    assert(chroma_on.take(steps_len::<T>()) =~= chroma_bits);
    law_subsampling_comes_back(subsampling, tail);
}

/// A frame that stands alone starts with its size in blocks, the tables for luminance and for
/// chrominance and the number of its subsampling, and goes on from the next whole byte with its
/// planes, luma first.
pub proof fn law_frame_has_its_places<T: Sample>(
    start: Seq<bool>,
    dimensions: BlockDimensions,
    subsampling: Subsampling,
    y: Seq<Block<T>>,
    cb: Seq<Block<T>>,
    cr: Seq<Block<T>>,
)
    ensures
        ({
            let luma = bytes_bits(block_bytes(table_steps::<T>(VIDEO_LUMINANCE_QUANTIZATION@)));
            let chroma = bytes_bits(
                block_bytes(table_steps::<T>(VIDEO_CHROMINANCE_QUANTIZATION@)),
            );
            let planes = dimensions.subsampled(subsampling);
            let header = dimensions.stream_bits() + (luma + (chroma + be_bits(
                subsampling.code() as nat,
                8,
            )));
            &&& header_bits::<T>(dimensions, subsampling) == header
            &&& frame_bits(start, dimensions, subsampling, y, cb, cr) == padded(start + header)
                + (compressed_bits(plane_bytes(y, dimensions)) + (compressed_bits(
                plane_bytes(cb, planes),
            ) + compressed_bits(plane_bytes(cr, planes))))
        }),
{
    let luma = bytes_bits(block_bytes(table_steps::<T>(VIDEO_LUMINANCE_QUANTIZATION@)));
    let chroma = bytes_bits(block_bytes(table_steps::<T>(VIDEO_CHROMINANCE_QUANTIZATION@)));
    let planes = dimensions.subsampled(subsampling);
    let code = be_bits(subsampling.code() as nat, 8);
    let header = dimensions.stream_bits() + (luma + (chroma + code));
    assert(header_bits::<T>(dimensions, subsampling) =~= header);
    assert(frame_bits(start, dimensions, subsampling, y, cb, cr) =~= padded(start + header) + (
    compressed_bits(plane_bytes(y, dimensions)) + (compressed_bits(plane_bytes(cb, planes))
        + compressed_bits(plane_bytes(cr, planes)))));
}

} // verus!
