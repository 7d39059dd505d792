//! How many bytes a frame takes.
use vstd::prelude::*;

use super::coming_back::{is_frame_small, is_iframe_small, is_sound_frame};
use super::encode::Transform;
use crate::bits::lemma_bytes_bits_of_be_bytes;
use crate::block::quantization::{
    table_steps, VIDEO_CHROMINANCE_QUANTIZATION, VIDEO_LUMINANCE_QUANTIZATION,
};
use crate::block::{block_size, block_views, lemma_blocks_bytes_len, Block, Blocks};
use crate::bytes::{lemma_words_bytes_len, ToBytes};
use crate::color::Subsampling;
use crate::dimensions::BlockDimensions;
use crate::encoders::ans::{fits_block, items_bytes, models};
use crate::lossy::frame::bframe;
use crate::lossy::frame::coding::{are_coded_areas, is_coded_area};
use crate::lossy::frame::compression::{compressed, is_vector_grid, lemma_areas_inside, places};
use crate::lossy::frame::grid::{locations, square_blocks, square_len};
use crate::lossy::frame::iframe::{macro_models, plane_bytes};
use crate::lossy::frame::macroblock::block_location::BlockLocation;
use crate::lossy::frame::macroblock::bmacro::{BMacroBlock, Prediction};
use crate::lossy::frame::macroblock::imacro::IMacroBlock;
use crate::lossy::frame::macroblock::pmacro::PMacroBlock;
use crate::lossy::frame::macroblock::{AssemblableMacroBlock, Residuals};
use crate::lossy::frame::motion_vector::{signed_bytes, unsigned64, MotionVector};
use crate::lossy::frame::pframe;
use crate::lossy::frame::prediction::{cols, count, rows, Plane};
use crate::lossy::frame::residual::{chroma_places, is_coded};
use crate::lossy::frame::Kind;
use crate::lossy::transform::is_coded_plane;
use crate::lossy::Picture;

verus! {

/// As many blocks as always fit a stream.
pub open spec fn few_blocks() -> int {
    1_800_000
}

/// More bytes than a macroblock takes.
spec fn most_bytes() -> int {
    2088
}

/// Values of few bytes each take few bytes together.
proof fn lemma_items_len<T: ToBytes>(items: Seq<T::Model>, most: int)
    requires
        forall|i: int| 0 <= i < items.len() ==> T::bytes_of(#[trigger] items[i]).len() <= most,
    ensures
        items_bytes::<T>(items).len() <= items.len() * most,
    decreases items.len(),
{
    if items.len() > 0 {
        let before = items.drop_last();
        assert forall|i: int| 0 <= i < before.len() implies T::bytes_of(
            #[trigger] before[i],
        ).len() <= most by {
            assert(before[i] == items[i]);
        }
        lemma_items_len::<T>(before, most);
        assert(T::bytes_of(items[items.len() - 1]).len() <= most);
        assert((items.len() - 1) * most + most == items.len() * most) by (nonlinear_arith);
    } else {
        assert(0 * most == 0) by (nonlinear_arith);
    }
}

/// The bytes of a list of blocks.
proof fn lemma_list_len(blocks: Seq<Block<i16>>)
    ensures
        <Blocks<i16> as ToBytes>::bytes_of(block_views(blocks)).len() == 8 + 128 * blocks.len(),
{
    let views = block_views(blocks);
    lemma_bytes_bits_of_be_bytes(views.len(), 8);
    lemma_blocks_bytes_len(views);
    let size = block_size::<i16>();
    assert(views.len() * size == 128 * views.len()) by (nonlinear_arith)
        requires
            size == 128,
    ;
}

/// The bytes of a location.
proof fn lemma_location_len(location: BlockLocation)
    ensures
        BlockLocation::bytes_of(location).len() == 32,
{
    lemma_words_bytes_len(location.words());
}

/// The bytes of a vector.
proof fn lemma_vector_len(mv: MotionVector)
    ensures
        MotionVector::bytes_of(mv).len() == 16,
{
    lemma_bytes_bits_of_be_bytes(unsigned64(mv.x as int), 8);
    lemma_bytes_bits_of_be_bytes(unsigned64(mv.y as int), 8);
    assert(signed_bytes(mv.x as int).len() == 8);
}

/// There are no more locations than places, and each has at most four rows.
proof fn lemma_locations_few(
    blocks: Seq<Block<i16>>,
    dimensions: BlockDimensions,
    n: int,
)
    requires
        0 <= n <= dimensions.width * dimensions.height,
        dimensions.height <= usize::MAX - 3,
        dimensions.width <= usize::MAX - 3,
    ensures
        locations(blocks, dimensions, n).len() <= n,
        forall|j: int|
            0 <= j < locations(blocks, dimensions, n).len() ==> {
                let location = #[trigger] locations(blocks, dimensions, n)[j];
                0 <= location.end.row - location.start.row <= 3
            },
    decreases n,
{
    if n > 0 {
        lemma_locations_few(blocks, dimensions, n - 1);
        let width = dimensions.width as int;
        if width == 0 {
            assert(width * dimensions.height == 0) by (nonlinear_arith)
                requires
                    width == 0,
            ;
        }
        let row = (n - 1) / width;
        assert(0 <= row < dimensions.height) by (nonlinear_arith)
            requires
                0 <= n - 1 < width * dimensions.height,
                0 < width,
                row == (n - 1) / width,
        ;
    }
}

/// The bytes of a plane.
proof fn lemma_plane_len(blocks: Seq<Block<i16>>, dimensions: BlockDimensions)
    requires
        dimensions.width * dimensions.height <= few_blocks(),
        blocks.len() > 0 ==> dimensions.height <= usize::MAX - 3 && dimensions.width
            <= usize::MAX - 3,
    ensures
        fits_block(plane_bytes(blocks, dimensions)),
{
    let n = if blocks.len() == 0 {
        0
    } else {
        dimensions.width * dimensions.height
    };
    let found = locations(blocks, dimensions, n);
    let items = macro_models(blocks, dimensions);
    if blocks.len() > 0 {
        assert(0 <= n) by (nonlinear_arith)
            requires
                n == dimensions.width * dimensions.height,
                dimensions.width >= 0,
                dimensions.height >= 0,
        ;
        lemma_locations_few(blocks, dimensions, n);
    }
    assert forall|j: int| 0 <= j < items.len() implies <IMacroBlock<
        i16,
    > as ToBytes>::bytes_of(#[trigger] items[j]).len() <= most_bytes() by {
        let location = found[j];
        let out = location.end.row - location.start.row;
        assert(0 <= square_len(out) <= 16) by (nonlinear_arith)
            requires
                0 <= out <= 3,
                square_len(out) == (out + 1) * (out + 1),
        ;
        lemma_location_len(location);
        let held = square_blocks(
            blocks,
            dimensions,
            location.start.row as int,
            location.start.col as int,
            square_len(out),
        );
        lemma_list_len(held);
        assert(items[j] == (location, block_views(held)));
    }
    lemma_items_len::<IMacroBlock<i16>>(items, most_bytes());
    lemma_few_bytes(items.len() as int, plane_bytes(blocks, dimensions));
}

/// The bytes of few macroblocks fit a stream.
proof fn lemma_few_bytes(n: int, bytes: Seq<u8>)
    requires
        0 <= n <= few_blocks(),
        bytes.len() <= n * most_bytes(),
    ensures
        fits_block(bytes),
{
}

/// There are no more areas than places.
proof fn lemma_areas_few(
    dimensions: BlockDimensions,
    mvs: Seq<Vec<(Prediction, i16)>>,
    n: int,
)
    ensures
        n >= 0 ==> compressed(dimensions, mvs, n).len() <= n,
    decreases n,
{
    if n > 0 {
        lemma_areas_few(dimensions, mvs, n - 1);
    }
}

/// There are no more chroma places than places.
proof fn lemma_chroma_places_few(
    location: BlockLocation,
    subsampling: Subsampling,
    dimensions: BlockDimensions,
    n: int,
)
    ensures
        n >= 0 ==> chroma_places(location, subsampling, dimensions, n).len() <= n,
    decreases n,
{
    if n > 0 {
        lemma_chroma_places_few(location, subsampling, dimensions, n - 1);
    }
}

/// The bytes of what the prediction of an area missed.
proof fn lemma_residuals_len<M: AssemblableMacroBlock, C: Fn(Plane, &Block<i16>) -> Block<i16>>(
    code: C,
    current: Picture<i16>,
    forward_ref: Option<Picture<i16>>,
    backward_ref: Picture<i16>,
    mvs: Seq<Vec<(Prediction, i16)>>,
    macro_blocks: Seq<M>,
    j: int,
)
    requires
        is_vector_grid(mvs),
        mvs.len() == current.dimensions.height,
        mvs[0]@.len() == current.dimensions.width,
        are_coded_areas(code, current, forward_ref, backward_ref, mvs, macro_blocks),
        0 <= j < macro_blocks.len(),
    ensures
        <Residuals<i16> as ToBytes>::bytes_of(macro_blocks[j].missed().model()).len() <= 24 + 12
            * 128,
{
    let areas = compressed(current.dimensions, mvs, places(mvs));
    let area = areas[j].1;
    let m = macro_blocks[j];
    let r = m.missed();
    assert(is_coded_area(code, current, forward_ref, backward_ref, areas[j], m));
    lemma_areas_inside(current.dimensions, mvs, j, places(mvs));
    assert(0 <= count(area) <= 4) by (nonlinear_arith)
        requires
            count(area) == rows(area) * cols(area),
            0 <= rows(area) <= 2,
            0 <= cols(area) <= 2,
    ;
    let chroma = current.dimensions.subsampled(current.subsampling);
    lemma_chroma_places_few(area, current.subsampling, chroma, count(area));
    assert(r.y@.len() <= 4 && r.cb@.len() <= 4 && r.cr@.len() <= 4) by {
        let (y, cb, cr) = choose|y: Seq<Block<i16>>, cb: Seq<Block<i16>>, cr: Seq<Block<i16>>|
            {
                &&& #[trigger] is_coded(code, Plane::Luma, y, r.y@)
                &&& #[trigger] is_coded(code, Plane::Chroma, cb, r.cb@)
                &&& #[trigger] is_coded(code, Plane::Chroma, cr, r.cr@)
                &&& block_views(y).len() == count(area)
                &&& block_views(cb).len() <= count(area)
                &&& block_views(cr).len() <= count(area)
            };
    }
    lemma_list_len(r.y@);
    lemma_list_len(r.cb@);
    lemma_list_len(r.cr@);
}

/// A frame of few blocks fits a stream, whatever it is predicted from.
pub proof fn law_few_blocks_fit<
    D: Fn(&Block<i16>) -> Block<i16>,
    I: Fn(&Block<i16>) -> Block<i16>,
    C: Fn(Plane, &Block<i16>) -> Block<i16>,
    R: Fn(Plane, &Block<i16>, &Block<i16>) -> Block<i16>,
>(transform: Transform<D, I, C, R>, frame: Picture<i16>, kind: Kind)
    requires
        is_sound_frame(frame),
        frame.dimensions.width * frame.dimensions.height <= few_blocks(),
    ensures
        is_frame_small(transform, frame, kind),
{
    match kind {
        Kind::I => {
            lemma_iframe_fits(transform.dct, frame);
        },
        Kind::P => {
            assert forall|previous: Picture<i16>, coded: Seq<PMacroBlock<i16>>| #[trigger]
                pframe::are_macroblocks(
                    transform.code,
                    frame,
                    previous,
                    coded,
                ) implies fits_block(items_bytes::<PMacroBlock<i16>>(models(coded))) by {
                lemma_pframe_fits(transform.code, frame, previous, coded);
            }
        },
        Kind::B => {
            assert forall|
                forward: Option<Picture<i16>>,
                backward: Picture<i16>,
                coded: Seq<BMacroBlock<i16>>,
            | #[trigger]
                bframe::are_macroblocks(
                    transform.code,
                    frame,
                    forward,
                    backward,
                    coded,
                ) implies fits_block(items_bytes::<BMacroBlock<i16>>(models(coded))) by {
                lemma_bframe_fits(transform.code, frame, forward, backward, coded);
            }
        },
    }
}

proof fn lemma_iframe_fits<D: Fn(&Block<i16>) -> Block<i16>>(dct: D, frame: Picture<i16>)
    requires
        is_sound_frame(frame),
        frame.dimensions.width * frame.dimensions.height <= few_blocks(),
    ensures
        is_iframe_small(dct, frame),
{
    let luma = table_steps::<i16>(VIDEO_LUMINANCE_QUANTIZATION@);
    let chroma = table_steps::<i16>(VIDEO_CHROMINANCE_QUANTIZATION@);
    let dimensions = frame.dimensions.subsampled(frame.subsampling);
    assert(dimensions.width * dimensions.height <= frame.dimensions.width
        * frame.dimensions.height) by (nonlinear_arith)
        requires
            0 <= dimensions.width <= frame.dimensions.width,
            0 <= dimensions.height <= frame.dimensions.height,
    ;
    assert forall|y: Seq<Block<i16>>| #[trigger]
        is_coded_plane(dct, luma, frame.y, y) implies fits_block(
        plane_bytes(y, frame.dimensions),
    ) by {
        lemma_plane_len(y, frame.dimensions);
    }
    assert forall|cb: Seq<Block<i16>>| #[trigger]
        is_coded_plane(dct, chroma, frame.cb, cb) implies fits_block(
        plane_bytes(cb, dimensions),
    ) by {
        lemma_plane_len(cb, dimensions);
    }
    assert forall|cr: Seq<Block<i16>>| #[trigger]
        is_coded_plane(dct, chroma, frame.cr, cr) implies fits_block(
        plane_bytes(cr, dimensions),
    ) by {
        lemma_plane_len(cr, dimensions);
    }
}

proof fn lemma_pframe_fits<C: Fn(Plane, &Block<i16>) -> Block<i16>>(
    code: C,
    frame: Picture<i16>,
    previous: Picture<i16>,
    coded: Seq<PMacroBlock<i16>>,
)
    requires
        is_sound_frame(frame),
        frame.dimensions.width * frame.dimensions.height <= few_blocks(),
        pframe::are_macroblocks(code, frame, previous, coded),
    ensures
        fits_block(items_bytes::<PMacroBlock<i16>>(models(coded))),
{
    let mvs = choose|mvs: Seq<Vec<(Prediction, i16)>>|
        {
            &&& #[trigger] pframe::are_backward_vectors(
                frame.y,
                previous.y,
                frame.dimensions,
                mvs,
            )
            &&& are_coded_areas(code, frame, None, previous, mvs, coded)
        };
    pframe::lemma_vector_grid(frame.y, previous.y, frame.dimensions, mvs);
    lemma_areas_few(frame.dimensions, mvs, places(mvs));
    vstd::arithmetic::mul::lemma_mul_is_commutative(
        frame.dimensions.width as int,
        frame.dimensions.height as int,
    );
    let items = models(coded);
    assert forall|j: int| 0 <= j < items.len() implies <PMacroBlock<
        i16,
    > as ToBytes>::bytes_of(#[trigger] items[j]).len() <= most_bytes() by {
        let m = coded[j];
        lemma_residuals_len(code, frame, None, previous, mvs, coded, j);
        lemma_location_len(m.location);
        lemma_vector_len(m.mv);
        assert(items[j] == m.model());
        assert(m.missed() == m.residuals);
    }
    lemma_items_len::<PMacroBlock<i16>>(items, most_bytes());
    lemma_few_bytes(items.len() as int, items_bytes::<PMacroBlock<i16>>(items));
}

proof fn lemma_bframe_fits<C: Fn(Plane, &Block<i16>) -> Block<i16>>(
    code: C,
    frame: Picture<i16>,
    forward: Option<Picture<i16>>,
    backward: Picture<i16>,
    coded: Seq<BMacroBlock<i16>>,
)
    requires
        is_sound_frame(frame),
        frame.dimensions.width * frame.dimensions.height <= few_blocks(),
        bframe::are_macroblocks(code, frame, forward, backward, coded),
    ensures
        fits_block(items_bytes::<BMacroBlock<i16>>(models(coded))),
{
    let luma = bframe::luma(forward);
    let mvs = choose|mvs: Seq<Vec<(Prediction, i16)>>|
        {
            &&& #[trigger] bframe::are_vectors(frame.y, luma, backward.y, frame.dimensions, mvs)
            &&& are_coded_areas(code, frame, forward, backward, mvs, coded)
        };
    bframe::lemma_vector_grid(frame.y, luma, backward.y, frame.dimensions, mvs);
    lemma_areas_few(frame.dimensions, mvs, places(mvs));
    vstd::arithmetic::mul::lemma_mul_is_commutative(
        frame.dimensions.width as int,
        frame.dimensions.height as int,
    );
    let items = models(coded);
    assert forall|j: int| 0 <= j < items.len() implies <BMacroBlock<
        i16,
    > as ToBytes>::bytes_of(#[trigger] items[j]).len() <= most_bytes() by {
        let m = coded[j];
        lemma_residuals_len(code, frame, forward, backward, mvs, coded, j);
        lemma_location_len(m.location);
        match m.prediction {
            Prediction::Forward(mv) => {
                lemma_vector_len(mv);
            },
            Prediction::Backward(mv) => {
                lemma_vector_len(mv);
            },
            Prediction::Both { forward, backward } => {
                lemma_vector_len(forward);
                lemma_vector_len(backward);
            },
        }
        assert(items[j] == m.model());
        assert(m.missed() == m.residuals);
    }
    lemma_items_len::<BMacroBlock<i16>>(items, most_bytes());
    lemma_few_bytes(items.len() as int, items_bytes::<BMacroBlock<i16>>(items));
}

} // verus!
