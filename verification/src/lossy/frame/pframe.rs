//! Frames that are predicted from the frame before.
use vstd::prelude::*;

use super::assembly::{
    all_fit, at_most, chroma_width, fits, gives_back, index_at, is_assembled, is_touched,
    reassemble_frame,
};
use super::coding::{
    all_close, are_coded_areas, area_residuals, is_coded_area, is_full, law_frame_comes_back,
};
use super::compression::{
    compressed, compressed_motion_vectors, is_vector_grid, law_every_block_is_in_an_area,
    lemma_areas_inside, places,
};
use super::grid::{cell, covers, lemma_cell};
use super::macroblock::block_location::{chroma_col, chroma_row, to_chroma_row, BlockLocation};
use super::macroblock::bmacro::Prediction;
use super::macroblock::pmacro::{PMacroBlock, PMacroBlocks};
use super::macroblock::AssemblableMacroBlock;
use super::motion_vector::depth16;
use super::motion_vector::search::{
    found, law_no_diamond_block_is_closer, law_score_is_the_distance, law_unchanged_block_stays,
};
use super::motion_vector::MotionVector;
use super::prediction::{
    cols, count, is_area, lemma_place_at, lemma_place_number, place_at, predicted, rows, Plane,
};
use crate::bits::padded;
use crate::bitstream::{BitStreamReader, BitStreamWriter};
use crate::block::{abs_difference, Block};
use crate::color::Subsampling;
use crate::dimensions::BlockDimensions;
use crate::encoders::ans::{
    behind_block, block_payload, compressed_bits, holds_block, is_kept, items_bytes,
    lz4_decompressed, lz4_refused, models, parsed_items,
};
use crate::error::{is_eof, Result};
use crate::lossy::{Picture, SubSampleBlockGroup, SubSampleBlockGroupRef};
use crate::numeric::lemma_place_parts;
use crate::parallel::{par_map, par_map_range};
use crate::point::Point;

verus! {

/// A frame and the frame before it.
pub struct PFrame<'a, T> {
    pub current: SubSampleBlockGroupRef<'a, T>,
    pub previous: SubSampleBlockGroupRef<'a, T>,
}

/// Where the block of a place came from. Where one of the two frames has no
/// block there, it did not move.
pub open spec fn backward_vector(
    current: Seq<Block<i16>>,
    channel: Seq<Block<i16>>,
    dimensions: BlockDimensions,
    row: int,
    col: int,
) -> (Prediction, int) {
    let at = cell(dimensions, row, col);
    if at < current.len() && at < channel.len() {
        let best = found(
            current[at],
            channel,
            dimensions,
            Point { row: row as usize, col: col as usize },
        );
        (Prediction::Backward(best.0), best.1)
    } else {
        (Prediction::Backward(MotionVector { x: 0, y: 0 }), 0)
    }
}

/// A row of vectors.
pub open spec fn is_backward_row(
    current: Seq<Block<i16>>,
    channel: Seq<Block<i16>>,
    dimensions: BlockDimensions,
    row: int,
    mvs: Seq<(Prediction, i16)>,
) -> bool {
    &&& mvs.len() == dimensions.width
    &&& forall|col: int|
        0 <= col < mvs.len() ==> {
            let best = backward_vector(current, channel, dimensions, row, col);
            (#[trigger] mvs[col]).0 == best.0 && mvs[col].1 == best.1
        }
}

/// The vectors of all blocks of a frame.
pub open spec fn are_backward_vectors(
    current: Seq<Block<i16>>,
    channel: Seq<Block<i16>>,
    dimensions: BlockDimensions,
    mvs: Seq<Vec<(Prediction, i16)>>,
) -> bool {
    &&& mvs.len() == dimensions.height
    &&& forall|row: int|
        0 <= row < mvs.len() ==> is_backward_row(
            current,
            channel,
            dimensions,
            row,
            (#[trigger] mvs[row])@,
        )
}

/// A frame with at least one row of blocks that can be counted.
pub open spec fn has_rows(dimensions: BlockDimensions) -> bool {
    dimensions.height > 0 && dimensions.width * dimensions.height <= usize::MAX
}

/// The macroblocks of a frame: one for every area of blocks that moved alike.
pub open spec fn are_macroblocks<C: Fn(Plane, &Block<i16>) -> Block<i16>>(
    code: C,
    current: Picture<i16>,
    previous: Picture<i16>,
    r: Seq<PMacroBlock<i16>>,
) -> bool {
    exists|mvs: Seq<Vec<(Prediction, i16)>>|
        {
            &&& #[trigger] are_backward_vectors(current.y, previous.y, current.dimensions, mvs)
            &&& are_coded_areas(code, current, None, previous, mvs, r)
        }
}

/// An area can be predicted from the frame before.
spec fn is_backward_area(area: ((Prediction, i16), BlockLocation)) -> bool {
    (area.0).0 is Backward && is_area(area.1)
}

/// The vectors make a grid.
pub(crate) proof fn lemma_vector_grid(
    current: Seq<Block<i16>>,
    channel: Seq<Block<i16>>,
    dimensions: BlockDimensions,
    mvs: Seq<Vec<(Prediction, i16)>>,
)
    requires
        has_rows(dimensions),
        are_backward_vectors(current, channel, dimensions, mvs),
    ensures
        is_vector_grid(mvs),
        mvs.len() == dimensions.height,
        mvs[0]@.len() == dimensions.width,
{
    assert(is_backward_row(current, channel, dimensions, 0, mvs[0]@));
    assert forall|r: int| 0 <= r < mvs.len() implies (#[trigger] mvs[r])@.len()
        == mvs[0]@.len() by {
        assert(is_backward_row(current, channel, dimensions, r, mvs[r]@));
    }
    vstd::arithmetic::mul::lemma_mul_is_commutative(
        dimensions.width as int,
        dimensions.height as int,
    );
}

/// Every area can be predicted from the frame before.
proof fn lemma_backward_areas(
    current: Seq<Block<i16>>,
    channel: Seq<Block<i16>>,
    dimensions: BlockDimensions,
    mvs: Seq<Vec<(Prediction, i16)>>,
    j: int,
)
    requires
        has_rows(dimensions),
        are_backward_vectors(current, channel, dimensions, mvs),
        0 <= j < compressed(dimensions, mvs, places(mvs)).len(),
    ensures
        is_backward_area(compressed(dimensions, mvs, places(mvs))[j]),
{
    lemma_vector_grid(current, channel, dimensions, mvs);
    lemma_areas_inside(dimensions, mvs, j, places(mvs));
    let area = compressed(dimensions, mvs, places(mvs))[j];
    let row = area.1.start.row as int;
    assert(is_backward_row(current, channel, dimensions, row, mvs[row]@));
    assert(count(area.1) <= 4) by (nonlinear_arith)
        requires
            count(area.1) == rows(area.1) * cols(area.1),
            0 <= rows(area.1) <= 2,
            0 <= cols(area.1) <= 2,
    ;
}

impl<'a> PFrame<'a, i16> {
    /// A frame and the frame before it.
    pub fn new(
        current: SubSampleBlockGroupRef<'a, i16>,
        previous: SubSampleBlockGroupRef<'a, i16>,
    ) -> (r: Self)
        ensures
            r.current == current,
            r.previous == previous,
    {
        PFrame { current, previous }
    }

    /// Finds the vectors of a row of blocks.
    fn motion_row(&self, dimensions: &BlockDimensions, channel: &[Block<i16>], row: usize) -> (r:
        Vec<(Prediction, i16)>)
        requires
            row < dimensions.height,
            dimensions.width * dimensions.height <= usize::MAX,
        ensures
            is_backward_row(self.current.y@, channel@, *dimensions, row as int, r@),
    {
        let mut r: Vec<(Prediction, i16)> = Vec::new();
        let mut col: usize = 0;
        while col < dimensions.width
            invariant
                col <= dimensions.width,
                row < dimensions.height,
                dimensions.width * dimensions.height <= usize::MAX,
                r@.len() == col,
                forall|c: int|
                    0 <= c < col ==> {
                        let best = backward_vector(
                            self.current.y@,
                            channel@,
                            *dimensions,
                            row as int,
                            c,
                        );
                        (#[trigger] r@[c]).0 == best.0 && r@[c].1 == best.1
                    },
            decreases dimensions.width - col,
        {
            proof {
                lemma_cell(*dimensions, row as int, col as int);
            }
            let at: usize = row * dimensions.width + col;
            if at < self.current.y.len() && at < channel.len() {
                let (mv, cost) = depth16::ldsp_blocks(
                    &self.current.y[at],
                    channel,
                    dimensions,
                    Point { row, col },
                );
                r.push((Prediction::Backward(mv), cost));
            } else {
                r.push((Prediction::Backward(MotionVector { x: 0, y: 0 }), 0));
            }
            col = col + 1;
        }
        r
    }

    /// Finds the vectors of all blocks.
    pub fn motion_vectors(&self, dimensions: &BlockDimensions, channel: &[Block<i16>]) -> (r: Vec<
        Vec<(Prediction, i16)>,
    >)
        requires
            dimensions.width * dimensions.height <= usize::MAX,
        ensures
            are_backward_vectors(self.current.y@, channel@, *dimensions, r@),
    {
        let search = |row: usize| -> (mvs: Vec<(Prediction, i16)>)
            requires
                row < dimensions.height,
                dimensions.width * dimensions.height <= usize::MAX
            ensures
                is_backward_row(self.current.y@, channel@, *dimensions, row as int, mvs@)
            { self.motion_row(dimensions, channel, row) };
        let r = par_map_range(dimensions.height, search);
        proof {
            assert forall|row: int| 0 <= row < r@.len() implies is_backward_row(
                self.current.y@,
                channel@,
                *dimensions,
                row,
                (#[trigger] r@[row])@,
            ) by {
                assert(call_ensures(search, (row as usize,), r@[(row as usize) as int]));
            }
        }
        r
    }

    /// The macroblock of one area.
    fn macroblock<C: Fn(Plane, &Block<i16>) -> Block<i16>>(
        &self,
        area: &((Prediction, i16), BlockLocation),
        code: &C,
    ) -> (r: PMacroBlock<i16>)
        requires
            is_backward_area(*area),
            forall|plane: Plane, b: Block<i16>| #[trigger] call_requires(*code, (plane, &b)),
        ensures
            is_coded_area(*code, self.current@, None, self.previous@, *area, r),
    {
        let prediction = area.0.0;
        let location = area.1;
        let mv = match prediction {
            Prediction::Backward(mv) => mv,
            Prediction::Forward(mv) => mv,
            Prediction::Both { forward, backward } => backward,
        };
        let residuals = area_residuals(&self.current, None, &self.previous, area, code);
        PMacroBlock { location, mv, residuals }
    }

    /// The macroblocks of the frame. `code` transforms what a prediction
    /// missed.
    pub fn get_macroblocks<C: Fn(Plane, &Block<i16>) -> Block<i16> + Sync + Send>(
        &self,
        code: &C,
    ) -> (r: Vec<PMacroBlock<i16>>)
        requires
            has_rows(self.current.dimensions),
            forall|plane: Plane, b: Block<i16>| #[trigger] call_requires(*code, (plane, &b)),
        ensures
            are_macroblocks(*code, self.current@, self.previous@, r@),
    {
        let mvs = self.motion_vectors(&self.current.dimensions, self.previous.y);
        proof {
            lemma_vector_grid(self.current.y@, self.previous.y@, self.current.dimensions, mvs@);
        }
        let areas = compressed_motion_vectors(mvs.as_slice(), &self.current.dimensions);
        let make = |area: &((Prediction, i16), BlockLocation)| -> (m: PMacroBlock<i16>)
            requires
                is_backward_area(*area),
                forall|plane: Plane, b: Block<i16>| #[trigger] call_requires(*code, (plane, &b))
            ensures
                is_coded_area(*code, self.current@, None, self.previous@, *area, m)
            { self.macroblock(area, code) };
        proof {
            assert forall|i: int| 0 <= i < areas@.len() implies call_requires(
                make,
                (&#[trigger] areas@[i],),
            ) by {
                lemma_backward_areas(
                    self.current.y@,
                    self.previous.y@,
                    self.current.dimensions,
                    mvs@,
                    i,
                );
            }
        }
        let r = par_map(areas.as_slice(), make);
        proof {
            assert(are_backward_vectors(
                self.current@.y,
                self.previous@.y,
                self.current@.dimensions,
                mvs@,
            ));
            assert forall|j: int| 0 <= j < r@.len() implies is_coded_area(
                *code,
                self.current@,
                None,
                self.previous@,
                areas@[j],
                #[trigger] r@[j],
            ) by {
                assert(call_ensures(make, (&areas@[j],), r@[j]));
            }
            assert(are_coded_areas(*code, self.current@, None, self.previous@, mvs@, r@));
        }
        r
    }

    /// Writes the frame.
    pub fn encode<C: Fn(Plane, &Block<i16>) -> Block<i16> + Sync + Send>(
        &self,
        code: &C,
        stream: &mut BitStreamWriter,
    ) -> (r: Result<()>)
        requires
            has_rows(self.current.dimensions),
            forall|plane: Plane, b: Block<i16>| #[trigger] call_requires(*code, (plane, &b)),
        ensures
            r is Ok,
            exists|macro_blocks: Seq<PMacroBlock<i16>>|
                {
                    &&& #[trigger] are_macroblocks(
                        *code,
                        self.current@,
                        self.previous@,
                        macro_blocks,
                    )
                    &&& is_kept(items_bytes::<PMacroBlock<i16>>(models(macro_blocks)))
                    &&& final(stream)@ == padded(old(stream)@) + compressed_bits(
                        items_bytes::<PMacroBlock<i16>>(models(macro_blocks)),
                    )
                },
    {
        let macro_blocks = self.get_macroblocks(code);
        let list = PMacroBlocks::new(macro_blocks);
        assert(are_macroblocks(*code, self.current@, self.previous@, list@));
        list.encode(stream)
    }

    /// Reads the macroblocks of a frame.
    pub fn decode(stream: &mut BitStreamReader) -> (r: Result<PMacroBlocks<i16>>)
        ensures
            !holds_block(old(stream)@) ==> is_eof(r),
            holds_block(old(stream)@) ==> {
                let payload = block_payload(old(stream)@);
                &&& final(stream)@ == behind_block(old(stream)@)
                &&& !final(stream).ran_out()
                &&& lz4_decompressed(payload) is Err ==> lz4_refused(r, payload)
                &&& lz4_decompressed(payload) is Ok ==> {
                    let items = parsed_items::<PMacroBlock<i16>>(lz4_decompressed(payload)->Ok_0);
                    &&& items is Some ==> r is Ok && models((r->Ok_0)@) == items->0
                    &&& items is None ==> r is Err && r->Err_0 is InvalidData
                }
            },
    {
        PMacroBlocks::decode(stream)
    }

    /// Puts a frame together from the frame before and its macroblocks.
    /// `restore` takes a prediction and a residual back through the transform.
    pub fn reassemble<F: Fn(Plane, &Block<i16>, &Block<i16>) -> Block<i16>>(
        previous_frame: &SubSampleBlockGroupRef<'_, i16>,
        macro_blocks: &[PMacroBlock<i16>],
        restore: &F,
    ) -> (r: Result<SubSampleBlockGroup<i16>>)
        requires
            all_fit(macro_blocks@, previous_frame@, false),
            forall|plane: Plane, p: Block<i16>, b: Block<i16>| #[trigger]
                call_requires(*restore, (plane, &p, &b)),
        ensures
            r is Ok,
            is_assembled(*restore, None, previous_frame@, macro_blocks@, r->Ok_0@),
    {
        reassemble_frame(None, previous_frame, macro_blocks, restore)
    }
}

/// A frame that is coded and put together again comes back, block by block, as
/// close as the transform gives back single blocks: all luma blocks, and all
/// chroma blocks, unless the chroma planes have a quarter of the columns.
pub proof fn law_pframe_comes_back<
    C: Fn(Plane, &Block<i16>) -> Block<i16>,
    F: Fn(Plane, &Block<i16>, &Block<i16>) -> Block<i16>,
>(
    code: C,
    restore: F,
    current: Picture<i16>,
    previous: Picture<i16>,
    macro_blocks: Seq<PMacroBlock<i16>>,
    r: Picture<i16>,
    close: spec_fn(Seq<i16>, Seq<i16>) -> bool,
)
    requires
        has_rows(current.dimensions),
        is_full(current),
        is_full(previous),
        previous.dimensions == current.dimensions,
        previous.subsampling == current.subsampling,
        are_macroblocks(code, current, previous, macro_blocks),
        is_assembled(restore, None, previous, macro_blocks, r),
        gives_back(code, restore, Plane::Luma, close),
        gives_back(code, restore, Plane::Chroma, close),
    ensures
        all_close(current.y, r.y, close),
        current.subsampling != Subsampling::Sample411 ==> all_close(current.cb, r.cb, close)
            && all_close(current.cr, r.cr, close),
{
    let mvs = choose|mvs: Seq<Vec<(Prediction, i16)>>|
        {
            &&& #[trigger] are_backward_vectors(current.y, previous.y, current.dimensions, mvs)
            &&& are_coded_areas(code, current, None, previous, mvs, macro_blocks)
        };
    lemma_vector_grid(current.y, previous.y, current.dimensions, mvs);
    law_frame_comes_back(
        code,
        restore,
        current,
        None,
        previous,
        mvs,
        macro_blocks,
        r,
        close,
    );
}

/// The number of blocks of a chroma plane that the macroblocks of a frame of some
/// size reach.
pub open spec fn reached(dimensions: BlockDimensions, subsampling: Subsampling) -> int {
    (chroma_row(dimensions.height - 1, subsampling) + 1) * dimensions.subsampled(subsampling).width
}

/// Whether a frame of the same size can be predicted from a frame: of the blocks
/// that are reached, the Cr plane has those that the Cb plane has.
pub open spec fn can_precede(previous: Picture<i16>) -> bool {
    at_most(previous.cb.len() as int, reached(previous.dimensions, previous.subsampling))
        <= previous.cr.len()
}

/// Tells whether a frame of the same size can be predicted from a frame.
pub fn can_predict(previous: &SubSampleBlockGroupRef<'_, i16>) -> (r: bool)
    requires
        previous.dimensions.height > 0,
    ensures
        r == can_precede(previous@),
{
    let rows: u128 = to_chroma_row(previous.dimensions.height - 1, previous.subsampling) as u128
        + 1;
    let width: usize = previous.dimensions.subsample(previous.subsampling).width;
    proof {
        assert(0 <= rows * width <= (u64::MAX + 1) * u64::MAX) by (nonlinear_arith)
            requires
                0 <= rows <= u64::MAX + 1,
                0 <= width <= u64::MAX,
        ;
    }
    let all: u128 = rows * width as u128;
    previous.cb.len() <= previous.cr.len() || all <= previous.cr.len() as u128
}

/// A chroma block that macroblocks of a frame reach lies over one of its luma
/// blocks.
proof fn lemma_luma_of_reached(
    dimensions: BlockDimensions,
    subsampling: Subsampling,
    t: int,
) -> (place: (int, int))
    requires
        dimensions.height > 0,
        0 <= t < reached(dimensions, subsampling),
    ensures
        0 <= place.0 < dimensions.height,
        0 <= place.1 < dimensions.width,
        ({
            let width = dimensions.subsampled(subsampling).width as int;
            &&& width > 0
            &&& t == chroma_row(place.0, subsampling) * width + chroma_col(place.1, subsampling)
        }),
{
    let width = dimensions.subsampled(subsampling).width as int;
    let rows = chroma_row(dimensions.height - 1, subsampling) + 1;
    assert(width > 0) by (nonlinear_arith)
        requires
            0 < rows * width,
            0 <= rows,
            0 <= width,
    ;
    lemma_place_parts(t, width);
    let row = t / width;
    let col = t % width;
    assert(row < rows) by (nonlinear_arith)
        requires
            row * width <= t,
            t < rows * width,
            0 < width,
    ;
    let down: int = match subsampling {
        Subsampling::Sample420 | Subsampling::Sample411 => 2,
        _ => 1,
    };
    let across: int = match subsampling {
        Subsampling::Sample420 | Subsampling::Sample422 => 2,
        Subsampling::Sample411 => 4,
        _ => 1,
    };
    (down * row, across * col)
}

/// The macroblocks of a frame can be laid down over the frame that they are
/// predicted from exactly where a frame of its size can be predicted from it.
pub proof fn law_predicted_frames_fit<C: Fn(Plane, &Block<i16>) -> Block<i16>>(
    code: C,
    current: Picture<i16>,
    previous: Picture<i16>,
    macro_blocks: Seq<PMacroBlock<i16>>,
)
    requires
        has_rows(current.dimensions),
        current.dimensions == previous.dimensions,
        are_macroblocks(code, current, previous, macro_blocks),
    ensures
        all_fit(macro_blocks, previous, false) <==> can_precede(previous),
{
    let dimensions = current.dimensions;
    let half = previous.subsampling;
    let width = chroma_width(previous);
    let mvs = choose|mvs: Seq<Vec<(Prediction, i16)>>|
        {
            &&& #[trigger] are_backward_vectors(current.y, previous.y, current.dimensions, mvs)
            &&& are_coded_areas(code, current, None, previous, mvs, macro_blocks)
        };
    lemma_vector_grid(current.y, previous.y, dimensions, mvs);
    let areas = compressed(dimensions, mvs, places(mvs));
    if can_precede(previous) {
        assert forall|j: int| 0 <= j < macro_blocks.len() implies fits(
            #[trigger] macro_blocks[j],
            previous,
            false,
        ) by {
            let m = macro_blocks[j];
            let location = m.at().mapped_to_chroma(half);
            assert(is_coded_area(code, current, None, previous, areas[j], m));
            lemma_areas_inside(dimensions, mvs, j, places(mvs));
            lemma_backward_areas(current.y, previous.y, dimensions, mvs, j);
            assert forall|k: int| #[trigger] is_touched(location, previous, k) implies index_at(
                location,
                width,
                k,
            ) < previous.cr.len() by {
                lemma_place_at(location, k);
                let row = place_at(location, k).row as int;
                let col = place_at(location, k).col as int;
                let rows = chroma_row(dimensions.height - 1, half) + 1;
                assert(row < rows);
                assert(col < width);
                assert(row * width + col < rows * width) by (nonlinear_arith)
                    requires
                        0 <= row < rows,
                        0 <= col < width,
                ;
            }
        }
    } else {
        let t = previous.cr.len() as int;
        let (row, col) = lemma_luma_of_reached(dimensions, half, t);
        law_every_block_is_in_an_area(dimensions, mvs, row, col);
        let j = choose|j: int| 0 <= j < areas.len() && covers((#[trigger] areas[j]).1, row, col);
        let m = macro_blocks[j];
        assert(is_coded_area(code, current, None, previous, areas[j], m));
        let location = m.at().mapped_to_chroma(half);
        let chroma = (chroma_row(row, half), chroma_col(col, half));
        lemma_place_number(location, chroma.0, chroma.1);
        let k = (chroma.0 - location.start.row) * cols(location) + (chroma.1 - location.start.col);
        assert(index_at(location, width, k) == t);
        assert(is_touched(location, previous, k));
        assert(!fits(m, previous, false));
    }
}

/// A frame that is the same as the frame before does not move.
pub proof fn law_unchanged_frame_stays<C: Fn(Plane, &Block<i16>) -> Block<i16>>(
    code: C,
    current: Picture<i16>,
    previous: Picture<i16>,
    macro_blocks: Seq<PMacroBlock<i16>>,
)
    requires
        has_rows(current.dimensions),
        current.y == previous.y,
        are_macroblocks(code, current, previous, macro_blocks),
    ensures
        forall|j: int|
            0 <= j < macro_blocks.len() ==> (#[trigger] macro_blocks[j]).mv == (MotionVector {
                x: 0,
                y: 0,
            }),
{
    let dimensions = current.dimensions;
    let mvs = choose|mvs: Seq<Vec<(Prediction, i16)>>|
        {
            &&& #[trigger] are_backward_vectors(current.y, previous.y, current.dimensions, mvs)
            &&& are_coded_areas(code, current, None, previous, mvs, macro_blocks)
        };
    lemma_vector_grid(current.y, previous.y, dimensions, mvs);
    let areas = compressed(dimensions, mvs, places(mvs));
    assert forall|j: int| 0 <= j < macro_blocks.len() implies (#[trigger] macro_blocks[j]).mv == (
    MotionVector { x: 0, y: 0 }) by {
        assert(is_coded_area(code, current, None, previous, areas[j], macro_blocks[j]));
        lemma_areas_inside(dimensions, mvs, j, places(mvs));
        let start = areas[j].1.start;
        let row = start.row as int;
        let col = start.col as int;
        lemma_cell(dimensions, row, col);
        assert(is_backward_row(current.y, previous.y, dimensions, row, mvs[row]@));
        assert(mvs[row]@[col].0 == backward_vector(
            current.y,
            previous.y,
            dimensions,
            row,
            col,
        ).0);
        if cell(dimensions, row, col) < current.y.len() {
            law_unchanged_block_stays(
                current.y[cell(dimensions, row, col)],
                previous.y,
                dimensions,
                start,
            );
        }
    }
}

/// Every place of the grid has the vector of its own block: one that leads to a block of
/// the frame before that is as far away as the cost says, and no further than the block
/// at the same place. Without a block in both frames a place stays where it is.
pub proof fn law_vectors_belong_to_their_blocks(
    current: Seq<Block<i16>>,
    channel: Seq<Block<i16>>,
    dimensions: BlockDimensions,
    mvs: Seq<Vec<(Prediction, i16)>>,
    row: int,
    col: int,
)
    requires
        are_backward_vectors(current, channel, dimensions, mvs),
        0 <= row < dimensions.height,
        0 <= col < dimensions.width,
    ensures
        ({
            let at = row * dimensions.width + col;
            let r = mvs[row]@[col];
            &&& mvs.len() == dimensions.height
            &&& mvs[row]@.len() == dimensions.width
            &&& 0 <= at
            &&& at < current.len() && at < channel.len() ==> {
                let there = predicted(
                    Point { row: row as usize, col: col as usize },
                    r.0,
                    dimensions,
                    channel,
                    Seq::empty(),
                );
                &&& r.0 is Backward
                &&& r.1 <= abs_difference(current[at]@, channel[at]@, 64)
                &&& r.1 < 32767 ==> r.1 == abs_difference(current[at]@, there, 64)
            }
            &&& at >= current.len() || at >= channel.len() ==> r == (
                Prediction::Backward(MotionVector { x: 0, y: 0 }),
                0i16,
            )
        }),
{
    let at = row * dimensions.width + col;
    let point = Point { row: row as usize, col: col as usize };
    assert(is_backward_row(current, channel, dimensions, row, mvs[row]@));
    let r = mvs[row]@[col];
    crate::numeric::lemma_place(row, col, dimensions.width as int);
    if at < current.len() && at < channel.len() {
        let best = found(current[at], channel, dimensions, point);
        law_no_diamond_block_is_closer(current[at], channel, dimensions, point, 0, 0);
        law_score_is_the_distance(current[at], channel, dimensions, point);
        assert(0 <= point.row + best.0.y ==> 0 <= (point.row + best.0.y) * dimensions.width)
            by (nonlinear_arith)
            requires
                0 <= dimensions.width,
        ;
    }
}

} // verus!
