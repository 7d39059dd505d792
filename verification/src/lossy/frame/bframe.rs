//! Frames that are predicted from the frames on both sides.
use vstd::prelude::*;

use super::assembly::{all_fit, base_of, gives_back, is_assembled, reassemble_frame};
use super::coding::{
    all_close, are_coded_areas, area_residuals, is_coded_area, is_full, law_frame_comes_back,
};
use super::compression::{
    compressed, compressed_motion_vectors, is_vector_grid, lemma_areas_inside, places,
};
use super::grid::{cell, lemma_cell};
use super::macroblock::block_location::BlockLocation;
use super::macroblock::bmacro::{BMacroBlock, BMacroBlocks, Prediction};
use super::macroblock::AssemblableMacroBlock;
use super::motion_vector::depth16;
use super::motion_vector::search::{
    found, law_no_diamond_block_is_closer, law_score_is_the_distance, law_unchanged_block_stays,
};
use super::motion_vector::MotionVector;
use super::pframe::has_rows;
use super::prediction::{
    all_places, cb_of, cols, count, cr_of, is_area, looks_ahead, luma_of, mean, mean_block,
    predicted, predicted_places, predictions, rows, scaled, Plane,
};
use crate::bits::padded;
use crate::bitstream::{BitStreamReader, BitStreamWriter};
use crate::block::{abs_difference, Block};
use crate::color::Subsampling;
use crate::dimensions::BlockDimensions;
use crate::encoders::ans::{
    behind_block, block_payload, compressed_bits, holds_block, is_kept, items_bytes,
    lz4_decompressed, lz4_refused, models, parsed_items,
};
use crate::error::{is_eof, Result};
use crate::lossy::{picture_of, Picture, SubSampleBlockGroup, SubSampleBlockGroupRef};
use crate::parallel::{par_map, par_map_range};
use crate::point::Point;

verus! {

/// A frame, the frame that follows, if there is one, and the frame before.
pub struct BFrame<'a, T> {
    pub current: SubSampleBlockGroupRef<'a, T>,
    pub forward_ref: Option<SubSampleBlockGroupRef<'a, T>>,
    pub backward_ref: SubSampleBlockGroupRef<'a, T>,
}

/// What a mean of two frames costs on top.
pub const BOTH_PENALTY: i64 = 50;

/// What a lone frame costs on top, where a mean of two was asked for.
pub const LONE_PENALTY: i64 = 25;

/// A cost that fits in a number.
pub open spec fn bounded(cost: int) -> int {
    if cost < i16::MAX {
        cost
    } else {
        i16::MAX as int
    }
}

/// The larger of a number and zero.
pub open spec fn not_negative(n: int) -> int {
    if n < 0 {
        0
    } else {
        n
    }
}

/// The index that a vector points to. Rows and columns before the first one
/// count as the first one.
pub open spec fn vector_index(point: Point, mv: MotionVector, dimensions: BlockDimensions) -> int {
    not_negative(point.row + mv.y) * dimensions.width + not_negative(point.col + mv.x)
}

/// What the mean of the blocks that two vectors point to costs. Without a frame
/// that follows, what the block before costs.
pub open spec fn bidirectional_cost(
    current: Block<i16>,
    dimensions: BlockDimensions,
    point: Point,
    forward_mv: MotionVector,
    backward_mv: MotionVector,
    forward: Option<Seq<Block<i16>>>,
    backward: Seq<Block<i16>>,
) -> int {
    let behind = vector_index(point, backward_mv, dimensions);
    match forward {
        Some(forward) => {
            let ahead = vector_index(point, forward_mv, dimensions);
            if ahead >= forward.len() || behind >= backward.len() {
                i16::MAX as int
            } else {
                bounded(
                    abs_difference(current@, mean(forward[ahead]@, backward[behind]@), 64)
                        + BOTH_PENALTY,
                )
            }
        },
        None => if behind >= backward.len() {
            i16::MAX as int
        } else {
            bounded(abs_difference(current@, backward[behind]@, 64) + LONE_PENALTY)
        },
    }
}

/// The cheapest prediction of a block. The frame that follows comes before the
/// frame before, and both before their mean, where they cost the same.
pub open spec fn cheapest(
    current: Block<i16>,
    dimensions: BlockDimensions,
    point: Point,
    forward: Option<Seq<Block<i16>>>,
    backward: Seq<Block<i16>>,
) -> (Prediction, int) {
    let behind = found(current, backward, dimensions, point);
    match forward {
        None => (Prediction::Backward(behind.0), behind.1),
        Some(frame) => {
            let ahead = found(current, frame, dimensions, point);
            let both = bidirectional_cost(
                current,
                dimensions,
                point,
                ahead.0,
                behind.0,
                forward,
                backward,
            );
            if ahead.1 <= behind.1 && ahead.1 <= both {
                (Prediction::Forward(ahead.0), ahead.1)
            } else if behind.1 <= both {
                (Prediction::Backward(behind.0), behind.1)
            } else {
                (Prediction::Both { forward: ahead.0, backward: behind.0 }, both)
            }
        },
    }
}

/// The picture of an optional frame.
pub open spec fn forward_picture<'a>(
    forward: Option<SubSampleBlockGroupRef<'a, i16>>,
) -> Option<Picture<i16>> {
    match forward {
        Some(forward) => Some(forward@),
        None => None,
    }
}

/// The luma plane of an optional frame.
pub open spec fn luma(picture: Option<Picture<i16>>) -> Option<Seq<Block<i16>>> {
    match picture {
        Some(picture) => Some(picture.y),
        None => None,
    }
}

/// A row of vectors. A place without a block does not move.
pub open spec fn is_vector_row(
    current: Seq<Block<i16>>,
    forward: Option<Seq<Block<i16>>>,
    backward: Seq<Block<i16>>,
    dimensions: BlockDimensions,
    row: int,
    mvs: Seq<(Prediction, i16)>,
) -> bool {
    &&& mvs.len() == dimensions.width
    &&& forall|col: int|
        0 <= col < mvs.len() ==> {
            let at = cell(dimensions, row, col);
            let best = if at < current.len() {
                cheapest(
                    current[at],
                    dimensions,
                    Point { row: row as usize, col: col as usize },
                    forward,
                    backward,
                )
            } else {
                (Prediction::Backward(MotionVector { x: 0, y: 0 }), 0)
            };
            (#[trigger] mvs[col]).0 == best.0 && mvs[col].1 == best.1
        }
}

/// The vectors of all blocks of a frame.
pub open spec fn are_vectors(
    current: Seq<Block<i16>>,
    forward: Option<Seq<Block<i16>>>,
    backward: Seq<Block<i16>>,
    dimensions: BlockDimensions,
    mvs: Seq<Vec<(Prediction, i16)>>,
) -> bool {
    &&& mvs.len() == dimensions.height
    &&& forall|row: int|
        0 <= row < mvs.len() ==> is_vector_row(
            current,
            forward,
            backward,
            dimensions,
            row,
            (#[trigger] mvs[row])@,
        )
}

/// The macroblocks of a frame: one for every area of blocks that are predicted
/// alike.
pub open spec fn are_macroblocks<C: Fn(Plane, &Block<i16>) -> Block<i16>>(
    code: C,
    current: Picture<i16>,
    forward: Option<Picture<i16>>,
    backward: Picture<i16>,
    r: Seq<BMacroBlock<i16>>,
) -> bool {
    exists|mvs: Seq<Vec<(Prediction, i16)>>|
        {
            &&& #[trigger] are_vectors(
                current.y,
                luma(forward),
                backward.y,
                current.dimensions,
                mvs,
            )
            &&& are_coded_areas(code, current, forward, backward, mvs, r)
        }
}

/// The vectors make a grid.
pub(crate) proof fn lemma_vector_grid(
    current: Seq<Block<i16>>,
    forward: Option<Seq<Block<i16>>>,
    backward: Seq<Block<i16>>,
    dimensions: BlockDimensions,
    mvs: Seq<Vec<(Prediction, i16)>>,
)
    requires
        has_rows(dimensions),
        are_vectors(current, forward, backward, dimensions, mvs),
    ensures
        is_vector_grid(mvs),
        mvs.len() == dimensions.height,
        mvs[0]@.len() == dimensions.width,
{
    assert(is_vector_row(current, forward, backward, dimensions, 0, mvs[0]@));
    assert forall|r: int| 0 <= r < mvs.len() implies (#[trigger] mvs[r])@.len()
        == mvs[0]@.len() by {
        assert(is_vector_row(current, forward, backward, dimensions, r, mvs[r]@));
    }
    vstd::arithmetic::mul::lemma_mul_is_commutative(
        dimensions.width as int,
        dimensions.height as int,
    );
}

/// An area can be predicted from the frames that are there.
spec fn is_known_area(area: ((Prediction, i16), BlockLocation), has_forward: bool) -> bool {
    &&& looks_ahead((area.0).0) ==> has_forward
    &&& is_area(area.1)
}

/// Every area can be predicted from the frames that are there.
proof fn lemma_known_areas(
    current: Seq<Block<i16>>,
    forward: Option<Seq<Block<i16>>>,
    backward: Seq<Block<i16>>,
    dimensions: BlockDimensions,
    mvs: Seq<Vec<(Prediction, i16)>>,
    j: int,
)
    requires
        has_rows(dimensions),
        are_vectors(current, forward, backward, dimensions, mvs),
        0 <= j < compressed(dimensions, mvs, places(mvs)).len(),
    ensures
        is_known_area(compressed(dimensions, mvs, places(mvs))[j], forward is Some),
{
    lemma_vector_grid(current, forward, backward, dimensions, mvs);
    lemma_areas_inside(dimensions, mvs, j, places(mvs));
    let area = compressed(dimensions, mvs, places(mvs))[j];
    let row = area.1.start.row as int;
    assert(is_vector_row(current, forward, backward, dimensions, row, mvs[row]@));
    assert(count(area.1) <= 4) by (nonlinear_arith)
        requires
            count(area.1) == rows(area.1) * cols(area.1),
            0 <= rows(area.1) <= 2,
            0 <= cols(area.1) <= 2,
    ;
}

/// The index that a vector points to, or none where it is too large.
fn mv_idx(point: Point, mv: MotionVector, dimensions: &BlockDimensions) -> (r: Option<usize>)
    ensures
        r is Some <==> vector_index(point, mv, *dimensions) <= usize::MAX,
        r is Some ==> r->0 == vector_index(point, mv, *dimensions),
{
    let row: i128 = point.row as i128 + mv.y as i128;
    let col: i128 = point.col as i128 + mv.x as i128;
    let row: u128 = if row < 0 {
        0
    } else {
        row as u128
    };
    let col: u128 = if col < 0 {
        0
    } else {
        col as u128
    };
    let width: usize = dimensions.width;
    proof {
        assert(0 <= row * width <= 0x1_8000_0000_0000_0000 * 0xffff_ffff_ffff_ffff)
            by (nonlinear_arith)
            requires
                0 <= row <= 0x1_8000_0000_0000_0000,
                0 <= width <= 0xffff_ffff_ffff_ffff,
        ;
    }
    if row > usize::MAX as u128 {
        proof {
            assert(width == 0 ==> row * width == 0) by (nonlinear_arith);
            assert(width != 0 ==> row * width >= row) by (nonlinear_arith)
                requires
                    0 <= row,
                    0 <= width,
            ;
        }
        if width == 0 && col <= usize::MAX as u128 {
            return Some(col as usize);
        }
        return None;
    }
    proof {
        assert(0 <= row * width <= 0xffff_ffff_ffff_ffff * 0xffff_ffff_ffff_ffff)
            by (nonlinear_arith)
            requires
                0 <= row <= 0xffff_ffff_ffff_ffff,
                0 <= width <= 0xffff_ffff_ffff_ffff,
        ;
    }
    let product: u128 = row * width as u128;
    if product > usize::MAX as u128 {
        return None;
    }
    let at: u128 = product + col;
    if at > usize::MAX as u128 {
        None
    } else {
        Some(at as usize)
    }
}

/// A cost that fits in a number.
fn fit(cost: i64) -> (r: i16)
    requires
        0 <= cost,
    ensures
        r == bounded(cost as int),
{
    if cost < 32767 {
        cost as i16
    } else {
        32767
    }
}

impl<'a> BFrame<'a, i16> {
    /// The frame that follows.
    pub open spec fn forward_picture(&self) -> Option<Picture<i16>> {
        forward_picture(self.forward_ref)
    }

    /// A frame between two others.
    pub fn new(
        current: SubSampleBlockGroupRef<'a, i16>,
        forward_ref: Option<SubSampleBlockGroupRef<'a, i16>>,
        backward_ref: SubSampleBlockGroupRef<'a, i16>,
    ) -> (r: Self)
        ensures
            r.current == current,
            r.forward_ref == forward_ref,
            r.backward_ref == backward_ref,
    {
        BFrame { current, forward_ref, backward_ref }
    }

    /// The size of the frame.
    pub fn dimensions(&self) -> (r: BlockDimensions)
        ensures
            r == self.current.dimensions,
    {
        self.current.dimensions
    }

    /// What the mean of the blocks that two vectors point to costs.
    pub fn calculate_bidirectional_cost(
        &self,
        current: &Block<i16>,
        point: Point,
        forward_mv: MotionVector,
        backward_mv: MotionVector,
    ) -> (r: i16)
        ensures
            r == bidirectional_cost(
                *current,
                self.current.dimensions,
                point,
                forward_mv,
                backward_mv,
                luma(self.forward_picture()),
                self.backward_ref.y@,
            ),
    {
        let dimensions = self.dimensions();
        let backward_len: usize = self.backward_ref.y.len();
        let behind = match mv_idx(point, backward_mv, &dimensions) {
            Some(at) => if at < backward_len {
                Some(at)
            } else {
                None
            },
            None => None,
        };
        match &self.forward_ref {
            Some(forward_ref) => {
                let forward_len: usize = forward_ref.y.len();
                let ahead = match mv_idx(point, forward_mv, &dimensions) {
                    Some(at) => if at < forward_len {
                        Some(at)
                    } else {
                        None
                    },
                    None => None,
                };
                match (ahead, behind) {
                    (Some(ahead), Some(behind)) => {
                        let interpolated = mean_block(
                            &forward_ref.y[ahead],
                            &self.backward_ref.y[behind],
                        );
                        fit(current.distance(&interpolated) + BOTH_PENALTY)
                    },
                    _ => i16::MAX,
                }
            },
            None => match behind {
                Some(behind) => fit(current.distance(&self.backward_ref.y[behind]) + LONE_PENALTY),
                None => i16::MAX,
            },
        }
    }

    /// The cheapest prediction of a block.
    fn best_prediction(&self, current: &Block<i16>, point: Point) -> (r: (Prediction, i16))
        ensures
            (r.0, r.1 as int) == cheapest(
                *current,
                self.current.dimensions,
                point,
                luma(self.forward_picture()),
                self.backward_ref.y@,
            ),
    {
        let dimensions = self.dimensions();
        let (backward_mv, backward_cost) = depth16::ldsp_blocks(
            current,
            self.backward_ref.y,
            &dimensions,
            point,
        );
        match &self.forward_ref {
            None => (Prediction::Backward(backward_mv), backward_cost),
            Some(forward_ref) => {
                let (forward_mv, forward_cost) = depth16::ldsp_blocks(
                    current,
                    forward_ref.y,
                    &dimensions,
                    point,
                );
                let both_cost: i16 = self.calculate_bidirectional_cost(
                    current,
                    point,
                    forward_mv,
                    backward_mv,
                );
                if forward_cost <= backward_cost && forward_cost <= both_cost {
                    (Prediction::Forward(forward_mv), forward_cost)
                } else if backward_cost <= both_cost {
                    (Prediction::Backward(backward_mv), backward_cost)
                } else {
                    (Prediction::Both { forward: forward_mv, backward: backward_mv }, both_cost)
                }
            },
        }
    }

    /// Finds the vectors of a row of blocks.
    fn motion_row(&self, row: usize) -> (r: Vec<(Prediction, i16)>)
        requires
            row < self.current.dimensions.height,
            self.current.dimensions.width * self.current.dimensions.height <= usize::MAX,
        ensures
            is_vector_row(
                self.current.y@,
                luma(self.forward_picture()),
                self.backward_ref.y@,
                self.current.dimensions,
                row as int,
                r@,
            ),
    {
        let dimensions = self.dimensions();
        let mut r: Vec<(Prediction, i16)> = Vec::new();
        let mut col: usize = 0;
        while col < dimensions.width
            invariant
                col <= dimensions.width,
                row < dimensions.height,
                dimensions == self.current.dimensions,
                dimensions.width * dimensions.height <= usize::MAX,
                r@.len() == col,
                forall|c: int|
                    0 <= c < col ==> {
                        let at = cell(dimensions, row as int, c);
                        let best = if at < self.current.y@.len() {
                            cheapest(
                                self.current.y@[at],
                                dimensions,
                                Point { row, col: c as usize },
                                luma(self.forward_picture()),
                                self.backward_ref.y@,
                            )
                        } else {
                            (Prediction::Backward(MotionVector { x: 0, y: 0 }), 0)
                        };
                        (#[trigger] r@[c]).0 == best.0 && r@[c].1 == best.1
                    },
            decreases dimensions.width - col,
        {
            proof {
                lemma_cell(dimensions, row as int, col as int);
            }
            let at: usize = row * dimensions.width + col;
            if at < self.current.y.len() {
                r.push(self.best_prediction(&self.current.y[at], Point { row, col }));
            } else {
                r.push((Prediction::Backward(MotionVector { x: 0, y: 0 }), 0));
            }
            col = col + 1;
        }
        r
    }

    /// Finds the vectors of all blocks.
    pub fn motion_vectors(&self) -> (r: Vec<Vec<(Prediction, i16)>>)
        requires
            self.current.dimensions.width * self.current.dimensions.height <= usize::MAX,
        ensures
            are_vectors(
                self.current.y@,
                luma(self.forward_picture()),
                self.backward_ref.y@,
                self.current.dimensions,
                r@,
            ),
    {
        let search = |row: usize| -> (mvs: Vec<(Prediction, i16)>)
            requires
                row < self.current.dimensions.height,
                self.current.dimensions.width * self.current.dimensions.height <= usize::MAX
            ensures
                is_vector_row(
                    self.current.y@,
                    luma(self.forward_picture()),
                    self.backward_ref.y@,
                    self.current.dimensions,
                    row as int,
                    mvs@,
                )
            { self.motion_row(row) };
        let r = par_map_range(self.current.dimensions.height, search);
        proof {
            assert forall|row: int| 0 <= row < r@.len() implies is_vector_row(
                self.current.y@,
                luma(self.forward_picture()),
                self.backward_ref.y@,
                self.current.dimensions,
                row,
                (#[trigger] r@[row])@,
            ) by {
                assert(call_ensures(search, (row as usize,), r@[(row as usize) as int]));
            }
        }
        r
    }

    /// The macroblock of one area.
    fn macroblock<C: Fn(Plane, &Block<i16>) -> Block<i16>>(
        &self,
        area: &((Prediction, i16), BlockLocation),
        code: &C,
    ) -> (r: BMacroBlock<i16>)
        requires
            is_known_area(*area, self.forward_ref is Some),
            forall|plane: Plane, b: Block<i16>| #[trigger] call_requires(*code, (plane, &b)),
        ensures
            is_coded_area(
                *code,
                self.current@,
                self.forward_picture(),
                self.backward_ref@,
                *area,
                r,
            ),
    {
        let forward = match &self.forward_ref {
            Some(forward) => Some(forward),
            None => None,
        };
        let residuals = area_residuals(&self.current, forward, &self.backward_ref, area, code);
        BMacroBlock { location: area.1, prediction: (area.0).0, residuals }
    }

    /// The macroblocks of the frame. `code` transforms what a prediction
    /// missed.
    pub fn get_macroblocks<C: Fn(Plane, &Block<i16>) -> Block<i16> + Sync + Send>(
        &self,
        code: &C,
    ) -> (r: Vec<BMacroBlock<i16>>)
        requires
            has_rows(self.current.dimensions),
            forall|plane: Plane, b: Block<i16>| #[trigger] call_requires(*code, (plane, &b)),
        ensures
            are_macroblocks(
                *code,
                self.current@,
                self.forward_picture(),
                self.backward_ref@,
                r@,
            ),
    {
        let mvs = self.motion_vectors();
        proof {
            lemma_vector_grid(
                self.current.y@,
                luma(self.forward_picture()),
                self.backward_ref.y@,
                self.current.dimensions,
                mvs@,
            );
        }
        let areas = compressed_motion_vectors(mvs.as_slice(), &self.current.dimensions);
        let make = |area: &((Prediction, i16), BlockLocation)| -> (m: BMacroBlock<i16>)
            requires
                is_known_area(*area, self.forward_ref is Some),
                forall|plane: Plane, b: Block<i16>| #[trigger] call_requires(*code, (plane, &b))
            ensures
                is_coded_area(
                    *code,
                    self.current@,
                    self.forward_picture(),
                    self.backward_ref@,
                    *area,
                    m,
                )
            { self.macroblock(area, code) };
        proof {
            assert forall|i: int| 0 <= i < areas@.len() implies call_requires(
                make,
                (&#[trigger] areas@[i],),
            ) by {
                lemma_known_areas(
                    self.current.y@,
                    luma(self.forward_picture()),
                    self.backward_ref.y@,
                    self.current.dimensions,
                    mvs@,
                    i,
                );
            }
        }
        let r = par_map(areas.as_slice(), make);
        proof {
            assert forall|j: int| 0 <= j < r@.len() implies is_coded_area(
                *code,
                self.current@,
                self.forward_picture(),
                self.backward_ref@,
                areas@[j],
                #[trigger] r@[j],
            ) by {
                assert(call_ensures(make, (&areas@[j],), r@[j]));
            }
            assert(are_vectors(
                self.current@.y,
                luma(self.forward_picture()),
                self.backward_ref@.y,
                self.current@.dimensions,
                mvs@,
            ));
            assert(are_coded_areas(
                *code,
                self.current@,
                self.forward_picture(),
                self.backward_ref@,
                mvs@,
                r@,
            ));
        }
        r
    }

    /// Writes the frame.
    pub fn encode<C: Fn(Plane, &Block<i16>) -> Block<i16> + Sync + Send>(
        &self,
        code: &C,
        stream: &mut BitStreamWriter,
    ) -> (r: Result<()>)
        requires
            has_rows(self.current.dimensions),
            forall|plane: Plane, b: Block<i16>| #[trigger] call_requires(*code, (plane, &b)),
        ensures
            r is Ok,
            exists|macro_blocks: Seq<BMacroBlock<i16>>|
                {
                    &&& #[trigger] are_macroblocks(
                        *code,
                        self.current@,
                        self.forward_picture(),
                        self.backward_ref@,
                        macro_blocks,
                    )
                    &&& is_kept(items_bytes::<BMacroBlock<i16>>(models(macro_blocks)))
                    &&& final(stream)@ == padded(
                        padded(old(stream)@) + compressed_bits(
                            items_bytes::<BMacroBlock<i16>>(models(macro_blocks)),
                        ),
                    )
                },
    {
        let list = BMacroBlocks::new(self.get_macroblocks(code));
        assert(are_macroblocks(
            *code,
            self.current@,
            self.forward_picture(),
            self.backward_ref@,
            list@,
        ));
        list.encode(stream)?;
        stream.flush()
    }

    /// Reads the macroblocks of a frame.
    pub fn decode(stream: &mut BitStreamReader) -> (r: Result<BMacroBlocks<i16>>)
        ensures
            !holds_block(old(stream)@) ==> is_eof(r),
            holds_block(old(stream)@) ==> {
                let payload = block_payload(old(stream)@);
                &&& final(stream)@ == behind_block(old(stream)@)
                &&& !final(stream).ran_out()
                &&& lz4_decompressed(payload) is Err ==> lz4_refused(r, payload)
                &&& lz4_decompressed(payload) is Ok ==> {
                    let items = parsed_items::<BMacroBlock<i16>>(lz4_decompressed(payload)->Ok_0);
                    &&& items is Some ==> r is Ok && models((r->Ok_0)@) == items->0
                    &&& items is None ==> r is Err && r->Err_0 is InvalidData
                }
            },
    {
        BMacroBlocks::decode(stream)
    }

    /// Puts a frame together from the frames on both sides and its macroblocks.
    /// `restore` takes a prediction and a residual back through the transform.
    pub fn reassemble<F: Fn(Plane, &Block<i16>, &Block<i16>) -> Block<i16>>(
        forward_ref: Option<&SubSampleBlockGroupRef<'_, i16>>,
        backward_ref: &SubSampleBlockGroupRef<'_, i16>,
        macro_blocks: &[BMacroBlock<i16>],
        restore: &F,
    ) -> (r: Result<SubSampleBlockGroup<i16>>)
        requires
            all_fit(
                macro_blocks@,
                base_of(picture_of(forward_ref), backward_ref@),
                forward_ref is Some,
            ),
            forall|plane: Plane, p: Block<i16>, b: Block<i16>| #[trigger]
                call_requires(*restore, (plane, &p, &b)),
        ensures
            r is Ok,
            is_assembled(
                *restore,
                picture_of(forward_ref),
                backward_ref@,
                macro_blocks@,
                r->Ok_0@,
            ),
    {
        reassemble_frame(forward_ref, backward_ref, macro_blocks, restore)
    }
}

/// A frame that is coded and put together again comes back, block by block, as
/// close as the transform gives back single blocks: all luma blocks, and all
/// chroma blocks, unless the chroma planes have a quarter of the columns.
pub proof fn law_bframe_comes_back<
    C: Fn(Plane, &Block<i16>) -> Block<i16>,
    F: Fn(Plane, &Block<i16>, &Block<i16>) -> Block<i16>,
>(
    code: C,
    restore: F,
    current: Picture<i16>,
    forward: Option<Picture<i16>>,
    backward: Picture<i16>,
    macro_blocks: Seq<BMacroBlock<i16>>,
    r: Picture<i16>,
    close: spec_fn(Seq<i16>, Seq<i16>) -> bool,
)
    requires
        has_rows(current.dimensions),
        is_full(current),
        is_full(base_of(forward, backward)),
        base_of(forward, backward).dimensions
            == current.dimensions,
        base_of(forward, backward).subsampling
            == current.subsampling,
        are_macroblocks(code, current, forward, backward, macro_blocks),
        is_assembled(restore, forward, backward, macro_blocks, r),
        gives_back(code, restore, Plane::Luma, close),
        gives_back(code, restore, Plane::Chroma, close),
    ensures
        all_close(current.y, r.y, close),
        current.subsampling != Subsampling::Sample411 ==> all_close(
            current.cb,
            r.cb,
            close,
        ) && all_close(current.cr, r.cr, close),
{
    let mvs = choose|mvs: Seq<Vec<(Prediction, i16)>>|
        {
            &&& #[trigger] are_vectors(
                current.y,
                luma(forward),
                backward.y,
                current.dimensions,
                mvs,
            )
            &&& are_coded_areas(
                code,
                current,
                forward,
                backward,
                mvs,
                macro_blocks,
            )
        };
    lemma_vector_grid(current.y, luma(forward), backward.y, current.dimensions, mvs);
    lemma_known_predictions(code, current, forward, backward, mvs, macro_blocks);
    law_frame_comes_back(
        code,
        restore,
        current,
        forward,
        backward,
        mvs,
        macro_blocks,
        r,
        close,
    );
}

/// The macroblocks need no frame that is not there.
proof fn lemma_known_predictions<C: Fn(Plane, &Block<i16>) -> Block<i16>>(
    code: C,
    current: Picture<i16>,
    forward: Option<Picture<i16>>,
    backward: Picture<i16>,
    mvs: Seq<Vec<(Prediction, i16)>>,
    macro_blocks: Seq<BMacroBlock<i16>>,
)
    requires
        has_rows(current.dimensions),
        are_vectors(
            current.y,
            luma(forward),
            backward.y,
            current.dimensions,
            mvs,
        ),
        are_coded_areas(
            code,
            current,
            forward,
            backward,
            mvs,
            macro_blocks,
        ),
    ensures
        forall|j: int|
            0 <= j < macro_blocks.len() && looks_ahead((#[trigger] macro_blocks[j]).from())
                ==> forward is Some,
{
    let areas = compressed(current.dimensions, mvs, places(mvs));
    assert forall|j: int|
        0 <= j < macro_blocks.len() && looks_ahead(
            (#[trigger] macro_blocks[j]).from(),
        ) implies forward is Some by {
        assert(is_coded_area(
            code,
            current,
            forward,
            backward,
            areas[j],
            macro_blocks[j],
        ));
        lemma_known_areas(
            current.y,
            luma(forward),
            backward.y,
            current.dimensions,
            mvs,
            j,
        );
    }
}

/// The macroblocks of a frame need the frame that follows only where it is
/// there.
pub proof fn law_known_references<C: Fn(Plane, &Block<i16>) -> Block<i16>>(
    code: C,
    current: Picture<i16>,
    forward: Option<Picture<i16>>,
    backward: Picture<i16>,
    macro_blocks: Seq<BMacroBlock<i16>>,
)
    requires
        has_rows(current.dimensions),
        are_macroblocks(code, current, forward, backward, macro_blocks),
    ensures
        forall|j: int|
            0 <= j < macro_blocks.len() && looks_ahead((#[trigger] macro_blocks[j]).prediction)
                ==> forward is Some,
{
    let mvs = choose|mvs: Seq<Vec<(Prediction, i16)>>|
        {
            &&& #[trigger] are_vectors(
                current.y,
                luma(forward),
                backward.y,
                current.dimensions,
                mvs,
            )
            &&& are_coded_areas(
                code,
                current,
                forward,
                backward,
                mvs,
                macro_blocks,
            )
        };
    lemma_known_predictions(code, current, forward, backward, mvs, macro_blocks);
    assert forall|j: int|
        0 <= j < macro_blocks.len() && looks_ahead(
            (#[trigger] macro_blocks[j]).prediction,
        ) implies forward is Some by {
        assert(macro_blocks[j].from() == macro_blocks[j].prediction);
    }
}

/// A prediction from the frame before does not depend on the one that follows.
proof fn lemma_backward_predictions(
    places: Seq<Point>,
    prediction: Prediction,
    dimensions: BlockDimensions,
    backward: Seq<Block<i16>>,
    a: Seq<Block<i16>>,
    b: Seq<Block<i16>>,
)
    requires
        !looks_ahead(prediction),
    ensures
        predictions(places, prediction, dimensions, backward, a) == predictions(
            places,
            prediction,
            dimensions,
            backward,
            b,
        ),
{
    assert(predictions(places, prediction, dimensions, backward, a) =~= predictions(
        places,
        prediction,
        dimensions,
        backward,
        b,
    ));
}

/// A frame that is coded without the frame that follows comes back all the same
/// where it is put together with one, as close as the transform gives back
/// single blocks.
pub proof fn law_lone_bframe_comes_back<
    C: Fn(Plane, &Block<i16>) -> Block<i16>,
    F: Fn(Plane, &Block<i16>, &Block<i16>) -> Block<i16>,
>(
    code: C,
    restore: F,
    current: Picture<i16>,
    forward: Picture<i16>,
    backward: Picture<i16>,
    macro_blocks: Seq<BMacroBlock<i16>>,
    r: Picture<i16>,
    close: spec_fn(Seq<i16>, Seq<i16>) -> bool,
)
    requires
        has_rows(current.dimensions),
        is_full(current),
        is_full(forward),
        forward.dimensions == current.dimensions,
        forward.subsampling == current.subsampling,
        are_macroblocks(code, current, None, backward, macro_blocks),
        is_assembled(restore, Some(forward), backward, macro_blocks, r),
        gives_back(code, restore, Plane::Luma, close),
        gives_back(code, restore, Plane::Chroma, close),
    ensures
        all_close(current.y, r.y, close),
        current.subsampling != Subsampling::Sample411 ==> all_close(
            current.cb,
            r.cb,
            close,
        ) && all_close(current.cr, r.cr, close),
{
    let none = None::<Picture<i16>>;
    let mvs = choose|mvs: Seq<Vec<(Prediction, i16)>>|
        {
            &&& #[trigger] are_vectors(
                current.y,
                luma(none),
                backward.y,
                current.dimensions,
                mvs,
            )
            &&& are_coded_areas(code, current, none, backward, mvs, macro_blocks)
        };
    lemma_vector_grid(current.y, luma(none), backward.y, current.dimensions, mvs);
    lemma_known_predictions(code, current, none, backward, mvs, macro_blocks);
    let areas = compressed(current.dimensions, mvs, places(mvs));
    let half = current.subsampling;
    let chroma_dims = current.dimensions.subsampled(half);
    assert forall|j: int| 0 <= j < macro_blocks.len() implies is_coded_area(
        code,
        current,
        Some(forward),
        backward,
        areas[j],
        #[trigger] macro_blocks[j],
    ) by {
        let m = macro_blocks[j];
        let area = areas[j];
        assert(is_coded_area(code, current, none, backward, area, m));
        assert(!looks_ahead(m.from()));
        let chroma = predicted_places(area.1, half, count(area.1));
        lemma_backward_predictions(
            all_places(area.1),
            (area.0).0,
            current.dimensions,
            backward.y,
            luma_of(none),
            forward.y,
        );
        lemma_backward_predictions(
            chroma,
            scaled((area.0).0, half),
            chroma_dims,
            backward.cb,
            cb_of(none),
            forward.cb,
        );
        lemma_backward_predictions(
            chroma,
            scaled((area.0).0, half),
            chroma_dims,
            backward.cr,
            cr_of(none),
            forward.cr,
        );
    }
    law_frame_comes_back(
        code,
        restore,
        current,
        Some(forward),
        backward,
        mvs,
        macro_blocks,
        r,
        close,
    );
}

/// The prediction that is chosen costs no more than the best block of either frame, nor
/// than the two together. It is taken of the best vectors, and costs what it says. A
/// single frame is preferred to two, and the frame that follows to the one before.
pub proof fn law_cheapest_is_chosen(
    current: Block<i16>,
    dimensions: BlockDimensions,
    point: Point,
    forward: Seq<Block<i16>>,
    backward: Seq<Block<i16>>,
)
    ensures
        ({
            let ahead = found(current, forward, dimensions, point);
            let behind = found(current, backward, dimensions, point);
            let both = bidirectional_cost(
                current,
                dimensions,
                point,
                ahead.0,
                behind.0,
                Some(forward),
                backward,
            );
            let r = cheapest(current, dimensions, point, Some(forward), backward);
            &&& r.1 <= ahead.1
            &&& r.1 <= behind.1
            &&& r.1 <= both
            &&& match r.0 {
                Prediction::Forward(mv) => mv == ahead.0 && r.1 == ahead.1,
                Prediction::Backward(mv) => mv == behind.0 && r.1 == behind.1 && r.1 < ahead.1,
                Prediction::Both { forward: f, backward: b } => f == ahead.0 && b == behind.0
                    && r.1 == both && r.1 < ahead.1 && r.1 < behind.1,
            }
            &&& cheapest(current, dimensions, point, None, backward) == (
                Prediction::Backward(behind.0),
                behind.1,
            )
        }),
{
}

/// What two frames together cost is how far the block is from the one that they predict,
/// and fifty on top, as far as that fits. One frame that was to be a pair costs
/// twenty-five on top.
pub proof fn law_both_cost_the_distance(
    current: Block<i16>,
    dimensions: BlockDimensions,
    point: Point,
    ahead: MotionVector,
    behind: MotionVector,
    forward: Seq<Block<i16>>,
    backward: Seq<Block<i16>>,
)
    requires
        0 <= point.row + ahead.y < dimensions.height,
        0 <= point.col + ahead.x < dimensions.width,
        0 <= point.row + behind.y < dimensions.height,
        0 <= point.col + behind.x < dimensions.width,
        (point.row + ahead.y) * dimensions.width + (point.col + ahead.x) < forward.len(),
        (point.row + behind.y) * dimensions.width + (point.col + behind.x) < backward.len(),
    ensures
        ({
            let pair = predicted(
                point,
                Prediction::Both { forward: ahead, backward: behind },
                dimensions,
                backward,
                forward,
            );
            let lone = predicted(
                point,
                Prediction::Backward(behind),
                dimensions,
                backward,
                forward,
            );
            let r = bidirectional_cost(
                current,
                dimensions,
                point,
                ahead,
                behind,
                Some(forward),
                backward,
            );
            let s = bidirectional_cost(
                current,
                dimensions,
                point,
                ahead,
                behind,
                None,
                backward,
            );
            &&& r <= 32767 && s <= 32767
            &&& r < 32767 ==> r - 50 == abs_difference(current@, pair, 64)
            &&& r == 32767 ==> abs_difference(current@, pair, 64) >= 32717
            &&& s < 32767 ==> s - 25 == abs_difference(current@, lone, 64)
            &&& s == 32767 ==> abs_difference(current@, lone, 64) >= 32742
        }),
{
    assert(0 <= (point.row + ahead.y) * dimensions.width) by (nonlinear_arith)
        requires
            0 <= point.row + ahead.y,
            0 <= dimensions.width,
    ;
    assert(0 <= (point.row + behind.y) * dimensions.width) by (nonlinear_arith)
        requires
            0 <= point.row + behind.y,
            0 <= dimensions.width,
    ;
}

/// What a chosen prediction costs is how far the block that it predicts is from the block
/// in question, with fifty on top for two frames.
pub proof fn law_cost_is_what_is_missed(
    current: Block<i16>,
    dimensions: BlockDimensions,
    point: Point,
    forward: Option<Seq<Block<i16>>>,
    backward: Seq<Block<i16>>,
)
    requires
        point.row < dimensions.height,
        point.col < dimensions.width,
        cheapest(current, dimensions, point, forward, backward).1 < 32767,
    ensures
        ({
            let r = cheapest(current, dimensions, point, forward, backward);
            let there = predicted(
                point,
                r.0,
                dimensions,
                backward,
                match forward {
                    Some(forward) => forward,
                    None => Seq::empty(),
                },
            );
            abs_difference(current@, there, 64) == if r.0 is Both {
                r.1 - 50
            } else {
                r.1
            }
        }),
{
    let behind = found(current, backward, dimensions, point);
    law_score_is_the_distance(current, backward, dimensions, point);
    lemma_index_not_negative(point, behind.0, dimensions);
    if forward is Some {
        let ahead = found(current, forward->0, dimensions, point);
        law_score_is_the_distance(current, forward->0, dimensions, point);
        lemma_index_not_negative(point, ahead.0, dimensions);
        let r = cheapest(current, dimensions, point, forward, backward);
        if r.0 is Both {
            law_both_cost_the_distance(
                current,
                dimensions,
                point,
                ahead.0,
                behind.0,
                forward->0,
                backward,
            );
        }
    }
}

proof fn lemma_index_not_negative(point: Point, mv: MotionVector, dimensions: BlockDimensions)
    ensures
        0 <= point.row + mv.y ==> 0 <= (point.row + mv.y) * dimensions.width,
{
    assert(0 <= point.row + mv.y ==> 0 <= (point.row + mv.y) * dimensions.width)
        by (nonlinear_arith)
        requires
            0 <= dimensions.width,
    ;
}

/// Every place of the grid has the prediction of its own block: one that costs no more
/// than the blocks at the same place of the two frames, and that does not move where the
/// block is the same as before. A place without a block stays where it is.
pub proof fn law_vectors_belong_to_their_blocks(
    current: Seq<Block<i16>>,
    forward: Option<Seq<Block<i16>>>,
    backward: Seq<Block<i16>>,
    dimensions: BlockDimensions,
    mvs: Seq<Vec<(Prediction, i16)>>,
    row: int,
    col: int,
)
    requires
        are_vectors(current, forward, backward, dimensions, mvs),
        0 <= row < dimensions.height,
        0 <= col < dimensions.width,
    ensures
        ({
            let at = row * dimensions.width + col;
            let mv = mvs[row]@[col];
            &&& mvs.len() == dimensions.height
            &&& mvs[row]@.len() == dimensions.width
            &&& 0 <= at
            &&& at < current.len() && at < backward.len() ==> mv.1 <= abs_difference(
                current[at]@,
                backward[at]@,
                64,
            )
            &&& at < current.len() && forward is Some && at < forward->0.len() ==> mv.1
                <= abs_difference(current[at]@, forward->0[at]@, 64)
            &&& at < current.len() && at < backward.len() && current[at] == backward[at]
                && forward is None ==> mv == (
                Prediction::Backward(MotionVector { x: 0, y: 0 }),
                0i16,
            )
            &&& at >= current.len() ==> mv == (
                Prediction::Backward(MotionVector { x: 0, y: 0 }),
                0i16,
            )
        }),
{
    let at = row * dimensions.width + col;
    let point = Point { row: row as usize, col: col as usize };
    assert(is_vector_row(current, forward, backward, dimensions, row, mvs[row]@));
    let mv = mvs[row]@[col];
    crate::numeric::lemma_place(row, col, dimensions.width as int);
    if at < current.len() {
        if at < backward.len() {
            law_no_diamond_block_is_closer(current[at], backward, dimensions, point, 0, 0);
            if current[at] == backward[at] {
                law_unchanged_block_stays(current[at], backward, dimensions, point);
            }
        }
        if forward is Some {
            law_cheapest_is_chosen(current[at], dimensions, point, forward->0, backward);
            if at < forward->0.len() {
                law_no_diamond_block_is_closer(
                    current[at],
                    forward->0,
                    dimensions,
                    point,
                    0,
                    0,
                );
            }
        }
    }
}

/// A vector that leads before the first row or column leads to it.
pub proof fn law_vectors_stop_at_the_first_block(
    point: Point,
    mv: MotionVector,
    inner: MotionVector,
    dimensions: BlockDimensions,
)
    requires
        point.row + mv.y < 0 ==> point.row + inner.y == 0,
        point.row + mv.y >= 0 ==> inner.y == mv.y,
        point.col + mv.x < 0 ==> point.col + inner.x == 0,
        point.col + mv.x >= 0 ==> inner.x == mv.x,
    ensures
        vector_index(point, mv, dimensions) == vector_index(point, inner, dimensions),
        vector_index(point, inner, dimensions) == (point.row + inner.y) * dimensions.width + (
        point.col + inner.x),
        0 <= vector_index(point, mv, dimensions),
{
    assert(0 <= (point.row + inner.y) * dimensions.width) by (nonlinear_arith)
        requires
            0 <= point.row + inner.y,
            0 <= dimensions.width,
    ;
}

} // verus!
