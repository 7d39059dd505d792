//! Putting a frame together from predictions and what they missed.
use vstd::prelude::*;

use super::grid::{covered, covers};
use super::macroblock::block_location::BlockLocation;
use super::macroblock::bmacro::Prediction;
use super::macroblock::AssemblableMacroBlock;
use super::prediction::{
    all_places, blocks_of, cb_of, cols, count, cr_of, difference, lemma_place_at,
    lemma_place_number, looks_ahead, luma_of, place_at, predicted, predicted_block,
    predicted_chroma_block, predictions, rows, scaled, Plane,
};
use super::residual::{is_coded, missed_at};
use crate::block::{block_views, Block};
use crate::color::Subsampling;
use crate::dimensions::BlockDimensions;
use crate::error::Result;
use crate::lossy::{picture_of, Picture, SubSampleBlockGroup, SubSampleBlockGroupRef};

verus! {

/// The index of place `k` of a location in a grid.
pub open spec fn index_at(location: BlockLocation, width: int, k: int) -> int {
    place_at(location, k).row * width + place_at(location, k).col
}

/// The blocks after values were laid down at the first places of a location.
/// What would lie behind the end is dropped.
pub open spec fn laid(
    blocks: Seq<Block<i16>>,
    location: BlockLocation,
    width: int,
    values: Seq<Block<i16>>,
) -> Seq<Block<i16>>
    decreases values.len(),
{
    if values.len() == 0 {
        blocks
    } else {
        let so_far = laid(blocks, location, width, values.drop_last());
        let at = index_at(location, width, values.len() - 1);
        if at < so_far.len() {
            so_far.update(at, values.last())
        } else {
            so_far
        }
    }
}

/// The blocks after values were laid down at one location after the other.
pub open spec fn all_laid(
    blocks: Seq<Block<i16>>,
    locations: Seq<BlockLocation>,
    width: int,
    values: Seq<Seq<Block<i16>>>,
) -> Seq<Block<i16>>
    decreases values.len(),
{
    if values.len() == 0 {
        blocks
    } else {
        laid(
            all_laid(blocks, locations, width, values.drop_last()),
            locations[values.len() - 1],
            width,
            values.last(),
        )
    }
}

/// Laying down keeps the number of blocks.
pub proof fn lemma_laid_len(
    blocks: Seq<Block<i16>>,
    location: BlockLocation,
    width: int,
    values: Seq<Block<i16>>,
)
    requires
        0 <= width,
    ensures
        laid(blocks, location, width, values).len() == blocks.len(),
    decreases values.len(),
{
    if values.len() > 0 {
        lemma_laid_len(blocks, location, width, values.drop_last());
        let row = place_at(location, values.len() - 1).row;
        assert(row * width >= 0) by (nonlinear_arith)
            requires
                row >= 0,
                width >= 0,
        ;
    }
}

/// Laying down keeps the number of blocks.
pub proof fn lemma_all_laid_len(
    blocks: Seq<Block<i16>>,
    locations: Seq<BlockLocation>,
    width: int,
    values: Seq<Seq<Block<i16>>>,
)
    requires
        0 <= width,
    ensures
        all_laid(blocks, locations, width, values).len() == blocks.len(),
    decreases values.len(),
{
    if values.len() > 0 {
        lemma_all_laid_len(blocks, locations, width, values.drop_last());
        lemma_laid_len(
            all_laid(blocks, locations, width, values.drop_last()),
            locations[values.len() - 1],
            width,
            values.last(),
        );
    }
}

/// A block is what the transform makes of a prediction and a residual.
pub open spec fn restored_as<F: Fn(Plane, &Block<i16>, &Block<i16>) -> Block<i16>>(
    restore: F,
    plane: Plane,
    prediction: Seq<i16>,
    residual: Block<i16>,
    r: Block<i16>,
) -> bool {
    exists|p: Block<i16>|
        p@ == prediction && #[trigger] call_ensures(restore, (plane, &p, &residual), r)
}

/// The values are the luma blocks of a location, as many as there are
/// residuals.
pub open spec fn is_luma<F: Fn(Plane, &Block<i16>, &Block<i16>) -> Block<i16>>(
    restore: F,
    location: BlockLocation,
    prediction: Prediction,
    residuals: Seq<Block<i16>>,
    dimensions: BlockDimensions,
    backward: Seq<Block<i16>>,
    forward: Seq<Block<i16>>,
    len: nat,
    values: Seq<Block<i16>>,
) -> bool {
    &&& values.len() == if count(location) < residuals.len() {
        count(location)
    } else {
        residuals.len() as int
    }
    &&& forall|k: int|
        0 <= k < values.len() && index_at(location, dimensions.width as int, k) < len
            ==> restored_as(
            restore,
            Plane::Luma,
            predicted(place_at(location, k), prediction, dimensions, backward, forward),
            residuals[k],
            #[trigger] values[k],
        )
}

/// The number of the first `k` places that lie in the grid.
pub open spec fn rank(location: BlockLocation, width: int, len: nat, k: int) -> int
    decreases k,
{
    if k <= 0 {
        0
    } else {
        rank(location, width, len, k - 1) + if index_at(location, width, k - 1) < len {
            1int
        } else {
            0
        }
    }
}

/// The values are the blocks of a chroma location. The residuals go to the
/// places that lie in the grid, in order; where none is left, the prediction
/// stands.
pub open spec fn is_chroma<F: Fn(Plane, &Block<i16>, &Block<i16>) -> Block<i16>>(
    restore: F,
    location: BlockLocation,
    prediction: Prediction,
    residuals: Seq<Block<i16>>,
    available: int,
    dimensions: BlockDimensions,
    backward: Seq<Block<i16>>,
    forward: Seq<Block<i16>>,
    len: nat,
    values: Seq<Block<i16>>,
) -> bool {
    forall|k: int|
        0 <= k < values.len() && index_at(location, dimensions.width as int, k) < len ==> {
            let from = predicted(place_at(location, k), prediction, dimensions, backward, forward);
            let number = rank(location, dimensions.width as int, len, k);
            if number < available {
                restored_as(
                    restore,
                    Plane::Chroma,
                    from,
                    residuals[number],
                    #[trigger] values[k],
                )
            } else {
                values[k]@ == from
            }
        }
}

/// Lays down the luma blocks of a macroblock.
fn lay_luma<F: Fn(Plane, &Block<i16>, &Block<i16>) -> Block<i16>>(
    y: &mut Vec<Block<i16>>,
    location: &BlockLocation,
    prediction: Prediction,
    residuals: &[Block<i16>],
    dimensions: BlockDimensions,
    backward: &[Block<i16>],
    forward: &[Block<i16>],
    restore: &F,
) -> (values: Ghost<Seq<Block<i16>>>)
    requires
        forall|plane: Plane, p: Block<i16>, b: Block<i16>| #[trigger]
            call_requires(*restore, (plane, &p, &b)),
    ensures
        final(y)@.len() == old(y)@.len(),
        final(y)@ == laid(old(y)@, *location, dimensions.width as int, values@),
        is_luma(
            *restore,
            *location,
            prediction,
            residuals@,
            dimensions,
            backward@,
            forward@,
            old(y)@.len(),
            values@,
        ),
{
    let ghost y0 = y@;
    let mut values: Ghost<Seq<Block<i16>>> = Ghost(Seq::empty());
    if location.start.row > location.end.row || location.start.col > location.end.col {
        proof {
            assert(count(*location) == 0) by (nonlinear_arith)
                requires
                    rows(*location) == 0 || cols(*location) == 0,
                    count(*location) == rows(*location) * cols(*location),
            ;
        }
        return values;
    }
    let width: usize = dimensions.width;
    let high: u128 = (location.end.row - location.start.row) as u128 + 1;
    let wide: u128 = (location.end.col - location.start.col) as u128 + 1;
    let mut limit: usize = residuals.len();
    if high <= residuals.len() as u128 {
        proof {
            assert(high * wide <= u64::MAX * (u64::MAX + 1)) by (nonlinear_arith)
                requires
                    0 <= high <= u64::MAX,
                    0 <= wide <= u64::MAX + 1,
            ;
        }
        let total: u128 = high * wide;
        if total < residuals.len() as u128 {
            limit = total as usize;
        }
    } else {
        proof {
            assert(high * wide >= high) by (nonlinear_arith)
                requires
                    high >= 0,
                    wide >= 1,
            ;
        }
    }
    let mut k: usize = 0;
    while k < limit
        invariant
            k <= limit,
            limit == if count(*location) < residuals@.len() {
                count(*location)
            } else {
                residuals@.len() as int
            },
            wide == cols(*location),
            width == dimensions.width,
            forall|plane: Plane, p: Block<i16>, b: Block<i16>| #[trigger]
                call_requires(*restore, (plane, &p, &b)),
            values@.len() == k,
            y@.len() == y0.len(),
            y@ == laid(y0, *location, width as int, values@),
            forall|j: int|
                0 <= j < k && index_at(*location, width as int, j) < y0.len() ==> restored_as(
                    *restore,
                    Plane::Luma,
                    predicted(
                        place_at(*location, j),
                        prediction,
                        dimensions,
                        backward@,
                        forward@,
                    ),
                    residuals@[j],
                    #[trigger] values@[j],
                ),
        decreases limit - k,
    {
        proof {
            lemma_place_at(*location, k as int);
        }
        let row: usize = (location.start.row as u128 + k as u128 / wide) as usize;
        let col: usize = (location.start.col as u128 + k as u128 % wide) as usize;
        assert(row == place_at(*location, k as int).row && col == place_at(
            *location,
            k as int,
        ).col);
        proof {
            assert(0 <= row * width <= u64::MAX * u64::MAX) by (nonlinear_arith)
                requires
                    0 <= row <= u64::MAX,
                    0 <= width <= u64::MAX,
            ;
        }
        let at: u128 = row as u128 * width as u128 + col as u128;
        let ghost before = values@;
        if at < y.len() as u128 {
            let p = predicted_block((row, col), prediction, dimensions, backward, Some(forward));
            let block = (*restore)(Plane::Luma, &p, &residuals[k]);
            y.set(at as usize, block);
            proof {
                assert(call_ensures(
                    *restore,
                    (Plane::Luma, &p, &residuals@[k as int]),
                    block,
                ));
                values@ = before.push(block);
            }
        } else {
            proof {
                values@ = before.push(residuals@[k as int]);
            }
        }
        assert(values@.drop_last() =~= before);
        k = k + 1;
    }
    values
}

/// Lays down the chroma blocks of a macroblock.
fn lay_chroma<F: Fn(Plane, &Block<i16>, &Block<i16>) -> Block<i16>>(
    cb: &mut Vec<Block<i16>>,
    cr: &mut Vec<Block<i16>>,
    location: &BlockLocation,
    prediction: Prediction,
    residuals_cb: &[Block<i16>],
    residuals_cr: &[Block<i16>],
    dimensions: BlockDimensions,
    subsampling: Subsampling,
    forward_ref: Option<&SubSampleBlockGroupRef<'_, i16>>,
    backward_ref: &SubSampleBlockGroupRef<'_, i16>,
    restore: &F,
) -> (values: (Ghost<Seq<Block<i16>>>, Ghost<Seq<Block<i16>>>))
    requires
        old(cr)@.len() <= old(cb)@.len(),
        forall|k: int|
            0 <= k < count(*location) && #[trigger] index_at(
                *location,
                dimensions.width as int,
                k,
            ) < old(cb)@.len() ==> index_at(*location, dimensions.width as int, k) < old(
                cr,
            )@.len() && (looks_ahead(prediction) ==> forward_ref is Some),
        forall|plane: Plane, p: Block<i16>, b: Block<i16>| #[trigger]
            call_requires(*restore, (plane, &p, &b)),
    ensures
        final(cb)@.len() == old(cb)@.len(),
        final(cr)@.len() == old(cr)@.len(),
        values.0@.len() == count(*location),
        values.1@.len() == count(*location),
        final(cb)@ == laid(old(cb)@, *location, dimensions.width as int, values.0@),
        final(cr)@ == laid(old(cr)@, *location, dimensions.width as int, values.1@),
        ({
            let available = if residuals_cb@.len() < residuals_cr@.len() {
                residuals_cb@.len() as int
            } else {
                residuals_cr@.len() as int
            };
            &&& is_chroma(
                *restore,
                *location,
                scaled(prediction, subsampling),
                residuals_cb@,
                available,
                dimensions,
                backward_ref.cb@,
                cb_of(picture_of(forward_ref)),
                old(cb)@.len(),
                values.0@,
            )
            &&& is_chroma(
                *restore,
                *location,
                scaled(prediction, subsampling),
                residuals_cr@,
                available,
                dimensions,
                backward_ref.cr@,
                cr_of(picture_of(forward_ref)),
                old(cr)@.len(),
                values.1@,
            )
        }),
{
    let ghost cb0 = cb@;
    let ghost cr0 = cr@;
    let ghost len = cb@.len();
    let ghost paired = cr@.len();
    let mut vcb: Ghost<Seq<Block<i16>>> = Ghost(Seq::empty());
    let mut vcr: Ghost<Seq<Block<i16>>> = Ghost(Seq::empty());
    let width: usize = dimensions.width;
    let forward_cb = match forward_ref {
        Some(f) => Some(f.cb),
        None => None,
    };
    let forward_cr = match forward_ref {
        Some(f) => Some(f.cr),
        None => None,
    };
    let available: usize = if residuals_cb.len() < residuals_cr.len() {
        residuals_cb.len()
    } else {
        residuals_cr.len()
    };
    if location.start.row > location.end.row || location.start.col > location.end.col {
        proof {
            assert(count(*location) == 0) by (nonlinear_arith)
                requires
                    rows(*location) == 0 || cols(*location) == 0,
                    count(*location) == rows(*location) * cols(*location),
            ;
        }
        return (vcb, vcr);
    }
    let ghost wide = cols(*location);
    let mut used: usize = 0;
    let mut row: u128 = location.start.row as u128;
    proof {
        assert((row - location.start.row) * wide == 0) by (nonlinear_arith)
            requires
                row == location.start.row,
        ;
    }
    while row <= location.end.row as u128
        invariant
            location.start.row <= row <= location.end.row + 1,
            location.start.col <= location.end.col,
            wide == cols(*location),
            width == dimensions.width,
            len == cb0.len(),
            paired == cr0.len(),
            paired <= len,
            cb@.len() == len,
            cr@.len() == paired,
            forall|k: int|
                0 <= k < count(*location) && #[trigger] index_at(*location, width as int, k) < len
                    ==> index_at(*location, width as int, k) < paired && (looks_ahead(prediction)
                    ==> forward_cb is Some && forward_cr is Some),
            blocks_of(forward_cb) == cb_of(picture_of(forward_ref)),
            blocks_of(forward_cr) == cr_of(picture_of(forward_ref)),
            available <= residuals_cb@.len(),
            available <= residuals_cr@.len(),
            forall|plane: Plane, p: Block<i16>, b: Block<i16>| #[trigger]
                call_requires(*restore, (plane, &p, &b)),
            vcb@.len() == (row - location.start.row) * wide,
            vcr@.len() == vcb@.len(),
            cb@ == laid(cb0, *location, width as int, vcb@),
            cr@ == laid(cr0, *location, width as int, vcr@),
            used == at_most(
                rank(*location, width as int, len, vcb@.len() as int),
                available as int,
            ),
            rank(*location, width as int, len, vcb@.len() as int) == rank(
                *location,
                width as int,
                paired,
                vcb@.len() as int,
            ),
            is_chroma(
                *restore,
                *location,
                scaled(prediction, subsampling),
                residuals_cb@,
                available as int,
                dimensions,
                backward_ref.cb@,
                cb_of(picture_of(forward_ref)),
                len,
                vcb@,
            ),
            is_chroma(
                *restore,
                *location,
                scaled(prediction, subsampling),
                residuals_cr@,
                available as int,
                dimensions,
                backward_ref.cr@,
                cr_of(picture_of(forward_ref)),
                paired,
                vcr@,
            ),
        decreases location.end.row + 1 - row,
    {
        let mut col: u128 = location.start.col as u128;
        while col <= location.end.col as u128
            invariant
                location.start.row <= row <= location.end.row,
                location.start.col <= col <= location.end.col + 1,
                wide == cols(*location),
                width == dimensions.width,
                len == cb0.len(),
                paired == cr0.len(),
                paired <= len,
                cb@.len() == len,
                cr@.len() == paired,
                forall|k: int|
                    0 <= k < count(*location) && #[trigger] index_at(*location, width as int, k)
                        < len ==> index_at(*location, width as int, k) < paired && (looks_ahead(
                        prediction,
                    ) ==> forward_cb is Some && forward_cr is Some),
                blocks_of(forward_cb) == cb_of(picture_of(forward_ref)),
                blocks_of(forward_cr) == cr_of(picture_of(forward_ref)),
                available <= residuals_cb@.len(),
                available <= residuals_cr@.len(),
                forall|plane: Plane, p: Block<i16>, b: Block<i16>| #[trigger]
                    call_requires(*restore, (plane, &p, &b)),
                vcb@.len() == (row - location.start.row) * wide + (col - location.start.col),
                vcr@.len() == vcb@.len(),
                cb@ == laid(cb0, *location, width as int, vcb@),
                cr@ == laid(cr0, *location, width as int, vcr@),
                used == at_most(
                    rank(*location, width as int, len, vcb@.len() as int),
                    available as int,
                ),
                rank(*location, width as int, len, vcb@.len() as int) == rank(
                    *location,
                    width as int,
                    paired,
                    vcb@.len() as int,
                ),
                is_chroma(
                    *restore,
                    *location,
                    scaled(prediction, subsampling),
                    residuals_cb@,
                    available as int,
                    dimensions,
                    backward_ref.cb@,
                    cb_of(picture_of(forward_ref)),
                    len,
                    vcb@,
                ),
                is_chroma(
                    *restore,
                    *location,
                    scaled(prediction, subsampling),
                    residuals_cr@,
                    available as int,
                    dimensions,
                    backward_ref.cr@,
                    cr_of(picture_of(forward_ref)),
                    paired,
                    vcr@,
                ),
            decreases location.end.col + 1 - col,
        {
            let ghost k = vcb@.len() as int;
            proof {
                lemma_place_number(*location, row as int, col as int);
                assert(place_at(*location, k).row == row && place_at(*location, k).col == col);
                assert(0 <= row * width <= u64::MAX * u64::MAX) by (nonlinear_arith)
                    requires
                        0 <= row <= u64::MAX,
                        0 <= width <= u64::MAX,
                ;
            }
            let at: u128 = row * width as u128 + col;
            assert(at == index_at(*location, width as int, k));
            let ghost vcb0 = vcb@;
            let ghost vcr0 = vcr@;
            if at < cb.len() as u128 {
                let place: (usize, usize) = (row as usize, col as usize);
                let mut block_cb = predicted_chroma_block(
                    place,
                    prediction,
                    dimensions,
                    subsampling,
                    backward_ref.cb,
                    forward_cb,
                );
                let mut block_cr = predicted_chroma_block(
                    place,
                    prediction,
                    dimensions,
                    subsampling,
                    backward_ref.cr,
                    forward_cr,
                );
                if used < available {
                    let ghost p = block_cb;
                    let ghost q = block_cr;
                    block_cb = (*restore)(Plane::Chroma, &block_cb, &residuals_cb[used]);
                    block_cr = (*restore)(Plane::Chroma, &block_cr, &residuals_cr[used]);
                    proof {
                        assert(call_ensures(
                            *restore,
                            (Plane::Chroma, &p, &residuals_cb@[used as int]),
                            block_cb,
                        ));
                        assert(call_ensures(
                            *restore,
                            (Plane::Chroma, &q, &residuals_cr@[used as int]),
                            block_cr,
                        ));
                    }
                    used = used + 1;
                }
                cb.set(at as usize, block_cb);
                cr.set(at as usize, block_cr);
                proof {
                    vcb@ = vcb0.push(block_cb);
                    vcr@ = vcr0.push(block_cr);
                }
            } else {
                proof {
                    vcb@ = vcb0.push(arbitrary());
                    vcr@ = vcr0.push(arbitrary());
                }
            }
            proof {
                assert(vcb@.drop_last() =~= vcb0);
                assert(vcr@.drop_last() =~= vcr0);
            }
            col = col + 1;
        }
        proof {
            assert((row + 1 - location.start.row) * wide == (row - location.start.row) * wide
                + wide) by (nonlinear_arith);
        }
        row = row + 1;
    }
    (vcb, vcr)
}

/// The smaller of two numbers.
pub open spec fn at_most(n: int, limit: int) -> int {
    if n < limit {
        n
    } else {
        limit
    }
}

/// Where macroblocks lie.
pub open spec fn locations_of<M: AssemblableMacroBlock>(macro_blocks: Seq<M>) -> Seq<
    BlockLocation,
> {
    Seq::new(macro_blocks.len(), |j: int| macro_blocks[j].at())
}

/// Where macroblocks lie in the chroma planes.
pub open spec fn chroma_locations_of<M: AssemblableMacroBlock>(
    macro_blocks: Seq<M>,
    subsampling: Subsampling,
) -> Seq<BlockLocation> {
    Seq::new(macro_blocks.len(), |j: int| macro_blocks[j].at().mapped_to_chroma(subsampling))
}

/// The frame that a frame starts from: the one that follows, if it is there.
pub open spec fn base_of(
    forward_ref: Option<Picture<i16>>,
    backward_ref: Picture<i16>,
) -> Picture<i16> {
    match forward_ref {
        Some(forward) => forward,
        None => backward_ref,
    }
}

/// The number of chroma residuals of a macroblock that have a partner in the
/// other plane.
pub open spec fn pairs<M: AssemblableMacroBlock>(macro_block: M) -> int {
    at_most(macro_block.missed().cb@.len() as int, macro_block.missed().cr@.len() as int)
}

/// The luma blocks are those of the base with the macroblocks laid down.
pub open spec fn is_assembled_luma<
    M: AssemblableMacroBlock,
    F: Fn(Plane, &Block<i16>, &Block<i16>) -> Block<i16>,
>(
    restore: F,
    base: Picture<i16>,
    backward: Seq<Block<i16>>,
    macro_blocks: Seq<M>,
    y: Seq<Block<i16>>,
) -> bool {
    exists|values: Seq<Seq<Block<i16>>>|
        {
            &&& values.len() == macro_blocks.len()
            &&& y == #[trigger] all_laid(
                base.y,
                locations_of(macro_blocks),
                base.dimensions.width as int,
                values,
            )
            &&& forall|j: int|
                0 <= j < macro_blocks.len() ==> is_luma(
                    restore,
                    macro_blocks[j].at(),
                    macro_blocks[j].from(),
                    macro_blocks[j].missed().y@,
                    base.dimensions,
                    backward,
                    base.y,
                    base.y.len(),
                    #[trigger] values[j],
                )
        }
}

/// The blocks of a chroma plane are those of the base with the macroblocks laid
/// down. `residuals` picks the plane's residuals of a macroblock.
pub open spec fn is_assembled_chroma<
    M: AssemblableMacroBlock,
    F: Fn(Plane, &Block<i16>, &Block<i16>) -> Block<i16>,
>(
    restore: F,
    base: Picture<i16>,
    base_plane: Seq<Block<i16>>,
    backward: Seq<Block<i16>>,
    forward: Seq<Block<i16>>,
    macro_blocks: Seq<M>,
    residuals: spec_fn(M) -> Seq<Block<i16>>,
    plane: Seq<Block<i16>>,
) -> bool {
    let dimensions = base.dimensions.subsampled(base.subsampling);
    exists|values: Seq<Seq<Block<i16>>>|
        {
            &&& values.len() == macro_blocks.len()
            &&& plane == #[trigger] all_laid(
                base_plane,
                chroma_locations_of(macro_blocks, base.subsampling),
                dimensions.width as int,
                values,
            )
            &&& forall|j: int|
                0 <= j < macro_blocks.len() ==> {
                    let location = macro_blocks[j].at().mapped_to_chroma(base.subsampling);
                    &&& (#[trigger] values[j]).len() == count(location)
                    &&& is_chroma(
                        restore,
                        location,
                        scaled(macro_blocks[j].from(), base.subsampling),
                        residuals(macro_blocks[j]),
                        pairs(macro_blocks[j]),
                        dimensions,
                        backward,
                        forward,
                        base_plane.len(),
                        values[j],
                    )
                }
        }
}

/// The number of blocks that the chroma planes of a frame have in common. Blocks
/// behind them are not touched.
pub open spec fn paired_blocks(base: Picture<i16>) -> int {
    at_most(base.cb.len() as int, base.cr.len() as int)
}

/// The number of blocks in a row of the chroma planes of a frame.
pub open spec fn chroma_width(base: Picture<i16>) -> int {
    base.dimensions.subsampled(base.subsampling).width as int
}

/// Place `k` of a location of chroma blocks lies in the plane, so its blocks are
/// laid down.
pub open spec fn is_touched(location: BlockLocation, base: Picture<i16>, k: int) -> bool {
    0 <= k < count(location) && index_at(location, chroma_width(base), k) < base.cb.len()
}

/// A macroblock can be laid down: wherever it lies in the Cb plane it lies in the
/// Cr plane too, and the frame that it looks ahead to is there.
pub open spec fn fits<M: AssemblableMacroBlock>(
    macro_block: M,
    base: Picture<i16>,
    has_forward: bool,
) -> bool {
    let location = macro_block.at().mapped_to_chroma(base.subsampling);
    forall|k: int| #[trigger]
        is_touched(location, base, k) ==> {
            &&& index_at(location, chroma_width(base), k) < base.cr.len()
            &&& looks_ahead(macro_block.from()) ==> has_forward
        }
}

/// All macroblocks can be laid down.
pub open spec fn all_fit<M: AssemblableMacroBlock>(
    macro_blocks: Seq<M>,
    base: Picture<i16>,
    has_forward: bool,
) -> bool {
    forall|j: int|
        0 <= j < macro_blocks.len() ==> fits(#[trigger] macro_blocks[j], base, has_forward)
}

/// A macroblock lies in the chroma planes, at least with one block.
pub open spec fn is_in_planes<M: AssemblableMacroBlock>(
    macro_block: M,
    base: Picture<i16>,
) -> bool {
    exists|k: int| #[trigger]
        is_touched(macro_block.at().mapped_to_chroma(base.subsampling), base, k)
}

/// Tells whether a macroblock lies in the chroma planes.
pub(crate) fn lies_in_planes<M: AssemblableMacroBlock>(
    macro_block: &M,
    base: &SubSampleBlockGroupRef<'_, i16>,
) -> (r: bool)
    ensures
        r == is_in_planes(*macro_block, base@),
{
    let location = macro_block.location().map_to_chroma(base.subsampling);
    let width: usize = base.dimensions.subsample(base.subsampling).width;
    let row: usize = location.start.row;
    let col: usize = location.start.col;
    proof {
        assert(0 <= row * width <= u64::MAX * u64::MAX) by (nonlinear_arith)
            requires
                0 <= row <= u64::MAX,
                0 <= width <= u64::MAX,
        ;
    }
    let first: u128 = row as u128 * width as u128 + col as u128;
    let r = row <= location.end.row && col <= location.end.col && first < base.cb.len() as u128;
    proof {
        if r {
            lemma_place_number(location, row as int, col as int);
            let k = (row - row) * cols(location) + (col - col);
            assert(k == 0) by (nonlinear_arith)
                requires
                    k == (row - row) * cols(location) + (col - col),
            ;
            assert(is_touched(location, base@, 0));
        }
        assert forall|k: int| #[trigger] is_touched(location, base@, k) implies r by {
            lemma_place_at(location, k);
            let there = place_at(location, k).row as int;
            assert(row * width <= there * width) by (nonlinear_arith)
                requires
                    row <= there,
                    0 <= width,
            ;
        }
    }
    r
}

/// Where the Cr plane is no shorter than the Cb plane, all macroblocks can be laid
/// down that have the frames that they look at.
pub proof fn lemma_like_planes_fit<M: AssemblableMacroBlock>(
    macro_blocks: Seq<M>,
    base: Picture<i16>,
    has_forward: bool,
)
    requires
        base.cb.len() <= base.cr.len(),
        forall|j: int|
            0 <= j < macro_blocks.len() && looks_ahead((#[trigger] macro_blocks[j]).from())
                && is_in_planes(macro_blocks[j], base) ==> has_forward,
    ensures
        all_fit(macro_blocks, base, has_forward),
{
    assert forall|j: int| 0 <= j < macro_blocks.len() implies fits(
        #[trigger] macro_blocks[j],
        base,
        has_forward,
    ) by {
        let location = macro_blocks[j].at().mapped_to_chroma(base.subsampling);
        assert forall|k: int| #[trigger] is_touched(location, base, k) && looks_ahead(
            macro_blocks[j].from(),
        ) implies has_forward by {
            assert(is_in_planes(macro_blocks[j], base));
        }
    }
}

/// A frame is put together from its references and its macroblocks.
pub open spec fn is_assembled<
    M: AssemblableMacroBlock,
    F: Fn(Plane, &Block<i16>, &Block<i16>) -> Block<i16>,
>(
    restore: F,
    forward_ref: Option<Picture<i16>>,
    backward_ref: Picture<i16>,
    macro_blocks: Seq<M>,
    r: Picture<i16>,
) -> bool {
    let base = base_of(forward_ref, backward_ref);
    let paired = paired_blocks(base);
    &&& r.dimensions == base.dimensions
    &&& r.subsampling == base.subsampling
    &&& is_assembled_luma(restore, base, backward_ref.y, macro_blocks, r.y)
    &&& is_assembled_chroma(
        restore,
        base,
        base.cb,
        backward_ref.cb,
        cb_of(forward_ref),
        macro_blocks,
        |m: M| m.missed().cb@,
        r.cb,
    )
    &&& is_assembled_chroma(
        restore,
        base,
        base.cr.take(paired),
        backward_ref.cr,
        cr_of(forward_ref),
        macro_blocks,
        |m: M| m.missed().cr@,
        r.cr.take(paired),
    )
    &&& r.cr.len() == base.cr.len()
    &&& r.cr.skip(paired) == base.cr.skip(paired)
}

/// A frame that was put together has as many blocks as what it started from.
pub proof fn lemma_assembled_len<
    M: AssemblableMacroBlock,
    F: Fn(Plane, &Block<i16>, &Block<i16>) -> Block<i16>,
>(
    restore: F,
    forward_ref: Option<Picture<i16>>,
    backward_ref: Picture<i16>,
    macro_blocks: Seq<M>,
    r: Picture<i16>,
)
    requires
        is_assembled(restore, forward_ref, backward_ref, macro_blocks, r),
    ensures
        r.y.len() == base_of(forward_ref, backward_ref).y.len(),
        r.cb.len() == base_of(forward_ref, backward_ref).cb.len(),
        r.cr.len() == base_of(forward_ref, backward_ref).cr.len(),
{
    let base = base_of(forward_ref, backward_ref);
    let dimensions = base.dimensions.subsampled(base.subsampling);
    let luma = locations_of(macro_blocks);
    let chroma = chroma_locations_of(macro_blocks, base.subsampling);
    let width = base.dimensions.width as int;
    let chroma_width = dimensions.width as int;
    let y = choose|values: Seq<Seq<Block<i16>>>| r.y == #[trigger] all_laid(
        base.y,
        luma,
        width,
        values,
    );
    let cb = choose|values: Seq<Seq<Block<i16>>>| r.cb == #[trigger] all_laid(
        base.cb,
        chroma,
        chroma_width,
        values,
    );
    lemma_all_laid_len(base.y, luma, width, y);
    lemma_all_laid_len(base.cb, chroma, chroma_width, cb);
}

/// Puts a frame together. It starts as a copy of the frame that follows, or of
/// the one before where none follows. Then every macroblock is laid down: first
/// all luma blocks, then all chroma blocks.
pub fn reassemble_frame<
    M: AssemblableMacroBlock,
    F: Fn(Plane, &Block<i16>, &Block<i16>) -> Block<i16>,
>(
    forward_ref: Option<&SubSampleBlockGroupRef<'_, i16>>,
    backward_ref: &SubSampleBlockGroupRef<'_, i16>,
    macro_blocks: &[M],
    restore: &F,
) -> (r: Result<SubSampleBlockGroup<i16>>)
    requires
        all_fit(
            macro_blocks@,
            base_of(picture_of(forward_ref), backward_ref@),
            forward_ref is Some,
        ),
        forall|plane: Plane, p: Block<i16>, b: Block<i16>| #[trigger]
            call_requires(*restore, (plane, &p, &b)),
    ensures
        r is Ok,
        is_assembled(*restore, picture_of(forward_ref), backward_ref@, macro_blocks@, r->Ok_0@),
{
    let base = match forward_ref {
        Some(forward) => forward,
        None => backward_ref,
    };
    let dimensions = base.dimensions;
    let subsampling = base.subsampling;
    let chroma_dims = dimensions.subsample(subsampling);
    let mut y: Vec<Block<i16>> = vstd::slice::slice_to_vec(base.y);
    let mut cb: Vec<Block<i16>> = vstd::slice::slice_to_vec(base.cb);
    let paired: usize = if base.cb.len() < base.cr.len() {
        base.cb.len()
    } else {
        base.cr.len()
    };
    let mut cr: Vec<Block<i16>> = vstd::slice::slice_to_vec(
        vstd::slice::slice_subrange(base.cr, 0, paired),
    );
    let ghost base_cr = base.cr@.take(paired as int);
    assert(cr@ =~= base_cr);
    let ghost locations = locations_of(macro_blocks@);
    let ghost mut luma: Seq<Seq<Block<i16>>> = Seq::empty();
    let mut j: usize = 0;
    while j < macro_blocks.len()
        invariant
            j <= macro_blocks@.len(),
            base@ == base_of(picture_of(forward_ref), backward_ref@),
            dimensions == base.dimensions,
            locations == locations_of(macro_blocks@),
            forall|plane: Plane, p: Block<i16>, b: Block<i16>| #[trigger]
                call_requires(*restore, (plane, &p, &b)),
            y@.len() == base.y@.len(),
            luma.len() == j,
            y@ == all_laid(base.y@, locations, dimensions.width as int, luma),
            forall|i: int|
                0 <= i < j ==> is_luma(
                    *restore,
                    macro_blocks@[i].at(),
                    macro_blocks@[i].from(),
                    macro_blocks@[i].missed().y@,
                    base.dimensions,
                    backward_ref.y@,
                    base.y@,
                    base.y@.len(),
                    #[trigger] luma[i],
                ),
        decreases macro_blocks@.len() - j,
    {
        let m = &macro_blocks[j];
        let values = lay_luma(
            &mut y,
            m.location(),
            m.prediction(),
            m.residuals().y.as_slice(),
            dimensions,
            backward_ref.y,
            base.y,
            restore,
        );
        proof {
            let before = luma;
            luma = before.push(values@);
            assert(luma.drop_last() =~= before);
        }
        j = j + 1;
    }
    let ghost chroma_locations = chroma_locations_of(macro_blocks@, subsampling);
    let ghost mut vcb: Seq<Seq<Block<i16>>> = Seq::empty();
    let ghost mut vcr: Seq<Seq<Block<i16>>> = Seq::empty();
    let mut j: usize = 0;
    while j < macro_blocks.len()
        invariant
            j <= macro_blocks@.len(),
            base@ == base_of(picture_of(forward_ref), backward_ref@),
            subsampling == base.subsampling,
            chroma_dims == base.dimensions.subsampled(base.subsampling),
            base_cr.len() == paired_blocks(base@),
            chroma_locations == chroma_locations_of(macro_blocks@, subsampling),
            all_fit(macro_blocks@, base@, forward_ref is Some),
            forall|plane: Plane, p: Block<i16>, b: Block<i16>| #[trigger]
                call_requires(*restore, (plane, &p, &b)),
            cb@.len() == base.cb@.len(),
            cr@.len() == base_cr.len(),
            vcb.len() == j,
            vcr.len() == j,
            cb@ == all_laid(base.cb@, chroma_locations, chroma_dims.width as int, vcb),
            cr@ == all_laid(base_cr, chroma_locations, chroma_dims.width as int, vcr),
            forall|i: int|
                0 <= i < j ==> {
                    let location = macro_blocks@[i].at().mapped_to_chroma(base.subsampling);
                    &&& (#[trigger] vcb[i]).len() == count(location)
                    &&& is_chroma(
                        *restore,
                        location,
                        scaled(macro_blocks@[i].from(), base.subsampling),
                        macro_blocks@[i].missed().cb@,
                        pairs(macro_blocks@[i]),
                        chroma_dims,
                        backward_ref.cb@,
                        cb_of(picture_of(forward_ref)),
                        base.cb@.len(),
                        vcb[i],
                    )
                },
            forall|i: int|
                0 <= i < j ==> {
                    let location = macro_blocks@[i].at().mapped_to_chroma(base.subsampling);
                    &&& (#[trigger] vcr[i]).len() == count(location)
                    &&& is_chroma(
                        *restore,
                        location,
                        scaled(macro_blocks@[i].from(), base.subsampling),
                        macro_blocks@[i].missed().cr@,
                        pairs(macro_blocks@[i]),
                        chroma_dims,
                        backward_ref.cr@,
                        cr_of(picture_of(forward_ref)),
                        base_cr.len(),
                        vcr[i],
                    )
                },
        decreases macro_blocks@.len() - j,
    {
        let m = &macro_blocks[j];
        let location = m.location().map_to_chroma(subsampling);
        let residuals = m.residuals();
        proof {
            assert(fits(macro_blocks@[j as int], base@, forward_ref is Some));
            assert forall|k: int|
                0 <= k < count(location) && #[trigger] index_at(
                    location,
                    chroma_dims.width as int,
                    k,
                ) < cb@.len() implies index_at(location, chroma_dims.width as int, k) < cr@.len()
                && (looks_ahead(m.from()) ==> forward_ref is Some) by {
                assert(is_touched(location, base@, k));
            }
        }
        let values = lay_chroma(
            &mut cb,
            &mut cr,
            &location,
            m.prediction(),
            residuals.cb.as_slice(),
            residuals.cr.as_slice(),
            chroma_dims,
            subsampling,
            forward_ref,
            backward_ref,
            restore,
        );
        proof {
            let before_cb = vcb;
            let before_cr = vcr;
            vcb = before_cb.push(values.0@);
            vcr = before_cr.push(values.1@);
            assert(vcb.drop_last() =~= before_cb);
            assert(vcr.drop_last() =~= before_cr);
        }
        j = j + 1;
    }
    let ghost laid_cr = cr@;
    let mut i: usize = paired;
    assert(laid_cr + base.cr@.subrange(paired as int, paired as int) =~= laid_cr);
    while i < base.cr.len()
        invariant
            paired <= i <= base.cr@.len(),
            cr@ == laid_cr + base.cr@.subrange(paired as int, i as int),
        decreases base.cr@.len() - i,
    {
        cr.push(base.cr[i]);
        i = i + 1;
        assert(cr@ =~= laid_cr + base.cr@.subrange(paired as int, i as int));
    }
    assert(cr@.take(paired as int) =~= laid_cr);
    assert(cr@.skip(paired as int) =~= base.cr@.skip(paired as int));
    let r = SubSampleBlockGroup::new(dimensions, subsampling, y, cb, cr);
    proof {
        assert(r.y@ == all_laid(
            base@.y,
            locations_of(macro_blocks@),
            base@.dimensions.width as int,
            luma,
        ));
        assert(is_assembled_luma(*restore, base@, backward_ref.y@, macro_blocks@, r.y@));
        assert(is_assembled_chroma(
            *restore,
            base@,
            base.cb@,
            backward_ref.cb@,
            cb_of(picture_of(forward_ref)),
            macro_blocks@,
            |m: M| m.missed().cb@,
            r.cb@,
        ));
        assert(is_assembled_chroma(
            *restore,
            base@,
            base_cr,
            backward_ref.cr@,
            cr_of(picture_of(forward_ref)),
            macro_blocks@,
            |m: M| m.missed().cr@,
            laid_cr,
        ));
    }
    Ok(r)
}

/// Laying down values that are close to the blocks of a frame leaves close what
/// was close.
proof fn lemma_laid_close(
    blocks: Seq<Block<i16>>,
    location: BlockLocation,
    dimensions: BlockDimensions,
    values: Seq<Block<i16>>,
    current: Seq<Block<i16>>,
    close: spec_fn(Seq<i16>, Seq<i16>) -> bool,
)
    requires
        blocks.len() == current.len() == dimensions.width * dimensions.height,
        location.end.row < dimensions.height,
        location.end.col < dimensions.width,
        values.len() <= count(location),
        forall|k: int|
            0 <= k < values.len() ==> close(
                current[index_at(location, dimensions.width as int, k)]@,
                (#[trigger] values[k])@,
            ),
    ensures
        ({
            let after = laid(blocks, location, dimensions.width as int, values);
            &&& after.len() == blocks.len()
            &&& forall|t: int|
                0 <= t < blocks.len() && close(current[t]@, blocks[t]@) ==> close(
                    current[t]@,
                    (#[trigger] after[t])@,
                )
            &&& forall|k: int|
                0 <= k < values.len() ==> {
                    let t = #[trigger] index_at(location, dimensions.width as int, k);
                    0 <= t < blocks.len() && close(current[t]@, after[t]@)
                }
        }),
    decreases values.len(),
{
    if values.len() > 0 {
        let width = dimensions.width as int;
        let before = values.drop_last();
        assert forall|k: int| 0 <= k < before.len() implies close(
            current[index_at(location, width, k)]@,
            (#[trigger] before[k])@,
        ) by {
            assert(before[k] == values[k]);
        }
        lemma_laid_close(blocks, location, dimensions, before, current, close);
        let k = values.len() - 1;
        lemma_place_at(location, k);
        super::grid::lemma_cell(
            dimensions,
            place_at(location, k).row as int,
            place_at(location, k).col as int,
        );
        assert(close(current[index_at(location, width, k)]@, values[k]@));
    }
}

/// The macroblocks of a frame as far as the luma plane goes: they lie in the
/// grid, every place is in one of them, and each holds what its prediction
/// missed, taken through the transform.
pub open spec fn is_luma_cover<
    M: AssemblableMacroBlock,
    C: Fn(Plane, &Block<i16>) -> Block<i16>,
>(
    code: C,
    current: Picture<i16>,
    backward: Seq<Block<i16>>,
    forward: Seq<Block<i16>>,
    macro_blocks: Seq<M>,
) -> bool {
    &&& forall|row: int, col: int|
        0 <= row < current.dimensions.height && 0 <= col < current.dimensions.width
            ==> #[trigger] covered(locations_of(macro_blocks), row, col)
    &&& forall|j: int|
        0 <= j < macro_blocks.len() ==> {
            let m = #[trigger] macro_blocks[j];
            &&& m.at().end.row < current.dimensions.height
            &&& m.at().end.col < current.dimensions.width
            &&& exists|spatial: Seq<Block<i16>>|
                {
                    &&& #[trigger] is_coded(code, Plane::Luma, spatial, m.missed().y@)
                    &&& block_views(spatial) == missed_at(
                        all_places(m.at()),
                        current.dimensions.width as int,
                        current.y,
                        predictions(
                            all_places(m.at()),
                            m.from(),
                            current.dimensions,
                            backward,
                            forward,
                        ),
                    )
                }
        }
}

/// The transform gives a block back up to `close`: what a prediction missed,
/// taken through the transform and put back onto the prediction, is close to
/// the block.
pub open spec fn gives_back<
    C: Fn(Plane, &Block<i16>) -> Block<i16>,
    F: Fn(Plane, &Block<i16>, &Block<i16>) -> Block<i16>,
>(
    code: C,
    restore: F,
    plane: Plane,
    close: spec_fn(Seq<i16>, Seq<i16>) -> bool,
) -> bool {
    forall|block: Block<i16>, p: Block<i16>, d: Block<i16>, q: Block<i16>, r: Block<i16>|
        d@ == difference(block@, p@) && #[trigger] call_ensures(code, (plane, &d), q)
            && #[trigger] call_ensures(restore, (plane, &p, &q), r) ==> close(
            #[trigger] block@,
            r@,
        )
}

/// Every luma block of a frame comes back as close as the transform gives back
/// single blocks, whatever the prediction was.
pub proof fn law_luma_comes_back<
    M: AssemblableMacroBlock,
    C: Fn(Plane, &Block<i16>) -> Block<i16>,
    F: Fn(Plane, &Block<i16>, &Block<i16>) -> Block<i16>,
>(
    code: C,
    restore: F,
    current: Picture<i16>,
    forward_ref: Option<Picture<i16>>,
    backward_ref: Picture<i16>,
    macro_blocks: Seq<M>,
    r: Picture<i16>,
    close: spec_fn(Seq<i16>, Seq<i16>) -> bool,
)
    requires
        current.y.len() == current.dimensions.width * current.dimensions.height,
        base_of(forward_ref, backward_ref).dimensions == current.dimensions,
        base_of(forward_ref, backward_ref).y.len() == current.y.len(),
        forall|j: int|
            0 <= j < macro_blocks.len() && looks_ahead((#[trigger] macro_blocks[j]).from())
                ==> forward_ref is Some,
        is_luma_cover(code, current, backward_ref.y, luma_of(forward_ref), macro_blocks),
        is_assembled(restore, forward_ref, backward_ref, macro_blocks, r),
        gives_back(code, restore, Plane::Luma, close),
    ensures
        r.y.len() == current.y.len(),
        forall|t: int| 0 <= t < r.y.len() ==> close(current.y[t]@, (#[trigger] r.y[t])@),
{
    let base = base_of(forward_ref, backward_ref);
    let width = base.dimensions.width as int;
    let locations = locations_of(macro_blocks);
    let values = choose|values: Seq<Seq<Block<i16>>>|
        {
            &&& values.len() == macro_blocks.len()
            &&& r.y == #[trigger] all_laid(base.y, locations, width, values)
            &&& forall|j: int|
                0 <= j < macro_blocks.len() ==> is_luma(
                    restore,
                    macro_blocks[j].at(),
                    macro_blocks[j].from(),
                    macro_blocks[j].missed().y@,
                    base.dimensions,
                    backward_ref.y,
                    base.y,
                    base.y.len(),
                    #[trigger] values[j],
                )
        };
    lemma_all_laid_len(base.y, locations, width, values);
    assert forall|j: int| 0 <= j < values.len() implies (#[trigger] values[j]).len() == count(
        locations[j],
    ) && close_values(locations[j], width, values[j], current.y, close) by {
        let m = macro_blocks[j];
        let location = m.at();
        let spatial = choose|spatial: Seq<Block<i16>>|
            {
                &&& #[trigger] is_coded(code, Plane::Luma, spatial, m.missed().y@)
                &&& block_views(spatial) == missed_at(
                    all_places(m.at()),
                    current.dimensions.width as int,
                    current.y,
                    predictions(
                        all_places(m.at()),
                        m.from(),
                        current.dimensions,
                        backward_ref.y,
                        luma_of(forward_ref),
                    ),
                )
            };
        assert(block_views(spatial).len() == count(location)) by {
            lemma_count(location);
        }
        assert forall|k: int| 0 <= k < values[j].len() implies close(
            current.y[index_at(location, width, k)]@,
            (#[trigger] values[j][k])@,
        ) by {
            lemma_place_at(location, k);
            let place = place_at(location, k);
            super::grid::lemma_cell(base.dimensions, place.row as int, place.col as int);
            let at = index_at(location, width, k);
            let from = predicted(place, m.from(), base.dimensions, backward_ref.y, base.y);
            assert(from == predicted(
                place,
                m.from(),
                base.dimensions,
                backward_ref.y,
                luma_of(forward_ref),
            ));
            assert(restored_as(restore, Plane::Luma, from, m.missed().y@[k], values[j][k]));
            let p = choose|p: Block<i16>|
                p@ == from && #[trigger] call_ensures(
                    restore,
                    (Plane::Luma, &p, &m.missed().y@[k]),
                    values[j][k],
                );
            assert(block_views(spatial)[k] == spatial[k]@);
            assert(spatial[k]@ == difference(current.y[at]@, p@));
            assert(call_ensures(code, (Plane::Luma, &spatial[k]), m.missed().y@[k]));
        }
    }
    lemma_all_laid_close(
        base.y,
        locations,
        base.dimensions,
        values,
        current.y,
        close,
    );
    assert forall|t: int| 0 <= t < r.y.len() implies close(
        current.y[t]@,
        (#[trigger] r.y[t])@,
    ) by {
        super::grid::lemma_row_and_col(base.dimensions, t);
        let row = t / width;
        let col = t % width;
        assert(covered(locations, row, col));
        let j = choose|j: int|
            0 <= j < locations.len() && covers(#[trigger] locations[j], row, col);
        lemma_place_number(locations[j], row, col);
        let k = (row - locations[j].start.row) * cols(locations[j]) + (col
            - locations[j].start.col);
        assert(index_at(locations[j], width, k) == t);
        assert(values[j].len() == count(locations[j]));
    }
}

/// The number of places of a location is not negative.
proof fn lemma_count(location: BlockLocation)
    ensures
        0 <= count(location),
{
    assert(0 <= count(location)) by (nonlinear_arith)
        requires
            count(location) == rows(location) * cols(location),
            0 <= rows(location),
            0 <= cols(location),
    ;
}

/// The values are close to the blocks of a frame that they stand for.
pub open spec fn close_values(
    location: BlockLocation,
    width: int,
    values: Seq<Block<i16>>,
    current: Seq<Block<i16>>,
    close: spec_fn(Seq<i16>, Seq<i16>) -> bool,
) -> bool {
    forall|k: int|
        0 <= k < values.len() ==> close(
            current[index_at(location, width, k)]@,
            (#[trigger] values[k])@,
        )
}

/// After all values were laid down, every place that one of them is for is
/// close.
pub proof fn lemma_all_laid_close(
    blocks: Seq<Block<i16>>,
    locations: Seq<BlockLocation>,
    dimensions: BlockDimensions,
    values: Seq<Seq<Block<i16>>>,
    current: Seq<Block<i16>>,
    close: spec_fn(Seq<i16>, Seq<i16>) -> bool,
)
    requires
        blocks.len() == current.len() == dimensions.width * dimensions.height,
        values.len() <= locations.len(),
        forall|j: int|
            0 <= j < values.len() ==> {
                &&& (#[trigger] locations[j]).end.row < dimensions.height
                &&& locations[j].end.col < dimensions.width
            },
        forall|j: int|
            0 <= j < values.len() ==> {
                &&& (#[trigger] values[j]).len() <= count(locations[j])
                &&& close_values(
                    locations[j],
                    dimensions.width as int,
                    values[j],
                    current,
                    close,
                )
            },
    ensures
        ({
            let after = all_laid(blocks, locations, dimensions.width as int, values);
            &&& after.len() == blocks.len()
            &&& forall|j: int, k: int|
                0 <= j < values.len() && 0 <= k < values[j].len() ==> {
                    let t = #[trigger] index_at(locations[j], dimensions.width as int, k);
                    close(current[t]@, after[t]@)
                }
        }),
    decreases values.len(),
{
    if values.len() > 0 {
        let width = dimensions.width as int;
        let before = values.drop_last();
        assert forall|j: int| 0 <= j < before.len() implies {
            &&& (#[trigger] before[j]).len() <= count(locations[j])
            &&& close_values(locations[j], width, before[j], current, close)
        } by {
            assert(before[j] == values[j]);
        }
        lemma_all_laid_close(blocks, locations, dimensions, before, current, close);
        let half = all_laid(blocks, locations, width, before);
        let last = values.len() - 1;
        assert(close_values(locations[last], width, values[last], current, close));
        lemma_laid_close(half, locations[last], dimensions, values[last], current, close);
        let after = all_laid(blocks, locations, width, values);
        assert forall|j: int, k: int|
            0 <= j < values.len() && 0 <= k < values[j].len() implies {
            let t = #[trigger] index_at(locations[j], width, k);
            close(current[t]@, after[t]@)
        } by {
            let t = index_at(locations[j], width, k);
            assert(values[j].len() <= count(locations[j]));
            lemma_place_at(locations[j], k);
            let place = place_at(locations[j], k);
            super::grid::lemma_cell(dimensions, place.row as int, place.col as int);
            if j < last {
                assert(before[j] == values[j]);
                assert(close(current[t]@, half[t]@));
            }
        }
    }
}

} // verus!
