//! The search in blocks of 32-bit samples.
use vstd::prelude::*;

use super::search;
use super::search::{cost, found, still, tried};
use super::{MotionVector, SMALL_DIAMOND};
use crate::block::Block;
use crate::dimensions::BlockDimensions;
use crate::point::Point;

verus! {

/// Where a block came from, and how far the block there and this one are
/// apart.
pub fn ldsp_blocks(
    current: &Block<i32>,
    reference: &[Block<i32>],
    dimensions: &BlockDimensions,
    point: Point,
) -> (r: (MotionVector, i32))
    ensures
        (r.0, r.1 as int) == found(*current, reference@, *dimensions, point),
{
    search::ldsp_blocks(current, reference, dimensions, point)
}

/// Tries the four neighbours.
pub fn sdsp_blocks(
    current: &Block<i32>,
    reference: &[Block<i32>],
    dimensions: &BlockDimensions,
    point: Point,
    best_mv: Option<MotionVector>,
    best_score: Option<i32>,
) -> (r: (MotionVector, i32))
    ensures
        ({
            let mv = match best_mv {
                Some(mv) => mv,
                None => MotionVector { x: 0, y: 0 },
            };
            let score = match best_score {
                Some(score) => score as int,
                None => still(*current, reference@, *dimensions, point).1,
            };
            (r.0, r.1 as int) == tried(
                *current,
                reference@,
                *dimensions,
                point,
                SMALL_DIAMOND@,
                4,
                (mv, score),
            )
        }),
{
    search::sdsp_blocks(current, reference, dimensions, point, best_mv, best_score)
}

/// How far a block and the block that a vector points to are apart.
pub fn sum_of_abs_diff_block(
    current: &Block<i32>,
    reference: &[Block<i32>],
    dimensions: &BlockDimensions,
    point: Point,
    mv: MotionVector,
) -> (r: i32)
    ensures
        r == cost(*current, reference@, *dimensions, point, mv, i32::MAX as int),
{
    search::sum_of_abs_diff_block(current, reference, dimensions, point, mv, i32::MAX)
}

} // verus!
