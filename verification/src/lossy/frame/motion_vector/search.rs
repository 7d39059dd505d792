//! The search for the block that a block came from.
//!
//! A place is better than another one where the block there is less apart from
//! the block in question. The search starts where the block is, tries a wide
//! and a narrow diamond of places around it, and then the neighbours of the
//! best place.
use vstd::prelude::*;

use super::{MotionVector, LARGE_DIAMOND, SMALL_DIAMOND};
use crate::block::{abs_difference, capped, lemma_abs_difference_grows, Block};
use crate::dimensions::BlockDimensions;
use crate::point::Point;
use crate::sample::Sample;

verus! {

/// The row and the column that a vector points to.
pub open spec fn target(point: Point, mv: MotionVector) -> (int, int) {
    (point.row + mv.y, point.col + mv.x)
}

/// A place in the grid.
pub open spec fn in_grid(dimensions: BlockDimensions, place: (int, int)) -> bool {
    0 <= place.0 < dimensions.height && 0 <= place.1 < dimensions.width
}

/// The index of a place.
pub open spec fn grid_index(dimensions: BlockDimensions, place: (int, int)) -> int {
    place.0 * dimensions.width + place.1
}

/// A place in the grid with a block of the reference.
pub open spec fn has_block(dimensions: BlockDimensions, count: nat, place: (int, int)) -> bool {
    in_grid(dimensions, place) && grid_index(dimensions, place) < count
}

/// How far a block and the block that a vector points to are apart, up to a
/// threshold. Where there is no block, as far as can be.
pub open spec fn cost<T: Sample>(
    current: Block<T>,
    reference: Seq<Block<T>>,
    dimensions: BlockDimensions,
    point: Point,
    mv: MotionVector,
    threshold: int,
) -> int {
    let place = target(point, mv);
    if has_block(dimensions, reference.len(), place) {
        capped(
            abs_difference(current@, reference[grid_index(dimensions, place)]@, 64),
            threshold,
        )
    } else {
        T::hi()
    }
}

/// The vector of a pair.
pub open spec fn vector_of(offset: (isize, isize)) -> MotionVector {
    MotionVector { x: offset.0, y: offset.1 }
}

/// The better of a vector and the best one so far.
pub open spec fn better<T: Sample>(
    current: Block<T>,
    reference: Seq<Block<T>>,
    dimensions: BlockDimensions,
    point: Point,
    mv: MotionVector,
    best: (MotionVector, int),
) -> (MotionVector, int) {
    let score = cost(current, reference, dimensions, point, mv, best.1);
    if in_grid(dimensions, target(point, mv)) && score < best.1 {
        (mv, score)
    } else {
        best
    }
}

/// The best vector after the first `n` offsets of a list.
pub open spec fn tried<T: Sample>(
    current: Block<T>,
    reference: Seq<Block<T>>,
    dimensions: BlockDimensions,
    point: Point,
    offsets: Seq<(isize, isize)>,
    n: int,
    best: (MotionVector, int),
) -> (MotionVector, int)
    decreases n,
{
    if n <= 0 {
        best
    } else {
        better(
            current,
            reference,
            dimensions,
            point,
            vector_of(offsets[n - 1]),
            tried(current, reference, dimensions, point, offsets, n - 1, best),
        )
    }
}

/// The `n`-th neighbour of a vector, row by row.
pub open spec fn neighbour(mv: MotionVector, n: int) -> MotionVector {
    MotionVector { x: (mv.x + n % 3 - 1) as isize, y: (mv.y + n / 3 - 1) as isize }
}

/// The best vector after the first `n` neighbours, each one a neighbour of the
/// best vector so far.
pub open spec fn refined<T: Sample>(
    current: Block<T>,
    reference: Seq<Block<T>>,
    dimensions: BlockDimensions,
    point: Point,
    n: int,
    best: (MotionVector, int),
) -> (MotionVector, int)
    decreases n,
{
    if n <= 0 {
        best
    } else {
        let so_far = refined(current, reference, dimensions, point, n - 1, best);
        if n == 5 {
            so_far
        } else {
            better(
                current,
                reference,
                dimensions,
                point,
                neighbour(so_far.0, n - 1),
                so_far,
            )
        }
    }
}

/// Where the search starts: at the block itself.
pub open spec fn still<T: Sample>(
    current: Block<T>,
    reference: Seq<Block<T>>,
    dimensions: BlockDimensions,
    point: Point,
) -> (MotionVector, int) {
    let mv = MotionVector { x: 0, y: 0 };
    (mv, cost(current, reference, dimensions, point, mv, T::hi()))
}

/// What the whole search finds.
pub open spec fn found<T: Sample>(
    current: Block<T>,
    reference: Seq<Block<T>>,
    dimensions: BlockDimensions,
    point: Point,
) -> (MotionVector, int) {
    let wide = tried(
        current,
        reference,
        dimensions,
        point,
        LARGE_DIAMOND@,
        12,
        still(current, reference, dimensions, point),
    );
    let narrow = tried(current, reference, dimensions, point, SMALL_DIAMOND@, 4, wide);
    refined(current, reference, dimensions, point, 9, narrow)
}

/// A vector that points not further than `reach` blocks.
pub open spec fn within(mv: MotionVector, reach: int) -> bool {
    -reach <= mv.x <= reach && -reach <= mv.y <= reach
}

/// Whether a vector points into the grid.
fn points_into_grid(dimensions: &BlockDimensions, point: Point, mv: MotionVector) -> (r: bool)
    ensures
        r == in_grid(*dimensions, target(point, mv)),
{
    let row: i128 = point.row as i128 + mv.y as i128;
    let col: i128 = point.col as i128 + mv.x as i128;
    0 <= row && row < dimensions.height as i128 && 0 <= col && col < dimensions.width as i128
}

/// How far a block and the block that a vector points to are apart, counted up
/// to a threshold. Where there is no block, as far as can be.
pub fn sum_of_abs_diff_block<T: Sample>(
    current: &Block<T>,
    reference: &[Block<T>],
    dimensions: &BlockDimensions,
    point: Point,
    mv: MotionVector,
    threshold: T,
) -> (r: T)
    ensures
        r.num() == cost(*current, reference@, *dimensions, point, mv, threshold.num()),
{
    proof {
        T::lemma_type();
    }
    if !points_into_grid(dimensions, point, mv) {
        return T::from_i64(T::max_value());
    }
    let row: usize = (point.row as i128 + mv.y as i128) as usize;
    let col: usize = (point.col as i128 + mv.x as i128) as usize;
    let len: usize = reference.len();
    match row.checked_mul(dimensions.width) {
        Some(start) => {
            if start < len && col < len - start {
                current.sum_of_abs_difference_early_exit(&reference[start + col], threshold)
            } else {
                T::from_i64(T::max_value())
            }
        },
        None => T::from_i64(T::max_value()),
    }
}

/// Takes a vector where it is better than the best one so far.
fn take_better<T: Sample>(
    current: &Block<T>,
    reference: &[Block<T>],
    dimensions: &BlockDimensions,
    point: Point,
    mv: MotionVector,
    best: (MotionVector, T),
) -> (r: (MotionVector, T))
    ensures
        (r.0, r.1.num()) == better(
            *current,
            reference@,
            *dimensions,
            point,
            mv,
            (best.0, best.1.num()),
        ),
{
    if !points_into_grid(dimensions, point, mv) {
        return best;
    }
    let score: T = sum_of_abs_diff_block(current, reference, dimensions, point, mv, best.1);
    if score.to_i64() < best.1.to_i64() {
        (mv, score)
    } else {
        best
    }
}

fn try_offsets<T: Sample>(
    current: &Block<T>,
    reference: &[Block<T>],
    dimensions: &BlockDimensions,
    point: Point,
    offsets: &[(isize, isize)],
    best: (MotionVector, T),
) -> (r: (MotionVector, T))
    ensures
        (r.0, r.1.num()) == tried(
            *current,
            reference@,
            *dimensions,
            point,
            offsets@,
            offsets@.len() as int,
            (best.0, best.1.num()),
        ),
{
    let mut found: (MotionVector, T) = best;
    let mut i: usize = 0;
    while i < offsets.len()
        invariant
            i <= offsets@.len(),
            (found.0, found.1.num()) == tried(
                *current,
                reference@,
                *dimensions,
                point,
                offsets@,
                i as int,
                (best.0, best.1.num()),
            ),
        decreases offsets@.len() - i,
    {
        let mv = MotionVector { x: offsets[i].0, y: offsets[i].1 };
        found = take_better(current, reference, dimensions, point, mv, found);
        i = i + 1;
    }
    found
}

/// Tries the four neighbours. The search starts from the given vector and
/// score, or else from where the block is.
pub fn sdsp_blocks<T: Sample>(
    current: &Block<T>,
    reference: &[Block<T>],
    dimensions: &BlockDimensions,
    point: Point,
    best_mv: Option<MotionVector>,
    best_score: Option<T>,
) -> (r: (MotionVector, T))
    ensures
        ({
            let mv = match best_mv {
                Some(mv) => mv,
                None => MotionVector { x: 0, y: 0 },
            };
            let score = match best_score {
                Some(score) => score.num(),
                None => still(*current, reference@, *dimensions, point).1,
            };
            (r.0, r.1.num()) == tried(
                *current,
                reference@,
                *dimensions,
                point,
                SMALL_DIAMOND@,
                4,
                (mv, score),
            )
        }),
{
    proof {
        T::lemma_type();
    }
    let mv = match best_mv {
        Some(mv) => mv,
        None => MotionVector { x: 0, y: 0 },
    };
    let score: T = match best_score {
        Some(score) => score,
        None => sum_of_abs_diff_block(
            current,
            reference,
            dimensions,
            point,
            MotionVector { x: 0, y: 0 },
            T::from_i64(T::max_value()),
        ),
    };
    try_offsets(current, reference, dimensions, point, &SMALL_DIAMOND, (mv, score))
}

/// Tries the neighbours of the best vector so far.
fn exhaustive_refine<T: Sample>(
    current: &Block<T>,
    reference: &[Block<T>],
    dimensions: &BlockDimensions,
    point: Point,
    best: (MotionVector, T),
) -> (r: (MotionVector, T))
    requires
        within(best.0, 100),
    ensures
        (r.0, r.1.num()) == refined(
            *current,
            reference@,
            *dimensions,
            point,
            9,
            (best.0, best.1.num()),
        ),
{
    let mut found: (MotionVector, T) = best;
    let mut n: usize = 0;
    while n < 9
        invariant
            n <= 9,
            within(found.0, 100 + n),
            (found.0, found.1.num()) == refined(
                *current,
                reference@,
                *dimensions,
                point,
                n as int,
                (best.0, best.1.num()),
            ),
        decreases 9 - n,
    {
        if n != 4 {
            let mv = MotionVector {
                x: found.0.x + (n % 3) as isize - 1,
                y: found.0.y + (n / 3) as isize - 1,
            };
            found = take_better(current, reference, dimensions, point, mv, found);
        }
        n = n + 1;
    }
    found
}

proof fn lemma_tried_within<T: Sample>(
    current: Block<T>,
    reference: Seq<Block<T>>,
    dimensions: BlockDimensions,
    point: Point,
    offsets: Seq<(isize, isize)>,
    n: int,
    best: (MotionVector, int),
)
    requires
        0 <= n <= offsets.len(),
        within(best.0, 4),
        forall|i: int| 0 <= i < offsets.len() ==> within(vector_of(#[trigger] offsets[i]), 4),
    ensures
        within(tried(current, reference, dimensions, point, offsets, n, best).0, 4),
    decreases n,
{
    if n > 0 {
        lemma_tried_within(current, reference, dimensions, point, offsets, n - 1, best);
        assert(within(vector_of(offsets[n - 1]), 4));
    }
}

/// The whole search: where the block came from, and how far the block there
/// and this one are apart.
pub fn ldsp_blocks<T: Sample>(
    current: &Block<T>,
    reference: &[Block<T>],
    dimensions: &BlockDimensions,
    point: Point,
) -> (r: (MotionVector, T))
    ensures
        (r.0, r.1.num()) == found(*current, reference@, *dimensions, point),
{
    proof {
        T::lemma_type();
    }
    let start = MotionVector { x: 0, y: 0 };
    let score: T = sum_of_abs_diff_block(
        current,
        reference,
        dimensions,
        point,
        start,
        T::from_i64(T::max_value()),
    );
    let wide = try_offsets(current, reference, dimensions, point, &LARGE_DIAMOND, (start, score));
    proof {
        let first = (start, score.num());
        lemma_diamonds();
        lemma_tried_within(*current, reference@, *dimensions, point, LARGE_DIAMOND@, 12, first);
        lemma_tried_within(
            *current,
            reference@,
            *dimensions,
            point,
            SMALL_DIAMOND@,
            4,
            (wide.0, wide.1.num()),
        );
    }
    let narrow = sdsp_blocks(
        current,
        reference,
        dimensions,
        point,
        Some(wide.0),
        Some(wide.1),
    );
    exhaustive_refine(current, reference, dimensions, point, narrow)
}

proof fn lemma_diamonds()
    ensures
        forall|i: int| 0 <= i < 12 ==> within(vector_of(#[trigger] LARGE_DIAMOND@[i]), 4),
        forall|i: int| 0 <= i < 4 ==> within(vector_of(#[trigger] SMALL_DIAMOND@[i]), 4),
        LARGE_DIAMOND@.len() == 12,
        SMALL_DIAMOND@.len() == 4,
{
}

proof fn lemma_cost_not_negative<T: Sample>(
    current: Block<T>,
    reference: Seq<Block<T>>,
    dimensions: BlockDimensions,
    point: Point,
    mv: MotionVector,
    threshold: int,
)
    requires
        threshold >= 0,
    ensures
        cost(current, reference, dimensions, point, mv, threshold) >= 0,
{
    T::lemma_type();
    let place = target(point, mv);
    lemma_abs_difference_grows(
        current@,
        reference[grid_index(dimensions, place)]@,
        0,
        64,
    );
}

proof fn lemma_tried_improves<T: Sample>(
    current: Block<T>,
    reference: Seq<Block<T>>,
    dimensions: BlockDimensions,
    point: Point,
    offsets: Seq<(isize, isize)>,
    n: int,
    best: (MotionVector, int),
)
    requires
        best.1 >= 0,
    ensures
        ({
            let r = tried(current, reference, dimensions, point, offsets, n, best);
            &&& 0 <= r.1 <= best.1
            &&& r.1 == best.1 ==> r == best
        }),
    decreases n,
{
    if n > 0 {
        lemma_tried_improves(current, reference, dimensions, point, offsets, n - 1, best);
        let so_far = tried(current, reference, dimensions, point, offsets, n - 1, best);
        lemma_cost_not_negative(
            current,
            reference,
            dimensions,
            point,
            vector_of(offsets[n - 1]),
            so_far.1,
        );
    }
}

proof fn lemma_refined_improves<T: Sample>(
    current: Block<T>,
    reference: Seq<Block<T>>,
    dimensions: BlockDimensions,
    point: Point,
    n: int,
    best: (MotionVector, int),
)
    requires
        best.1 >= 0,
    ensures
        ({
            let r = refined(current, reference, dimensions, point, n, best);
            &&& 0 <= r.1 <= best.1
            &&& r.1 == best.1 ==> r == best
        }),
    decreases n,
{
    if n > 0 {
        lemma_refined_improves(current, reference, dimensions, point, n - 1, best);
        let so_far = refined(current, reference, dimensions, point, n - 1, best);
        lemma_cost_not_negative(
            current,
            reference,
            dimensions,
            point,
            neighbour(so_far.0, n - 1),
            so_far.1,
        );
    }
}

/// The search never ends worse than where it starts, and stays there where
/// nothing is better.
pub proof fn law_search_improves<T: Sample>(
    current: Block<T>,
    reference: Seq<Block<T>>,
    dimensions: BlockDimensions,
    point: Point,
)
    ensures
        ({
            let start = still(current, reference, dimensions, point);
            let r = found(current, reference, dimensions, point);
            &&& 0 <= r.1 <= start.1
            &&& r.1 == start.1 ==> r == start
        }),
{
    let start = still(current, reference, dimensions, point);
    T::lemma_type();
    lemma_cost_not_negative(current, reference, dimensions, point, start.0, T::hi());
    let wide = tried(current, reference, dimensions, point, LARGE_DIAMOND@, 12, start);
    let narrow = tried(current, reference, dimensions, point, SMALL_DIAMOND@, 4, wide);
    lemma_tried_improves(current, reference, dimensions, point, LARGE_DIAMOND@, 12, start);
    lemma_tried_improves(current, reference, dimensions, point, SMALL_DIAMOND@, 4, wide);
    lemma_refined_improves(current, reference, dimensions, point, 9, narrow);
}

/// A block that did not change did not move.
pub proof fn law_unchanged_block_stays<T: Sample>(
    current: Block<T>,
    reference: Seq<Block<T>>,
    dimensions: BlockDimensions,
    point: Point,
)
    requires
        has_block(dimensions, reference.len(), (point.row as int, point.col as int)),
        reference[grid_index(dimensions, (point.row as int, point.col as int))] == current,
    ensures
        found(current, reference, dimensions, point) == (MotionVector { x: 0, y: 0 }, 0int),
{
    T::lemma_type();
    crate::block::law_apart_by_nothing(current, current);
    law_search_improves(current, reference, dimensions, point);
}

/// A vector and a score: the score is how far the block is from the block that the
/// vector points to, or as large as can be where no block is closer.
spec fn is_honest<T: Sample>(
    current: Block<T>,
    reference: Seq<Block<T>>,
    dimensions: BlockDimensions,
    point: Point,
    best: (MotionVector, int),
) -> bool {
    let row = point.row + best.0.y;
    let col = point.col + best.0.x;
    &&& 0 <= best.1 <= T::hi()
    &&& best.1 == T::hi() ==> best.0 == (MotionVector { x: 0, y: 0 })
    &&& best.1 < T::hi() ==> {
        &&& 0 <= row < dimensions.height
        &&& 0 <= col < dimensions.width
        &&& row * dimensions.width + col < reference.len()
        &&& best.1 == abs_difference(
            current@,
            reference[row * dimensions.width + col]@,
            64,
        )
    }
}

proof fn lemma_better_honest<T: Sample>(
    current: Block<T>,
    reference: Seq<Block<T>>,
    dimensions: BlockDimensions,
    point: Point,
    mv: MotionVector,
    best: (MotionVector, int),
)
    requires
        is_honest(current, reference, dimensions, point, best),
    ensures
        is_honest(
            current,
            reference,
            dimensions,
            point,
            better(current, reference, dimensions, point, mv, best),
        ),
{
    lemma_cost_not_negative(current, reference, dimensions, point, mv, best.1);
}

proof fn lemma_tried_honest<T: Sample>(
    current: Block<T>,
    reference: Seq<Block<T>>,
    dimensions: BlockDimensions,
    point: Point,
    offsets: Seq<(isize, isize)>,
    n: int,
    best: (MotionVector, int),
)
    requires
        is_honest(current, reference, dimensions, point, best),
    ensures
        is_honest(
            current,
            reference,
            dimensions,
            point,
            tried(current, reference, dimensions, point, offsets, n, best),
        ),
    decreases n,
{
    if n > 0 {
        lemma_tried_honest(current, reference, dimensions, point, offsets, n - 1, best);
        let so_far = tried(current, reference, dimensions, point, offsets, n - 1, best);
        lemma_better_honest(
            current,
            reference,
            dimensions,
            point,
            vector_of(offsets[n - 1]),
            so_far,
        );
    }
}

proof fn lemma_refined_honest<T: Sample>(
    current: Block<T>,
    reference: Seq<Block<T>>,
    dimensions: BlockDimensions,
    point: Point,
    n: int,
    best: (MotionVector, int),
)
    requires
        is_honest(current, reference, dimensions, point, best),
    ensures
        is_honest(
            current,
            reference,
            dimensions,
            point,
            refined(current, reference, dimensions, point, n, best),
        ),
    decreases n,
{
    if n > 0 {
        lemma_refined_honest(current, reference, dimensions, point, n - 1, best);
        let so_far = refined(current, reference, dimensions, point, n - 1, best);
        lemma_better_honest(
            current,
            reference,
            dimensions,
            point,
            neighbour(so_far.0, n - 1),
            so_far,
        );
    }
}

/// What the search finds is what it says: where the score is below the largest one,
/// there is a block at the vector's end, and the score is how far that block is from
/// the block in question. Otherwise the block stays where it is.
pub proof fn law_score_is_the_distance<T: Sample>(
    current: Block<T>,
    reference: Seq<Block<T>>,
    dimensions: BlockDimensions,
    point: Point,
)
    ensures
        ({
            let r = found(current, reference, dimensions, point);
            let row = point.row + r.0.y;
            let col = point.col + r.0.x;
            &&& 0 <= r.1 <= T::hi()
            &&& r.1 == T::hi() ==> r.0 == (MotionVector { x: 0, y: 0 })
            &&& r.1 < T::hi() ==> {
                &&& 0 <= row < dimensions.height
                &&& 0 <= col < dimensions.width
                &&& row * dimensions.width + col < reference.len()
                &&& r.1 == abs_difference(
                    current@,
                    reference[row * dimensions.width + col]@,
                    64,
                )
            }
        }),
{
    let start = still(current, reference, dimensions, point);
    T::lemma_type();
    lemma_cost_not_negative(current, reference, dimensions, point, start.0, T::hi());
    let wide = tried(current, reference, dimensions, point, LARGE_DIAMOND@, 12, start);
    let narrow = tried(current, reference, dimensions, point, SMALL_DIAMOND@, 4, wide);
    lemma_tried_honest(current, reference, dimensions, point, LARGE_DIAMOND@, 12, start);
    lemma_tried_honest(current, reference, dimensions, point, SMALL_DIAMOND@, 4, wide);
    lemma_refined_honest(current, reference, dimensions, point, 9, narrow);
}

/// Of a list of offsets that were tried, none leads to a block that is closer than
/// the score that came out.
pub proof fn law_no_tried_offset_is_closer<T: Sample>(
    current: Block<T>,
    reference: Seq<Block<T>>,
    dimensions: BlockDimensions,
    point: Point,
    offsets: Seq<(isize, isize)>,
    n: int,
    best: (MotionVector, int),
    i: int,
)
    requires
        0 <= i < n <= offsets.len(),
        0 <= best.1,
        0 <= point.row + offsets[i].1 < dimensions.height,
        0 <= point.col + offsets[i].0 < dimensions.width,
        (point.row + offsets[i].1) * dimensions.width + (point.col + offsets[i].0)
            < reference.len(),
    ensures
        ({
            let at = (point.row + offsets[i].1) * dimensions.width + (point.col
                + offsets[i].0);
            tried(current, reference, dimensions, point, offsets, n, best).1
                <= abs_difference(current@, reference[at]@, 64)
        }),
    decreases n,
{
    let so_far = tried(current, reference, dimensions, point, offsets, n - 1, best);
    lemma_tried_improves(current, reference, dimensions, point, offsets, n - 1, best);
    lemma_tried_improves(current, reference, dimensions, point, offsets, n, best);
    lemma_cost_not_negative(
        current,
        reference,
        dimensions,
        point,
        vector_of(offsets[n - 1]),
        so_far.1,
    );
    let place = target(point, vector_of(offsets[i]));
    assert(0 <= place.0 * dimensions.width) by (nonlinear_arith)
        requires
            0 <= place.0,
            0 <= dimensions.width,
    ;
    if i < n - 1 {
        law_no_tried_offset_is_closer(
            current,
            reference,
            dimensions,
            point,
            offsets,
            n - 1,
            best,
            i,
        );
    }
}

proof fn lemma_diamond_offset(x: int, y: int) -> (i: int)
    requires
        x % 2 == 0 && y % 2 == 0,
        x != 0 || y != 0,
        -4 <= x + y <= 4 && -4 <= x - y <= 4,
    ensures
        0 <= i < 12,
        LARGE_DIAMOND@[i].0 == x,
        LARGE_DIAMOND@[i].1 == y,
{
    let i: int = choose|i: int| 0 <= i < 12 && (#[trigger] LARGE_DIAMOND@[i]).0 == x
        && LARGE_DIAMOND@[i].1 == y;
    assert(x == -4 || x == -2 || x == 0 || x == 2 || x == 4);
    assert(y == -4 || y == -2 || y == 0 || y == 2 || y == 4);
    assert(LARGE_DIAMOND@[0].0 == LARGE_DIAMOND@[0].0);
    assert(LARGE_DIAMOND@[1].0 == LARGE_DIAMOND@[1].0);
    assert(LARGE_DIAMOND@[2].0 == LARGE_DIAMOND@[2].0);
    assert(LARGE_DIAMOND@[3].0 == LARGE_DIAMOND@[3].0);
    assert(LARGE_DIAMOND@[4].0 == LARGE_DIAMOND@[4].0);
    assert(LARGE_DIAMOND@[5].0 == LARGE_DIAMOND@[5].0);
    assert(LARGE_DIAMOND@[6].0 == LARGE_DIAMOND@[6].0);
    assert(LARGE_DIAMOND@[7].0 == LARGE_DIAMOND@[7].0);
    assert(LARGE_DIAMOND@[8].0 == LARGE_DIAMOND@[8].0);
    assert(LARGE_DIAMOND@[9].0 == LARGE_DIAMOND@[9].0);
    assert(LARGE_DIAMOND@[10].0 == LARGE_DIAMOND@[10].0);
    assert(LARGE_DIAMOND@[11].0 == LARGE_DIAMOND@[11].0);
    i
}

proof fn lemma_neighbour_offset(x: int, y: int) -> (i: int)
    requires
        x != 0 || y != 0,
        -1 <= x + y <= 1 && -1 <= x - y <= 1,
    ensures
        0 <= i < 4,
        SMALL_DIAMOND@[i].0 == x,
        SMALL_DIAMOND@[i].1 == y,
{
    let i: int = choose|i: int| 0 <= i < 4 && (#[trigger] SMALL_DIAMOND@[i]).0 == x
        && SMALL_DIAMOND@[i].1 == y;
    assert(SMALL_DIAMOND@[0].0 == SMALL_DIAMOND@[0].0);
    assert(SMALL_DIAMOND@[1].0 == SMALL_DIAMOND@[1].0);
    assert(SMALL_DIAMOND@[2].0 == SMALL_DIAMOND@[2].0);
    assert(SMALL_DIAMOND@[3].0 == SMALL_DIAMOND@[3].0);
    i
}

proof fn lemma_diamonds_are_no_closer<T: Sample>(
    current: Block<T>,
    reference: Seq<Block<T>>,
    dimensions: BlockDimensions,
    point: Point,
    x: int,
    y: int,
)
    requires
        (x % 2 == 0 && y % 2 == 0 && -4 <= x + y <= 4 && -4 <= x - y <= 4) || (-1 <= x + y
            <= 1 && -1 <= x - y <= 1),
        0 <= point.row + y < dimensions.height,
        0 <= point.col + x < dimensions.width,
        (point.row + y) * dimensions.width + (point.col + x) < reference.len(),
    ensures
        ({
            let start = still(current, reference, dimensions, point);
            let wide = tried(current, reference, dimensions, point, LARGE_DIAMOND@, 12, start);
            let narrow = tried(current, reference, dimensions, point, SMALL_DIAMOND@, 4, wide);
            let at = (point.row + y) * dimensions.width + (point.col + x);
            0 <= narrow.1 <= abs_difference(current@, reference[at]@, 64)
        }),
{
    let start = still(current, reference, dimensions, point);
    T::lemma_type();
    lemma_cost_not_negative(current, reference, dimensions, point, start.0, T::hi());
    let wide = tried(current, reference, dimensions, point, LARGE_DIAMOND@, 12, start);
    lemma_tried_improves(current, reference, dimensions, point, LARGE_DIAMOND@, 12, start);
    lemma_tried_improves(current, reference, dimensions, point, SMALL_DIAMOND@, 4, wide);
    lemma_diamonds();
    if x == 0 && y == 0 {
    } else if x % 2 == 0 && y % 2 == 0 && -4 <= x + y <= 4 && -4 <= x - y <= 4 {
        let i = lemma_diamond_offset(x, y);
        law_no_tried_offset_is_closer(
            current,
            reference,
            dimensions,
            point,
            LARGE_DIAMOND@,
            12,
            start,
            i,
        );
    } else {
        let i = lemma_neighbour_offset(x, y);
        law_no_tried_offset_is_closer(
            current,
            reference,
            dimensions,
            point,
            SMALL_DIAMOND@,
            4,
            wide,
            i,
        );
    }
}

/// No block in the wide diamond, whose offsets are even and together at most four,
/// and none in the narrow one, whose offsets are together at most one, is closer than
/// what the search finds.
pub proof fn law_no_diamond_block_is_closer<T: Sample>(
    current: Block<T>,
    reference: Seq<Block<T>>,
    dimensions: BlockDimensions,
    point: Point,
    x: int,
    y: int,
)
    requires
        (x % 2 == 0 && y % 2 == 0 && -4 <= x + y <= 4 && -4 <= x - y <= 4) || (-1 <= x + y
            <= 1 && -1 <= x - y <= 1),
        0 <= point.row + y < dimensions.height,
        0 <= point.col + x < dimensions.width,
        (point.row + y) * dimensions.width + (point.col + x) < reference.len(),
    ensures
        found(current, reference, dimensions, point).1 <= abs_difference(
            current@,
            reference[(point.row + y) * dimensions.width + (point.col + x)]@,
            64,
        ),
{
    let start = still(current, reference, dimensions, point);
    let wide = tried(current, reference, dimensions, point, LARGE_DIAMOND@, 12, start);
    let narrow = tried(current, reference, dimensions, point, SMALL_DIAMOND@, 4, wide);
    lemma_diamonds_are_no_closer(current, reference, dimensions, point, x, y);
    lemma_refined_improves(current, reference, dimensions, point, 9, narrow);
}

/// A block that lies in one of the diamonds as it is, is found: the search ends at a
/// block with the same samples.
pub proof fn law_moved_block_is_found<T: Sample>(
    current: Block<T>,
    reference: Seq<Block<T>>,
    dimensions: BlockDimensions,
    point: Point,
    x: int,
    y: int,
)
    requires
        (x % 2 == 0 && y % 2 == 0 && -4 <= x + y <= 4 && -4 <= x - y <= 4) || (-1 <= x + y
            <= 1 && -1 <= x - y <= 1),
        0 <= point.row + y < dimensions.height,
        0 <= point.col + x < dimensions.width,
        (point.row + y) * dimensions.width + (point.col + x) < reference.len(),
        reference[(point.row + y) * dimensions.width + (point.col + x)] == current,
    ensures
        ({
            let r = found(current, reference, dimensions, point);
            let row = point.row + r.0.y;
            let col = point.col + r.0.x;
            &&& r.1 == 0
            &&& 0 <= row < dimensions.height
            &&& 0 <= col < dimensions.width
            &&& row * dimensions.width + col < reference.len()
            &&& forall|i: int|
                0 <= i < 64 ==> #[trigger] current@[i].num() == reference[row
                    * dimensions.width + col]@[i].num()
        }),
{
    T::lemma_type();
    crate::block::law_apart_by_nothing(current, current);
    law_no_diamond_block_is_closer(current, reference, dimensions, point, x, y);
    law_score_is_the_distance(current, reference, dimensions, point);
    let r = found(current, reference, dimensions, point);
    let row = point.row + r.0.y;
    let col = point.col + r.0.x;
    crate::block::law_apart_by_nothing(current, reference[row * dimensions.width + col]);
}

proof fn lemma_refined_stays<T: Sample>(
    current: Block<T>,
    reference: Seq<Block<T>>,
    dimensions: BlockDimensions,
    point: Point,
    n: int,
    best: (MotionVector, int),
)
    requires
        0 <= n <= 9,
        0 <= best.1,
        refined(current, reference, dimensions, point, 9, best).1 == best.1,
    ensures
        refined(current, reference, dimensions, point, n, best) == best,
    decreases 9 - n,
{
    lemma_refined_improves(current, reference, dimensions, point, n, best);
    if n < 9 {
        lemma_refined_stays(current, reference, dimensions, point, n + 1, best);
        let so_far = refined(current, reference, dimensions, point, n, best);
        lemma_cost_not_negative(
            current,
            reference,
            dimensions,
            point,
            neighbour(so_far.0, n),
            so_far.1,
        );
    }
}

/// Where the search ends at a place of one of the diamonds, none of the eight
/// neighbours of that place holds a closer block.
pub proof fn law_no_neighbour_is_closer<T: Sample>(
    current: Block<T>,
    reference: Seq<Block<T>>,
    dimensions: BlockDimensions,
    point: Point,
    dx: int,
    dy: int,
)
    requires
        -1 <= dx <= 1,
        -1 <= dy <= 1,
        ({
            let r = found(current, reference, dimensions, point);
            let x = r.0.x as int;
            let y = r.0.y as int;
            &&& (x % 2 == 0 && y % 2 == 0 && -4 <= x + y <= 4 && -4 <= x - y <= 4) || (-1
                <= x + y <= 1 && -1 <= x - y <= 1)
            &&& 0 <= point.row + y + dy < dimensions.height
            &&& 0 <= point.col + x + dx < dimensions.width
            &&& (point.row + y + dy) * dimensions.width + (point.col + x + dx)
                < reference.len()
        }),
    ensures
        ({
            let r = found(current, reference, dimensions, point);
            let at = (point.row + r.0.y + dy) * dimensions.width + (point.col + r.0.x + dx);
            r.1 <= abs_difference(current@, reference[at]@, 64)
        }),
{
    let start = still(current, reference, dimensions, point);
    T::lemma_type();
    lemma_cost_not_negative(current, reference, dimensions, point, start.0, T::hi());
    let wide = tried(current, reference, dimensions, point, LARGE_DIAMOND@, 12, start);
    let narrow = tried(current, reference, dimensions, point, SMALL_DIAMOND@, 4, wide);
    lemma_tried_improves(current, reference, dimensions, point, LARGE_DIAMOND@, 12, start);
    lemma_tried_improves(current, reference, dimensions, point, SMALL_DIAMOND@, 4, wide);
    lemma_refined_improves(current, reference, dimensions, point, 9, narrow);
    law_score_is_the_distance(current, reference, dimensions, point);
    let r = found(current, reference, dimensions, point);
    if r.1 < narrow.1 {
        lemma_diamonds_are_no_closer(
            current,
            reference,
            dimensions,
            point,
            r.0.x as int,
            r.0.y as int,
        );
    }
    let n = 3 * (dy + 1) + dx + 1;
    lemma_refined_stays(current, reference, dimensions, point, n, narrow);
    assert(neighbour(r.0, n) == (MotionVector {
        x: (r.0.x + dx) as isize,
        y: (r.0.y + dy) as isize,
    }));
    let place = target(point, neighbour(r.0, n));
    assert(0 <= place.0 * dimensions.width) by (nonlinear_arith)
        requires
            0 <= place.0,
            0 <= dimensions.width,
    ;
    if n != 4 {
        lemma_refined_stays(current, reference, dimensions, point, n + 1, narrow);
    }
}

/// A block and the block that a vector points to are counted apart as far as they are, up to the
/// threshold. Where the vector points out of the grid or at no block, they are as far apart as
/// can be.
pub proof fn law_cost_is_the_distance<T: Sample>(
    current: Block<T>,
    reference: Seq<Block<T>>,
    dimensions: BlockDimensions,
    point: Point,
    mv: MotionVector,
    threshold: int,
)
    ensures
        ({
            let row = point.row + mv.y;
            let col = point.col + mv.x;
            let at = row * dimensions.width + col;
            let r = cost(current, reference, dimensions, point, mv, threshold);
            if 0 <= row < dimensions.height && 0 <= col < dimensions.width && at
                < reference.len() {
                let apart = abs_difference(current@, reference[at]@, 64);
                &&& apart < threshold ==> r == apart
                &&& apart >= threshold ==> r == threshold
            } else {
                r == T::hi()
            }
        }),
{
}

/// Of a list of offsets, the first one is taken that leads to a block closer than those before it
/// and than what was best, and none behind it is closer still. Where there is none, the best one
/// stays.
pub proof fn law_first_closest_offset_is_taken<T: Sample>(
    current: Block<T>,
    reference: Seq<Block<T>>,
    dimensions: BlockDimensions,
    point: Point,
    offsets: Seq<(isize, isize)>,
    n: int,
    best: (MotionVector, int),
    i: int,
)
    requires
        0 <= best.1 <= T::hi(),
        0 <= i < n <= offsets.len(),
        0 <= point.row + offsets[i].1 < dimensions.height,
        0 <= point.col + offsets[i].0 < dimensions.width,
        (point.row + offsets[i].1) * dimensions.width + (point.col + offsets[i].0)
            < reference.len(),
    ensures
        ({
            let r = tried(current, reference, dimensions, point, offsets, n, best);
            let at = (point.row + offsets[i].1) * dimensions.width + (point.col
                + offsets[i].0);
            let apart = abs_difference(current@, reference[at]@, 64);
            &&& r.1 <= apart
            &&& r == best || exists|j: int|
                0 <= j < n && r.0.x == (#[trigger] offsets[j]).0 && r.0.y == offsets[j].1 && (i
                    < j ==> r.1 < apart) && r.1 < best.1
        }),
{
    law_no_tried_offset_is_closer(
        current,
        reference,
        dimensions,
        point,
        offsets,
        n,
        best,
        i,
    );
    lemma_first_offset(current, reference, dimensions, point, offsets, n, best, i);
}

proof fn lemma_first_offset<T: Sample>(
    current: Block<T>,
    reference: Seq<Block<T>>,
    dimensions: BlockDimensions,
    point: Point,
    offsets: Seq<(isize, isize)>,
    n: int,
    best: (MotionVector, int),
    i: int,
)
    requires
        0 <= best.1 <= T::hi(),
        0 <= i < offsets.len(),
        0 <= n <= offsets.len(),
        0 <= point.row + offsets[i].1 < dimensions.height,
        0 <= point.col + offsets[i].0 < dimensions.width,
        (point.row + offsets[i].1) * dimensions.width + (point.col + offsets[i].0)
            < reference.len(),
    ensures
        ({
            let r = tried(current, reference, dimensions, point, offsets, n, best);
            let at = (point.row + offsets[i].1) * dimensions.width + (point.col
                + offsets[i].0);
            let apart = abs_difference(current@, reference[at]@, 64);
            r == best || exists|j: int|
                0 <= j < n && r.0.x == (#[trigger] offsets[j]).0 && r.0.y == offsets[j].1 && (i
                    < j ==> r.1 < apart) && r.1 < best.1
        }),
    decreases n,
{
    if n > 0 {
        lemma_first_offset(current, reference, dimensions, point, offsets, n - 1, best, i);
        let so_far = tried(current, reference, dimensions, point, offsets, n - 1, best);
        let r = tried(current, reference, dimensions, point, offsets, n, best);
        lemma_tried_improves(current, reference, dimensions, point, offsets, n - 1, best);
        if r == so_far {
            if r != best {
                let j = choose|j: int|
                    0 <= j < n - 1 && r.0.x == (#[trigger] offsets[j]).0 && r.0.y == offsets[j].1
                        && (i < j ==> r.1 < abs_difference(
                        current@,
                        reference[(point.row + offsets[i].1) * dimensions.width + (point.col
                            + offsets[i].0)]@,
                        64,
                    )) && r.1 < best.1;
                assert(r.0.x == offsets[j].0);
            }
        } else {
            assert(r.0.x == offsets[n - 1].0 && r.0.y == offsets[n - 1].1);
            if i < n - 1 {
                law_no_tried_offset_is_closer(
                    current,
                    reference,
                    dimensions,
                    point,
                    offsets,
                    n - 1,
                    best,
                    i,
                );
            }
        }
    }
}

/// Refining goes from neighbour to neighbour, row by row: every step tries the next of the eight
/// neighbours of the best place so far, and takes it exactly where it is closer.
pub proof fn law_refining_goes_on_from_the_best<T: Sample>(
    current: Block<T>,
    reference: Seq<Block<T>>,
    dimensions: BlockDimensions,
    point: Point,
    best: (MotionVector, int),
    dx: int,
    dy: int,
)
    requires
        -1 <= dx <= 1,
        -1 <= dy <= 1,
        within(best.0, 100),
        0 <= best.1 <= T::hi(),
    ensures
        ({
            let n = 3 * (dy + 1) + (dx + 1);
            let before = refined(current, reference, dimensions, point, n, best);
            let after = refined(current, reference, dimensions, point, n + 1, best);
            let row = point.row + before.0.y + dy;
            let col = point.col + before.0.x + dx;
            let at = row * dimensions.width + col;
            let there = 0 <= row < dimensions.height && 0 <= col < dimensions.width && at
                < reference.len();
            let apart = abs_difference(current@, reference[at]@, 64);
            if (dx != 0 || dy != 0) && there && apart < before.1 {
                after.0.x == before.0.x + dx && after.0.y == before.0.y + dy && after.1 == apart
            } else {
                after == before
            }
        }),
{
    let n = 3 * (dy + 1) + (dx + 1);
    let before = refined(current, reference, dimensions, point, n, best);
    lemma_refined_within(current, reference, dimensions, point, n, best);
    lemma_refined_improves(current, reference, dimensions, point, n, best);
    T::lemma_type();
    assert(n % 3 == dx + 1 && n / 3 == dy + 1);
    let mv = neighbour(before.0, n);
    assert(mv.x == before.0.x + dx && mv.y == before.0.y + dy);
    assert(n == 4 <==> dx == 0 && dy == 0);
    law_cost_is_the_distance(current, reference, dimensions, point, mv, before.1);
}

proof fn lemma_refined_within<T: Sample>(
    current: Block<T>,
    reference: Seq<Block<T>>,
    dimensions: BlockDimensions,
    point: Point,
    n: int,
    best: (MotionVector, int),
)
    requires
        0 <= n <= 9,
        within(best.0, 100),
    ensures
        within(refined(current, reference, dimensions, point, n, best).0, 100 + n),
    decreases n,
{
    if n > 0 {
        lemma_refined_within(current, reference, dimensions, point, n - 1, best);
    }
}

/// The places of the diamonds, in the order in which they are tried.
pub proof fn law_diamonds_are_tried_in_order()
    ensures
        LARGE_DIAMOND@ =~= seq![
            (-4isize, 0isize),
            (4isize, 0isize),
            (0isize, -4isize),
            (0isize, 4isize),
            (-2isize, 0isize),
            (2isize, 0isize),
            (0isize, -2isize),
            (0isize, 2isize),
            (-2isize, 2isize),
            (-2isize, -2isize),
            (2isize, 2isize),
            (2isize, -2isize),
        ],
        SMALL_DIAMOND@ =~= seq![
            (-1isize, 0isize),
            (1isize, 0isize),
            (0isize, -1isize),
            (0isize, 1isize),
        ],
{
}

} // verus!
