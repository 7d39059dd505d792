//! The search in blocks of 16-bit samples, and between their pixels.
use vstd::prelude::*;

use super::search;
use super::search::{cost, found, grid_index, in_grid, still, tried};
use super::{MotionVector, HALF_PIXEL_OFFSETS, SMALL_DIAMOND, SUBPIXEL_SAD_THRESHOLD};
use crate::block::{abs_difference, capped, Block};
use crate::dimensions::BlockDimensions;
use crate::point::Point;
use crate::sample::{clamped, law_quotient_leaves_a_rest, quotient};

verus! {

/// Where a block came from, and how far the block there and this one are
/// apart.
pub fn ldsp_blocks(
    current: &Block<i16>,
    reference: &[Block<i16>],
    dimensions: &BlockDimensions,
    point: Point,
) -> (r: (MotionVector, i16))
    ensures
        (r.0, r.1 as int) == found(*current, reference@, *dimensions, point),
{
    search::ldsp_blocks(current, reference, dimensions, point)
}

/// Tries the four neighbours.
pub fn sdsp_blocks(
    current: &Block<i16>,
    reference: &[Block<i16>],
    dimensions: &BlockDimensions,
    point: Point,
    best_mv: Option<MotionVector>,
    best_score: Option<i16>,
) -> (r: (MotionVector, i16))
    ensures
        ({
            let mv = match best_mv {
                Some(mv) => mv,
                None => MotionVector { x: 0, y: 0 },
            };
            let score = match best_score {
                Some(score) => score as int,
                None => still(*current, reference@, *dimensions, point).1,
            };
            (r.0, r.1 as int) == tried(
                *current,
                reference@,
                *dimensions,
                point,
                SMALL_DIAMOND@,
                4,
                (mv, score),
            )
        }),
{
    search::sdsp_blocks(current, reference, dimensions, point, best_mv, best_score)
}

/// How far a block and the block that a vector points to are apart, counted up
/// to a threshold.
pub fn sum_of_abs_diff_block(
    current: &Block<i16>,
    reference: &[Block<i16>],
    dimensions: &BlockDimensions,
    point: Point,
    mv: MotionVector,
    threshold: i16,
) -> (r: i16)
    ensures
        r == cost(*current, reference@, *dimensions, point, mv, threshold as int),
{
    search::sum_of_abs_diff_block(current, reference, dimensions, point, mv, threshold)
}

/// The pixel in column `x` and row `y` of a grid of blocks, zero outside.
pub open spec fn pixel_at(
    reference: Seq<Block<i16>>,
    dimensions: BlockDimensions,
    x: int,
    y: int,
) -> int {
    let place = (y / 8, x / 8);
    if x < 0 || y < 0 || !in_grid(dimensions, place) || grid_index(dimensions, place)
        >= reference.len() {
        0
    } else {
        reference[grid_index(dimensions, place)]@[(y % 8) * 8 + x % 8] as int
    }
}

/// The pixel in column `x` and row `y` of a grid of blocks, zero outside.
fn get_pixel_from_blocks(
    reference: &[Block<i16>],
    dimensions: &BlockDimensions,
    x: i128,
    y: i128,
) -> (r: i16)
    ensures
        r == pixel_at(reference@, *dimensions, x as int, y as int),
{
    if x < 0 || y < 0 {
        return 0;
    }
    let block_x: i128 = x / 8;
    let block_y: i128 = y / 8;
    if block_x >= dimensions.width as i128 || block_y >= dimensions.height as i128 {
        return 0;
    }
    let len: usize = reference.len();
    match (block_y as usize).checked_mul(dimensions.width) {
        Some(start) => {
            if start < len && block_x as usize <= len - 1 - start {
                reference[start + block_x as usize].get((y % 8) as usize, (x % 8) as usize)
            } else {
                0
            }
        },
        None => 0,
    }
}

/// The filter (1, -5, 20, 20, -5, 1) / 32, rounded, in the range of a byte.
pub open spec fn six_tap(a: int, b: int, c: int, d: int, e: int, f: int) -> int {
    clamped((a - 5 * b + 20 * c + 20 * d - 5 * e + f + 16) / 32, -128, 127)
}

fn apply_6tap_filter(s: [i16; 6]) -> (r: i16)
    ensures
        r == six_tap(
            s@[0] as int,
            s@[1] as int,
            s@[2] as int,
            s@[3] as int,
            s@[4] as int,
            s@[5] as int,
        ),
{
    let sum: i32 = s[0] as i32 - 5 * s[1] as i32 + 20 * s[2] as i32 + 20 * s[3] as i32 - 5
        * s[4] as i32 + s[5] as i32 + 16;
    let result: i32 = (sum + 0x20_0000) / 32 - 0x1_0000;
    if result < -128 {
        -128
    } else if result > 127 {
        127
    } else {
        result as i16
    }
}

/// A pixel half a pixel to the right of column `x`.
pub open spec fn between_columns(
    reference: Seq<Block<i16>>,
    dimensions: BlockDimensions,
    x: int,
    y: int,
) -> int {
    six_tap(
        pixel_at(reference, dimensions, x - 2, y),
        pixel_at(reference, dimensions, x - 1, y),
        pixel_at(reference, dimensions, x, y),
        pixel_at(reference, dimensions, x + 1, y),
        pixel_at(reference, dimensions, x + 2, y),
        pixel_at(reference, dimensions, x + 3, y),
    )
}

/// A pixel half a pixel below row `y`.
pub open spec fn between_rows(
    reference: Seq<Block<i16>>,
    dimensions: BlockDimensions,
    x: int,
    y: int,
) -> int {
    six_tap(
        pixel_at(reference, dimensions, x, y - 2),
        pixel_at(reference, dimensions, x, y - 1),
        pixel_at(reference, dimensions, x, y),
        pixel_at(reference, dimensions, x, y + 1),
        pixel_at(reference, dimensions, x, y + 2),
        pixel_at(reference, dimensions, x, y + 3),
    )
}

/// A pixel at a whole or a half place.
pub open spec fn interpolated(
    reference: Seq<Block<i16>>,
    dimensions: BlockDimensions,
    half_x: bool,
    half_y: bool,
    x: int,
    y: int,
) -> int {
    if half_x && half_y {
        six_tap(
            between_columns(reference, dimensions, x, y - 2),
            between_columns(reference, dimensions, x, y - 1),
            between_columns(reference, dimensions, x, y),
            between_columns(reference, dimensions, x, y + 1),
            between_columns(reference, dimensions, x, y + 2),
            between_columns(reference, dimensions, x, y + 3),
        )
    } else if half_x {
        between_columns(reference, dimensions, x, y)
    } else if half_y {
        between_rows(reference, dimensions, x, y)
    } else {
        pixel_at(reference, dimensions, x, y)
    }
}

fn column_filter(
    reference: &[Block<i16>],
    dimensions: &BlockDimensions,
    x: i128,
    y: i128,
) -> (r: i16)
    requires
        -0xf_0000_0000_0000_0000 <= x <= 0xf_0000_0000_0000_0000,
    ensures
        r == between_columns(reference@, *dimensions, x as int, y as int),
{
    apply_6tap_filter(
        [
            get_pixel_from_blocks(reference, dimensions, x - 2, y),
            get_pixel_from_blocks(reference, dimensions, x - 1, y),
            get_pixel_from_blocks(reference, dimensions, x, y),
            get_pixel_from_blocks(reference, dimensions, x + 1, y),
            get_pixel_from_blocks(reference, dimensions, x + 2, y),
            get_pixel_from_blocks(reference, dimensions, x + 3, y),
        ],
    )
}

fn row_filter(reference: &[Block<i16>], dimensions: &BlockDimensions, x: i128, y: i128) -> (r: i16)
    requires
        -0xf_0000_0000_0000_0000 <= y <= 0xf_0000_0000_0000_0000,
    ensures
        r == between_rows(reference@, *dimensions, x as int, y as int),
{
    apply_6tap_filter(
        [
            get_pixel_from_blocks(reference, dimensions, x, y - 2),
            get_pixel_from_blocks(reference, dimensions, x, y - 1),
            get_pixel_from_blocks(reference, dimensions, x, y),
            get_pixel_from_blocks(reference, dimensions, x, y + 1),
            get_pixel_from_blocks(reference, dimensions, x, y + 2),
            get_pixel_from_blocks(reference, dimensions, x, y + 3),
        ],
    )
}

fn interpolated_pixel(
    reference: &[Block<i16>],
    dimensions: &BlockDimensions,
    half_x: bool,
    half_y: bool,
    x: i128,
    y: i128,
) -> (r: i16)
    requires
        -0xe_0000_0000_0000_0000 <= x <= 0xe_0000_0000_0000_0000,
        -0xe_0000_0000_0000_0000 <= y <= 0xe_0000_0000_0000_0000,
    ensures
        r == interpolated(reference@, *dimensions, half_x, half_y, x as int, y as int),
{
    if half_x && half_y {
        apply_6tap_filter(
            [
                column_filter(reference, dimensions, x, y - 2),
                column_filter(reference, dimensions, x, y - 1),
                column_filter(reference, dimensions, x, y),
                column_filter(reference, dimensions, x, y + 1),
                column_filter(reference, dimensions, x, y + 2),
                column_filter(reference, dimensions, x, y + 3),
            ],
        )
    } else if half_x {
        column_filter(reference, dimensions, x, y)
    } else if half_y {
        row_filter(reference, dimensions, x, y)
    } else {
        get_pixel_from_blocks(reference, dimensions, x, y)
    }
}

/// The block at a place of the reference that lies between the blocks' pixels.
/// The place is given in whole blocks, and by half a pixel in either direction.
pub fn interpolate_half_pixel_block(
    reference: &[Block<i16>],
    dimensions: &BlockDimensions,
    point: Point,
    half_x: bool,
    half_y: bool,
    integer_x: isize,
    integer_y: isize,
) -> (r: Block<i16>)
    ensures
        forall|i: int|
            0 <= i < 64 ==> #[trigger] r@[i] == interpolated(
                reference@,
                *dimensions,
                half_x,
                half_y,
                (point.col + integer_x) * 8 + i % 8,
                (point.row + integer_y) * 8 + i / 8,
            ),
{
    let base_x: i128 = (point.col as i128 + integer_x as i128) * 8;
    let base_y: i128 = (point.row as i128 + integer_y as i128) * 8;
    let mut data: [i16; 64] = [0; 64];
    let mut i: usize = 0;
    while i < 64
        invariant
            i <= 64,
            base_x == (point.col + integer_x) * 8,
            base_y == (point.row + integer_y) * 8,
            forall|j: int|
                0 <= j < i ==> #[trigger] data@[j] == interpolated(
                    reference@,
                    *dimensions,
                    half_x,
                    half_y,
                    (point.col + integer_x) * 8 + j % 8,
                    (point.row + integer_y) * 8 + j / 8,
                ),
        decreases 64 - i,
    {
        let x: i128 = base_x + (i % 8) as i128;
        let y: i128 = base_y + (i / 8) as i128;
        data[i] = interpolated_pixel(reference, dimensions, half_x, half_y, x, y);
        i = i + 1;
    }
    Block(data)
}

/// The block that a vector in half pixels points to.
pub open spec fn interpolated_block(
    reference: Seq<Block<i16>>,
    dimensions: BlockDimensions,
    point: Point,
    mv: MotionVector,
) -> Seq<i16> {
    Seq::new(
        64,
        |i: int|
            interpolated(
                reference,
                dimensions,
                mv.x as int % 2 != 0,
                mv.y as int % 2 != 0,
                (point.col + quotient(mv.x as int, 2)) * 8 + i % 8,
                (point.row + quotient(mv.y as int, 2)) * 8 + i / 8,
            ) as i16,
    )
}

/// The place, in whole blocks, that a vector in half pixels points to.
pub open spec fn whole_target(point: Point, mv: MotionVector) -> (int, int) {
    (point.row + quotient(mv.y as int, 2), point.col + quotient(mv.x as int, 2))
}

/// Whether the filter stays inside a line of `blocks` blocks around block
/// `block`.
pub open spec fn filter_fits(block: int, blocks: int) -> bool {
    block * 8 - 2 >= 0 && block * 8 + 10 < blocks * 8
}

/// How far a block and the block that a vector in half pixels points to are
/// apart. Where the place or what the filter needs is outside, as far as can
/// be.
pub open spec fn subpixel_cost(
    current: Block<i16>,
    reference: Seq<Block<i16>>,
    dimensions: BlockDimensions,
    point: Point,
    mv: MotionVector,
) -> int {
    let half_x = mv.x as int % 2 != 0;
    let half_y = mv.y as int % 2 != 0;
    let place = whole_target(point, mv);
    if !in_grid(dimensions, place) {
        i16::MAX as int
    } else if half_x && !filter_fits(place.1, dimensions.width as int) {
        i16::MAX as int
    } else if half_y && !filter_fits(place.0, dimensions.height as int) {
        i16::MAX as int
    } else if !half_x && !half_y {
        cost(
            current,
            reference,
            dimensions,
            point,
            MotionVector {
                x: quotient(mv.x as int, 2) as isize,
                y: quotient(mv.y as int, 2) as isize,
            },
            i16::MAX as int,
        )
    } else {
        capped(
            abs_difference(current@, interpolated_block(reference, dimensions, point, mv), 64),
            i16::MAX as int,
        )
    }
}

/// How far a block and the block that a vector in half pixels points to are
/// apart.
pub fn sum_of_abs_diff_subpixel(
    current: &Block<i16>,
    reference: &[Block<i16>],
    dimensions: &BlockDimensions,
    point: Point,
    mv: MotionVector,
) -> (r: i16)
    ensures
        r == subpixel_cost(*current, reference@, *dimensions, point, mv),
{
    let integer_x: isize = mv.integer_x();
    let integer_y: isize = mv.integer_y();
    let half_x: bool = mv.has_half_pixel_x();
    let half_y: bool = mv.has_half_pixel_y();
    let col: i128 = point.col as i128 + integer_x as i128;
    let row: i128 = point.row as i128 + integer_y as i128;
    if col < 0 || row < 0 || col >= dimensions.width as i128 || row >= dimensions.height as i128 {
        return i16::MAX;
    }
    if half_x && (col * 8 - 2 < 0 || col * 8 + 10 >= dimensions.width as i128 * 8) {
        return i16::MAX;
    }
    if half_y && (row * 8 - 2 < 0 || row * 8 + 10 >= dimensions.height as i128 * 8) {
        return i16::MAX;
    }
    if !half_x && !half_y {
        return sum_of_abs_diff_block(
            current,
            reference,
            dimensions,
            point,
            MotionVector { x: integer_x, y: integer_y },
            i16::MAX,
        );
    }
    let there = interpolate_half_pixel_block(
        reference,
        dimensions,
        point,
        half_x,
        half_y,
        integer_x,
        integer_y,
    );
    assert(there@ =~= interpolated_block(reference@, *dimensions, point, mv));
    current.sum_of_abs_difference_early_exit(&there, i16::MAX)
}

/// The better of a vector in half pixels and the best one so far.
pub open spec fn better_between(
    current: Block<i16>,
    reference: Seq<Block<i16>>,
    dimensions: BlockDimensions,
    point: Point,
    mv: MotionVector,
    best: (MotionVector, int),
) -> (MotionVector, int) {
    let score = subpixel_cost(current, reference, dimensions, point, mv);
    if in_grid(dimensions, whole_target(point, mv)) && score < best.1 {
        (mv, score)
    } else {
        best
    }
}

/// The best vector after the first `n` half pixels around a vector.
pub open spec fn tried_between(
    current: Block<i16>,
    reference: Seq<Block<i16>>,
    dimensions: BlockDimensions,
    point: Point,
    n: int,
    best: (MotionVector, int),
) -> (MotionVector, int)
    decreases n,
{
    if n <= 0 {
        best
    } else {
        let offset = HALF_PIXEL_OFFSETS@[n - 1];
        better_between(
            current,
            reference,
            dimensions,
            point,
            MotionVector {
                x: (best.0.x + offset.0) as isize,
                y: (best.0.y + offset.1) as isize,
            },
            tried_between(current, reference, dimensions, point, n - 1, best),
        )
    }
}

/// Tries the half pixels around a vector, unless the block there is close
/// already.
pub fn half_pixel_refine(
    current: &Block<i16>,
    reference: &[Block<i16>],
    dimensions: &BlockDimensions,
    point: Point,
    best_integer: MotionVector,
    best_score: i16,
) -> (r: (MotionVector, i16))
    requires
        isize::MIN < best_integer.x < isize::MAX,
        isize::MIN < best_integer.y < isize::MAX,
    ensures
        best_score < 1024 ==> r == (best_integer, best_score),
        r.1 <= best_score,
        -1 <= r.0.x - best_integer.x <= 1,
        -1 <= r.0.y - best_integer.y <= 1,
        best_score < SUBPIXEL_SAD_THRESHOLD ==> r == (best_integer, best_score),
        best_score >= SUBPIXEL_SAD_THRESHOLD ==> (r.0, r.1 as int) == tried_between(
            *current,
            reference@,
            *dimensions,
            point,
            8,
            (best_integer, best_score as int),
        ),
{
    if best_score < SUBPIXEL_SAD_THRESHOLD {
        return (best_integer, best_score);
    }
    let mut best: (MotionVector, i16) = (best_integer, best_score);
    let mut i: usize = 0;
    while i < 8
        invariant
            i <= 8,
            isize::MIN < best_integer.x < isize::MAX,
            isize::MIN < best_integer.y < isize::MAX,
            (best.0, best.1 as int) == tried_between(
                *current,
                reference@,
                *dimensions,
                point,
                i as int,
                (best_integer, best_score as int),
            ),
        decreases 8 - i,
    {
        assert(forall|j: int|
            0 <= j < 8 ==> -1 <= (#[trigger] HALF_PIXEL_OFFSETS@[j]).0 <= 1 && -1
                <= HALF_PIXEL_OFFSETS@[j].1 <= 1);
        let offset: (isize, isize) = HALF_PIXEL_OFFSETS[i];
        let mv = MotionVector { x: best_integer.x + offset.0, y: best_integer.y + offset.1 };
        let col: i128 = point.col as i128 + mv.integer_x() as i128;
        let row: i128 = point.row as i128 + mv.integer_y() as i128;
        if 0 <= col && col < dimensions.width as i128 && 0 <= row && row
            < dimensions.height as i128 {
            let score: i16 = sum_of_abs_diff_subpixel(current, reference, dimensions, point, mv);
            if score < best.1 {
                best = (mv, score);
            }
        }
        i = i + 1;
    }
    proof {
        lemma_tried_between(
            *current,
            reference@,
            *dimensions,
            point,
            8,
            (best_integer, best_score as int),
        );
    }
    best
}

/// A pixel of the grid is a sample of the block that it lies in.
pub proof fn law_pixel_lies_in_its_block(
    reference: Seq<Block<i16>>,
    dimensions: BlockDimensions,
    row: int,
    col: int,
    down: int,
    right: int,
)
    requires
        0 <= row < dimensions.height,
        0 <= col < dimensions.width,
        row * dimensions.width + col < reference.len(),
        0 <= down < 8,
        0 <= right < 8,
    ensures
        pixel_at(reference, dimensions, 8 * col + right, 8 * row + down) == reference[row
            * dimensions.width + col]@[8 * down + right],
{
    assert((8 * col + right) / 8 == col && (8 * col + right) % 8 == right);
    assert((8 * row + down) / 8 == row && (8 * row + down) % 8 == down);
}

/// Pixels outside the grid are zero.
pub proof fn law_no_pixel_outside(
    reference: Seq<Block<i16>>,
    dimensions: BlockDimensions,
    x: int,
    y: int,
)
    requires
        x < 0 || y < 0 || x >= 8 * dimensions.width || y >= 8 * dimensions.height,
    ensures
        pixel_at(reference, dimensions, x, y) == 0,
{
}

/// The filter weighs six pixels, the two in the middle most, and rounds to the closest
/// number in the range of a byte. It is the same from either side, and leaves equal
/// pixels as they are.
pub proof fn law_filter_weighs_and_rounds(a: int, b: int, c: int, d: int, e: int, f: int)
    ensures
        ({
            let sum = (a + f) - 5 * (b + e) + 20 * (c + d);
            let r = six_tap(a, b, c, d, e, f);
            &&& -128 <= r <= 127
            &&& r < 127 ==> sum < 32 * r + 16
            &&& r > -128 ==> 32 * r - 16 <= sum
            &&& r == six_tap(f, e, d, c, b, a)
        }),
        a == b && b == c && c == d && d == e && e == f && -128 <= a <= 127 ==> six_tap(
            a,
            b,
            c,
            d,
            e,
            f,
        ) == a,
{
}

/// Half a pixel to the right, a pixel is weighed of six pixels of its row, half a pixel
/// below of six of its column, and at a whole place it is the pixel itself.
pub proof fn law_half_pixels_lie_between(
    reference: Seq<Block<i16>>,
    dimensions: BlockDimensions,
    x: int,
    y: int,
)
    ensures
        ({
            let right = interpolated(reference, dimensions, true, false, x, y);
            let below = interpolated(reference, dimensions, false, true, x, y);
            let across = |dx: int| pixel_at(reference, dimensions, x + dx, y);
            let down = |dy: int| pixel_at(reference, dimensions, x, y + dy);
            let sum_right = (across(-2) + across(3)) - 5 * (across(-1) + across(2)) + 20 * (
            across(0) + across(1));
            let sum_below = (down(-2) + down(3)) - 5 * (down(-1) + down(2)) + 20 * (down(0)
                + down(1));
            &&& -128 <= right <= 127
            &&& right < 127 ==> sum_right < 32 * right + 16
            &&& right > -128 ==> 32 * right - 16 <= sum_right
            &&& -128 <= below <= 127
            &&& below < 127 ==> sum_below < 32 * below + 16
            &&& below > -128 ==> 32 * below - 16 <= sum_below
            &&& interpolated(reference, dimensions, false, false, x, y) == pixel_at(
                reference,
                dimensions,
                x,
                y,
            )
        }),
{
}

/// Half a pixel to the right and below, a pixel is weighed of the six places half a pixel
/// to the right in its column.
pub proof fn law_diagonal_lies_between(
    reference: Seq<Block<i16>>,
    dimensions: BlockDimensions,
    x: int,
    y: int,
)
    ensures
        ({
            let r = interpolated(reference, dimensions, true, true, x, y);
            let right = |dy: int| interpolated(reference, dimensions, true, false, x, y + dy);
            let sum = (right(-2) + right(3)) - 5 * (right(-1) + right(2)) + 20 * (right(0)
                + right(1));
            &&& -128 <= r <= 127
            &&& r < 127 ==> sum < 32 * r + 16
            &&& r > -128 ==> 32 * r - 16 <= sum
        }),
{
}

/// A vector of whole steps leads to the block there. It costs how far that block is from
/// the block in question, as far as that fits.
pub proof fn law_whole_steps_cost_the_distance(
    current: Block<i16>,
    reference: Seq<Block<i16>>,
    dimensions: BlockDimensions,
    point: Point,
    mv: MotionVector,
    right: int,
    down: int,
)
    requires
        mv.x == 2 * right,
        mv.y == 2 * down,
        0 <= point.row + down < dimensions.height,
        0 <= point.col + right < dimensions.width,
        (point.row + down) * dimensions.width + (point.col + right) < reference.len(),
    ensures
        ({
            let at = (point.row + down) * dimensions.width + (point.col + right);
            let apart = abs_difference(current@, reference[at]@, 64);
            let r = subpixel_cost(current, reference, dimensions, point, mv);
            &&& interpolated_block(reference, dimensions, point, mv) == reference[at]@
            &&& apart < 32767 ==> r == apart
            &&& apart >= 32767 ==> r == 32767
        }),
{
    let at = (point.row + down) * dimensions.width + (point.col + right);
    law_quotient_leaves_a_rest(mv.x as int, 2);
    law_quotient_leaves_a_rest(mv.y as int, 2);
    assert(quotient(mv.x as int, 2) == right && quotient(mv.y as int, 2) == down);
    let block = interpolated_block(reference, dimensions, point, mv);
    assert forall|i: int| 0 <= i < 64 implies #[trigger] block[i] == reference[at]@[i] by {
        law_pixel_lies_in_its_block(
            reference,
            dimensions,
            point.row + down,
            point.col + right,
            i / 8,
            i % 8,
        );
        assert(8 * (i / 8) + i % 8 == i);
    }
    assert(block =~= reference[at]@);
}

/// A vector that leads out of the grid, or half a pixel from its first or last row or
/// column of blocks, costs as much as can be. Any other one that does not lead to a
/// whole place costs how far the block there is from the block in question.
pub proof fn law_half_steps_cost_the_distance(
    current: Block<i16>,
    reference: Seq<Block<i16>>,
    dimensions: BlockDimensions,
    point: Point,
    mv: MotionVector,
    right: int,
    down: int,
)
    requires
        mv.x >= 0 ==> 2 * right <= mv.x < 2 * right + 2,
        mv.x < 0 ==> 2 * right - 2 < mv.x <= 2 * right,
        mv.y >= 0 ==> 2 * down <= mv.y < 2 * down + 2,
        mv.y < 0 ==> 2 * down - 2 < mv.y <= 2 * down,
        mv.x != 2 * right || mv.y != 2 * down,
    ensures
        ({
            let row = point.row + down;
            let col = point.col + right;
            let r = subpixel_cost(current, reference, dimensions, point, mv);
            let apart = abs_difference(
                current@,
                interpolated_block(reference, dimensions, point, mv),
                64,
            );
            if !(0 <= row < dimensions.height && 0 <= col < dimensions.width) || (mv.x != 2
                * right && !(1 <= col && col + 1 < dimensions.width)) || (mv.y != 2 * down && !(1
                <= row && row + 1 < dimensions.height)) {
                r == 32767
            } else {
                r == if apart < 32767 {
                    apart
                } else {
                    32767
                }
            }
        }),
{
    law_quotient_leaves_a_rest(mv.x as int, 2);
    law_quotient_leaves_a_rest(mv.y as int, 2);
    assert(quotient(mv.x as int, 2) == right && quotient(mv.y as int, 2) == down);
}

/// What comes of the eight half pixels around a vector costs no more than any of them
/// that lies in the grid, nor than what was there before, and costs what it says.
pub proof fn law_half_pixels_improve(
    current: Block<i16>,
    reference: Seq<Block<i16>>,
    dimensions: BlockDimensions,
    point: Point,
    best: (MotionVector, int),
    mv: MotionVector,
)
    requires
        isize::MIN < best.0.x < isize::MAX,
        isize::MIN < best.0.y < isize::MAX,
        -1 <= mv.x - best.0.x <= 1,
        -1 <= mv.y - best.0.y <= 1,
        mv != best.0,
    ensures
        ({
            let r = tried_between(current, reference, dimensions, point, 8, best);
            &&& r.1 <= best.1
            &&& r.1 == best.1 ==> r == best
            &&& -1 <= r.0.x - best.0.x <= 1
            &&& -1 <= r.0.y - best.0.y <= 1
            &&& r.1 < best.1 ==> r.1 == subpixel_cost(
                current,
                reference,
                dimensions,
                point,
                r.0,
            )
            &&& subpixel_cost(current, reference, dimensions, point, mv) < i16::MAX ==> r.1
                <= subpixel_cost(current, reference, dimensions, point, mv)
        }),
{
    lemma_tried_between(current, reference, dimensions, point, 8, best);
    let dx = mv.x - best.0.x;
    let dy = mv.y - best.0.y;
    assert(HALF_PIXEL_OFFSETS@[0] == (0isize, 1isize));
    assert(HALF_PIXEL_OFFSETS@[1] == (1isize, 0isize));
    assert(HALF_PIXEL_OFFSETS@[2] == (1isize, 1isize));
    assert(HALF_PIXEL_OFFSETS@[3] == (0isize, -1isize));
    assert(HALF_PIXEL_OFFSETS@[4] == (-1isize, 0isize));
    assert(HALF_PIXEL_OFFSETS@[5] == (-1isize, -1isize));
    assert(HALF_PIXEL_OFFSETS@[6] == (1isize, -1isize));
    assert(HALF_PIXEL_OFFSETS@[7] == (-1isize, 1isize));
    let i: int = if dx == 0 {
        if dy == 1 {
            0
        } else {
            3
        }
    } else if dx == 1 {
        if dy == 0 {
            1
        } else if dy == 1 {
            2
        } else {
            6
        }
    } else if dy == 0 {
        4
    } else if dy == 1 {
        7
    } else {
        5
    };
    assert(HALF_PIXEL_OFFSETS@[i].0 == dx && HALF_PIXEL_OFFSETS@[i].1 == dy);
    assert(is_no_worse(
        current,
        reference,
        dimensions,
        point,
        best,
        i,
        tried_between(current, reference, dimensions, point, 8, best).1,
    ));
}

/// A score is not above what a half pixel costs, where that lies in the grid.
spec fn is_no_worse(
    current: Block<i16>,
    reference: Seq<Block<i16>>,
    dimensions: BlockDimensions,
    point: Point,
    best: (MotionVector, int),
    i: int,
    score: int,
) -> bool {
    let mv = MotionVector {
        x: (best.0.x + HALF_PIXEL_OFFSETS@[i].0) as isize,
        y: (best.0.y + HALF_PIXEL_OFFSETS@[i].1) as isize,
    };
    in_grid(dimensions, whole_target(point, mv)) ==> score <= subpixel_cost(
        current,
        reference,
        dimensions,
        point,
        mv,
    )
}

proof fn lemma_tried_between(
    current: Block<i16>,
    reference: Seq<Block<i16>>,
    dimensions: BlockDimensions,
    point: Point,
    n: int,
    best: (MotionVector, int),
)
    requires
        0 <= n <= 8,
        isize::MIN < best.0.x < isize::MAX,
        isize::MIN < best.0.y < isize::MAX,
    ensures
        ({
            let r = tried_between(current, reference, dimensions, point, n, best);
            &&& r.1 <= best.1
            &&& r.1 == best.1 ==> r == best
            &&& -1 <= r.0.x - best.0.x <= 1
            &&& -1 <= r.0.y - best.0.y <= 1
            &&& r.1 < best.1 ==> r.1 == subpixel_cost(
                current,
                reference,
                dimensions,
                point,
                r.0,
            )
            &&& forall|i: int|
                0 <= i < n ==> #[trigger] is_no_worse(
                    current,
                    reference,
                    dimensions,
                    point,
                    best,
                    i,
                    r.1,
                )
        }),
    decreases n,
{
    if n > 0 {
        lemma_tried_between(current, reference, dimensions, point, n - 1, best);
        assert(forall|j: int|
            0 <= j < 8 ==> -1 <= (#[trigger] HALF_PIXEL_OFFSETS@[j]).0 <= 1 && -1
                <= HALF_PIXEL_OFFSETS@[j].1 <= 1);
        let before = tried_between(current, reference, dimensions, point, n - 1, best);
        let r = tried_between(current, reference, dimensions, point, n, best);
        assert forall|i: int| 0 <= i < n implies #[trigger] is_no_worse(
            current,
            reference,
            dimensions,
            point,
            best,
            i,
            r.1,
        ) by {
            if i < n - 1 {
                assert(is_no_worse(
                    current,
                    reference,
                    dimensions,
                    point,
                    best,
                    i,
                    before.1,
                ));
            }
        }
    }
}

} // verus!
