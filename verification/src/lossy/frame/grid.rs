//! Blocks that are alike are put together to macroblocks of one, four, nine or
//! sixteen blocks, and taken apart again.
use vstd::prelude::*;

use super::macroblock::block_location::BlockLocation;
use super::macroblock::imacro::IMacroBlock;
use crate::block::{abs_difference, Block, REASONABLE_SUM_OF_ABS_DIFF_I16};
use crate::dimensions::BlockDimensions;
use crate::numeric::{lemma_place, lemma_place_bound, lemma_place_parts};
use crate::point::Point;
use crate::sample::Sample;

verus! {

/// The places of a square, counted from its corner: the corner, then the ring
/// that makes it a square of two by two, of three by three, of four by four.
/// Each ring goes down its column and back along its row.
pub const SQUARE: [(usize, usize); 16] = [
    (0, 0),
    (0, 1),
    (1, 1),
    (1, 0),
    (0, 2),
    (1, 2),
    (2, 2),
    (2, 1),
    (2, 0),
    (0, 3),
    (1, 3),
    (2, 3),
    (3, 3),
    (3, 2),
    (3, 1),
    (3, 0),
];

/// The number of blocks of a square with `rings` rings.
pub open spec fn square_len(rings: int) -> int {
    (rings + 1) * (rings + 1)
}

/// The places of a square lie in it, and every place in it is among them.
pub proof fn lemma_square_places()
    ensures
        forall|rings: int, i: int|
            0 <= rings <= 3 && 0 <= i < square_len(rings) ==> #[trigger] square_len(rings) <= 16
                && (#[trigger] SQUARE@[i]).0 <= rings && SQUARE@[i].1 <= rings,
        forall|i: int| 0 <= i < 16 ==> (#[trigger] SQUARE@[i]).0 <= 3 && SQUARE@[i].1 <= 3,
{
    assert(square_len(0) == 1 && square_len(1) == 4 && square_len(2) == 9 && square_len(3) == 16);
}

/// The place of a row and a column in the order of the rings.
pub open spec fn square_index(dr: int, dc: int) -> int {
    let ring = if dr >= dc {
        dr
    } else {
        dc
    };
    if dr < dc {
        ring * ring + dr
    } else {
        ring * ring + ring + (ring - dc)
    }
}

/// Every place of a square has its number.
pub proof fn lemma_square_index(dr: int, dc: int, rings: int)
    requires
        0 <= dr <= rings <= 3,
        0 <= dc <= rings,
    ensures
        0 <= square_index(dr, dc) < square_len(rings) <= 16,
        SQUARE@[square_index(dr, dc)] == (dr as usize, dc as usize),
{
    assert(square_len(0) == 1 && square_len(1) == 4 && square_len(2) == 9 && square_len(3) == 16);
    if rings == 0 {
    } else if rings == 1 {
        assert(dr == 0 || dr == 1);
        assert(dc == 0 || dc == 1);
    } else if rings == 2 {
        assert(dr == 0 || dr == 1 || dr == 2);
        assert(dc == 0 || dc == 1 || dc == 2);
    } else {
        assert(dr == 0 || dr == 1 || dr == 2 || dr == 3);
        assert(dc == 0 || dc == 1 || dc == 2 || dc == 3);
    }
}

/// The index of a block in the grid.
pub open spec fn cell(dimensions: BlockDimensions, row: int, col: int) -> int {
    row * dimensions.width + col
}

/// A place in the grid has an index in it.
pub proof fn lemma_cell(dimensions: BlockDimensions, row: int, col: int)
    requires
        0 <= row < dimensions.height,
        0 <= col < dimensions.width,
    ensures
        0 <= cell(dimensions, row, col) < dimensions.width * dimensions.height,
        cell(dimensions, row, col) / dimensions.width as int == row,
        cell(dimensions, row, col) % dimensions.width as int == col,
{
    lemma_place(row, col, dimensions.width as int);
    lemma_place_bound(row, col, dimensions.width as int, dimensions.height as int);
    vstd::arithmetic::mul::lemma_mul_is_commutative(
        dimensions.height as int,
        dimensions.width as int,
    );
}

/// The row and the column of an index lie in the grid.
pub proof fn lemma_row_and_col(dimensions: BlockDimensions, t: int)
    requires
        0 <= t < dimensions.width * dimensions.height,
    ensures
        0 <= t / (dimensions.width as int) < dimensions.height,
        0 <= t % (dimensions.width as int) < dimensions.width,
        cell(dimensions, t / (dimensions.width as int), t % (dimensions.width as int)) == t,
{
    if dimensions.width == 0 {
        assert(dimensions.width * dimensions.height == 0) by (nonlinear_arith)
            requires
                dimensions.width == 0,
        ;
    }
    lemma_place_parts(t, dimensions.width as int);
    let row = t / (dimensions.width as int);
    let col = t % (dimensions.width as int);
    assert(row < dimensions.height) by (nonlinear_arith)
        requires
            t == row * dimensions.width + col,
            col >= 0,
            t < dimensions.width * dimensions.height,
            dimensions.width > 0,
    ;
}

/// Whether the block at a place is there and like the first one.
pub open spec fn alike<T: Sample>(
    blocks: Seq<Block<T>>,
    dimensions: BlockDimensions,
    first: int,
    row: int,
    col: int,
) -> bool {
    &&& row < dimensions.height
    &&& col < dimensions.width
    &&& cell(dimensions, row, col) < blocks.len()
    &&& abs_difference(blocks[first]@, blocks[cell(dimensions, row, col)]@, 64)
        <= REASONABLE_SUM_OF_ABS_DIFF_I16
}

/// Whether all blocks of the `ring`-th ring around a place are like the block
/// there.
pub open spec fn ring_alike<T: Sample>(
    blocks: Seq<Block<T>>,
    dimensions: BlockDimensions,
    row: int,
    col: int,
    ring: int,
) -> bool {
    forall|i: int|
        square_len(ring - 1) <= i < square_len(ring) ==> alike(
            blocks,
            dimensions,
            cell(dimensions, row, col),
            row + (#[trigger] SQUARE@[i]).0,
            col + SQUARE@[i].1,
        )
}

/// The number of rings that are alike.
pub open spec fn rings<T: Sample>(
    blocks: Seq<Block<T>>,
    dimensions: BlockDimensions,
    row: int,
    col: int,
) -> int {
    if !ring_alike(blocks, dimensions, row, col, 1) {
        0
    } else if !ring_alike(blocks, dimensions, row, col, 2) {
        1
    } else if !ring_alike(blocks, dimensions, row, col, 3) {
        2
    } else {
        3
    }
}

/// The location of a square.
pub open spec fn square_at(row: int, col: int, rings: int) -> BlockLocation {
    BlockLocation {
        start: Point { row: row as usize, col: col as usize },
        end: Point { row: (row + rings) as usize, col: (col + rings) as usize },
    }
}

/// The blocks of a square, ring by ring.
pub open spec fn square_blocks<T>(
    blocks: Seq<Block<T>>,
    dimensions: BlockDimensions,
    row: int,
    col: int,
    count: int,
) -> Seq<Block<T>> {
    Seq::new(
        count as nat,
        |i: int| blocks[cell(dimensions, row + SQUARE@[i].0, col + SQUARE@[i].1)],
    )
}

/// A location holds a place.
pub open spec fn covers(location: BlockLocation, row: int, col: int) -> bool {
    location.start.row <= row <= location.end.row && location.start.col <= col <= location.end.col
}

/// One of the locations holds a place.
pub open spec fn covered(locations: Seq<BlockLocation>, row: int, col: int) -> bool {
    exists|j: int| 0 <= j < locations.len() && covers(#[trigger] locations[j], row, col)
}

/// The locations of the macroblocks that the first `n` places of a grid make
/// up, row by row: every place that no location holds yet starts one.
pub open spec fn locations<T: Sample>(
    blocks: Seq<Block<T>>,
    dimensions: BlockDimensions,
    n: int,
) -> Seq<BlockLocation>
    decreases n,
{
    if n <= 0 {
        Seq::empty()
    } else {
        let so_far = locations(blocks, dimensions, n - 1);
        let row = (n - 1) / dimensions.width as int;
        let col = (n - 1) % dimensions.width as int;
        if covered(so_far, row, col) || n - 1 >= blocks.len() {
            so_far
        } else {
            so_far.push(square_at(row, col, rings(blocks, dimensions, row, col)))
        }
    }
}

/// The macroblock holds the blocks of its location.
pub open spec fn is_square<T>(
    blocks: Seq<Block<T>>,
    dimensions: BlockDimensions,
    location: BlockLocation,
    held: Seq<Block<T>>,
) -> bool {
    &&& location.start.row <= location.end.row <= location.start.row + 3
    &&& location.end.row - location.start.row == location.end.col - location.start.col
    &&& held == square_blocks(
        blocks,
        dimensions,
        location.start.row as int,
        location.start.col as int,
        square_len(location.end.row - location.start.row),
    )
}

/// Adds the next ring to a square, where all its blocks are like the first.
fn expand_macro_block<T: Sample>(
    blocks: &[Block<T>],
    dimensions: BlockDimensions,
    row: usize,
    col: usize,
    used: &mut Vec<bool>,
    held: &mut Vec<Block<T>>,
    from: usize,
    to: usize,
    Ghost(ring): Ghost<int>,
) -> (r: bool)
    requires
        1 <= ring <= 3,
        from == square_len(ring - 1),
        to == square_len(ring),
        to <= 16,
        row < dimensions.height <= usize::MAX - 3,
        col < dimensions.width <= usize::MAX - 3,
        dimensions.width * dimensions.height <= usize::MAX,
        cell(dimensions, row as int, col as int) < blocks@.len(),
        old(used)@.len() == dimensions.width * dimensions.height,
        old(held)@ == square_blocks(blocks@, dimensions, row as int, col as int, from as int),
    ensures
        r == ring_alike(blocks@, dimensions, row as int, col as int, ring),
        !r ==> final(used)@ == old(used)@ && final(held)@ == old(held)@,
        final(used)@.len() == old(used)@.len(),
        r ==> final(held)@ == square_blocks(
            blocks@,
            dimensions,
            row as int,
            col as int,
            to as int,
        ),
        r ==> forall|a: int, b: int|
            0 <= a < dimensions.height && 0 <= b < dimensions.width
                ==> #[trigger] final(used)@[cell(dimensions, a, b)] == (old(used)@[cell(
                dimensions,
                a,
                b,
            )] || exists|i: int|
                from <= i < to && row + (#[trigger] SQUARE@[i]).0 == a && col + SQUARE@[i].1 == b),
{
    proof {
        lemma_square_places();
        lemma_cell(dimensions, row as int, col as int);
        assert(square_len(0) == 1 && square_len(1) == 4 && square_len(2) == 9 && square_len(3)
            == 16);
    }
    let width: usize = dimensions.width;
    let first: usize = row * width + col;
    let ghost held0 = held@;
    let ghost used0 = used@;
    let mut i: usize = from;
    while i < to
        invariant
            from <= i <= to <= 16,
            from == square_len(ring - 1),
            to == square_len(ring),
            width == dimensions.width,
            row < dimensions.height <= usize::MAX - 3,
            col < dimensions.width <= usize::MAX - 3,
            dimensions.width * dimensions.height <= usize::MAX,
            first == cell(dimensions, row as int, col as int),
            first < blocks@.len(),
            forall|j: int| 0 <= j < 16 ==> (#[trigger] SQUARE@[j]).0 <= 3 && SQUARE@[j].1 <= 3,
            used@ == used0,
            held@ == held0,
            used0 == old(used)@,
            held0 == old(held)@,
            forall|j: int|
                from <= j < i ==> alike(
                    blocks@,
                    dimensions,
                    first as int,
                    row + (#[trigger] SQUARE@[j]).0,
                    col + SQUARE@[j].1,
                ),
        decreases to - i,
    {
        let r1: usize = row + SQUARE[i].0;
        let c1: usize = col + SQUARE[i].1;
        let ghost here = alike(
            blocks@,
            dimensions,
            first as int,
            row + SQUARE@[i as int].0,
            col + SQUARE@[i as int].1,
        );
        if r1 >= dimensions.height || c1 >= width {
            assert(!here);
            return false;
        }
        proof {
            lemma_cell(dimensions, r1 as int, c1 as int);
        }
        let index: usize = r1 * width + c1;
        if index >= blocks.len() {
            assert(!here);
            return false;
        }
        if blocks[first].distance(&blocks[index]) > REASONABLE_SUM_OF_ABS_DIFF_I16 as i64 {
            assert(!here);
            return false;
        }
        i = i + 1;
    }
    assert(ring_alike(blocks@, dimensions, row as int, col as int, ring));
    let mut i: usize = from;
    while i < to
        invariant
            from <= i <= to <= 16,
            width == dimensions.width,
            row < dimensions.height <= usize::MAX - 3,
            col < dimensions.width <= usize::MAX - 3,
            dimensions.width * dimensions.height <= usize::MAX,
            first == cell(dimensions, row as int, col as int),
            forall|j: int| 0 <= j < 16 ==> (#[trigger] SQUARE@[j]).0 <= 3 && SQUARE@[j].1 <= 3,
            forall|j: int|
                from <= j < to ==> alike(
                    blocks@,
                    dimensions,
                    first as int,
                    row + (#[trigger] SQUARE@[j]).0,
                    col + SQUARE@[j].1,
                ),
            used0.len() == dimensions.width * dimensions.height,
            used@.len() == used0.len(),
            held@ == square_blocks(blocks@, dimensions, row as int, col as int, i as int),
            forall|a: int, b: int|
                0 <= a < dimensions.height && 0 <= b < dimensions.width
                    ==> #[trigger] used@[cell(dimensions, a, b)] == (used0[cell(dimensions, a, b)]
                    || exists|j: int|
                    from <= j < i && row + (#[trigger] SQUARE@[j]).0 == a && col + SQUARE@[j].1
                        == b),
        decreases to - i,
    {
        let r1: usize = row + SQUARE[i].0;
        let c1: usize = col + SQUARE[i].1;
        proof {
            assert(alike(
                blocks@,
                dimensions,
                first as int,
                row + SQUARE@[i as int].0,
                col + SQUARE@[i as int].1,
            ));
            lemma_cell(dimensions, r1 as int, c1 as int);
        }
        let index: usize = r1 * width + c1;
        held.push(blocks[index]);
        let ghost used1 = used@;
        used.set(index, true);
        proof {
            assert(held@ =~= square_blocks(blocks@, dimensions, row as int, col as int, i + 1));
            assert forall|a: int, b: int|
                0 <= a < dimensions.height && 0 <= b
                    < dimensions.width implies #[trigger] used@[cell(dimensions, a, b)] == (
            used0[cell(dimensions, a, b)] || exists|j: int|
                from <= j < i + 1 && row + (#[trigger] SQUARE@[j]).0 == a && col + SQUARE@[j].1
                    == b) by {
                lemma_cell(dimensions, a, b);
                assert(used1[cell(dimensions, a, b)] == (used0[cell(dimensions, a, b)]
                    || exists|j: int|
                    from <= j < i && row + (#[trigger] SQUARE@[j]).0 == a && col + SQUARE@[j].1
                        == b));
                if a == r1 && b == c1 {
                    assert(row + SQUARE@[i as int].0 == a);
                } else {
                    assert(cell(dimensions, a, b) != index);
                }
            }
        }
        i = i + 1;
    }
    true
}

/// Takes the block at a place and the rings around it that are like it.
fn grow<T: Sample>(
    blocks: &[Block<T>],
    dimensions: BlockDimensions,
    row: usize,
    col: usize,
    used: &mut Vec<bool>,
) -> (r: IMacroBlock<T>)
    requires
        row < dimensions.height <= usize::MAX - 3,
        col < dimensions.width <= usize::MAX - 3,
        dimensions.width * dimensions.height <= usize::MAX,
        cell(dimensions, row as int, col as int) < blocks@.len(),
        old(used)@.len() == dimensions.width * dimensions.height,
    ensures
        r.location == square_at(
            row as int,
            col as int,
            rings(blocks@, dimensions, row as int, col as int),
        ),
        is_square(blocks@, dimensions, r.location, r.blocks@),
        final(used)@.len() == old(used)@.len(),
        forall|a: int, b: int|
            0 <= a < dimensions.height && 0 <= b < dimensions.width
                ==> #[trigger] final(used)@[cell(dimensions, a, b)] == (old(used)@[cell(
                dimensions,
                a,
                b,
            )] || covers(r.location, a, b)),
{
    proof {
        lemma_square_places();
        lemma_cell(dimensions, row as int, col as int);
        assert(square_len(0) == 1 && square_len(1) == 4 && square_len(2) == 9 && square_len(3)
            == 16);
    }
    let first: usize = row * dimensions.width + col;
    let mut held: Vec<Block<T>> = Vec::new();
    held.push(blocks[first]);
    proof {
        assert(held@ =~= square_blocks(blocks@, dimensions, row as int, col as int, 1));
    }
    let mut reach: usize = 0;
    if expand_macro_block(blocks, dimensions, row, col, used, &mut held, 1, 4, Ghost(1)) {
        reach = 1;
        if expand_macro_block(blocks, dimensions, row, col, used, &mut held, 4, 9, Ghost(2)) {
            reach = 2;
            if expand_macro_block(blocks, dimensions, row, col, used, &mut held, 9, 16, Ghost(3)) {
                reach = 3;
            }
        }
    }
    let ghost grown = used@;
    assert forall|a: int, b: int|
        0 <= a < dimensions.height && 0 <= b < dimensions.width
            implies #[trigger] grown[cell(dimensions, a, b)] == (old(used)@[cell(dimensions, a, b)]
        || exists|i: int|
        1 <= i < square_len(reach as int) && row + (#[trigger] SQUARE@[i]).0 == a && col
            + SQUARE@[i].1 == b) by {}
    used.set(first, true);
    let location = BlockLocation {
        start: Point { row, col },
        end: Point { row: row + reach, col: col + reach },
    };
    proof {
        assert forall|a: int, b: int|
            0 <= a < dimensions.height && 0 <= b
                < dimensions.width implies #[trigger] used@[cell(dimensions, a, b)] == (
        old(used)@[cell(dimensions, a, b)] || covers(location, a, b)) by {
            lemma_cell(dimensions, a, b);
            assert(grown[cell(dimensions, a, b)] == (old(used)@[cell(dimensions, a, b)]
                || exists|i: int|
                1 <= i < square_len(reach as int) && row + (#[trigger] SQUARE@[i]).0 == a && col
                    + SQUARE@[i].1 == b));
            if covers(location, a, b) {
                lemma_square_index(a - row, b - col, reach as int);
                let i = square_index(a - row, b - col);
                assert(SQUARE@[0] == (0usize, 0usize));
                if i != 0 {
                    assert(row + SQUARE@[i].0 == a && col + SQUARE@[i].1 == b);
                }
            }
        }
    }
    IMacroBlock { location, blocks: held }
}

/// The locations of macroblocks.
pub open spec fn places<T>(macro_blocks: Seq<IMacroBlock<T>>) -> Seq<BlockLocation> {
    macro_blocks.map_values(|m: IMacroBlock<T>| m.location)
}

/// The grid fits, if it holds anything at all.
pub open spec fn is_grid(len: nat, dimensions: BlockDimensions) -> bool {
    len > 0 ==> {
        &&& dimensions.width * dimensions.height <= usize::MAX
        &&& dimensions.width <= usize::MAX - 3
        &&& dimensions.height <= usize::MAX - 3
    }
}

/// Puts the blocks of a grid together to macroblocks. The block at every place
/// that no macroblock holds yet starts one, which grows to the right and down
/// while every block of the next ring is like the first.
pub fn build_macro_blocks<T: Sample>(blocks: &[Block<T>], dimensions: BlockDimensions) -> (r: Vec<
    IMacroBlock<T>,
>)
    requires
        is_grid(blocks@.len(), dimensions),
    ensures
        places(r@) == locations(
            blocks@,
            dimensions,
            if blocks@.len() == 0 {
                0
            } else {
                dimensions.width * dimensions.height
            },
        ),
        forall|i: int|
            0 <= i < r@.len() ==> is_square(
                blocks@,
                dimensions,
                (#[trigger] r@[i]).location,
                r@[i].blocks@,
            ),
{
    let mut res: Vec<IMacroBlock<T>> = Vec::new();
    if blocks.len() == 0 {
        assert(places(res@) =~= Seq::empty());
        return res;
    }
    let width: usize = dimensions.width;
    let total: usize = width * dimensions.height;
    let mut used: Vec<bool> = vec![false; total];
    proof {
        assert(places(res@) =~= Seq::empty());
        assert forall|a: int, b: int|
            0 <= a < dimensions.height && 0 <= b < width implies #[trigger] used@[cell(
            dimensions,
            a,
            b,
        )] == covered(places(res@), a, b) by {
            lemma_cell(dimensions, a, b);
        }
    }
    let mut t: usize = 0;
    while t < total
        invariant
            t <= total,
            total == width * dimensions.height,
            width == dimensions.width,
            blocks@.len() > 0,
            is_grid(blocks@.len(), dimensions),
            used@.len() == total,
            places(res@) == locations(blocks@, dimensions, t as int),
            forall|i: int|
                0 <= i < res@.len() ==> is_square(
                    blocks@,
                    dimensions,
                    (#[trigger] res@[i]).location,
                    res@[i].blocks@,
                ),
            forall|a: int, b: int|
                0 <= a < dimensions.height && 0 <= b < width ==> #[trigger] used@[cell(
                    dimensions,
                    a,
                    b,
                )] == covered(places(res@), a, b),
        decreases total - t,
    {
        proof {
            if width == 0 {
                assert(total == 0) by (nonlinear_arith)
                    requires
                        total == width * dimensions.height,
                        width == 0,
                ;
            }
            lemma_place_parts(t as int, width as int);
            let row = t as int / width as int;
            assert(row < dimensions.height) by (nonlinear_arith)
                requires
                    t == row * width + t as int % width as int,
                    t as int % width as int >= 0,
                    t < width * dimensions.height,
                    width > 0,
            ;
        }
        let row: usize = t / width;
        let col: usize = t % width;
        assert(cell(dimensions, row as int, col as int) == t);
        if !used[t] && t < blocks.len() {
            let ghost before = places(res@);
            let ghost used0 = used@;
            let found = grow(blocks, dimensions, row, col, &mut used);
            let ghost location = found.location;
            res.push(found);
            proof {
                assert(places(res@) =~= before.push(location));
                assert forall|a: int, b: int|
                    0 <= a < dimensions.height && 0 <= b < width implies #[trigger] used@[cell(
                    dimensions,
                    a,
                    b,
                )] == covered(places(res@), a, b) by {
                    assert(used0[cell(dimensions, a, b)] == covered(before, a, b));
                    if covered(before, a, b) {
                        let j = choose|j: int|
                            0 <= j < before.len() && covers(#[trigger] before[j], a, b);
                        assert(covers(places(res@)[j], a, b));
                    }
                    if covers(location, a, b) {
                        assert(covers(places(res@)[before.len() as int], a, b));
                    }
                    if covered(places(res@), a, b) && !covers(location, a, b) {
                        let j = choose|j: int|
                            0 <= j < places(res@).len() && covers(
                                #[trigger] places(res@)[j],
                                a,
                                b,
                            );
                        assert(covers(before[j], a, b));
                    }
                }
            }
        }
        t = t + 1;
    }
    res
}

/// The number of blocks that are put back of a macroblock with `len` blocks:
/// only full rings are.
pub open spec fn placed(len: nat) -> int {
    if len >= 16 {
        16
    } else if len >= 9 {
        9
    } else if len >= 4 {
        4
    } else if len >= 1 {
        1
    } else {
        0
    }
}

/// The grid after the first `n` blocks of a macroblock were put back.
pub open spec fn put_back<T>(
    grid: Seq<Block<T>>,
    location: BlockLocation,
    held: Seq<Block<T>>,
    width: int,
    n: int,
) -> Seq<Block<T>>
    decreases n,
{
    if n <= 0 {
        grid
    } else {
        let so_far = put_back(grid, location, held, width, n - 1);
        let at = (location.start.row + SQUARE@[n - 1].0) * width + location.start.col + SQUARE@[n
            - 1].1;
        if at < so_far.len() {
            so_far.update(at, held[n - 1])
        } else {
            so_far
        }
    }
}

/// The grid after the first `n` macroblocks were put back.
pub open spec fn reconstructed<T>(
    grid: Seq<Block<T>>,
    macro_blocks: Seq<IMacroBlock<T>>,
    width: int,
    n: int,
) -> Seq<Block<T>>
    decreases n,
{
    if n <= 0 {
        grid
    } else {
        let m = macro_blocks[n - 1];
        put_back(
            reconstructed(grid, macro_blocks, width, n - 1),
            m.location,
            m.blocks@,
            width,
            placed(m.blocks@.len()),
        )
    }
}

/// Putting back keeps the size of the grid.
pub proof fn lemma_put_back_len<T>(
    grid: Seq<Block<T>>,
    location: BlockLocation,
    held: Seq<Block<T>>,
    width: int,
    n: int,
)
    requires
        0 <= width,
    ensures
        put_back(grid, location, held, width, n).len() == grid.len(),
    decreases n,
{
    if n > 0 {
        lemma_put_back_len(grid, location, held, width, n - 1);
        let row = location.start.row + SQUARE@[n - 1].0;
        assert(row * width >= 0) by (nonlinear_arith)
            requires
                row >= 0,
                width >= 0,
        ;
    }
}

/// Putting macroblocks back keeps the size of the grid.
pub proof fn lemma_reconstructed_len<T>(
    grid: Seq<Block<T>>,
    macro_blocks: Seq<IMacroBlock<T>>,
    width: int,
    n: int,
)
    requires
        0 <= width,
    ensures
        reconstructed(grid, macro_blocks, width, n).len() == grid.len(),
    decreases n,
{
    if n > 0 {
        lemma_reconstructed_len(grid, macro_blocks, width, n - 1);
        let m = macro_blocks[n - 1];
        lemma_put_back_len(
            reconstructed(grid, macro_blocks, width, n - 1),
            m.location,
            m.blocks@,
            width,
            placed(m.blocks@.len()),
        );
    }
}

/// Puts the blocks of a macroblock back into the grid. A block that would lie
/// behind the end of the grid is dropped.
pub fn reconstruct_blocks_from_macroblock<T: Sample>(
    macro_block: &IMacroBlock<T>,
    grid: &mut Vec<Block<T>>,
    width: usize,
)
    ensures
        final(grid)@ == put_back(
            old(grid)@,
            macro_block.location,
            macro_block.blocks@,
            width as int,
            placed(macro_block.blocks@.len()),
        ),
        final(grid)@.len() == old(grid)@.len(),
{
    let len: usize = macro_block.blocks.len();
    let count: usize = if len >= 16 {
        16
    } else if len >= 9 {
        9
    } else if len >= 4 {
        4
    } else if len >= 1 {
        1
    } else {
        0
    };
    let ghost grid0 = grid@;
    let start = macro_block.location.start;
    let mut i: usize = 0;
    while i < count
        invariant
            i <= count <= 16,
            count <= macro_block.blocks@.len(),
            start == macro_block.location.start,
            grid@.len() == grid0.len(),
            grid@ == put_back(
                grid0,
                macro_block.location,
                macro_block.blocks@,
                width as int,
                i as int,
            ),
        decreases count - i,
    {
        let offset = SQUARE[i];
        assert(offset == SQUARE@[i as int]);
        proof {
            lemma_square_places();
        }
        let row: u128 = start.row as u128 + offset.0 as u128;
        let col: u128 = start.col as u128 + offset.1 as u128;
        if width == 0 || row < grid.len() as u128 {
            proof {
                assert(0 <= row * width <= u64::MAX * u64::MAX) by (nonlinear_arith)
                    requires
                        0 <= row,
                        0 <= width <= u64::MAX,
                        width == 0 || row <= u64::MAX,
                ;
            }
            let at: u128 = row * width as u128 + col;
            if at < grid.len() as u128 {
                grid.set(at as usize, macro_block.blocks[i]);
            }
        } else {
            proof {
                assert(row * width >= row) by (nonlinear_arith)
                    requires
                        0 <= row,
                        1 <= width,
                ;
            }
        }
        i = i + 1;
    }
}

/// Every place of the first `n` is held by one of the locations.
pub proof fn lemma_covered<T: Sample>(
    blocks: Seq<Block<T>>,
    dimensions: BlockDimensions,
    n: int,
    row: int,
    col: int,
)
    requires
        0 <= row < dimensions.height,
        0 <= col < dimensions.width,
        dimensions.height <= usize::MAX - 3,
        dimensions.width <= usize::MAX - 3,
        cell(dimensions, row, col) < n <= blocks.len(),
    ensures
        covered(locations(blocks, dimensions, n), row, col),
    decreases n,
{
    lemma_cell(dimensions, row, col);
    let so_far = locations(blocks, dimensions, n - 1);
    let next = locations(blocks, dimensions, n);
    if cell(dimensions, row, col) == n - 1 {
        if !covered(so_far, row, col) {
            assert(next[so_far.len() as int] == square_at(
                row,
                col,
                rings(blocks, dimensions, row, col),
            ));
            assert(covers(next[so_far.len() as int], row, col));
        }
    } else {
        lemma_covered(blocks, dimensions, n - 1, row, col);
        let j = choose|j: int| 0 <= j < so_far.len() && covers(#[trigger] so_far[j], row, col);
        assert(covers(next[j], row, col));
    }
}

/// Every location lies in the grid.
pub proof fn lemma_locations_inside<T: Sample>(
    blocks: Seq<Block<T>>,
    dimensions: BlockDimensions,
    n: int,
    j: int,
)
    requires
        0 <= n <= dimensions.width * dimensions.height,
        dimensions.height <= usize::MAX - 3,
        dimensions.width <= usize::MAX - 3,
        0 <= j < locations(blocks, dimensions, n).len(),
    ensures
        ({
            let location = locations(blocks, dimensions, n)[j];
            &&& location.start.row <= location.end.row < dimensions.height
            &&& location.start.col <= location.end.col < dimensions.width
        }),
    decreases n,
{
    let so_far = locations(blocks, dimensions, n - 1);
    if j < so_far.len() {
        lemma_locations_inside(blocks, dimensions, n - 1, j);
    } else {
        if dimensions.width == 0 {
            assert(dimensions.width * dimensions.height == 0) by (nonlinear_arith)
                requires
                    dimensions.width == 0,
            ;
        }
        let row = (n - 1) / dimensions.width as int;
        let col = (n - 1) % dimensions.width as int;
        lemma_place_parts(n - 1, dimensions.width as int);
        assert(row < dimensions.height) by (nonlinear_arith)
            requires
                n - 1 == row * dimensions.width + col,
                col >= 0,
                n - 1 < dimensions.width * dimensions.height,
                dimensions.width > 0,
        ;
        let count = rings(blocks, dimensions, row, col);
        assert(square_len(0) == 1 && square_len(1) == 4 && square_len(2) == 9 && square_len(3)
            == 16);
        assert(SQUARE@[2] == (1usize, 1usize));
        assert(SQUARE@[6] == (2usize, 2usize));
        assert(SQUARE@[12] == (3usize, 3usize));
        let first = cell(dimensions, row, col);
        if count >= 1 {
            assert(alike(blocks, dimensions, first, row + SQUARE@[2].0, col + SQUARE@[2].1));
        }
        if count >= 2 {
            assert(alike(blocks, dimensions, first, row + SQUARE@[6].0, col + SQUARE@[6].1));
        }
        if count >= 3 {
            assert(alike(blocks, dimensions, first, row + SQUARE@[12].0, col + SQUARE@[12].1));
        }
    }
}

/// Putting a square of a grid back writes only blocks of that grid, to every
/// place of the square.
proof fn lemma_put_back_square<T>(
    grid: Seq<Block<T>>,
    blocks: Seq<Block<T>>,
    dimensions: BlockDimensions,
    location: BlockLocation,
    n: int,
)
    requires
        grid.len() == blocks.len() == dimensions.width * dimensions.height,
        location.start.row <= location.end.row < dimensions.height,
        location.start.col <= location.end.col < dimensions.width,
        location.end.row - location.start.row == location.end.col - location.start.col,
        location.end.row - location.start.row <= 3,
        0 <= n <= square_len(location.end.row - location.start.row),
    ensures
        ({
            let held = square_blocks(
                blocks,
                dimensions,
                location.start.row as int,
                location.start.col as int,
                square_len(location.end.row - location.start.row),
            );
            let after = put_back(grid, location, held, dimensions.width as int, n);
            &&& after.len() == grid.len()
            &&& forall|t: int|
                0 <= t < grid.len() ==> (#[trigger] after[t] == grid[t] || after[t] == blocks[t])
            &&& forall|t: int|
                0 <= t < grid.len() && grid[t] == blocks[t] ==> #[trigger] after[t] == blocks[t]
            &&& forall|i: int|
                0 <= i < n ==> {
                    let t = cell(
                        dimensions,
                        location.start.row + (#[trigger] SQUARE@[i]).0,
                        location.start.col + SQUARE@[i].1,
                    );
                    after[t] == blocks[t]
                }
        }),
    decreases n,
{
    if n > 0 {
        lemma_put_back_square(grid, blocks, dimensions, location, n - 1);
        lemma_square_places();
        let reach = location.end.row - location.start.row;
        assert(SQUARE@[n - 1].0 <= reach && SQUARE@[n - 1].1 <= reach);
        let row = location.start.row as int;
        let col = location.start.col as int;
        let width = dimensions.width as int;
        let held = square_blocks(blocks, dimensions, row, col, square_len(reach));
        let before = put_back(grid, location, held, width, n - 1);
        let after = put_back(grid, location, held, width, n);
        let at = cell(dimensions, row + SQUARE@[n - 1].0, col + SQUARE@[n - 1].1);
        lemma_cell(dimensions, row + SQUARE@[n - 1].0, col + SQUARE@[n - 1].1);
        assert(held[n - 1] == blocks[at]);
        assert(after == before.update(at, blocks[at]));
        assert forall|i: int| 0 <= i < n implies {
            let t = cell(dimensions, row + (#[trigger] SQUARE@[i]).0, col + SQUARE@[i].1);
            after[t] == blocks[t]
        } by {
            assert(SQUARE@[i].0 <= reach && SQUARE@[i].1 <= reach);
            lemma_cell(dimensions, row + SQUARE@[i].0, col + SQUARE@[i].1);
        }
    }
}

/// Building macroblocks of a full grid and putting them back, in order, into
/// any grid of the same size gives the blocks back.
pub proof fn law_grid_comes_back<T: Sample>(
    blocks: Seq<Block<T>>,
    dimensions: BlockDimensions,
    macro_blocks: Seq<IMacroBlock<T>>,
    grid: Seq<Block<T>>,
)
    requires
        is_grid(blocks.len(), dimensions),
        blocks.len() == dimensions.width * dimensions.height,
        grid.len() == blocks.len(),
        places(macro_blocks) == locations(blocks, dimensions, blocks.len() as int),
        forall|i: int|
            0 <= i < macro_blocks.len() ==> is_square(
                blocks,
                dimensions,
                (#[trigger] macro_blocks[i]).location,
                macro_blocks[i].blocks@,
            ),
    ensures
        reconstructed(grid, macro_blocks, dimensions.width as int, macro_blocks.len() as int)
            == blocks,
{
    lemma_grid_comes_back(blocks, blocks, dimensions, macro_blocks, grid);
}

/// Macroblocks that lie like those of one grid and hold the blocks of another
/// give the other back.
pub proof fn lemma_grid_comes_back<S: Sample, T>(
    shape: Seq<Block<S>>,
    blocks: Seq<Block<T>>,
    dimensions: BlockDimensions,
    macro_blocks: Seq<IMacroBlock<T>>,
    grid: Seq<Block<T>>,
)
    requires
        is_grid(blocks.len(), dimensions),
        shape.len() == blocks.len(),
        blocks.len() == dimensions.width * dimensions.height,
        grid.len() == blocks.len(),
        places(macro_blocks) == locations(shape, dimensions, blocks.len() as int),
        forall|i: int|
            0 <= i < macro_blocks.len() ==> is_square(
                blocks,
                dimensions,
                (#[trigger] macro_blocks[i]).location,
                macro_blocks[i].blocks@,
            ),
    ensures
        reconstructed(grid, macro_blocks, dimensions.width as int, macro_blocks.len() as int)
            == blocks,
{
    let width = dimensions.width as int;
    let back = reconstructed(grid, macro_blocks, width, macro_blocks.len() as int);
    if blocks.len() == 0 {
        lemma_reconstructed_len(grid, macro_blocks, width, macro_blocks.len() as int);
        assert(back =~= blocks);
    } else {
        lemma_reconstructed(
            shape,
            blocks,
            dimensions,
            macro_blocks,
            grid,
            macro_blocks.len() as int,
        );
        assert forall|t: int| 0 <= t < blocks.len() implies back[t] == blocks[t] by {
            if width == 0 {
                assert(dimensions.width * dimensions.height == 0) by (nonlinear_arith)
                    requires
                        dimensions.width == 0,
                ;
            }
            lemma_place_parts(t, width);
            let row = t / width;
            let col = t % width;
            assert(row < dimensions.height) by (nonlinear_arith)
                requires
                    t == row * dimensions.width + col,
                    col >= 0,
                    t < dimensions.width * dimensions.height,
                    dimensions.width > 0,
            ;
            assert(cell(dimensions, row, col) == t);
            lemma_covered(shape, dimensions, blocks.len() as int, row, col);
            let all = locations(shape, dimensions, blocks.len() as int);
            let j = choose|j: int| 0 <= j < all.len() && covers(#[trigger] all[j], row, col);
            assert(macro_blocks[j].location == places(macro_blocks)[j]);
        }
        assert(back =~= blocks);
    }
}

/// What the first `n` macroblocks hold is back in its place.
proof fn lemma_reconstructed<S: Sample, T>(
    shape: Seq<Block<S>>,
    blocks: Seq<Block<T>>,
    dimensions: BlockDimensions,
    macro_blocks: Seq<IMacroBlock<T>>,
    grid: Seq<Block<T>>,
    n: int,
)
    requires
        blocks.len() > 0,
        shape.len() == blocks.len(),
        is_grid(blocks.len(), dimensions),
        blocks.len() == dimensions.width * dimensions.height,
        grid.len() == blocks.len(),
        0 <= n <= macro_blocks.len(),
        places(macro_blocks) == locations(shape, dimensions, blocks.len() as int),
        forall|i: int|
            0 <= i < macro_blocks.len() ==> is_square(
                blocks,
                dimensions,
                (#[trigger] macro_blocks[i]).location,
                macro_blocks[i].blocks@,
            ),
    ensures
        ({
            let back = reconstructed(grid, macro_blocks, dimensions.width as int, n);
            &&& back.len() == blocks.len()
            &&& forall|j: int, row: int, col: int|
                0 <= j < n && covers(#[trigger] macro_blocks[j].location, row, col)
                    ==> back[#[trigger] cell(dimensions, row, col)] == blocks[cell(
                    dimensions,
                    row,
                    col,
                )]
        }),
    decreases n,
{
    if n > 0 {
        lemma_reconstructed(shape, blocks, dimensions, macro_blocks, grid, n - 1);
        let width = dimensions.width as int;
        let before = reconstructed(grid, macro_blocks, width, n - 1);
        let back = reconstructed(grid, macro_blocks, width, n);
        let m = macro_blocks[n - 1];
        assert(m.location == places(macro_blocks)[n - 1]);
        lemma_locations_inside(shape, dimensions, blocks.len() as int, n - 1);
        let reach = m.location.end.row - m.location.start.row;
        assert(square_len(0) == 1 && square_len(1) == 4 && square_len(2) == 9 && square_len(3)
            == 16);
        assert(placed(m.blocks@.len()) == square_len(reach));
        lemma_put_back_square(before, blocks, dimensions, m.location, square_len(reach));
        assert forall|j: int, row: int, col: int|
            0 <= j < n && covers(
                #[trigger] macro_blocks[j].location,
                row,
                col,
            ) implies back[#[trigger] cell(dimensions, row, col)] == blocks[cell(
            dimensions,
            row,
            col,
        )] by {
            assert(macro_blocks[j].location == places(macro_blocks)[j]);
            lemma_locations_inside(shape, dimensions, blocks.len() as int, j);
            lemma_cell(dimensions, row, col);
            if j < n - 1 {
                assert(before[cell(dimensions, row, col)] == blocks[cell(dimensions, row, col)]);
            } else {
                lemma_square_index(
                    row - m.location.start.row,
                    col - m.location.start.col,
                    reach,
                );
                let i = square_index(row - m.location.start.row, col - m.location.start.col);
                assert(SQUARE@[i].0 == row - m.location.start.row);
            }
        }
    }
}

/// The block so many rows down and columns to the right of a block is there, and at most 128
/// apart from it.
pub open spec fn is_close_by<T: Sample>(
    blocks: Seq<Block<T>>,
    dimensions: BlockDimensions,
    row: int,
    col: int,
    down: int,
    right: int,
) -> bool {
    let there = (row + down) * dimensions.width + (col + right);
    &&& row + down < dimensions.height
    &&& col + right < dimensions.width
    &&& there < blocks.len()
    &&& abs_difference(blocks[row * dimensions.width + col]@, blocks[there]@, 64) <= 128
}

/// The square of a block is the largest one, up to four by four, all of whose blocks are
/// there and close to it.
pub proof fn law_square_is_the_largest<T: Sample>(
    blocks: Seq<Block<T>>,
    dimensions: BlockDimensions,
    row: int,
    col: int,
)
    ensures
        ({
            let r = rings(blocks, dimensions, row, col);
            &&& 0 <= r <= 3
            &&& forall|down: int, right: int|
                0 <= down <= r && 0 <= right <= r && (down != 0 || right != 0)
                    ==> #[trigger] is_close_by(blocks, dimensions, row, col, down, right)
            &&& r < 3 ==> exists|down: int, right: int|
                0 <= down <= r + 1 && 0 <= right <= r + 1 && !#[trigger] is_close_by(
                    blocks,
                    dimensions,
                    row,
                    col,
                    down,
                    right,
                )
        }),
{
    let r = rings(blocks, dimensions, row, col);
    assert(square_len(0) == 1 && square_len(1) == 4 && square_len(2) == 9 && square_len(3) == 16);
    lemma_square_places();
    assert forall|down: int, right: int|
        0 <= down <= r && 0 <= right <= r && (down != 0
            || right != 0) implies #[trigger] is_close_by(
        blocks,
        dimensions,
        row,
        col,
        down,
        right,
    ) by {
        let ring = if down >= right {
            down
        } else {
            right
        };
        lemma_square_index(down, right, ring);
        let i = square_index(down, right);
        assert(ring_alike(blocks, dimensions, row, col, ring));
        assert(square_len(ring - 1) <= i) by {
            assert(ring == 1 || ring == 2 || ring == 3);
        }
        assert(SQUARE@[i].0 == down && SQUARE@[i].1 == right);
        assert(alike(
            blocks,
            dimensions,
            cell(dimensions, row, col),
            row + SQUARE@[i].0,
            col + SQUARE@[i].1,
        ));
    }
    if r < 3 {
        assert(!ring_alike(blocks, dimensions, row, col, r + 1));
        let i = choose|i: int|
            square_len(r) <= i < square_len(r + 1) && !alike(
                blocks,
                dimensions,
                cell(dimensions, row, col),
                row + (#[trigger] SQUARE@[i]).0,
                col + SQUARE@[i].1,
            );
        let down = SQUARE@[i].0 as int;
        let right = SQUARE@[i].1 as int;
        assert(square_len(r + 1) <= 16);
        assert(0 <= down <= r + 1 && 0 <= right <= r + 1);
        assert(!is_close_by(blocks, dimensions, row, col, down, right));
    }
}

/// The blocks of a square are counted ring by ring, each ring down its column and back along
/// its row.
pub proof fn law_square_goes_ring_by_ring(ring: int, j: int)
    requires
        0 <= ring <= 3,
        0 <= j <= 2 * ring,
    ensures
        ({
            let place = SQUARE@[ring * ring + j];
            &&& j <= ring ==> place.0 == j && place.1 == ring
            &&& j >= ring ==> place.0 == ring && place.1 == 2 * ring - j
        }),
{
    assert(ring == 0 || ring == 1 || ring == 2 || ring == 3);
    assert(0 * 0 == 0 && 1 * 1 == 1 && 2 * 2 == 4 && 3 * 3 == 9) by (nonlinear_arith);
    if ring == 1 {
        assert(j == 0 || j == 1 || j == 2);
    } else if ring == 2 {
        assert(j == 0 || j == 1 || j == 2 || j == 3 || j == 4);
    } else if ring == 3 {
        assert(j == 0 || j == 1 || j == 2 || j == 3 || j == 4 || j == 5 || j == 6);
    }
}

/// Every macroblock of a grid is the square of its first block, and that block is in no
/// macroblock before it.
pub proof fn law_squares_start_at_free_blocks<T: Sample>(
    blocks: Seq<Block<T>>,
    dimensions: BlockDimensions,
    n: int,
    before: int,
    j: int,
)
    requires
        is_grid(blocks.len(), dimensions),
        0 <= n <= blocks.len(),
        blocks.len() <= dimensions.width * dimensions.height,
        0 <= before <= j < locations(blocks, dimensions, n).len(),
    ensures
        ({
            let all = locations(blocks, dimensions, n);
            let row = all[j].start.row as int;
            let col = all[j].start.col as int;
            let side = rings(blocks, dimensions, row, col);
            &&& row * dimensions.width + col < n
            &&& all[j].end.row == row + side
            &&& all[j].end.col == col + side
            &&& before < j ==> !covers(all[before], row, col)
        }),
    decreases n,
{
    let so_far = locations(blocks, dimensions, n - 1);
    if j < so_far.len() {
        law_squares_start_at_free_blocks(blocks, dimensions, n - 1, before, j);
    } else {
        let width = dimensions.width as int;
        if width == 0 {
            assert(dimensions.width * dimensions.height == 0) by (nonlinear_arith)
                requires
                    dimensions.width == 0,
            ;
        }
        lemma_place_parts(n - 1, width);
        let row = (n - 1) / width;
        let col = (n - 1) % width;
        assert(row < dimensions.height) by (nonlinear_arith)
            requires
                n - 1 == row * dimensions.width + col,
                col >= 0,
                n - 1 < dimensions.width * dimensions.height,
                dimensions.width > 0,
        ;
        assert(!covered(so_far, row, col));
        law_square_is_the_largest(blocks, dimensions, row, col);
        if before < j {
            assert(so_far[before] == locations(blocks, dimensions, n)[before]);
            if covers(so_far[before], row, col) {
                assert(covered(so_far, row, col));
            }
        }
    }
}

/// Of the blocks of a macroblock as many are put back as fill the largest whole square, up to four
/// by four.
pub proof fn law_whole_squares_are_put_back(len: nat, side: int)
    requires
        0 <= side <= 4,
    ensures
        placed(len) <= len,
        side * side <= len ==> side * side <= placed(len),
        placed(len) == 0 || placed(len) == 1 || placed(len) == 4 || placed(len) == 9 || placed(
            len,
        ) == 16,
{
    assert(side == 0 || side == 1 || side == 2 || side == 3 || side == 4);
    assert(0 * 0 == 0 && 1 * 1 == 1 && 2 * 2 == 4 && 3 * 3 == 9 && 4 * 4 == 16)
        by (nonlinear_arith);
}

} // verus!
