//! Blocks that moved alike are put together.
use vstd::prelude::*;

use super::grid::covers;
use super::macroblock::block_location::BlockLocation;
use super::macroblock::bmacro::Prediction;
use crate::dimensions::BlockDimensions;
use crate::numeric::{lemma_place, lemma_place_bound, lemma_place_parts};
use crate::point::Point;

verus! {

/// The three neighbours to the right, below both and below.
pub const ONE_OUT: [(usize, usize); 3] = [(0, 1), (1, 1), (1, 0)];

/// Whether there is a vector at a place of the grid.
pub open spec fn has_vector(
    dimensions: BlockDimensions,
    mvs: Seq<Vec<(Prediction, i16)>>,
    row: int,
    col: int,
) -> bool {
    row < dimensions.height && col < dimensions.width && row < mvs.len() && col < mvs[row]@.len()
}

/// The last row and column that the first `n` neighbours reach, where all of
/// them that are there are predicted like the block.
pub open spec fn stretched(
    dimensions: BlockDimensions,
    mvs: Seq<Vec<(Prediction, i16)>>,
    row: int,
    col: int,
    pattern: Seq<(usize, usize)>,
    n: int,
) -> Option<(int, int)>
    decreases n,
{
    if n <= 0 {
        Some((row, col))
    } else {
        let to_row = row + pattern[n - 1].0;
        let to_col = col + pattern[n - 1].1;
        match stretched(dimensions, mvs, row, col, pattern, n - 1) {
            None => None,
            Some(reach) => if !has_vector(dimensions, mvs, to_row, to_col) {
                Some(reach)
            } else if mvs[to_row]@[to_col].0 != mvs[row]@[col].0 {
                None
            } else {
                Some(
                    (
                        if to_row > reach.0 {
                            to_row
                        } else {
                            reach.0
                        },
                        if to_col > reach.1 {
                            to_col
                        } else {
                            reach.1
                        },
                    ),
                )
            },
        }
    }
}

/// The area of blocks around a place that moved alike.
pub open spec fn area(
    dimensions: BlockDimensions,
    mvs: Seq<Vec<(Prediction, i16)>>,
    row: int,
    col: int,
    pattern: Seq<(usize, usize)>,
) -> BlockLocation {
    let end = match stretched(dimensions, mvs, row, col, pattern, pattern.len() as int) {
        Some(reach) => reach,
        None => (row, col),
    };
    BlockLocation {
        start: Point { row: row as usize, col: col as usize },
        end: Point { row: end.0 as usize, col: end.1 as usize },
    }
}

/// The reach lies in the grid.
proof fn lemma_stretched(
    dimensions: BlockDimensions,
    mvs: Seq<Vec<(Prediction, i16)>>,
    row: int,
    col: int,
    pattern: Seq<(usize, usize)>,
    n: int,
)
    requires
        0 <= n <= pattern.len(),
        0 <= row < mvs.len(),
        0 <= col < mvs[row]@.len(),
    ensures
        stretched(dimensions, mvs, row, col, pattern, n) matches Some(reach) ==> {
            &&& row <= reach.0 < mvs.len()
            &&& col <= reach.1
            &&& reach.1 == col || exists|r: int|
                0 <= r < mvs.len() && reach.1 < (#[trigger] mvs[r])@.len()
        },
    decreases n,
{
    if n > 0 {
        lemma_stretched(dimensions, mvs, row, col, pattern, n - 1);
        let to_row = row + pattern[n - 1].0;
        let to_col = col + pattern[n - 1].1;
        if has_vector(dimensions, mvs, to_row, to_col) {
            assert(to_col < mvs[to_row]@.len());
        }
    }
}

/// Puts a block and its neighbours together, where all neighbours of the
/// pattern that are there are predicted like the block.
pub fn try_compress_motion_vectors(
    dimensions: &BlockDimensions,
    mvs: &[Vec<(Prediction, i16)>],
    at: (usize, usize),
    pattern: &[(usize, usize)],
) -> (r: BlockLocation)
    requires
        at.0 < mvs@.len(),
        at.1 < mvs@[at.0 as int]@.len(),
    ensures
        r == area(*dimensions, mvs@, at.0 as int, at.1 as int, pattern@),
{
    let row: usize = at.0;
    let col: usize = at.1;
    let current = mvs[row][col].0;
    let mut max_row: usize = row;
    let mut max_col: usize = col;
    let mut i: usize = 0;
    while i < pattern.len()
        invariant
            i <= pattern@.len(),
            row < mvs@.len(),
            col < mvs@[row as int]@.len(),
            at == (row, col),
            current == mvs@[row as int]@[col as int].0,
            stretched(*dimensions, mvs@, row as int, col as int, pattern@, i as int) == Some(
                (max_row as int, max_col as int),
            ),
        decreases pattern@.len() - i,
    {
        let to_row: u128 = row as u128 + pattern[i].0 as u128;
        let to_col: u128 = col as u128 + pattern[i].1 as u128;
        if to_row < dimensions.height as u128 && to_col < dimensions.width as u128 && to_row
            < mvs.len() as u128 && to_col < mvs[to_row as usize].len() as u128 {
            let other = mvs[to_row as usize][to_col as usize].0;
            if other != current {
                proof {
                    lemma_mismatch(
                        *dimensions,
                        mvs@,
                        row as int,
                        col as int,
                        pattern@,
                        i + 1,
                        pattern@.len() as int,
                    );
                }
                return BlockLocation { start: Point { row, col }, end: Point { row, col } };
            }
            if to_row as usize > max_row {
                max_row = to_row as usize;
            }
            if to_col as usize > max_col {
                max_col = to_col as usize;
            }
        }
        i = i + 1;
    }
    BlockLocation { start: Point { row, col }, end: Point { row: max_row, col: max_col } }
}

/// One neighbour that moved otherwise settles the matter.
proof fn lemma_mismatch(
    dimensions: BlockDimensions,
    mvs: Seq<Vec<(Prediction, i16)>>,
    row: int,
    col: int,
    pattern: Seq<(usize, usize)>,
    n: int,
    m: int,
)
    requires
        0 <= n <= m,
        stretched(dimensions, mvs, row, col, pattern, n) is None,
    ensures
        stretched(dimensions, mvs, row, col, pattern, m) is None,
    decreases m,
{
    if n < m {
        lemma_mismatch(dimensions, mvs, row, col, pattern, n, m - 1);
    }
}

/// Which places of a grid are taken.
pub struct UsedTable {
    table: Vec<bool>,
    cols: usize,
    rows: Ghost<nat>,
}

impl UsedTable {
    /// The number of rows.
    pub closed spec fn spec_rows(&self) -> nat {
        self.rows@
    }

    /// The number of columns.
    pub closed spec fn spec_cols(&self) -> nat {
        self.cols as nat
    }

    /// There is an entry for every place.
    pub closed spec fn well_formed(&self) -> bool {
        self.table@.len() == self.rows@ * self.cols
    }

    /// Whether a place is taken.
    pub closed spec fn used(&self, row: int, col: int) -> bool {
        self.table@[row * self.cols + col]
    }

    /// A table with no place taken.
    pub fn new(rows: usize, cols: usize) -> (r: Self)
        requires
            rows * cols <= usize::MAX,
        ensures
            r.well_formed(),
            r.spec_rows() == rows,
            r.spec_cols() == cols,
            forall|row: int, col: int|
                0 <= row < rows && 0 <= col < cols ==> !#[trigger] r.used(row, col),
    {
        let r = UsedTable { table: vec![false; rows * cols], cols, rows: Ghost(rows as nat) };
        proof {
            assert forall|row: int, col: int|
                0 <= row < rows && 0 <= col < cols implies !#[trigger] r.used(row, col) by {
                lemma_place(row, col, cols as int);
                lemma_place_bound(row, col, cols as int, rows as int);
            }
        }
        r
    }

    /// Whether a place is taken.
    pub fn is_used(&self, row: usize, col: usize) -> (r: bool)
        requires
            self.well_formed(),
            row < self.spec_rows(),
            col < self.spec_cols(),
        ensures
            r == self.used(row as int, col as int),
    {
        proof {
            lemma_place(row as int, col as int, self.cols as int);
            lemma_place_bound(row as int, col as int, self.cols as int, self.rows@ as int);
            vstd::std_specs::vec::axiom_spec_len(&self.table);
        }
        self.table[row * self.cols + col]
    }

    /// Takes a place.
    pub fn mark_used(&mut self, row: usize, col: usize)
        requires
            old(self).well_formed(),
            row < old(self).spec_rows(),
            col < old(self).spec_cols(),
        ensures
            final(self).well_formed(),
            final(self).spec_rows() == old(self).spec_rows(),
            final(self).spec_cols() == old(self).spec_cols(),
            forall|a: int, b: int|
                0 <= a < old(self).spec_rows() && 0 <= b < old(self).spec_cols()
                    ==> #[trigger] final(self).used(a, b) == (old(self).used(a, b) || (a == row && b
                    == col)),
    {
        proof {
            lemma_place(row as int, col as int, self.cols as int);
            lemma_place_bound(row as int, col as int, self.cols as int, self.rows@ as int);
            vstd::std_specs::vec::axiom_spec_len(&self.table);
        }
        let ghost before = *self;
        let at: usize = row * self.cols + col;
        self.table.set(at, true);
        proof {
            assert forall|a: int, b: int|
                0 <= a < before.rows@ && 0 <= b < before.cols implies #[trigger] self.used(a, b)
                == (before.used(a, b) || (a == row && b == col)) by {
                lemma_place(a, b, self.cols as int);
                lemma_place_bound(a, b, self.cols as int, self.rows@ as int);
            }
        }
    }

    /// Takes every place of an area.
    pub fn mark_area_used(
        &mut self,
        start_row: usize,
        start_col: usize,
        end_row: usize,
        end_col: usize,
    )
        requires
            old(self).well_formed(),
            end_row < old(self).spec_rows(),
            end_col < old(self).spec_cols(),
        ensures
            final(self).well_formed(),
            final(self).spec_rows() == old(self).spec_rows(),
            final(self).spec_cols() == old(self).spec_cols(),
            forall|a: int, b: int|
                0 <= a < old(self).spec_rows() && 0 <= b < old(self).spec_cols()
                    ==> #[trigger] final(self).used(a, b) == (old(self).used(a, b) || (start_row
                    <= a <= end_row && start_col <= b <= end_col)),
    {
        let ghost before = *self;
        let mut row: u128 = start_row as u128;
        while row <= end_row as u128
            invariant
                start_row <= row,
                row <= end_row + 1 || row == start_row,
                self.well_formed(),
                self.spec_rows() == before.spec_rows(),
                self.spec_cols() == before.spec_cols(),
                end_row < before.spec_rows(),
                end_col < before.spec_cols(),
                forall|a: int, b: int|
                    0 <= a < before.spec_rows() && 0 <= b < before.spec_cols()
                        ==> #[trigger] self.used(a, b) == (before.used(a, b) || (start_row <= a
                        < row && start_col <= b <= end_col)),
            decreases end_row + 1 - row,
        {
            let ghost above = *self;
            let mut col: u128 = start_col as u128;
            while col <= end_col as u128
                invariant
                    start_col <= col,
                    col <= end_col + 1 || col == start_col,
                    start_row <= row <= end_row,
                    self.well_formed(),
                    self.spec_rows() == above.spec_rows(),
                    self.spec_cols() == above.spec_cols(),
                    end_row < above.spec_rows(),
                    end_col < above.spec_cols(),
                    forall|a: int, b: int|
                        0 <= a < above.spec_rows() && 0 <= b < above.spec_cols()
                            ==> #[trigger] self.used(a, b) == (above.used(a, b) || (a == row
                            && start_col <= b < col)),
                decreases end_col + 1 - col,
            {
                self.mark_used(row as usize, col as usize);
                col = col + 1;
            }
            row = row + 1;
        }
    }
}

/// One of the areas holds a place.
pub open spec fn marked(
    areas: Seq<((Prediction, i16), BlockLocation)>,
    row: int,
    col: int,
) -> bool {
    exists|j: int| 0 <= j < areas.len() && covers((#[trigger] areas[j]).1, row, col)
}

/// The areas that the first `n` places of the grid make up, row by row: every
/// place that no area holds yet starts one.
pub open spec fn compressed(
    dimensions: BlockDimensions,
    mvs: Seq<Vec<(Prediction, i16)>>,
    n: int,
) -> Seq<((Prediction, i16), BlockLocation)>
    decreases n,
{
    if n <= 0 {
        Seq::empty()
    } else {
        let so_far = compressed(dimensions, mvs, n - 1);
        let cols = mvs[0]@.len() as int;
        let row = (n - 1) / cols;
        let col = (n - 1) % cols;
        if marked(so_far, row, col) {
            so_far
        } else {
            so_far.push((mvs[row]@[col], area(dimensions, mvs, row, col, ONE_OUT@)))
        }
    }
}

/// A grid of vectors: rows of the same length.
pub open spec fn is_vector_grid(mvs: Seq<Vec<(Prediction, i16)>>) -> bool {
    &&& mvs.len() > 0
    &&& forall|r: int| 0 <= r < mvs.len() ==> (#[trigger] mvs[r])@.len() == mvs[0]@.len()
    &&& mvs.len() * mvs[0]@.len() <= usize::MAX
}

/// The number of places of a grid of vectors.
pub open spec fn places(mvs: Seq<Vec<(Prediction, i16)>>) -> int {
    (mvs.len() * mvs[0]@.len()) as int
}

/// An area lies in the grid.
proof fn lemma_area_inside(
    dimensions: BlockDimensions,
    mvs: Seq<Vec<(Prediction, i16)>>,
    row: int,
    col: int,
)
    requires
        is_vector_grid(mvs),
        0 <= row < mvs.len() <= usize::MAX,
        0 <= col < mvs[0]@.len() <= usize::MAX,
    ensures
        ({
            let found = area(dimensions, mvs, row, col, ONE_OUT@);
            &&& found.start.row == row <= found.end.row < mvs.len()
            &&& found.start.col == col <= found.end.col < mvs[0]@.len()
        }),
{
    assert(mvs[row]@.len() == mvs[0]@.len());
    lemma_stretched(dimensions, mvs, row, col, ONE_OUT@, 3);
}

/// Puts the blocks of a grid together that moved alike.
pub fn compressed_motion_vectors(
    mvs: &[Vec<(Prediction, i16)>],
    dimensions: &BlockDimensions,
) -> (r: Vec<((Prediction, i16), BlockLocation)>)
    requires
        is_vector_grid(mvs@),
    ensures
        r@ == compressed(*dimensions, mvs@, places(mvs@)),
{
    let mut areas: Vec<((Prediction, i16), BlockLocation)> = Vec::new();
    let rows: usize = mvs.len();
    let cols: usize = mvs[0].len();
    let mut used = UsedTable::new(rows, cols);
    let total: usize = rows * cols;
    let mut t: usize = 0;
    while t < total
        invariant
            t <= total,
            total == rows * cols,
            rows == mvs@.len(),
            cols == mvs@[0]@.len(),
            is_vector_grid(mvs@),
            used.well_formed(),
            used.spec_rows() == rows,
            used.spec_cols() == cols,
            areas@ == compressed(*dimensions, mvs@, t as int),
            forall|a: int, b: int|
                0 <= a < rows && 0 <= b < cols ==> #[trigger] used.used(a, b) == marked(
                    areas@,
                    a,
                    b,
                ),
        decreases total - t,
    {
        proof {
            lemma_row_col(t as int, rows as int, cols as int);
        }
        let row: usize = t / cols;
        let col: usize = t % cols;
        if !used.is_used(row, col) {
            assert(mvs@[row as int]@.len() == cols);
            let location = try_compress_motion_vectors(
                dimensions,
                mvs,
                (row, col),
                ONE_OUT.as_slice(),
            );
            proof {
                lemma_area_inside(*dimensions, mvs@, row as int, col as int);
            }
            let ghost before = areas@;
            areas.push((mvs[row][col], location));
            used.mark_area_used(
                location.start.row,
                location.start.col,
                location.end.row,
                location.end.col,
            );
            proof {
                assert forall|a: int, b: int|
                    0 <= a < rows && 0 <= b < cols implies #[trigger] used.used(a, b) == marked(
                    areas@,
                    a,
                    b,
                ) by {
                    if marked(before, a, b) {
                        let j = choose|j: int|
                            0 <= j < before.len() && covers((#[trigger] before[j]).1, a, b);
                        assert(covers(areas@[j].1, a, b));
                    }
                    if covers(location, a, b) {
                        assert(covers(areas@[before.len() as int].1, a, b));
                    }
                    if marked(areas@, a, b) && !covers(location, a, b) {
                        let j = choose|j: int|
                            0 <= j < areas@.len() && covers((#[trigger] areas@[j]).1, a, b);
                        assert(covers(before[j].1, a, b));
                    }
                }
            }
        }
        t = t + 1;
    }
    areas
}

/// The row and the column of a place.
proof fn lemma_row_col(t: int, rows: int, cols: int)
    requires
        0 <= t < rows * cols,
        0 <= rows,
        0 <= cols,
    ensures
        0 <= t / cols < rows,
        0 <= t % cols < cols,
        t == (t / cols) * cols + t % cols,
{
    if cols == 0 {
        assert(rows * cols == 0) by (nonlinear_arith)
            requires
                cols == 0,
        ;
    }
    lemma_place_parts(t, cols);
    let row = t / cols;
    let col = t % cols;
    assert(row < rows) by (nonlinear_arith)
        requires
            t == row * cols + col,
            col >= 0,
            t < rows * cols,
            cols > 0,
    ;
}

/// An area starts at the place whose vector it has, lies in the grid, and has
/// at most two rows and two columns.
pub proof fn lemma_areas_inside(
    dimensions: BlockDimensions,
    mvs: Seq<Vec<(Prediction, i16)>>,
    j: int,
    n: int,
)
    requires
        is_vector_grid(mvs),
        mvs.len() <= usize::MAX,
        mvs[0]@.len() <= usize::MAX,
        0 <= n <= places(mvs),
        0 <= j < compressed(dimensions, mvs, n).len(),
    ensures
        ({
            let found = compressed(dimensions, mvs, n)[j];
            let location = found.1;
            &&& location.start.row <= location.end.row <= location.start.row + 1
            &&& location.start.col <= location.end.col <= location.start.col + 1
            &&& location.end.row < mvs.len()
            &&& location.end.col < mvs[0]@.len()
            &&& found.0 == mvs[location.start.row as int]@[location.start.col as int]
        }),
    decreases n,
{
    let so_far = compressed(dimensions, mvs, n - 1);
    if j < so_far.len() {
        lemma_areas_inside(dimensions, mvs, j, n - 1);
    } else {
        let cols = mvs[0]@.len() as int;
        lemma_row_col(n - 1, mvs.len() as int, cols);
        let row = (n - 1) / cols;
        let col = (n - 1) % cols;
        lemma_area_inside(dimensions, mvs, row, col);
        reveal_with_fuel(stretched, 4);
        assert(ONE_OUT@[0] == (0usize, 1usize));
        assert(ONE_OUT@[1] == (1usize, 1usize));
        assert(ONE_OUT@[2] == (1usize, 0usize));
        assert(ONE_OUT@.len() == 3);
    }
}

/// Every block of the grid is in one of the areas.
pub proof fn law_every_block_is_in_an_area(
    dimensions: BlockDimensions,
    mvs: Seq<Vec<(Prediction, i16)>>,
    row: int,
    col: int,
)
    requires
        is_vector_grid(mvs),
        mvs.len() <= usize::MAX,
        mvs[0]@.len() <= usize::MAX,
        0 <= row < mvs.len(),
        0 <= col < mvs[0]@.len(),
    ensures
        marked(compressed(dimensions, mvs, places(mvs)), row, col),
{
    lemma_place(row, col, mvs[0]@.len() as int);
    lemma_place_bound(row, col, mvs[0]@.len() as int, mvs.len() as int);
    lemma_marked(dimensions, mvs, row, col, places(mvs));
}

/// The first `n` places are in the areas that they make up.
proof fn lemma_marked(
    dimensions: BlockDimensions,
    mvs: Seq<Vec<(Prediction, i16)>>,
    row: int,
    col: int,
    n: int,
)
    requires
        is_vector_grid(mvs),
        mvs.len() <= usize::MAX,
        mvs[0]@.len() <= usize::MAX,
        0 <= row < mvs.len(),
        0 <= col < mvs[0]@.len(),
        row * mvs[0]@.len() + col < n <= places(mvs),
    ensures
        marked(compressed(dimensions, mvs, n), row, col),
    decreases n,
{
    let cols = mvs[0]@.len() as int;
    lemma_place(row, col, cols);
    let so_far = compressed(dimensions, mvs, n - 1);
    let next = compressed(dimensions, mvs, n);
    if row * cols + col == n - 1 {
        if !marked(so_far, row, col) {
            lemma_area_inside(dimensions, mvs, row, col);
            assert(covers(next[so_far.len() as int].1, row, col));
        }
    } else {
        lemma_marked(dimensions, mvs, row, col, n - 1);
        let j = choose|j: int| 0 <= j < so_far.len() && covers((#[trigger] so_far[j]).1, row, col);
        assert(covers(next[j].1, row, col));
    }
}

/// Every block of an area is predicted as the area says.
pub proof fn law_areas_move_as_one(
    dimensions: BlockDimensions,
    mvs: Seq<Vec<(Prediction, i16)>>,
    j: int,
    row: int,
    col: int,
)
    requires
        is_vector_grid(mvs),
        mvs.len() <= usize::MAX,
        mvs[0]@.len() <= usize::MAX,
        0 <= j < compressed(dimensions, mvs, places(mvs)).len(),
        covers(compressed(dimensions, mvs, places(mvs))[j].1, row, col),
    ensures
        0 <= row < mvs.len(),
        0 <= col < mvs[0]@.len(),
        mvs[row]@[col].0 == (compressed(dimensions, mvs, places(mvs))[j].0).0,
{
    lemma_areas_agree(dimensions, mvs, j, row, col, places(mvs));
}

/// The areas of the first `n` places lie in the grid, and their blocks are
/// predicted alike.
pub(crate) proof fn lemma_areas_agree(
    dimensions: BlockDimensions,
    mvs: Seq<Vec<(Prediction, i16)>>,
    j: int,
    row: int,
    col: int,
    n: int,
)
    requires
        is_vector_grid(mvs),
        mvs.len() <= usize::MAX,
        mvs[0]@.len() <= usize::MAX,
        0 <= n <= places(mvs),
        0 <= j < compressed(dimensions, mvs, n).len(),
        covers(compressed(dimensions, mvs, n)[j].1, row, col),
    ensures
        0 <= row < mvs.len(),
        0 <= col < mvs[0]@.len(),
        mvs[row]@[col].0 == (compressed(dimensions, mvs, n)[j].0).0,
    decreases n,
{
    let so_far = compressed(dimensions, mvs, n - 1);
    if j < so_far.len() {
        lemma_areas_agree(dimensions, mvs, j, row, col, n - 1);
    } else {
        let cols = mvs[0]@.len() as int;
        lemma_row_col(n - 1, mvs.len() as int, cols);
        let from_row = (n - 1) / cols;
        let from_col = (n - 1) % cols;
        lemma_area_inside(dimensions, mvs, from_row, from_col);
        assert(mvs[from_row]@.len() == cols);
        if from_row + 1 < mvs.len() {
            assert(mvs[from_row + 1]@.len() == cols);
        }
        reveal_with_fuel(stretched, 4);
        assert(ONE_OUT@[0] == (0usize, 1usize));
        assert(ONE_OUT@[1] == (1usize, 1usize));
        assert(ONE_OUT@[2] == (1usize, 0usize));
        assert(ONE_OUT@.len() == 3);
    }
}

/// The area of a place takes in the places to the right, below and below both, as far as
/// the grid goes, where all of them are predicted alike. Where one of them is not, the
/// place stands alone.
pub proof fn law_area_takes_in_its_neighbours(
    dimensions: BlockDimensions,
    mvs: Seq<Vec<(Prediction, i16)>>,
    row: int,
    col: int,
)
    requires
        dimensions.height <= mvs.len(),
        forall|r: int| 0 <= r < mvs.len() ==> dimensions.width <= (#[trigger] mvs[r])@.len(),
        0 <= row < dimensions.height,
        0 <= col < dimensions.width,
    ensures
        ({
            let right = col + 1 < dimensions.width;
            let below = row + 1 < dimensions.height;
            let here = mvs[row]@[col].0;
            let r = area(dimensions, mvs, row, col, ONE_OUT@);
            &&& r.start.row == row && r.start.col == col
            &&& (right ==> mvs[row]@[col + 1].0 == here) && (below ==> mvs[row + 1]@[col].0
                == here) && (right && below ==> mvs[row + 1]@[col + 1].0 == here)
                ==> r.end.row == (if below {
                row + 1
            } else {
                row
            }) && r.end.col == (if right {
                col + 1
            } else {
                col
            })
            &&& (right && mvs[row]@[col + 1].0 != here) || (below && mvs[row + 1]@[col].0
                != here) || (right && below && mvs[row + 1]@[col + 1].0 != here) ==> r.end
                == r.start
        }),
{
    assert(dimensions.width <= mvs[row]@.len());
    if row + 1 < mvs.len() {
        assert(dimensions.width <= mvs[row + 1]@.len());
    }
    reveal_with_fuel(stretched, 4);
    assert(ONE_OUT@[0] == (0usize, 1usize));
    assert(ONE_OUT@[1] == (1usize, 1usize));
    assert(ONE_OUT@[2] == (1usize, 0usize));
    assert(ONE_OUT@.len() == 3);
}

/// Every area is the one of its first place, and that place is in no area before it.
pub proof fn law_areas_start_at_free_places(
    dimensions: BlockDimensions,
    mvs: Seq<Vec<(Prediction, i16)>>,
    j: int,
    before: int,
)
    requires
        is_vector_grid(mvs),
        mvs.len() <= usize::MAX,
        mvs[0]@.len() <= usize::MAX,
        0 <= before <= j < compressed(dimensions, mvs, places(mvs)).len(),
    ensures
        ({
            let areas = compressed(dimensions, mvs, places(mvs));
            let row = areas[j].1.start.row as int;
            let col = areas[j].1.start.col as int;
            &&& 0 <= row < mvs.len()
            &&& 0 <= col < mvs[row]@.len()
            &&& areas[j].0 == mvs[row]@[col]
            &&& areas[j].1 == area(dimensions, mvs, row, col, ONE_OUT@)
            &&& before < j ==> !covers(areas[before].1, row, col)
        }),
{
    lemma_areas_start(dimensions, mvs, j, before, places(mvs));
}

proof fn lemma_areas_start(
    dimensions: BlockDimensions,
    mvs: Seq<Vec<(Prediction, i16)>>,
    j: int,
    before: int,
    n: int,
)
    requires
        is_vector_grid(mvs),
        mvs.len() <= usize::MAX,
        mvs[0]@.len() <= usize::MAX,
        0 <= n <= places(mvs),
        0 <= before <= j < compressed(dimensions, mvs, n).len(),
    ensures
        ({
            let areas = compressed(dimensions, mvs, n);
            let row = areas[j].1.start.row as int;
            let col = areas[j].1.start.col as int;
            &&& 0 <= row < mvs.len()
            &&& 0 <= col < mvs[row]@.len()
            &&& areas[j].0 == mvs[row]@[col]
            &&& areas[j].1 == area(dimensions, mvs, row, col, ONE_OUT@)
            &&& before < j ==> !covers(areas[before].1, row, col)
        }),
    decreases n,
{
    let so_far = compressed(dimensions, mvs, n - 1);
    if j < so_far.len() {
        lemma_areas_start(dimensions, mvs, j, before, n - 1);
    } else {
        let cols = mvs[0]@.len() as int;
        lemma_row_col(n - 1, mvs.len() as int, cols);
        let row = (n - 1) / cols;
        let col = (n - 1) % cols;
        assert(mvs[row]@.len() == cols);
        assert(!marked(so_far, row, col));
        if before < j {
            assert(so_far[before] == compressed(dimensions, mvs, n)[before]);
            if covers(so_far[before].1, row, col) {
                assert(marked(so_far, row, col));
            }
        }
    }
}

} // verus!
