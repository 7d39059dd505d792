//! What the prediction of an area missed.
use vstd::prelude::*;

use super::macroblock::block_location::{to_chroma_col, to_chroma_row, BlockLocation};
use super::macroblock::Residuals;
use super::prediction::{
    area_cols, area_count, chroma_place, cols, count, covers, covers_some, difference,
    difference_block, has_chroma_place, holds, is_area, lemma_chroma_covers, lemma_place_at,
    lemma_place_number, place_at, zero_block, Plane,
};
use crate::block::{block_views, Block, Blocks};
use crate::color::Subsampling;
use crate::dimensions::BlockDimensions;
use crate::lossy::{Picture, SubSampleBlockGroupRef};
use crate::point::Point;

verus! {

/// What prediction `k` missed of the block at an index. Where one of the two is
/// not there, nothing.
pub open spec fn missed(
    blocks: Seq<Block<i16>>,
    at: int,
    predicted: Seq<Seq<i16>>,
    k: int,
) -> Seq<i16> {
    if at < blocks.len() && k < predicted.len() {
        difference(blocks[at]@, predicted[k])
    } else {
        zero_block()
    }
}

/// What the predictions missed at a list of places.
pub open spec fn missed_at(
    places: Seq<Point>,
    width: int,
    blocks: Seq<Block<i16>>,
    predicted: Seq<Seq<i16>>,
) -> Seq<Seq<i16>> {
    Seq::new(
        places.len(),
        |i: int| missed(blocks, places[i].row * width + places[i].col, predicted, i),
    )
}

/// The chroma places of the first `n` places of a location that lie in the
/// grid, each one once.
pub open spec fn chroma_places(
    location: BlockLocation,
    subsampling: Subsampling,
    dimensions: BlockDimensions,
    n: int,
) -> Seq<Point>
    decreases n,
{
    if n <= 0 {
        Seq::empty()
    } else {
        let so_far = chroma_places(location, subsampling, dimensions, n - 1);
        let place = chroma_place(location, subsampling, n - 1);
        if place.row >= dimensions.height || place.col >= dimensions.width || has_chroma_place(
            location,
            subsampling,
            n - 1,
            place,
        ) {
            so_far
        } else {
            so_far.push(place)
        }
    }
}

/// The list holds what one of the first `n` places has, as far as it lies in
/// the grid.
pub proof fn lemma_chroma_places(
    location: BlockLocation,
    subsampling: Subsampling,
    dimensions: BlockDimensions,
    n: int,
    place: Point,
)
    requires
        place.row < dimensions.height,
        place.col < dimensions.width,
    ensures
        chroma_places(location, subsampling, dimensions, n).contains(place) == has_chroma_place(
            location,
            subsampling,
            n,
            place,
        ),
    decreases n,
{
    if n > 0 {
        lemma_chroma_places(location, subsampling, dimensions, n - 1, place);
        let so_far = chroma_places(location, subsampling, dimensions, n - 1);
        let next = chroma_places(location, subsampling, dimensions, n);
        let last = chroma_place(location, subsampling, n - 1);
        if has_chroma_place(location, subsampling, n - 1, place) {
            let m = choose|m: int|
                0 <= m < n - 1 && #[trigger] chroma_place(location, subsampling, m) == place;
            assert(chroma_place(location, subsampling, m) == place);
            let i = choose|i: int| 0 <= i < so_far.len() && so_far[i] == place;
            assert(next[i] == place);
        } else if last == place {
            assert(next == so_far.push(place));
            assert(next[so_far.len() as int] == place);
        } else {
            if next.contains(place) {
                let i = choose|i: int| 0 <= i < next.len() && next[i] == place;
                assert(so_far[i] == place);
            }
            if has_chroma_place(location, subsampling, n, place) {
                let m = choose|m: int|
                    0 <= m < n && #[trigger] chroma_place(location, subsampling, m) == place;
                assert(m < n - 1);
            }
        }
    }
}

/// Lists the places of an area.
fn list_places(location: &BlockLocation) -> (r: Vec<Point>)
    requires
        is_area(*location),
    ensures
        r@ == super::prediction::all_places(*location),
{
    let wide: usize = area_cols(location);
    let total: usize = area_count(location);
    let mut r: Vec<Point> = Vec::new();
    let mut k: usize = 0;
    while k < total
        invariant
            k <= total,
            total == count(*location),
            wide == cols(*location),
            r@.len() == k,
            forall|j: int| 0 <= j < k ==> #[trigger] r@[j] == place_at(*location, j),
        decreases total - k,
    {
        proof {
            lemma_place_at(*location, k as int);
        }
        r.push(Point { row: location.start.row + k / wide, col: location.start.col + k % wide });
        k = k + 1;
    }
    assert(r@ =~= super::prediction::all_places(*location));
    r
}

/// Lists the chroma places of an area, each one once.
fn list_chroma_places(
    location: &BlockLocation,
    subsampling: Subsampling,
    dimensions: BlockDimensions,
) -> (r: Vec<Point>)
    requires
        is_area(*location),
    ensures
        r@ == chroma_places(*location, subsampling, dimensions, count(*location)),
{
    let wide: usize = area_cols(location);
    let total: usize = area_count(location);
    let mut r: Vec<Point> = Vec::new();
    let mut k: usize = 0;
    while k < total
        invariant
            k <= total,
            total == count(*location),
            wide == cols(*location),
            r@ == chroma_places(*location, subsampling, dimensions, k as int),
        decreases total - k,
    {
        proof {
            lemma_place_at(*location, k as int);
        }
        let place = Point {
            row: to_chroma_row(location.start.row + k / wide, subsampling),
            col: to_chroma_col(location.start.col + k % wide, subsampling),
        };
        assert(place == chroma_place(*location, subsampling, k as int));
        if place.row < dimensions.height && place.col < dimensions.width {
            proof {
                lemma_chroma_places(*location, subsampling, dimensions, k as int, place);
            }
            if !holds(&r, place) {
                r.push(place);
            }
        }
        k = k + 1;
    }
    r
}

/// What the predictions missed at a list of places.
fn collect_missed(
    places: &Vec<Point>,
    width: usize,
    blocks: &[Block<i16>],
    predicted: &[Block<i16>],
) -> (r: Vec<Block<i16>>)
    ensures
        block_views(r@) == missed_at(places@, width as int, blocks@, block_views(predicted@)),
{
    let ghost all = missed_at(places@, width as int, blocks@, block_views(predicted@));
    let mut r: Vec<Block<i16>> = Vec::new();
    let mut i: usize = 0;
    while i < places.len()
        invariant
            i <= places@.len(),
            all == missed_at(places@, width as int, blocks@, block_views(predicted@)),
            r@.len() == i,
            forall|j: int| 0 <= j < i ==> (#[trigger] r@[j])@ == all[j],
        decreases places@.len() - i,
    {
        let row: usize = places[i].row;
        let col: usize = places[i].col;
        proof {
            assert(0 <= row * width <= u64::MAX * u64::MAX) by (nonlinear_arith)
                requires
                    0 <= row <= u64::MAX,
                    0 <= width <= u64::MAX,
            ;
        }
        let at: u128 = row as u128 * width as u128 + col as u128;
        if at < blocks.len() as u128 && i < predicted.len() {
            r.push(difference_block(&blocks[at as usize], &predicted[i]));
        } else {
            let zero = Block([0i16; 64]);
            assert(zero@ =~= zero_block());
            r.push(zero);
        }
        i = i + 1;
    }
    assert(block_views(r@) =~= all);
    r
}

/// What the predictions of an area missed, in the three channels.
pub fn spatial_residuals(
    location: &BlockLocation,
    current: &SubSampleBlockGroupRef<'_, i16>,
    predicted_y: &[Block<i16>],
    predicted_cb: &[Block<i16>],
    predicted_cr: &[Block<i16>],
) -> (r: (Vec<Block<i16>>, Vec<Block<i16>>, Vec<Block<i16>>))
    requires
        is_area(*location),
    ensures
        is_missed(
            *location,
            current@,
            block_views(predicted_y@),
            block_views(predicted_cb@),
            block_views(predicted_cr@),
            block_views(r.0@),
            block_views(r.1@),
            block_views(r.2@),
        ),
{
    let chroma_dims = current.dimensions.subsample(current.subsampling);
    let places = list_places(location);
    let chroma = list_chroma_places(location, current.subsampling, chroma_dims);
    (
        collect_missed(&places, current.dimensions.width, current.y, predicted_y),
        collect_missed(&chroma, chroma_dims.width, current.cb, predicted_cb),
        collect_missed(&chroma, chroma_dims.width, current.cr, predicted_cr),
    )
}

/// The three lists are what the predictions of an area missed.
pub open spec fn is_missed(
    location: BlockLocation,
    current: Picture<i16>,
    predicted_y: Seq<Seq<i16>>,
    predicted_cb: Seq<Seq<i16>>,
    predicted_cr: Seq<Seq<i16>>,
    y: Seq<Seq<i16>>,
    cb: Seq<Seq<i16>>,
    cr: Seq<Seq<i16>>,
) -> bool {
    let chroma_dims = current.dimensions.subsampled(current.subsampling);
    let chroma = chroma_places(location, current.subsampling, chroma_dims, count(location));
    &&& y == missed_at(
        super::prediction::all_places(location),
        current.dimensions.width as int,
        current.y,
        predicted_y,
    )
    &&& cb == missed_at(chroma, chroma_dims.width as int, current.cb, predicted_cb)
    &&& cr == missed_at(chroma, chroma_dims.width as int, current.cr, predicted_cr)
}

/// A list of blocks went through the transform block by block.
pub open spec fn is_coded<F: Fn(Plane, &Block<i16>) -> Block<i16>>(
    code: F,
    plane: Plane,
    blocks: Seq<Block<i16>>,
    coded: Seq<Block<i16>>,
) -> bool {
    &&& coded.len() == blocks.len()
    &&& forall|i: int|
        0 <= i < blocks.len() ==> call_ensures(code, (plane, &blocks[i]), #[trigger] coded[i])
}

/// Takes blocks through the transform.
fn code_blocks<F: Fn(Plane, &Block<i16>) -> Block<i16>>(
    code: &F,
    plane: Plane,
    blocks: &Vec<Block<i16>>,
) -> (r: Vec<Block<i16>>)
    requires
        forall|b: Block<i16>| #[trigger] call_requires(*code, (plane, &b)),
    ensures
        is_coded(*code, plane, blocks@, r@),
{
    let mut r: Vec<Block<i16>> = Vec::new();
    let mut i: usize = 0;
    while i < blocks.len()
        invariant
            i <= blocks@.len(),
            r@.len() == i,
            forall|b: Block<i16>| #[trigger] call_requires(*code, (plane, &b)),
            forall|j: int|
                0 <= j < i ==> call_ensures(*code, (plane, &blocks@[j]), #[trigger] r@[j]),
        decreases blocks@.len() - i,
    {
        let coded = (*code)(plane, &blocks[i]);
        r.push(coded);
        i = i + 1;
    }
    r
}

/// The residuals of an area are what the predictions missed, taken through the
/// transform.
pub open spec fn is_residual<F: Fn(Plane, &Block<i16>) -> Block<i16>>(
    code: F,
    location: BlockLocation,
    current: Picture<i16>,
    predicted_y: Seq<Seq<i16>>,
    predicted_cb: Seq<Seq<i16>>,
    predicted_cr: Seq<Seq<i16>>,
    r: Residuals<i16>,
) -> bool {
    exists|y: Seq<Block<i16>>, cb: Seq<Block<i16>>, cr: Seq<Block<i16>>|
        {
            &&& #[trigger] is_coded(code, Plane::Luma, y, r.y@)
            &&& #[trigger] is_coded(code, Plane::Chroma, cb, r.cb@)
            &&& #[trigger] is_coded(code, Plane::Chroma, cr, r.cr@)
            &&& is_missed(
                location,
                current,
                predicted_y,
                predicted_cb,
                predicted_cr,
                block_views(y),
                block_views(cb),
                block_views(cr),
            )
        }
}

/// The three lists of blocks that went through the transform.
pub proof fn lemma_residual<F: Fn(Plane, &Block<i16>) -> Block<i16>>(
    code: F,
    location: BlockLocation,
    current: Picture<i16>,
    predicted_y: Seq<Seq<i16>>,
    predicted_cb: Seq<Seq<i16>>,
    predicted_cr: Seq<Seq<i16>>,
    r: Residuals<i16>,
) -> (spatial: (Seq<Block<i16>>, Seq<Block<i16>>, Seq<Block<i16>>))
    requires
        is_residual(code, location, current, predicted_y, predicted_cb, predicted_cr, r),
    ensures
        is_coded(code, Plane::Luma, spatial.0, r.y@),
        is_coded(code, Plane::Chroma, spatial.1, r.cb@),
        is_coded(code, Plane::Chroma, spatial.2, r.cr@),
        is_missed(
            location,
            current,
            predicted_y,
            predicted_cb,
            predicted_cr,
            block_views(spatial.0),
            block_views(spatial.1),
            block_views(spatial.2),
        ),
{
    choose|y: Seq<Block<i16>>, cb: Seq<Block<i16>>, cr: Seq<Block<i16>>|
        {
            &&& #[trigger] is_coded(code, Plane::Luma, y, r.y@)
            &&& #[trigger] is_coded(code, Plane::Chroma, cb, r.cb@)
            &&& #[trigger] is_coded(code, Plane::Chroma, cr, r.cr@)
            &&& is_missed(
                location,
                current,
                predicted_y,
                predicted_cb,
                predicted_cr,
                block_views(y),
                block_views(cb),
                block_views(cr),
            )
        }
}

/// Takes what the predictions of an area missed through the transform.
pub fn calculate_residuals_for_macroblock<F: Fn(Plane, &Block<i16>) -> Block<i16>>(
    location: &BlockLocation,
    current: &SubSampleBlockGroupRef<'_, i16>,
    predicted_y: &[Block<i16>],
    predicted_cb: &[Block<i16>],
    predicted_cr: &[Block<i16>],
    code: &F,
) -> (r: Residuals<i16>)
    requires
        is_area(*location),
        forall|plane: Plane, b: Block<i16>| #[trigger] call_requires(*code, (plane, &b)),
    ensures
        is_residual(
            *code,
            *location,
            current@,
            block_views(predicted_y@),
            block_views(predicted_cb@),
            block_views(predicted_cr@),
            r,
        ),
{
    let (y, cb, cr) = spatial_residuals(location, current, predicted_y, predicted_cb, predicted_cr);
    let r = Residuals {
        y: Blocks::new(code_blocks(code, Plane::Luma, &y)),
        cb: Blocks::new(code_blocks(code, Plane::Chroma, &cb)),
        cr: Blocks::new(code_blocks(code, Plane::Chroma, &cr)),
    };
    assert(is_coded(*code, Plane::Luma, y@, r.y@));
    assert(is_coded(*code, Plane::Chroma, cb@, r.cb@));
    assert(is_coded(*code, Plane::Chroma, cr@, r.cr@));
    r
}

/// What was missed at a place fills the gap between the prediction for it and the block there:
/// together they are that block, wherever the gap fits in a sample. Where there is no block or
/// no prediction, nothing was missed.
pub proof fn law_missed_fills_the_gap(
    places: Seq<Point>,
    width: int,
    blocks: Seq<Block<i16>>,
    predicted: Seq<Seq<i16>>,
    i: int,
    j: int,
)
    requires
        0 <= width,
        0 <= i < places.len(),
        0 <= j < 64,
    ensures
        ({
            let at = places[i].row * width + places[i].col;
            let r = missed_at(places, width, blocks, predicted);
            &&& r.len() == places.len()
            &&& at < blocks.len() && i < predicted.len() ==> {
                let gap = blocks[at]@[j] - predicted[i][j];
                &&& -32768 <= gap <= 32767 ==> predicted[i][j] + r[i][j] == blocks[at]@[j]
                &&& gap > 32767 ==> r[i][j] == 32767
                &&& gap < -32768 ==> r[i][j] == -32768
            }
            &&& at >= blocks.len() || i >= predicted.len() ==> r[i][j] == 0
        }),
{
    let at = places[i].row * width + places[i].col;
    if at < blocks.len() && i < predicted.len() {
        super::prediction::law_miss_and_prediction(blocks[at]@, predicted[i], j);
    }
}

/// The chroma places of an area are those of its blocks that lie in the grid, each one once.
pub proof fn law_chroma_places_are_those_inside(
    location: BlockLocation,
    subsampling: Subsampling,
    dimensions: BlockDimensions,
    across: int,
    down: int,
)
    requires
        subsampling == Subsampling::Sample420 ==> across == 2 && down == 2,
        subsampling == Subsampling::Sample422 ==> across == 2 && down == 1,
        subsampling == Subsampling::Sample411 ==> across == 4 && down == 2,
        subsampling == Subsampling::Sample444 ==> across == 1 && down == 1,
    ensures
        ({
            let places = chroma_places(location, subsampling, dimensions, count(location));
            &&& forall|place: Point, row: int, col: int|
                location.start.row <= row <= location.end.row && location.start.col <= col
                    <= location.end.col && place.row < dimensions.height && place.col
                    < dimensions.width && #[trigger] covers(place, across, down, row, col)
                    ==> places.contains(place)
            &&& forall|i: int, j: int|
                0 <= i < j < places.len() ==> #[trigger] places[i] != #[trigger] places[j]
            &&& forall|i: int|
                0 <= i < places.len() ==> (#[trigger] places[i]).row < dimensions.height
                    && places[i].col < dimensions.width && covers_some(
                    places[i],
                    across,
                    down,
                    location,
                )
        }),
{
    let n = count(location);
    let places = chroma_places(location, subsampling, dimensions, n);
    assert forall|place: Point, row: int, col: int|
        location.start.row <= row <= location.end.row && location.start.col <= col
            <= location.end.col && place.row < dimensions.height && place.col
            < dimensions.width && #[trigger] covers(
            place,
            across,
            down,
            row,
            col,
        ) implies places.contains(place) by {
        lemma_place_number(location, row, col);
        let k = (row - location.start.row) * cols(location) + (col - location.start.col);
        lemma_chroma_covers(location, subsampling, across, down, k);
        lemma_one_cover(place, chroma_place(location, subsampling, k), across, down, row, col);
        assert(has_chroma_place(location, subsampling, n, place));
        lemma_chroma_places(location, subsampling, dimensions, n, place);
    }
    lemma_chroma_places_once(location, subsampling, dimensions, n);
    assert forall|i: int| 0 <= i < places.len() implies (#[trigger] places[i]).row
        < dimensions.height && places[i].col < dimensions.width && covers_some(
        places[i],
        across,
        down,
        location,
    ) by {
        assert(places.contains(places[i]));
        lemma_chroma_places(location, subsampling, dimensions, n, places[i]);
        let m = choose|m: int|
            0 <= m < n && #[trigger] chroma_place(location, subsampling, m) == places[i];
        lemma_place_at(location, m);
        lemma_chroma_covers(location, subsampling, across, down, m);
        let place = place_at(location, m);
        assert(covers(places[i], across, down, place.row as int, place.col as int));
    }
}

/// A block has one chroma block.
proof fn lemma_one_cover(a: Point, b: Point, across: int, down: int, row: int, col: int)
    requires
        covers(a, across, down, row, col),
        covers(b, across, down, row, col),
    ensures
        a == b,
{
    assert(a.row == b.row) by (nonlinear_arith)
        requires
            a.row * down <= row < (a.row + 1) * down,
            b.row * down <= row < (b.row + 1) * down,
    ;
    assert(a.col == b.col) by (nonlinear_arith)
        requires
            a.col * across <= col < (a.col + 1) * across,
            b.col * across <= col < (b.col + 1) * across,
    ;
}

proof fn lemma_chroma_places_once(
    location: BlockLocation,
    subsampling: Subsampling,
    dimensions: BlockDimensions,
    n: int,
)
    ensures
        ({
            let places = chroma_places(location, subsampling, dimensions, n);
            &&& forall|i: int, j: int|
                0 <= i < j < places.len() ==> #[trigger] places[i] != #[trigger] places[j]
            &&& forall|i: int|
                0 <= i < places.len() ==> (#[trigger] places[i]).row < dimensions.height
                    && places[i].col < dimensions.width
        }),
    decreases n,
{
    if n > 0 {
        lemma_chroma_places_once(location, subsampling, dimensions, n - 1);
        let so_far = chroma_places(location, subsampling, dimensions, n - 1);
        let place = chroma_place(location, subsampling, n - 1);
        if place.row < dimensions.height && place.col < dimensions.width {
            lemma_chroma_places(location, subsampling, dimensions, n - 1, place);
        }
        let places = chroma_places(location, subsampling, dimensions, n);
        assert forall|i: int, j: int| 0 <= i < j < places.len() implies #[trigger] places[i]
            != #[trigger] places[j] by {
            if j == so_far.len() {
                assert(so_far.contains(so_far[i]));
            }
        }
    }
}

} // verus!
