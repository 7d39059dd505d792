//! Predicting blocks from other frames, and what a prediction misses.
use vstd::prelude::*;

use super::macroblock::block_location::{
    chroma_col, chroma_row, to_chroma_col, to_chroma_row, BlockLocation,
};
use super::macroblock::bmacro::Prediction;
use super::motion_vector::search::{grid_index, in_grid, target};
use super::motion_vector::MotionVector;
use crate::block::{block_views, lemma_block_views_push, Block};
use crate::color::Subsampling;
use crate::dimensions::BlockDimensions;
use crate::lossy::{picture_of, Picture, SubSampleBlockGroupRef};
use crate::numeric::lemma_place_parts;
use crate::point::Point;
use crate::sample::{clamped, quotient};

verus! {

/// The kinds of planes that are transformed in their own ways.
#[derive(Debug, Clone, Copy, PartialEq, Eq, Structural)]
pub enum Plane {
    Luma,
    Chroma,
}

/// A block of zeros.
pub open spec fn zero_block() -> Seq<i16> {
    Seq::new(64, |i: int| 0i16)
}

/// The block at an index, or zeros where there is none.
pub open spec fn block_at(blocks: Seq<Block<i16>>, at: int) -> Seq<i16> {
    if 0 <= at < blocks.len() {
        blocks[at]@
    } else {
        zero_block()
    }
}

/// The mean of two blocks, rounded towards zero.
pub open spec fn mean(a: Seq<i16>, b: Seq<i16>) -> Seq<i16> {
    Seq::new(64, |i: int| quotient(a[i] + b[i], 2) as i16)
}

/// What is left of a block without another one, as far as it fits.
pub open spec fn difference(a: Seq<i16>, b: Seq<i16>) -> Seq<i16> {
    Seq::new(64, |i: int| clamped(a[i] - b[i], i16::MIN as int, i16::MAX as int) as i16)
}

/// A prediction in a chroma plane.
pub open spec fn scaled(prediction: Prediction, subsampling: Subsampling) -> Prediction {
    match prediction {
        Prediction::Forward(mv) => Prediction::Forward(mv.chroma_scaled(subsampling)),
        Prediction::Backward(mv) => Prediction::Backward(mv.chroma_scaled(subsampling)),
        Prediction::Both { forward, backward } => Prediction::Both {
            forward: forward.chroma_scaled(subsampling),
            backward: backward.chroma_scaled(subsampling),
        },
    }
}

/// Where a vector points to, or the place itself where it points out of the
/// grid.
pub open spec fn source(dimensions: BlockDimensions, point: Point, mv: MotionVector) -> int {
    let place = target(point, mv);
    if in_grid(dimensions, place) {
        grid_index(dimensions, place)
    } else {
        point.row * dimensions.width + point.col
    }
}

/// The block that is predicted for a place. A prediction from both sides of
/// which only one vector points into the grid is one from that side. One of
/// which none does takes the block at the place itself from the frame that
/// follows.
pub open spec fn predicted(
    point: Point,
    prediction: Prediction,
    dimensions: BlockDimensions,
    backward: Seq<Block<i16>>,
    forward: Seq<Block<i16>>,
) -> Seq<i16> {
    match prediction {
        Prediction::Forward(mv) => block_at(forward, source(dimensions, point, mv)),
        Prediction::Backward(mv) => block_at(backward, source(dimensions, point, mv)),
        Prediction::Both { forward: ahead, backward: behind } => {
            let from_ahead = block_at(forward, source(dimensions, point, ahead));
            let from_behind = block_at(backward, source(dimensions, point, behind));
            if !in_grid(dimensions, target(point, behind)) {
                from_ahead
            } else if !in_grid(dimensions, target(point, ahead)) {
                from_behind
            } else {
                mean(from_ahead, from_behind)
            }
        },
    }
}

/// Whether a prediction needs the frame that follows.
pub open spec fn looks_ahead(prediction: Prediction) -> bool {
    !(prediction is Backward)
}

/// What an optional list of blocks holds.
pub open spec fn blocks_of(blocks: Option<&[Block<i16>]>) -> Seq<Block<i16>> {
    match blocks {
        Some(blocks) => blocks@,
        None => Seq::empty(),
    }
}

/// The block in a row and a column, or zeros.
fn fetch(blocks: &[Block<i16>], row: u128, col: u128, width: usize) -> (r: Block<i16>)
    requires
        row <= u64::MAX,
        col <= u64::MAX,
    ensures
        r@ == block_at(blocks@, row * width + col),
{
    proof {
        assert(0 <= row * width <= u64::MAX * u64::MAX) by (nonlinear_arith)
            requires
                0 <= row <= u64::MAX,
                0 <= width <= u64::MAX,
        ;
    }
    let at: u128 = row * width as u128 + col;
    if at < blocks.len() as u128 {
        blocks[at as usize]
    } else {
        let r = Block([0i16; 64]);
        assert(r@ =~= zero_block());
        r
    }
}

/// The block that a vector points to.
fn fetch_source(
    blocks: &[Block<i16>],
    dimensions: BlockDimensions,
    point: Point,
    mv: MotionVector,
) -> (r: Block<i16>)
    ensures
        r@ == block_at(blocks@, source(dimensions, point, mv)),
{
    let row: i128 = point.row as i128 + mv.y as i128;
    let col: i128 = point.col as i128 + mv.x as i128;
    if 0 <= row && row < dimensions.height as i128 && 0 <= col && col < dimensions.width as i128 {
        fetch(blocks, row as u128, col as u128, dimensions.width)
    } else {
        fetch(blocks, point.row as u128, point.col as u128, dimensions.width)
    }
}

/// Whether a vector points into the grid.
fn inside(dimensions: BlockDimensions, point: Point, mv: MotionVector) -> (r: bool)
    ensures
        r == in_grid(dimensions, target(point, mv)),
{
    let row: i128 = point.row as i128 + mv.y as i128;
    let col: i128 = point.col as i128 + mv.x as i128;
    0 <= row && row < dimensions.height as i128 && 0 <= col && col < dimensions.width as i128
}

/// The mean of two blocks.
pub(crate) fn mean_block(a: &Block<i16>, b: &Block<i16>) -> (r: Block<i16>)
    ensures
        r@ == mean(a@, b@),
{
    let mut data: [i16; 64] = [0i16; 64];
    let mut i: usize = 0;
    while i < 64
        invariant
            i <= 64,
            forall|j: int| 0 <= j < i ==> #[trigger] data@[j] == mean(a@, b@)[j],
        decreases 64 - i,
    {
        let sum: i32 = a.0[i] as i32 + b.0[i] as i32;
        let half: i32 = if sum < 0 {
            -((-sum) / 2)
        } else {
            sum / 2
        };
        data[i] = half as i16;
        i = i + 1;
    }
    let r = Block(data);
    assert(r@ =~= mean(a@, b@));
    r
}

/// What is left of a block without another one.
pub(crate) fn difference_block(a: &Block<i16>, b: &Block<i16>) -> (r: Block<i16>)
    ensures
        r@ == difference(a@, b@),
{
    let mut data: [i16; 64] = [0i16; 64];
    let mut i: usize = 0;
    while i < 64
        invariant
            i <= 64,
            forall|j: int| 0 <= j < i ==> #[trigger] data@[j] == difference(a@, b@)[j],
        decreases 64 - i,
    {
        let left: i32 = a.0[i] as i32 - b.0[i] as i32;
        data[i] = if left < -32768 {
            -32768
        } else if left > 32767 {
            32767
        } else {
            left as i16
        };
        i = i + 1;
    }
    let r = Block(data);
    assert(r@ =~= difference(a@, b@));
    r
}

/// Predicts the block of a place.
pub fn predicted_block(
    at: (usize, usize),
    prediction: Prediction,
    dimensions: BlockDimensions,
    backward: &[Block<i16>],
    forward: Option<&[Block<i16>]>,
) -> (r: Block<i16>)
    requires
        looks_ahead(prediction) ==> forward is Some,
    ensures
        r@ == predicted(
            Point { row: at.0, col: at.1 },
            prediction,
            dimensions,
            backward@,
            blocks_of(forward),
        ),
{
    let point = Point { row: at.0, col: at.1 };
    match prediction {
        Prediction::Backward(mv) => fetch_source(backward, dimensions, point, mv),
        Prediction::Forward(mv) => match forward {
            Some(forward) => fetch_source(forward, dimensions, point, mv),
            None => fetch_source(backward, dimensions, point, mv),
        },
        Prediction::Both { forward: ahead, backward: behind } => match forward {
            Some(forward) => {
                let from_ahead = fetch_source(forward, dimensions, point, ahead);
                let from_behind = fetch_source(backward, dimensions, point, behind);
                if !inside(dimensions, point, behind) {
                    from_ahead
                } else if !inside(dimensions, point, ahead) {
                    from_behind
                } else {
                    mean_block(&from_ahead, &from_behind)
                }
            },
            None => fetch_source(backward, dimensions, point, behind),
        },
    }
}

/// Predicts the chroma block of a place.
pub fn predicted_chroma_block(
    at: (usize, usize),
    prediction: Prediction,
    chroma_dimensions: BlockDimensions,
    subsampling: Subsampling,
    backward: &[Block<i16>],
    forward: Option<&[Block<i16>]>,
) -> (r: Block<i16>)
    requires
        looks_ahead(prediction) ==> forward is Some,
    ensures
        r@ == predicted(
            Point { row: at.0, col: at.1 },
            scaled(prediction, subsampling),
            chroma_dimensions,
            backward@,
            blocks_of(forward),
        ),
{
    let scaled_prediction = match prediction {
        Prediction::Forward(mv) => Prediction::Forward(mv.scale_for_chroma(subsampling)),
        Prediction::Backward(mv) => Prediction::Backward(mv.scale_for_chroma(subsampling)),
        Prediction::Both { forward, backward } => Prediction::Both {
            forward: forward.scale_for_chroma(subsampling),
            backward: backward.scale_for_chroma(subsampling),
        },
    };
    predicted_block(at, scaled_prediction, chroma_dimensions, backward, forward)
}

/// The number of rows of a location.
pub open spec fn rows(location: BlockLocation) -> int {
    if location.start.row <= location.end.row {
        location.end.row - location.start.row + 1
    } else {
        0
    }
}

/// The number of columns of a location.
pub open spec fn cols(location: BlockLocation) -> int {
    if location.start.col <= location.end.col {
        location.end.col - location.start.col + 1
    } else {
        0
    }
}

/// The number of places of a location.
pub open spec fn count(location: BlockLocation) -> int {
    rows(location) * cols(location)
}

/// Place `k` of a location, row by row.
pub open spec fn place_at(location: BlockLocation, k: int) -> Point {
    Point {
        row: (location.start.row + k / cols(location)) as usize,
        col: (location.start.col + k % cols(location)) as usize,
    }
}

/// The places of a location lie in it, and are numbered row by row.
pub proof fn lemma_place_at(location: BlockLocation, k: int)
    requires
        0 <= k < count(location),
    ensures
        location.start.row <= place_at(location, k).row <= location.end.row,
        location.start.col <= place_at(location, k).col <= location.end.col,
        place_at(location, k).row == location.start.row + k / cols(location),
        place_at(location, k).col == location.start.col + k % cols(location),
        k == (place_at(location, k).row - location.start.row) * cols(location) + (place_at(
            location,
            k,
        ).col - location.start.col),
        0 < cols(location),
        0 < rows(location),
{
    let wide = cols(location);
    let high = rows(location);
    assert(wide > 0 && high > 0) by (nonlinear_arith)
        requires
            0 <= k < high * wide,
            wide >= 0,
            high >= 0,
    ;
    lemma_place_parts(k, wide);
    let row = k / wide;
    let col = k % wide;
    assert(row < high) by (nonlinear_arith)
        requires
            k == row * wide + col,
            col >= 0,
            k < high * wide,
            wide > 0,
    ;
}

/// The number of a place of a location.
pub proof fn lemma_place_number(location: BlockLocation, row: int, col: int)
    requires
        location.start.row <= row <= location.end.row,
        location.start.col <= col <= location.end.col,
    ensures
        ({
            let k = (row - location.start.row) * cols(location) + (col - location.start.col);
            &&& 0 <= k < count(location)
            &&& place_at(location, k).row == row
            &&& place_at(location, k).col == col
        }),
{
    crate::numeric::lemma_place(
        row - location.start.row,
        col - location.start.col,
        cols(location),
    );
    crate::numeric::lemma_place_bound(
        row - location.start.row,
        col - location.start.col,
        cols(location),
        rows(location),
    );
}

/// The chroma place of place `k` of a location.
pub open spec fn chroma_place(location: BlockLocation, subsampling: Subsampling, k: int) -> Point {
    let place = place_at(location, k);
    Point {
        row: chroma_row(place.row as int, subsampling) as usize,
        col: chroma_col(place.col as int, subsampling) as usize,
    }
}

/// One of the first `n` places has the chroma place.
pub open spec fn has_chroma_place(
    location: BlockLocation,
    subsampling: Subsampling,
    n: int,
    place: Point,
) -> bool {
    exists|m: int| 0 <= m < n && #[trigger] chroma_place(location, subsampling, m) == place
}

/// The chroma places of the first `n` places of a location, each one once.
pub open spec fn predicted_places(
    location: BlockLocation,
    subsampling: Subsampling,
    n: int,
) -> Seq<Point>
    decreases n,
{
    if n <= 0 {
        Seq::empty()
    } else {
        let so_far = predicted_places(location, subsampling, n - 1);
        let place = chroma_place(location, subsampling, n - 1);
        if has_chroma_place(location, subsampling, n - 1, place) {
            so_far
        } else {
            so_far.push(place)
        }
    }
}

/// The list holds what one of the first `n` places has.
proof fn lemma_predicted_places(
    location: BlockLocation,
    subsampling: Subsampling,
    n: int,
    place: Point,
)
    ensures
        predicted_places(location, subsampling, n).contains(place) == has_chroma_place(
            location,
            subsampling,
            n,
            place,
        ),
    decreases n,
{
    if n > 0 {
        lemma_predicted_places(location, subsampling, n - 1, place);
        let so_far = predicted_places(location, subsampling, n - 1);
        let next = predicted_places(location, subsampling, n);
        let last = chroma_place(location, subsampling, n - 1);
        if has_chroma_place(location, subsampling, n - 1, place) {
            let m = choose|m: int|
                0 <= m < n - 1 && #[trigger] chroma_place(location, subsampling, m) == place;
            assert(chroma_place(location, subsampling, m) == place);
            let i = choose|i: int| 0 <= i < so_far.len() && so_far[i] == place;
            assert(next[i] == place);
        } else if last == place {
            assert(next == so_far.push(place));
            assert(next[so_far.len() as int] == place);
        } else {
            if next.contains(place) {
                let i = choose|i: int| 0 <= i < next.len() && next[i] == place;
                assert(so_far[i] == place);
            }
            if has_chroma_place(location, subsampling, n, place) {
                let m = choose|m: int|
                    0 <= m < n && #[trigger] chroma_place(location, subsampling, m) == place;
                assert(m < n - 1);
            }
        }
    }
}

/// Whether a list holds a place.
pub(crate) fn holds(places: &Vec<Point>, place: Point) -> (r: bool)
    ensures
        r == places@.contains(place),
{
    let mut i: usize = 0;
    while i < places.len()
        invariant
            i <= places@.len(),
            forall|j: int| 0 <= j < i ==> places@[j] != place,
        decreases places@.len() - i,
    {
        if places[i].row == place.row && places[i].col == place.col {
            assert(places@[i as int] == place);
            return true;
        }
        i = i + 1;
    }
    false
}

/// Lists the chroma places of an area, each one once.
fn list_predicted_places(location: &BlockLocation, subsampling: Subsampling) -> (r: Vec<Point>)
    requires
        is_area(*location),
    ensures
        r@ == predicted_places(*location, subsampling, count(*location)),
{
    let wide: usize = area_cols(location);
    let total: usize = area_count(location);
    let mut r: Vec<Point> = Vec::new();
    let mut k: usize = 0;
    while k < total
        invariant
            k <= total,
            total == count(*location),
            wide == cols(*location),
            r@ == predicted_places(*location, subsampling, k as int),
        decreases total - k,
    {
        proof {
            lemma_place_at(*location, k as int);
        }
        let place = Point {
            row: to_chroma_row(location.start.row + k / wide, subsampling),
            col: to_chroma_col(location.start.col + k % wide, subsampling),
        };
        proof {
            assert(place == chroma_place(*location, subsampling, k as int));
            lemma_predicted_places(*location, subsampling, k as int, place);
        }
        if !holds(&r, place) {
            r.push(place);
        }
        k = k + 1;
    }
    r
}

/// The blocks that are predicted for a list of places.
pub open spec fn predictions(
    places: Seq<Point>,
    prediction: Prediction,
    dimensions: BlockDimensions,
    backward: Seq<Block<i16>>,
    forward: Seq<Block<i16>>,
) -> Seq<Seq<i16>> {
    Seq::new(
        places.len(),
        |i: int| predicted(places[i], prediction, dimensions, backward, forward),
    )
}

/// One place more is one block more.
proof fn lemma_predictions_push(
    places: Seq<Point>,
    place: Point,
    prediction: Prediction,
    dimensions: BlockDimensions,
    backward: Seq<Block<i16>>,
    forward: Seq<Block<i16>>,
)
    ensures
        predictions(places.push(place), prediction, dimensions, backward, forward) == predictions(
            places,
            prediction,
            dimensions,
            backward,
            forward,
        ).push(predicted(place, prediction, dimensions, backward, forward)),
{
    assert(predictions(places.push(place), prediction, dimensions, backward, forward)
        =~= predictions(places, prediction, dimensions, backward, forward).push(
        predicted(place, prediction, dimensions, backward, forward),
    ));
}

/// The places of a location.
pub open spec fn all_places(location: BlockLocation) -> Seq<Point> {
    Seq::new(count(location) as nat, |k: int| place_at(location, k))
}

/// A location that ends behind its start and can be counted.
pub open spec fn is_area(location: BlockLocation) -> bool {
    &&& location.start.row <= location.end.row
    &&& location.start.col <= location.end.col
    &&& count(location) <= usize::MAX
}

/// The luma channel of an optional frame.
pub open spec fn luma_of(group: Option<Picture<i16>>) -> Seq<Block<i16>> {
    match group {
        Some(group) => group.y,
        None => Seq::empty(),
    }
}

/// The Cb channel of an optional frame.
pub open spec fn cb_of(group: Option<Picture<i16>>) -> Seq<Block<i16>> {
    match group {
        Some(group) => group.cb,
        None => Seq::empty(),
    }
}

/// The Cr channel of an optional frame.
pub open spec fn cr_of(group: Option<Picture<i16>>) -> Seq<Block<i16>> {
    match group {
        Some(group) => group.cr,
        None => Seq::empty(),
    }
}

/// Predicts the blocks of an area in the three channels.
pub fn build_predicted_blocks(
    location: &BlockLocation,
    prediction: &Prediction,
    dimensions: &BlockDimensions,
    subsampling: Subsampling,
    forward_ref: Option<&SubSampleBlockGroupRef<'_, i16>>,
    backward_ref: &SubSampleBlockGroupRef<'_, i16>,
) -> (r: (Vec<Block<i16>>, Vec<Block<i16>>, Vec<Block<i16>>))
    requires
        is_area(*location),
        looks_ahead(*prediction) ==> forward_ref is Some,
    ensures
        block_views(r.0@) == predictions(
            all_places(*location),
            *prediction,
            *dimensions,
            backward_ref.y@,
            luma_of(picture_of(forward_ref)),
        ),
        block_views(r.1@) == predictions(
            predicted_places(*location, subsampling, count(*location)),
            scaled(*prediction, subsampling),
            dimensions.subsampled(subsampling),
            backward_ref.cb@,
            cb_of(picture_of(forward_ref)),
        ),
        block_views(r.2@) == predictions(
            predicted_places(*location, subsampling, count(*location)),
            scaled(*prediction, subsampling),
            dimensions.subsampled(subsampling),
            backward_ref.cr@,
            cr_of(picture_of(forward_ref)),
        ),
{
    let forward_y = match forward_ref {
        Some(f) => Some(f.y),
        None => None,
    };
    let forward_cb = match forward_ref {
        Some(f) => Some(f.cb),
        None => None,
    };
    let forward_cr = match forward_ref {
        Some(f) => Some(f.cr),
        None => None,
    };
    let wide: usize = area_cols(location);
    let total: usize = area_count(location);
    let mut y: Vec<Block<i16>> = Vec::new();
    let ghost places = all_places(*location);
    proof {
        assert(block_views(y@) =~= predictions(
            places.take(0),
            *prediction,
            *dimensions,
            backward_ref.y@,
            luma_of(picture_of(forward_ref)),
        ));
    }
    let mut k: usize = 0;
    while k < total
        invariant
            k <= total,
            total == count(*location),
            wide == cols(*location),
            is_area(*location),
            places == all_places(*location),
            looks_ahead(*prediction) ==> forward_y is Some,
            blocks_of(forward_y) == luma_of(picture_of(forward_ref)),
            block_views(y@) == predictions(
                places.take(k as int),
                *prediction,
                *dimensions,
                backward_ref.y@,
                luma_of(picture_of(forward_ref)),
            ),
        decreases total - k,
    {
        proof {
            lemma_place_at(*location, k as int);
        }
        let row: usize = location.start.row + k / wide;
        let col: usize = location.start.col + k % wide;
        let ghost before = y@;
        y.push(predicted_block((row, col), *prediction, *dimensions, backward_ref.y, forward_y));
        proof {
            assert(places[k as int] == (Point { row, col }));
            assert(places.take(k + 1) =~= places.take(k as int).push(Point { row, col }));
            lemma_block_views_push(before, y@.last());
            lemma_predictions_push(
                places.take(k as int),
                Point { row, col },
                *prediction,
                *dimensions,
                backward_ref.y@,
                luma_of(picture_of(forward_ref)),
            );
            assert(y@ =~= before.push(y@.last()));
        }
        k = k + 1;
    }
    assert(places.take(total as int) =~= places);
    let chroma_dims = dimensions.subsample(subsampling);
    let places = list_predicted_places(location, subsampling);
    let mut cb: Vec<Block<i16>> = Vec::new();
    let mut cr: Vec<Block<i16>> = Vec::new();
    let ghost all_cb = predictions(
        places@,
        scaled(*prediction, subsampling),
        chroma_dims,
        backward_ref.cb@,
        cb_of(picture_of(forward_ref)),
    );
    let ghost all_cr = predictions(
        places@,
        scaled(*prediction, subsampling),
        chroma_dims,
        backward_ref.cr@,
        cr_of(picture_of(forward_ref)),
    );
    let mut i: usize = 0;
    while i < places.len()
        invariant
            i <= places@.len(),
            looks_ahead(*prediction) ==> forward_cb is Some && forward_cr is Some,
            blocks_of(forward_cb) == cb_of(picture_of(forward_ref)),
            blocks_of(forward_cr) == cr_of(picture_of(forward_ref)),
            all_cb == predictions(
                places@,
                scaled(*prediction, subsampling),
                chroma_dims,
                backward_ref.cb@,
                cb_of(picture_of(forward_ref)),
            ),
            all_cr == predictions(
                places@,
                scaled(*prediction, subsampling),
                chroma_dims,
                backward_ref.cr@,
                cr_of(picture_of(forward_ref)),
            ),
            cb@.len() == i,
            cr@.len() == i,
            forall|j: int| 0 <= j < i ==> (#[trigger] cb@[j])@ == all_cb[j],
            forall|j: int| 0 <= j < i ==> (#[trigger] cr@[j])@ == all_cr[j],
        decreases places@.len() - i,
    {
        let at = (places[i].row, places[i].col);
        cb.push(
            predicted_chroma_block(
                at,
                *prediction,
                chroma_dims,
                subsampling,
                backward_ref.cb,
                forward_cb,
            ),
        );
        cr.push(
            predicted_chroma_block(
                at,
                *prediction,
                chroma_dims,
                subsampling,
                backward_ref.cr,
                forward_cr,
            ),
        );
        i = i + 1;
    }
    assert(block_views(cb@) =~= all_cb);
    assert(block_views(cr@) =~= all_cr);
    (y, cb, cr)
}

/// The number of columns of an area.
pub(crate) fn area_cols(location: &BlockLocation) -> (r: usize)
    requires
        is_area(*location),
    ensures
        r == cols(*location),
{
    proof {
        lemma_area(*location);
    }
    location.end.col - location.start.col + 1
}

/// The number of places of an area.
pub(crate) fn area_count(location: &BlockLocation) -> (r: usize)
    requires
        is_area(*location),
    ensures
        r == count(*location),
{
    proof {
        lemma_area(*location);
    }
    (location.end.row - location.start.row + 1) * (location.end.col - location.start.col + 1)
}

/// The sides of an area can be counted.
proof fn lemma_area(location: BlockLocation)
    requires
        is_area(location),
    ensures
        1 <= rows(location) <= usize::MAX,
        1 <= cols(location) <= usize::MAX,
{
    let high = rows(location);
    let wide = cols(location);
    assert(high <= high * wide && wide <= high * wide) by (nonlinear_arith)
        requires
            high >= 1,
            wide >= 1,
    ;
}

/// A prediction from both sides, whose two vectors point at blocks, lies halfway
/// between these blocks: twice a sample is the sum of theirs, but for one that is lost
/// where the sum is odd, and then it is the smaller in size. Exchanging the frames
/// together with the vectors changes nothing.
pub proof fn law_both_sides_count_alike(
    point: Point,
    ahead: MotionVector,
    behind: MotionVector,
    dimensions: BlockDimensions,
    backward: Seq<Block<i16>>,
    forward: Seq<Block<i16>>,
    i: int,
)
    requires
        0 <= point.row + ahead.y < dimensions.height,
        0 <= point.col + ahead.x < dimensions.width,
        0 <= point.row + behind.y < dimensions.height,
        0 <= point.col + behind.x < dimensions.width,
        (point.row + ahead.y) * dimensions.width + (point.col + ahead.x) < forward.len(),
        (point.row + behind.y) * dimensions.width + (point.col + behind.x) < backward.len(),
        0 <= i < 64,
    ensures
        ({
            let r = predicted(
                point,
                Prediction::Both { forward: ahead, backward: behind },
                dimensions,
                backward,
                forward,
            );
            let f = forward[(point.row + ahead.y) * dimensions.width + (point.col
                + ahead.x)]@;
            let b = backward[(point.row + behind.y) * dimensions.width + (point.col
                + behind.x)]@;
            &&& r.len() == 64
            &&& f[i] + b[i] >= 0 ==> f[i] + b[i] - 1 <= 2 * r[i] <= f[i] + b[i]
            &&& f[i] + b[i] < 0 ==> f[i] + b[i] <= 2 * r[i] <= f[i] + b[i] + 1
            &&& r == predicted(
                point,
                Prediction::Both { forward: behind, backward: ahead },
                dimensions,
                forward,
                backward,
            )
        }),
{
    assert(0 <= (point.row + ahead.y) * dimensions.width) by (nonlinear_arith)
        requires
            0 <= point.row + ahead.y,
            0 <= dimensions.width,
    ;
    assert(0 <= (point.row + behind.y) * dimensions.width) by (nonlinear_arith)
        requires
            0 <= point.row + behind.y,
            0 <= dimensions.width,
    ;
    let f = forward[(point.row + ahead.y) * dimensions.width + (point.col + ahead.x)]@;
    let b = backward[(point.row + behind.y) * dimensions.width + (point.col + behind.x)]@;
    assert(mean(f, b) =~= mean(b, f));
}

/// A prediction from one side is the block that its vector points to in the frame of
/// that side, and a prediction from both sides is one from a single side where only
/// the vector of that side points into the grid.
pub proof fn law_one_side_is_copied(
    point: Point,
    mv: MotionVector,
    other: MotionVector,
    dimensions: BlockDimensions,
    here: Seq<Block<i16>>,
    there: Seq<Block<i16>>,
)
    requires
        0 <= point.row + mv.y < dimensions.height,
        0 <= point.col + mv.x < dimensions.width,
        (point.row + mv.y) * dimensions.width + (point.col + mv.x) < here.len(),
        !(0 <= point.row + other.y < dimensions.height && 0 <= point.col + other.x
            < dimensions.width),
    ensures
        ({
            let block = here[(point.row + mv.y) * dimensions.width + (point.col + mv.x)]@;
            &&& predicted(point, Prediction::Forward(mv), dimensions, there, here) == block
            &&& predicted(point, Prediction::Backward(mv), dimensions, here, there) == block
            &&& predicted(
                point,
                Prediction::Both { forward: mv, backward: other },
                dimensions,
                there,
                here,
            ) == block
            &&& predicted(
                point,
                Prediction::Both { forward: other, backward: mv },
                dimensions,
                here,
                there,
            ) == block
        }),
{
    assert(0 <= (point.row + mv.y) * dimensions.width) by (nonlinear_arith)
        requires
            0 <= point.row + mv.y,
            0 <= dimensions.width,
    ;
}

/// A vector that points out of the grid counts as one that does not move, and where
/// both vectors do, only the frame that follows counts. Where there is no block,
/// the prediction is zero.
pub proof fn law_outside_stays_in_place(
    point: Point,
    mv: MotionVector,
    other: MotionVector,
    dimensions: BlockDimensions,
    backward: Seq<Block<i16>>,
    forward: Seq<Block<i16>>,
)
    requires
        !(0 <= point.row + mv.y < dimensions.height && 0 <= point.col + mv.x
            < dimensions.width),
        !(0 <= point.row + other.y < dimensions.height && 0 <= point.col + other.x
            < dimensions.width),
    ensures
        ({
            let at = point.row * dimensions.width + point.col;
            let from_forward = predicted(
                point,
                Prediction::Forward(mv),
                dimensions,
                backward,
                forward,
            );
            let from_backward = predicted(
                point,
                Prediction::Backward(mv),
                dimensions,
                backward,
                forward,
            );
            let from_both = predicted(
                point,
                Prediction::Both { forward: mv, backward: other },
                dimensions,
                backward,
                forward,
            );
            &&& at < forward.len() ==> from_forward == forward[at]@ && from_both
                == forward[at]@
            &&& at < backward.len() ==> from_backward == backward[at]@
            &&& at >= forward.len() ==> forall|i: int|
                0 <= i < 64 ==> #[trigger] from_forward[i] == 0 && from_both[i] == 0
            &&& at >= backward.len() ==> forall|i: int|
                0 <= i < 64 ==> #[trigger] from_backward[i] == 0
        }),
{
    assert(0 <= point.row * dimensions.width) by (nonlinear_arith)
        requires
            0 <= point.row,
            0 <= dimensions.width,
    ;
}

/// Where the block that a vector points to does not exist, the prediction is zero.
pub proof fn law_no_block_is_zero(
    point: Point,
    mv: MotionVector,
    dimensions: BlockDimensions,
    here: Seq<Block<i16>>,
    there: Seq<Block<i16>>,
    i: int,
)
    requires
        0 <= point.row + mv.y < dimensions.height,
        0 <= point.col + mv.x < dimensions.width,
        (point.row + mv.y) * dimensions.width + (point.col + mv.x) >= here.len(),
        0 <= i < 64,
    ensures
        predicted(point, Prediction::Forward(mv), dimensions, there, here)[i] == 0,
        predicted(point, Prediction::Backward(mv), dimensions, here, there)[i] == 0,
{
}

/// What a prediction misses and the prediction together are the block, where the
/// sample between them fits, and else as close to it as can be.
pub proof fn law_miss_and_prediction(a: Seq<i16>, b: Seq<i16>, i: int)
    requires
        0 <= i < 64,
    ensures
        difference(a, b).len() == 64,
        -32768 <= a[i] - b[i] <= 32767 ==> b[i] + difference(a, b)[i] == a[i],
        a[i] - b[i] > 32767 ==> difference(a, b)[i] == 32767,
        a[i] - b[i] < -32768 ==> difference(a, b)[i] == -32768,
{
}

/// A vector of the luma plane leads, in a chroma plane, as far as the samples there
/// are wide and high: times that width and height it reaches back, but for less than
/// one sample, and never too far.
pub proof fn law_chroma_vector_scales(
    prediction: Prediction,
    subsampling: Subsampling,
    across: int,
    down: int,
)
    requires
        subsampling == Subsampling::Sample420 ==> across == 2 && down == 2,
        subsampling == Subsampling::Sample422 ==> across == 2 && down == 1,
        subsampling == Subsampling::Sample411 ==> across == 4 && down == 2,
        subsampling == Subsampling::Sample444 ==> across == 1 && down == 1,
    ensures
        match (prediction, scaled(prediction, subsampling)) {
            (Prediction::Forward(mv), Prediction::Forward(r)) => is_scaled(
                mv,
                across,
                down,
                r,
            ),
            (Prediction::Backward(mv), Prediction::Backward(r)) => is_scaled(
                mv,
                across,
                down,
                r,
            ),
            (
                Prediction::Both { forward: f, backward: b },
                Prediction::Both { forward: rf, backward: rb },
            ) => is_scaled(f, across, down, rf) && is_scaled(b, across, down, rb),
            _ => false,
        },
{
    match prediction {
        Prediction::Forward(mv) => lemma_scaled(mv, subsampling, across, down),
        Prediction::Backward(mv) => lemma_scaled(mv, subsampling, across, down),
        Prediction::Both { forward, backward } => {
            lemma_scaled(forward, subsampling, across, down);
            lemma_scaled(backward, subsampling, across, down);
        },
    }
}

/// A vector and what it is where the samples are so wide and so high.
pub open spec fn is_scaled(mv: MotionVector, across: int, down: int, r: MotionVector) -> bool {
    &&& mv.x >= 0 ==> mv.x - across < across * r.x <= mv.x
    &&& mv.x < 0 ==> mv.x <= across * r.x < mv.x + across
    &&& mv.y >= 0 ==> mv.y - down < down * r.y <= mv.y
    &&& mv.y < 0 ==> mv.y <= down * r.y < mv.y + down
}

proof fn lemma_scaled(mv: MotionVector, subsampling: Subsampling, across: int, down: int)
    requires
        subsampling == Subsampling::Sample420 ==> across == 2 && down == 2,
        subsampling == Subsampling::Sample422 ==> across == 2 && down == 1,
        subsampling == Subsampling::Sample411 ==> across == 4 && down == 2,
        subsampling == Subsampling::Sample444 ==> across == 1 && down == 1,
    ensures
        is_scaled(mv, across, down, mv.chroma_scaled(subsampling)),
{
    let r = mv.chroma_scaled(subsampling);
    crate::sample::law_quotient_leaves_a_rest(mv.x as int, 2);
    crate::sample::law_quotient_leaves_a_rest(mv.x as int, 4);
    crate::sample::law_quotient_leaves_a_rest(mv.y as int, 2);
    assert(match subsampling {
        Subsampling::Sample420 | Subsampling::Sample422 => r.x == quotient(mv.x as int, 2),
        Subsampling::Sample411 => r.x == quotient(mv.x as int, 4),
        Subsampling::Sample444 => r.x == mv.x,
    });
    assert(match subsampling {
        Subsampling::Sample420 | Subsampling::Sample411 => r.y == quotient(mv.y as int, 2),
        _ => r.y == mv.y,
    });
    assert(across == 1 ==> across * r.x == r.x) by (nonlinear_arith);
    assert(across == 2 ==> across * r.x == 2 * r.x) by (nonlinear_arith);
    assert(across == 4 ==> across * r.x == 4 * r.x) by (nonlinear_arith);
    assert(down == 1 ==> down * r.y == r.y) by (nonlinear_arith);
    assert(down == 2 ==> down * r.y == 2 * r.y) by (nonlinear_arith);
}

/// Every block of an area has its chroma block in the list, the list holds no chroma
/// block twice, and each one in it covers a block of the area.
pub proof fn law_predicted_places_cover_the_area(
    location: BlockLocation,
    subsampling: Subsampling,
    across: int,
    down: int,
)
    requires
        subsampling == Subsampling::Sample420 ==> across == 2 && down == 2,
        subsampling == Subsampling::Sample422 ==> across == 2 && down == 1,
        subsampling == Subsampling::Sample411 ==> across == 4 && down == 2,
        subsampling == Subsampling::Sample444 ==> across == 1 && down == 1,
    ensures
        ({
            let places = predicted_places(location, subsampling, count(location));
            &&& forall|row: int, col: int|
                location.start.row <= row <= location.end.row && location.start.col <= col
                    <= location.end.col ==> #[trigger] is_covered(
                    places,
                    across,
                    down,
                    row,
                    col,
                )
            &&& forall|i: int, j: int|
                0 <= i < j < places.len() ==> #[trigger] places[i] != #[trigger] places[j]
            &&& forall|i: int|
                0 <= i < places.len() ==> covers_some(
                    #[trigger] places[i],
                    across,
                    down,
                    location,
                )
        }),
{
    let n = count(location);
    let places = predicted_places(location, subsampling, n);
    assert forall|row: int, col: int|
        location.start.row <= row <= location.end.row && location.start.col <= col
            <= location.end.col implies #[trigger] is_covered(
        places,
        across,
        down,
        row,
        col,
    ) by {
        lemma_place_number(location, row, col);
        let k = (row - location.start.row) * cols(location) + (col - location.start.col);
        let place = chroma_place(location, subsampling, k);
        assert(has_chroma_place(location, subsampling, n, place));
        lemma_predicted_places(location, subsampling, n, place);
        let i = choose|i: int| 0 <= i < places.len() && places[i] == place;
        lemma_chroma_covers(location, subsampling, across, down, k);
        assert(covers(places[i], across, down, row, col));
    }
    lemma_predicted_places_once(location, subsampling, n);
    assert forall|i: int| 0 <= i < places.len() implies covers_some(
        #[trigger] places[i],
        across,
        down,
        location,
    ) by {
        assert(places.contains(places[i]));
        lemma_predicted_places(location, subsampling, n, places[i]);
        let m = choose|m: int|
            0 <= m < n && #[trigger] chroma_place(location, subsampling, m) == places[i];
        lemma_place_at(location, m);
        lemma_chroma_covers(location, subsampling, across, down, m);
        let place = place_at(location, m);
        assert(covers(places[i], across, down, place.row as int, place.col as int));
    }
}

/// A chroma block that covers a luma block, where it is so many luma blocks wide and
/// high.
pub open spec fn covers(place: Point, across: int, down: int, row: int, col: int) -> bool {
    &&& place.row * down <= row < (place.row + 1) * down
    &&& place.col * across <= col < (place.col + 1) * across
}

/// A chroma block that covers a luma block of an area.
pub open spec fn covers_some(
    place: Point,
    across: int,
    down: int,
    location: BlockLocation,
) -> bool {
    exists|row: int, col: int|
        location.start.row <= row <= location.end.row && location.start.col <= col
            <= location.end.col && #[trigger] covers(place, across, down, row, col)
}

/// A luma block that one of the chroma blocks covers.
pub open spec fn is_covered(
    places: Seq<Point>,
    across: int,
    down: int,
    row: int,
    col: int,
) -> bool {
    exists|i: int|
        0 <= i < places.len() && #[trigger] covers(places[i], across, down, row, col)
}

pub proof fn lemma_chroma_covers(
    location: BlockLocation,
    subsampling: Subsampling,
    across: int,
    down: int,
    k: int,
)
    requires
        0 <= k < count(location),
        subsampling == Subsampling::Sample420 ==> across == 2 && down == 2,
        subsampling == Subsampling::Sample422 ==> across == 2 && down == 1,
        subsampling == Subsampling::Sample411 ==> across == 4 && down == 2,
        subsampling == Subsampling::Sample444 ==> across == 1 && down == 1,
    ensures
        covers(
            chroma_place(location, subsampling, k),
            across,
            down,
            place_at(location, k).row as int,
            place_at(location, k).col as int,
        ),
{
    lemma_place_at(location, k);
    let row = chroma_place(location, subsampling, k).row;
    let col = chroma_place(location, subsampling, k).col;
    assert(down == 1 ==> row * down == row && (row + 1) * down == row + 1) by (nonlinear_arith);
    assert(down == 2 ==> row * down == 2 * row && (row + 1) * down == 2 * row + 2)
        by (nonlinear_arith);
    assert(across == 1 ==> col * across == col && (col + 1) * across == col + 1)
        by (nonlinear_arith);
    assert(across == 2 ==> col * across == 2 * col && (col + 1) * across == 2 * col + 2)
        by (nonlinear_arith);
    assert(across == 4 ==> col * across == 4 * col && (col + 1) * across == 4 * col + 4)
        by (nonlinear_arith);
}

proof fn lemma_predicted_places_once(location: BlockLocation, subsampling: Subsampling, n: int)
    ensures
        ({
            let places = predicted_places(location, subsampling, n);
            forall|i: int, j: int|
                0 <= i < j < places.len() ==> #[trigger] places[i] != #[trigger] places[j]
        }),
    decreases n,
{
    if n > 0 {
        lemma_predicted_places_once(location, subsampling, n - 1);
        let so_far = predicted_places(location, subsampling, n - 1);
        let place = chroma_place(location, subsampling, n - 1);
        lemma_predicted_places(location, subsampling, n - 1, place);
        let places = predicted_places(location, subsampling, n);
        assert forall|i: int, j: int| 0 <= i < j < places.len() implies #[trigger] places[i]
            != #[trigger] places[j] by {
            if j == so_far.len() {
                assert(so_far.contains(so_far[i]));
            }
        }
    }
}

/// The places of a location are counted row by row, from its first one on, and there are
/// as many as its rows times its columns.
pub proof fn law_places_go_row_by_row(location: BlockLocation, row: int, col: int)
    requires
        location.start.row <= row <= location.end.row,
        location.start.col <= col <= location.end.col,
    ensures
        ({
            let wide = location.end.col - location.start.col + 1;
            let high = location.end.row - location.start.row + 1;
            let k = (row - location.start.row) * wide + (col - location.start.col);
            let places = all_places(location);
            &&& places.len() == high * wide
            &&& 0 <= k < places.len()
            &&& places[k].row == row
            &&& places[k].col == col
        }),
{
    lemma_place_number(location, row, col);
}

/// The chroma blocks of a location run from the one that covers its first luma block to the
/// one that covers its last.
pub proof fn law_chroma_location_covers(
    location: BlockLocation,
    subsampling: Subsampling,
    across: int,
    down: int,
)
    requires
        subsampling == Subsampling::Sample420 ==> across == 2 && down == 2,
        subsampling == Subsampling::Sample422 ==> across == 2 && down == 1,
        subsampling == Subsampling::Sample411 ==> across == 4 && down == 2,
        subsampling == Subsampling::Sample444 ==> across == 1 && down == 1,
    ensures
        ({
            let r = location.mapped_to_chroma(subsampling);
            &&& covers(
                r.start,
                across,
                down,
                location.start.row as int,
                location.start.col as int,
            )
            &&& covers(r.end, across, down, location.end.row as int, location.end.col as int)
        }),
{
    lemma_point_covers(location.start, subsampling, across, down);
    lemma_point_covers(location.end, subsampling, across, down);
}

proof fn lemma_point_covers(point: Point, subsampling: Subsampling, across: int, down: int)
    requires
        subsampling == Subsampling::Sample420 ==> across == 2 && down == 2,
        subsampling == Subsampling::Sample422 ==> across == 2 && down == 1,
        subsampling == Subsampling::Sample411 ==> across == 4 && down == 2,
        subsampling == Subsampling::Sample444 ==> across == 1 && down == 1,
    ensures
        covers(
            Point {
                row: chroma_row(point.row as int, subsampling) as usize,
                col: chroma_col(point.col as int, subsampling) as usize,
            },
            across,
            down,
            point.row as int,
            point.col as int,
        ),
{
    let row = chroma_row(point.row as int, subsampling);
    let col = chroma_col(point.col as int, subsampling);
    assert(down == 1 ==> row * down == row && (row + 1) * down == row + 1) by (nonlinear_arith);
    assert(down == 2 ==> row * down == 2 * row && (row + 1) * down == 2 * row + 2)
        by (nonlinear_arith);
    assert(across == 1 ==> col * across == col && (col + 1) * across == col + 1)
        by (nonlinear_arith);
    assert(across == 2 ==> col * across == 2 * col && (col + 1) * across == 2 * col + 2)
        by (nonlinear_arith);
    assert(across == 4 ==> col * across == 4 * col && (col + 1) * across == 4 * col + 4)
        by (nonlinear_arith);
}

} // verus!
