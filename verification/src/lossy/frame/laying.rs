//! What a macroblock changes in a frame.
use vstd::prelude::*;

use super::assembly::{
    all_laid, base_of, chroma_locations_of, index_at, is_assembled, is_assembled_chroma, laid,
    lemma_laid_len, locations_of, paired_blocks, pairs, rank, restored_as,
};
use super::macroblock::block_location::BlockLocation;
use super::macroblock::AssemblableMacroBlock;
use super::prediction::{
    cb_of, count, cr_of, lemma_place_at, lemma_place_number, place_at, predicted, scaled, Plane,
};
use crate::block::Block;
use crate::lossy::Picture;
use crate::numeric::lemma_place;
use crate::point::Point;

verus! {

/// A block at none of the places keeps its value.
proof fn lemma_laid_elsewhere(
    blocks: Seq<Block<i16>>,
    location: BlockLocation,
    width: int,
    values: Seq<Block<i16>>,
    t: int,
)
    requires
        0 <= width,
        0 <= t < blocks.len(),
        forall|k: int| 0 <= k < values.len() ==> #[trigger] index_at(location, width, k) != t,
    ensures
        laid(blocks, location, width, values)[t] == blocks[t],
    decreases values.len(),
{
    if values.len() > 0 {
        lemma_laid_elsewhere(blocks, location, width, values.drop_last(), t);
        lemma_laid_len(blocks, location, width, values.drop_last());
        let last = values.len() - 1;
        assert(index_at(location, width, last) != t);
        let row = place_at(location, last).row;
        assert(row * width >= 0) by (nonlinear_arith)
            requires
                row >= 0,
                width >= 0,
        ;
    }
}

/// Two places of a location have two indices.
proof fn lemma_two_indices(location: BlockLocation, width: int, k: int, other: int)
    requires
        0 <= k < other < count(location),
        location.end.col < width,
    ensures
        index_at(location, width, k) != index_at(location, width, other),
{
    lemma_place_at(location, k);
    lemma_place_at(location, other);
    let a = place_at(location, k);
    let b = place_at(location, other);
    lemma_place(a.row as int, a.col as int, width);
    lemma_place(b.row as int, b.col as int, width);
}

/// A place has the value that was laid down there.
proof fn lemma_laid_there(
    blocks: Seq<Block<i16>>,
    location: BlockLocation,
    width: int,
    values: Seq<Block<i16>>,
    k: int,
)
    requires
        location.end.col < width,
        0 <= k < values.len() <= count(location),
        index_at(location, width, k) < blocks.len(),
    ensures
        0 <= index_at(location, width, k),
        laid(blocks, location, width, values)[index_at(location, width, k)] == values[k],
    decreases values.len(),
{
    let last = values.len() - 1;
    lemma_laid_len(blocks, location, width, values.drop_last());
    lemma_place_at(location, k);
    lemma_place_at(location, last);
    let a = place_at(location, k);
    let b = place_at(location, last);
    lemma_place(a.row as int, a.col as int, width);
    lemma_place(b.row as int, b.col as int, width);
    if k < last {
        lemma_laid_there(blocks, location, width, values.drop_last(), k);
        lemma_two_indices(location, width, k, last);
    }
}

/// A frame that is put together of one macroblock has, at each luma block of it that there
/// is a residual for, what is restored of the prediction for that place and of the
/// residual, counted row by row. All other luma blocks are those of the frame that
/// follows, or of the one before where none does.
pub proof fn law_macroblock_restores_its_luma<
    M: AssemblableMacroBlock,
    F: Fn(Plane, &Block<i16>, &Block<i16>) -> Block<i16>,
>(
    restore: F,
    forward_ref: Option<Picture<i16>>,
    backward_ref: Picture<i16>,
    m: M,
    r: Picture<i16>,
    row: int,
    col: int,
)
    requires
        is_assembled(restore, forward_ref, backward_ref, seq![m], r),
        ({
            let base = match forward_ref {
                Some(forward) => forward,
                None => backward_ref,
            };
            &&& m.at().start.row <= m.at().end.row
            &&& m.at().start.col <= m.at().end.col < base.dimensions.width
            &&& 0 <= row
            &&& 0 <= col < base.dimensions.width
            &&& row * base.dimensions.width + col < base.y.len()
        }),
    ensures
        ({
            let base = match forward_ref {
                Some(forward) => forward,
                None => backward_ref,
            };
            let t = row * base.dimensions.width + col;
            let wide = m.at().end.col - m.at().start.col + 1;
            let k = (row - m.at().start.row) * wide + (col - m.at().start.col);
            &&& r.y.len() == base.y.len()
            &&& m.at().start.row <= row <= m.at().end.row && m.at().start.col <= col
                <= m.at().end.col && k < m.missed().y@.len() ==> restored_as(
                restore,
                Plane::Luma,
                predicted(
                    Point { row: row as usize, col: col as usize },
                    m.from(),
                    base.dimensions,
                    backward_ref.y,
                    base.y,
                ),
                m.missed().y@[k],
                r.y[t],
            )
            &&& !(m.at().start.row <= row <= m.at().end.row && m.at().start.col <= col
                <= m.at().end.col && k < m.missed().y@.len()) ==> r.y[t] == base.y[t]
        }),
{
    let base = base_of(forward_ref, backward_ref);
    let width = base.dimensions.width as int;
    let location = m.at();
    let t = row * width + col;
    let wide = location.end.col - location.start.col + 1;
    let k = (row - location.start.row) * wide + (col - location.start.col);
    let values = choose|values: Seq<Seq<Block<i16>>>|
        {
            &&& values.len() == seq![m].len()
            &&& r.y == #[trigger] all_laid(base.y, locations_of(seq![m]), width, values)
            &&& forall|j: int|
                0 <= j < seq![m].len() ==> super::assembly::is_luma(
                    restore,
                    seq![m][j].at(),
                    seq![m][j].from(),
                    seq![m][j].missed().y@,
                    base.dimensions,
                    backward_ref.y,
                    base.y,
                    base.y.len(),
                    #[trigger] values[j],
                )
        };
    assert(seq![m][0] == m);
    let laid_down = values[0];
    assert(values.last() == laid_down);
    reveal_with_fuel(all_laid, 2);
    assert(r.y == laid(base.y, location, width, laid_down));
    lemma_laid_len(base.y, location, width, laid_down);
    lemma_place(row, col, width);
    if location.start.row <= row <= location.end.row && location.start.col <= col
        <= location.end.col && k < m.missed().y@.len() {
        lemma_place_number(location, row, col);
        lemma_laid_there(base.y, location, width, laid_down, k);
        assert(place_at(location, k) == (Point { row: row as usize, col: col as usize }));
        assert(index_at(location, width, k) == t);
        assert(restored_as(
            restore,
            Plane::Luma,
            predicted(place_at(location, k), m.from(), base.dimensions, backward_ref.y, base.y),
            m.missed().y@[k],
            laid_down[k],
        ));
    } else {
        assert forall|i: int| 0 <= i < laid_down.len() implies #[trigger] index_at(
            location,
            width,
            i,
        ) != t by {
            lemma_place_at(location, i);
            let place = place_at(location, i);
            lemma_place(place.row as int, place.col as int, width);
            if index_at(location, width, i) == t {
                assert(place.row == row && place.col == col);
                assert(i == k);
            }
        }
        lemma_laid_elsewhere(base.y, location, width, laid_down, t);
    }
}

/// Where all of a location lies in a plane, every place counts.
proof fn lemma_rank_of_inner(location: BlockLocation, width: int, len: nat, k: int)
    requires
        location.end.col < width,
        location.end.row * width + location.end.col < len,
        0 <= k <= count(location),
    ensures
        rank(location, width, len, k) == k,
    decreases k,
{
    if k > 0 {
        lemma_rank_of_inner(location, width, len, k - 1);
        lemma_index_of_inner(location, width, len, k - 1);
    }
}

proof fn lemma_index_of_inner(location: BlockLocation, width: int, len: nat, k: int)
    requires
        location.end.col < width,
        location.end.row * width + location.end.col < len,
        0 <= k < count(location),
    ensures
        0 <= index_at(location, width, k) < len,
{
    lemma_place_at(location, k);
    let place = place_at(location, k);
    assert(0 <= place.row * width <= location.end.row * width) by (nonlinear_arith)
        requires
            0 <= place.row <= location.end.row,
            0 <= width,
    ;
}

proof fn lemma_one_chroma_plane<
    M: AssemblableMacroBlock,
    F: Fn(Plane, &Block<i16>, &Block<i16>) -> Block<i16>,
>(
    restore: F,
    base: Picture<i16>,
    base_plane: Seq<Block<i16>>,
    backward: Seq<Block<i16>>,
    forward: Seq<Block<i16>>,
    m: M,
    residuals: spec_fn(M) -> Seq<Block<i16>>,
    plane: Seq<Block<i16>>,
    row: int,
    col: int,
)
    requires
        is_assembled_chroma(
            restore,
            base,
            base_plane,
            backward,
            forward,
            seq![m],
            residuals,
            plane,
        ),
        ({
            let width = base.dimensions.subsampled(base.subsampling).width as int;
            let location = m.at().mapped_to_chroma(base.subsampling);
            &&& location.end.col < width
            &&& location.end.row * width + location.end.col < base_plane.len()
            &&& 0 <= row
            &&& 0 <= col < width
            &&& row * width + col < base_plane.len()
        }),
    ensures
        ({
            let dimensions = base.dimensions.subsampled(base.subsampling);
            let location = m.at().mapped_to_chroma(base.subsampling);
            let t = row * dimensions.width + col;
            let wide = location.end.col - location.start.col + 1;
            let k = (row - location.start.row) * wide + (col - location.start.col);
            let from = predicted(
                Point { row: row as usize, col: col as usize },
                scaled(m.from(), base.subsampling),
                dimensions,
                backward,
                forward,
            );
            &&& plane.len() == base_plane.len()
            &&& location.start.row <= row <= location.end.row && location.start.col <= col
                <= location.end.col ==> if k < pairs(m) {
                restored_as(restore, Plane::Chroma, from, residuals(m)[k], plane[t])
            } else {
                plane[t]@ == from
            }
            &&& !(location.start.row <= row <= location.end.row && location.start.col <= col
                <= location.end.col) ==> plane[t] == base_plane[t]
        }),
{
    let dimensions = base.dimensions.subsampled(base.subsampling);
    let width = dimensions.width as int;
    let location = m.at().mapped_to_chroma(base.subsampling);
    let t = row * width + col;
    let wide = location.end.col - location.start.col + 1;
    let k = (row - location.start.row) * wide + (col - location.start.col);
    let values = choose|values: Seq<Seq<Block<i16>>>|
        {
            &&& values.len() == seq![m].len()
            &&& plane == #[trigger] all_laid(
                base_plane,
                chroma_locations_of(seq![m], base.subsampling),
                width,
                values,
            )
            &&& forall|j: int|
                0 <= j < seq![m].len() ==> {
                    let location = seq![m][j].at().mapped_to_chroma(base.subsampling);
                    &&& (#[trigger] values[j]).len() == count(location)
                    &&& super::assembly::is_chroma(
                        restore,
                        location,
                        scaled(seq![m][j].from(), base.subsampling),
                        residuals(seq![m][j]),
                        pairs(seq![m][j]),
                        dimensions,
                        backward,
                        forward,
                        base_plane.len(),
                        values[j],
                    )
                }
        };
    assert(seq![m][0] == m);
    let laid_down = values[0];
    assert(values.last() == laid_down);
    reveal_with_fuel(all_laid, 2);
    assert(plane == laid(base_plane, location, width, laid_down));
    lemma_laid_len(base_plane, location, width, laid_down);
    lemma_place(row, col, width);
    if location.start.row <= row <= location.end.row && location.start.col <= col
        <= location.end.col {
        lemma_place_number(location, row, col);
        lemma_laid_there(base_plane, location, width, laid_down, k);
        assert(place_at(location, k) == (Point { row: row as usize, col: col as usize }));
        assert(index_at(location, width, k) == t);
        lemma_rank_of_inner(location, width, base_plane.len(), k);
        assert(laid_down[k] == plane[t]);
    } else {
        assert forall|i: int| 0 <= i < laid_down.len() implies #[trigger] index_at(
            location,
            width,
            i,
        ) != t by {
            lemma_place_at(location, i);
            let place = place_at(location, i);
            lemma_place(place.row as int, place.col as int, width);
        }
        lemma_laid_elsewhere(base_plane, location, width, laid_down, t);
    }
}

/// A frame that is put together of one macroblock has, at each chroma block of it, what is
/// restored of the prediction for that place and of the residual, counted row by row, and
/// the prediction itself where the residuals of the two channels have run out. All other
/// chroma blocks are as they were.
pub proof fn law_macroblock_restores_its_chroma<
    M: AssemblableMacroBlock,
    F: Fn(Plane, &Block<i16>, &Block<i16>) -> Block<i16>,
>(
    restore: F,
    forward_ref: Option<Picture<i16>>,
    backward_ref: Picture<i16>,
    m: M,
    r: Picture<i16>,
    row: int,
    col: int,
)
    requires
        is_assembled(restore, forward_ref, backward_ref, seq![m], r),
        ({
            let base = match forward_ref {
                Some(forward) => forward,
                None => backward_ref,
            };
            let width = base.dimensions.subsampled(base.subsampling).width as int;
            let location = m.at().mapped_to_chroma(base.subsampling);
            &&& base.cr.len() == base.cb.len()
            &&& location.end.col < width
            &&& location.end.row * width + location.end.col < base.cb.len()
            &&& 0 <= row
            &&& 0 <= col < width
            &&& row * width + col < base.cb.len()
        }),
    ensures
        ({
            let base = match forward_ref {
                Some(forward) => forward,
                None => backward_ref,
            };
            let dimensions = base.dimensions.subsampled(base.subsampling);
            let location = m.at().mapped_to_chroma(base.subsampling);
            let t = row * dimensions.width + col;
            let wide = location.end.col - location.start.col + 1;
            let k = (row - location.start.row) * wide + (col - location.start.col);
            let point = Point { row: row as usize, col: col as usize };
            let prediction = scaled(m.from(), base.subsampling);
            let cb = predicted(
                point,
                prediction,
                dimensions,
                backward_ref.cb,
                cb_of(forward_ref),
            );
            let cr = predicted(
                point,
                prediction,
                dimensions,
                backward_ref.cr,
                cr_of(forward_ref),
            );
            let inside = location.start.row <= row <= location.end.row && location.start.col
                <= col <= location.end.col;
            &&& r.cb.len() == base.cb.len()
            &&& r.cr.len() == base.cr.len()
            &&& inside && k < m.missed().cb@.len() && k < m.missed().cr@.len() ==> {
                &&& restored_as(restore, Plane::Chroma, cb, m.missed().cb@[k], r.cb[t])
                &&& restored_as(restore, Plane::Chroma, cr, m.missed().cr@[k], r.cr[t])
            }
            &&& inside && (k >= m.missed().cb@.len() || k >= m.missed().cr@.len())
                ==> r.cb[t]@ == cb && r.cr[t]@ == cr
            &&& !inside ==> r.cb[t] == base.cb[t] && r.cr[t] == base.cr[t]
        }),
{
    let base = base_of(forward_ref, backward_ref);
    let paired = paired_blocks(base);
    lemma_one_chroma_plane(
        restore,
        base,
        base.cb,
        backward_ref.cb,
        cb_of(forward_ref),
        m,
        |m: M| m.missed().cb@,
        r.cb,
        row,
        col,
    );
    assert(base.cr.take(paired) == base.cr);
    assert(r.cr.take(paired) == r.cr);
    lemma_one_chroma_plane(
        restore,
        base,
        base.cr,
        backward_ref.cr,
        cr_of(forward_ref),
        m,
        |m: M| m.missed().cr@,
        r.cr,
        row,
        col,
    );
}

} // verus!
