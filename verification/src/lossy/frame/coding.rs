//! Coding the areas of a frame, and what comes back of it.
use vstd::prelude::*;

use super::assembly::{
    base_of, chroma_locations_of, gives_back, index_at, is_assembled, is_assembled_chroma,
    is_chroma, is_luma_cover, law_luma_comes_back, lemma_all_laid_close, lemma_all_laid_len,
    locations_of, paired_blocks, pairs, rank, restored_as, all_laid, close_values,
};
use super::compression::{
    compressed, is_vector_grid, law_every_block_is_in_an_area, lemma_areas_inside, places,
};
use super::grid::{covered, covers, lemma_cell, lemma_row_and_col};
use super::macroblock::block_location::BlockLocation;
use super::macroblock::bmacro::Prediction;
use super::macroblock::{AssemblableMacroBlock, Residuals};
use super::prediction::{
    all_places, build_predicted_blocks, cb_of, chroma_place, cols, count, cr_of, difference,
    has_chroma_place, is_area, lemma_place_at, lemma_place_number, looks_ahead, luma_of, place_at,
    predicted, predicted_places, predictions, rows, scaled, Plane,
};
use super::residual::{
    calculate_residuals_for_macroblock, chroma_places, is_coded, is_residual, lemma_residual,
    missed_at,
};
use crate::block::{block_views, Block};
use crate::color::Subsampling;
use crate::dimensions::BlockDimensions;
use crate::lossy::{picture_of, Picture, SubSampleBlockGroupRef};
use crate::point::Point;

verus! {

/// The residuals of an area are what its prediction missed.
pub open spec fn is_area_residual<C: Fn(Plane, &Block<i16>) -> Block<i16>>(
    code: C,
    current: Picture<i16>,
    forward_ref: Option<Picture<i16>>,
    backward_ref: Picture<i16>,
    area: ((Prediction, i16), BlockLocation),
    r: Residuals<i16>,
) -> bool {
    let prediction = (area.0).0;
    let chroma = predicted_places(area.1, current.subsampling, count(area.1));
    let chroma_dims = current.dimensions.subsampled(current.subsampling);
    is_residual(
        code,
        area.1,
        current,
        predictions(
            all_places(area.1),
            prediction,
            current.dimensions,
            backward_ref.y,
            luma_of(forward_ref),
        ),
        predictions(
            chroma,
            scaled(prediction, current.subsampling),
            chroma_dims,
            backward_ref.cb,
            cb_of(forward_ref),
        ),
        predictions(
            chroma,
            scaled(prediction, current.subsampling),
            chroma_dims,
            backward_ref.cr,
            cr_of(forward_ref),
        ),
        r,
    )
}

/// The macroblock codes an area.
pub open spec fn is_coded_area<
    M: AssemblableMacroBlock,
    C: Fn(Plane, &Block<i16>) -> Block<i16>,
>(
    code: C,
    current: Picture<i16>,
    forward_ref: Option<Picture<i16>>,
    backward_ref: Picture<i16>,
    area: ((Prediction, i16), BlockLocation),
    m: M,
) -> bool {
    &&& m.at() == area.1
    &&& m.from() == (area.0).0
    &&& is_area_residual(code, current, forward_ref, backward_ref, area, m.missed())
}

/// The macroblocks code the areas that vectors make up, in order.
pub open spec fn are_coded_areas<
    M: AssemblableMacroBlock,
    C: Fn(Plane, &Block<i16>) -> Block<i16>,
>(
    code: C,
    current: Picture<i16>,
    forward_ref: Option<Picture<i16>>,
    backward_ref: Picture<i16>,
    mvs: Seq<Vec<(Prediction, i16)>>,
    r: Seq<M>,
) -> bool {
    let areas = compressed(current.dimensions, mvs, places(mvs));
    &&& r.len() == areas.len()
    &&& forall|j: int|
        0 <= j < r.len() ==> is_coded_area(
            code,
            current,
            forward_ref,
            backward_ref,
            areas[j],
            #[trigger] r[j],
        )
}

/// Predicts an area and codes what the prediction missed.
pub(crate) fn area_residuals<C: Fn(Plane, &Block<i16>) -> Block<i16>>(
    current: &SubSampleBlockGroupRef<'_, i16>,
    forward_ref: Option<&SubSampleBlockGroupRef<'_, i16>>,
    backward_ref: &SubSampleBlockGroupRef<'_, i16>,
    area: &((Prediction, i16), BlockLocation),
    code: &C,
) -> (r: Residuals<i16>)
    requires
        is_area(area.1),
        looks_ahead((area.0).0) ==> forward_ref is Some,
        forall|plane: Plane, b: Block<i16>| #[trigger] call_requires(*code, (plane, &b)),
    ensures
        is_area_residual(*code, current@, picture_of(forward_ref), backward_ref@, *area, r),
{
    let prediction = (area.0).0;
    let (y, cb, cr) = build_predicted_blocks(
        &area.1,
        &prediction,
        &current.dimensions,
        current.subsampling,
        forward_ref,
        backward_ref,
    );
    calculate_residuals_for_macroblock(
        &area.1,
        current,
        y.as_slice(),
        cb.as_slice(),
        cr.as_slice(),
        code,
    )
}

/// The planes of a frame have a block for every place.
pub open spec fn is_full(group: Picture<i16>) -> bool {
    let chroma = group.dimensions.subsampled(group.subsampling);
    &&& group.y.len() == group.dimensions.width * group.dimensions.height
    &&& group.cb.len() == chroma.width * chroma.height
    &&& group.cr.len() == chroma.width * chroma.height
}

/// As many blocks, all of them close.
pub open spec fn all_close(
    a: Seq<Block<i16>>,
    b: Seq<Block<i16>>,
    close: spec_fn(Seq<i16>, Seq<i16>) -> bool,
) -> bool {
    &&& a.len() == b.len()
    &&& forall|t: int| 0 <= t < a.len() ==> close(a[t]@, (#[trigger] b[t])@)
}

/// The macroblocks of a frame cover its luma plane.
proof fn lemma_covers_luma<M: AssemblableMacroBlock, C: Fn(Plane, &Block<i16>) -> Block<i16>>(
    code: C,
    current: Picture<i16>,
    forward_ref: Option<Picture<i16>>,
    backward_ref: Picture<i16>,
    mvs: Seq<Vec<(Prediction, i16)>>,
    macro_blocks: Seq<M>,
)
    requires
        is_vector_grid(mvs),
        mvs.len() == current.dimensions.height,
        mvs[0]@.len() == current.dimensions.width,
        are_coded_areas(code, current, forward_ref, backward_ref, mvs, macro_blocks),
    ensures
        is_luma_cover(code, current, backward_ref.y, luma_of(forward_ref), macro_blocks),
{
    let dimensions = current.dimensions;
    let areas = compressed(dimensions, mvs, places(mvs));
    assert forall|row: int, col: int|
        0 <= row < dimensions.height && 0 <= col < dimensions.width implies #[trigger] covered(
        locations_of(macro_blocks),
        row,
        col,
    ) by {
        law_every_block_is_in_an_area(dimensions, mvs, row, col);
        let j = choose|j: int| 0 <= j < areas.len() && covers((#[trigger] areas[j]).1, row, col);
        assert(is_coded_area(code, current, forward_ref, backward_ref, areas[j], macro_blocks[j]));
        assert(locations_of(macro_blocks)[j] == areas[j].1);
        assert(covers(locations_of(macro_blocks)[j], row, col));
    }
    assert forall|j: int| 0 <= j < macro_blocks.len() implies {
        let m = #[trigger] macro_blocks[j];
        &&& m.at().end.row < dimensions.height
        &&& m.at().end.col < dimensions.width
    } by {
        assert(is_coded_area(code, current, forward_ref, backward_ref, areas[j], macro_blocks[j]));
        lemma_areas_inside(dimensions, mvs, j, places(mvs));
    }
    assert forall|j: int| 0 <= j < macro_blocks.len() implies {
        let m = #[trigger] macro_blocks[j];
        exists|spatial: Seq<Block<i16>>|
            {
                &&& #[trigger] is_coded(code, Plane::Luma, spatial, m.missed().y@)
                &&& block_views(spatial) == missed_at(
                    all_places(m.at()),
                    current.dimensions.width as int,
                    current.y,
                    predictions(
                        all_places(m.at()),
                        m.from(),
                        current.dimensions,
                        backward_ref.y,
                        luma_of(forward_ref),
                    ),
                )
            }
    } by {
        let m = macro_blocks[j];
        assert(is_coded_area(code, current, forward_ref, backward_ref, areas[j], m));
        let spatial = lemma_area_spatial(code, current, forward_ref, backward_ref, areas[j], m);
        assert(is_coded(code, Plane::Luma, spatial.0, m.missed().y@));
    }
}

/// What the prediction of a coded area missed.
proof fn lemma_area_spatial<M: AssemblableMacroBlock, C: Fn(Plane, &Block<i16>) -> Block<i16>>(
    code: C,
    current: Picture<i16>,
    forward_ref: Option<Picture<i16>>,
    backward_ref: Picture<i16>,
    area: ((Prediction, i16), BlockLocation),
    m: M,
) -> (spatial: (Seq<Block<i16>>, Seq<Block<i16>>, Seq<Block<i16>>))
    requires
        is_coded_area(code, current, forward_ref, backward_ref, area, m),
    ensures
        is_coded(code, Plane::Luma, spatial.0, m.missed().y@),
        is_coded(code, Plane::Chroma, spatial.1, m.missed().cb@),
        is_coded(code, Plane::Chroma, spatial.2, m.missed().cr@),
        ({
            let subsampling = current.subsampling;
            let chroma_dims = current.dimensions.subsampled(subsampling);
            let from = predicted_places(area.1, subsampling, count(area.1));
            let to = chroma_places(area.1, subsampling, chroma_dims, count(area.1));
            &&& block_views(spatial.0) == missed_at(
                all_places(area.1),
                current.dimensions.width as int,
                current.y,
                predictions(
                    all_places(area.1),
                    m.from(),
                    current.dimensions,
                    backward_ref.y,
                    luma_of(forward_ref),
                ),
            )
            &&& block_views(spatial.1) == missed_at(
                to,
                chroma_dims.width as int,
                current.cb,
                predictions(
                    from,
                    scaled(m.from(), subsampling),
                    chroma_dims,
                    backward_ref.cb,
                    cb_of(forward_ref),
                ),
            )
            &&& block_views(spatial.2) == missed_at(
                to,
                chroma_dims.width as int,
                current.cr,
                predictions(
                    from,
                    scaled(m.from(), subsampling),
                    chroma_dims,
                    backward_ref.cr,
                    cr_of(forward_ref),
                ),
            )
        }),
{
    let prediction = (area.0).0;
    let chroma = predicted_places(area.1, current.subsampling, count(area.1));
    let chroma_dims = current.dimensions.subsampled(current.subsampling);
    lemma_residual(
        code,
        area.1,
        current,
        predictions(
            all_places(area.1),
            prediction,
            current.dimensions,
            backward_ref.y,
            luma_of(forward_ref),
        ),
        predictions(
            chroma,
            scaled(prediction, current.subsampling),
            chroma_dims,
            backward_ref.cb,
            cb_of(forward_ref),
        ),
        predictions(
            chroma,
            scaled(prediction, current.subsampling),
            chroma_dims,
            backward_ref.cr,
            cr_of(forward_ref),
        ),
        m.missed(),
    )
}

/// A location of at most two rows and two columns in a grid.
spec fn is_small(location: BlockLocation, dimensions: BlockDimensions) -> bool {
    &&& location.start.row <= location.end.row <= location.start.row + 1
    &&& location.start.col <= location.end.col <= location.start.col + 1
    &&& location.end.row < dimensions.height
    &&& location.end.col < dimensions.width
}

/// One place more.
proof fn lemma_has_chroma_place(
    location: BlockLocation,
    subsampling: Subsampling,
    n: int,
    place: Point,
)
    requires
        0 <= n,
    ensures
        has_chroma_place(location, subsampling, n + 1, place) == (has_chroma_place(
            location,
            subsampling,
            n,
            place,
        ) || chroma_place(location, subsampling, n) == place),
{
    if has_chroma_place(location, subsampling, n, place) {
        let m = choose|m: int|
            0 <= m < n && #[trigger] chroma_place(location, subsampling, m) == place;
        assert(chroma_place(location, subsampling, m) == place);
    }
    if chroma_place(location, subsampling, n) == place {
        assert(has_chroma_place(location, subsampling, n + 1, place));
    }
}

/// Small numbers over one and over two.
proof fn lemma_one_or_two(by: int)
    by (nonlinear_arith)
    requires
        by == 1 || by == 2,
    ensures
        0int / by == 0 && 0int % by == 0,
        by == 1 ==> 1int / by == 1 && 1int % by == 0,
        by == 2 ==> 1int / by == 0 && 1int % by == 1,
        by == 2 ==> 2int / by == 1 && 2int % by == 0,
        by == 2 ==> 3int / by == 1 && 3int % by == 1,
{
}

/// Chroma places that all lie in the grid are all predicted.
proof fn lemma_all_predicted(
    location: BlockLocation,
    dimensions: BlockDimensions,
    subsampling: Subsampling,
    n: int,
)
    requires
        is_small(location, dimensions),
        0 <= n <= count(location),
    ensures
        predicted_places(location, subsampling, n) == chroma_places(
            location,
            subsampling,
            dimensions.subsampled(subsampling),
            n,
        ),
    decreases n,
{
    if n > 0 {
        lemma_all_predicted(location, dimensions, subsampling, n - 1);
        lemma_place_at(location, n - 1);
    }
}

/// The chroma places of a small location are all predicted, all coded, and all
/// put back, in the same order.
#[verifier::rlimit(60)]
proof fn lemma_small_chroma(
    location: BlockLocation,
    dimensions: BlockDimensions,
    half: Subsampling,
)
    requires
        is_small(location, dimensions),
        half != Subsampling::Sample411,
    ensures
        ({
            let chroma = location.mapped_to_chroma(half);
            &&& predicted_places(location, half, count(location)) == all_places(chroma)
            &&& chroma_places(location, half, dimensions.subsampled(half), count(location))
                == all_places(chroma)
            &&& chroma.end.row < dimensions.subsampled(half).height
            &&& chroma.end.col < dimensions.subsampled(half).width
        }),
{
    let chroma = location.mapped_to_chroma(half);
    let chroma_dims = dimensions.subsampled(half);
    let high = rows(location);
    let wide = cols(location);
    let n = count(location);
    assert(n == (if high == 1 {
        wide
    } else {
        2 * wide
    })) by (nonlinear_arith)
        requires
            n == high * wide,
            high == 1 || high == 2,
    ;
    lemma_all_predicted(location, dimensions, half, n);
    assert(chroma.end.row < chroma_dims.height && chroma.end.col < chroma_dims.width);
    reveal_with_fuel(chroma_places, 5);
    let p0 = chroma_place(location, half, 0);
    let p1 = chroma_place(location, half, 1);
    let p2 = chroma_place(location, half, 2);
    let p3 = chroma_place(location, half, 3);
    assert(!has_chroma_place(location, half, 0, p0));
    assert(!has_chroma_place(location, half, 0, p1));
    assert(!has_chroma_place(location, half, 0, p2));
    assert(!has_chroma_place(location, half, 0, p3));
    lemma_has_chroma_place(location, half, 0, p1);
    lemma_has_chroma_place(location, half, 0, p2);
    lemma_has_chroma_place(location, half, 1, p2);
    lemma_has_chroma_place(location, half, 0, p3);
    lemma_has_chroma_place(location, half, 1, p3);
    lemma_has_chroma_place(location, half, 2, p3);
    lemma_place_at(location, 0);
    let chroma_high = rows(chroma);
    let chroma_wide = cols(chroma);
    let m = count(chroma);
    assert(m == (if chroma_high == 1 {
        chroma_wide
    } else {
        2 * chroma_wide
    })) by (nonlinear_arith)
        requires
            m == chroma_high * chroma_wide,
            chroma_high == 1 || chroma_high == 2,
    ;
    lemma_place_at(chroma, 0);
    if n > 1 {
        lemma_place_at(location, 1);
    }
    if n > 2 {
        lemma_place_at(location, 2);
        lemma_place_at(location, 3);
    }
    if m > 1 {
        lemma_place_at(chroma, 1);
    }
    if m > 2 {
        lemma_place_at(chroma, 2);
        lemma_place_at(chroma, 3);
    }
    let found = chroma_places(location, half, chroma_dims, n);
    let all = all_places(chroma);
    lemma_one_or_two(wide);
    lemma_one_or_two(chroma_wide);
    match half {
        Subsampling::Sample444 => {
            assert(found.len() == all.len());
            assert(found =~= all);
        },
        Subsampling::Sample422 => {
            assert(found.len() == all.len());
            assert(found =~= all);
        },
        _ => {
            assert(found.len() == all.len());
            assert(found =~= all);
        },
    }
}

/// The residuals of one plane are what the predictions at all places of a
/// location missed.
spec fn is_plane_coded<C: Fn(Plane, &Block<i16>) -> Block<i16>>(
    code: C,
    location: BlockLocation,
    prediction: Prediction,
    dimensions: BlockDimensions,
    current: Seq<Block<i16>>,
    backward: Seq<Block<i16>>,
    forward: Seq<Block<i16>>,
    residuals: Seq<Block<i16>>,
) -> bool {
    exists|spatial: Seq<Block<i16>>|
        {
            &&& #[trigger] is_coded(code, Plane::Chroma, spatial, residuals)
            &&& block_views(spatial) == missed_at(
                all_places(location),
                dimensions.width as int,
                current,
                predictions(all_places(location), prediction, dimensions, backward, forward),
            )
        }
}

/// Where all places lie in the grid, their rank is their number.
proof fn lemma_rank(location: BlockLocation, dimensions: BlockDimensions, k: int)
    requires
        location.end.row < dimensions.height,
        location.end.col < dimensions.width,
        0 <= k <= count(location),
    ensures
        rank(
            location,
            dimensions.width as int,
            (dimensions.width * dimensions.height) as nat,
            k,
        ) == k,
    decreases k,
{
    if k > 0 {
        lemma_rank(location, dimensions, k - 1);
        lemma_place_at(location, k - 1);
        lemma_cell(
            dimensions,
            place_at(location, k - 1).row as int,
            place_at(location, k - 1).col as int,
        );
        assert(0 <= dimensions.width * dimensions.height) by (nonlinear_arith)
            requires
                0 <= dimensions.width,
                0 <= dimensions.height,
        ;
    }
}

/// A chroma plane comes back as close as the transform gives back blocks.
proof fn lemma_plane_comes_back<
    M: AssemblableMacroBlock,
    C: Fn(Plane, &Block<i16>) -> Block<i16>,
    F: Fn(Plane, &Block<i16>, &Block<i16>) -> Block<i16>,
>(
    code: C,
    restore: F,
    base: Picture<i16>,
    base_plane: Seq<Block<i16>>,
    backward: Seq<Block<i16>>,
    forward: Seq<Block<i16>>,
    current: Seq<Block<i16>>,
    macro_blocks: Seq<M>,
    residuals: spec_fn(M) -> Seq<Block<i16>>,
    plane: Seq<Block<i16>>,
    close: spec_fn(Seq<i16>, Seq<i16>) -> bool,
)
    requires
        base.subsampling != Subsampling::Sample411,
        ({
            let chroma = base.dimensions.subsampled(base.subsampling);
            &&& base_plane.len() == chroma.width * chroma.height
            &&& current.len() == base_plane.len()
            &&& forall|j: int|
                0 <= j < macro_blocks.len() ==> {
                    let m = #[trigger] macro_blocks[j];
                    let location = m.at().mapped_to_chroma(base.subsampling);
                    &&& is_small(m.at(), base.dimensions)
                    &&& pairs(m) == count(location)
                    &&& is_plane_coded(
                        code,
                        location,
                        scaled(m.from(), base.subsampling),
                        chroma,
                        current,
                        backward,
                        forward,
                        residuals(m),
                    )
                }
        }),
        forall|row: int, col: int|
            0 <= row < base.dimensions.height && 0 <= col < base.dimensions.width
                ==> #[trigger] covered(locations_of(macro_blocks), row, col),
        is_assembled_chroma(
            restore,
            base,
            base_plane,
            backward,
            forward,
            macro_blocks,
            residuals,
            plane,
        ),
        gives_back(code, restore, Plane::Chroma, close),
    ensures
        all_close(current, plane, close),
{
    let half = base.subsampling;
    let dimensions = base.dimensions.subsampled(half);
    let width = dimensions.width as int;
    let locations = chroma_locations_of(macro_blocks, half);
    let values = choose|values: Seq<Seq<Block<i16>>>|
        {
            &&& values.len() == macro_blocks.len()
            &&& plane == #[trigger] all_laid(base_plane, locations, width, values)
            &&& forall|j: int|
                0 <= j < macro_blocks.len() ==> {
                    let location = macro_blocks[j].at().mapped_to_chroma(base.subsampling);
                    &&& (#[trigger] values[j]).len() == count(location)
                    &&& is_chroma(
                        restore,
                        location,
                        scaled(macro_blocks[j].from(), base.subsampling),
                        residuals(macro_blocks[j]),
                        pairs(macro_blocks[j]),
                        dimensions,
                        backward,
                        forward,
                        base_plane.len(),
                        values[j],
                    )
                }
        };
    lemma_all_laid_len(base_plane, locations, width, values);
    assert forall|j: int| 0 <= j < values.len() implies (#[trigger] locations[j]).end.row
        < dimensions.height && locations[j].end.col < dimensions.width by {
        let m = macro_blocks[j];
        lemma_small_chroma(m.at(), base.dimensions, half);
    }
    assert forall|j: int| 0 <= j < values.len() implies (#[trigger] values[j]).len() == count(
        locations[j],
    ) && close_values(locations[j], width, values[j], current, close) by {
        let m = macro_blocks[j];
        let location = locations[j];
        lemma_small_chroma(m.at(), base.dimensions, half);
        let from = scaled(m.from(), half);
        let spatial = choose|spatial: Seq<Block<i16>>|
            {
                &&& #[trigger] is_coded(code, Plane::Chroma, spatial, residuals(m))
                &&& block_views(spatial) == missed_at(
                    all_places(location),
                    width,
                    current,
                    predictions(all_places(location), from, dimensions, backward, forward),
                )
            };
        assert(block_views(spatial).len() == count(location));
        assert forall|k: int| 0 <= k < values[j].len() implies close(
            current[index_at(location, width, k)]@,
            (#[trigger] values[j][k])@,
        ) by {
            lemma_place_at(location, k);
            lemma_rank(location, dimensions, k);
            let place = place_at(location, k);
            lemma_cell(dimensions, place.row as int, place.col as int);
            let at = index_at(location, width, k);
            let guess = predicted(place, from, dimensions, backward, forward);
            assert(restored_as(restore, Plane::Chroma, guess, residuals(m)[k], values[j][k]));
            let p = choose|p: Block<i16>|
                p@ == guess && #[trigger] call_ensures(
                    restore,
                    (Plane::Chroma, &p, &residuals(m)[k]),
                    values[j][k],
                );
            assert(block_views(spatial)[k] == spatial[k]@);
            assert(spatial[k]@ == difference(current[at]@, p@));
            assert(call_ensures(code, (Plane::Chroma, &spatial[k]), residuals(m)[k]));
        }
    }
    lemma_all_laid_close(base_plane, locations, dimensions, values, current, close);
    assert forall|t: int| 0 <= t < current.len() implies close(
        current[t]@,
        (#[trigger] plane[t])@,
    ) by {
        lemma_row_and_col(dimensions, t);
        let row = t / width;
        let col = t % width;
        let luma = locations_of(macro_blocks);
        let luma_row = if half == Subsampling::Sample420 {
            2 * row
        } else {
            row
        };
        let luma_col = if half == Subsampling::Sample444 {
            col
        } else {
            2 * col
        };
        assert(covered(luma, luma_row, luma_col));
        let j = choose|j: int|
            0 <= j < luma.len() && covers(#[trigger] luma[j], luma_row, luma_col);
        assert(covers(locations[j], row, col)) by {
            assert(luma[j] == macro_blocks[j].at());
        }
        lemma_place_number(locations[j], row, col);
        let k = (row - locations[j].start.row) * cols(locations[j]) + (col
            - locations[j].start.col);
        assert(index_at(locations[j], width, k) == t);
        assert(values[j].len() == count(locations[j]));
    }
}

/// A frame that is coded area by area and put together again comes back, block
/// by block, as close as the transform gives back single blocks: all luma
/// blocks, and all chroma blocks, unless the chroma planes have a quarter of the
/// columns, where areas code only half of the chroma rows.
pub proof fn law_frame_comes_back<
    M: AssemblableMacroBlock,
    C: Fn(Plane, &Block<i16>) -> Block<i16>,
    F: Fn(Plane, &Block<i16>, &Block<i16>) -> Block<i16>,
>(
    code: C,
    restore: F,
    current: Picture<i16>,
    forward_ref: Option<Picture<i16>>,
    backward_ref: Picture<i16>,
    mvs: Seq<Vec<(Prediction, i16)>>,
    macro_blocks: Seq<M>,
    r: Picture<i16>,
    close: spec_fn(Seq<i16>, Seq<i16>) -> bool,
)
    requires
        is_vector_grid(mvs),
        mvs.len() == current.dimensions.height,
        mvs[0]@.len() == current.dimensions.width,
        is_full(current),
        is_full(base_of(forward_ref, backward_ref)),
        base_of(forward_ref, backward_ref).dimensions == current.dimensions,
        base_of(forward_ref, backward_ref).subsampling == current.subsampling,
        forall|j: int|
            0 <= j < macro_blocks.len() && looks_ahead((#[trigger] macro_blocks[j]).from())
                ==> forward_ref is Some,
        are_coded_areas(code, current, forward_ref, backward_ref, mvs, macro_blocks),
        is_assembled(restore, forward_ref, backward_ref, macro_blocks, r),
        gives_back(code, restore, Plane::Luma, close),
        gives_back(code, restore, Plane::Chroma, close),
    ensures
        all_close(current.y, r.y, close),
        current.subsampling != Subsampling::Sample411 ==> all_close(current.cb, r.cb, close)
            && all_close(current.cr, r.cr, close),
{
    lemma_covers_luma(code, current, forward_ref, backward_ref, mvs, macro_blocks);
    law_luma_comes_back(
        code,
        restore,
        current,
        forward_ref,
        backward_ref,
        macro_blocks,
        r,
        close,
    );
    if current.subsampling != Subsampling::Sample411 {
        let half = current.subsampling;
        let base = base_of(forward_ref, backward_ref);
        let chroma = base.dimensions.subsampled(half);
        assert(base.cr.take(paired_blocks(base)) =~= base.cr);
        assert(r.cr.take(paired_blocks(base)) =~= r.cr);
        let areas = compressed(current.dimensions, mvs, places(mvs));
        assert forall|j: int| 0 <= j < macro_blocks.len() implies {
            let m = #[trigger] macro_blocks[j];
            let location = m.at().mapped_to_chroma(base.subsampling);
            &&& is_small(m.at(), base.dimensions)
            &&& pairs(m) == count(location)
            &&& is_plane_coded(
                code,
                location,
                scaled(m.from(), half),
                chroma,
                current.cb,
                backward_ref.cb,
                cb_of(forward_ref),
                m.missed().cb@,
            )
            &&& is_plane_coded(
                code,
                location,
                scaled(m.from(), half),
                chroma,
                current.cr,
                backward_ref.cr,
                cr_of(forward_ref),
                m.missed().cr@,
            )
        } by {
            let m = macro_blocks[j];
            let location = m.at().mapped_to_chroma(half);
            assert(is_coded_area(code, current, forward_ref, backward_ref, areas[j], m));
            lemma_areas_inside(current.dimensions, mvs, j, places(mvs));
            lemma_small_chroma(m.at(), base.dimensions, half);
            let spatial = lemma_area_spatial(
                code,
                current,
                forward_ref,
                backward_ref,
                areas[j],
                m,
            );
            assert(count(location) >= 0) by {
                lemma_place_number(
                    location,
                    location.start.row as int,
                    location.start.col as int,
                );
            }
            assert(block_views(spatial.1).len() == count(location));
            assert(block_views(spatial.2).len() == count(location));
            assert(is_coded(code, Plane::Chroma, spatial.1, m.missed().cb@));
            assert(is_coded(code, Plane::Chroma, spatial.2, m.missed().cr@));
        }
        lemma_plane_comes_back(
            code,
            restore,
            base,
            base.cb,
            backward_ref.cb,
            cb_of(forward_ref),
            current.cb,
            macro_blocks,
            |m: M| m.missed().cb@,
            r.cb,
            close,
        );
        lemma_plane_comes_back(
            code,
            restore,
            base,
            base.cr,
            backward_ref.cr,
            cr_of(forward_ref),
            current.cr,
            macro_blocks,
            |m: M| m.missed().cr@,
            r.cr,
            close,
        );
    }
}

} // verus!
