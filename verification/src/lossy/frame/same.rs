//! Frames that are put together from the same macroblocks are the same.
use vstd::prelude::*;

use super::assembly::{
    all_laid, base_of, chroma_locations_of, index_at, is_assembled, is_assembled_chroma,
    is_assembled_luma, is_chroma, is_luma, laid, lemma_all_laid_len, lemma_laid_len, locations_of,
    paired_blocks, pairs, rank, restored_as,
};
use super::macroblock::block_location::BlockLocation;
use super::macroblock::bmacro::Prediction;
use super::macroblock::AssemblableMacroBlock;
use super::prediction::{cb_of, count, cr_of, place_at, predicted, scaled, Plane};
use crate::block::{block_views, lemma_same_block, Block};
use crate::color::Subsampling;
use crate::dimensions::BlockDimensions;
use crate::lossy::Picture;

verus! {

/// Taking a prediction and a residual back always gives the same block.
pub open spec fn is_steady<F: Fn(Plane, &Block<i16>, &Block<i16>) -> Block<i16>>(
    restore: F,
) -> bool {
    forall|plane: Plane, p: Block<i16>, b: Block<i16>, r: Block<i16>, s: Block<i16>| #[trigger]
        call_ensures(restore, (plane, &p, &b), r) && #[trigger] call_ensures(
            restore,
            (plane, &p, &b),
            s,
        ) ==> r == s
}

/// Lists of blocks with the same samples are the same.
pub proof fn lemma_same_blocks<T>(a: Seq<Block<T>>, b: Seq<Block<T>>)
    requires
        block_views(a) == block_views(b),
    ensures
        a == b,
{
    assert(block_views(a).len() == a.len() && block_views(b).len() == b.len());
    assert forall|i: int| 0 <= i < a.len() implies a[i] == b[i] by {
        assert(block_views(a)[i] == block_views(b)[i]);
        lemma_same_block(a[i], b[i]);
    }
    assert(a =~= b);
}

/// Values that lie in a grid of `len` blocks are the same.
spec fn are_same_values(
    location: BlockLocation,
    width: int,
    len: nat,
    a: Seq<Block<i16>>,
    b: Seq<Block<i16>>,
) -> bool {
    &&& a.len() == b.len()
    &&& forall|k: int|
        0 <= k < a.len() && index_at(location, width, k) < len ==> #[trigger] a[k] == b[k]
}

proof fn lemma_laid_same(
    blocks: Seq<Block<i16>>,
    location: BlockLocation,
    width: int,
    a: Seq<Block<i16>>,
    b: Seq<Block<i16>>,
)
    requires
        0 <= width,
        are_same_values(location, width, blocks.len(), a, b),
    ensures
        laid(blocks, location, width, a) == laid(blocks, location, width, b),
    decreases a.len(),
{
    if a.len() > 0 {
        lemma_laid_same(blocks, location, width, a.drop_last(), b.drop_last());
        lemma_laid_len(blocks, location, width, a.drop_last());
        assert(index_at(location, width, a.len() - 1) < blocks.len() ==> a[a.len() - 1] == b[a.len()
            - 1]);
    }
}

proof fn lemma_all_laid_same(
    blocks: Seq<Block<i16>>,
    locations: Seq<BlockLocation>,
    width: int,
    a: Seq<Seq<Block<i16>>>,
    b: Seq<Seq<Block<i16>>>,
)
    requires
        0 <= width,
        a.len() == b.len(),
        forall|j: int|
            0 <= j < a.len() ==> are_same_values(
                locations[j],
                width,
                blocks.len(),
                #[trigger] a[j],
                b[j],
            ),
    ensures
        all_laid(blocks, locations, width, a) == all_laid(blocks, locations, width, b),
    decreases a.len(),
{
    if a.len() > 0 {
        let before = a.drop_last();
        assert forall|j: int| 0 <= j < before.len() implies are_same_values(
            locations[j],
            width,
            blocks.len(),
            #[trigger] before[j],
            b.drop_last()[j],
        ) by {
            assert(before[j] == a[j]);
        }
        lemma_all_laid_same(blocks, locations, width, before, b.drop_last());
        lemma_all_laid_len(blocks, locations, width, before);
        assert(are_same_values(
            locations[a.len() - 1],
            width,
            blocks.len(),
            a[a.len() - 1],
            b[a.len() - 1],
        ));
        lemma_laid_same(
            all_laid(blocks, locations, width, before),
            locations[a.len() - 1],
            width,
            a.last(),
            b.last(),
        );
    }
}

proof fn lemma_restored_same<F: Fn(Plane, &Block<i16>, &Block<i16>) -> Block<i16>>(
    restore: F,
    plane: Plane,
    prediction: Seq<i16>,
    residual: Block<i16>,
    r: Block<i16>,
    s: Block<i16>,
)
    requires
        is_steady(restore),
        restored_as(restore, plane, prediction, residual, r),
        restored_as(restore, plane, prediction, residual, s),
    ensures
        r == s,
{
    let p = choose|p: Block<i16>|
        p@ == prediction && #[trigger] call_ensures(restore, (plane, &p, &residual), r);
    let q = choose|p: Block<i16>|
        p@ == prediction && #[trigger] call_ensures(restore, (plane, &p, &residual), s);
    lemma_same_block(p, q);
    assert(call_ensures(restore, (plane, &p, &residual), s));
}

proof fn lemma_luma_same<F: Fn(Plane, &Block<i16>, &Block<i16>) -> Block<i16>>(
    restore: F,
    location: BlockLocation,
    prediction: Prediction,
    residuals: Seq<Block<i16>>,
    dimensions: BlockDimensions,
    backward: Seq<Block<i16>>,
    forward: Seq<Block<i16>>,
    len: nat,
    a: Seq<Block<i16>>,
    b: Seq<Block<i16>>,
)
    requires
        is_steady(restore),
        is_luma(restore, location, prediction, residuals, dimensions, backward, forward, len, a),
        is_luma(restore, location, prediction, residuals, dimensions, backward, forward, len, b),
    ensures
        are_same_values(location, dimensions.width as int, len, a, b),
{
    assert forall|k: int|
        0 <= k < a.len() && index_at(location, dimensions.width as int, k)
            < len implies #[trigger] a[k] == b[k] by {
        let from = predicted(place_at(location, k), prediction, dimensions, backward, forward);
        assert(restored_as(restore, Plane::Luma, from, residuals[k], a[k]));
        assert(restored_as(restore, Plane::Luma, from, residuals[k], b[k]));
        lemma_restored_same(restore, Plane::Luma, from, residuals[k], a[k], b[k]);
    }
}

proof fn lemma_chroma_same<F: Fn(Plane, &Block<i16>, &Block<i16>) -> Block<i16>>(
    restore: F,
    location: BlockLocation,
    prediction: Prediction,
    residuals: Seq<Block<i16>>,
    available: int,
    dimensions: BlockDimensions,
    backward: Seq<Block<i16>>,
    forward: Seq<Block<i16>>,
    len: nat,
    a: Seq<Block<i16>>,
    b: Seq<Block<i16>>,
)
    requires
        is_steady(restore),
        a.len() == b.len(),
        is_chroma(
            restore,
            location,
            prediction,
            residuals,
            available,
            dimensions,
            backward,
            forward,
            len,
            a,
        ),
        is_chroma(
            restore,
            location,
            prediction,
            residuals,
            available,
            dimensions,
            backward,
            forward,
            len,
            b,
        ),
    ensures
        are_same_values(location, dimensions.width as int, len, a, b),
{
    let width = dimensions.width as int;
    assert forall|k: int|
        0 <= k < a.len() && index_at(location, width, k) < len implies #[trigger] a[k] == b[k] by {
        let from = predicted(place_at(location, k), prediction, dimensions, backward, forward);
        let number = rank(location, width, len, k);
        if number < available {
            assert(restored_as(restore, Plane::Chroma, from, residuals[number], a[k]));
            assert(restored_as(restore, Plane::Chroma, from, residuals[number], b[k]));
            lemma_restored_same(restore, Plane::Chroma, from, residuals[number], a[k], b[k]);
        } else {
            assert(a[k]@ == from);
            assert(b[k]@ == from);
            lemma_same_block(a[k], b[k]);
        }
    }
}

/// Macroblocks that say the same.
pub open spec fn is_same_macro<M: AssemblableMacroBlock>(a: M, b: M) -> bool {
    &&& a.at() == b.at()
    &&& a.from() == b.from()
    &&& a.missed().y@ == b.missed().y@
    &&& a.missed().cb@ == b.missed().cb@
    &&& a.missed().cr@ == b.missed().cr@
}

/// Lists of macroblocks that say the same.
pub open spec fn are_same_macros<M: AssemblableMacroBlock>(a: Seq<M>, b: Seq<M>) -> bool {
    &&& a.len() == b.len()
    &&& forall|j: int| 0 <= j < a.len() ==> is_same_macro(#[trigger] a[j], b[j])
}

proof fn lemma_same_locations<M: AssemblableMacroBlock>(a: Seq<M>, b: Seq<M>)
    requires
        are_same_macros(a, b),
    ensures
        locations_of(a) == locations_of(b),
        forall|s: Subsampling| #[trigger]
            chroma_locations_of(a, s) == chroma_locations_of(b, s),
{
    assert forall|j: int| 0 <= j < a.len() implies a[j].at() == b[j].at() by {
        assert(is_same_macro(a[j], b[j]));
    }
    assert(locations_of(a) =~= locations_of(b));
    assert forall|s: Subsampling| #[trigger]
        chroma_locations_of(a, s) == chroma_locations_of(b, s) by {
        assert(chroma_locations_of(a, s) =~= chroma_locations_of(b, s));
    }
}

proof fn lemma_luma_plane_moves<
    M: AssemblableMacroBlock,
    F: Fn(Plane, &Block<i16>, &Block<i16>) -> Block<i16>,
>(
    restore: F,
    base: Picture<i16>,
    backward: Seq<Block<i16>>,
    a: Seq<M>,
    b: Seq<M>,
    y: Seq<Block<i16>>,
)
    requires
        are_same_macros(a, b),
        is_assembled_luma(restore, base, backward, a, y),
    ensures
        is_assembled_luma(restore, base, backward, b, y),
{
    lemma_same_locations(a, b);
    let width = base.dimensions.width as int;
    let values = choose|values: Seq<Seq<Block<i16>>>|
        {
            &&& values.len() == a.len()
            &&& y == #[trigger] all_laid(base.y, locations_of(a), width, values)
            &&& forall|j: int|
                0 <= j < a.len() ==> is_luma(
                    restore,
                    a[j].at(),
                    a[j].from(),
                    a[j].missed().y@,
                    base.dimensions,
                    backward,
                    base.y,
                    base.y.len(),
                    #[trigger] values[j],
                )
        };
    assert forall|j: int| 0 <= j < b.len() implies is_luma(
        restore,
        b[j].at(),
        b[j].from(),
        b[j].missed().y@,
        base.dimensions,
        backward,
        base.y,
        base.y.len(),
        #[trigger] values[j],
    ) by {
        assert(is_same_macro(a[j], b[j]));
    }
    assert(y == all_laid(base.y, locations_of(b), width, values));
}

proof fn lemma_luma_plane_same<
    M: AssemblableMacroBlock,
    F: Fn(Plane, &Block<i16>, &Block<i16>) -> Block<i16>,
>(
    restore: F,
    base: Picture<i16>,
    backward: Seq<Block<i16>>,
    macro_blocks: Seq<M>,
    x: Seq<Block<i16>>,
    y: Seq<Block<i16>>,
)
    requires
        is_steady(restore),
        is_assembled_luma(restore, base, backward, macro_blocks, x),
        is_assembled_luma(restore, base, backward, macro_blocks, y),
    ensures
        x == y,
{
    let width = base.dimensions.width as int;
    let a = choose|values: Seq<Seq<Block<i16>>>|
        {
            &&& values.len() == macro_blocks.len()
            &&& x == #[trigger] all_laid(base.y, locations_of(macro_blocks), width, values)
            &&& forall|j: int|
                0 <= j < macro_blocks.len() ==> is_luma(
                    restore,
                    macro_blocks[j].at(),
                    macro_blocks[j].from(),
                    macro_blocks[j].missed().y@,
                    base.dimensions,
                    backward,
                    base.y,
                    base.y.len(),
                    #[trigger] values[j],
                )
        };
    let b = choose|values: Seq<Seq<Block<i16>>>|
        {
            &&& values.len() == macro_blocks.len()
            &&& y == #[trigger] all_laid(base.y, locations_of(macro_blocks), width, values)
            &&& forall|j: int|
                0 <= j < macro_blocks.len() ==> is_luma(
                    restore,
                    macro_blocks[j].at(),
                    macro_blocks[j].from(),
                    macro_blocks[j].missed().y@,
                    base.dimensions,
                    backward,
                    base.y,
                    base.y.len(),
                    #[trigger] values[j],
                )
        };
    assert forall|j: int| 0 <= j < a.len() implies are_same_values(
        locations_of(macro_blocks)[j],
        width,
        base.y.len(),
        #[trigger] a[j],
        b[j],
    ) by {
        let m = macro_blocks[j];
        lemma_luma_same(
            restore,
            m.at(),
            m.from(),
            m.missed().y@,
            base.dimensions,
            backward,
            base.y,
            base.y.len(),
            a[j],
            b[j],
        );
    }
    lemma_all_laid_same(base.y, locations_of(macro_blocks), width, a, b);
}

proof fn lemma_chroma_plane_moves<
    M: AssemblableMacroBlock,
    F: Fn(Plane, &Block<i16>, &Block<i16>) -> Block<i16>,
>(
    restore: F,
    base: Picture<i16>,
    base_plane: Seq<Block<i16>>,
    backward: Seq<Block<i16>>,
    forward: Seq<Block<i16>>,
    a: Seq<M>,
    b: Seq<M>,
    residuals: spec_fn(M) -> Seq<Block<i16>>,
    plane: Seq<Block<i16>>,
)
    requires
        are_same_macros(a, b),
        forall|j: int| 0 <= j < a.len() ==> residuals(#[trigger] a[j]) == residuals(b[j]),
        is_assembled_chroma(
            restore,
            base,
            base_plane,
            backward,
            forward,
            a,
            residuals,
            plane,
        ),
    ensures
        is_assembled_chroma(
            restore,
            base,
            base_plane,
            backward,
            forward,
            b,
            residuals,
            plane,
        ),
{
    lemma_same_locations(a, b);
    let half = base.subsampling;
    let dimensions = base.dimensions.subsampled(half);
    let width = dimensions.width as int;
    let values = choose|values: Seq<Seq<Block<i16>>>|
        {
            &&& values.len() == a.len()
            &&& plane == #[trigger] all_laid(
                base_plane,
                chroma_locations_of(a, half),
                width,
                values,
            )
            &&& forall|j: int|
                0 <= j < a.len() ==> {
                    let location = a[j].at().mapped_to_chroma(half);
                    &&& (#[trigger] values[j]).len() == count(location)
                    &&& is_chroma(
                        restore,
                        location,
                        scaled(a[j].from(), half),
                        residuals(a[j]),
                        pairs(a[j]),
                        dimensions,
                        backward,
                        forward,
                        base_plane.len(),
                        values[j],
                    )
                }
        };
    assert forall|j: int| 0 <= j < b.len() implies {
        let location = b[j].at().mapped_to_chroma(half);
        &&& (#[trigger] values[j]).len() == count(location)
        &&& is_chroma(
            restore,
            location,
            scaled(b[j].from(), half),
            residuals(b[j]),
            pairs(b[j]),
            dimensions,
            backward,
            forward,
            base_plane.len(),
            values[j],
        )
    } by {
        assert(is_same_macro(a[j], b[j]));
        assert(residuals(a[j]) == residuals(b[j]));
    }
    assert(plane == all_laid(base_plane, chroma_locations_of(b, half), width, values));
}

proof fn lemma_chroma_plane_same<
    M: AssemblableMacroBlock,
    F: Fn(Plane, &Block<i16>, &Block<i16>) -> Block<i16>,
>(
    restore: F,
    base: Picture<i16>,
    base_plane: Seq<Block<i16>>,
    backward: Seq<Block<i16>>,
    forward: Seq<Block<i16>>,
    macro_blocks: Seq<M>,
    residuals: spec_fn(M) -> Seq<Block<i16>>,
    x: Seq<Block<i16>>,
    y: Seq<Block<i16>>,
)
    requires
        is_steady(restore),
        is_assembled_chroma(
            restore,
            base,
            base_plane,
            backward,
            forward,
            macro_blocks,
            residuals,
            x,
        ),
        is_assembled_chroma(
            restore,
            base,
            base_plane,
            backward,
            forward,
            macro_blocks,
            residuals,
            y,
        ),
    ensures
        x == y,
{
    let half = base.subsampling;
    let dimensions = base.dimensions.subsampled(half);
    let width = dimensions.width as int;
    let locations = chroma_locations_of(macro_blocks, half);
    let a = choose|values: Seq<Seq<Block<i16>>>|
        {
            &&& values.len() == macro_blocks.len()
            &&& x == #[trigger] all_laid(base_plane, locations, width, values)
            &&& forall|j: int|
                0 <= j < macro_blocks.len() ==> {
                    let location = macro_blocks[j].at().mapped_to_chroma(half);
                    &&& (#[trigger] values[j]).len() == count(location)
                    &&& is_chroma(
                        restore,
                        location,
                        scaled(macro_blocks[j].from(), half),
                        residuals(macro_blocks[j]),
                        pairs(macro_blocks[j]),
                        dimensions,
                        backward,
                        forward,
                        base_plane.len(),
                        values[j],
                    )
                }
        };
    let b = choose|values: Seq<Seq<Block<i16>>>|
        {
            &&& values.len() == macro_blocks.len()
            &&& y == #[trigger] all_laid(base_plane, locations, width, values)
            &&& forall|j: int|
                0 <= j < macro_blocks.len() ==> {
                    let location = macro_blocks[j].at().mapped_to_chroma(half);
                    &&& (#[trigger] values[j]).len() == count(location)
                    &&& is_chroma(
                        restore,
                        location,
                        scaled(macro_blocks[j].from(), half),
                        residuals(macro_blocks[j]),
                        pairs(macro_blocks[j]),
                        dimensions,
                        backward,
                        forward,
                        base_plane.len(),
                        values[j],
                    )
                }
        };
    assert forall|j: int| 0 <= j < a.len() implies are_same_values(
        locations[j],
        width,
        base_plane.len(),
        #[trigger] a[j],
        b[j],
    ) by {
        let m = macro_blocks[j];
        let location = m.at().mapped_to_chroma(half);
        assert(locations[j] == location);
        assert(b[j].len() == count(location));
        lemma_chroma_same(
            restore,
            location,
            scaled(m.from(), half),
            residuals(m),
            pairs(m),
            dimensions,
            backward,
            forward,
            base_plane.len(),
            a[j],
            b[j],
        );
    }
    lemma_all_laid_same(base_plane, locations, width, a, b);
}

/// Macroblocks that say the same put the same frames together.
pub proof fn lemma_assembled_moves<
    M: AssemblableMacroBlock,
    F: Fn(Plane, &Block<i16>, &Block<i16>) -> Block<i16>,
>(
    restore: F,
    forward_ref: Option<Picture<i16>>,
    backward_ref: Picture<i16>,
    a: Seq<M>,
    b: Seq<M>,
    r: Picture<i16>,
)
    requires
        are_same_macros(a, b),
        is_assembled(restore, forward_ref, backward_ref, a, r),
    ensures
        is_assembled(restore, forward_ref, backward_ref, b, r),
{
    let base = base_of(forward_ref, backward_ref);
    lemma_luma_plane_moves(restore, base, backward_ref.y, a, b, r.y);
    let cb = |m: M| m.missed().cb@;
    let cr = |m: M| m.missed().cr@;
    assert forall|j: int| 0 <= j < a.len() implies cb(#[trigger] a[j]) == cb(b[j]) && cr(a[j])
        == cr(b[j]) by {
        assert(is_same_macro(a[j], b[j]));
    }
    lemma_chroma_plane_moves(
        restore,
        base,
        base.cb,
        backward_ref.cb,
        cb_of(forward_ref),
        a,
        b,
        cb,
        r.cb,
    );
    lemma_chroma_plane_moves(
        restore,
        base,
        base.cr.take(paired_blocks(base)),
        backward_ref.cr,
        cr_of(forward_ref),
        a,
        b,
        cr,
        r.cr.take(paired_blocks(base)),
    );
}

/// The frame that macroblocks put together is one, as long as taking blocks
/// back is steady.
pub proof fn law_assembled_is_one<
    M: AssemblableMacroBlock,
    F: Fn(Plane, &Block<i16>, &Block<i16>) -> Block<i16>,
>(
    restore: F,
    forward_ref: Option<Picture<i16>>,
    backward_ref: Picture<i16>,
    macro_blocks: Seq<M>,
    r: Picture<i16>,
    s: Picture<i16>,
)
    requires
        is_steady(restore),
        is_assembled(restore, forward_ref, backward_ref, macro_blocks, r),
        is_assembled(restore, forward_ref, backward_ref, macro_blocks, s),
    ensures
        r == s,
{
    let base = base_of(forward_ref, backward_ref);
    let paired = paired_blocks(base);
    lemma_luma_plane_same(restore, base, backward_ref.y, macro_blocks, r.y, s.y);
    lemma_chroma_plane_same(
        restore,
        base,
        base.cb,
        backward_ref.cb,
        cb_of(forward_ref),
        macro_blocks,
        |m: M| m.missed().cb@,
        r.cb,
        s.cb,
    );
    lemma_chroma_plane_same(
        restore,
        base,
        base.cr.take(paired),
        backward_ref.cr,
        cr_of(forward_ref),
        macro_blocks,
        |m: M| m.missed().cr@,
        r.cr.take(paired),
        s.cr.take(paired),
    );
    assert(r.cr =~= r.cr.take(paired) + r.cr.skip(paired));
    assert(s.cr =~= s.cr.take(paired) + s.cr.skip(paired));
}

} // verus!
