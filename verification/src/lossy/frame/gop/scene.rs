//! Telling where a new scene starts.
use vstd::prelude::*;

use crate::block::abs_difference;
use crate::lossy::{
    blocks_apart, law_distance_covers_each_pair, law_not_apart_is_equal, Picture,
    SubSampleBlockGroupRef,
};

verus! {

/// How far blocks may be apart on average within a scene.
pub const SCENE_LIMIT: u128 = 30;

/// Whether a frame starts a new scene: it has another size or fewer blocks, or
/// its luma blocks are on average further from those of the reference than a
/// scene allows. The average is rounded down.
pub open spec fn is_scene_change(reference: Picture<i16>, current: Picture<i16>) -> bool {
    let blocks = reference.dimensions.width * reference.dimensions.height;
    ||| reference.dimensions != current.dimensions
    ||| reference.y.len() > current.y.len()
    ||| blocks > 0 && blocks_apart(reference.y, current.y, reference.y.len() as int) / blocks
        > SCENE_LIMIT
}

/// Tells whether a frame starts a new scene.
pub fn detect_scene_change(
    reference: &SubSampleBlockGroupRef<'_, i16>,
    current: &SubSampleBlockGroupRef<'_, i16>,
) -> (r: bool)
    ensures
        r == is_scene_change(reference@, current@),
{
    if reference.dimensions != current.dimensions || reference.y.len() > current.y.len() {
        return true;
    }
    let width: u64 = reference.dimensions.width as u64;
    let height: u64 = reference.dimensions.height as u64;
    proof {
        assert(width * height <= 0xffff_ffff_ffff_ffff * 0xffff_ffff_ffff_ffff)
            by (nonlinear_arith)
            requires
                0 <= width <= 0xffff_ffff_ffff_ffff,
                0 <= height <= 0xffff_ffff_ffff_ffff,
        ;
    }
    let blocks: u128 = width as u128 * height as u128;
    if blocks == 0 {
        return false;
    }
    let apart: u128 = reference.distance(current);
    apart / blocks > SCENE_LIMIT
}

/// Frames of one size with as many blocks belong to one scene exactly where their luma
/// blocks are together less than thirty-one apart for every block of the grid. So one
/// block that is far enough away starts a new scene, and frames with the same luma
/// never do.
pub proof fn law_scene_ends_with_distance(
    reference: Picture<i16>,
    current: Picture<i16>,
    i: int,
)
    requires
        reference.dimensions == current.dimensions,
        reference.y.len() <= current.y.len(),
        0 < reference.dimensions.width,
        0 < reference.dimensions.height,
        0 <= i < reference.y.len(),
    ensures
        ({
            let blocks = reference.dimensions.height * reference.dimensions.width;
            &&& is_scene_change(reference, current) <==> blocks_apart(
                reference.y,
                current.y,
                reference.y.len() as int,
            ) >= 31 * blocks
            &&& abs_difference(reference.y[i]@, current.y[i]@, 64) >= 31 * blocks
                ==> is_scene_change(reference, current)
            &&& reference.y == current.y ==> !is_scene_change(reference, current)
        }),
{
    let blocks = reference.dimensions.width * reference.dimensions.height;
    let apart = blocks_apart(reference.y, current.y, reference.y.len() as int);
    vstd::arithmetic::mul::lemma_mul_is_commutative(
        reference.dimensions.width as int,
        reference.dimensions.height as int,
    );
    assert(blocks > 0) by (nonlinear_arith)
        requires
            blocks == reference.dimensions.width * reference.dimensions.height,
            0 < reference.dimensions.width,
            0 < reference.dimensions.height,
    ;
    law_not_apart_is_equal(reference.y, current.y, reference.y.len() as int);
    law_distance_covers_each_pair(reference.y, current.y, reference.y.len() as int, i);
    vstd::arithmetic::div_mod::lemma_fundamental_div_mod(apart, blocks);
    vstd::arithmetic::div_mod::lemma_mod_bound(apart, blocks);
    let q = apart / blocks;
    assert(q >= 31 ==> apart >= 31 * blocks) by (nonlinear_arith)
        requires
            apart == blocks * q + apart % blocks,
            0 <= apart % blocks,
            blocks > 0,
    ;
    assert(q <= 30 ==> apart < 31 * blocks) by (nonlinear_arith)
        requires
            apart == blocks * q + apart % blocks,
            apart % blocks < blocks,
            blocks > 0,
    ;
}

/// A frame of another size, or with fewer blocks, starts a new scene.
pub proof fn law_other_size_is_another_scene(reference: Picture<i16>, current: Picture<i16>)
    requires
        reference.dimensions.width != current.dimensions.width || reference.dimensions.height
            != current.dimensions.height || current.y.len() < reference.y.len(),
    ensures
        is_scene_change(reference, current),
{
}

} // verus!
