//! Taking blocks through a transform and back.
use vstd::prelude::*;

use crate::block::quantization::{
    dequantizes, is_dequantized, is_quantized, law_quantized_can_come_back,
    law_quantized_comes_close, law_quantizing_counts_whole_steps, positive_steps, quantizes,
    table_steps, Quantizor,
};
use crate::block::zigzag::{law_zigzag_comes_back, zagzigged, zigzagged};
use crate::block::Block;
use crate::parallel::par_map;
use crate::sample::{magnitude, Sample};

verus! {

/// A block went through the transform, was quantized and brought into zigzag
/// order.
pub open spec fn is_coded_block<U, T: Sample, F: Fn(&Block<U>) -> Block<T>>(
    dct: F,
    steps: Seq<T>,
    block: Block<U>,
    r: Block<T>,
) -> bool {
    exists|c: Block<T>, q: Block<T>|
        #![trigger call_ensures(dct, (&block,), c), is_quantized(steps, c@, q@)]
        {
            &&& call_ensures(dct, (&block,), c)
            &&& is_quantized(steps, c@, q@)
            &&& r@ == zigzagged(q@)
        }
}

/// All blocks of a plane went through the transform.
pub open spec fn is_coded_plane<U, T: Sample, F: Fn(&Block<U>) -> Block<T>>(
    dct: F,
    steps: Seq<T>,
    blocks: Seq<Block<U>>,
    r: Seq<Block<T>>,
) -> bool {
    &&& r.len() == blocks.len()
    &&& forall|i: int|
        0 <= i < r.len() ==> is_coded_block(dct, steps, blocks[i], #[trigger] r[i])
}

/// Takes a block through the transform, quantizes it and brings it into zigzag
/// order.
fn code_block<U, T: Sample, F: Fn(&Block<U>) -> Block<T>>(
    dct: &F,
    quantizor: &Quantizor<T>,
    block: &Block<U>,
) -> (r: Block<T>)
    requires
        positive_steps(quantizor@),
        forall|b: Block<U>| #[trigger] call_requires(*dct, (&b,)),
    ensures
        is_coded_block(*dct, quantizor@, *block, r),
{
    let coefficients = (*dct)(block);
    let quantized = quantizor.quantize(coefficients);
    let r = quantized.zigzag();
    assert(call_ensures(*dct, (block,), coefficients));
    assert(is_quantized(quantizor@, coefficients@, quantized@));
    r
}

/// Takes all blocks of a plane through the transform.
pub(crate) fn code_plane<
    U: Sync,
    T: Sample + Send + Sync,
    F: Fn(&Block<U>) -> Block<T> + Sync + Send,
>(
    dct: &F,
    quantizor: &Quantizor<T>,
    blocks: &[Block<U>],
) -> (r: Vec<Block<T>>)
    requires
        positive_steps(quantizor@),
        forall|b: Block<U>| #[trigger] call_requires(*dct, (&b,)),
    ensures
        is_coded_plane(*dct, quantizor@, blocks@, r@),
{
    let work = |block: &Block<U>| -> (r: Block<T>)
        requires
            positive_steps(quantizor@),
            forall|b: Block<U>| #[trigger] call_requires(*dct, (&b,))
        ensures
            is_coded_block(*dct, quantizor@, *block, r)
        { code_block(dct, quantizor, block) };
    let r = par_map(blocks, work);
    proof {
        assert forall|i: int| 0 <= i < r@.len() implies is_coded_block(
            *dct,
            quantizor@,
            blocks@[i],
            #[trigger] r@[i],
        ) by {
            assert(call_ensures(work, (&blocks@[i],), r@[i]));
        }
    }
    r
}

/// All blocks of a plane went back through the transform.
pub open spec fn is_restored_plane<T, U, F: Fn(&Block<T>) -> Block<U>>(
    idct: F,
    coefficients: Seq<Block<T>>,
    r: Seq<Block<U>>,
) -> bool {
    &&& r.len() == coefficients.len()
    &&& forall|i: int|
        0 <= i < r.len() ==> call_ensures(idct, (&coefficients[i],), #[trigger] r[i])
}

/// Takes all blocks of a plane back through the transform.
pub(crate) fn restore_plane<
    T: Sample + Send + Sync,
    U: Send,
    F: Fn(&Block<T>) -> Block<U> + Sync + Send,
>(
    idct: &F,
    coefficients: &[Block<T>],
) -> (r: Vec<Block<U>>)
    requires
        forall|b: Block<T>| #[trigger] call_requires(*idct, (&b,)),
    ensures
        is_restored_plane(*idct, coefficients@, r@),
{
    let work = |block: &Block<T>| -> (r: Block<U>)
        requires
            forall|b: Block<T>| #[trigger] call_requires(*idct, (&b,))
        ensures
            call_ensures(*idct, (block,), r)
        { (*idct)(block) };
    let r = par_map(coefficients, work);
    proof {
        assert forall|i: int| 0 <= i < r@.len() implies call_ensures(
            *idct,
            (&coefficients@[i],),
            #[trigger] r@[i],
        ) by {
            assert(call_ensures(work, (&coefficients@[i],), r@[i]));
        }
    }
    r
}

/// The order in which the samples of a stored block are taken.
pub open spec fn ordered<T>(zigzag: bool, block: Seq<T>) -> Seq<T> {
    if zigzag {
        zagzigged(block)
    } else {
        block
    }
}

/// The blocks of a plane, multiplied back.
pub open spec fn is_dequantized_plane<T: Sample>(
    steps: Seq<T>,
    zigzag: bool,
    blocks: Seq<Block<T>>,
    r: Seq<Block<T>>,
) -> bool {
    &&& r.len() == blocks.len()
    &&& forall|t: int|
        0 <= t < blocks.len() ==> is_dequantized(
            steps,
            ordered(zigzag, blocks[t]@),
            (#[trigger] r[t])@,
        )
}

/// All blocks of a plane can be multiplied back.
pub open spec fn plane_dequantizes<T: Sample>(
    steps: Seq<T>,
    zigzag: bool,
    blocks: Seq<Block<T>>,
) -> bool {
    forall|t: int|
        0 <= t < blocks.len() ==> dequantizes(steps, ordered(zigzag, (#[trigger] blocks[t])@))
}

/// What was coded can be multiplied back.
pub proof fn law_coded_can_come_back<U, T: Sample, F: Fn(&Block<U>) -> Block<T>>(
    dct: F,
    steps: Seq<T>,
    blocks: Seq<Block<U>>,
    coded: Seq<Block<T>>,
)
    requires
        positive_steps(steps),
        is_coded_plane(dct, steps, blocks, coded),
    ensures
        plane_dequantizes(steps, true, coded),
{
    assert forall|t: int| 0 <= t < coded.len() implies dequantizes(
        steps,
        ordered(true, (#[trigger] coded[t])@),
    ) by {
        assert(is_coded_block(dct, steps, blocks[t], coded[t]));
        let (c, q) = choose|c: Block<T>, q: Block<T>|
            #![trigger call_ensures(dct, (&blocks[t],), c), is_quantized(steps, c@, q@)]
            {
                &&& call_ensures(dct, (&blocks[t],), c)
                &&& is_quantized(steps, c@, q@)
                &&& coded[t]@ == zigzagged(q@)
            };
        law_zigzag_comes_back(q@);
        law_quantized_can_come_back(steps, c@, q@);
    }
}

/// A coded block was multiplied back and went back through the transform.
pub open spec fn is_back_block<T: Sample, U, F: Fn(&Block<T>) -> Block<U>>(
    idct: F,
    steps: Seq<T>,
    coded: Block<T>,
    r: Block<U>,
) -> bool {
    exists|c: Block<T>|
        {
            &&& is_dequantized(steps, zagzigged(coded@), c@)
            &&& #[trigger] call_ensures(idct, (&c,), r)
        }
}

/// All blocks of a coded plane were multiplied back and went back through the
/// transform.
pub open spec fn is_back_plane<T: Sample, U, F: Fn(&Block<T>) -> Block<U>>(
    idct: F,
    steps: Seq<T>,
    coded: Seq<Block<T>>,
    r: Seq<Block<U>>,
) -> bool {
    &&& r.len() == coded.len()
    &&& forall|t: int|
        0 <= t < r.len() ==> is_back_block(idct, steps, coded[t], #[trigger] r[t])
}

/// Takes all blocks of a coded plane back.
pub(crate) fn back_plane<
    T: Sample + Send + Sync,
    U: Send,
    F: Fn(&Block<T>) -> Block<U> + Sync + Send,
>(
    idct: &F,
    quantizor: &Quantizor<T>,
    coded: &[Block<T>],
) -> (r: Vec<Block<U>>)
    requires
        plane_dequantizes(quantizor@, true, coded@),
        forall|b: Block<T>| #[trigger] call_requires(*idct, (&b,)),
    ensures
        is_back_plane(*idct, quantizor@, coded@, r@),
{
    let work = |block: &Block<T>| -> (r: Block<U>)
        requires
            dequantizes(quantizor@, ordered(true, block@)),
            forall|b: Block<T>| #[trigger] call_requires(*idct, (&b,))
        ensures
            is_back_block(*idct, quantizor@, *block, r)
        {
            let coefficients = quantizor.dequantize(block.zagzig());
            (*idct)(&coefficients)
        };
    let r = par_map(coded, work);
    proof {
        assert forall|t: int| 0 <= t < r@.len() implies is_back_block(
            *idct,
            quantizor@,
            coded@[t],
            #[trigger] r@[t],
        ) by {
            assert(call_ensures(work, (&coded@[t],), r@[t]));
        }
    }
    r
}

/// What comes back of a block that went through the transform and was coded
/// without being clamped is off by less than a step in every coefficient.
pub proof fn law_coefficients_come_close<U, T: Sample, F: Fn(&Block<U>) -> Block<T>>(
    dct: F,
    steps: Seq<T>,
    blocks: Seq<Block<U>>,
    coded: Seq<Block<T>>,
    r: Seq<Block<T>>,
    t: int,
)
    requires
        positive_steps(steps),
        is_coded_plane(dct, steps, blocks, coded),
        is_dequantized_plane(steps, true, coded, r),
        0 <= t < blocks.len(),
        forall|c: Block<T>| #[trigger]
            call_ensures(dct, (&blocks[t],), c) ==> quantizes(steps, c@),
    ensures
        exists|c: Block<T>|
            {
                &&& #[trigger] call_ensures(dct, (&blocks[t],), c)
                &&& forall|i: int|
                    0 <= i < 64 ==> magnitude((#[trigger] r[t]@[i]).num() - c@[i].num())
                        < steps[i].num()
            },
{
    assert(is_coded_block(dct, steps, blocks[t], coded[t]));
    let (c, q) = choose|c: Block<T>, q: Block<T>|
        #![trigger call_ensures(dct, (&blocks[t],), c), is_quantized(steps, c@, q@)]
        {
            &&& call_ensures(dct, (&blocks[t],), c)
            &&& is_quantized(steps, c@, q@)
            &&& coded[t]@ == zigzagged(q@)
        };
    law_zigzag_comes_back(q@);
    assert(is_dequantized(steps, q@, r[t]@));
    law_quantized_comes_close(steps, c@, q@, r[t]@);
    assert(call_ensures(dct, (&blocks[t],), c));
}

/// Coefficients that are not in the order of the diagonals are taken as they are, and those
/// that are, are brought back from it.
pub proof fn law_order_is_undone<T>(block: Seq<T>)
    requires
        block.len() == 64,
    ensures
        ordered(false, block) == block,
        ordered(true, zigzagged(block)) == block,
{
    law_zigzag_comes_back(block);
}

/// A block was transformed, and each coefficient counted in the whole steps of a table, from
/// zero on and as far as sixteen bits go.
pub open spec fn is_counted_in_steps<U, T: Sample, F: Fn(&Block<U>) -> Block<T>>(
    dct: F,
    table: Seq<i16>,
    block: Block<U>,
    r: Block<T>,
) -> bool {
    exists|c: Block<T>|
        {
            &&& #[trigger] call_ensures(dct, (&block,), c)
            &&& forall|i: int|
                0 <= i < 64 ==> {
                    let x = (#[trigger] c@[i]).num();
                    let q = zagzigged(r@)[i].num();
                    &&& -32768 <= q <= 32767
                    &&& x >= 0 ==> 0 <= q && q * table[i] <= x
                    &&& x < 0 ==> q <= 0 && x <= q * table[i]
                    &&& x >= 0 && q < 32767 ==> x < q * table[i] + table[i]
                    &&& x < 0 && q > -32768 ==> q * table[i] - table[i] < x
                }
        }
}

/// What is coded with the steps of a table is counted in them.
pub proof fn law_coded_is_counted_in_steps<U, T: Sample, F: Fn(&Block<U>) -> Block<T>>(
    dct: F,
    table: Seq<i16>,
    block: Block<U>,
    r: Block<T>,
)
    requires
        forall|i: int| 0 <= i < 64 ==> 0 < #[trigger] table[i],
        is_coded_block(dct, table_steps::<T>(table), block, r),
    ensures
        is_counted_in_steps(dct, table, block, r),
{
    let steps = table_steps::<T>(table);
    T::lemma_type();
    let (c, q) = choose|c: Block<T>, q: Block<T>|
        #![trigger call_ensures(dct, (&block,), c), is_quantized(steps, c@, q@)]
        {
            &&& call_ensures(dct, (&block,), c)
            &&& is_quantized(steps, c@, q@)
            &&& r@ == zigzagged(q@)
        };
    law_zigzag_comes_back(q@);
    assert forall|i: int| 0 <= i < 64 implies (#[trigger] steps[i]).num() == table[i] by {
        T::lemma_with_num(table[i] as int);
    }
    let back = Seq::new(64, |i: int| T::with_num(q@[i].num() * steps[i].num()));
    law_quantized_can_come_back(steps, c@, q@);
    assert forall|i: int| 0 <= i < 64 implies (#[trigger] back[i]).num() == q@[i].num()
        * steps[i].num() by {
        assert(crate::block::fits::<T>(q@[i].num() * steps[i].num()));
        T::lemma_with_num(q@[i].num() * steps[i].num());
    }
    assert forall|i: int| 0 <= i < 64 implies {
        let x = (#[trigger] c@[i]).num();
        let n = zagzigged(r@)[i].num();
        &&& -32768 <= n <= 32767
        &&& x >= 0 ==> 0 <= n && n * table[i] <= x
        &&& x < 0 ==> n <= 0 && x <= n * table[i]
        &&& x >= 0 && n < 32767 ==> x < n * table[i] + table[i]
        &&& x < 0 && n > -32768 ==> n * table[i] - table[i] < x
    } by {
        law_quantizing_counts_whole_steps(steps, c@, q@, back, i);
    }
}

/// A plane that is coded with the steps of a table is counted in them, block by block.
pub proof fn law_plane_is_counted_in_steps<U, T: Sample, F: Fn(&Block<U>) -> Block<T>>(
    dct: F,
    table: Seq<i16>,
    blocks: Seq<Block<U>>,
    r: Seq<Block<T>>,
)
    requires
        forall|i: int| 0 <= i < 64 ==> 0 < #[trigger] table[i],
        is_coded_plane(dct, table_steps::<T>(table), blocks, r),
    ensures
        r.len() == blocks.len(),
        forall|t: int|
            0 <= t < r.len() ==> is_counted_in_steps(dct, table, blocks[t], #[trigger] r[t]),
{
    assert forall|t: int| 0 <= t < r.len() implies is_counted_in_steps(
        dct,
        table,
        blocks[t],
        #[trigger] r[t],
    ) by {
        law_coded_is_counted_in_steps(dct, table, blocks[t], r[t]);
    }
}


/// Planes go through the transform and back block by block, each block into its own place.
pub proof fn law_planes_keep_their_blocks<
    U,
    T: Sample,
    D: Fn(&Block<U>) -> Block<T>,
    I: Fn(&Block<T>) -> Block<U>,
>(
    dct: D,
    idct: I,
    steps: Seq<T>,
    zigzag: bool,
    blocks: Seq<Block<U>>,
    coded: Seq<Block<T>>,
    coefficients: Seq<Block<T>>,
    back: Seq<Block<U>>,
    restored: Seq<Block<U>>,
    t: int,
)
    requires
        is_coded_plane(dct, steps, blocks, coded),
        is_dequantized_plane(steps, zigzag, coded, coefficients),
        is_back_plane(idct, steps, coded, back),
        is_restored_plane(idct, coefficients, restored),
        0 <= t < blocks.len(),
    ensures
        coded.len() == blocks.len(),
        coefficients.len() == blocks.len(),
        back.len() == blocks.len(),
        restored.len() == blocks.len(),
        is_coded_plane(dct, steps, seq![blocks[t]], seq![coded[t]]),
        is_dequantized_plane(steps, zigzag, seq![coded[t]], seq![coefficients[t]]),
        is_back_plane(idct, steps, seq![coded[t]], seq![back[t]]),
        call_ensures(idct, (&coefficients[t],), restored[t]),
        forall|i: int|
            0 <= i < 64 ==> (#[trigger] coefficients[t]@[i]).num() == ordered(
                zigzag,
                coded[t]@,
            )[i].num() * steps[i].num(),
        exists|c: Block<T>| #[trigger]
            call_ensures(idct, (&c,), back[t]) && forall|i: int|
                0 <= i < 64 ==> (#[trigger] c@[i]).num() == zagzigged(coded[t]@)[i].num()
                    * steps[i].num(),
{
    assert(is_coded_block(dct, steps, blocks[t], coded[t]));
    assert(is_back_block(idct, steps, coded[t], back[t]));
    assert(is_dequantized(steps, ordered(zigzag, coded[t]@), coefficients[t]@));
}

} // verus!
