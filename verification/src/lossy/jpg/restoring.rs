//! What is restored of an image.
use vstd::prelude::*;

use super::{
    are_planes_of, image_bits, is_image_read, is_image_restored, is_storable,
    law_image_comes_back, Coefficients,
};
use crate::block::quantization::{
    table_steps, IMAGE_CHROMINANCE_QUANTIZATION, IMAGE_LUMINANCE_QUANTIZATION,
};
use crate::block::Block;
use crate::color::{are_shares, Subsampling, UpSampleGroup};
use crate::dimensions::PixelDimensions;
use crate::error::Result;
use crate::lossy::transform::{is_restored_plane, plane_dequantizes};
use crate::lossy::{is_image_size, is_unblocked, law_planes_hold_the_blocks};
use crate::sample::Sample;

verus! {

/// An image that was written is restored in its own size and subsampling, where it has room.
pub proof fn law_restored_image_has_its_size<
    T: Sample,
    U: Default,
    E: Fn(&Block<T>) -> Block<U>,
    K: Fn(&U) -> U,
>(
    idct: E,
    clamp: K,
    dimensions: PixelDimensions,
    subsampling: Subsampling,
    y: Seq<Block<T>>,
    cb: Seq<Block<T>>,
    cr: Seq<Block<T>>,
    rest: Seq<bool>,
    r: Result<(Subsampling, UpSampleGroup<U>)>,
    behind: Seq<bool>,
)
    requires
        dimensions.width <= u32::MAX,
        dimensions.height <= u32::MAX,
        is_storable(y),
        is_storable(cb),
        is_storable(cr),
        plane_dequantizes(table_steps::<T>(IMAGE_LUMINANCE_QUANTIZATION@), true, y),
        plane_dequantizes(table_steps::<T>(IMAGE_CHROMINANCE_QUANTIZATION@), true, cb),
        plane_dequantizes(table_steps::<T>(IMAGE_CHROMINANCE_QUANTIZATION@), true, cr),
        rest.len() % 8 == 0,
        is_image_restored(
            idct,
            clamp,
            image_bits(Seq::empty(), dimensions, subsampling, y, cb, cr) + rest,
            r,
            behind,
        ),
    ensures
        behind == rest,
        r is Ok <==> dimensions.width > 0 && (dimensions.height + 32) * (dimensions.width + 32)
            <= usize::MAX,
        r is Err ==> r->Err_0 is InvalidData,
        r is Ok ==> r->Ok_0.0 == subsampling && r->Ok_0.1.dimensions == dimensions,
{
    let bits = image_bits(Seq::empty(), dimensions, subsampling, y, cb, cr) + rest;
    let read = choose|read: Result<Coefficients<T>>|
        {
            &&& #[trigger] is_image_read(bits, read, behind)
            &&& read is Err ==> r is Err && r->Err_0 == read->Err_0
            &&& read is Ok ==> {
                let dimensions = read->Ok_0.dimensions;
                if dimensions.width == 0 || !is_image_size(dimensions) {
                    r is Err && r->Err_0 is InvalidData
                } else {
                    &&& r is Ok
                    &&& r->Ok_0.0 == read->Ok_0.subsampling
                    &&& are_planes_of(idct, clamp, read->Ok_0, r->Ok_0.1)
                }
            }
        };
    law_image_comes_back(dimensions, subsampling, y, cb, cr, rest, read, behind);
}

/// In an image of whole blocks, the luma of a pixel is what the range makes of its sample of the
/// transformed block that it lies in.
pub proof fn law_pixels_come_of_their_blocks<
    T,
    U: Default,
    E: Fn(&Block<T>) -> Block<U>,
    K: Fn(&U) -> U,
>(
    idct: E,
    clamp: K,
    image: Coefficients<T>,
    cols: int,
    rows: int,
    r: UpSampleGroup<U>,
    row: int,
    col: int,
)
    requires
        are_shares(image.subsampling, cols, rows),
        are_planes_of(idct, clamp, image, r),
        image.dimensions.width % 8 == 0,
        0 <= row < image.dimensions.height,
        0 <= col < image.dimensions.width,
        (row / 8) * (image.dimensions.width as int / 8) + col / 8 < image.y@.len(),
    ensures
        r.dimensions == image.dimensions,
        ({
            let b = (row / 8) * (image.dimensions.width as int / 8) + col / 8;
            let i = (row % 8) * 8 + col % 8;
            exists|block: Block<U>| #[trigger]
                call_ensures(idct, (&image.y@[b],), block) && call_ensures(
                    clamp,
                    (&block@[i],),
                    r.y@[row * image.dimensions.width + col],
                )
        }),
{
    let (y, cb, cr) = choose|y: Seq<Block<U>>, cb: Seq<Block<U>>, cr: Seq<Block<U>>|
        {
            &&& is_restored_plane(idct, image.y@, y)
            &&& is_restored_plane(idct, image.cb@, cb)
            &&& is_restored_plane(idct, image.cr@, cr)
            &&& #[trigger] is_unblocked(
                clamp,
                image.dimensions,
                y,
                cb,
                cr,
                image.subsampling,
                r,
            )
        };
    law_planes_hold_the_blocks(
        clamp,
        image.dimensions,
        y,
        cb,
        cr,
        image.subsampling,
        cols,
        rows,
        r,
        row,
        col,
    );
    let b = (row / 8) * (image.dimensions.width as int / 8) + col / 8;
    assert(0 <= b) by {
        crate::numeric::lemma_place(row / 8, 0, image.dimensions.width as int / 8);
    }
    assert(call_ensures(idct, (&image.y@[b],), y[b]));
}

} // verus!
