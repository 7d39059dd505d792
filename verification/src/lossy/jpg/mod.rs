//! Images that are coded block by block.
use vstd::prelude::*;

use crate::bits::{
    be_bits, bits_value, lemma_be_bits_len, lemma_bytes_bits_len, lemma_padded, padded,
};
use crate::bitstream::{BitStreamReader, BitStreamWriter};
use crate::block::quantization::{
    dequantizes, is_dequantized, lemma_table_steps, table_steps, Quantizor,
    IMAGE_CHROMINANCE_QUANTIZATION, IMAGE_LUMINANCE_QUANTIZATION,
};
use crate::block::zigzag::zagzigged;
use crate::block::Block;
use crate::color::{law_subsampling_comes_back, Subsampling, UpSampleGroup};
use crate::dimensions::{
    law_pixel_dimensions_come_back, read_height, read_width, PixelDimensions,
};
use crate::encoders::ans;
use crate::encoders::ans::{
    behind_block, block_payload, compressed_bits, holds_block, is_kept, law_block_comes_back,
    law_raw_comes_back, lz4_compressed, lz4_decompressed, lz4_refused, parsed_raw, raw_bytes,
    survives_lz4, uneven_text,
};
use crate::error::{is_eof, is_failed_to_decode, Error, Result};
use crate::image::ImageRef;
use crate::lossy::transform::{
    code_plane, is_coded_plane, is_counted_in_steps, is_dequantized_plane, is_restored_plane,
    law_plane_is_counted_in_steps, plane_dequantizes, restore_plane,
};
use crate::lossy::{
    is_blocked, is_image_size, is_unblocked, reconstruct_planes, subsample_into_block_ycbcr,
    SubSampleBlockGroup,
};
use crate::sample::Sample;

pub mod restoring;

verus! {

/// An image and how its chroma planes are to be subsampled.
pub struct Jpg<'a, T> {
    pub image: ImageRef<'a, T>,
    pub subsampling: Subsampling,
}

/// The samples of blocks, one block after the other.
pub open spec fn flat<T>(blocks: Seq<Block<T>>) -> Seq<T>
    decreases blocks.len(),
{
    if blocks.len() == 0 {
        Seq::empty()
    } else {
        flat(blocks.drop_last()) + blocks.last()@
    }
}

/// Where the samples of a block stand.
proof fn lemma_flat<T>(blocks: Seq<Block<T>>)
    ensures
        flat(blocks).len() == 64 * blocks.len(),
        forall|t: int, i: int|
            0 <= t < blocks.len() && 0 <= i < 64 ==> flat(blocks)[64 * t + i]
                == #[trigger] blocks[t]@[i],
    decreases blocks.len(),
{
    if blocks.len() > 0 {
        let before = blocks.drop_last();
        lemma_flat(before);
        assert forall|t: int, i: int| 0 <= t < blocks.len() && 0 <= i < 64 implies flat(
            blocks,
        )[64 * t + i] == #[trigger] blocks[t]@[i] by {
            if t < before.len() {
                assert(before[t]@[i] == blocks[t]@[i]);
            }
        }
    }
}

/// Lists the samples of blocks.
fn flatten<T: Copy>(blocks: &[Block<T>]) -> (r: Vec<T>)
    ensures
        r@ == flat(blocks@),
{
    let mut r: Vec<T> = Vec::new();
    let mut t: usize = 0;
    assert(blocks@.take(0) =~= Seq::empty());
    while t < blocks.len()
        invariant
            t <= blocks@.len(),
            r@ == flat(blocks@.take(t as int)),
        decreases blocks@.len() - t,
    {
        let ghost before = r@;
        let block: &Block<T> = &blocks[t];
        let mut i: usize = 0;
        assert(before + block@.take(0) =~= before);
        while i < 64
            invariant
                i <= 64,
                r@ == before + block@.take(i as int),
            decreases 64 - i,
        {
            r.push(block.0[i]);
            assert(r@ =~= before + block@.take(i + 1));
            i = i + 1;
        }
        assert(block@.take(64) =~= block@);
        assert(blocks@.take(t + 1).drop_last() =~= blocks@.take(t as int));
        t = t + 1;
    }
    assert(blocks@.take(blocks@.len() as int) =~= blocks@);
    r
}

/// What a stream holds before the planes.
pub open spec fn header_bits(dimensions: PixelDimensions, subsampling: Subsampling) -> Seq<bool> {
    dimensions.stream_bits() + be_bits(subsampling.code() as nat, 8)
}

/// How a stream holds a plane.
pub open spec fn plane_bits<T: Sample>(blocks: Seq<Block<T>>) -> Seq<bool> {
    compressed_bits(raw_bytes(flat(blocks)))
}

/// How a stream holds an image: the size, the subsampling, and the planes.
pub open spec fn image_bits<T: Sample>(
    start: Seq<bool>,
    dimensions: PixelDimensions,
    subsampling: Subsampling,
    y: Seq<Block<T>>,
    cb: Seq<Block<T>>,
    cr: Seq<Block<T>>,
) -> Seq<bool> {
    padded(start + header_bits(dimensions, subsampling)) + plane_bits(y) + plane_bits(cb)
        + plane_bits(cr)
}

/// Compressed bytes fill whole bytes.
proof fn lemma_plane_bits_len<T: Sample>(blocks: Seq<Block<T>>)
    ensures
        plane_bits(blocks).len() % 8 == 0,
{
    let bytes = raw_bytes(flat(blocks));
    lemma_bytes_bits_len(crate::bits::le_bytes(lz4_compressed(bytes).len(), 4));
    lemma_bytes_bits_len(lz4_compressed(bytes));
}

/// Writes a plane. A plane without blocks is invalid data.
fn write_plane<T: Sample>(blocks: &[Block<T>], stream: &mut BitStreamWriter) -> (r: Result<()>)
    ensures
        blocks@.len() == 0 ==> r is Err && r->Err_0 is InvalidData && final(stream)@ == old(
            stream,
        )@,
        blocks@.len() > 0 ==> r is Ok && final(stream)@ == padded(old(stream)@) + plane_bits(
            blocks@,
        ),
        blocks@.len() > 0 ==> is_kept(raw_bytes(flat(blocks@))),
{
    proof {
        lemma_flat(blocks@);
    }
    let samples = flatten(blocks);
    ans::encode_raw(samples.as_slice(), stream)
}

/// Planes that a stream can hold survive the compression.
pub open spec fn are_planes_kept<T: Sample>(
    y: Seq<Block<T>>,
    cb: Seq<Block<T>>,
    cr: Seq<Block<T>>,
) -> bool {
    &&& is_kept(raw_bytes(flat(y)))
    &&& is_kept(raw_bytes(flat(cb)))
    &&& is_kept(raw_bytes(flat(cr)))
}

/// Writes the quantized coefficients of an image. Where a plane has no blocks,
/// that is invalid data.
pub fn encode_planes<T: Sample>(
    dimensions: PixelDimensions,
    subsampling: Subsampling,
    y: &[Block<T>],
    cb: &[Block<T>],
    cr: &[Block<T>],
    stream: &mut BitStreamWriter,
) -> (r: Result<()>)
    ensures
        y@.len() == 0 || cb@.len() == 0 || cr@.len() == 0 ==> r is Err && r->Err_0 is InvalidData,
        y@.len() > 0 && cb@.len() > 0 && cr@.len() > 0 ==> {
            &&& r is Ok
            &&& final(stream)@ == image_bits(
                old(stream)@,
                dimensions,
                subsampling,
                y@,
                cb@,
                cr@,
            )
            &&& are_planes_kept(y@, cb@, cr@)
        },
{
    let ghost start = stream@;
    dimensions.encode(stream)?;
    subsampling.encode(stream)?;
    assert(stream@ =~= start + header_bits(dimensions, subsampling));
    match write_plane(y, stream) {
        Ok(()) => {},
        Err(e) => {
            return Err(e);
        },
    }
    proof {
        lemma_padded(start + header_bits(dimensions, subsampling));
        lemma_plane_bits_len(y@);
        lemma_plane_bits_len(cb@);
        lemma_plane_bits_len(cr@);
        lemma_padded(stream@);
    }
    match write_plane(cb, stream) {
        Ok(()) => {},
        Err(e) => {
            return Err(e);
        },
    }
    proof {
        lemma_padded(stream@);
    }
    match write_plane(cr, stream) {
        Ok(()) => {},
        Err(e) => {
            return Err(e);
        },
    }
    proof {
        lemma_padded(stream@);
    }
    stream.flush()
}

/// The coefficients of an image were written.
pub open spec fn is_image_written<U, T: Sample, D: Fn(&Block<U>) -> Block<T>>(
    dct: D,
    group: SubSampleBlockGroup<U>,
    dimensions: PixelDimensions,
    start: Seq<bool>,
    r: Result<()>,
    end: Seq<bool>,
) -> bool {
    let luma = table_steps::<T>(IMAGE_LUMINANCE_QUANTIZATION@);
    let chroma = table_steps::<T>(IMAGE_CHROMINANCE_QUANTIZATION@);
    if group.y@.len() == 0 || group.cb@.len() == 0 || group.cr@.len() == 0 {
        r is Err && r->Err_0 is InvalidData
    } else {
        &&& r is Ok
        &&& exists|y: Seq<Block<T>>, cb: Seq<Block<T>>, cr: Seq<Block<T>>|
            {
                &&& is_coded_plane(dct, luma, group.y@, y)
                &&& is_coded_plane(dct, chroma, group.cb@, cb)
                &&& is_coded_plane(dct, chroma, group.cr@, cr)
                &&& are_planes_kept(y, cb, cr)
                &&& end == #[trigger] image_bits(start, dimensions, group.subsampling, y, cb, cr)
            }
    }
}

impl<'a, I> Jpg<'a, I> {
    /// Writes the pixels of an image. `luma` gives the luma of a pixel, `mean`
    /// the mean Cb and the mean Cr of pixels, and `dct` transforms a block.
    pub fn compress_to_stream<
        P: Copy + Send + Sync,
        U: Copy + Default + Send + Sync,
        T: Sample + Send + Sync,
        L: Fn(&P) -> U + Sync + Send,
        M: Fn(&Vec<P>) -> (U, U) + Sync + Send,
        D: Fn(&Block<U>) -> Block<T> + Sync + Send,
    >(
        &self,
        dimensions: PixelDimensions,
        ycbcr: &[P],
        luma: &L,
        mean: &M,
        dct: &D,
        stream: &mut BitStreamWriter,
    ) -> (r: Result<()>)
        requires
            is_image_size(dimensions),
            forall|pixel: P| #[trigger] call_requires(*luma, (&pixel,)),
            forall|taken: Vec<P>| #[trigger] call_requires(*mean, (&taken,)),
            forall|b: Block<U>| #[trigger] call_requires(*dct, (&b,)),
        ensures
            exists|group: SubSampleBlockGroup<U>|
                {
                    &&& #[trigger] is_blocked(
                        *luma,
                        *mean,
                        dimensions,
                        ycbcr@,
                        self.subsampling,
                        group,
                    )
                    &&& is_image_written(
                        *dct,
                        group,
                        dimensions,
                        old(stream)@,
                        r,
                        final(stream)@,
                    )
                },
    {
        let group = subsample_into_block_ycbcr(dimensions, ycbcr, self.subsampling, luma, mean);
        let luma_steps = Quantizor::<T>::image_luminance();
        let chroma_steps = Quantizor::<T>::image_chrominance();
        proof {
            lemma_table_steps(luma_steps@, IMAGE_LUMINANCE_QUANTIZATION@);
            lemma_table_steps(chroma_steps@, IMAGE_CHROMINANCE_QUANTIZATION@);
        }
        let y = code_plane(dct, &luma_steps, group.y.as_slice());
        let cb = code_plane(dct, &chroma_steps, group.cb.as_slice());
        let cr = code_plane(dct, &chroma_steps, group.cr.as_slice());
        let r = encode_planes(
            dimensions,
            self.subsampling,
            y.as_slice(),
            cb.as_slice(),
            cr.as_slice(),
            stream,
        );
        assert(is_blocked(*luma, *mean, dimensions, ycbcr@, self.subsampling, group));
        r
    }
}

/// The samples of block `t` of a plane.
pub open spec fn chunk<T>(samples: Seq<T>, t: int) -> Seq<T> {
    samples.subrange(64 * t, 64 * t + 64)
}

/// The samples that a stream goes on with.
pub open spec fn plane_samples<T: Sample>(bits: Seq<bool>) -> Seq<T> {
    parsed_raw::<T>(lz4_decompressed(block_payload(bits))->Ok_0)
}

/// Whether a stream goes on with a plane whose blocks can be multiplied back.
pub open spec fn holds_plane<T: Sample>(bits: Seq<bool>, steps: Seq<T>) -> bool {
    &&& holds_block(bits)
    &&& lz4_decompressed(block_payload(bits)) is Ok
    &&& (lz4_decompressed(block_payload(bits))->Ok_0).len() % T::byte_len() == 0
    &&& forall|t: int|
        0 <= t < plane_samples::<T>(bits).len() / 64 ==> dequantizes(
            steps,
            zagzigged(#[trigger] chunk(plane_samples::<T>(bits), t)),
        )
}

/// What is answered where a stream does not go on with a plane.
pub open spec fn plane_refused<T: Sample, R>(bits: Seq<bool>, r: Result<R>) -> bool {
    if !holds_block(bits) {
        is_eof(r)
    } else if lz4_decompressed(block_payload(bits)) is Err {
        lz4_refused(r, block_payload(bits))
    } else {
        let raw = lz4_decompressed(block_payload(bits))->Ok_0;
        if raw.len() % T::byte_len() != 0 {
            is_failed_to_decode(r, uneven_text(raw.len(), T::byte_len()))
        } else {
            r is Err && r->Err_0 is InvalidData
        }
    }
}

/// The coefficients of a plane. Samples that do not fill a block are dropped.
pub open spec fn is_plane<T: Sample>(samples: Seq<T>, steps: Seq<T>, r: Seq<Block<T>>) -> bool {
    &&& r.len() == samples.len() / 64
    &&& forall|t: int|
        0 <= t < r.len() ==> is_dequantized(
            steps,
            zagzigged(chunk(samples, t)),
            (#[trigger] r[t])@,
        )
}

/// Reads the coefficients of a plane.
fn read_plane<T: Sample>(stream: &mut BitStreamReader, quantizor: &Quantizor<T>) -> (r: Result<
    Vec<Block<T>>,
>)
    ensures
        !holds_plane::<T>(old(stream)@, quantizor@) ==> plane_refused::<T, Vec<Block<T>>>(
            old(stream)@,
            r,
        ),
        holds_plane::<T>(old(stream)@, quantizor@) ==> {
            &&& r is Ok
            &&& final(stream)@ == behind_block(old(stream)@)
            &&& !final(stream).ran_out()
            &&& is_plane(plane_samples::<T>(old(stream)@), quantizor@, (r->Ok_0)@)
        },
{
    let ghost bits = stream@;
    let samples = match ans::decode_raw::<T>(stream) {
        Ok(samples) => samples,
        Err(e) => {
            return Err(e);
        },
    };
    let total: usize = samples.len();
    let count: usize = total / 64;
    let mut r: Vec<Block<T>> = Vec::new();
    let mut t: usize = 0;
    while t < count
        invariant
            t <= count,
            count == total / 64,
            total == samples@.len(),
            samples@ == plane_samples::<T>(bits),
            bits == old(stream)@,
            holds_block(bits),
            lz4_decompressed(block_payload(bits)) is Ok,
            (lz4_decompressed(block_payload(bits))->Ok_0).len() % T::byte_len() == 0,
            r@.len() == t,
            forall|k: int|
                0 <= k < t ==> dequantizes(
                    quantizor@,
                    zagzigged(#[trigger] chunk(samples@, k)),
                ),
            forall|k: int|
                0 <= k < t ==> is_dequantized(
                    quantizor@,
                    zagzigged(chunk(samples@, k)),
                    (#[trigger] r@[k])@,
                ),
        decreases count - t,
    {
        let part = vstd::slice::slice_subrange(samples.as_slice(), 64 * t, 64 * t + 64);
        let block = Block::from_slice(part);
        assert(block@ =~= chunk(samples@, t as int));
        match quantizor.try_dequantize(block.zagzig()) {
            Some(back) => {
                r.push(back);
            },
            None => {
                assert(!dequantizes(
                    quantizor@,
                    zagzigged(chunk(plane_samples::<T>(bits), t as int)),
                ));
                return Err(Error::InvalidData);
            },
        }
        t = t + 1;
    }
    Ok(r)
}

/// The coefficients of an image.
pub struct Coefficients<T> {
    pub dimensions: PixelDimensions,
    pub subsampling: Subsampling,
    pub y: Vec<Block<T>>,
    pub cb: Vec<Block<T>>,
    pub cr: Vec<Block<T>>,
}

/// What reading the coefficients of an image answers.
#[verifier::opaque]
pub open spec fn is_image_read<T: Sample>(
    bits: Seq<bool>,
    r: Result<Coefficients<T>>,
    rest: Seq<bool>,
) -> bool {
    let luma = table_steps::<T>(IMAGE_LUMINANCE_QUANTIZATION@);
    let chroma = table_steps::<T>(IMAGE_CHROMINANCE_QUANTIZATION@);
    let behind_size = bits.skip(64);
    let y = behind_size.skip(8);
    let cb = behind_block(y);
    let cr = behind_block(cb);
    if bits.len() < 32 {
        is_failed_to_decode(r, "width"@)
    } else if bits.len() < 64 {
        is_failed_to_decode(r, "height"@)
    } else if behind_size.len() < 8 {
        is_failed_to_decode(r, "subsampling"@)
    } else if bits_value(behind_size.take(8)) > 3 {
        r is Err && r->Err_0 is InvalidData
    } else if !holds_plane::<T>(y, luma) {
        plane_refused::<T, Coefficients<T>>(y, r)
    } else if !holds_plane::<T>(cb, chroma) {
        plane_refused::<T, Coefficients<T>>(cb, r)
    } else if !holds_plane::<T>(cr, chroma) {
        plane_refused::<T, Coefficients<T>>(cr, r)
    } else {
        &&& r is Ok
        &&& rest == behind_block(cr)
        &&& r->Ok_0.dimensions.width == read_width(bits)
        &&& r->Ok_0.dimensions.height == read_height(bits)
        &&& r->Ok_0.subsampling.code() == bits_value(behind_size.take(8))
        &&& is_plane(plane_samples::<T>(y), luma, r->Ok_0.y@)
        &&& is_plane(plane_samples::<T>(cb), chroma, r->Ok_0.cb@)
        &&& is_plane(plane_samples::<T>(cr), chroma, r->Ok_0.cr@)
    }
}

/// Reads the coefficients of an image.
pub fn decode_planes<T: Sample>(stream: &mut BitStreamReader) -> (r: Result<Coefficients<T>>)
    ensures
        is_image_read(old(stream)@, r, final(stream)@),
{
    proof {
        reveal(is_image_read);
    }
    let dimensions = match PixelDimensions::decode(stream) {
        Ok(dimensions) => dimensions,
        Err(e) => {
            return Err(e);
        },
    };
    let subsampling = match Subsampling::decode(stream) {
        Ok(subsampling) => subsampling,
        Err(e) => {
            return Err(e);
        },
    };
    let luma = Quantizor::<T>::image_luminance();
    let chroma = Quantizor::<T>::image_chrominance();
    proof {
        lemma_table_steps(luma@, IMAGE_LUMINANCE_QUANTIZATION@);
        lemma_table_steps(chroma@, IMAGE_CHROMINANCE_QUANTIZATION@);
    }
    let y = match read_plane(stream, &luma) {
        Ok(y) => y,
        Err(e) => {
            return Err(e);
        },
    };
    let cb = match read_plane(stream, &chroma) {
        Ok(cb) => cb,
        Err(e) => {
            return Err(e);
        },
    };
    let cr = match read_plane(stream, &chroma) {
        Ok(cr) => cr,
        Err(e) => {
            return Err(e);
        },
    };
    Ok(Coefficients { dimensions, subsampling, y, cb, cr })
}

/// The planes of an image are its coefficients, taken back through the
/// transform and brought into the range of the samples.
pub open spec fn are_planes_of<
    T,
    U: Default,
    E: Fn(&Block<T>) -> Block<U>,
    K: Fn(&U) -> U,
>(
    idct: E,
    clamp: K,
    image: Coefficients<T>,
    r: UpSampleGroup<U>,
) -> bool {
    exists|y: Seq<Block<U>>, cb: Seq<Block<U>>, cr: Seq<Block<U>>|
        {
            &&& is_restored_plane(idct, image.y@, y)
            &&& is_restored_plane(idct, image.cb@, cb)
            &&& is_restored_plane(idct, image.cr@, cr)
            &&& #[trigger] is_unblocked(
                clamp,
                image.dimensions,
                y,
                cb,
                cr,
                image.subsampling,
                r,
            )
        }
}

/// What reading the planes of an image answers. An image without columns or
/// beyond all bounds is invalid data.
pub open spec fn is_image_restored<
    T: Sample,
    U: Default,
    E: Fn(&Block<T>) -> Block<U>,
    K: Fn(&U) -> U,
>(
    idct: E,
    clamp: K,
    bits: Seq<bool>,
    r: Result<(Subsampling, UpSampleGroup<U>)>,
    rest: Seq<bool>,
) -> bool {
    exists|read: Result<Coefficients<T>>|
        {
            &&& #[trigger] is_image_read(bits, read, rest)
            &&& read is Err ==> r is Err && r->Err_0 == read->Err_0
            &&& read is Ok ==> {
                let dimensions = read->Ok_0.dimensions;
                if dimensions.width == 0 || !is_image_size(dimensions) {
                    r is Err && r->Err_0 is InvalidData
                } else {
                    &&& r is Ok
                    &&& r->Ok_0.0 == read->Ok_0.subsampling
                    &&& are_planes_of(idct, clamp, read->Ok_0, r->Ok_0.1)
                }
            }
        }
}

/// Whether there is room for whole blocks around an image.
fn has_room(dimensions: PixelDimensions) -> (r: bool)
    ensures
        r == is_image_size(dimensions),
{
    match (dimensions.height.checked_add(32), dimensions.width.checked_add(32)) {
        (Some(height), Some(width)) => match height.checked_mul(width) {
            Some(_) => true,
            None => false,
        },
        _ => {
            proof {
                let height = dimensions.height + 32;
                let width = dimensions.width + 32;
                assert(height * width >= height && height * width >= width) by (nonlinear_arith)
                    requires
                        height >= 32,
                        width >= 32,
                ;
            }
            false
        },
    }
}

/// Reads the planes of an image. `idct` takes coefficients back through the
/// transform, and `clamp` brings what comes out of it into the range of the
/// samples.
pub fn decompress_from_stream<
    T: Sample + Send + Sync,
    U: Copy + Default + Send + Sync,
    E: Fn(&Block<T>) -> Block<U> + Sync + Send,
    K: Fn(&U) -> U,
>(idct: &E, clamp: &K, stream: &mut BitStreamReader) -> (r: Result<
    (Subsampling, UpSampleGroup<U>),
>)
    requires
        forall|b: Block<T>| #[trigger] call_requires(*idct, (&b,)),
        forall|x: U| #[trigger] call_requires(*clamp, (&x,)),
    ensures
        is_image_restored(*idct, *clamp, old(stream)@, r, final(stream)@),
{
    let read = decode_planes::<T>(stream);
    let ghost bits = old(stream)@;
    assert(is_image_read(bits, read, stream@));
    match read {
        Ok(image) => {
            if image.dimensions.width == 0 || !has_room(image.dimensions) {
                return Err(Error::InvalidData);
            }
            let y = restore_plane(idct, image.y.as_slice());
            let cb = restore_plane(idct, image.cb.as_slice());
            let cr = restore_plane(idct, image.cr.as_slice());
            let group = reconstruct_planes(
                clamp,
                image.dimensions,
                y.as_slice(),
                cb.as_slice(),
                cr.as_slice(),
                image.subsampling,
            );
            assert(is_unblocked(
                *clamp,
                image.dimensions,
                y@,
                cb@,
                cr@,
                image.subsampling,
                group,
            ));
            assert(are_planes_of(*idct, *clamp, image, group));
            Ok((image.subsampling, group))
        },
        Err(e) => Err(e),
    }
}

/// A plane can be read again.
pub open spec fn is_storable<T: Sample>(blocks: Seq<Block<T>>) -> bool {
    let bytes = raw_bytes(flat(blocks));
    survives_lz4(bytes) && lz4_compressed(bytes).len() <= u32::MAX
}

/// A stream that starts with a plane holds it.
proof fn lemma_holds_plane<T: Sample>(steps: Seq<T>, blocks: Seq<Block<T>>, rest: Seq<bool>)
    requires
        is_storable(blocks),
        plane_dequantizes(steps, true, blocks),
        rest.len() % 8 == 0,
    ensures
        ({
            let stream = plane_bits(blocks) + rest;
            &&& holds_plane::<T>(stream, steps)
            &&& plane_samples::<T>(stream) == flat(blocks)
            &&& behind_block(stream) == rest
        }),
{
    let samples = flat(blocks);
    law_block_comes_back(raw_bytes(samples), rest);
    law_raw_comes_back(samples);
    lemma_flat(blocks);
    assert forall|t: int| 0 <= t < samples.len() / 64 implies dequantizes(
        steps,
        zagzigged(#[trigger] chunk(samples, t)),
    ) by {
        lemma_chunk(blocks, t);
    }
}

/// The samples of a block are found again.
proof fn lemma_chunk<T>(blocks: Seq<Block<T>>, t: int)
    requires
        0 <= t < blocks.len(),
    ensures
        chunk(flat(blocks), t) == blocks[t]@,
{
    lemma_flat(blocks);
    assert forall|i: int| 0 <= i < 64 implies chunk(flat(blocks), t)[i] == blocks[t]@[i] by {
        assert(flat(blocks)[64 * t + i] == blocks[t]@[i]);
    }
    assert(chunk(flat(blocks), t) =~= blocks[t]@);
}

/// The coefficients of a plane come back.
proof fn lemma_plane_comes_back<T: Sample>(
    steps: Seq<T>,
    blocks: Seq<Block<T>>,
    r: Seq<Block<T>>,
)
    requires
        is_plane(flat(blocks), steps, r),
    ensures
        is_dequantized_plane(steps, true, blocks, r),
{
    lemma_flat(blocks);
    assert forall|t: int| 0 <= t < blocks.len() implies is_dequantized(
        steps,
        zagzigged(blocks[t]@),
        (#[trigger] r[t])@,
    ) by {
        lemma_chunk(blocks, t);
    }
}

/// An image that was written is read back: the size and the subsampling are the
/// same, every coefficient is its quantized value times its step, and the
/// stream goes on behind the image.
#[verifier::rlimit(90)]
#[verifier::spinoff_prover]
pub proof fn law_image_comes_back<T: Sample>(
    dimensions: PixelDimensions,
    subsampling: Subsampling,
    y: Seq<Block<T>>,
    cb: Seq<Block<T>>,
    cr: Seq<Block<T>>,
    rest: Seq<bool>,
    r: Result<Coefficients<T>>,
    behind: Seq<bool>,
)
    requires
        dimensions.width <= u32::MAX,
        dimensions.height <= u32::MAX,
        is_storable(y),
        is_storable(cb),
        is_storable(cr),
        plane_dequantizes(table_steps::<T>(IMAGE_LUMINANCE_QUANTIZATION@), true, y),
        plane_dequantizes(table_steps::<T>(IMAGE_CHROMINANCE_QUANTIZATION@), true, cb),
        plane_dequantizes(table_steps::<T>(IMAGE_CHROMINANCE_QUANTIZATION@), true, cr),
        rest.len() % 8 == 0,
        is_image_read(
            image_bits(Seq::empty(), dimensions, subsampling, y, cb, cr) + rest,
            r,
            behind,
        ),
    ensures
        r is Ok,
        behind == rest,
        r->Ok_0.dimensions == dimensions,
        r->Ok_0.subsampling == subsampling,
        is_dequantized_plane(
            table_steps::<T>(IMAGE_LUMINANCE_QUANTIZATION@),
            true,
            y,
            r->Ok_0.y@,
        ),
        is_dequantized_plane(
            table_steps::<T>(IMAGE_CHROMINANCE_QUANTIZATION@),
            true,
            cb,
            r->Ok_0.cb@,
        ),
        is_dequantized_plane(
            table_steps::<T>(IMAGE_CHROMINANCE_QUANTIZATION@),
            true,
            cr,
            r->Ok_0.cr@,
        ),
{
    let luma = table_steps::<T>(IMAGE_LUMINANCE_QUANTIZATION@);
    let chroma = table_steps::<T>(IMAGE_CHROMINANCE_QUANTIZATION@);
    let bits = image_bits(Seq::empty(), dimensions, subsampling, y, cb, cr) + rest;
    let code = be_bits(subsampling.code() as nat, 8);
    let cr_on = plane_bits(cr) + rest;
    let cb_on = plane_bits(cb) + cr_on;
    let y_on = plane_bits(y) + cb_on;
    assert(cr_on.len() % 8 == 0 && cb_on.len() % 8 == 0) by {
        lemma_plane_bits_len(cb);
        lemma_plane_bits_len(cr);
    }
    let tail = code + y_on;
    assert(bits.len() >= 64 && read_width(bits) == dimensions.width && read_height(bits)
        == dimensions.height && bits.skip(64) == tail) by {
        lemma_image_layout(dimensions, subsampling, y, cb, cr, rest);
        law_pixel_dimensions_come_back(dimensions, tail);
    }
    assert(tail.len() >= 8 && bits_value(tail.take(8)) == subsampling.code() && tail.skip(8)
        == y_on) by {
        law_subsampling_comes_back(subsampling, y_on);
    }
    assert(holds_plane::<T>(y_on, luma) && plane_samples::<T>(y_on) == flat(y)
        && behind_block(y_on) == cb_on) by {
        lemma_holds_plane(luma, y, cb_on);
    }
    assert(holds_plane::<T>(cb_on, chroma) && plane_samples::<T>(cb_on) == flat(cb)
        && behind_block(cb_on) == cr_on) by {
        lemma_holds_plane(chroma, cb, cr_on);
    }
    assert(holds_plane::<T>(cr_on, chroma) && plane_samples::<T>(cr_on) == flat(cr)
        && behind_block(cr_on) == rest) by {
        lemma_holds_plane(chroma, cr, rest);
    }
    lemma_planes_follow(
        bits,
        dimensions,
        subsampling,
        y_on,
        cb_on,
        cr_on,
        rest,
        flat(y),
        flat(cb),
        flat(cr),
        r,
        behind,
    );
    lemma_plane_comes_back(luma, y, r->Ok_0.y@);
    lemma_plane_comes_back(chroma, cb, r->Ok_0.cb@);
    lemma_plane_comes_back(chroma, cr, r->Ok_0.cr@);
}

/// How the parts of an image lie in a stream.
proof fn lemma_image_layout<T: Sample>(
    dimensions: PixelDimensions,
    subsampling: Subsampling,
    y: Seq<Block<T>>,
    cb: Seq<Block<T>>,
    cr: Seq<Block<T>>,
    rest: Seq<bool>,
)
    ensures
        image_bits(Seq::empty(), dimensions, subsampling, y, cb, cr) + rest
            == dimensions.stream_bits() + (be_bits(subsampling.code() as nat, 8) + (plane_bits(y)
            + (plane_bits(cb) + (plane_bits(cr) + rest)))),
{
    let header = header_bits(dimensions, subsampling);
    let size = dimensions.stream_bits();
    let code = be_bits(subsampling.code() as nat, 8);
    lemma_be_bits_len(subsampling.code() as nat, 8);
    lemma_be_bits_len(dimensions.width as nat, 32);
    lemma_be_bits_len(dimensions.height as nat, 32);
    assert(Seq::<bool>::empty() + header =~= header);
    lemma_padded(header);
    lemma_six_parts(size, code, plane_bits(y), plane_bits(cb), plane_bits(cr), rest);
}

/// Where parts are split makes no difference.
proof fn lemma_six_parts(
    a: Seq<bool>,
    b: Seq<bool>,
    c: Seq<bool>,
    d: Seq<bool>,
    e: Seq<bool>,
    f: Seq<bool>,
)
    ensures
        (a + b) + c + d + e + f == a + (b + (c + (d + (e + f)))),
{
    assert((a + b) + c + d + e + f =~= a + (b + (c + (d + (e + f)))));
}

/// A stream that holds the header and three planes is read.
proof fn lemma_planes_follow<T: Sample>(
    bits: Seq<bool>,
    dimensions: PixelDimensions,
    subsampling: Subsampling,
    y_on: Seq<bool>,
    cb_on: Seq<bool>,
    cr_on: Seq<bool>,
    rest: Seq<bool>,
    y: Seq<T>,
    cb: Seq<T>,
    cr: Seq<T>,
    r: Result<Coefficients<T>>,
    behind: Seq<bool>,
)
    requires
        is_image_read(bits, r, behind),
        bits.len() >= 64,
        read_width(bits) == dimensions.width,
        read_height(bits) == dimensions.height,
        bits.skip(64).len() >= 8,
        bits_value(bits.skip(64).take(8)) == subsampling.code(),
        bits.skip(64).skip(8) == y_on,
        holds_plane::<T>(y_on, table_steps::<T>(IMAGE_LUMINANCE_QUANTIZATION@)),
        plane_samples::<T>(y_on) == y,
        behind_block(y_on) == cb_on,
        holds_plane::<T>(cb_on, table_steps::<T>(IMAGE_CHROMINANCE_QUANTIZATION@)),
        plane_samples::<T>(cb_on) == cb,
        behind_block(cb_on) == cr_on,
        holds_plane::<T>(cr_on, table_steps::<T>(IMAGE_CHROMINANCE_QUANTIZATION@)),
        plane_samples::<T>(cr_on) == cr,
        behind_block(cr_on) == rest,
    ensures
        r is Ok,
        behind == rest,
        r->Ok_0.dimensions == dimensions,
        r->Ok_0.subsampling == subsampling,
        is_plane(y, table_steps::<T>(IMAGE_LUMINANCE_QUANTIZATION@), r->Ok_0.y@),
        is_plane(cb, table_steps::<T>(IMAGE_CHROMINANCE_QUANTIZATION@), r->Ok_0.cb@),
        is_plane(cr, table_steps::<T>(IMAGE_CHROMINANCE_QUANTIZATION@), r->Ok_0.cr@),
{
    reveal(is_image_read);
    assert(r->Ok_0.subsampling.code() == subsampling.code());
    assert(r->Ok_0.subsampling == subsampling);
    assert(r->Ok_0.dimensions == dimensions);
}

/// The samples of blocks stand block after block.
pub proof fn law_blocks_lie_flat<T>(blocks: Seq<Block<T>>, t: int, i: int)
    requires
        0 <= t < blocks.len(),
        0 <= i < 64,
    ensures
        flat(blocks).len() == 64 * blocks.len(),
        flat(blocks)[64 * t + i] == blocks[t]@[i],
{
    lemma_flat(blocks);
}

/// An image is written with its width and height, the number of its subsampling, and the three
/// planes: every luma block counted in the steps of the table for luminance, every chroma
/// block in those of the table for chrominance. An image that lacks a plane is refused.
pub proof fn law_image_is_written_in_steps<U, T: Sample, D: Fn(&Block<U>) -> Block<T>>(
    dct: D,
    group: SubSampleBlockGroup<U>,
    dimensions: PixelDimensions,
    start: Seq<bool>,
    r: Result<()>,
    end: Seq<bool>,
)
    requires
        is_image_written(dct, group, dimensions, start, r, end),
    ensures
        r is Ok <==> group.y@.len() > 0 && group.cb@.len() > 0 && group.cr@.len() > 0,
        r is Err ==> r->Err_0 is InvalidData,
        r is Ok ==> exists|y: Seq<Block<T>>, cb: Seq<Block<T>>, cr: Seq<Block<T>>|
            #![trigger plane_bits(y), plane_bits(cb), plane_bits(cr)]
            {
                &&& end == padded(
                    start + (dimensions.stream_bits() + be_bits(
                        group.subsampling.code() as nat,
                        8,
                    )),
                ) + plane_bits(y) + plane_bits(cb) + plane_bits(cr)
                &&& y.len() == group.y@.len()
                &&& cb.len() == group.cb@.len()
                &&& cr.len() == group.cr@.len()
                &&& forall|t: int|
                    0 <= t < y.len() ==> is_counted_in_steps(
                        dct,
                        IMAGE_LUMINANCE_QUANTIZATION@,
                        group.y@[t],
                        #[trigger] y[t],
                    )
                &&& forall|t: int|
                    0 <= t < cb.len() ==> is_counted_in_steps(
                        dct,
                        IMAGE_CHROMINANCE_QUANTIZATION@,
                        group.cb@[t],
                        #[trigger] cb[t],
                    )
                &&& forall|t: int|
                    0 <= t < cr.len() ==> is_counted_in_steps(
                        dct,
                        IMAGE_CHROMINANCE_QUANTIZATION@,
                        group.cr@[t],
                        #[trigger] cr[t],
                    )
            },
{
    let luma = table_steps::<T>(IMAGE_LUMINANCE_QUANTIZATION@);
    let chroma = table_steps::<T>(IMAGE_CHROMINANCE_QUANTIZATION@);
    if r is Ok {
        let (y, cb, cr) = choose|y: Seq<Block<T>>, cb: Seq<Block<T>>, cr: Seq<Block<T>>|
            {
                &&& is_coded_plane(dct, luma, group.y@, y)
                &&& is_coded_plane(dct, chroma, group.cb@, cb)
                &&& is_coded_plane(dct, chroma, group.cr@, cr)
                &&& are_planes_kept(y, cb, cr)
                &&& end == #[trigger] image_bits(start, dimensions, group.subsampling, y, cb, cr)
            };
        law_plane_is_counted_in_steps(dct, IMAGE_LUMINANCE_QUANTIZATION@, group.y@, y);
        law_plane_is_counted_in_steps(dct, IMAGE_CHROMINANCE_QUANTIZATION@, group.cb@, cb);
        law_plane_is_counted_in_steps(dct, IMAGE_CHROMINANCE_QUANTIZATION@, group.cr@, cr);
        assert(end == padded(start + header_bits(dimensions, group.subsampling)) + plane_bits(y)
            + plane_bits(cb) + plane_bits(cr));
    }
}

} // verus!
