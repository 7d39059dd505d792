//! The tables that a frame brings with it.
use vstd::prelude::*;

use super::iframe::{is_frame_read, is_plane, plane_items, read_steps, steps_len};
use crate::bits::{
    be_bits, bytes_bits, lemma_be_bits_len, lemma_bits_bytes_of_bytes_bits, lemma_bytes_bits_len,
};
use crate::bitstream::aligned;
use crate::block::{block_bytes, law_block_comes_back};
use crate::color::{law_subsampling_comes_back, Subsampling};
use crate::dimensions::{law_block_dimensions_come_back, BlockDimensions};
use crate::encoders::ans::behind_block;
use crate::error::Result;
use crate::lossy::SubSampleBlockGroup;
use crate::sample::Sample;

verus! {

proof fn lemma_steps_come_back<T: Sample>(samples: Seq<T>, rest: Seq<bool>)
    requires
        samples.len() == 64,
    ensures
        ({
            let bits = bytes_bits(block_bytes(samples)) + rest;
            &&& bits.len() >= steps_len::<T>()
            &&& read_steps::<T>(bits) == samples
            &&& bits.skip(steps_len::<T>()) == rest
        }),
{
    T::lemma_type();
    let bytes = block_bytes(samples);
    let bits = bytes_bits(bytes) + rest;
    law_block_comes_back(samples, Seq::empty());
    lemma_bytes_bits_len(bytes);
    assert(bits.take(steps_len::<T>()) =~= bytes_bits(bytes));
    assert(bits.skip(steps_len::<T>()) =~= rest);
    lemma_bits_bytes_of_bytes_bits(bytes);
    assert(bytes + Seq::<u8>::empty() =~= bytes);
}

/// A frame that stands alone is read with the tables that it brings: its luma plane is multiplied
/// back with the first one and its chroma planes with the second, whatever they hold.
pub proof fn law_frame_brings_its_tables<T: Sample>(
    dimensions: BlockDimensions,
    luma: Seq<T>,
    chroma: Seq<T>,
    subsampling: Subsampling,
    tail: Seq<bool>,
    zigzag: bool,
    r: Result<SubSampleBlockGroup<T>>,
    rest: Seq<bool>,
)
    requires
        dimensions.width <= u32::MAX,
        dimensions.height <= u32::MAX,
        luma.len() == 64,
        chroma.len() == 64,
        r is Ok,
        is_frame_read(
            dimensions.stream_bits() + (bytes_bits(block_bytes(luma)) + (bytes_bits(
                block_bytes(chroma),
            ) + (be_bits(subsampling.code() as nat, 8) + tail))),
            zigzag,
            r,
            rest,
        ),
    ensures
        ({
            let group = r->Ok_0;
            let planes = dimensions.subsampled(subsampling);
            let cb = aligned(behind_block(tail));
            let cr = aligned(behind_block(cb));
            &&& group.dimensions == dimensions
            &&& group.subsampling == subsampling
            &&& is_plane(luma, zigzag, plane_items::<T>(tail)->0, dimensions, group.y@)
            &&& is_plane(chroma, zigzag, plane_items::<T>(cb)->0, planes, group.cb@)
            &&& is_plane(chroma, zigzag, plane_items::<T>(cr)->0, planes, group.cr@)
            &&& rest == behind_block(cr)
        }),
{
    let code_on = be_bits(subsampling.code() as nat, 8) + tail;
    let chroma_on = bytes_bits(block_bytes(chroma)) + code_on;
    let luma_on = bytes_bits(block_bytes(luma)) + chroma_on;
    let bits = dimensions.stream_bits() + luma_on;
    law_block_dimensions_come_back(dimensions, luma_on);
    lemma_be_bits_len(dimensions.width as nat, 32);
    lemma_be_bits_len(dimensions.height as nat, 32);
    assert(bits.skip(64) =~= luma_on);
    lemma_steps_come_back(luma, chroma_on);
    lemma_steps_come_back(chroma, code_on);
    law_subsampling_comes_back(subsampling, tail);
    let group = r->Ok_0;
    assert(group.subsampling.code() == subsampling.code());
}

} // verus!
