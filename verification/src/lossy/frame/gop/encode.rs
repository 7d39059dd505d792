//! Coding the frames of a group.
use vstd::prelude::*;

use super::header::{frame_header_bits, header_len, GroupOfPicturesHeader};
use super::FrameOrder;
use crate::bits::{bytes_bits, lemma_be_bits_len, lemma_padded, padded};
use crate::bitstream::BitStreamWriter;
use crate::block::quantization::{
    lemma_table_steps, table_steps, Quantizor, VIDEO_CHROMINANCE_QUANTIZATION,
    VIDEO_LUMINANCE_QUANTIZATION,
};
use crate::block::Block;
use crate::bytes::ToBytes;
use crate::dimensions::{covered_pixels, PixelDimensions};
use crate::encoders::ans::{compressed_bits, is_kept, items_bytes, models};
use crate::error::Result;
use crate::lossy::frame::assembly::{is_assembled, lemma_assembled_len, lemma_like_planes_fit};
use crate::lossy::frame::bframe;
use crate::lossy::frame::bframe::{forward_picture, BFrame};
use crate::lossy::frame::iframe::{
    are_planes_kept, encode_coefficients, frame_bits, is_countable, lemma_compressed_bits_len,
    lemma_frame_bits_len,
};
use crate::lossy::frame::macroblock::bmacro::{BMacroBlock, BMacroBlocks};
use crate::lossy::frame::macroblock::pmacro::{PMacroBlock, PMacroBlocks};
use crate::lossy::frame::pframe;
use crate::lossy::frame::pframe::{has_rows, PFrame};
use crate::lossy::frame::prediction::Plane;
use crate::lossy::frame::Kind;
use crate::lossy::transform::{
    back_plane, code_plane, is_back_plane, is_coded_plane, is_counted_in_steps,
    law_coded_can_come_back, law_plane_is_counted_in_steps,
};
use crate::lossy::{Picture, SubSampleBlockGroup, SubSampleBlockGroupRef};

verus! {

/// What takes the blocks of a video through a transform and back.
pub struct Transform<D, I, C, R> {
    /// Transforms a block.
    pub dct: D,
    /// Takes coefficients back.
    pub idct: I,
    /// Transforms and quantizes what a prediction missed.
    pub code: C,
    /// Takes a prediction and what it missed back.
    pub restore: R,
}

impl<
    D: Fn(&Block<i16>) -> Block<i16>,
    I: Fn(&Block<i16>) -> Block<i16>,
    C: Fn(Plane, &Block<i16>) -> Block<i16>,
    R: Fn(Plane, &Block<i16>, &Block<i16>) -> Block<i16>,
> Transform<D, I, C, R> {
    /// Every block can be taken through the transform and back.
    pub open spec fn takes_all(&self) -> bool {
        &&& forall|b: Block<i16>| #[trigger] call_requires(self.dct, (&b,))
        &&& forall|b: Block<i16>| #[trigger] call_requires(self.idct, (&b,))
        &&& forall|plane: Plane, b: Block<i16>| #[trigger] call_requires(self.code, (plane, &b))
        &&& forall|plane: Plane, p: Block<i16>, b: Block<i16>| #[trigger]
            call_requires(self.restore, (plane, &p, &b))
    }
}

/// The pictures of frames.
pub open spec fn pictures(frames: Seq<SubSampleBlockGroup<i16>>) -> Seq<Picture<i16>> {
    Seq::new(frames.len(), |i: int| frames[i]@)
}

/// The number of chroma blocks that are coded: blocks that only one of the two
/// planes has are left out.
pub open spec fn chroma_len(frame: Picture<i16>) -> nat {
    if frame.cb.len() < frame.cr.len() {
        frame.cb.len()
    } else {
        frame.cr.len()
    }
}

/// Whether a frame can be coded: where it stands alone, its blocks can be
/// counted, and where it is predicted, it has at least one row.
pub open spec fn is_codable(frame: Picture<i16>, kind: Kind) -> bool {
    if kind == Kind::I {
        is_countable(
            frame.dimensions,
            frame.subsampling,
            frame.y.len(),
            chroma_len(frame),
            chroma_len(frame),
        )
    } else {
        has_rows(frame.dimensions)
    }
}

/// Whether all frames of a group can be coded.
pub open spec fn is_codable_gop(order: FrameOrder, frames: Seq<Picture<i16>>) -> bool {
    forall|idx: int|
        0 <= idx < frames.len() ==> {
            &&& is_codable(#[trigger] frames[idx], order.gop_kind(idx))
            &&& order.gop_kind(idx) == Kind::B ==> order.anchor_distance > 0
        }
}

/// Whether blocks fit the grid that macroblocks are made of.
fn can_grid(len: usize, width: usize, height: usize) -> (r: bool)
    ensures
        r == (len > 0 ==> width * height <= usize::MAX && width <= usize::MAX - 3 && height
            <= usize::MAX - 3),
{
    len == 0 || (width.checked_mul(height).is_some() && width <= usize::MAX - 3 && height
        <= usize::MAX - 3)
}

/// Tells whether a frame can be coded.
pub fn can_code(frame: &SubSampleBlockGroupRef<'_, i16>, kind: Kind) -> (r: bool)
    ensures
        r == is_codable(frame@, kind),
{
    if kind == Kind::I {
        let n: usize = if frame.cb.len() < frame.cr.len() {
            frame.cb.len()
        } else {
            frame.cr.len()
        };
        can_count(frame, n, n)
    } else {
        frame.dimensions.height > 0 && frame.dimensions.width.checked_mul(
            frame.dimensions.height,
        ).is_some()
    }
}

/// Tells whether the planes of a frame can be counted.
pub fn can_count(frame: &SubSampleBlockGroupRef<'_, i16>, cb: usize, cr: usize) -> (r: bool)
    ensures
        r == is_countable(
            frame.dimensions,
            frame.subsampling,
            frame.y@.len(),
            cb as nat,
            cr as nat,
        ),
{
    let chroma = frame.dimensions.subsample(frame.subsampling);
    can_grid(frame.y.len(), frame.dimensions.width, frame.dimensions.height) && can_grid(
        cb,
        chroma.width,
        chroma.height,
    ) && can_grid(cr, chroma.width, chroma.height)
}

/// Tells whether all frames of a group can be coded.
pub fn can_code_gop(order: &FrameOrder, frames: &[SubSampleBlockGroup<i16>]) -> (r: bool)
    ensures
        r == is_codable_gop(*order, pictures(frames@)),
{
    let mut idx: usize = 0;
    while idx < frames.len()
        invariant
            idx <= frames@.len(),
            forall|i: int|
                0 <= i < idx ==> {
                    &&& is_codable(#[trigger] pictures(frames@)[i], order.gop_kind(i))
                    &&& order.gop_kind(i) == Kind::B ==> order.anchor_distance > 0
                },
        decreases frames@.len() - idx,
    {
        let kind = order.gop_frame_kind(idx);
        assert(pictures(frames@)[idx as int] == frames@[idx as int]@);
        if !can_code(&frames[idx].as_ref(), kind) || (kind == Kind::B && order.anchor_distance
            == 0) {
            return false;
        }
        idx = idx + 1;
    }
    true
}

/// What stands before the data of a frame.
pub open spec fn frame_start(frame: Picture<i16>, kind: Kind) -> Seq<bool> {
    frame_header_bits(frame.subsampling, covered_pixels(frame.dimensions), kind)
}

/// What stands before the data of a frame fills whole bytes.
pub proof fn lemma_frame_start_len(frame: Picture<i16>, kind: Kind)
    ensures
        frame_start(frame, kind).len() == header_len(),
        padded(frame_start(frame, kind)) == frame_start(frame, kind),
{
    let size = covered_pixels(frame.dimensions);
    lemma_be_bits_len(0, 8);
    lemma_be_bits_len(frame.subsampling.code() as nat, 8);
    lemma_be_bits_len(size.width as nat, 32);
    lemma_be_bits_len(size.height as nat, 32);
    lemma_be_bits_len(kind.code() as nat, 8);
    lemma_padded(frame_start(frame, kind));
}

/// Writes what stands before the data of a frame.
pub(crate) fn write_start(
    frame: &SubSampleBlockGroupRef<'_, i16>,
    kind: Kind,
    stream: &mut BitStreamWriter,
) -> (r: Result<()>)
    ensures
        r is Ok,
        final(stream)@ == old(stream)@ + frame_start(frame@, kind),
{
    let header = GroupOfPicturesHeader::Frame {
        subsampling: frame.subsampling,
        dimensions: PixelDimensions::from(frame.dimensions),
        kind,
    };
    header.encode(stream)
}

/// A frame that stands alone went through the transform, and what a reader will
/// see of it.
pub open spec fn is_iframe_coded<
    D: Fn(&Block<i16>) -> Block<i16>,
    I: Fn(&Block<i16>) -> Block<i16>,
>(
    dct: D,
    idct: I,
    frame: Picture<i16>,
    y: Seq<Block<i16>>,
    cb: Seq<Block<i16>>,
    cr: Seq<Block<i16>>,
    r: Picture<i16>,
) -> bool {
    let luma = table_steps::<i16>(VIDEO_LUMINANCE_QUANTIZATION@);
    let chroma = table_steps::<i16>(VIDEO_CHROMINANCE_QUANTIZATION@);
    let n = chroma_len(frame) as int;
    &&& is_coded_plane(dct, luma, frame.y, y)
    &&& is_coded_plane(dct, chroma, frame.cb.take(n), cb)
    &&& is_coded_plane(dct, chroma, frame.cr.take(n), cr)
    &&& r.dimensions == frame.dimensions
    &&& r.subsampling == frame.subsampling
    &&& is_back_plane(idct, luma, y, r.y)
    &&& is_back_plane(idct, chroma, cb, r.cb)
    &&& is_back_plane(idct, chroma, cr, r.cr)
}

/// The bits of a frame that stands alone, and what a reader will see of it.
pub open spec fn is_iframe_chunk<
    D: Fn(&Block<i16>) -> Block<i16>,
    I: Fn(&Block<i16>) -> Block<i16>,
>(dct: D, idct: I, frame: Picture<i16>, bits: Seq<bool>, r: Picture<i16>) -> bool {
    exists|y: Seq<Block<i16>>, cb: Seq<Block<i16>>, cr: Seq<Block<i16>>|
        {
            &&& #[trigger] is_iframe_coded(dct, idct, frame, y, cb, cr, r)
            &&& are_planes_kept(frame.dimensions, frame.subsampling, y, cb, cr)
            &&& bits == frame_bits(
                frame_start(frame, Kind::I),
                frame.dimensions,
                frame.subsampling,
                y,
                cb,
                cr,
            )
        }
}

/// The bits of macroblocks behind what stands before them.
pub open spec fn macros_bits<M: ToBytes>(start: Seq<bool>, macro_blocks: Seq<M>) -> Seq<bool> {
    start + compressed_bits(items_bytes::<M>(models(macro_blocks)))
}

/// The bits of a frame that is predicted from the one before, and what a reader
/// will see of it.
pub open spec fn is_pframe_chunk<
    C: Fn(Plane, &Block<i16>) -> Block<i16>,
    R: Fn(Plane, &Block<i16>, &Block<i16>) -> Block<i16>,
>(
    code: C,
    restore: R,
    frame: Picture<i16>,
    previous: Picture<i16>,
    bits: Seq<bool>,
    r: Picture<i16>,
) -> bool {
    exists|macro_blocks: Seq<PMacroBlock<i16>>|
        {
            &&& #[trigger] pframe::are_macroblocks(code, frame, previous, macro_blocks)
            &&& is_kept(items_bytes::<PMacroBlock<i16>>(models(macro_blocks)))
            &&& bits == macros_bits(frame_start(frame, Kind::P), macro_blocks)
            &&& is_assembled(restore, None, previous, macro_blocks, r)
        }
}

/// The bits of a frame that is predicted from both sides.
pub open spec fn is_bframe_chunk<C: Fn(Plane, &Block<i16>) -> Block<i16>>(
    code: C,
    frame: Picture<i16>,
    forward: Option<Picture<i16>>,
    backward: Picture<i16>,
    bits: Seq<bool>,
) -> bool {
    exists|macro_blocks: Seq<BMacroBlock<i16>>|
        {
            &&& #[trigger] bframe::are_macroblocks(code, frame, forward, backward, macro_blocks)
            &&& is_kept(items_bytes::<BMacroBlock<i16>>(models(macro_blocks)))
            &&& bits == macros_bits(frame_start(frame, Kind::B), macro_blocks)
        }
}

/// Macroblocks behind whole bytes fill whole bytes.
pub proof fn lemma_macros_bits_len<M: ToBytes>(start: Seq<bool>, macro_blocks: Seq<M>)
    requires
        start.len() % 8 == 0,
    ensures
        macros_bits(start, macro_blocks).len() % 8 == 0,
        padded(macros_bits(start, macro_blocks)) == macros_bits(start, macro_blocks),
{
    lemma_compressed_bits_len(items_bytes::<M>(models(macro_blocks)));
    lemma_padded(macros_bits(start, macro_blocks));
}

/// The bytes of a stream whose bits fill them.
fn whole_bytes(stream: BitStreamWriter) -> (bytes: Vec<u8>)
    requires
        stream@.len() % 8 == 0,
    ensures
        bytes_bits(bytes@) == stream@,
{
    assert(stream@.take(stream@.len() as int) =~= stream@);
    stream.into_inner()
}

/// Codes a frame that stands alone, and tells what a reader will see of it.
pub fn iframe_encode_and_reconstruct<
    D: Fn(&Block<i16>) -> Block<i16> + Sync + Send,
    I: Fn(&Block<i16>) -> Block<i16> + Sync + Send,
>(
    dct: &D,
    idct: &I,
    frame: &SubSampleBlockGroupRef<'_, i16>,
    stream: &mut BitStreamWriter,
) -> (r: Result<SubSampleBlockGroup<i16>>)
    requires
        is_codable(frame@, Kind::I),
        forall|b: Block<i16>| #[trigger] call_requires(*dct, (&b,)),
        forall|b: Block<i16>| #[trigger] call_requires(*idct, (&b,)),
    ensures
        r is Ok,
        exists|y: Seq<Block<i16>>, cb: Seq<Block<i16>>, cr: Seq<Block<i16>>|
            {
                &&& #[trigger] is_iframe_coded(*dct, *idct, frame@, y, cb, cr, r->Ok_0@)
                &&& are_planes_kept(frame.dimensions, frame.subsampling, y, cb, cr)
                &&& final(stream)@ == frame_bits(
                    old(stream)@,
                    frame.dimensions,
                    frame.subsampling,
                    y,
                    cb,
                    cr,
                )
            },
{
    let luma = Quantizor::<i16>::video_luminance();
    let chroma = Quantizor::<i16>::video_chrominance();
    proof {
        lemma_table_steps(luma@, VIDEO_LUMINANCE_QUANTIZATION@);
        lemma_table_steps(chroma@, VIDEO_CHROMINANCE_QUANTIZATION@);
    }
    let n: usize = if frame.cb.len() < frame.cr.len() {
        frame.cb.len()
    } else {
        frame.cr.len()
    };
    let cb_blocks = vstd::slice::slice_subrange(frame.cb, 0, n);
    let cr_blocks = vstd::slice::slice_subrange(frame.cr, 0, n);
    assert(cb_blocks@ =~= frame@.cb.take(n as int));
    assert(cr_blocks@ =~= frame@.cr.take(n as int));
    let y = code_plane(dct, &luma, frame.y);
    let cb = code_plane(dct, &chroma, cb_blocks);
    let cr = code_plane(dct, &chroma, cr_blocks);
    proof {
        law_coded_can_come_back(*dct, luma@, frame.y@, y@);
        law_coded_can_come_back(*dct, chroma@, cb_blocks@, cb@);
        law_coded_can_come_back(*dct, chroma@, cr_blocks@, cr@);
    }
    let y_back = back_plane(idct, &luma, y.as_slice());
    let cb_back = back_plane(idct, &chroma, cb.as_slice());
    let cr_back = back_plane(idct, &chroma, cr.as_slice());
    encode_coefficients(
        frame.dimensions,
        frame.subsampling,
        y.as_slice(),
        cb.as_slice(),
        cr.as_slice(),
        stream,
    )?;
    let r = SubSampleBlockGroup::new(
        frame.dimensions,
        frame.subsampling,
        y_back,
        cb_back,
        cr_back,
    );
    assert(stream@ == frame_bits(
        old(stream)@,
        frame.dimensions,
        frame.subsampling,
        y@,
        cb@,
        cr@,
    ));
    let result: Result<SubSampleBlockGroup<i16>> = Ok(r);
    assert(is_iframe_coded(*dct, *idct, frame@, y@, cb@, cr@, result->Ok_0@));
    result
}

/// Codes a frame that stands alone: its bytes, and what a reader will see of it.
pub fn encode_iframe<
    D: Fn(&Block<i16>) -> Block<i16> + Sync + Send,
    I: Fn(&Block<i16>) -> Block<i16> + Sync + Send,
>(dct: &D, idct: &I, frame: &SubSampleBlockGroupRef<'_, i16>) -> (r: Result<
    (Vec<u8>, SubSampleBlockGroup<i16>),
>)
    requires
        is_codable(frame@, Kind::I),
        forall|b: Block<i16>| #[trigger] call_requires(*dct, (&b,)),
        forall|b: Block<i16>| #[trigger] call_requires(*idct, (&b,)),
    ensures
        r is Ok,
        is_iframe_chunk(*dct, *idct, frame@, bytes_bits(r->Ok_0.0@), r->Ok_0.1@),
        r->Ok_0.1.cb@.len() == r->Ok_0.1.cr@.len(),
{
    let mut stream = BitStreamWriter::new();
    write_start(frame, Kind::I, &mut stream)?;
    let ghost start = stream@;
    proof {
        assert(start =~= frame_start(frame@, Kind::I));
    }
    let back = iframe_encode_and_reconstruct(dct, idct, frame, &mut stream)?;
    let ghost planes = choose|y: Seq<Block<i16>>, cb: Seq<Block<i16>>, cr: Seq<Block<i16>>|
        {
            &&& #[trigger] is_iframe_coded(*dct, *idct, frame@, y, cb, cr, back@)
            &&& are_planes_kept(frame.dimensions, frame.subsampling, y, cb, cr)
            &&& stream@ == frame_bits(start, frame.dimensions, frame.subsampling, y, cb, cr)
        };
    proof {
        lemma_frame_bits_len(
            start,
            frame.dimensions,
            frame.subsampling,
            planes.0,
            planes.1,
            planes.2,
        );
        lemma_padded(stream@);
    }
    stream.flush()?;
    let bytes = whole_bytes(stream);
    assert(is_iframe_coded(*dct, *idct, frame@, planes.0, planes.1, planes.2, back@));
    assert(is_iframe_chunk(*dct, *idct, frame@, bytes_bits(bytes@), back@));
    Ok((bytes, back))
}

/// Codes a frame that is predicted from the one before: its bytes, and what a
/// reader will see of it.
pub fn encode_pframe<
    C: Fn(Plane, &Block<i16>) -> Block<i16> + Sync + Send,
    R: Fn(Plane, &Block<i16>, &Block<i16>) -> Block<i16>,
>(
    code: &C,
    restore: &R,
    frame: &SubSampleBlockGroupRef<'_, i16>,
    previous: &SubSampleBlockGroupRef<'_, i16>,
) -> (r: Result<(Vec<u8>, SubSampleBlockGroup<i16>)>)
    requires
        is_codable(frame@, Kind::P),
        previous.cb@.len() == previous.cr@.len(),
        forall|plane: Plane, b: Block<i16>| #[trigger] call_requires(*code, (plane, &b)),
        forall|plane: Plane, p: Block<i16>, b: Block<i16>| #[trigger]
            call_requires(*restore, (plane, &p, &b)),
    ensures
        r is Ok,
        is_pframe_chunk(
            *code,
            *restore,
            frame@,
            previous@,
            bytes_bits(r->Ok_0.0@),
            r->Ok_0.1@,
        ),
        r->Ok_0.1.cb@.len() == r->Ok_0.1.cr@.len(),
{
    let mut stream = BitStreamWriter::new();
    write_start(frame, Kind::P, &mut stream)?;
    let ghost start = stream@;
    proof {
        assert(start =~= frame_start(frame@, Kind::P));
        lemma_frame_start_len(frame@, Kind::P);
    }
    let macro_blocks = PFrame::new(*frame, *previous).get_macroblocks(code);
    let list = PMacroBlocks::new(macro_blocks);
    list.encode(&mut stream)?;
    proof {
        lemma_macros_bits_len(start, list@);
    }
    stream.align_to_byte()?;
    stream.flush()?;
    let bytes = whole_bytes(stream);
    let macro_blocks = list.into_inner();
    proof {
        lemma_like_planes_fit(macro_blocks@, previous@, false);
    }
    let back = PFrame::reassemble(previous, macro_blocks.as_slice(), restore)?;
    proof {
        lemma_assembled_len(*restore, None, previous@, macro_blocks@, back@);
    }
    assert(pframe::are_macroblocks(*code, frame@, previous@, macro_blocks@));
    assert(is_pframe_chunk(*code, *restore, frame@, previous@, bytes_bits(bytes@), back@));
    Ok((bytes, back))
}

/// Codes a frame that is predicted from both sides.
pub fn encode_bframe<C: Fn(Plane, &Block<i16>) -> Block<i16> + Sync + Send>(
    code: &C,
    frame: &SubSampleBlockGroupRef<'_, i16>,
    forward: Option<SubSampleBlockGroupRef<'_, i16>>,
    backward: &SubSampleBlockGroupRef<'_, i16>,
) -> (r: Result<Vec<u8>>)
    requires
        is_codable(frame@, Kind::B),
        forall|plane: Plane, b: Block<i16>| #[trigger] call_requires(*code, (plane, &b)),
    ensures
        r is Ok,
        is_bframe_chunk(
            *code,
            frame@,
            forward_picture(forward),
            backward@,
            bytes_bits(r->Ok_0@),
        ),
{
    let mut stream = BitStreamWriter::new();
    write_start(frame, Kind::B, &mut stream)?;
    let ghost start = stream@;
    proof {
        assert(start =~= frame_start(frame@, Kind::B));
        lemma_frame_start_len(frame@, Kind::B);
    }
    let macro_blocks = BFrame::new(*frame, forward, *backward).get_macroblocks(code);
    let list = BMacroBlocks::new(macro_blocks);
    list.encode(&mut stream)?;
    proof {
        lemma_macros_bits_len(start, list@);
    }
    stream.align_to_byte()?;
    stream.flush()?;
    let bytes = whole_bytes(stream);
    assert(bframe::are_macroblocks(
        *code,
        frame@,
        forward_picture(forward),
        backward@,
        list@,
    ));
    assert(is_bframe_chunk(
        *code,
        frame@,
        forward_picture(forward),
        backward@,
        bytes_bits(bytes@),
    ));
    Ok(bytes)
}

/// A frame that stands alone is coded block by block: every luma block is counted in the steps
/// of the table for luminance, every chroma block in those of the table for chrominance. The
/// chroma planes are coded as far as both go.
pub proof fn law_frame_is_coded_in_steps<
    D: Fn(&Block<i16>) -> Block<i16>,
    I: Fn(&Block<i16>) -> Block<i16>,
>(
    dct: D,
    idct: I,
    frame: Picture<i16>,
    y: Seq<Block<i16>>,
    cb: Seq<Block<i16>>,
    cr: Seq<Block<i16>>,
    r: Picture<i16>,
)
    requires
        is_iframe_coded(dct, idct, frame, y, cb, cr, r),
    ensures
        y.len() == frame.y.len(),
        cb.len() == cr.len(),
        cb.len() == frame.cb.len() || cb.len() == frame.cr.len(),
        cb.len() <= frame.cb.len() && cb.len() <= frame.cr.len(),
        r.dimensions == frame.dimensions,
        r.subsampling == frame.subsampling,
        r.y.len() == y.len() && r.cb.len() == cb.len() && r.cr.len() == cr.len(),
        forall|t: int|
            0 <= t < y.len() ==> is_counted_in_steps(
                dct,
                VIDEO_LUMINANCE_QUANTIZATION@,
                frame.y[t],
                #[trigger] y[t],
            ),
        forall|t: int|
            0 <= t < cb.len() ==> is_counted_in_steps(
                dct,
                VIDEO_CHROMINANCE_QUANTIZATION@,
                frame.cb[t],
                #[trigger] cb[t],
            ),
        forall|t: int|
            0 <= t < cr.len() ==> is_counted_in_steps(
                dct,
                VIDEO_CHROMINANCE_QUANTIZATION@,
                frame.cr[t],
                #[trigger] cr[t],
            ),
{
    let n = chroma_len(frame) as int;
    law_plane_is_counted_in_steps(dct, VIDEO_LUMINANCE_QUANTIZATION@, frame.y, y);
    law_plane_is_counted_in_steps(dct, VIDEO_CHROMINANCE_QUANTIZATION@, frame.cb.take(n), cb);
    law_plane_is_counted_in_steps(dct, VIDEO_CHROMINANCE_QUANTIZATION@, frame.cr.take(n), cr);
}

} // verus!
