//! The frames of a group that was written are found again in the stream.
use vstd::prelude::*;

use super::data::{
    are_macros_read, header_kind, is_data_read, is_frame_at, is_frame_refused, DecodedFrameData,
};
use super::encode::{
    chroma_len, frame_start, is_bframe_chunk, is_codable_gop, is_iframe_chunk, is_iframe_coded,
    is_pframe_chunk, lemma_frame_start_len, macros_bits, Transform,
};
use super::group::{
    anchors_before, are_gop_chunks, backward_of, forward_of, is_frame_chunk, joined_bits,
};
use super::reader::{
    are_frames_read, continues_gop, has_iframe, is_gop_ended, is_gop_read, is_one_gop,
};
use super::header::{holds_end, holds_frame, lemma_header_bits};
use super::FrameOrder;
use crate::bits::{bytes_bits, lemma_bytes_bits_len};
use crate::bitstream::aligned;
use crate::block::quantization::{
    is_dequantized, lemma_video_steps, table_steps, VIDEO_CHROMINANCE_QUANTIZATION,
    VIDEO_LUMINANCE_QUANTIZATION,
};
use crate::block::zigzag::zagzigged;
use crate::block::{lemma_same_block, Block};
use crate::bytes::{FromBytes, ToBytes};
use crate::dimensions::covered_pixels;
use crate::encoders::ans::{
    compressed_bits, fits_block, is_kept, items_bytes, law_block_comes_back, law_items_come_back,
    models,
};
use crate::error::{Error, Result};
use crate::lossy::frame::assembly::is_assembled;
use crate::lossy::frame::bframe;
use crate::lossy::frame::coding::is_full;
use crate::lossy::frame::iframe::{
    are_planes_kept, frame_bits, is_countable, is_frame_read, is_frame_restored,
    law_frame_comes_back, lemma_frame_start_apart, plane_bytes,
};
use crate::lossy::frame::macroblock::bmacro::BMacroBlock;
use crate::lossy::frame::macroblock::pmacro::PMacroBlock;
use crate::lossy::frame::pframe;
use crate::lossy::frame::pframe::has_rows;
use crate::lossy::frame::prediction::Plane;
use crate::lossy::frame::same::{are_same_macros, is_same_macro, lemma_same_blocks};
use crate::lossy::frame::Kind;
use crate::lossy::transform::{
    is_back_block, is_back_plane, is_coded_plane, is_dequantized_plane, is_restored_plane,
    law_coded_can_come_back, ordered,
};
use crate::lossy::{Picture, SubSampleBlockGroup};

verus! {

/// Taking coefficients back always gives the same block.
pub open spec fn is_steady_back<I: Fn(&Block<i16>) -> Block<i16>>(idct: I) -> bool {
    forall|b: Block<i16>, r: Block<i16>, s: Block<i16>| #[trigger]
        call_ensures(idct, (&b,), r) && #[trigger] call_ensures(idct, (&b,), s) ==> r == s
}

/// Whether a frame can be read again: it has a block for every place, and its
/// size is one that a stream can hold.
pub open spec fn is_sound_frame(frame: Picture<i16>) -> bool {
    &&& is_full(frame)
    &&& has_rows(frame.dimensions)
    &&& frame.dimensions.width <= u32::MAX
    &&& frame.dimensions.height <= u32::MAX
    &&& is_countable(
        frame.dimensions,
        frame.subsampling,
        frame.y.len(),
        frame.cb.len(),
        frame.cr.len(),
    )
}

/// The bytes of a frame that stands alone are few enough for a stream.
pub open spec fn is_iframe_small<D: Fn(&Block<i16>) -> Block<i16>>(
    dct: D,
    frame: Picture<i16>,
) -> bool {
    let luma = table_steps::<i16>(VIDEO_LUMINANCE_QUANTIZATION@);
    let chroma = table_steps::<i16>(VIDEO_CHROMINANCE_QUANTIZATION@);
    let dimensions = frame.dimensions.subsampled(frame.subsampling);
    &&& forall|y: Seq<Block<i16>>| #[trigger]
        is_coded_plane(dct, luma, frame.y, y) ==> fits_block(plane_bytes(y, frame.dimensions))
    &&& forall|cb: Seq<Block<i16>>| #[trigger]
        is_coded_plane(dct, chroma, frame.cb, cb) ==> fits_block(plane_bytes(cb, dimensions))
    &&& forall|cr: Seq<Block<i16>>| #[trigger]
        is_coded_plane(dct, chroma, frame.cr, cr) ==> fits_block(plane_bytes(cr, dimensions))
}

/// The bytes of a frame that is predicted from the one before are few enough for
/// a stream, whatever that is.
pub open spec fn is_pframe_small<C: Fn(Plane, &Block<i16>) -> Block<i16>>(
    code: C,
    frame: Picture<i16>,
) -> bool {
    forall|previous: Picture<i16>, coded: Seq<PMacroBlock<i16>>| #[trigger]
        pframe::are_macroblocks(code, frame, previous, coded) ==> fits_block(
            items_bytes::<PMacroBlock<i16>>(models(coded)),
        )
}

/// The bytes of a frame that is predicted from both sides are few enough for a
/// stream, whatever stands there.
pub open spec fn is_bframe_small<C: Fn(Plane, &Block<i16>) -> Block<i16>>(
    code: C,
    frame: Picture<i16>,
) -> bool {
    forall|
        forward: Option<Picture<i16>>,
        backward: Picture<i16>,
        coded: Seq<BMacroBlock<i16>>,
    | #[trigger]
        bframe::are_macroblocks(code, frame, forward, backward, coded) ==> fits_block(
            items_bytes::<BMacroBlock<i16>>(models(coded)),
        )
}

/// The bytes of a frame are few enough for a stream.
pub open spec fn is_frame_small<
    D: Fn(&Block<i16>) -> Block<i16>,
    I: Fn(&Block<i16>) -> Block<i16>,
    C: Fn(Plane, &Block<i16>) -> Block<i16>,
    R: Fn(Plane, &Block<i16>, &Block<i16>) -> Block<i16>,
>(transform: Transform<D, I, C, R>, frame: Picture<i16>, kind: Kind) -> bool {
    match kind {
        Kind::I => is_iframe_small(transform.dct, frame),
        Kind::P => is_pframe_small(transform.code, frame),
        Kind::B => is_bframe_small(transform.code, frame),
    }
}

/// A stream that starts with a frame holds it.
proof fn lemma_starts_with_frame(frame: Picture<i16>, kind: Kind, tail: Seq<bool>)
    ensures
        ({
            let bits = frame_start(frame, kind) + tail;
            &&& holds_frame(bits)
            &&& !holds_end(bits)
            &&& header_kind(bits) == kind
            &&& bits.skip(88) == tail
        }),
{
    lemma_header_bits(frame.subsampling, covered_pixels(frame.dimensions), kind, tail);
}

/// The stream says that a frame that stands alone comes.
pub proof fn lemma_holds_planes(
    frame: Picture<i16>,
    y: Seq<Block<i16>>,
    cb: Seq<Block<i16>>,
    cr: Seq<Block<i16>>,
    rest: Seq<bool>,
)
    ensures
        ({
            let bits = frame_bits(
                frame_start(frame, Kind::I),
                frame.dimensions,
                frame.subsampling,
                y,
                cb,
                cr,
            ) + rest;
            &&& holds_frame(bits)
            &&& !holds_end(bits)
            &&& header_kind(bits) == Kind::I
            &&& bits.skip(88) == frame_bits(
                Seq::empty(),
                frame.dimensions,
                frame.subsampling,
                y,
                cb,
                cr,
            ) + rest
        }),
{
    let start = frame_start(frame, Kind::I);
    let body = frame_bits(Seq::empty(), frame.dimensions, frame.subsampling, y, cb, cr);
    assert(start.len() % 8 == 0) by {
        lemma_frame_start_len(frame, Kind::I);
    }
    lemma_frame_start_apart(start, frame.dimensions, frame.subsampling, y, cb, cr);
    lemma_parts(start, body, rest);
    lemma_starts_with_frame(frame, Kind::I, body + rest);
}

/// The stream says that a predicted frame comes.
pub proof fn lemma_holds_macros<M: ToBytes>(
    frame: Picture<i16>,
    kind: Kind,
    coded: Seq<M>,
    rest: Seq<bool>,
)
    ensures
        ({
            let bits = macros_bits(frame_start(frame, kind), coded) + rest;
            &&& holds_frame(bits)
            &&& !holds_end(bits)
            &&& header_kind(bits) == kind
            &&& bits.skip(88) == compressed_bits(items_bytes::<M>(models(coded))) + rest
        }),
{
    let start = frame_start(frame, kind);
    let body = compressed_bits(items_bytes::<M>(models(coded)));
    lemma_parts(start, body, rest);
    lemma_starts_with_frame(frame, kind, body + rest);
}

proof fn lemma_parts(a: Seq<bool>, b: Seq<bool>, c: Seq<bool>)
    ensures
        a + b + c == a + (b + c),
{
    assert(a + b + c =~= a + (b + c));
}

/// Macroblocks that were written are read back.
proof fn lemma_macros_read<M: FromBytes>(
    coded: Seq<M>,
    rest: Seq<bool>,
    r: Result<Seq<M>>,
    behind: Seq<bool>,
)
    requires
        is_kept(items_bytes::<M>(models(coded))),
        fits_block(items_bytes::<M>(models(coded))),
        rest.len() % 8 == 0,
        are_macros_read(compressed_bits(items_bytes::<M>(models(coded))) + rest, r, behind),
    ensures
        r is Ok,
        models(r->Ok_0) == models(coded),
        behind == rest,
{
    let items = models(coded);
    law_block_comes_back(items_bytes::<M>(items), rest);
    assert forall|i: int| 0 <= i < items.len() implies M::readable(#[trigger] items[i]) by {
        coded[i].lemma_readable();
    }
    law_items_come_back::<M>(items);
}

/// Macroblocks with the same models say the same.
proof fn lemma_same_pmacros(a: Seq<PMacroBlock<i16>>, b: Seq<PMacroBlock<i16>>)
    requires
        models(a) == models(b),
    ensures
        are_same_macros(a, b),
{
    assert(models(a).len() == a.len() && models(b).len() == b.len());
    assert forall|j: int| 0 <= j < a.len() implies is_same_macro(#[trigger] a[j], b[j]) by {
        assert(models(a)[j] == a[j].model());
        assert(models(b)[j] == b[j].model());
        lemma_same_blocks(a[j].residuals.y@, b[j].residuals.y@);
        lemma_same_blocks(a[j].residuals.cb@, b[j].residuals.cb@);
        lemma_same_blocks(a[j].residuals.cr@, b[j].residuals.cr@);
    }
}

/// Macroblocks with the same models say the same.
proof fn lemma_same_bmacros(a: Seq<BMacroBlock<i16>>, b: Seq<BMacroBlock<i16>>)
    requires
        models(a) == models(b),
    ensures
        are_same_macros(a, b),
{
    assert(models(a).len() == a.len() && models(b).len() == b.len());
    assert forall|j: int| 0 <= j < a.len() implies is_same_macro(#[trigger] a[j], b[j]) by {
        assert(models(a)[j] == a[j].model());
        assert(models(b)[j] == b[j].model());
        lemma_same_blocks(a[j].residuals.y@, b[j].residuals.y@);
        lemma_same_blocks(a[j].residuals.cb@, b[j].residuals.cb@);
        lemma_same_blocks(a[j].residuals.cr@, b[j].residuals.cr@);
    }
}

/// What was read is what was coded from the frame before, and a reader will see
/// `r` of it.
pub open spec fn is_pframe_back<
    C: Fn(Plane, &Block<i16>) -> Block<i16>,
    R: Fn(Plane, &Block<i16>, &Block<i16>) -> Block<i16>,
>(
    code: C,
    restore: R,
    frame: Picture<i16>,
    previous: Picture<i16>,
    r: Picture<i16>,
    read: Seq<PMacroBlock<i16>>,
) -> bool {
    exists|coded: Seq<PMacroBlock<i16>>|
        {
            &&& #[trigger] pframe::are_macroblocks(code, frame, previous, coded)
            &&& is_assembled(restore, None, previous, coded, r)
            &&& are_same_macros(read, coded)
        }
}

/// What was read is what was coded from both sides.
pub open spec fn is_bframe_back<C: Fn(Plane, &Block<i16>) -> Block<i16>>(
    code: C,
    frame: Picture<i16>,
    forward: Option<Picture<i16>>,
    backward: Picture<i16>,
    read: Seq<BMacroBlock<i16>>,
) -> bool {
    exists|coded: Seq<BMacroBlock<i16>>|
        {
            &&& #[trigger] bframe::are_macroblocks(code, frame, forward, backward, coded)
            &&& are_same_macros(read, coded)
        }
}

/// The macroblocks of a frame that is predicted from the one before are read
/// back.
pub proof fn lemma_pmacros_read<I: Fn(&Block<i16>) -> Block<i16>>(
    idct: I,
    frame: Picture<i16>,
    coded: Seq<PMacroBlock<i16>>,
    bits: Seq<bool>,
    rest: Seq<bool>,
    r: Result<DecodedFrameData>,
    behind: Seq<bool>,
)
    requires
        is_kept(items_bytes::<PMacroBlock<i16>>(models(coded))),
        fits_block(items_bytes::<PMacroBlock<i16>>(models(coded))),
        bits == macros_bits(frame_start(frame, Kind::P), coded),
        rest.len() % 8 == 0,
        is_data_read(idct, Kind::P, (bits + rest).skip(88), r, behind),
    ensures
        r is Ok,
        r->Ok_0 is PFrame,
        are_same_macros(r->Ok_0->PFrame_0@, coded),
        behind == rest,
{
    reveal(is_data_read);
    let body = compressed_bits(items_bytes::<PMacroBlock<i16>>(models(coded)));
    lemma_holds_macros(frame, Kind::P, coded, rest);
    let (macros, end) = choose|macros: Result<Seq<PMacroBlock<i16>>>, end: Seq<bool>|
        {
            &&& #[trigger] are_macros_read(body + rest, macros, end)
            &&& macros is Err ==> r is Err && r->Err_0 == macros->Err_0
            &&& macros is Ok ==> r is Ok && r->Ok_0 is PFrame && r->Ok_0->PFrame_0@
                == macros->Ok_0 && behind == aligned(end)
        };
    lemma_macros_read(coded, rest, macros, end);
    lemma_same_pmacros(macros->Ok_0, coded);
    assert(aligned(end) =~= rest);
}

proof fn lemma_pframe_read<
    I: Fn(&Block<i16>) -> Block<i16>,
    C: Fn(Plane, &Block<i16>) -> Block<i16>,
    R: Fn(Plane, &Block<i16>, &Block<i16>) -> Block<i16>,
>(
    idct: I,
    code: C,
    restore: R,
    frame: Picture<i16>,
    previous: Picture<i16>,
    bits: Seq<bool>,
    shown: Picture<i16>,
    rest: Seq<bool>,
    r: Result<DecodedFrameData>,
    behind: Seq<bool>,
)
    requires
        is_pframe_chunk(code, restore, frame, previous, bits, shown),
        is_pframe_small(code, frame),
        rest.len() % 8 == 0,
        is_data_read(idct, Kind::P, (bits + rest).skip(88), r, behind),
    ensures
        r is Ok,
        r->Ok_0 is PFrame,
        is_pframe_back(code, restore, frame, previous, shown, r->Ok_0->PFrame_0@),
        behind == rest,
{
    let coded = choose|coded: Seq<PMacroBlock<i16>>|
        {
            &&& #[trigger] pframe::are_macroblocks(code, frame, previous, coded)
            &&& is_kept(items_bytes::<PMacroBlock<i16>>(models(coded)))
            &&& bits == macros_bits(frame_start(frame, Kind::P), coded)
            &&& is_assembled(restore, None, previous, coded, shown)
        };
    lemma_pmacros_read(idct, frame, coded, bits, rest, r, behind);
}

proof fn lemma_bframe_read<
    I: Fn(&Block<i16>) -> Block<i16>,
    C: Fn(Plane, &Block<i16>) -> Block<i16>,
>(
    idct: I,
    code: C,
    frame: Picture<i16>,
    forward: Option<Picture<i16>>,
    backward: Picture<i16>,
    bits: Seq<bool>,
    rest: Seq<bool>,
    r: Result<DecodedFrameData>,
    behind: Seq<bool>,
)
    requires
        is_bframe_chunk(code, frame, forward, backward, bits),
        is_bframe_small(code, frame),
        rest.len() % 8 == 0,
        is_data_read(idct, Kind::B, (bits + rest).skip(88), r, behind),
    ensures
        r is Ok,
        r->Ok_0 is BFrame,
        is_bframe_back(code, frame, forward, backward, r->Ok_0->BFrame_0@),
        behind == rest,
{
    reveal(is_data_read);
    let coded = choose|coded: Seq<BMacroBlock<i16>>|
        {
            &&& #[trigger] bframe::are_macroblocks(code, frame, forward, backward, coded)
            &&& is_kept(items_bytes::<BMacroBlock<i16>>(models(coded)))
            &&& bits == macros_bits(frame_start(frame, Kind::B), coded)
        };
    let body = compressed_bits(items_bytes::<BMacroBlock<i16>>(models(coded)));
    lemma_holds_macros(frame, Kind::B, coded, rest);
    let (macros, end) = choose|macros: Result<Seq<BMacroBlock<i16>>>, end: Seq<bool>|
        {
            &&& #[trigger] are_macros_read(body + rest, macros, end)
            &&& macros is Err ==> r is Err && r->Err_0 == macros->Err_0
            &&& macros is Ok ==> r is Ok && r->Ok_0 is BFrame && r->Ok_0->BFrame_0@
                == macros->Ok_0 && behind == aligned(end)
        };
    lemma_macros_read(coded, rest, macros, end);
    lemma_same_bmacros(macros->Ok_0, coded);
    assert(aligned(end) =~= rest);
}

/// A plane that was multiplied back and taken back is one.
proof fn lemma_back_plane_same<I: Fn(&Block<i16>) -> Block<i16>>(
    idct: I,
    steps: Seq<i16>,
    coded: Seq<Block<i16>>,
    r: Seq<Block<i16>>,
    s: Seq<Block<i16>>,
)
    requires
        is_steady_back(idct),
        is_back_plane(idct, steps, coded, r),
        is_back_plane(idct, steps, coded, s),
    ensures
        r == s,
{
    assert forall|t: int| 0 <= t < r.len() implies r[t] == s[t] by {
        assert(is_back_block(idct, steps, coded[t], r[t]));
        assert(is_back_block(idct, steps, coded[t], s[t]));
        let a = choose|c: Block<i16>|
            {
                &&& is_dequantized(steps, zagzigged(coded[t]@), c@)
                &&& #[trigger] call_ensures(idct, (&c,), r[t])
            };
        let b = choose|c: Block<i16>|
            {
                &&& is_dequantized(steps, zagzigged(coded[t]@), c@)
                &&& #[trigger] call_ensures(idct, (&c,), s[t])
            };
        lemma_dequantized_same(steps, zagzigged(coded[t]@), a, b);
        assert(call_ensures(idct, (&a,), s[t]));
    }
    assert(r =~= s);
}

/// A plane that was multiplied back and then taken back.
proof fn lemma_back_in_two_steps<I: Fn(&Block<i16>) -> Block<i16>>(
    idct: I,
    steps: Seq<i16>,
    coded: Seq<Block<i16>>,
    read: Seq<Block<i16>>,
    r: Seq<Block<i16>>,
)
    requires
        is_dequantized_plane(steps, true, coded, read),
        is_restored_plane(idct, read, r),
    ensures
        is_back_plane(idct, steps, coded, r),
{
    assert forall|t: int| 0 <= t < r.len() implies is_back_block(
        idct,
        steps,
        coded[t],
        #[trigger] r[t],
    ) by {
        assert(is_dequantized(steps, ordered(true, coded[t]@), read[t]@));
        assert(call_ensures(idct, (&read[t],), r[t]));
    }
}

/// Multiplying back gives one block.
proof fn lemma_dequantized_same(
    steps: Seq<i16>,
    quantized: Seq<i16>,
    a: Block<i16>,
    b: Block<i16>,
)
    requires
        is_dequantized(steps, quantized, a@),
        is_dequantized(steps, quantized, b@),
    ensures
        a == b,
{
    assert forall|i: int| 0 <= i < 64 implies a@[i] == b@[i] by {}
    assert(a@ =~= b@);
    lemma_same_block(a, b);
}

/// A frame that stands alone, and was written plane by plane, is read back.
pub proof fn lemma_planes_read<
    D: Fn(&Block<i16>) -> Block<i16>,
    I: Fn(&Block<i16>) -> Block<i16>,
>(
    dct: D,
    idct: I,
    frame: Picture<i16>,
    y: Seq<Block<i16>>,
    cb: Seq<Block<i16>>,
    cr: Seq<Block<i16>>,
    bits: Seq<bool>,
    rest: Seq<bool>,
    r: Result<DecodedFrameData>,
    behind: Seq<bool>,
)
    requires
        is_sound_frame(frame),
        is_coded_plane(dct, table_steps::<i16>(VIDEO_LUMINANCE_QUANTIZATION@), frame.y, y),
        is_coded_plane(dct, table_steps::<i16>(VIDEO_CHROMINANCE_QUANTIZATION@), frame.cb, cb),
        is_coded_plane(dct, table_steps::<i16>(VIDEO_CHROMINANCE_QUANTIZATION@), frame.cr, cr),
        are_planes_kept(frame.dimensions, frame.subsampling, y, cb, cr),
        bits == frame_bits(
            frame_start(frame, Kind::I),
            frame.dimensions,
            frame.subsampling,
            y,
            cb,
            cr,
        ),
        is_iframe_small(dct, frame),
        rest.len() % 8 == 0,
        is_data_read(idct, Kind::I, (bits + rest).skip(88), r, behind),
    ensures
        r is Ok,
        r->Ok_0 is IFrame,
        r->Ok_0->IFrame_0@.dimensions == frame.dimensions,
        r->Ok_0->IFrame_0@.subsampling == frame.subsampling,
        is_back_plane(
            idct,
            table_steps::<i16>(VIDEO_LUMINANCE_QUANTIZATION@),
            y,
            r->Ok_0->IFrame_0@.y,
        ),
        is_back_plane(
            idct,
            table_steps::<i16>(VIDEO_CHROMINANCE_QUANTIZATION@),
            cb,
            r->Ok_0->IFrame_0@.cb,
        ),
        is_back_plane(
            idct,
            table_steps::<i16>(VIDEO_CHROMINANCE_QUANTIZATION@),
            cr,
            r->Ok_0->IFrame_0@.cr,
        ),
        behind == rest,
{
    reveal(is_data_read);
    let luma = table_steps::<i16>(VIDEO_LUMINANCE_QUANTIZATION@);
    let chroma = table_steps::<i16>(VIDEO_CHROMINANCE_QUANTIZATION@);
    let body = frame_bits(Seq::empty(), frame.dimensions, frame.subsampling, y, cb, cr);
    lemma_holds_planes(frame, y, cb, cr, rest);
    let (read, end) = choose|read: Result<SubSampleBlockGroup<i16>>, end: Seq<bool>|
        {
            &&& #[trigger] is_frame_restored(idct, body + rest, true, read, end)
            &&& read is Err ==> r is Err && r->Err_0 == read->Err_0
            &&& read is Ok ==> r is Ok && r->Ok_0 == DecodedFrameData::IFrame(read->Ok_0)
                && behind == aligned(end)
        };
    let planes = choose|planes: Result<SubSampleBlockGroup<i16>>|
        {
            &&& #[trigger] is_frame_read(body + rest, true, planes, end)
            &&& planes is Err ==> read is Err && read->Err_0 == planes->Err_0
            &&& planes is Ok ==> {
                &&& read is Ok
                &&& read->Ok_0.dimensions == planes->Ok_0.dimensions
                &&& read->Ok_0.subsampling == planes->Ok_0.subsampling
                &&& is_restored_plane(idct, planes->Ok_0.y@, read->Ok_0.y@)
                &&& is_restored_plane(idct, planes->Ok_0.cb@, read->Ok_0.cb@)
                &&& is_restored_plane(idct, planes->Ok_0.cr@, read->Ok_0.cr@)
            }
        };
    lemma_video_steps::<i16>();
    law_coded_can_come_back(dct, luma, frame.y, y);
    law_coded_can_come_back(dct, chroma, frame.cb, cb);
    law_coded_can_come_back(dct, chroma, frame.cr, cr);
    law_frame_comes_back(
        frame.dimensions,
        frame.subsampling,
        y,
        cb,
        cr,
        rest,
        planes,
        end,
    );
    lemma_back_in_two_steps(idct, luma, y, planes->Ok_0.y@, read->Ok_0.y@);
    lemma_back_in_two_steps(idct, chroma, cb, planes->Ok_0.cb@, read->Ok_0.cb@);
    lemma_back_in_two_steps(idct, chroma, cr, planes->Ok_0.cr@, read->Ok_0.cr@);
    assert(aligned(end) =~= rest);
}

proof fn lemma_iframe_read<
    D: Fn(&Block<i16>) -> Block<i16>,
    I: Fn(&Block<i16>) -> Block<i16>,
>(
    dct: D,
    idct: I,
    frame: Picture<i16>,
    bits: Seq<bool>,
    shown: Picture<i16>,
    rest: Seq<bool>,
    r: Result<DecodedFrameData>,
    behind: Seq<bool>,
)
    requires
        is_iframe_chunk(dct, idct, frame, bits, shown),
        is_iframe_small(dct, frame),
        is_sound_frame(frame),
        is_steady_back(idct),
        rest.len() % 8 == 0,
        is_data_read(idct, Kind::I, (bits + rest).skip(88), r, behind),
    ensures
        r is Ok,
        r->Ok_0 is IFrame,
        r->Ok_0->IFrame_0@ == shown,
        behind == rest,
{
    let luma = table_steps::<i16>(VIDEO_LUMINANCE_QUANTIZATION@);
    let chroma = table_steps::<i16>(VIDEO_CHROMINANCE_QUANTIZATION@);
    let start = frame_start(frame, Kind::I);
    let (y, cb, cr) = choose|y: Seq<Block<i16>>, cb: Seq<Block<i16>>, cr: Seq<Block<i16>>|
        {
            &&& #[trigger] is_iframe_coded(dct, idct, frame, y, cb, cr, shown)
            &&& are_planes_kept(frame.dimensions, frame.subsampling, y, cb, cr)
            &&& bits == frame_bits(start, frame.dimensions, frame.subsampling, y, cb, cr)
        };
    let n = chroma_len(frame) as int;
    assert(frame.cb.take(n) =~= frame.cb);
    assert(frame.cr.take(n) =~= frame.cr);
    lemma_planes_read(dct, idct, frame, y, cb, cr, bits, rest, r, behind);
    let read = r->Ok_0->IFrame_0@;
    lemma_back_plane_same(idct, luma, y, read.y, shown.y);
    lemma_back_plane_same(idct, chroma, cb, read.cb, shown.cb);
    lemma_back_plane_same(idct, chroma, cr, read.cr, shown.cr);
}

/// What was read is what was written of the frame at a position.
pub open spec fn is_data_back<
    D: Fn(&Block<i16>) -> Block<i16>,
    I: Fn(&Block<i16>) -> Block<i16>,
    C: Fn(Plane, &Block<i16>) -> Block<i16>,
    R: Fn(Plane, &Block<i16>, &Block<i16>) -> Block<i16>,
>(
    transform: Transform<D, I, C, R>,
    order: FrameOrder,
    frames: Seq<Picture<i16>>,
    anchors: Seq<Picture<i16>>,
    idx: int,
    data: DecodedFrameData,
) -> bool {
    let number = anchors_before(order, idx) as int;
    &&& data.kind_of() == order.gop_kind(idx)
    &&& match data {
        DecodedFrameData::IFrame(frame) => frame@ == anchors[number],
        DecodedFrameData::PFrame(read) => is_pframe_back(
            transform.code,
            transform.restore,
            frames[idx],
            anchors[number - 1],
            anchors[number],
            read@,
        ),
        DecodedFrameData::BFrame(read) => is_bframe_back(
            transform.code,
            frames[idx],
            forward_of(order, anchors, idx, frames.len() as int),
            backward_of(order, anchors, idx),
            read@,
        ),
    }
}

/// A frame that was written is read back.
proof fn lemma_frame_read<
    D: Fn(&Block<i16>) -> Block<i16>,
    I: Fn(&Block<i16>) -> Block<i16>,
    C: Fn(Plane, &Block<i16>) -> Block<i16>,
    R: Fn(Plane, &Block<i16>, &Block<i16>) -> Block<i16>,
>(
    transform: Transform<D, I, C, R>,
    order: FrameOrder,
    frames: Seq<Picture<i16>>,
    anchors: Seq<Picture<i16>>,
    idx: int,
    bits: Seq<bool>,
    rest: Seq<bool>,
)
    requires
        is_frame_chunk(transform, order, frames, anchors, idx, bits),
        is_frame_small(transform, frames[idx], order.gop_kind(idx)),
        is_sound_frame(frames[idx]),
        is_steady_back(transform.idct),
        rest.len() % 8 == 0,
    ensures
        holds_frame(bits + rest),
        !holds_end(bits + rest),
        header_kind(bits + rest) == order.gop_kind(idx),
        forall|r: Result<DecodedFrameData>, behind: Seq<bool>| #[trigger]
            is_data_read(transform.idct, order.gop_kind(idx), (bits + rest).skip(88), r, behind)
                ==> r is Ok && behind == rest && is_data_back(
                transform,
                order,
                frames,
                anchors,
                idx,
                r->Ok_0,
            ),
{
    reveal(is_frame_chunk);
    lemma_holds_chunk(transform, order, frames, anchors, idx, bits, rest);
    let number = anchors_before(order, idx) as int;
    assert forall|r: Result<DecodedFrameData>, behind: Seq<bool>| #[trigger]
        is_data_read(
            transform.idct,
            order.gop_kind(idx),
            (bits + rest).skip(88),
            r,
            behind,
        ) implies r is Ok && behind == rest && is_data_back(
        transform,
        order,
        frames,
        anchors,
        idx,
        r->Ok_0,
    ) by {
        match order.gop_kind(idx) {
            Kind::I => {
                lemma_iframe_read(
                    transform.dct,
                    transform.idct,
                    frames[idx],
                    bits,
                    anchors[number],
                    rest,
                    r,
                    behind,
                );
            },
            Kind::P => {
                lemma_pframe_read(
                    transform.idct,
                    transform.code,
                    transform.restore,
                    frames[idx],
                    anchors[number - 1],
                    bits,
                    anchors[number],
                    rest,
                    r,
                    behind,
                );
            },
            Kind::B => {
                lemma_bframe_read(
                    transform.idct,
                    transform.code,
                    frames[idx],
                    forward_of(order, anchors, idx, frames.len() as int),
                    backward_of(order, anchors, idx),
                    bits,
                    rest,
                    r,
                    behind,
                );
            },
        }
    }
}

/// The stream says which kind of frame comes.
proof fn lemma_holds_chunk<
    D: Fn(&Block<i16>) -> Block<i16>,
    I: Fn(&Block<i16>) -> Block<i16>,
    C: Fn(Plane, &Block<i16>) -> Block<i16>,
    R: Fn(Plane, &Block<i16>, &Block<i16>) -> Block<i16>,
>(
    transform: Transform<D, I, C, R>,
    order: FrameOrder,
    frames: Seq<Picture<i16>>,
    anchors: Seq<Picture<i16>>,
    idx: int,
    bits: Seq<bool>,
    rest: Seq<bool>,
)
    requires
        is_frame_chunk(transform, order, frames, anchors, idx, bits),
    ensures
        holds_frame(bits + rest),
        !holds_end(bits + rest),
        header_kind(bits + rest) == order.gop_kind(idx),
{
    reveal(is_frame_chunk);
    let frame = frames[idx];
    let number = anchors_before(order, idx) as int;
    match order.gop_kind(idx) {
        Kind::I => {
            let (y, cb, cr) = choose|
                y: Seq<Block<i16>>,
                cb: Seq<Block<i16>>,
                cr: Seq<Block<i16>>,
            |
                {
                    &&& #[trigger] is_iframe_coded(
                        transform.dct,
                        transform.idct,
                        frame,
                        y,
                        cb,
                        cr,
                        anchors[number],
                    )
                    &&& bits == frame_bits(
                        frame_start(frame, Kind::I),
                        frame.dimensions,
                        frame.subsampling,
                        y,
                        cb,
                        cr,
                    )
                };
            lemma_holds_planes(frame, y, cb, cr, rest);
        },
        Kind::P => {
            let coded = choose|coded: Seq<PMacroBlock<i16>>|
                {
                    &&& #[trigger] pframe::are_macroblocks(
                        transform.code,
                        frame,
                        anchors[number - 1],
                        coded,
                    )
                    &&& bits == macros_bits(frame_start(frame, Kind::P), coded)
                };
            lemma_holds_macros(frame, Kind::P, coded, rest);
        },
        Kind::B => {
            let coded = choose|coded: Seq<BMacroBlock<i16>>|
                {
                    &&& #[trigger] bframe::are_macroblocks(
                        transform.code,
                        frame,
                        forward_of(order, anchors, idx, frames.len() as int),
                        backward_of(order, anchors, idx),
                        coded,
                    )
                    &&& bits == macros_bits(frame_start(frame, Kind::B), coded)
                };
            lemma_holds_macros(frame, Kind::B, coded, rest);
        },
    }
}

/// The bits of byte strings start with those of the first.
proof fn lemma_joined_first(chunks: Seq<Seq<u8>>)
    requires
        chunks.len() > 0,
    ensures
        joined_bits(chunks) == bytes_bits(chunks[0]) + joined_bits(chunks.skip(1)),
    decreases chunks.len(),
{
    let before = chunks.drop_last();
    if chunks.len() == 1 {
        assert(joined_bits(before) =~= Seq::empty());
        assert(chunks.skip(1) =~= Seq::empty());
        assert(joined_bits(chunks) =~= bytes_bits(chunks[0]) + joined_bits(chunks.skip(1)));
    } else {
        lemma_joined_first(before);
        assert(chunks.skip(1).drop_last() =~= before.skip(1));
        assert(joined_bits(chunks) =~= bytes_bits(chunks[0]) + joined_bits(chunks.skip(1)));
    }
}

/// The bits of byte strings fill whole bytes.
pub proof fn lemma_joined_len(chunks: Seq<Seq<u8>>)
    ensures
        joined_bits(chunks).len() % 8 == 0,
    decreases chunks.len(),
{
    if chunks.len() > 0 {
        lemma_joined_len(chunks.drop_last());
        lemma_bytes_bits_len(chunks.last());
    }
}

/// Whether the frames of a group can be read again: there are as many as a group
/// may have, all of one size and one subsampling.
pub open spec fn is_sound_group(order: FrameOrder, frames: Seq<Picture<i16>>) -> bool {
    &&& 0 < frames.len() <= order.full_image_distance
    &&& is_codable_gop(order, frames)
    &&& forall|i: int|
        0 <= i < frames.len() ==> {
            &&& is_sound_frame(#[trigger] frames[i])
            &&& frames[i].dimensions == frames[0].dimensions
            &&& frames[i].subsampling == frames[0].subsampling
        }
}

/// The bytes of all frames of a group are few enough for a stream.
pub open spec fn are_frames_small<
    D: Fn(&Block<i16>) -> Block<i16>,
    I: Fn(&Block<i16>) -> Block<i16>,
    C: Fn(Plane, &Block<i16>) -> Block<i16>,
    R: Fn(Plane, &Block<i16>, &Block<i16>) -> Block<i16>,
>(transform: Transform<D, I, C, R>, order: FrameOrder, frames: Seq<Picture<i16>>) -> bool {
    forall|i: int|
        0 <= i < frames.len() ==> is_frame_small(
            transform,
            #[trigger] frames[i],
            order.gop_kind(i),
        )
}

/// What was read is what was written of the first frames.
pub open spec fn are_data_back<
    D: Fn(&Block<i16>) -> Block<i16>,
    I: Fn(&Block<i16>) -> Block<i16>,
    C: Fn(Plane, &Block<i16>) -> Block<i16>,
    R: Fn(Plane, &Block<i16>, &Block<i16>) -> Block<i16>,
>(
    transform: Transform<D, I, C, R>,
    order: FrameOrder,
    frames: Seq<Picture<i16>>,
    anchors: Seq<Picture<i16>>,
    data: Seq<DecodedFrameData>,
    n: int,
) -> bool {
    forall|i: int|
        0 <= i < n ==> is_data_back(transform, order, frames, anchors, i, #[trigger] data[i])
}

/// The frames that were read so far are those that were written, and the stream
/// goes on with the next.
proof fn lemma_states<
    D: Fn(&Block<i16>) -> Block<i16>,
    I: Fn(&Block<i16>) -> Block<i16>,
    C: Fn(Plane, &Block<i16>) -> Block<i16>,
    R: Fn(Plane, &Block<i16>, &Block<i16>) -> Block<i16>,
>(
    transform: Transform<D, I, C, R>,
    order: FrameOrder,
    frames: Seq<Picture<i16>>,
    anchors: Seq<Picture<i16>>,
    chunks: Seq<Seq<u8>>,
    rest: Seq<bool>,
    data: Seq<DecodedFrameData>,
    states: Seq<Seq<bool>>,
    n: int,
)
    requires
        is_sound_group(order, frames),
        are_gop_chunks(transform, order, frames, anchors, chunks),
        are_frames_small(transform, order, frames),
        is_steady_back(transform.idct),
        rest.len() % 8 == 0,
        are_frames_read(transform.idct, data, states),
        states.first() == joined_bits(chunks) + rest,
        0 <= n <= data.len(),
        n <= frames.len(),
    ensures
        states[n] == joined_bits(chunks.skip(n)) + rest,
        are_data_back(transform, order, frames, anchors, data, n),
    decreases n,
{
    if n == 0 {
        assert(chunks.skip(0) =~= chunks);
    } else {
        let i = n - 1;
        lemma_states(
            transform,
            order,
            frames,
            anchors,
            chunks,
            rest,
            data,
            states,
            i,
        );
        lemma_next_chunk(transform, order, frames, anchors, chunks, rest, i);
        assert(is_frame_at(transform.idct, states[i], data[i], states[i + 1]));
        let left = joined_bits(chunks.skip(n)) + rest;
        let bits = bytes_bits(chunks[i]);
        assert(is_data_read(
            transform.idct,
            order.gop_kind(i),
            (bits + left).skip(88),
            Ok(data[i]),
            states[n],
        ));
    }
}

/// What comes next in the stream of a group.
pub proof fn lemma_next_chunk<
    D: Fn(&Block<i16>) -> Block<i16>,
    I: Fn(&Block<i16>) -> Block<i16>,
    C: Fn(Plane, &Block<i16>) -> Block<i16>,
    R: Fn(Plane, &Block<i16>, &Block<i16>) -> Block<i16>,
>(
    transform: Transform<D, I, C, R>,
    order: FrameOrder,
    frames: Seq<Picture<i16>>,
    anchors: Seq<Picture<i16>>,
    chunks: Seq<Seq<u8>>,
    rest: Seq<bool>,
    i: int,
)
    requires
        is_sound_group(order, frames),
        are_gop_chunks(transform, order, frames, anchors, chunks),
        are_frames_small(transform, order, frames),
        is_steady_back(transform.idct),
        rest.len() % 8 == 0,
        0 <= i < frames.len(),
    ensures
        ({
            let left = joined_bits(chunks.skip(i + 1)) + rest;
            let stream = joined_bits(chunks.skip(i)) + rest;
            &&& stream == bytes_bits(chunks[i]) + left
            &&& holds_frame(stream)
            &&& !holds_end(stream)
            &&& header_kind(stream) == order.gop_kind(i)
            &&& forall|r: Result<DecodedFrameData>, behind: Seq<bool>| #[trigger]
                is_data_read(transform.idct, order.gop_kind(i), stream.skip(88), r, behind)
                    ==> r is Ok && behind == left && is_data_back(
                    transform,
                    order,
                    frames,
                    anchors,
                    i,
                    r->Ok_0,
                )
        }),
{
    let left = joined_bits(chunks.skip(i + 1)) + rest;
    let bits = bytes_bits(chunks[i]);
    lemma_joined_first(chunks.skip(i));
    assert(chunks.skip(i).skip(1) =~= chunks.skip(i + 1));
    assert(joined_bits(chunks.skip(i)) + rest =~= bits + left);
    lemma_joined_len(chunks.skip(i + 1));
    assert(is_frame_chunk(transform, order, frames, anchors, i, bits));
    assert(is_frame_small(transform, frames[i], order.gop_kind(i)));
    assert(is_sound_frame(frames[i]));
    lemma_frame_read(transform, order, frames, anchors, i, bits, left);
}

/// Only the first frame of a group stands alone.
pub proof fn lemma_one_iframe(order: FrameOrder, idx: int)
    requires
        0 < idx < order.full_image_distance,
    ensures
        order.gop_kind(idx) != Kind::I,
        order.anchor_distance > 0 && idx % (order.anchor_distance as int) == 0
            ==> order.gop_kind(idx) == Kind::P,
        order.anchor_distance == 0 || idx % (order.anchor_distance as int) != 0
            ==> order.gop_kind(idx) == Kind::B,
{
    vstd::arithmetic::div_mod::lemma_small_mod(idx as nat, order.full_image_distance as nat);
}

/// A group that was written is read back, frame by frame, where it is as long as
/// a group may be or the mark of the end follows it.
pub proof fn law_group_is_read<
    D: Fn(&Block<i16>) -> Block<i16>,
    I: Fn(&Block<i16>) -> Block<i16>,
    C: Fn(Plane, &Block<i16>) -> Block<i16>,
    R: Fn(Plane, &Block<i16>, &Block<i16>) -> Block<i16>,
>(
    transform: Transform<D, I, C, R>,
    order: FrameOrder,
    frames: Seq<Picture<i16>>,
    anchors: Seq<Picture<i16>>,
    chunks: Seq<Seq<u8>>,
    rest: Seq<bool>,
    r: Result<(Vec<DecodedFrameData>, bool)>,
    behind: Seq<bool>,
)
    requires
        is_sound_group(order, frames),
        are_gop_chunks(transform, order, frames, anchors, chunks),
        are_frames_small(transform, order, frames),
        is_steady_back(transform.idct),
        rest.len() % 8 == 0,
        frames.len() == order.full_image_distance || holds_end(rest),
        is_gop_read(transform.idct, order, joined_bits(chunks) + rest, r, behind),
    ensures
        r is Ok,
        r->Ok_0.0@.len() == frames.len(),
        are_data_back(
            transform,
            order,
            frames,
            anchors,
            r->Ok_0.0@,
            frames.len() as int,
        ),
        r->Ok_0.1 == (frames.len() < order.full_image_distance),
        behind == if frames.len() < order.full_image_distance {
            rest.skip(8)
        } else {
            rest
        },
{
    let idct = transform.idct;
    let (data, states) = choose|data: Seq<DecodedFrameData>, states: Seq<Seq<bool>>|
        {
            &&& #[trigger] are_frames_read(idct, data, states)
            &&& states.first() == joined_bits(chunks) + rest
            &&& is_one_gop(order, data)
            &&& is_gop_ended(idct, order, data, states.last(), r, behind)
        };
    let len = frames.len() as int;
    if data.len() > len {
        lemma_states(transform, order, frames, anchors, chunks, rest, data, states, len);
        assert(chunks.skip(len) =~= Seq::empty());
        assert(states[len] =~= rest);
        assert(is_frame_at(idct, states[len], data[len], states[len + 1]));
        assert(continues_gop(order, data, len));
        assert(data.take(len).len() == len);
    }
    let n = data.len() as int;
    lemma_states(transform, order, frames, anchors, chunks, rest, data, states, n);
    if n < len {
        lemma_next_chunk(transform, order, frames, anchors, chunks, rest, n);
        let last = states.last();
        if n > 0 {
            lemma_one_iframe(order, n);
        }
        if has_iframe(data) {
            assert(n > 0);
        }
        assert(is_frame_refused(idct, last, r->Err_0, behind));
        assert(is_data_read(
            idct,
            order.gop_kind(n),
            last.skip(88),
            Err::<DecodedFrameData, Error>(r->Err_0),
            behind,
        ));
    } else {
        assert(chunks.skip(len) =~= Seq::empty());
        assert(states.last() =~= rest);
    }
}

} // verus!
