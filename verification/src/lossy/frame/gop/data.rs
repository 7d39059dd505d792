//! Reading what a stream holds of a frame.
use vstd::prelude::*;

use super::header::{holds_end, holds_frame, is_header_read, read_kind, GroupOfPicturesHeader};
use crate::bitstream::{aligned, BitStreamReader};
use crate::block::Block;
use crate::bytes::FromBytes;
use crate::encoders::ans::{
    behind_block, block_payload, holds_block, lz4_decompressed, lz4_refused, models, parsed_items,
};
use crate::error::{is_eof, Error, Result};
use crate::lossy::frame::bframe::BFrame;
use crate::lossy::frame::iframe::{
    is_frame_restored, law_frame_is_full, lemma_frame_shrinks, IFrame,
};
use crate::lossy::frame::macroblock::bmacro::BMacroBlock;
use crate::lossy::frame::macroblock::pmacro::PMacroBlock;
use crate::lossy::frame::pframe::PFrame;
use crate::lossy::frame::{Kind, FRAME_CODE_I, FRAME_CODE_P};
use crate::lossy::SubSampleBlockGroup;

verus! {

/// What a stream holds of a frame: the frame itself, or the macroblocks that it
/// is put together from.
pub enum DecodedFrameData {
    IFrame(SubSampleBlockGroup<i16>),
    PFrame(Vec<PMacroBlock<i16>>),
    BFrame(Vec<BMacroBlock<i16>>),
}

impl DecodedFrameData {
    /// The kind of the frame.
    pub open spec fn kind_of(self) -> Kind {
        match self {
            DecodedFrameData::IFrame(_) => Kind::I,
            DecodedFrameData::PFrame(_) => Kind::P,
            DecodedFrameData::BFrame(_) => Kind::B,
        }
    }

    /// The kind of the frame.
    pub fn kind(&self) -> (r: Kind)
        ensures
            r == self.kind_of(),
    {
        match self {
            DecodedFrameData::IFrame(_) => Kind::I,
            DecodedFrameData::PFrame(_) => Kind::P,
            DecodedFrameData::BFrame(_) => Kind::B,
        }
    }

    /// Frames that stand alone have as many blocks in both chroma planes.
    pub open spec fn well_formed(self) -> bool {
        self matches DecodedFrameData::IFrame(frame) ==> frame.cb@.len() == frame.cr@.len()
    }
}

/// What reading macroblocks answers.
pub open spec fn are_macros_read<M: FromBytes>(
    bits: Seq<bool>,
    r: Result<Seq<M>>,
    rest: Seq<bool>,
) -> bool {
    let payload = block_payload(bits);
    let items = parsed_items::<M>(lz4_decompressed(payload)->Ok_0);
    if !holds_block(bits) {
        is_eof(r)
    } else if lz4_decompressed(payload) is Err {
        lz4_refused(r, payload)
    } else if items is None {
        r is Err && r->Err_0 is InvalidData
    } else {
        r is Ok && models(r->Ok_0) == items->0 && rest == behind_block(bits)
    }
}

/// What reading the data of a frame answers.
#[verifier::opaque]
pub open spec fn is_data_read<I: Fn(&Block<i16>) -> Block<i16>>(
    idct: I,
    kind: Kind,
    bits: Seq<bool>,
    r: Result<DecodedFrameData>,
    rest: Seq<bool>,
) -> bool {
    match kind {
        Kind::I => exists|frame: Result<SubSampleBlockGroup<i16>>, behind: Seq<bool>|
            {
                &&& #[trigger] is_frame_restored(idct, bits, true, frame, behind)
                &&& frame is Err ==> r is Err && r->Err_0 == frame->Err_0
                &&& frame is Ok ==> r is Ok && r->Ok_0 == DecodedFrameData::IFrame(frame->Ok_0)
                    && rest == aligned(behind)
            },
        Kind::P => exists|macros: Result<Seq<PMacroBlock<i16>>>, behind: Seq<bool>|
            {
                &&& #[trigger] are_macros_read(bits, macros, behind)
                &&& macros is Err ==> r is Err && r->Err_0 == macros->Err_0
                &&& macros is Ok ==> r is Ok && r->Ok_0 is PFrame && r->Ok_0->PFrame_0@
                    == macros->Ok_0 && rest == aligned(behind)
            },
        Kind::B => exists|macros: Result<Seq<BMacroBlock<i16>>>, behind: Seq<bool>|
            {
                &&& #[trigger] are_macros_read(bits, macros, behind)
                &&& macros is Err ==> r is Err && r->Err_0 == macros->Err_0
                &&& macros is Ok ==> r is Ok && r->Ok_0 is BFrame && r->Ok_0->BFrame_0@
                    == macros->Ok_0 && rest == aligned(behind)
            },
    }
}

/// Reads a frame that stands alone, up to the next byte boundary.
fn decode_iframe<I: Fn(&Block<i16>) -> Block<i16> + Sync + Send>(
    idct: &I,
    stream: &mut BitStreamReader,
) -> (r: Result<DecodedFrameData>)
    requires
        forall|b: Block<i16>| #[trigger] call_requires(*idct, (&b,)),
    ensures
        is_data_read(*idct, Kind::I, old(stream)@, r, final(stream)@),
        r is Ok ==> r->Ok_0.kind_of() == Kind::I && r->Ok_0.well_formed() && final(stream)@.len()
            <= old(stream)@.len(),
{
    let ghost bits = stream@;
    let frame = IFrame::<i16>::decode(idct, stream);
    let ghost behind = stream@;
    proof {
        assert(is_frame_restored(*idct, bits, true, frame, behind));
        if frame is Ok {
            law_frame_is_full(*idct, bits, true, frame, behind);
            lemma_frame_shrinks(*idct, bits, true, frame, behind);
        }
    }
    reveal(is_data_read);
    match frame {
        Ok(frame) => {
            stream.align_to_byte()?;
            Ok(DecodedFrameData::IFrame(frame))
        },
        Err(e) => Err(e),
    }
}

/// Reads a frame that is predicted from the one before, up to the next byte
/// boundary.
fn decode_pframe<I: Fn(&Block<i16>) -> Block<i16>>(
    _idct: &I,
    stream: &mut BitStreamReader,
) -> (r: Result<DecodedFrameData>)
    ensures
        is_data_read(*_idct, Kind::P, old(stream)@, r, final(stream)@),
        r is Ok ==> r->Ok_0.kind_of() == Kind::P && final(stream)@.len() <= old(stream)@.len(),
{
    let ghost bits = stream@;
    let read = PFrame::decode(stream);
    let ghost behind = stream@;
    reveal(is_data_read);
    match read {
        Ok(macros) => {
            assert(are_macros_read(bits, Ok(macros@), behind));
            stream.align_to_byte()?;
            Ok(DecodedFrameData::PFrame(macros.into_inner()))
        },
        Err(e) => {
            assert(are_macros_read(bits, Err::<Seq<PMacroBlock<i16>>, Error>(e), behind));
            Err(e)
        },
    }
}

/// Reads a frame that is predicted from both sides, up to the next byte
/// boundary.
fn decode_bframe<I: Fn(&Block<i16>) -> Block<i16>>(
    _idct: &I,
    stream: &mut BitStreamReader,
) -> (r: Result<DecodedFrameData>)
    ensures
        is_data_read(*_idct, Kind::B, old(stream)@, r, final(stream)@),
        r is Ok ==> r->Ok_0.kind_of() == Kind::B && final(stream)@.len() <= old(stream)@.len(),
{
    let ghost bits = stream@;
    let read = BFrame::decode(stream);
    let ghost behind = stream@;
    reveal(is_data_read);
    match read {
        Ok(macros) => {
            assert(are_macros_read(bits, Ok(macros@), behind));
            stream.align_to_byte()?;
            Ok(DecodedFrameData::BFrame(macros.into_inner()))
        },
        Err(e) => {
            assert(are_macros_read(bits, Err::<Seq<BMacroBlock<i16>>, Error>(e), behind));
            Err(e)
        },
    }
}

/// Reads the data of a frame, up to the next byte boundary. `idct` takes
/// coefficients back through the transform.
pub fn decode_frame<I: Fn(&Block<i16>) -> Block<i16> + Sync + Send>(
    idct: &I,
    kind: Kind,
    stream: &mut BitStreamReader,
) -> (r: Result<DecodedFrameData>)
    requires
        forall|b: Block<i16>| #[trigger] call_requires(*idct, (&b,)),
    ensures
        is_data_read(*idct, kind, old(stream)@, r, final(stream)@),
        r is Ok ==> r->Ok_0.kind_of() == kind && r->Ok_0.well_formed() && final(stream)@.len()
            <= old(stream)@.len(),
{
    match kind {
        Kind::I => decode_iframe(idct, stream),
        Kind::P => decode_pframe(idct, stream),
        Kind::B => decode_bframe(idct, stream),
    }
}

/// The kind in a header.
pub open spec fn header_kind(bits: Seq<bool>) -> Kind {
    if read_kind(bits) == FRAME_CODE_I {
        Kind::I
    } else if read_kind(bits) == FRAME_CODE_P {
        Kind::P
    } else {
        Kind::B
    }
}

/// A stream goes on with a frame, which is read as `data` and leaves `rest`.
pub open spec fn is_frame_at<I: Fn(&Block<i16>) -> Block<i16>>(
    idct: I,
    bits: Seq<bool>,
    data: DecodedFrameData,
    rest: Seq<bool>,
) -> bool {
    &&& holds_frame(bits)
    &&& is_data_read(idct, header_kind(bits), bits.skip(88), Ok(data), rest)
}

/// A stream goes on with something that cannot be read, and the error says why.
pub open spec fn is_frame_refused<I: Fn(&Block<i16>) -> Block<i16>>(
    idct: I,
    bits: Seq<bool>,
    error: Error,
    rest: Seq<bool>,
) -> bool {
    if holds_frame(bits) {
        is_data_read(idct, header_kind(bits), bits.skip(88), Err(error), rest)
    } else {
        is_header_read(bits, Err(error), rest)
    }
}

/// A header that was read says what the stream holds.
pub proof fn lemma_header_read(
    bits: Seq<bool>,
    r: Result<GroupOfPicturesHeader>,
    rest: Seq<bool>,
)
    requires
        is_header_read(bits, r, rest),
    ensures
        r is Err ==> !holds_frame(bits) && !holds_end(bits),
        r matches Ok(GroupOfPicturesHeader::End) ==> holds_end(bits) && rest
            == bits.skip(8) && !holds_frame(bits),
        r matches Ok(GroupOfPicturesHeader::Frame { kind, .. }) ==> holds_frame(bits) && kind
            == header_kind(bits) && rest == bits.skip(88) && !holds_end(bits),
{
}

} // verus!
