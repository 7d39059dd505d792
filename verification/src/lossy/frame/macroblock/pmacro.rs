//! Macroblocks of frames that are predicted from the frame before.
use vstd::prelude::*;

use super::block_location::{location_read, BlockLocation};
use super::bmacro::Prediction;
use super::{residuals_read, AssemblableMacroBlock, Residuals};
use crate::bits::padded;
use crate::bitstream::{BitStreamReader, BitStreamWriter};
use crate::bytes::{FromBytes, ToBytes};
use crate::encoders::ans;
use crate::encoders::ans::{
    behind_block, block_payload, compressed_bits, holds_block, is_kept, items_bytes,
    lz4_decompressed, lz4_refused, models, parsed_items,
};
use crate::dimensions::{read_height, read_width};
use crate::error::{is_eof, is_failed_to_decode, Error, Result};
use crate::lossy::frame::motion_vector::MotionVector;
use crate::sample::Sample;

verus! {

/// Blocks that moved alike, how far, and what the prediction missed.
pub struct PMacroBlock<T> {
    pub location: BlockLocation,
    pub mv: MotionVector,
    pub residuals: Residuals<T>,
}

impl AssemblableMacroBlock for PMacroBlock<i16> {
    open spec fn at(&self) -> BlockLocation {
        self.location
    }

    open spec fn from(&self) -> Prediction {
        Prediction::Backward(self.mv)
    }

    open spec fn missed(&self) -> Residuals<i16> {
        self.residuals
    }

    fn location(&self) -> &BlockLocation {
        &self.location
    }

    fn prediction(&self) -> Prediction {
        Prediction::Backward(self.mv)
    }

    fn residuals(&self) -> &Residuals<i16> {
        &self.residuals
    }
}

impl<T: Sample> PMacroBlock<T> {
    /// Writes the macroblock.
    pub fn encode(&self, stream: &mut BitStreamWriter) -> (r: Result<()>)
        ensures
            r is Ok,
            final(stream)@ == old(stream)@ + self.location.stream_bits() + self.mv.stream_bits()
                + self.residuals.stream_bits(),
    {
        self.location.encode(stream)?;
        self.mv.encode(stream)?;
        self.residuals.encode(stream)
    }

    /// Reads a macroblock. A vector beyond `isize` is invalid data.
    pub fn decode(stream: &mut BitStreamReader) -> (r: Result<Self>)
        ensures
            ({
                let bits = old(stream)@;
                let body = bits.skip(192);
                if bits.len() < 128 {
                    r is Err && location_read(bits, Err(r->Err_0), final(stream)@)
                } else if bits.len() < 160 {
                    is_failed_to_decode(r, "mv x"@)
                } else if bits.len() < 192 {
                    is_failed_to_decode(r, "mv y"@)
                } else if read_width(bits.skip(128)) > isize::MAX || read_height(bits.skip(128))
                    > isize::MAX {
                    r is Err && r->Err_0 is InvalidData
                } else {
                    &&& r is Err ==> residuals_read(
                        body,
                        Err::<Residuals<T>, Error>(r->Err_0),
                        final(stream)@,
                    )
                    &&& r is Ok ==> {
                        &&& location_read(bits, Ok(r->Ok_0.location), bits.skip(128))
                        &&& r->Ok_0.mv.x == read_width(bits.skip(128))
                        &&& r->Ok_0.mv.y == read_height(bits.skip(128))
                        &&& residuals_read(body, Ok(r->Ok_0.residuals), final(stream)@)
                    }
                }
            }),
    {
        let ghost bits = stream@;
        let location = match BlockLocation::decode(stream) {
            Ok(location) => location,
            Err(e) => {
                return Err(e);
            },
        };
        let mv = match MotionVector::decode(stream) {
            Ok(mv) => mv,
            Err(e) => {
                return Err(e);
            },
        };
        assert(stream@ =~= bits.skip(192));
        match Residuals::decode(stream) {
            Ok(residuals) => Ok(PMacroBlock { location, mv, residuals }),
            Err(e) => Err(e),
        }
    }
}

impl<T: Sample> ToBytes for PMacroBlock<T> {
    type Model = ((BlockLocation, MotionVector), ((Seq<Seq<T>>, Seq<Seq<T>>), Seq<Seq<T>>));

    open spec fn model(&self) -> Self::Model {
        ((self.location, self.mv), self.residuals.model())
    }

    open spec fn bytes_of(model: Self::Model) -> Seq<u8> {
        <((BlockLocation, MotionVector), Residuals<T>) as ToBytes>::bytes_of(model)
    }

    fn to_bytes(&self) -> (bytes: Vec<u8>) {
        let mut bytes = self.location.to_bytes();
        let mut mv = self.mv.to_bytes();
        let mut residuals = self.residuals.to_bytes();
        bytes.append(&mut mv);
        bytes.append(&mut residuals);
        bytes
    }
}

impl<T: Sample> FromBytes for PMacroBlock<T> {
    open spec fn parsed(bytes: Seq<u8>) -> Option<(Self::Model, nat)> {
        <((BlockLocation, MotionVector), Residuals<T>) as FromBytes>::parsed(bytes)
    }

    open spec fn readable(model: Self::Model) -> bool {
        <((BlockLocation, MotionVector), Residuals<T>) as FromBytes>::readable(model)
    }

    proof fn lemma_readable(&self) {
        self.residuals.lemma_readable();
    }

    proof fn lemma_parsed_fits(bytes: Seq<u8>) {
        <((BlockLocation, MotionVector), Residuals<T>) as FromBytes>::lemma_parsed_fits(bytes);
    }

    proof fn lemma_comes_back(model: Self::Model, rest: Seq<u8>) {
        <((BlockLocation, MotionVector), Residuals<T>) as FromBytes>::lemma_comes_back(
            model,
            rest,
        );
    }

    fn from_bytes(bytes: &[u8]) -> (r: Option<(Self, usize)>) {
        match <((BlockLocation, MotionVector), Residuals<T>) as FromBytes>::from_bytes(bytes) {
            Some((((location, mv), residuals), used)) => Some(
                (PMacroBlock { location, mv, residuals }, used),
            ),
            None => None,
        }
    }
}

/// The macroblocks of a frame.
pub struct PMacroBlocks<T>(Vec<PMacroBlock<T>>);

impl<T> View for PMacroBlocks<T> {
    type V = Seq<PMacroBlock<T>>;

    closed spec fn view(&self) -> Seq<PMacroBlock<T>> {
        self.0@
    }
}

impl<T: Sample> PMacroBlocks<T> {
    /// The list of the macroblocks.
    pub fn new(blocks: Vec<PMacroBlock<T>>) -> (r: Self)
        ensures
            r@ == blocks@,
    {
        PMacroBlocks(blocks)
    }

    /// Hands the macroblocks back.
    pub fn into_inner(self) -> (r: Vec<PMacroBlock<T>>)
        ensures
            r@ == self@,
    {
        self.0
    }

    /// Writes the macroblocks.
    pub fn encode(&self, stream: &mut BitStreamWriter) -> (r: Result<()>)
        ensures
            r is Ok,
            ({
                let bytes = items_bytes::<PMacroBlock<T>>(models(self@));
                &&& final(stream)@ == padded(old(stream)@) + compressed_bits(bytes)
                &&& is_kept(bytes)
            }),
    {
        ans::encode(self.0.as_slice(), stream)
    }

    /// Reads macroblocks.
    pub fn decode(stream: &mut BitStreamReader) -> (r: Result<Self>)
        ensures
            !holds_block(old(stream)@) ==> is_eof(r),
            holds_block(old(stream)@) ==> {
                let payload = block_payload(old(stream)@);
                &&& final(stream)@ == behind_block(old(stream)@)
                &&& !final(stream).ran_out()
                &&& lz4_decompressed(payload) is Err ==> lz4_refused(r, payload)
                &&& lz4_decompressed(payload) is Ok ==> {
                    let items = parsed_items::<PMacroBlock<T>>(lz4_decompressed(payload)->Ok_0);
                    &&& items is Some ==> r is Ok && models((r->Ok_0)@) == items->0
                    &&& items is None ==> r is Err && r->Err_0 is InvalidData
                }
            },
    {
        match ans::decode::<PMacroBlock<T>>(stream) {
            Ok(blocks) => Ok(PMacroBlocks(blocks)),
            Err(e) => Err(e),
        }
    }
}

/// The bytes of a macroblock are its location, its vector and its residuals.
pub proof fn law_location_comes_first<T: Sample>(m: PMacroBlock<T>)
    ensures
        PMacroBlock::<T>::bytes_of(m.model()) == BlockLocation::bytes_of(m.location) + (
        MotionVector::bytes_of(m.mv) + Residuals::<T>::bytes_of(m.residuals.model())),
{
    let location = BlockLocation::bytes_of(m.location);
    let mv = MotionVector::bytes_of(m.mv);
    let residuals = Residuals::<T>::bytes_of(m.residuals.model());
    assert(PMacroBlock::<T>::bytes_of(m.model()) =~= location + (mv + residuals));
}

} // verus!
