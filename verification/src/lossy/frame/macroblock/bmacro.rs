//! Macroblocks of frames that are predicted from the frames on both sides.
use vstd::prelude::*;

use super::block_location::BlockLocation;
use super::{AssemblableMacroBlock, Residuals};
use crate::bits::padded;
use crate::bitstream::{BitStreamReader, BitStreamWriter};
use crate::bytes::{FromBytes, ToBytes};
use crate::encoders::ans;
use crate::encoders::ans::{
    behind_block, block_payload, compressed_bits, holds_block, is_kept, items_bytes,
    lz4_decompressed, lz4_refused, models, parsed_items,
};
use crate::error::{is_eof, Result};
use crate::lossy::frame::motion_vector::MotionVector;
use crate::sample::Sample;

verus! {

/// What a macroblock is predicted from.
#[derive(Copy, Clone, PartialEq, Eq, Debug, Structural)]
pub enum Prediction {
    /// The frame that follows.
    Forward(MotionVector),
    /// The frame before.
    Backward(MotionVector),
    /// The mean of both.
    Both { forward: MotionVector, backward: MotionVector },
}

impl Prediction {
    /// The byte that stands for the kind of prediction.
    pub open spec fn code(self) -> u8 {
        match self {
            Prediction::Forward(_) => 0,
            Prediction::Backward(_) => 1,
            Prediction::Both { .. } => 2,
        }
    }

    /// The byte that stands for the kind of prediction.
    pub fn to_code(&self) -> (r: u8)
        ensures
            r == self.code(),
    {
        match self {
            Prediction::Forward(_) => 0,
            Prediction::Backward(_) => 1,
            Prediction::Both { .. } => 2,
        }
    }

    /// The prediction of a kind that points nowhere. A byte that stands for no
    /// kind counts as forward.
    pub open spec fn still(code: u8) -> Prediction {
        let mv = MotionVector { x: 0, y: 0 };
        if code == 1 {
            Prediction::Backward(mv)
        } else if code == 2 {
            Prediction::Both { forward: mv, backward: mv }
        } else {
            Prediction::Forward(mv)
        }
    }
}

impl From<u8> for Prediction {
    fn from(value: u8) -> (r: Self) {
        let mv = MotionVector { x: 0, y: 0 };
        match value {
            1 => Prediction::Backward(mv),
            2 => Prediction::Both { forward: mv, backward: mv },
            _ => Prediction::Forward(mv),
        }
    }
}

impl vstd::std_specs::convert::FromSpecImpl<u8> for Prediction {
    open spec fn obeys_from_spec() -> bool {
        true
    }

    open spec fn from_spec(value: u8) -> Self {
        Prediction::still(value)
    }
}

impl ToBytes for Prediction {
    type Model = Prediction;

    open spec fn model(&self) -> Prediction {
        *self
    }

    open spec fn bytes_of(model: Prediction) -> Seq<u8> {
        seq![model.code()] + match model {
            Prediction::Forward(mv) => MotionVector::bytes_of(mv),
            Prediction::Backward(mv) => MotionVector::bytes_of(mv),
            Prediction::Both { forward, backward } => MotionVector::bytes_of(forward)
                + MotionVector::bytes_of(backward),
        }
    }

    fn to_bytes(&self) -> (bytes: Vec<u8>) {
        let mut bytes: Vec<u8> = Vec::new();
        bytes.push(self.to_code());
        match self {
            Prediction::Forward(mv) => {
                let mut mv = mv.to_bytes();
                bytes.append(&mut mv);
            },
            Prediction::Backward(mv) => {
                let mut mv = mv.to_bytes();
                bytes.append(&mut mv);
            },
            Prediction::Both { forward, backward } => {
                let mut forward = forward.to_bytes();
                let mut backward = backward.to_bytes();
                bytes.append(&mut forward);
                bytes.append(&mut backward);
            },
        }
        assert(bytes@ =~= Self::bytes_of(self.model()));
        bytes
    }
}

impl FromBytes for Prediction {
    open spec fn parsed(bytes: Seq<u8>) -> Option<(Prediction, nat)> {
        if bytes.len() == 0 || bytes[0] > 2 {
            None
        } else if bytes[0] == 2 {
            match <(MotionVector, MotionVector) as FromBytes>::parsed(bytes.skip(1)) {
                None => None,
                Some(((forward, backward), used)) => Some(
                    (Prediction::Both { forward, backward }, 1 + used),
                ),
            }
        } else {
            match MotionVector::parsed(bytes.skip(1)) {
                None => None,
                Some((mv, used)) => if bytes[0] == 0 {
                    Some((Prediction::Forward(mv), 1 + used))
                } else {
                    Some((Prediction::Backward(mv), 1 + used))
                },
            }
        }
    }

    open spec fn readable(model: Prediction) -> bool {
        true
    }

    proof fn lemma_readable(&self) {
    }

    proof fn lemma_parsed_fits(bytes: Seq<u8>) {
        if bytes.len() > 0 {
            MotionVector::lemma_parsed_fits(bytes.skip(1));
            <(MotionVector, MotionVector) as FromBytes>::lemma_parsed_fits(bytes.skip(1));
        }
    }

    proof fn lemma_comes_back(model: Prediction, rest: Seq<u8>) {
        let bytes = Self::bytes_of(model) + rest;
        match model {
            Prediction::Forward(mv) => {
                MotionVector::lemma_comes_back(mv, rest);
                assert(bytes.skip(1) =~= MotionVector::bytes_of(mv) + rest);
            },
            Prediction::Backward(mv) => {
                MotionVector::lemma_comes_back(mv, rest);
                assert(bytes.skip(1) =~= MotionVector::bytes_of(mv) + rest);
            },
            Prediction::Both { forward, backward } => {
                <(MotionVector, MotionVector) as FromBytes>::lemma_comes_back(
                    (forward, backward),
                    rest,
                );
                assert(bytes.skip(1) =~= MotionVector::bytes_of(forward) + MotionVector::bytes_of(
                    backward,
                ) + rest);
            },
        }
    }

    fn from_bytes(bytes: &[u8]) -> (r: Option<(Self, usize)>) {
        if bytes.len() == 0 {
            return None;
        }
        let code: u8 = bytes[0];
        if code > 2 {
            return None;
        }
        let rest = vstd::slice::slice_subrange(bytes, 1, bytes.len());
        proof {
            assert(rest@ =~= bytes@.skip(1));
            MotionVector::lemma_parsed_fits(rest@);
            <(MotionVector, MotionVector) as FromBytes>::lemma_parsed_fits(rest@);
        }
        if code == 2 {
            match <(MotionVector, MotionVector) as FromBytes>::from_bytes(rest) {
                Some(((forward, backward), used)) => Some(
                    (Prediction::Both { forward, backward }, 1 + used),
                ),
                None => None,
            }
        } else {
            match MotionVector::from_bytes(rest) {
                Some((mv, used)) => if code == 0 {
                    Some((Prediction::Forward(mv), 1 + used))
                } else {
                    Some((Prediction::Backward(mv), 1 + used))
                },
                None => None,
            }
        }
    }
}

/// Blocks that are predicted alike, from what, and what the prediction missed.
pub struct BMacroBlock<T> {
    pub location: BlockLocation,
    pub prediction: Prediction,
    pub residuals: Residuals<T>,
}

impl AssemblableMacroBlock for BMacroBlock<i16> {
    open spec fn at(&self) -> BlockLocation {
        self.location
    }

    open spec fn from(&self) -> Prediction {
        self.prediction
    }

    open spec fn missed(&self) -> Residuals<i16> {
        self.residuals
    }

    fn location(&self) -> &BlockLocation {
        &self.location
    }

    fn prediction(&self) -> Prediction {
        self.prediction
    }

    fn residuals(&self) -> &Residuals<i16> {
        &self.residuals
    }
}

impl<T: Sample> ToBytes for BMacroBlock<T> {
    type Model = ((BlockLocation, Prediction), ((Seq<Seq<T>>, Seq<Seq<T>>), Seq<Seq<T>>));

    open spec fn model(&self) -> Self::Model {
        ((self.location, self.prediction), self.residuals.model())
    }

    open spec fn bytes_of(model: Self::Model) -> Seq<u8> {
        <((BlockLocation, Prediction), Residuals<T>) as ToBytes>::bytes_of(model)
    }

    fn to_bytes(&self) -> (bytes: Vec<u8>) {
        let mut bytes = self.location.to_bytes();
        let mut prediction = self.prediction.to_bytes();
        let mut residuals = self.residuals.to_bytes();
        bytes.append(&mut prediction);
        bytes.append(&mut residuals);
        bytes
    }
}

impl<T: Sample> FromBytes for BMacroBlock<T> {
    open spec fn parsed(bytes: Seq<u8>) -> Option<(Self::Model, nat)> {
        <((BlockLocation, Prediction), Residuals<T>) as FromBytes>::parsed(bytes)
    }

    open spec fn readable(model: Self::Model) -> bool {
        <((BlockLocation, Prediction), Residuals<T>) as FromBytes>::readable(model)
    }

    proof fn lemma_readable(&self) {
        self.residuals.lemma_readable();
    }

    proof fn lemma_parsed_fits(bytes: Seq<u8>) {
        <((BlockLocation, Prediction), Residuals<T>) as FromBytes>::lemma_parsed_fits(bytes);
    }

    proof fn lemma_comes_back(model: Self::Model, rest: Seq<u8>) {
        <((BlockLocation, Prediction), Residuals<T>) as FromBytes>::lemma_comes_back(model, rest);
    }

    fn from_bytes(bytes: &[u8]) -> (r: Option<(Self, usize)>) {
        match <((BlockLocation, Prediction), Residuals<T>) as FromBytes>::from_bytes(bytes) {
            Some((((location, prediction), residuals), used)) => Some(
                (BMacroBlock { location, prediction, residuals }, used),
            ),
            None => None,
        }
    }
}

/// The macroblocks of a frame.
pub struct BMacroBlocks<T>(Vec<BMacroBlock<T>>);

impl<T> View for BMacroBlocks<T> {
    type V = Seq<BMacroBlock<T>>;

    closed spec fn view(&self) -> Seq<BMacroBlock<T>> {
        self.0@
    }
}

impl<T: Sample> BMacroBlocks<T> {
    /// The list of the macroblocks.
    pub fn new(blocks: Vec<BMacroBlock<T>>) -> (r: Self)
        ensures
            r@ == blocks@,
    {
        BMacroBlocks(blocks)
    }

    /// Hands the macroblocks back.
    pub fn into_inner(self) -> (r: Vec<BMacroBlock<T>>)
        ensures
            r@ == self@,
    {
        self.0
    }

    /// Writes the macroblocks.
    pub fn encode(&self, stream: &mut BitStreamWriter) -> (r: Result<()>)
        ensures
            r is Ok,
            ({
                let bytes = items_bytes::<BMacroBlock<T>>(models(self@));
                &&& final(stream)@ == padded(old(stream)@) + compressed_bits(bytes)
                &&& is_kept(bytes)
            }),
    {
        ans::encode(self.0.as_slice(), stream)
    }

    /// Reads macroblocks.
    pub fn decode(stream: &mut BitStreamReader) -> (r: Result<Self>)
        ensures
            !holds_block(old(stream)@) ==> is_eof(r),
            holds_block(old(stream)@) ==> {
                let payload = block_payload(old(stream)@);
                &&& final(stream)@ == behind_block(old(stream)@)
                &&& !final(stream).ran_out()
                &&& lz4_decompressed(payload) is Err ==> lz4_refused(r, payload)
                &&& lz4_decompressed(payload) is Ok ==> {
                    let items = parsed_items::<BMacroBlock<T>>(lz4_decompressed(payload)->Ok_0);
                    &&& items is Some ==> r is Ok && models((r->Ok_0)@) == items->0
                    &&& items is None ==> r is Err && r->Err_0 is InvalidData
                }
            },
    {
        match ans::decode::<BMacroBlock<T>>(stream) {
            Ok(blocks) => Ok(BMacroBlocks(blocks)),
            Err(e) => Err(e),
        }
    }
}

/// The bytes of a prediction are a number for the frame that follows, the frame before or both,
/// and the vectors, that of the frame that follows first.
pub proof fn law_prediction_starts_with_its_number(ahead: MotionVector, behind: MotionVector)
    ensures
        Prediction::bytes_of(Prediction::Forward(ahead)) == seq![0u8]
            + MotionVector::bytes_of(ahead),
        Prediction::bytes_of(Prediction::Backward(behind)) == seq![1u8]
            + MotionVector::bytes_of(behind),
        Prediction::bytes_of(Prediction::Both { forward: ahead, backward: behind })
            == seq![2u8] + (MotionVector::bytes_of(ahead) + MotionVector::bytes_of(behind)),
{
}

/// The bytes of a macroblock are its location, its prediction and its residuals.
pub proof fn law_location_comes_first<T: Sample>(m: BMacroBlock<T>)
    ensures
        BMacroBlock::<T>::bytes_of(m.model()) == BlockLocation::bytes_of(m.location) + (
        Prediction::bytes_of(m.prediction) + Residuals::<T>::bytes_of(m.residuals.model())),
{
    let location = BlockLocation::bytes_of(m.location);
    let prediction = Prediction::bytes_of(m.prediction);
    let residuals = Residuals::<T>::bytes_of(m.residuals.model());
    assert(BMacroBlock::<T>::bytes_of(m.model()) =~= location + (prediction + residuals));
}

/// The number of a prediction stands for one of the same sides that does not move, and a number
/// of none for the frame that follows.
pub proof fn law_number_keeps_the_sides(prediction: Prediction, other: u8)
    ensures
        ({
            let still = Prediction::still(prediction.code());
            let mv = MotionVector { x: 0, y: 0 };
            &&& prediction is Forward ==> still == Prediction::Forward(mv)
            &&& prediction is Backward ==> still == Prediction::Backward(mv)
            &&& prediction is Both ==> still == (Prediction::Both { forward: mv, backward: mv })
            &&& other > 2 ==> Prediction::still(other) == Prediction::Forward(mv)
        }),
{
}

} // verus!
