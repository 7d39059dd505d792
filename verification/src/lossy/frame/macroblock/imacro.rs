//! Macroblocks of frames that stand alone.
use vstd::prelude::*;

use super::block_location::{location_read, BlockLocation};
use super::{
    behind_counted, counted_bits, counted_blocks, holds_counted, read_counted, write_counted,
};
use crate::bits::{be_bytes, padded};
use crate::bitstream::{BitStreamReader, BitStreamWriter};
use crate::block::{block_views, blocks_bytes, Block, Blocks};
use crate::bytes::{FromBytes, ToBytes};
use crate::encoders::ans;
use crate::encoders::ans::{
    behind_block, block_payload, compressed_bits, holds_block, is_kept, items_bytes,
    lz4_decompressed, lz4_refused, models, parsed_items,
};
use crate::error::{is_eof, is_failed_to_decode, Result};
use crate::sample::Sample;

verus! {

/// Blocks that are alike, and where they lie.
pub struct IMacroBlock<T> {
    pub location: BlockLocation,
    pub blocks: Vec<Block<T>>,
}

impl<T: Sample> IMacroBlock<T> {
    /// Writes the macroblock.
    pub fn encode(&self, stream: &mut BitStreamWriter) -> (r: Result<()>)
        ensures
            r is Ok,
            final(stream)@ == old(stream)@ + self.location.stream_bits() + counted_bits(
                block_views(self.blocks@),
            ),
    {
        self.location.encode(stream)?;
        write_counted(self.blocks.as_slice(), stream)
    }

    /// Reads a macroblock.
    pub fn decode(stream: &mut BitStreamReader) -> (r: Result<Self>)
        ensures
            ({
                let bits = old(stream)@;
                let body = bits.skip(128);
                if bits.len() < 128 {
                    r is Err && location_read(bits, Err(r->Err_0), final(stream)@)
                } else if body.len() < 32 {
                    is_failed_to_decode(r, "len"@)
                } else if !holds_counted::<T>(body) {
                    is_eof(r)
                } else {
                    &&& r is Ok
                    &&& location_read(bits, Ok(r->Ok_0.location), body)
                    &&& block_views(r->Ok_0.blocks@) == counted_blocks::<T>(body)
                    &&& final(stream)@ == behind_counted::<T>(body)
                }
            }),
    {
        let location = match BlockLocation::decode(stream) {
            Ok(location) => location,
            Err(e) => {
                return Err(e);
            },
        };
        match read_counted::<T>(stream, "len") {
            Ok(blocks) => Ok(IMacroBlock { location, blocks }),
            Err(e) => Err(e),
        }
    }
}

impl<T: Sample> ToBytes for IMacroBlock<T> {
    type Model = (BlockLocation, Seq<Seq<T>>);

    open spec fn model(&self) -> (BlockLocation, Seq<Seq<T>>) {
        (self.location, block_views(self.blocks@))
    }

    open spec fn bytes_of(model: (BlockLocation, Seq<Seq<T>>)) -> Seq<u8> {
        <(BlockLocation, Blocks<T>) as ToBytes>::bytes_of(model)
    }

    fn to_bytes(&self) -> (bytes: Vec<u8>) {
        let mut bytes = self.location.to_bytes();
        let mut blocks = Blocks::list_to_bytes(self.blocks.as_slice());
        bytes.append(&mut blocks);
        bytes
    }
}

impl<T: Sample> FromBytes for IMacroBlock<T> {
    open spec fn parsed(bytes: Seq<u8>) -> Option<((BlockLocation, Seq<Seq<T>>), nat)> {
        <(BlockLocation, Blocks<T>) as FromBytes>::parsed(bytes)
    }

    open spec fn readable(model: (BlockLocation, Seq<Seq<T>>)) -> bool {
        <(BlockLocation, Blocks<T>) as FromBytes>::readable(model)
    }

    proof fn lemma_readable(&self) {
        assert(self.blocks.len() == self.blocks@.len());
    }

    proof fn lemma_parsed_fits(bytes: Seq<u8>) {
        <(BlockLocation, Blocks<T>) as FromBytes>::lemma_parsed_fits(bytes);
    }

    proof fn lemma_comes_back(model: (BlockLocation, Seq<Seq<T>>), rest: Seq<u8>) {
        <(BlockLocation, Blocks<T>) as FromBytes>::lemma_comes_back(model, rest);
    }

    fn from_bytes(bytes: &[u8]) -> (r: Option<(Self, usize)>) {
        match <(BlockLocation, Blocks<T>) as FromBytes>::from_bytes(bytes) {
            Some(((location, blocks), used)) => Some(
                (IMacroBlock { location, blocks: blocks.into_inner() }, used),
            ),
            None => None,
        }
    }
}

/// The macroblocks of a plane.
pub struct IMacroBlocks<T>(Vec<IMacroBlock<T>>);

impl<T> View for IMacroBlocks<T> {
    type V = Seq<IMacroBlock<T>>;

    closed spec fn view(&self) -> Seq<IMacroBlock<T>> {
        self.0@
    }
}

impl<T: Sample> IMacroBlocks<T> {
    /// The list of the macroblocks.
    pub fn new(blocks: Vec<IMacroBlock<T>>) -> (r: Self)
        ensures
            r@ == blocks@,
    {
        IMacroBlocks(blocks)
    }

    /// Hands the macroblocks back.
    pub fn into_inner(self) -> (r: Vec<IMacroBlock<T>>)
        ensures
            r@ == self@,
    {
        self.0
    }

    /// Writes the macroblocks.
    pub fn encode(&self, stream: &mut BitStreamWriter) -> (r: Result<()>)
        ensures
            r is Ok,
            ({
                let bytes = items_bytes::<IMacroBlock<T>>(models(self@));
                &&& final(stream)@ == padded(old(stream)@) + compressed_bits(bytes)
                &&& is_kept(bytes)
            }),
    {
        ans::encode(self.0.as_slice(), stream)
    }

    /// Reads macroblocks.
    pub fn decode(stream: &mut BitStreamReader) -> (r: Result<Self>)
        ensures
            !holds_block(old(stream)@) ==> is_eof(r),
            holds_block(old(stream)@) ==> {
                let payload = block_payload(old(stream)@);
                &&& final(stream)@ == behind_block(old(stream)@)
                &&& !final(stream).ran_out()
                &&& lz4_decompressed(payload) is Err ==> lz4_refused(r, payload)
                &&& lz4_decompressed(payload) is Ok ==> {
                    let items = parsed_items::<IMacroBlock<T>>(lz4_decompressed(payload)->Ok_0);
                    &&& items is Some ==> r is Ok && models((r->Ok_0)@) == items->0
                    &&& items is None ==> r is Err && r->Err_0 is InvalidData
                }
            },
    {
        match ans::decode::<IMacroBlock<T>>(stream) {
            Ok(blocks) => Ok(IMacroBlocks(blocks)),
            Err(e) => Err(e),
        }
    }
}

/// The bytes of a macroblock are its location and its blocks, with their number in eight bytes.
pub proof fn law_location_comes_first<T: Sample>(m: IMacroBlock<T>)
    ensures
        IMacroBlock::<T>::bytes_of(m.model()) == BlockLocation::bytes_of(m.location) + (be_bytes(
            m.blocks@.len(),
            8,
        ) + blocks_bytes(block_views(m.blocks@))),
{
    let location = BlockLocation::bytes_of(m.location);
    let held = be_bytes(m.blocks@.len(), 8) + blocks_bytes(block_views(m.blocks@));
    assert(IMacroBlock::<T>::bytes_of(m.model()) =~= location + held);
}

} // verus!
