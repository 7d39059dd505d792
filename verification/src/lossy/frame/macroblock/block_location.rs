//! Where a macroblock lies in the grid of blocks.
use vstd::prelude::*;

use crate::bits::be_bytes;
use crate::bitstream::{BitStreamReader, BitStreamWriter};
use crate::bytes::{
    law_words_stand_in_order, lemma_words_bytes_len, lemma_words_come_back, read_word, word_at,
    words_bytes, FromBytes, ToBytes,
};
use crate::color::Subsampling;
use crate::dimensions::{lemma_size_comes_back, read_height, read_width};
use crate::error::{is_failed_to_decode, Error, Result};
use crate::point::Point;

verus! {

/// The number of bytes of a location.
pub const BLOCK_LOCATION_SIZE: usize = 32;

/// The first and the last block of a rectangle.
#[derive(Debug, Clone, Copy, PartialEq, Eq, Structural)]
pub struct BlockLocation {
    pub start: Point,
    pub end: Point,
}

impl Default for BlockLocation {
    fn default() -> (r: Self)
        ensures
            r == (BlockLocation { start: Point { row: 0, col: 0 }, end: Point { row: 0, col: 0 } }),
    {
        BlockLocation { start: Point { row: 0, col: 0 }, end: Point { row: 0, col: 0 } }
    }
}

/// A row of luma blocks as a row of chroma blocks.
pub open spec fn chroma_row(row: int, subsampling: Subsampling) -> int {
    match subsampling {
        Subsampling::Sample420 | Subsampling::Sample411 => row / 2,
        _ => row,
    }
}

/// A column of luma blocks as a column of chroma blocks.
pub open spec fn chroma_col(col: int, subsampling: Subsampling) -> int {
    match subsampling {
        Subsampling::Sample420 | Subsampling::Sample422 => col / 2,
        Subsampling::Sample411 => col / 4,
        _ => col,
    }
}

/// A row of luma blocks as a row of chroma blocks.
pub(crate) fn to_chroma_row(row: usize, subsampling: Subsampling) -> (r: usize)
    ensures
        r == chroma_row(row as int, subsampling),
{
    match subsampling {
        Subsampling::Sample420 | Subsampling::Sample411 => row / 2,
        _ => row,
    }
}

/// A column of luma blocks as a column of chroma blocks.
pub(crate) fn to_chroma_col(col: usize, subsampling: Subsampling) -> (r: usize)
    ensures
        r == chroma_col(col as int, subsampling),
{
    match subsampling {
        Subsampling::Sample420 | Subsampling::Sample422 => col / 2,
        Subsampling::Sample411 => col / 4,
        _ => col,
    }
}

/// What reading a location from a stream gives, and what it leaves of the
/// stream.
pub open spec fn location_read(
    bits: Seq<bool>,
    r: Result<BlockLocation>,
    rest: Seq<bool>,
) -> bool {
    if bits.len() < 32 || 64 <= bits.len() < 96 {
        is_failed_to_decode(r, "row"@)
    } else if bits.len() < 128 {
        is_failed_to_decode(r, "col"@)
    } else {
        &&& r is Ok
        &&& r->Ok_0.start.row == read_width(bits)
        &&& r->Ok_0.start.col == read_height(bits)
        &&& r->Ok_0.end.row == read_width(bits.skip(64))
        &&& r->Ok_0.end.col == read_height(bits.skip(64))
        &&& rest == bits.skip(128)
    }
}

impl BlockLocation {
    /// The four numbers of a location.
    pub open spec fn words(self) -> Seq<nat> {
        seq![
            self.start.row as nat,
            self.start.col as nat,
            self.end.row as nat,
            self.end.col as nat,
        ]
    }

    /// How a stream holds a location: the start and the end.
    pub open spec fn stream_bits(self) -> Seq<bool> {
        self.start.stream_bits() + self.end.stream_bits()
    }

    /// Writes the location.
    pub fn encode(&self, stream: &mut BitStreamWriter) -> (r: Result<()>)
        ensures
            r is Ok,
            final(stream)@ == old(stream)@ + self.stream_bits(),
    {
        let ghost start = stream@;
        self.start.encode(stream)?;
        self.end.encode(stream)?;
        assert(stream@ =~= start + self.stream_bits());
        Ok(())
    }

    /// Reads a location.
    pub fn decode(stream: &mut BitStreamReader) -> (r: Result<Self>)
        ensures
            location_read(old(stream)@, r, final(stream)@),
    {
        let ghost bits = stream@;
        let start = match Point::decode(stream) {
            Ok(start) => start,
            Err(e) => {
                return Err(e);
            },
        };
        let end = match Point::decode(stream) {
            Ok(end) => end,
            Err(e) => {
                return Err(e);
            },
        };
        assert(bits.skip(64).skip(64) =~= bits.skip(128));
        Ok(BlockLocation { start, end })
    }

    /// The location of 32 bytes. Any other number of bytes is a slice that
    /// cannot be converted, and a number beyond `usize` is invalid data.
    pub fn try_from_bytes(bytes: &[u8]) -> (r: Result<Self>)
        ensures
            bytes@.len() != BLOCK_LOCATION_SIZE ==> r is Err && r->Err_0 is SliceConversion,
            bytes@.len() == BLOCK_LOCATION_SIZE ==> {
                &&& Self::parsed(bytes@) is Some ==> r is Ok && r->Ok_0 == (Self::parsed(
                    bytes@,
                )->0).0
                &&& Self::parsed(bytes@) is None ==> r is Err && r->Err_0 is InvalidData
            },
    {
        if bytes.len() != BLOCK_LOCATION_SIZE {
            return Err(Error::SliceConversion);
        }
        match Self::from_bytes(bytes) {
            Some((location, _)) => Ok(location),
            None => Err(Error::InvalidData),
        }
    }

    /// The location of four numbers. Any other count cannot be converted.
    pub fn try_from_words(words: &[usize]) -> (r: Result<Self>)
        ensures
            words@.len() != 4 ==> r is Err && r->Err_0 is SliceConversion,
            words@.len() == 4 ==> r is Ok && r->Ok_0 == (BlockLocation {
                start: Point { row: words@[0], col: words@[1] },
                end: Point { row: words@[2], col: words@[3] },
            }),
    {
        if words.len() != 4 {
            return Err(Error::SliceConversion);
        }
        Ok(
            BlockLocation {
                start: Point { row: words[0], col: words[1] },
                end: Point { row: words[2], col: words[3] },
            },
        )
    }

    /// The chroma blocks that belong to the luma blocks.
    pub open spec fn mapped_to_chroma(self, subsampling: Subsampling) -> Self {
        BlockLocation {
            start: Point {
                row: chroma_row(self.start.row as int, subsampling) as usize,
                col: chroma_col(self.start.col as int, subsampling) as usize,
            },
            end: Point {
                row: chroma_row(self.end.row as int, subsampling) as usize,
                col: chroma_col(self.end.col as int, subsampling) as usize,
            },
        }
    }

    /// The chroma blocks that belong to the luma blocks.
    pub fn map_to_chroma(self, subsampling: Subsampling) -> (r: Self)
        ensures
            r == self.mapped_to_chroma(subsampling),
    {
        BlockLocation {
            start: Point {
                row: to_chroma_row(self.start.row, subsampling),
                col: to_chroma_col(self.start.col, subsampling),
            },
            end: Point {
                row: to_chroma_row(self.end.row, subsampling),
                col: to_chroma_col(self.end.col, subsampling),
            },
        }
    }
}

impl ToBytes for BlockLocation {
    type Model = BlockLocation;

    open spec fn model(&self) -> BlockLocation {
        *self
    }

    open spec fn bytes_of(model: BlockLocation) -> Seq<u8> {
        words_bytes(model.words())
    }

    fn to_bytes(&self) -> (bytes: Vec<u8>) {
        let mut bytes: Vec<u8> = self.start.to_bytes();
        let mut end = self.end.to_bytes();
        bytes.append(&mut end);
        proof {
            let words = self.words();
            assert(words.drop_last().drop_last().drop_last().drop_last() =~= Seq::empty());
            reveal_with_fuel(words_bytes, 5);
            assert(bytes@ =~= words_bytes(words));
        }
        bytes
    }
}

impl FromBytes for BlockLocation {
    open spec fn parsed(bytes: Seq<u8>) -> Option<(BlockLocation, nat)> {
        if bytes.len() < 32 {
            None
        } else if word_at(bytes, 0) <= usize::MAX && word_at(bytes, 1) <= usize::MAX && word_at(
            bytes,
            2,
        ) <= usize::MAX && word_at(bytes, 3) <= usize::MAX {
            Some(
                (
                    BlockLocation {
                        start: Point {
                            row: word_at(bytes, 0) as usize,
                            col: word_at(bytes, 1) as usize,
                        },
                        end: Point {
                            row: word_at(bytes, 2) as usize,
                            col: word_at(bytes, 3) as usize,
                        },
                    },
                    32,
                ),
            )
        } else {
            None
        }
    }

    open spec fn readable(model: BlockLocation) -> bool {
        true
    }

    proof fn lemma_readable(&self) {
    }

    proof fn lemma_parsed_fits(bytes: Seq<u8>) {
    }

    proof fn lemma_comes_back(model: BlockLocation, rest: Seq<u8>) {
        let words = model.words();
        lemma_words_bytes_len(words);
        lemma_words_come_back(words, rest, 0);
        lemma_words_come_back(words, rest, 1);
        lemma_words_come_back(words, rest, 2);
        lemma_words_come_back(words, rest, 3);
    }

    fn from_bytes(bytes: &[u8]) -> (r: Option<(Self, usize)>) {
        if bytes.len() < BLOCK_LOCATION_SIZE {
            return None;
        }
        match (read_word(bytes, 0), read_word(bytes, 1), read_word(bytes, 2), read_word(bytes, 3)) {
            (Some(row), Some(col), Some(end_row), Some(end_col)) => Some(
                (
                    BlockLocation {
                        start: Point { row, col },
                        end: Point { row: end_row, col: end_col },
                    },
                    BLOCK_LOCATION_SIZE,
                ),
            ),
            _ => None,
        }
    }
}

impl From<[usize; 4]> for BlockLocation {
    fn from(words: [usize; 4]) -> (r: Self) {
        BlockLocation {
            start: Point { row: words[0], col: words[1] },
            end: Point { row: words[2], col: words[3] },
        }
    }
}

impl vstd::std_specs::convert::FromSpecImpl<[usize; 4]> for BlockLocation {
    open spec fn obeys_from_spec() -> bool {
        true
    }

    open spec fn from_spec(words: [usize; 4]) -> Self {
        BlockLocation {
            start: Point { row: words@[0], col: words@[1] },
            end: Point { row: words@[2], col: words@[3] },
        }
    }
}

impl BlockLocation {
    /// The four numbers of the location.
    pub fn to_words(&self) -> (r: [usize; 4])
        ensures
            r@ == seq![self.start.row, self.start.col, self.end.row, self.end.col],
    {
        let r: [usize; 4] = [self.start.row, self.start.col, self.end.row, self.end.col];
        assert(r@ =~= seq![self.start.row, self.start.col, self.end.row, self.end.col]);
        r
    }
}

/// A location is written from its first point to its last, the row of each before its
/// column, in streams as in bytes.
pub proof fn law_start_comes_first(location: BlockLocation)
    ensures
        location.stream_bits() == location.start.stream_bits() + location.end.stream_bits(),
        BlockLocation::bytes_of(location).len() == 32,
        BlockLocation::bytes_of(location).subrange(0, 8) == be_bytes(
            location.start.row as nat,
            8,
        ),
        BlockLocation::bytes_of(location).subrange(8, 16) == be_bytes(
            location.start.col as nat,
            8,
        ),
        BlockLocation::bytes_of(location).subrange(16, 24) == be_bytes(
            location.end.row as nat,
            8,
        ),
        BlockLocation::bytes_of(location).subrange(24, 32) == be_bytes(
            location.end.col as nat,
            8,
        ),
{
    law_words_stand_in_order(location.words(), 0);
    law_words_stand_in_order(location.words(), 1);
    law_words_stand_in_order(location.words(), 2);
    law_words_stand_in_order(location.words(), 3);
}

/// A location that was written is read back, and the stream goes on behind it.
pub proof fn law_location_comes_back(
    location: BlockLocation,
    rest: Seq<bool>,
    r: Result<BlockLocation>,
    behind: Seq<bool>,
)
    requires
        location.start.row <= u32::MAX && location.start.col <= u32::MAX,
        location.end.row <= u32::MAX && location.end.col <= u32::MAX,
        location_read(location.stream_bits() + rest, r, behind),
    ensures
        r is Ok,
        r->Ok_0 == location,
        behind == rest,
{
    let end = location.end.stream_bits() + rest;
    let bits = location.stream_bits() + rest;
    assert(bits =~= location.start.stream_bits() + end);
    lemma_size_comes_back(location.start.row as nat, location.start.col as nat, end);
    lemma_size_comes_back(location.end.row as nat, location.end.col as nat, rest);
    assert(bits.skip(64) == end);
    assert(bits.skip(128) =~= end.skip(64));
}

} // verus!
