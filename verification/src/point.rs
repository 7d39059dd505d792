//! A place in a grid.
use vstd::prelude::*;
use vstd::std_specs::convert::FromSpec;

use crate::bits::{be_bytes, be_value, lemma_be_value_of_be_bytes, lemma_bytes_bits_of_be_bytes};
use crate::bitstream::{BitStreamReader, BitStreamWriter};
use crate::bytes::{from_be, to_be};
use crate::dimensions::{lemma_size_comes_back, read_height, read_width, size_bits};
use crate::error::{is_failed_to_decode, Error, Result};

verus! {

/// The number of bytes of a point.
pub const POINT_SIZE: usize = 16;

/// A row and a column.
#[derive(Clone, Copy, Debug, PartialEq, Eq, Structural)]
pub struct Point {
    pub row: usize,
    pub col: usize,
}

impl Default for Point {
    fn default() -> (r: Self)
        ensures
            r.row == 0,
            r.col == 0,
    {
        Point { row: 0, col: 0 }
    }
}

impl Point {
    /// How a stream holds a point: the 32 low bits of the row and of the
    /// column.
    pub open spec fn stream_bits(self) -> Seq<bool> {
        size_bits(self.row as nat, self.col as nat)
    }

    /// The bytes of a point: the row and the column in eight bytes each.
    pub open spec fn bytes(self) -> Seq<u8> {
        be_bytes(self.row as nat, 8) + be_bytes(self.col as nat, 8)
    }

    /// Writes the point.
    pub fn encode(&self, stream: &mut BitStreamWriter) -> (r: Result<()>)
        ensures
            r is Ok,
            final(stream)@ == old(stream)@ + self.stream_bits(),
    {
        let ghost start = stream@;
        proof {
            vstd::arithmetic::power2::lemma2_to64();
            crate::bits::lemma_be_bits_mod(self.row as nat, 32);
            crate::bits::lemma_be_bits_mod(self.col as nat, 32);
        }
        stream.write((self.row as u64 % 0x1_0000_0000) as u32)?;
        stream.write((self.col as u64 % 0x1_0000_0000) as u32)?;
        assert(stream@ =~= start + self.stream_bits());
        Ok(())
    }

    /// Reads a point.
    pub fn decode(stream: &mut BitStreamReader) -> (r: Result<Self>)
        ensures
            r is Ok <==> old(stream)@.len() >= 64,
            r is Ok ==> r->Ok_0.row == read_width(old(stream)@) && r->Ok_0.col == read_height(
                old(stream)@,
            ) && final(stream)@ == old(stream)@.skip(64),
            old(stream)@.len() < 32 ==> is_failed_to_decode(r, "row"@),
            32 <= old(stream)@.len() < 64 ==> is_failed_to_decode(r, "col"@),
    {
        let ghost start = stream@;
        let row: u32 = match stream.read::<u32>()? {
            Some(row) => row,
            None => {
                return Err(Error::FailedToDecode("row".to_owned()));
            },
        };
        let col: u32 = match stream.read::<u32>()? {
            Some(col) => col,
            None => {
                return Err(Error::FailedToDecode("col".to_owned()));
            },
        };
        assert(start.skip(32).skip(32) =~= start.skip(64));
        Ok(Point { row: row as usize, col: col as usize })
    }

    /// The bytes of the point.
    pub fn to_bytes(&self) -> (bytes: Vec<u8>)
        ensures
            bytes@ == self.bytes(),
            bytes@.len() == POINT_SIZE,
    {
        let mut bytes = to_be(self.row as u64, 8);
        let mut col = to_be(self.col as u64, 8);
        bytes.append(&mut col);
        bytes
    }

    /// The point of sixteen bytes. Any other number of bytes is a slice that
    /// cannot be converted, and a number beyond `usize` is invalid data.
    pub fn try_from_bytes(bytes: &[u8]) -> (r: Result<Self>)
        ensures
            bytes@.len() != POINT_SIZE ==> r is Err && r->Err_0 is SliceConversion,
            bytes@.len() == POINT_SIZE ==> {
                let row = be_value(bytes@.subrange(0, 8));
                let col = be_value(bytes@.subrange(8, 16));
                &&& row <= usize::MAX && col <= usize::MAX ==> r is Ok && r->Ok_0.row == row
                    && r->Ok_0.col == col
                &&& row > usize::MAX || col > usize::MAX ==> r is Err && r->Err_0 is InvalidData
            },
    {
        if bytes.len() != POINT_SIZE {
            return Err(Error::SliceConversion);
        }
        let row: u64 = from_be(vstd::slice::slice_subrange(bytes, 0, 8));
        let col: u64 = from_be(vstd::slice::slice_subrange(bytes, 8, 16));
        if row > usize::MAX as u64 || col > usize::MAX as u64 {
            return Err(Error::InvalidData);
        }
        Ok(Point { row: row as usize, col: col as usize })
    }
}

impl From<(usize, usize)> for Point {
    fn from(value: (usize, usize)) -> (r: Self) {
        Point { row: value.0, col: value.1 }
    }
}

impl vstd::std_specs::convert::FromSpecImpl<(usize, usize)> for Point {
    open spec fn obeys_from_spec() -> bool {
        true
    }

    open spec fn from_spec(value: (usize, usize)) -> Self {
        Point { row: value.0, col: value.1 }
    }
}

impl From<Point> for (usize, usize) {
    fn from(point: Point) -> (r: Self) {
        (point.row, point.col)
    }
}

impl vstd::std_specs::convert::FromSpecImpl<Point> for (usize, usize) {
    open spec fn obeys_from_spec() -> bool {
        true
    }

    open spec fn from_spec(point: Point) -> Self {
        (point.row, point.col)
    }
}

/// A point that was written is read back, as far as it fits 32 bits, and the
/// stream goes on behind it.
pub proof fn law_point_comes_back(point: Point, rest: Seq<bool>)
    requires
        point.row <= u32::MAX,
        point.col <= u32::MAX,
    ensures
        ({
            let stream = point.stream_bits() + rest;
            &&& stream.len() >= 64
            &&& read_width(stream) == point.row
            &&& read_height(stream) == point.col
            &&& stream.skip(64) == rest
        }),
{
    lemma_size_comes_back(point.row as nat, point.col as nat, rest);
}

/// The bytes of a point give the point back.
pub proof fn law_point_bytes_come_back(point: Point)
    ensures
        point.bytes().len() == POINT_SIZE,
        be_value(point.bytes().subrange(0, 8)) == point.row,
        be_value(point.bytes().subrange(8, 16)) == point.col,
{
    vstd::arithmetic::power2::lemma2_to64();
    lemma_bytes_bits_of_be_bytes(point.row as nat, 8);
    lemma_bytes_bits_of_be_bytes(point.col as nat, 8);
    lemma_be_value_of_be_bytes(point.row as nat, 8);
    lemma_be_value_of_be_bytes(point.col as nat, 8);
    assert(point.bytes().subrange(0, 8) =~= be_bytes(point.row as nat, 8));
    assert(point.bytes().subrange(8, 16) =~= be_bytes(point.col as nat, 8));
}

/// A stream holds the row of a point before its column, and so do its bytes.
pub proof fn law_row_comes_first(point: Point)
    requires
        point.row < 0x1_0000_0000,
        point.col < 0x1_0000_0000,
    ensures
        point.stream_bits().len() == 64,
        crate::bits::bits_value(point.stream_bits().subrange(0, 32)) == point.row,
        crate::bits::bits_value(point.stream_bits().subrange(32, 64)) == point.col,
        point.bytes().len() == 16,
        be_value(point.bytes().subrange(0, 8)) == point.row,
        be_value(point.bytes().subrange(8, 16)) == point.col,
{
    vstd::arithmetic::power2::lemma2_to64();
    crate::dimensions::law_width_comes_first(point.row as nat, point.col as nat);
    lemma_bytes_bits_of_be_bytes(point.row as nat, 8);
    lemma_bytes_bits_of_be_bytes(point.col as nat, 8);
    lemma_be_value_of_be_bytes(point.row as nat, 8);
    lemma_be_value_of_be_bytes(point.col as nat, 8);
    assert(point.bytes().subrange(0, 8) =~= be_bytes(point.row as nat, 8));
    assert(point.bytes().subrange(8, 16) =~= be_bytes(point.col as nat, 8));
}

/// A pair of numbers is a row and a column, in this order, both ways.
pub proof fn law_pairs_are_row_and_column(row: usize, col: usize)
    ensures
        <Point as FromSpec<(usize, usize)>>::from_spec((row, col)).row == row,
        <Point as FromSpec<(usize, usize)>>::from_spec((row, col)).col == col,
        <(usize, usize) as FromSpec<Point>>::from_spec(Point { row, col }) == (row, col),
{
}

} // verus!
