//! Motion vectors.
use vstd::arithmetic::power2::{lemma2_to64, pow2};
use vstd::prelude::*;

use crate::bits::{
    be_bytes, be_value, bits_value, lemma_be_value_of_be_bytes, lemma_bytes_bits_of_be_bytes,
};
use crate::bitstream::{BitStreamReader, BitStreamWriter};
use crate::bytes::{from_be, to_be, FromBytes, ToBytes};
use crate::color::Subsampling;
use crate::dimensions::{lemma_size_comes_back, read_height, read_width, size_bits};
use crate::error::{is_failed_to_decode, Error, Result};
use crate::sample::quotient;

pub mod depth16;
pub mod depth32;
pub mod search;

verus! {

/// How far blocks have to be apart for a search between the pixels.
pub const SUBPIXEL_SAD_THRESHOLD: i16 = 1024;

/// The number of bytes of a motion vector.
pub const MOTION_VECTOR_SIZE: usize = 16;

/// Twelve places around a block, up to four blocks away.
pub const LARGE_DIAMOND: [(isize, isize); 12] = [
    (-4, 0),
    (4, 0),
    (0, -4),
    (0, 4),
    (-2, 0),
    (2, 0),
    (0, -2),
    (0, 2),
    (-2, 2),
    (-2, -2),
    (2, 2),
    (2, -2),
];

/// The four neighbours of a block.
pub const SMALL_DIAMOND: [(isize, isize); 4] = [(-1, 0), (1, 0), (0, -1), (0, 1)];

/// The eight places half a pixel away.
pub const HALF_PIXEL_OFFSETS: [(isize, isize); 8] = [
    (0, 1),
    (1, 0),
    (1, 1),
    (0, -1),
    (-1, 0),
    (-1, -1),
    (1, -1),
    (-1, 1),
];

/// How far something moved: to the right and down.
#[derive(Debug, Clone, Copy, PartialEq, Eq, Structural)]
pub struct MotionVector {
    pub x: isize,
    pub y: isize,
}

impl Default for MotionVector {
    fn default() -> (r: Self)
        ensures
            r.x == 0,
            r.y == 0,
    {
        MotionVector { x: 0, y: 0 }
    }
}

/// Halves or quarters a number and rounds towards zero.
fn shrink(value: isize, by: isize) -> (r: isize)
    requires
        by == 2 || by == 4,
    ensures
        r == quotient(value as int, by as int),
{
    let size: i128 = if value < 0 {
        -(value as i128)
    } else {
        value as i128
    };
    let part: i128 = if by == 2 {
        size / 2
    } else {
        size / 4
    };
    if value < 0 {
        (-part) as isize
    } else {
        part as isize
    }
}

/// Whether a number is odd.
fn odd(value: isize) -> (r: bool)
    ensures
        r == (value as int % 2 != 0),
{
    let wide: i128 = value as i128 + 0x1_0000_0000_0000_0000;
    wide % 2 != 0
}

impl MotionVector {
    /// The whole pixels to the right, where `x` counts half pixels.
    pub fn integer_x(&self) -> (r: isize)
        ensures
            r == quotient(self.x as int, 2),
    {
        shrink(self.x, 2)
    }

    /// The whole pixels down, where `y` counts half pixels.
    pub fn integer_y(&self) -> (r: isize)
        ensures
            r == quotient(self.y as int, 2),
    {
        shrink(self.y, 2)
    }

    /// Whether half a pixel is left over to the right.
    pub fn has_half_pixel_x(&self) -> (r: bool)
        ensures
            r == (self.x as int % 2 != 0),
    {
        odd(self.x)
    }

    /// Whether half a pixel is left over down.
    pub fn has_half_pixel_y(&self) -> (r: bool)
        ensures
            r == (self.y as int % 2 != 0),
    {
        odd(self.y)
    }

    /// The vector in a chroma plane.
    pub open spec fn chroma_scaled(self, subsampling: Subsampling) -> Self {
        MotionVector {
            x: match subsampling {
                Subsampling::Sample420 | Subsampling::Sample422 => quotient(
                    self.x as int,
                    2,
                ) as isize,
                Subsampling::Sample411 => quotient(self.x as int, 4) as isize,
                _ => self.x,
            },
            y: match subsampling {
                Subsampling::Sample420 | Subsampling::Sample411 => quotient(
                    self.y as int,
                    2,
                ) as isize,
                _ => self.y,
            },
        }
    }

    /// The vector in a chroma plane.
    pub fn scale_for_chroma(&self, subsampling: Subsampling) -> (r: Self)
        ensures
            r == self.chroma_scaled(subsampling),
    {
        MotionVector {
            x: match subsampling {
                Subsampling::Sample420 | Subsampling::Sample422 => shrink(self.x, 2),
                Subsampling::Sample411 => shrink(self.x, 4),
                _ => self.x,
            },
            y: match subsampling {
                Subsampling::Sample420 | Subsampling::Sample411 => shrink(self.y, 2),
                _ => self.y,
            },
        }
    }

    /// How a stream holds a vector: the 32 low bits of both numbers.
    pub open spec fn stream_bits(self) -> Seq<bool> {
        size_bits(low32(self.x as int), low32(self.y as int))
    }

    /// Writes the vector.
    pub fn encode(&self, stream: &mut BitStreamWriter) -> (r: Result<()>)
        ensures
            r is Ok,
            final(stream)@ == old(stream)@ + self.stream_bits(),
    {
        let ghost start = stream@;
        stream.write(to_low32(self.x))?;
        stream.write(to_low32(self.y))?;
        assert(stream@ =~= start + self.stream_bits());
        Ok(())
    }

    /// Reads a vector. Both numbers are read as natural ones. One beyond
    /// `isize` is invalid data.
    pub fn decode(stream: &mut BitStreamReader) -> (r: Result<Self>)
        ensures
            old(stream)@.len() >= 64 ==> {
                let x = read_width(old(stream)@);
                let y = read_height(old(stream)@);
                &&& final(stream)@ == old(stream)@.skip(64)
                &&& x <= isize::MAX && y <= isize::MAX ==> r is Ok && r->Ok_0.x == x && r->Ok_0.y
                    == y
                &&& x > isize::MAX || y > isize::MAX ==> r is Err && r->Err_0 is InvalidData
            },
            old(stream)@.len() < 32 ==> is_failed_to_decode(r, "mv x"@),
            32 <= old(stream)@.len() < 64 ==> is_failed_to_decode(r, "mv y"@),
    {
        let ghost bits = stream@;
        let x: u32 = match stream.read::<u32>()? {
            Some(x) => x,
            None => {
                return Err(Error::FailedToDecode("mv x".to_owned()));
            },
        };
        let y: u32 = match stream.read::<u32>()? {
            Some(y) => y,
            None => {
                return Err(Error::FailedToDecode("mv y".to_owned()));
            },
        };
        assert(bits.skip(32).skip(32) =~= bits.skip(64));
        if x as u64 > isize::MAX as u64 || y as u64 > isize::MAX as u64 {
            return Err(Error::InvalidData);
        }
        Ok(MotionVector { x: x as isize, y: y as isize })
    }
}

/// The 32 low bits of a number.
pub open spec fn low32(x: int) -> nat {
    (x % 0x1_0000_0000) as nat
}

fn to_low32(x: isize) -> (r: u32)
    ensures
        r == low32(x as int),
{
    let wide: i128 = x as i128 + 0x1_0000_0000_0000_0000;
    proof {
        vstd::arithmetic::div_mod::lemma_mod_multiples_vanish(
            0x1_0000_0000,
            x as int,
            0x1_0000_0000,
        );
    }
    (wide % 0x1_0000_0000) as u32
}

/// A vector with natural numbers that was written is read back, as far as
/// they fit 32 bits, and the stream goes on behind it.
pub proof fn law_vector_comes_back(mv: MotionVector, rest: Seq<bool>)
    requires
        0 <= mv.x <= u32::MAX,
        0 <= mv.y <= u32::MAX,
    ensures
        ({
            let stream = mv.stream_bits() + rest;
            &&& stream.len() >= 64
            &&& read_width(stream) == mv.x
            &&& read_height(stream) == mv.y
            &&& stream.skip(64) == rest
        }),
{
    lemma_size_comes_back(mv.x as nat, mv.y as nat, rest);
}

/// A signed number in eight bytes, as the natural one with the same bits.
pub open spec fn unsigned64(x: int) -> nat {
    if x < 0 {
        (x + 0x1_0000_0000_0000_0000) as nat
    } else {
        x as nat
    }
}

/// The signed number that has the bits of a natural one.
pub open spec fn signed64(n: nat) -> int {
    if n >= 0x8000_0000_0000_0000 {
        n - 0x1_0000_0000_0000_0000
    } else {
        n as int
    }
}

/// The eight bytes of a signed number, least significant first.
pub open spec fn signed_bytes(x: int) -> Seq<u8> {
    be_bytes(unsigned64(x), 8).reverse()
}

/// The signed number of eight bytes, least significant first.
pub open spec fn signed_at(bytes: Seq<u8>, start: int) -> int {
    signed64(be_value(bytes.subrange(start, start + 8).reverse()))
}

fn signed_to_bytes(x: isize) -> (bytes: Vec<u8>)
    ensures
        bytes@ == signed_bytes(x as int),
        bytes@.len() == 8,
{
    let value: u64 = if x < 0 {
        (x as i128 + 0x1_0000_0000_0000_0000) as u64
    } else {
        x as u64
    };
    let be = to_be(value, 8);
    let mut bytes: Vec<u8> = Vec::new();
    let mut i: usize = 8;
    while i > 0
        invariant
            i <= 8,
            be@.len() == 8,
            bytes@ == be@.reverse().take(8 - i),
        decreases i,
    {
        i = i - 1;
        bytes.push(be[i]);
        assert(bytes@ =~= be@.reverse().take(8 - i));
    }
    assert(bytes@ =~= be@.reverse());
    bytes
}

fn signed_from_bytes(bytes: &[u8], start: usize) -> (r: Option<isize>)
    requires
        start + 8 <= bytes@.len(),
    ensures
        r is Some <==> isize::MIN <= signed_at(bytes@, start as int) <= isize::MAX,
        r is Some ==> r->0 == signed_at(bytes@, start as int),
{
    let ghost part = bytes@.subrange(start as int, start + 8);
    let len: usize = bytes.len();
    let mut be: Vec<u8> = Vec::new();
    let mut i: usize = 8;
    while i > 0
        invariant
            i <= 8,
            start + 8 <= len,
            bytes@.len() == len,
            part == bytes@.subrange(start as int, start + 8),
            be@ == part.reverse().take(8 - i),
        decreases i,
    {
        i = i - 1;
        be.push(bytes[start + i]);
        assert(be@ =~= part.reverse().take(8 - i));
    }
    assert(be@ =~= part.reverse());
    let value: u64 = from_be(be.as_slice());
    let signed: i128 = if value >= 0x8000_0000_0000_0000 {
        value as i128 - 0x1_0000_0000_0000_0000
    } else {
        value as i128
    };
    if signed < isize::MIN as i128 || signed > isize::MAX as i128 {
        None
    } else {
        Some(signed as isize)
    }
}

proof fn lemma_signed_comes_back(x: int, before: Seq<u8>, rest: Seq<u8>)
    requires
        -0x8000_0000_0000_0000 <= x < 0x8000_0000_0000_0000,
    ensures
        signed_bytes(x).len() == 8,
        signed_at(before + signed_bytes(x) + rest, before.len() as int) == x,
{
    lemma2_to64();
    lemma_bytes_bits_of_be_bytes(unsigned64(x), 8);
    lemma_be_value_of_be_bytes(unsigned64(x), 8);
    let all = before + signed_bytes(x) + rest;
    let n = before.len() as int;
    assert(all.subrange(n, n + 8) =~= signed_bytes(x));
    assert(signed_bytes(x).reverse() =~= be_bytes(unsigned64(x), 8));
}

impl ToBytes for MotionVector {
    type Model = MotionVector;

    open spec fn model(&self) -> MotionVector {
        *self
    }

    open spec fn bytes_of(model: MotionVector) -> Seq<u8> {
        signed_bytes(model.x as int) + signed_bytes(model.y as int)
    }

    fn to_bytes(&self) -> (bytes: Vec<u8>) {
        let mut bytes = signed_to_bytes(self.x);
        let mut y = signed_to_bytes(self.y);
        bytes.append(&mut y);
        bytes
    }
}

impl FromBytes for MotionVector {
    open spec fn parsed(bytes: Seq<u8>) -> Option<(MotionVector, nat)> {
        let x = signed_at(bytes, 0);
        let y = signed_at(bytes, 8);
        if bytes.len() < 16 || x < isize::MIN || x > isize::MAX || y < isize::MIN || y
            > isize::MAX {
            None
        } else {
            Some((MotionVector { x: x as isize, y: y as isize }, 16))
        }
    }

    open spec fn readable(model: MotionVector) -> bool {
        true
    }

    proof fn lemma_readable(&self) {
    }

    proof fn lemma_parsed_fits(bytes: Seq<u8>) {
    }

    proof fn lemma_comes_back(model: MotionVector, rest: Seq<u8>) {
        let x = signed_bytes(model.x as int);
        let y = signed_bytes(model.y as int);
        let bytes = Self::bytes_of(model) + rest;
        lemma_signed_comes_back(model.x as int, Seq::empty(), y + rest);
        lemma_signed_comes_back(model.y as int, x, rest);
        assert(bytes =~= Seq::<u8>::empty() + x + (y + rest));
    }

    fn from_bytes(bytes: &[u8]) -> (r: Option<(Self, usize)>) {
        if bytes.len() < MOTION_VECTOR_SIZE {
            return None;
        }
        match (signed_from_bytes(bytes, 0), signed_from_bytes(bytes, 8)) {
            (Some(x), Some(y)) => Some((MotionVector { x, y }, MOTION_VECTOR_SIZE)),
            _ => None,
        }
    }
}

impl MotionVector {
    /// The vector of sixteen bytes. Any other number of bytes is a slice that
    /// cannot be converted, and a number beyond `isize` is invalid data.
    pub fn try_from_bytes(bytes: &[u8]) -> (r: Result<Self>)
        ensures
            bytes@.len() != MOTION_VECTOR_SIZE ==> r is Err && r->Err_0 is SliceConversion,
            bytes@.len() == MOTION_VECTOR_SIZE ==> {
                &&& Self::parsed(bytes@) is Some ==> r is Ok && r->Ok_0 == (Self::parsed(
                    bytes@,
                )->0).0
                &&& Self::parsed(bytes@) is None ==> r is Err && r->Err_0 is InvalidData
            },
    {
        if bytes.len() != MOTION_VECTOR_SIZE {
            return Err(Error::SliceConversion);
        }
        match Self::from_bytes(bytes) {
            Some((mv, _)) => Ok(mv),
            None => Err(Error::InvalidData),
        }
    }
}

impl From<(isize, isize)> for MotionVector {
    fn from(value: (isize, isize)) -> (r: Self) {
        MotionVector { x: value.0, y: value.1 }
    }
}

impl vstd::std_specs::convert::FromSpecImpl<(isize, isize)> for MotionVector {
    open spec fn obeys_from_spec() -> bool {
        true
    }

    open spec fn from_spec(value: (isize, isize)) -> Self {
        MotionVector { x: value.0, y: value.1 }
    }
}

impl From<MotionVector> for (isize, isize) {
    fn from(vector: MotionVector) -> (r: Self) {
        (vector.x, vector.y)
    }
}

impl vstd::std_specs::convert::FromSpecImpl<MotionVector> for (isize, isize) {
    open spec fn obeys_from_spec() -> bool {
        true
    }

    open spec fn from_spec(vector: MotionVector) -> Self {
        (vector.x, vector.y)
    }
}

/// A vector is written to the right before down. A stream holds the 32 low bits of both
/// numbers, and the bytes hold them in 64 bits of two's complement, the lowest byte first.
pub proof fn law_right_comes_before_down(mv: MotionVector, i: nat)
    requires
        i < 8,
    ensures
        ({
            let bits = mv.stream_bits();
            let bytes = MotionVector::bytes_of(mv);
            let x = if mv.x < 0 {
                mv.x + 0x1_0000_0000_0000_0000
            } else {
                mv.x as int
            };
            let y = if mv.y < 0 {
                mv.y + 0x1_0000_0000_0000_0000
            } else {
                mv.y as int
            };
            &&& bits.len() == 64
            &&& bits_value(bits.subrange(0, 32)) == mv.x as int % 0x1_0000_0000
            &&& bits_value(bits.subrange(32, 64)) == mv.y as int % 0x1_0000_0000
            &&& bytes.len() == 16
            &&& bytes[i as int] == (x as nat / pow2(8 * i)) % 256
            &&& bytes[8 + i as int] == (y as nat / pow2(8 * i)) % 256
        }),
{
    lemma2_to64();
    crate::dimensions::law_width_comes_first(low32(mv.x as int), low32(mv.y as int));
    let x = unsigned64(mv.x as int);
    let y = unsigned64(mv.y as int);
    crate::bits::law_bytes_go_from_high_to_low(x, 8, i);
    crate::bits::law_bytes_go_from_high_to_low(y, 8, i);
}

} // verus!
