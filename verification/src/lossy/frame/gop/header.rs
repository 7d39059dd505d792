//! What stands before a frame in a stream.
use vstd::prelude::*;

use crate::bits::{be_bits, bits_value, lemma_be_bits_len, lemma_be_bits_mod};
use crate::bitstream::{law_bits_come_back, law_value_comes_back, BitStreamReader, BitStreamWriter};
use crate::color::{law_subsampling_comes_back, Subsampling};
use crate::dimensions::PixelDimensions;
use crate::error::{is_failed_to_decode, Error, Result};
use crate::lossy::frame::Kind;

verus! {

/// What comes next in a stream.
#[derive(Debug, Clone, Copy)]
pub enum GroupOfPicturesHeader {
    /// A frame.
    Frame { subsampling: Subsampling, dimensions: PixelDimensions, kind: Kind },
    /// Nothing more.
    End,
}

/// The header of a frame.
pub open spec fn frame_header_bits(
    subsampling: Subsampling,
    dimensions: PixelDimensions,
    kind: Kind,
) -> Seq<bool> {
    be_bits(0, 8) + be_bits(subsampling.code() as nat, 8) + be_bits(dimensions.width as nat, 32)
        + be_bits(dimensions.height as nat, 32) + be_bits(kind.code() as nat, 8)
}

/// The mark of the end.
pub open spec fn end_bits() -> Seq<bool> {
    be_bits(1, 8)
}

/// The number of bits of a frame's header.
pub open spec fn header_len() -> int {
    88
}

/// Whether a stream goes on with the mark of the end.
pub open spec fn holds_end(bits: Seq<bool>) -> bool {
    bits.len() >= 8 && bits_value(bits.take(8)) == 1
}

/// The byte of the subsampling in a header.
pub open spec fn read_subsampling(bits: Seq<bool>) -> nat {
    bits_value(bits.skip(8).take(8))
}

/// The width in a header.
pub open spec fn read_pixel_width(bits: Seq<bool>) -> nat {
    bits_value(bits.skip(16).take(32))
}

/// The height in a header.
pub open spec fn read_pixel_height(bits: Seq<bool>) -> nat {
    bits_value(bits.skip(48).take(32))
}

/// The byte of the kind in a header.
pub open spec fn read_kind(bits: Seq<bool>) -> nat {
    bits_value(bits.skip(80).take(8))
}

/// Whether a stream goes on with the header of a frame.
pub open spec fn holds_frame(bits: Seq<bool>) -> bool {
    &&& bits.len() >= 88
    &&& bits_value(bits.take(8)) != 1
    &&& read_subsampling(bits) <= 3
    &&& 1 <= read_kind(bits) <= 3
}

/// What reading a header answers.
pub open spec fn is_header_read(
    bits: Seq<bool>,
    r: Result<GroupOfPicturesHeader>,
    rest: Seq<bool>,
) -> bool {
    if bits.len() < 8 {
        is_failed_to_decode(r, "header type"@)
    } else if holds_end(bits) {
        r is Ok && r->Ok_0 is End && rest == bits.skip(8)
    } else if bits.len() < 16 {
        is_failed_to_decode(r, "subsampling"@)
    } else if read_subsampling(bits) > 3 {
        r is Err && r->Err_0 is InvalidData
    } else if bits.len() < 48 {
        is_failed_to_decode(r, "width"@)
    } else if bits.len() < 80 {
        is_failed_to_decode(r, "height"@)
    } else if bits.len() < 88 {
        is_failed_to_decode(r, "kind"@)
    } else if !(1 <= read_kind(bits) <= 3) {
        r is Err && r->Err_0 is InvalidData
    } else {
        &&& rest == bits.skip(88)
        &&& r matches Ok(GroupOfPicturesHeader::Frame { subsampling, dimensions, kind })
        &&& subsampling.code() == read_subsampling(bits)
        &&& dimensions.width == read_pixel_width(bits)
        &&& dimensions.height == read_pixel_height(bits)
        &&& kind.code() == read_kind(bits)
    }
}

impl GroupOfPicturesHeader {
    /// The bits of the header. Of a size the 32 low bits are kept.
    pub open spec fn stream_bits(self) -> Seq<bool> {
        match self {
            GroupOfPicturesHeader::Frame { subsampling, dimensions, kind } => frame_header_bits(
                subsampling,
                dimensions,
                kind,
            ),
            GroupOfPicturesHeader::End => end_bits(),
        }
    }

    /// Writes the header.
    pub fn encode(&self, stream: &mut BitStreamWriter) -> (r: Result<()>)
        ensures
            r is Ok,
            final(stream)@ == old(stream)@ + self.stream_bits(),
    {
        let ghost start = stream@;
        match self {
            GroupOfPicturesHeader::Frame { subsampling, dimensions, kind } => {
                stream.write(0u8)?;
                stream.write(u8::from(*subsampling))?;
                let width: u32 = low_32(dimensions.width);
                let height: u32 = low_32(dimensions.height);
                stream.write(width)?;
                stream.write(height)?;
                stream.write(u8::from(*kind))?;
                assert(stream@ =~= start + self.stream_bits());
            },
            GroupOfPicturesHeader::End => {
                stream.write(1u8)?;
            },
        }
        Ok(())
    }

    /// Reads a header. A byte that stands for no subsampling or no kind is
    /// invalid data.
    pub fn decode(stream: &mut BitStreamReader) -> (r: Result<Self>)
        ensures
            is_header_read(old(stream)@, r, final(stream)@),
    {
        let ghost bits = stream@;
        let header_type: u8 = match stream.read::<u8>()? {
            Some(value) => value,
            None => {
                return Err(Error::FailedToDecode("header type".to_owned()));
            },
        };
        if header_type == 1 {
            return Ok(GroupOfPicturesHeader::End);
        }
        let subsampling = match Subsampling::decode(stream) {
            Ok(subsampling) => subsampling,
            Err(e) => {
                return Err(e);
            },
        };
        assert(stream@ =~= bits.skip(16));
        let width: u32 = match stream.read::<u32>()? {
            Some(value) => value,
            None => {
                return Err(Error::FailedToDecode("width".to_owned()));
            },
        };
        assert(stream@ =~= bits.skip(48));
        let height: u32 = match stream.read::<u32>()? {
            Some(value) => value,
            None => {
                return Err(Error::FailedToDecode("height".to_owned()));
            },
        };
        assert(stream@ =~= bits.skip(80));
        let code: u8 = match stream.read::<u8>()? {
            Some(value) => value,
            None => {
                return Err(Error::FailedToDecode("kind".to_owned()));
            },
        };
        assert(stream@ =~= bits.skip(88));
        match Kind::from_code(code) {
            Some(kind) => {
                let dimensions = PixelDimensions {
                    width: width as usize,
                    height: height as usize,
                };
                Ok(GroupOfPicturesHeader::Frame { subsampling, dimensions, kind })
            },
            None => Err(Error::InvalidData),
        }
    }
}

/// The 32 low bits of a number.
fn low_32(value: usize) -> (r: u32)
    ensures
        be_bits(r as nat, 32) == be_bits(value as nat, 32),
{
    proof {
        vstd::arithmetic::power2::lemma2_to64();
        lemma_be_bits_mod(value as nat, 32);
    }
    (value as u64 % 0x1_0000_0000) as u32
}

/// A stream that starts with the header of a frame holds it.
pub proof fn lemma_header_bits(
    subsampling: Subsampling,
    dimensions: PixelDimensions,
    kind: Kind,
    tail: Seq<bool>,
)
    ensures
        ({
            let bits = frame_header_bits(subsampling, dimensions, kind) + tail;
            &&& bits.len() == header_len() + tail.len()
            &&& bits_value(bits.take(8)) == 0
            &&& read_subsampling(bits) == subsampling.code()
            &&& read_pixel_width(bits) == dimensions.width as nat % 0x1_0000_0000
            &&& read_pixel_height(bits) == dimensions.height as nat % 0x1_0000_0000
            &&& read_kind(bits) == kind.code()
            &&& bits.skip(88) == tail
        }),
{
    let bits = frame_header_bits(subsampling, dimensions, kind) + tail;
    let mark = be_bits(0, 8);
    let width = be_bits(dimensions.width as nat, 32);
    let height = be_bits(dimensions.height as nat, 32);
    let code = be_bits(kind.code() as nat, 8);
    vstd::arithmetic::power2::lemma2_to64();
    lemma_be_bits_len(0, 8);
    lemma_be_bits_len(subsampling.code() as nat, 8);
    lemma_be_bits_len(dimensions.width as nat, 32);
    lemma_be_bits_len(dimensions.height as nat, 32);
    lemma_be_bits_len(kind.code() as nat, 8);
    lemma_be_bits_mod(dimensions.width as nat, 32);
    lemma_be_bits_mod(dimensions.height as nat, 32);
    let kind_on = code + tail;
    let height_on = height + kind_on;
    let width_on = width + height_on;
    let subsampling_on = be_bits(subsampling.code() as nat, 8) + width_on;
    law_value_comes_back(0u8, subsampling_on);
    law_subsampling_comes_back(subsampling, width_on);
    law_bits_come_back(dimensions.width as nat % 0x1_0000_0000, 32, height_on);
    law_bits_come_back(dimensions.height as nat % 0x1_0000_0000, 32, kind_on);
    law_value_comes_back(kind.code(), tail);
    assert(bits =~= mark + subsampling_on);
    assert(bits.skip(8) =~= subsampling_on);
    assert(bits.skip(16) =~= width_on);
    assert(bits.skip(48) =~= height_on);
    assert(bits.skip(80) =~= kind_on);
    assert(bits.skip(88) =~= tail);
}

/// The header of a frame that was written is read back, with the sizes in 32
/// bits, and the stream goes on behind it.
pub proof fn law_frame_header_comes_back(
    subsampling: Subsampling,
    dimensions: PixelDimensions,
    kind: Kind,
    tail: Seq<bool>,
    r: Result<GroupOfPicturesHeader>,
    rest: Seq<bool>,
)
    requires
        is_header_read(frame_header_bits(subsampling, dimensions, kind) + tail, r, rest),
    ensures
        r matches Ok(GroupOfPicturesHeader::Frame { subsampling: s, dimensions: d, kind: k })
            && s == subsampling && k == kind && d.width == dimensions.width as nat % 0x1_0000_0000
            && d.height == dimensions.height as nat % 0x1_0000_0000,
        rest == tail,
{
    lemma_header_bits(subsampling, dimensions, kind, tail);
}

/// The mark of the end that was written is read back, and the stream goes on
/// behind it.
pub proof fn law_end_comes_back(
    tail: Seq<bool>,
    r: Result<GroupOfPicturesHeader>,
    rest: Seq<bool>,
)
    requires
        is_header_read(end_bits() + tail, r, rest),
    ensures
        r is Ok,
        r->Ok_0 is End,
        rest == tail,
{
    law_value_comes_back(1u8, tail);
}

/// The header of a frame is a zero, the number of its subsampling, its width and height in
/// pixels and the number of its kind. The end is a one.
pub proof fn law_header_has_its_places(
    subsampling: Subsampling,
    dimensions: PixelDimensions,
    kind: Kind,
)
    requires
        dimensions.width < 0x1_0000_0000,
        dimensions.height < 0x1_0000_0000,
    ensures
        ({
            let bits = frame_header_bits(subsampling, dimensions, kind);
            &&& bits.len() == 88
            &&& bits_value(bits.subrange(0, 8)) == 0
            &&& bits_value(bits.subrange(8, 16)) == match subsampling {
                Subsampling::Sample411 => 0nat,
                Subsampling::Sample420 => 1nat,
                Subsampling::Sample422 => 2nat,
                Subsampling::Sample444 => 3nat,
            }
            &&& bits_value(bits.subrange(16, 48)) == dimensions.width
            &&& bits_value(bits.subrange(48, 80)) == dimensions.height
            &&& bits_value(bits.subrange(80, 88)) == match kind {
                Kind::I => 1nat,
                Kind::P => 2nat,
                Kind::B => 3nat,
            }
            &&& end_bits().len() == 8
            &&& bits_value(end_bits()) == 1
        }),
{
    vstd::arithmetic::power2::lemma2_to64();
    let bits = frame_header_bits(subsampling, dimensions, kind);
    lemma_number_bits(0, 8);
    lemma_number_bits(1, 8);
    lemma_number_bits(subsampling.code() as nat, 8);
    lemma_number_bits(dimensions.width as nat, 32);
    lemma_number_bits(dimensions.height as nat, 32);
    lemma_number_bits(kind.code() as nat, 8);
    assert(bits.subrange(0, 8) =~= be_bits(0, 8));
    assert(bits.subrange(8, 16) =~= be_bits(subsampling.code() as nat, 8));
    assert(bits.subrange(16, 48) =~= be_bits(dimensions.width as nat, 32));
    assert(bits.subrange(48, 80) =~= be_bits(dimensions.height as nat, 32));
    assert(bits.subrange(80, 88) =~= be_bits(kind.code() as nat, 8));
}

proof fn lemma_number_bits(n: nat, width: nat)
    requires
        n < vstd::arithmetic::power2::pow2(width),
    ensures
        be_bits(n, width).len() == width,
        bits_value(be_bits(n, width)) == n,
{
    lemma_be_bits_len(n, width);
    crate::bits::lemma_bits_value_of_be_bits(n, width);
}

} // verus!
