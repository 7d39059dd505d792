//! A page of bits that is filled at one end and emptied at the other.
use vstd::arithmetic::div_mod::lemma_small_mod;
use vstd::arithmetic::power2::{
    lemma2_to64, lemma_pow2_adds, lemma_pow2_pos, lemma_pow2_strictly_increases, lemma_pow2_unfold,
    pow2,
};
use vstd::prelude::*;

use crate::bits::{
    be_bits, bits_value, bytes_bits, leading_zeros, lemma_be_bits_len, lemma_bytes_bits_len, padded,
    zeros,
};
use crate::bitstream::law_bits_come_back;
use crate::error::Result;
use crate::numeric::ceil_div;

verus! {

/// The number of bytes of a page.
pub const PAGE_SIZE: usize = 4096;

/// The number of bits of a page.
pub const PAGE_SIZE_BITS: usize = 32768;

/// Unsigned numbers of up to 128 bits.
pub trait Word: Copy {
    /// The number.
    spec fn value(self) -> nat;

    /// The number of bits.
    spec fn width() -> nat;

    /// The number.
    fn to_u128(self) -> (r: u128)
        ensures
            r == self.value(),
    ;

    /// The number of bits.
    fn bits() -> (r: u8)
        ensures
            r == Self::width(),
            r <= 128,
    ;
}

impl Word for u8 {
    open spec fn value(self) -> nat {
        self as nat
    }

    open spec fn width() -> nat {
        8
    }

    fn to_u128(self) -> u128 {
        self as u128
    }

    fn bits() -> u8 {
        8
    }
}

impl Word for u16 {
    open spec fn value(self) -> nat {
        self as nat
    }

    open spec fn width() -> nat {
        16
    }

    fn to_u128(self) -> u128 {
        self as u128
    }

    fn bits() -> u8 {
        16
    }
}

impl Word for u32 {
    open spec fn value(self) -> nat {
        self as nat
    }

    open spec fn width() -> nat {
        32
    }

    fn to_u128(self) -> u128 {
        self as u128
    }

    fn bits() -> u8 {
        32
    }
}

impl Word for u64 {
    open spec fn value(self) -> nat {
        self as nat
    }

    open spec fn width() -> nat {
        64
    }

    fn to_u128(self) -> u128 {
        self as u128
    }

    fn bits() -> u8 {
        64
    }
}

impl Word for u128 {
    open spec fn value(self) -> nat {
        self as nat
    }

    open spec fn width() -> nat {
        128
    }

    fn to_u128(self) -> u128 {
        self
    }

    fn bits() -> u8 {
        128
    }
}

/// Digit `i` of a number.
proof fn lemma_be_bits_at(value: nat, width: nat, i: int)
    requires
        0 <= i < width,
    ensures
        be_bits(value, width).len() == width,
        be_bits(value, width)[i] == ((value / pow2((width - 1 - i) as nat)) % 2 == 1),
    decreases width,
{
    lemma_be_bits_len(value, width);
    lemma_be_bits_len(value / 2, (width - 1) as nat);
    if i == width - 1 {
        lemma2_to64();
    } else {
        lemma_be_bits_at(value / 2, (width - 1) as nat, i);
        let low = (width - 2 - i) as nat;
        lemma_pow2_unfold(low + 1);
        lemma_pow2_pos(low);
        vstd::arithmetic::div_mod::lemma_div_denominator(value as int, 2, pow2(low) as int);
        assert(pow2((width - 1 - i) as nat) == 2 * pow2(low));
        assert((value / 2) / pow2(low) == value / pow2((width - 1 - i) as nat));
        assert(be_bits(value, width)[i] == be_bits(value / 2, (width - 1) as nat)[i]);
    }
}

/// Where the bits of a byte stand.
proof fn lemma_page_bit(data: Seq<u8>, i: int)
    requires
        0 <= i < 8 * data.len(),
    ensures
        bytes_bits(data).len() == 8 * data.len(),
        bytes_bits(data)[i] == be_bits(data[i / 8] as nat, 8)[i % 8],
    decreases data.len(),
{
    let before = data.drop_last();
    lemma_bytes_bits_len(data);
    lemma_bytes_bits_len(before);
    lemma_be_bits_len(data.last() as nat, 8);
    if i < 8 * before.len() {
        lemma_page_bit(before, i);
    }
}

/// Bit `i` of a byte, most significant first.
proof fn lemma_byte_bit(byte: u8, i: int, place: u8)
    requires
        0 <= i < 8,
        place == 7 - i,
    ensures
        be_bits(byte as nat, 8)[i] == ((byte >> place) & 1 == 1),
{
    lemma_be_bits_at(byte as nat, 8, i);
    lemma2_to64();
    assert(byte >> 0u8 == byte && byte >> 1u8 == byte / 2 && byte >> 2u8 == byte / 4 && byte >> 3u8
        == byte / 8 && byte >> 4u8 == byte / 16 && byte >> 5u8 == byte / 32 && byte >> 6u8 == byte
        / 64 && byte >> 7u8 == byte / 128) by (bit_vector);
    let high = byte >> place;
    assert(high & 1 == high % 2) by (bit_vector);
}

/// A page of bits.
#[derive(Debug, Clone, PartialEq, Eq)]
pub struct BitVec {
    data: Vec<u8>,
    write_pos: usize,
    read_pos: usize,
}

impl View for BitVec {
    type V = Seq<bool>;

    closed spec fn view(&self) -> Seq<bool> {
        bytes_bits(self.data@).subrange(self.read_pos as int, self.write_pos as int)
    }
}

impl BitVec {
    /// The bytes of the whole page.
    pub closed spec fn spec_page(&self) -> Seq<u8> {
        self.data@
    }

    /// Where the next bit is written.
    pub closed spec fn spec_write_pos(&self) -> nat {
        self.write_pos as nat
    }

    /// Where the next bit is read.
    pub closed spec fn spec_read_pos(&self) -> nat {
        self.read_pos as nat
    }

    /// The bits lie in the page.
    pub open spec fn well_formed(&self) -> bool {
        &&& self.spec_page().len() == PAGE_SIZE
        &&& self.spec_read_pos() <= self.spec_write_pos() <= PAGE_SIZE_BITS
        &&& self@ == bytes_bits(self.spec_page()).subrange(
            self.spec_read_pos() as int,
            self.spec_write_pos() as int,
        )
        &&& bytes_bits(self.spec_page()).len() == PAGE_SIZE_BITS
    }

    /// An empty page.
    pub fn new() -> (r: Self)
        ensures
            r.well_formed(),
            r@ == Seq::<bool>::empty(),
            r.spec_read_pos() == 0,
            r.spec_write_pos() == 0,
            r.spec_page() == Seq::new(PAGE_SIZE as nat, |i: int| 0u8),
    {
        let r = BitVec { data: vec![0u8; PAGE_SIZE], write_pos: 0, read_pos: 0 };
        proof {
            lemma_bytes_bits_len(r.data@);
            assert(r.data@ =~= Seq::new(PAGE_SIZE as nat, |i: int| 0u8));
            assert(r@ =~= Seq::<bool>::empty());
        }
        r
    }

    /// The number of bits that are there to be read.
    pub fn len(&self) -> (r: usize)
        requires
            self.well_formed(),
        ensures
            r == self@.len(),
            r == self.spec_write_pos() - self.spec_read_pos(),
    {
        self.write_pos - self.read_pos
    }

    /// How far the next bit to be read is into its byte.
    pub fn bit_position_in_byte(&self) -> (r: usize)
        ensures
            r == self.spec_read_pos() % 8,
    {
        self.read_pos % 8
    }

    /// Whether no bit is there to be read.
    pub fn is_empty(&self) -> (r: bool)
        requires
            self.well_formed(),
        ensures
            r == (self@.len() == 0),
    {
        self.len() == 0
    }

    /// Starts the page again. What was written stays in it until it is written
    /// over.
    pub fn clear(&mut self)
        requires
            old(self).well_formed(),
        ensures
            final(self).well_formed(),
            final(self)@ == Seq::<bool>::empty(),
            final(self).spec_page() == old(self).spec_page(),
            final(self).spec_read_pos() == 0,
            final(self).spec_write_pos() == 0,
    {
        self.write_pos = 0;
        self.read_pos = 0;
        assert(self@ =~= Seq::<bool>::empty());
    }

    /// The number of bits that can still be written.
    pub fn available_capacity_bits(&self) -> (r: usize)
        requires
            self.well_formed(),
        ensures
            r == PAGE_SIZE_BITS - self.spec_write_pos(),
    {
        PAGE_SIZE_BITS - self.write_pos
    }

    /// A bit of the page.
    pub fn get_bit(&self, bit_idx: usize) -> (r: bool)
        requires
            self.well_formed(),
            bit_idx < PAGE_SIZE_BITS,
        ensures
            r == bytes_bits(self.spec_page())[bit_idx as int],
    {
        let byte: u8 = self.data[bit_idx / 8];
        let place: u8 = 7 - (bit_idx % 8) as u8;
        proof {
            lemma_page_bit(self.data@, bit_idx as int);
            lemma_byte_bit(byte, bit_idx as int % 8, place);
        }
        (byte >> place) & 1 == 1
    }

    /// Sets a bit of the page, and no other one.
    pub fn set_bit(&mut self, bit_idx: usize, bit: bool)
        requires
            old(self).well_formed(),
            bit_idx < PAGE_SIZE_BITS,
        ensures
            final(self).well_formed(),
            final(self)@.len() == old(self)@.len(),
            final(self).spec_read_pos() == old(self).spec_read_pos(),
            final(self).spec_write_pos() == old(self).spec_write_pos(),
            bytes_bits(final(self).spec_page()) == bytes_bits(old(self).spec_page()).update(
                bit_idx as int,
                bit,
            ),
    {
        let ghost before = self.data@;
        let at: usize = bit_idx / 8;
        let place: u8 = 7 - (bit_idx % 8) as u8;
        let byte: u8 = self.data[at];
        let mask: u8 = 1u8 << place;
        let changed: u8 = if bit {
            byte | mask
        } else {
            byte & !mask
        };
        self.data.set(at, changed);
        proof {
            let after = self.data@;
            lemma_bytes_bits_len(before);
            lemma_bytes_bits_len(after);
            assert forall|i: int| 0 <= i < PAGE_SIZE_BITS implies bytes_bits(after)[i]
                == bytes_bits(before).update(bit_idx as int, bit)[i] by {
                lemma_page_bit(before, i);
                lemma_page_bit(after, i);
                if i / 8 == at {
                    let other: u8 = (7 - i % 8) as u8;
                    lemma_byte_bit(byte, i % 8, other);
                    lemma_byte_bit(changed, i % 8, other);
                    assert(((byte | (1u8 << place)) >> other) & 1 == (if place == other {
                        1u8
                    } else {
                        (byte >> other) & 1
                    }) && ((byte & !(1u8 << place)) >> other) & 1 == (if place == other {
                        0u8
                    } else {
                        (byte >> other) & 1
                    })) by (bit_vector)
                        requires
                            place < 8,
                            other < 8,
                    ;
                }
            }
            assert(bytes_bits(after) =~= bytes_bits(before).update(bit_idx as int, bit));
        }
    }

    /// Writes a bit at the end, whatever the fill.
    fn append(&mut self, bit: bool)
        requires
            old(self).well_formed(),
            old(self).spec_write_pos() < PAGE_SIZE_BITS,
        ensures
            final(self).well_formed(),
            final(self)@ == old(self)@.push(bit),
            final(self).spec_read_pos() == old(self).spec_read_pos(),
            final(self).spec_write_pos() == old(self).spec_write_pos() + 1,
            bytes_bits(final(self).spec_page()) == overwritten(
                bytes_bits(old(self).spec_page()),
                old(self).spec_write_pos() as int,
                seq![bit],
            ),
    {
        let at: usize = self.write_pos;
        self.set_bit(at, bit);
        self.write_pos = at + 1;
        proof {
            lemma_bytes_bits_len(self.data@);
            assert(self@ =~= old(self)@.push(bit));
            assert(bytes_bits(self.data@) =~= overwritten(
                bytes_bits(old(self).spec_page()),
                at as int,
                seq![bit],
            ));
        }
    }

    /// Writes a bit. Single bits are written only into the first eighth of the
    /// page.
    pub fn push_bit(&mut self, bit: bool)
        requires
            old(self).well_formed(),
            old(self).spec_write_pos() < PAGE_SIZE,
        ensures
            final(self).well_formed(),
            final(self)@ == old(self)@.push(bit),
            final(self).spec_read_pos() == old(self).spec_read_pos(),
            final(self).spec_write_pos() == old(self).spec_write_pos() + 1,
            bytes_bits(final(self).spec_page()) == overwritten(
                bytes_bits(old(self).spec_page()),
                old(self).spec_write_pos() as int,
                seq![bit],
            ),
    {
        self.append(bit);
    }

    /// Writes the `len` low bits of a number, as far as they fit. Returns the
    /// number that the bits that did not fit make up, and how many they are. A
    /// full page gives the number back as it is.
    pub fn push_bits<T: Word>(&mut self, val: T, len: u8) -> (r: (u128, u8))
        requires
            old(self).well_formed(),
            len <= 128,
        ensures
            final(self).well_formed(),
            final(self).spec_read_pos() == old(self).spec_read_pos(),
            ({
                let room = PAGE_SIZE_BITS - old(self).spec_write_pos();
                let bits = be_bits(val.value(), len as nat);
                &&& bytes_bits(final(self).spec_page()) == overwritten(
                    bytes_bits(old(self).spec_page()),
                    old(self).spec_write_pos() as int,
                    if len <= room {
                        bits
                    } else {
                        bits.take(room)
                    },
                )
                &&& if len <= room {
                    r == (0u128, 0u8) && final(self)@ == old(self)@ + bits
                        && final(self).spec_write_pos() == old(self).spec_write_pos() + len
                } else {
                    &&& final(self)@ == old(self)@ + bits.take(room)
                    &&& final(self).spec_write_pos() == PAGE_SIZE_BITS
                    &&& r.1 == len - room
                    &&& r.0 == if room == 0 {
                        val.value() as int
                    } else {
                        (val.value() % pow2((len - room) as nat)) as int
                    }
                }
            }),
    {
        let value: u128 = val.to_u128();
        let ghost bits = be_bits(val.value(), len as nat);
        let ghost start = self@;
        let ghost page = bytes_bits(self.data@);
        proof {
            lemma_be_bits_len(val.value(), len as nat);
            assert(start + bits.take(0) =~= start);
            assert(overwritten(page, self.write_pos as int, bits.take(0)) =~= page);
        }
        if len == 0 {
            assert(start + bits =~= start);
            assert(bits =~= bits.take(0));
            return (0, 0);
        }
        let room: usize = self.available_capacity_bits();
        if room == 0 {
            return (value, len);
        }
        let count: u8 = if (len as usize) < room {
            len
        } else if room < 128 {
            room as u8
        } else {
            len
        };
        let mut power: u128 = power_of_two(len - 1);
        let mut written: u8 = 0;
        let ghost first = self.spec_write_pos();
        while written < count
            invariant
                written <= count <= len <= 128,
                count <= PAGE_SIZE_BITS - first,
                value == val.value(),
                bits == be_bits(val.value(), len as nat),
                bits.len() == len,
                written < len ==> power == pow2((len - 1 - written) as nat),
                written == len ==> power == 1,
                self.well_formed(),
                self@ == start + bits.take(written as int),
                page == bytes_bits(old(self).spec_page()),
                page.len() == PAGE_SIZE_BITS,
                bytes_bits(self.spec_page()) == overwritten(
                    page,
                    first as int,
                    bits.take(written as int),
                ),
                self.spec_read_pos() == old(self).spec_read_pos(),
                self.spec_write_pos() == first + written,
                first == old(self).spec_write_pos(),
            decreases count - written,
        {
            proof {
                lemma_pow2_pos((len - 1 - written) as nat);
                lemma_be_bits_at(val.value(), len as nat, written as int);
            }
            let bit: bool = (value / power) % 2 == 1;
            self.append(bit);
            proof {
                assert(self@ =~= start + bits.take(written + 1));
                assert(bytes_bits(self.data@) =~= overwritten(
                    page,
                    first as int,
                    bits.take(written + 1),
                ));
                if written + 1 < len {
                    lemma_pow2_unfold((len - 1 - written) as nat);
                } else {
                    lemma2_to64();
                }
            }
            power = if written + 1 < len {
                power / 2
            } else {
                1
            };
            written = written + 1;
        }
        if count < len {
            proof {
                lemma_pow2_unfold((len - count) as nat);
                lemma_pow2_pos((len - count) as nat);
                lemma_pow2_fits((len - count) as nat);
            }
            let remaining: u8 = len - count;
            let modulus: u128 = power_of_two(remaining);
            (value % modulus, remaining)
        } else {
            assert(bits.take(len as int) =~= bits);
            (0, 0)
        }
    }

    /// Writes all bits of a number, as far as they fit.
    pub fn push<T: Word>(&mut self, val: T) -> (r: (u128, u8))
        requires
            old(self).well_formed(),
        ensures
            final(self).well_formed(),
            final(self).spec_read_pos() == old(self).spec_read_pos(),
            ({
                let room = PAGE_SIZE_BITS - old(self).spec_write_pos();
                let len = T::width();
                let bits = be_bits(val.value(), len);
                &&& bytes_bits(final(self).spec_page()) == overwritten(
                    bytes_bits(old(self).spec_page()),
                    old(self).spec_write_pos() as int,
                    if len <= room {
                        bits
                    } else {
                        bits.take(room)
                    },
                )
                &&& if len <= room {
                    r == (0u128, 0u8) && final(self)@ == old(self)@ + bits
                        && final(self).spec_write_pos() == old(self).spec_write_pos() + len
                } else {
                    &&& final(self)@ == old(self)@ + bits.take(room)
                    &&& final(self).spec_write_pos() == PAGE_SIZE_BITS
                    &&& r.1 == len - room
                    &&& r.0 == if room == 0 {
                        val.value() as int
                    } else {
                        (val.value() % pow2((len - room) as nat)) as int
                    }
                }
            }),
    {
        self.push_bits(val, T::bits())
    }

    /// Reads the next bit.
    pub fn pop_bit(&mut self) -> (r: Option<bool>)
        requires
            old(self).well_formed(),
        ensures
            final(self).well_formed(),
            final(self).spec_page() == old(self).spec_page(),
            final(self).spec_write_pos() == old(self).spec_write_pos(),
            old(self)@.len() == 0 ==> r is None && final(self)@ == old(self)@,
            old(self)@.len() > 0 ==> r == Some(old(self)@[0]) && final(self)@ == old(self)@.skip(1),
    {
        if self.read_pos >= self.write_pos {
            None
        } else {
            let bit: bool = self.get_bit(self.read_pos);
            self.read_pos = self.read_pos + 1;
            assert(self@ =~= old(self)@.skip(1));
            Some(bit)
        }
    }

    /// Reads the next bits as a number. Of more than 128 bits it is the low
    /// ones. Nothing is read where not all of them are there.
    pub fn pop_bits(&mut self, bits: u8) -> (r: Option<u128>)
        requires
            old(self).well_formed(),
        ensures
            final(self).well_formed(),
            final(self).spec_page() == old(self).spec_page(),
            final(self).spec_write_pos() == old(self).spec_write_pos(),
            bits == 0 || old(self)@.len() < bits ==> r is None && final(self)@ == old(self)@,
            bits > 0 && old(self)@.len() >= bits ==> {
                &&& r is Some
                &&& r->0 == bits_value(old(self)@.take(bits as int)) % pow2(128)
                &&& final(self)@ == old(self)@.skip(bits as int)
            },
    {
        if bits == 0 || self.len() < bits as usize {
            return None;
        }
        let ghost start = self@;
        let mut result: u128 = 0;
        let mut i: u8 = 0;
        proof {
            assert(start.skip(0) =~= start);
            lemma_pow2_128();
            vstd::arithmetic::div_mod::lemma_small_mod(0, pow2(128));
        }
        while i < bits
            invariant
                i <= bits <= start.len(),
                self.well_formed(),
                self.spec_page() == old(self).spec_page(),
                self.spec_write_pos() == old(self).spec_write_pos(),
                self@ == start.skip(i as int),
                result == bits_value(start.take(i as int)) % pow2(128),
                pow2(128) == 0x1_0000_0000_0000_0000_0000_0000_0000_0000,
            decreases bits - i,
        {
            let bit: bool = match self.pop_bit() {
                Some(bit) => bit,
                None => false,
            };
            proof {
                assert(start.skip(i as int).skip(1) =~= start.skip(i + 1));
                assert(start.take(i + 1).drop_last() =~= start.take(i as int));
                assert(start.take(i + 1).last() == bit);
                lemma_shifted_in(
                    bits_value(start.take(i as int)) as int,
                    if bit {
                        1
                    } else {
                        0
                    },
                );
            }
            let low: u128 = result % 0x8000_0000_0000_0000_0000_0000_0000_0000;
            result = low * 2 + if bit {
                1
            } else {
                0
            };
            i = i + 1;
        }
        Some(result)
    }

    /// Appends the bytes that were filled to a sink and starts with an empty
    /// page. Bits that were read already are among them.
    pub fn flush_to_stream(&mut self, writer: &mut Vec<u8>) -> (r: Result<()>)
        requires
            old(self).well_formed(),
        ensures
            r is Ok,
            final(writer)@ == old(writer)@ + old(self).spec_page().take(
                ceil_div(old(self).spec_write_pos() as int, 8),
            ),
            final(self).well_formed(),
            final(self)@ == Seq::<bool>::empty(),
            final(self).spec_write_pos() == 0,
            old(self).spec_write_pos() > 0 ==> final(self).spec_page() == Seq::new(
                PAGE_SIZE as nat,
                |i: int| 0u8,
            ),
    {
        let ghost page = self.data@;
        let ghost before = writer@;
        if self.write_pos == 0 {
            assert(before + page.take(0) =~= before);
            assert(self@ =~= Seq::<bool>::empty());
            return Ok(());
        }
        let needed: usize = crate::numeric::div_ceil(self.write_pos, 8);
        let mut i: usize = 0;
        assert(before + page.take(0) =~= before);
        while i < needed
            invariant
                i <= needed <= PAGE_SIZE,
                page == self.data@,
                page.len() == PAGE_SIZE,
                writer@ == before + page.take(i as int),
            decreases needed - i,
        {
            writer.push(self.data[i]);
            assert(writer@ =~= before + page.take(i + 1));
            i = i + 1;
        }
        let fresh = BitVec::new();
        *self = fresh;
        Ok(())
    }

    /// Takes as many bytes as fit into the page, and says how many. They go to
    /// the byte that the next bit would be written to. Where that byte is partly
    /// filled, the bits that fill it stay, and those of the first byte taken
    /// that would stand in their place are dropped.
    pub fn read_from_stream(&mut self, reader: &[u8]) -> (r: Result<usize>)
        requires
            old(self).well_formed(),
            old(self).spec_write_pos() + 8 * taken(old(self).spec_write_pos(), reader@.len())
                <= PAGE_SIZE_BITS,
        ensures
            final(self).well_formed(),
            final(self).spec_read_pos() == old(self).spec_read_pos(),
            final(self)@.take(old(self)@.len() as int) == old(self)@,
            ({
                let write = old(self).spec_write_pos();
                let count = taken(write, reader@.len());
                &&& r is Ok && r->Ok_0 == count
                &&& final(self).spec_write_pos() == write + 8 * count
                &&& bytes_bits(final(self).spec_page()) == if count == 0 {
                    bytes_bits(old(self).spec_page())
                } else {
                    overwritten(
                        bytes_bits(old(self).spec_page()),
                        write as int,
                        bytes_bits(reader@.take(count)).skip((write % 8) as int),
                    )
                }
            }),
    {
        let first: usize = self.write_pos / 8;
        let filled: u8 = (self.write_pos % 8) as u8;
        let room: usize = PAGE_SIZE - first;
        let count: usize = if reader.len() < room {
            reader.len()
        } else {
            room
        };
        let ghost page = self.data@;
        let ghost write = self.write_pos;
        let mut k: usize = 0;
        while k < count
            invariant
                k <= count <= reader@.len(),
                first + count <= PAGE_SIZE,
                first == write / 8,
                filled == write % 8,
                self.data@.len() == PAGE_SIZE,
                page.len() == PAGE_SIZE,
                self.write_pos == write,
                self.read_pos == old(self).spec_read_pos(),
                forall|j: int|
                    0 <= j < PAGE_SIZE ==> #[trigger] self.data@[j] == (if first <= j < first + k {
                        if j == first && filled != 0 {
                            kept(page[j], reader@[0], filled)
                        } else {
                            reader@[j - first]
                        }
                    } else {
                        page[j]
                    }),
            decreases count - k,
        {
            let incoming: u8 = reader[k];
            let byte: u8 = if k == 0 && filled != 0 {
                joined_byte(self.data[first], incoming, filled)
            } else {
                incoming
            };
            self.data.set(first + k, byte);
            k = k + 1;
        }
        self.write_pos = self.write_pos + count * 8;
        proof {
            let now = bytes_bits(self.data@);
            let before = bytes_bits(page);
            let taken = reader@.take(count as int);
            lemma_bytes_bits_len(self.data@);
            lemma_bytes_bits_len(page);
            lemma_bytes_bits_len(taken);
            assert forall|i: int| 0 <= i < PAGE_SIZE_BITS implies #[trigger] now[i] == (if write
                <= i < 8 * (first + count) {
                bytes_bits(taken)[i - 8 * first]
            } else {
                before[i]
            }) by {
                lemma_page_bit(self.data@, i);
                lemma_page_bit(page, i);
                if first <= i / 8 < first + count {
                    lemma_page_bit(taken, i - 8 * first);
                    assert((i - 8 * first) / 8 == i / 8 - first);
                    assert((i - 8 * first) % 8 == i % 8);
                    if i / 8 == first && filled != 0 {
                        lemma_kept_bit(page[first as int], reader@[0], filled, i % 8);
                    }
                }
            }
            if count == 0 {
                assert(now =~= before);
            } else {
                assert(now =~= overwritten(
                    before,
                    write as int,
                    bytes_bits(taken).skip(filled as int),
                ));
            }
            assert(self@.take(old(self)@.len() as int) =~= old(self)@);
        }
        Ok(count)
    }

    /// Appends the bytes that were filled to a sink and starts with an empty
    /// page.
    pub fn flush(&mut self, writer: &mut Vec<u8>) -> (r: Result<()>)
        requires
            old(self).well_formed(),
        ensures
            r is Ok,
            final(writer)@ == old(writer)@ + old(self).spec_page().take(
                ceil_div(old(self).spec_write_pos() as int, 8),
            ),
            final(self).well_formed(),
            final(self)@ == Seq::<bool>::empty(),
            final(self).spec_write_pos() == 0,
    {
        self.flush_to_stream(writer)
    }

    /// The number of zero bits that the page starts with.
    pub fn zeroes(&self) -> (r: usize)
        requires
            self.well_formed(),
        ensures
            r == leading_zeros(bytes_bits(self.spec_page())),
            r <= PAGE_SIZE_BITS,
    {
        let ghost page = bytes_bits(self.data@);
        let mut count: usize = 0;
        assert(page.skip(0) =~= page);
        while count < PAGE_SIZE_BITS
            invariant
                count <= PAGE_SIZE_BITS,
                self.well_formed(),
                page == bytes_bits(self.spec_page()),
                leading_zeros(page) == count + leading_zeros(page.skip(count as int)),
            decreases PAGE_SIZE_BITS - count,
        {
            if self.get_bit(count) {
                assert(page.skip(count as int)[0]);
                return count;
            }
            proof {
                assert(page.skip(count as int).skip(1) =~= page.skip(count + 1));
            }
            count = count + 1;
        }
        assert(page.skip(PAGE_SIZE_BITS as int).len() == 0);
        count
    }

    /// How far the first one of the page is from the end of the bits, counted
    /// as if all of them were unread. Nothing where the zeros are as many as
    /// the bits.
    pub fn first_one(&self) -> (r: Option<usize>)
        requires
            self.well_formed(),
            leading_zeros(bytes_bits(self.spec_page())) <= self@.len(),
        ensures
            ({
                let zeros = leading_zeros(bytes_bits(self.spec_page()));
                &&& r is None <==> zeros == self@.len()
                &&& r is Some ==> r->0 == self@.len() - zeros
            }),
    {
        let zeroes: usize = self.zeroes();
        let len: usize = self.len();
        if zeroes == len {
            None
        } else {
            Some(len - zeroes)
        }
    }

    /// A bit that is there to be read.
    pub fn index(&self, index: usize) -> (r: bool)
        requires
            self.well_formed(),
            index < self@.len(),
        ensures
            r == self@[index as int],
    {
        self.get_bit(self.read_pos + index)
    }

    /// The bytes from the one that the next bit to be read lies in, as many as
    /// the bits fill.
    pub fn to_bytes(&self) -> (r: Vec<u8>)
        requires
            self.well_formed(),
        ensures
            ({
                let from = self.spec_read_pos() as int / 8;
                r@ == self.spec_page().subrange(from, from + ceil_div(self@.len() as int, 8))
            }),
    {
        let needed: usize = crate::numeric::div_ceil(self.len(), 8);
        let from: usize = self.read_pos / 8;
        vstd::slice::slice_to_vec(
            vstd::slice::slice_subrange(self.data.as_slice(), from, from + needed),
        )
    }

    /// A page that holds bytes, and how many they are. Nothing where they do
    /// not fit.
    pub fn from_bytes(bytes: &[u8]) -> (r: Option<(Self, usize)>)
        ensures
            r is Some <==> bytes@.len() <= PAGE_SIZE,
            r is Some ==> {
                &&& (r->0).1 == bytes@.len()
                &&& (r->0).0.well_formed()
                &&& (r->0).0@ == bytes_bits(bytes@)
                &&& (r->0).0.spec_read_pos() == 0
                &&& (r->0).0.spec_write_pos() == 8 * bytes@.len()
            },
    {
        let total: usize = bytes.len();
        if total > PAGE_SIZE {
            return None;
        }
        let mut data: Vec<u8> = Vec::new();
        let mut i: usize = 0;
        while i < PAGE_SIZE
            invariant
                i <= PAGE_SIZE,
                total == bytes@.len(),
                total <= PAGE_SIZE,
                data@.len() == i,
                forall|k: int|
                    0 <= k < i ==> #[trigger] data@[k] == (if k < total {
                        bytes@[k]
                    } else {
                        0u8
                    }),
            decreases PAGE_SIZE - i,
        {
            data.push(
                if i < total {
                    bytes[i]
                } else {
                    0
                },
            );
            i = i + 1;
        }
        let r = BitVec { data, write_pos: total * 8, read_pos: 0 };
        proof {
            lemma_bytes_bits_len(data@);
            lemma_bytes_bits_len(bytes@);
            crate::bits::lemma_bytes_bits_add(bytes@, data@.skip(total as int));
            assert(bytes@ + data@.skip(total as int) =~= data@);
            assert(r@ =~= bytes_bits(bytes@));
        }
        Some((r, total))
    }

    /// The bits that are there to be read, as ones and zeros.
    pub fn text(&self) -> (r: String)
        requires
            self.well_formed(),
        ensures
            r@.len() == self@.len(),
            forall|i: int|
                0 <= i < self@.len() ==> #[trigger] r@[i] == (if self@[i] {
                    '1'
                } else {
                    '0'
                }),
    {
        let mut r = "".to_owned();
        proof {
            reveal_strlit("");
            reveal_strlit("1");
            reveal_strlit("0");
        }
        let len: usize = self.len();
        let mut i: usize = 0;
        while i < len
            invariant
                i <= len,
                len == self@.len(),
                self.well_formed(),
                "1"@.len() == 1,
                "1"@[0] == '1',
                "0"@.len() == 1,
                "0"@[0] == '0',
                r@.len() == i,
                forall|k: int|
                    0 <= k < i ==> #[trigger] r@[k] == (if self@[k] {
                        '1'
                    } else {
                        '0'
                    }),
            decreases len - i,
        {
            if self.index(i) {
                r.append("1");
            } else {
                r.append("0");
            }
            i = i + 1;
        }
        r
    }
}

/// The number of bytes that fit into a page behind the bits that are written.
pub open spec fn taken(write_pos: nat, len: nat) -> int {
    let room = PAGE_SIZE - write_pos as int / 8;
    if len < room {
        len as int
    } else {
        room
    }
}

/// Bits with others in the place of those from `at`.
pub open spec fn overwritten(bits: Seq<bool>, at: int, new: Seq<bool>) -> Seq<bool> {
    bits.take(at) + new + bits.skip(at + new.len())
}

/// The `filled` high bits of a byte and the other bits of another one.
spec fn kept(partial: u8, incoming: u8, filled: u8) -> u8 {
    (partial & !(0xffu8 >> filled)) | (incoming & (0xffu8 >> filled))
}

/// Joins the `filled` high bits of a byte with the other bits of another one.
fn joined_byte(partial: u8, incoming: u8, filled: u8) -> (r: u8)
    requires
        filled < 8,
    ensures
        r == kept(partial, incoming, filled),
{
    let mask: u8 = 0xffu8 >> filled;
    (partial & !mask) | (incoming & mask)
}

/// Where the bits of a joined byte come from.
proof fn lemma_kept_bit(partial: u8, incoming: u8, filled: u8, i: int)
    requires
        filled < 8,
        0 <= i < 8,
    ensures
        be_bits(kept(partial, incoming, filled) as nat, 8)[i] == if i < filled {
            be_bits(partial as nat, 8)[i]
        } else {
            be_bits(incoming as nat, 8)[i]
        },
{
    let place: u8 = (7 - i) as u8;
    let byte = kept(partial, incoming, filled);
    lemma_byte_bit(byte, i, place);
    lemma_byte_bit(partial, i, place);
    lemma_byte_bit(incoming, i, place);
    assert((byte >> place) & 1 == if place + filled >= 8 {
        (partial >> place) & 1
    } else {
        (incoming >> place) & 1
    }) by (bit_vector)
        requires
            filled < 8,
            place < 8,
            byte == (partial & !(0xffu8 >> filled)) | (incoming & (0xffu8 >> filled)),
    ;
}

/// Two to a power that fits.
fn power_of_two(exponent: u8) -> (r: u128)
    requires
        exponent < 128,
    ensures
        r == pow2(exponent as nat),
{
    let mut r: u128 = 1;
    let mut i: u8 = 0;
    proof {
        lemma2_to64();
    }
    while i < exponent
        invariant
            i <= exponent < 128,
            r == pow2(i as nat),
        decreases exponent - i,
    {
        proof {
            lemma_pow2_unfold((i + 1) as nat);
            lemma_pow2_fits((i + 1) as nat);
        }
        r = r * 2;
        i = i + 1;
    }
    r
}

/// A bit that comes behind a number moves the number's highest bit out.
proof fn lemma_shifted_in(value: int, bit: int)
    requires
        0 <= value,
        0 <= bit <= 1,
    ensures
        (2 * value + bit) % 0x1_0000_0000_0000_0000_0000_0000_0000_0000int == 2 * ((value
            % 0x1_0000_0000_0000_0000_0000_0000_0000_0000int)
            % 0x8000_0000_0000_0000_0000_0000_0000_0000int) + bit,
{
}


proof fn lemma_pow2_128()
    ensures
        pow2(128) == 0x1_0000_0000_0000_0000_0000_0000_0000_0000,
{
    lemma2_to64();
    lemma_pow2_adds(64, 64);
}

proof fn lemma_pow2_fits(exponent: nat)
    requires
        exponent < 128,
    ensures
        pow2(exponent) <= u128::MAX,
{
    lemma_pow2_128();
    vstd::arithmetic::power2::lemma_pow2_strictly_increases(exponent, 128);
}

impl From<bool> for BitVec {
    fn from(value: bool) -> (r: Self)
        ensures
            r.well_formed(),
            r@ == seq![value],
    {
        let mut r = BitVec::new();
        r.push_bit(value);
        assert(r@ =~= seq![value]);
        r
    }
}

impl vstd::std_specs::convert::FromSpecImpl<bool> for BitVec {
    open spec fn obeys_from_spec() -> bool {
        false
    }

    open spec fn from_spec(value: bool) -> Self {
        arbitrary()
    }
}

impl From<u8> for BitVec {
    fn from(value: u8) -> (r: Self)
        ensures
            r.well_formed(),
            r@ == be_bits(value as nat, 8),
    {
        from_word(value)
    }
}

impl vstd::std_specs::convert::FromSpecImpl<u8> for BitVec {
    open spec fn obeys_from_spec() -> bool {
        false
    }

    open spec fn from_spec(value: u8) -> Self {
        arbitrary()
    }
}

impl From<u16> for BitVec {
    fn from(value: u16) -> (r: Self)
        ensures
            r.well_formed(),
            r@ == be_bits(value as nat, 16),
    {
        from_word(value)
    }
}

impl vstd::std_specs::convert::FromSpecImpl<u16> for BitVec {
    open spec fn obeys_from_spec() -> bool {
        false
    }

    open spec fn from_spec(value: u16) -> Self {
        arbitrary()
    }
}

impl From<u32> for BitVec {
    fn from(value: u32) -> (r: Self)
        ensures
            r.well_formed(),
            r@ == be_bits(value as nat, 32),
    {
        from_word(value)
    }
}

impl vstd::std_specs::convert::FromSpecImpl<u32> for BitVec {
    open spec fn obeys_from_spec() -> bool {
        false
    }

    open spec fn from_spec(value: u32) -> Self {
        arbitrary()
    }
}

impl From<u64> for BitVec {
    fn from(value: u64) -> (r: Self)
        ensures
            r.well_formed(),
            r@ == be_bits(value as nat, 64),
    {
        from_word(value)
    }
}

impl vstd::std_specs::convert::FromSpecImpl<u64> for BitVec {
    open spec fn obeys_from_spec() -> bool {
        false
    }

    open spec fn from_spec(value: u64) -> Self {
        arbitrary()
    }
}

impl From<u128> for BitVec {
    fn from(value: u128) -> (r: Self)
        ensures
            r.well_formed(),
            r@ == be_bits(value as nat, 128),
    {
        from_word(value)
    }
}

impl vstd::std_specs::convert::FromSpecImpl<u128> for BitVec {
    open spec fn obeys_from_spec() -> bool {
        false
    }

    open spec fn from_spec(value: u128) -> Self {
        arbitrary()
    }
}

/// A page that holds the bits of a number.
fn from_word<T: Word>(value: T) -> (r: BitVec)
    requires
        T::width() <= 128,
    ensures
        r.well_formed(),
        r@ == be_bits(value.value(), T::width()),
{
    let mut r = BitVec::new();
    let ghost bits = be_bits(value.value(), T::width());
    let rest = r.push(value);
    assert(Seq::<bool>::empty() + bits =~= bits);
    r
}

/// A number that was written into an empty page with enough bits is what taking
/// as many bits gives, and what was written behind it is left.
pub proof fn law_pushed_bits_pop(value: nat, len: nat, rest: Seq<bool>)
    requires
        0 < len <= 128,
        value < pow2(len),
    ensures
        ({
            let page = be_bits(value, len) + rest;
            &&& page.len() >= len
            &&& bits_value(page.take(len as int)) % pow2(128) == value
            &&& page.skip(len as int) == rest
        }),
{
    law_bits_come_back(value, len, rest);
    if len < 128 {
        lemma_pow2_strictly_increases(len, 128);
    }
    lemma_small_mod(value, pow2(128));
}

/// Runs of bits, one behind the other.
pub open spec fn joined(runs: Seq<Seq<bool>>) -> Seq<bool>
    decreases runs.len(),
{
    if runs.len() == 0 {
        Seq::empty()
    } else {
        joined(runs.drop_last()) + runs.last()
    }
}

/// How a page looks while runs of bits are written into a new one. To read
/// bits changes nothing in the page.
pub open spec fn is_filled(pages: Seq<Seq<u8>>, runs: Seq<Seq<bool>>) -> bool {
    &&& pages.len() == runs.len() + 1
    &&& pages[0] == Seq::new(PAGE_SIZE as nat, |i: int| 0u8)
    &&& forall|i: int|
        0 <= i < runs.len() ==> bytes_bits(pages[i + 1]) == overwritten(
            bytes_bits(pages[i]),
            joined(runs.take(i)).len() as int,
            #[trigger] runs[i],
        )
}

proof fn lemma_zero_page(count: nat)
    ensures
        bytes_bits(Seq::new(count, |i: int| 0u8)) == zeros(8 * count),
    decreases count,
{
    let page = Seq::new(count, |i: int| 0u8);
    lemma_bytes_bits_len(page);
    assert forall|i: int| 0 <= i < 8 * count implies !bytes_bits(page)[i] by {
        lemma_page_bit(page, i);
        lemma_be_bits_at(0, 8, i % 8);
        lemma_pow2_pos((7 - i % 8) as nat);
        vstd::arithmetic::div_mod::lemma_basic_div(0, pow2((7 - i % 8) as nat) as int);
    }
    assert(bytes_bits(page) =~= zeros(8 * count));
}

proof fn lemma_filled(pages: Seq<Seq<u8>>, runs: Seq<Seq<bool>>)
    requires
        is_filled(pages, runs),
        joined(runs).len() <= PAGE_SIZE_BITS,
    ensures
        bytes_bits(pages.last()) == joined(runs) + zeros(
            (PAGE_SIZE_BITS - joined(runs).len()) as nat,
        ),
    decreases runs.len(),
{
    lemma_zero_page(PAGE_SIZE as nat);
    if runs.len() == 0 {
        assert(joined(runs) + zeros(PAGE_SIZE_BITS as nat) =~= zeros(PAGE_SIZE_BITS as nat));
    } else {
        let n = runs.len() - 1;
        let before = runs.drop_last();
        let earlier = pages.drop_last();
        assert(runs.take(n) =~= before);
        assert forall|i: int| 0 <= i < before.len() implies bytes_bits(earlier[i + 1])
            == overwritten(
            bytes_bits(earlier[i]),
            joined(before.take(i)).len() as int,
            #[trigger] before[i],
        ) by {
            assert(before.take(i) =~= runs.take(i));
            assert(runs[i] == before[i]);
        }
        lemma_filled(earlier, before);
        assert(runs[n] == runs.last());
        assert(bytes_bits(pages.last()) =~= joined(runs) + zeros(
            (PAGE_SIZE_BITS - joined(runs).len()) as nat,
        ));
    }
}

/// A flush writes all bits that were written into a new page, whether or not
/// they were read, and zeros up to the next byte boundary.
pub proof fn law_flush_writes_all(pages: Seq<Seq<u8>>, runs: Seq<Seq<bool>>)
    requires
        is_filled(pages, runs),
        joined(runs).len() <= PAGE_SIZE_BITS,
    ensures
        bytes_bits(pages.last().take(ceil_div(joined(runs).len() as int, 8))) == padded(
            joined(runs),
        ),
{
    lemma_filled(pages, runs);
    let page = pages.last();
    let n = ceil_div(joined(runs).len() as int, 8);
    lemma_bytes_bits_len(page);
    lemma_bytes_bits_len(page.take(n));
    crate::bits::lemma_bytes_bits_add(page.take(n), page.skip(n));
    assert(page.take(n) + page.skip(n) =~= page);
    assert(n <= PAGE_SIZE && padded(joined(runs)).len() == 8 * n);
    assert(bytes_bits(page.take(n)) =~= bytes_bits(page).take(8 * n));
    assert(bytes_bits(page.take(n)) =~= padded(joined(runs)));
}

/// Once a bit is set, every place of the page holds what it held before, but for
/// that one, and as many bits are held.
pub proof fn law_one_bit_is_set(before: BitVec, bit_idx: int, bit: bool, after: BitVec, place: int)
    requires
        before.well_formed(),
        after.well_formed(),
        0 <= bit_idx < PAGE_SIZE_BITS,
        0 <= place < PAGE_SIZE_BITS,
        after.spec_read_pos() == before.spec_read_pos(),
        after.spec_write_pos() == before.spec_write_pos(),
        bytes_bits(after.spec_page()) == bytes_bits(before.spec_page()).update(bit_idx, bit),
    ensures
        bytes_bits(after.spec_page())[place] == if place == bit_idx {
            bit
        } else {
            bytes_bits(before.spec_page())[place]
        },
        after@.len() == before@.len(),
{
}

/// Overwriting puts the new bits in their place and keeps all others.
pub proof fn law_overwriting_keeps_the_rest(bits: Seq<bool>, at: int, new: Seq<bool>, i: int)
    requires
        0 <= at,
        at + new.len() <= bits.len(),
        0 <= i < bits.len(),
    ensures
        overwritten(bits, at, new).len() == bits.len(),
        at <= i < at + new.len() ==> overwritten(bits, at, new)[i] == new[i - at],
        i < at || i >= at + new.len() ==> overwritten(bits, at, new)[i] == bits[i],
{
}

/// As many bytes are taken as there are, but no more than those of the page behind the last whole
/// byte that is written.
pub proof fn law_page_takes_what_fits(write_pos: nat, len: nat)
    requires
        write_pos <= 32768,
    ensures
        0 <= taken(write_pos, len) <= len,
        8 * taken(write_pos, len) <= 32768 - write_pos + write_pos % 8,
        taken(write_pos, len) == len || 8 * taken(write_pos, len) == 32768 - write_pos
            + write_pos % 8,
{
}

} // verus!
