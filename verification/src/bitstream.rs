//! Streams of bits in memory, most significant bit first.
use std::io::{Cursor, Read, Write};

use bitstream_io::{BigEndian, BitRead, BitReader, BitWrite, BitWriter};
use vstd::arithmetic::power2::{lemma2_to64, lemma_pow2_strictly_increases, pow2};
use vstd::prelude::*;

use crate::bits::{
    be_bits, bits_value, bytes_bits, leading_zeros, lemma_be_bits_len, lemma_be_bits_of_bits_value,
    lemma_bits_value_of_be_bits, lemma_bytes_bits_injective, lemma_bytes_bits_len, padded, zeros,
};
use crate::error::{Error, IoErrorKind, Result};

verus! {

/// Where bits are written to: `bitstream_io`'s `BitWriter` over a `Vec<u8>`.
#[verifier::external_body]
pub struct BitSink {
    inner: BitWriter<Vec<u8>, BigEndian>,
}

/// Where bits are read from: `bitstream_io`'s `BitReader` over a byte string.
#[verifier::external_body]
pub struct BitSource {
    inner: BitReader<Cursor<Vec<u8>>, BigEndian>,
}

/// The bits that were written to a sink, the first written first.
pub uninterp spec fn sink_bits(sink: BitSink) -> Seq<bool>;

/// The bits that a source still has to give, the next one first.
pub uninterp spec fn source_bits(source: BitSource) -> Seq<bool>;

/// Whether a source ran into its end while it looked for a one, and holds on to
/// the last byte that it took.
pub uninterp spec fn source_ran_out(source: BitSource) -> bool;

/// How many of the bits that a source still has to give it has taken from the
/// bytes already, where the bytes end at a byte boundary.
pub open spec fn source_held(source: BitSource) -> int {
    held_of(source_bits(source), source_ran_out(source))
}

/// What a source has still to take from the bytes.
pub open spec fn source_behind(source: BitSource) -> Seq<bool> {
    source_bits(source).skip(source_held(source))
}

/// How many bits a reader holds of the byte that it took last: what is missing
/// to whole bytes, or all eight where it ran into the end.
pub open spec fn held_of(bits: Seq<bool>, ran_out: bool) -> int {
    if ran_out && bits.len() == 8 {
        8
    } else {
        bits.len() as int % 8
    }
}

/// The error of std's readers and writers, as an opaque type.
#[verifier::external_type_specification]
#[verifier::external_body]
pub struct ExIoError(std::io::Error);

/// Calls `std::io::Error::kind` and keeps the kinds that the library tells
/// apart. Nothing is claimed of the result.
#[verifier::external_body]
fn io_error_kind(error: std::io::Error) -> (kind: IoErrorKind) {
    match error.kind() {
        std::io::ErrorKind::UnexpectedEof => IoErrorKind::UnexpectedEof,
        std::io::ErrorKind::InvalidInput => IoErrorKind::InvalidInput,
        _ => IoErrorKind::Other,
    }
}

/// Calls `BitWriter::endian` on an empty vector: a writer that holds no bits.
#[verifier::external_body]
fn sink_new() -> (sink: BitSink)
    ensures
        sink_bits(sink) == Seq::<bool>::empty(),
{
    BitSink { inner: BitWriter::endian(Vec::new(), BigEndian) }
}

/// Calls `BitWrite::write_bit`: the bit comes behind those written before. A
/// vector grows as needed, so the call succeeds.
#[verifier::external_body]
fn sink_write_bit(sink: &mut BitSink, bit: bool) -> (r: std::result::Result<(), IoErrorKind>)
    ensures
        r is Ok,
        sink_bits(*final(sink)) == sink_bits(*old(sink)).push(bit),
{
    sink.inner.write_bit(bit).map_err(io_error_kind)
}

/// Calls `BitWrite::write_var` on a `u64`: the value's low `bits` bits come
/// behind those written before, most significant first. More than 64 bits, or
/// a value that does not fit a nonzero number of bits, is refused as invalid
/// input before anything is written.
#[verifier::external_body]
fn sink_write_var(sink: &mut BitSink, bits: u32, value: u64) -> (r: std::result::Result<
    (),
    IoErrorKind,
>)
    ensures
        bits <= 64 && (bits == 0 || value < pow2(bits as nat)) ==> r is Ok && sink_bits(
            *final(sink),
        ) == sink_bits(*old(sink)) + be_bits(value as nat, bits as nat),
        !(bits <= 64 && (bits == 0 || value < pow2(bits as nat))) ==> r is Err && r->Err_0
            == IoErrorKind::InvalidInput && sink_bits(*final(sink)) == sink_bits(*old(sink)),
{
    sink.inner.write_var(bits, value).map_err(io_error_kind)
}

/// Calls `BitWrite::write_bytes`: the bytes' bits come behind those written
/// before, whether or not these fill whole bytes.
#[verifier::external_body]
fn sink_write_bytes(sink: &mut BitSink, bytes: &[u8]) -> (r: std::result::Result<(), IoErrorKind>)
    ensures
        r is Ok,
        sink_bits(*final(sink)) == sink_bits(*old(sink)) + bytes_bits(bytes@),
{
    sink.inner.write_bytes(bytes).map_err(io_error_kind)
}

/// Calls `BitWriter::aligned_writer`, which pads with zero bits to the next
/// byte boundary, and `Write::write_all` on the vector behind it.
#[verifier::external_body]
fn sink_write_aligned(sink: &mut BitSink, bytes: &[u8]) -> (r: std::result::Result<
    (),
    IoErrorKind,
>)
    ensures
        r is Ok,
        sink_bits(*final(sink)) == padded(sink_bits(*old(sink))) + bytes_bits(bytes@),
{
    sink.inner.aligned_writer().and_then(|w| w.write_all(bytes)).map_err(io_error_kind)
}

/// Calls `BitWrite::byte_align`: zero bits are written up to the next byte
/// boundary.
#[verifier::external_body]
fn sink_align(sink: &mut BitSink) -> (r: std::result::Result<(), IoErrorKind>)
    ensures
        r is Ok,
        sink_bits(*final(sink)) == padded(sink_bits(*old(sink))),
{
    sink.inner.byte_align().map_err(io_error_kind)
}

/// Calls `BitWriter::flush`, which flushes the vector: nothing changes.
#[verifier::external_body]
fn sink_flush(sink: &mut BitSink) -> (r: std::result::Result<(), IoErrorKind>)
    ensures
        r is Ok,
        sink_bits(*final(sink)) == sink_bits(*old(sink)),
{
    sink.inner.flush().map_err(io_error_kind)
}

/// Calls `BitWriter::into_writer`: the vector holds the bits that fill whole
/// bytes, and the bits behind the last byte boundary are dropped.
#[verifier::external_body]
fn sink_into_bytes(sink: BitSink) -> (bytes: Vec<u8>)
    ensures
        bytes_bits(bytes@) == sink_bits(sink).take(
            sink_bits(sink).len() - sink_bits(sink).len() % 8,
        ),
{
    sink.inner.into_writer()
}

/// Calls `BitReader::endian` on a cursor at the start of the bytes.
#[verifier::external_body]
fn source_new(bytes: Vec<u8>) -> (source: BitSource)
    ensures
        source_bits(source) == bytes_bits(bytes@),
        !source_ran_out(source),
{
    BitSource { inner: BitReader::endian(Cursor::new(bytes), BigEndian) }
}

/// Calls `BitRead::read_bit`: takes the next bit, or fails at the end of the
/// bytes, where nothing is left.
#[verifier::external_body]
fn source_read_bit(source: &mut BitSource) -> (r: std::result::Result<bool, IoErrorKind>)
    ensures
        source_bits(*old(source)).len() > 0 ==> r is Ok && r->Ok_0 == source_bits(*old(source))[0]
            && source_bits(*final(source)) == source_bits(*old(source)).skip(1) && !source_ran_out(
            *final(source),
        ),
        source_bits(*old(source)).len() == 0 ==> r is Err && r->Err_0 == IoErrorKind::UnexpectedEof
            && source_bits(*final(source)).len() == 0,
{
    source.inner.read_bit().map_err(io_error_kind)
}

/// Calls `BitRead::read_var` for a `u64`: takes the next `bits` bits as a
/// number, most significant first. More than 64 bits are refused as invalid
/// input before anything is read. Where fewer bits are left the call fails
/// with an end of file and leaves no more bits behind than there were: the
/// reader takes the bytes that fill the number before the byte that is shared
/// with what follows, and it empties its own rest of a byte first where no
/// byte is shared. How far the cursor moves where it has some of several bytes
/// but not all of them is not documented, and not stated.
#[verifier::external_body]
fn source_read_var(source: &mut BitSource, bits: u32) -> (r: std::result::Result<u64, IoErrorKind>)
    ensures
        bits > 64 ==> r is Err && r->Err_0 == IoErrorKind::InvalidInput && source_bits(
            *final(source),
        ) == source_bits(*old(source)),
        bits <= 64 && bits <= source_bits(*old(source)).len() ==> r is Ok && r->Ok_0 as nat
            == bits_value(source_bits(*old(source)).take(bits as int)) && source_bits(
            *final(source),
        ) == source_bits(*old(source)).skip(bits as int),
        source_ran_out(*final(source)) ==> source_ran_out(*old(source)) && (r is Err || bits == 0),
        bits <= 64 && bits > source_bits(*old(source)).len() ==> r is Err && r->Err_0
            == IoErrorKind::UnexpectedEof && source_bits(*final(source)).len() <= source_bits(
            *old(source),
        ).len(),
        bits <= 64 && bits > source_bits(*old(source)).len() && is_short_read_settled(
            source_bits(*old(source)),
            source_held(*old(source)),
            bits as int,
        ) ==> source_bits(*final(source)) == after_short_read(
            source_bits(*old(source)),
            source_held(*old(source)),
            bits as int,
        ),
{
    source.inner.read_var(bits).map_err(io_error_kind)
}

/// Calls `BitRead::read_bytes` for `buf`: fills it with the next bits, whether
/// or not they start at a byte boundary. It takes as many bytes as it fills, and
/// fails with an end of file where there are too few, also where the source
/// holds a whole byte. What a failed read leaves behind is not stated.
#[verifier::external_body]
fn source_read_bytes(source: &mut BitSource, buf: &mut [u8]) -> (r: std::result::Result<
    (),
    IoErrorKind,
>)
    ensures
        final(buf)@.len() == old(buf)@.len(),
        8 * old(buf)@.len() <= source_behind(*old(source)).len() ==> r is Ok && bytes_bits(
            final(buf)@,
        ) == source_bits(*old(source)).take(8 * old(buf)@.len() as int) && source_bits(
            *final(source),
        ) == source_bits(*old(source)).skip(8 * old(buf)@.len() as int),
        8 * old(buf)@.len() > source_behind(*old(source)).len() ==> r is Err && r->Err_0
            == IoErrorKind::UnexpectedEof,
        source_ran_out(*final(source)) ==> source_ran_out(*old(source)),
{
    source.inner.read_bytes(buf).map_err(io_error_kind)
}

/// Calls `BitReader::aligned_reader`, which drops the bits that the source
/// holds of the byte that it took last, and `Read::read_exact` on the cursor
/// behind it. What a failed read leaves behind is not stated.
#[verifier::external_body]
fn source_read_aligned(source: &mut BitSource, buf: &mut [u8]) -> (r: std::result::Result<
    (),
    IoErrorKind,
>)
    ensures
        final(buf)@.len() == old(buf)@.len(),
        8 * old(buf)@.len() <= source_behind(*old(source)).len() ==> r is Ok && bytes_bits(
            final(buf)@,
        ) == source_behind(*old(source)).take(8 * old(buf)@.len() as int) && source_bits(
            *final(source),
        ) == source_behind(*old(source)).skip(8 * old(buf)@.len() as int),
        8 * old(buf)@.len() > source_behind(*old(source)).len() ==> r is Err && r->Err_0
            == IoErrorKind::UnexpectedEof,
        !source_ran_out(*final(source)),
{
    source.inner.aligned_reader().read_exact(buf).map_err(io_error_kind)
}

/// Calls `BitRead::byte_align`: the bits that the source holds of the byte that
/// it took last are dropped.
#[verifier::external_body]
fn source_align(source: &mut BitSource)
    ensures
        source_bits(*final(source)) == source_behind(*old(source)),
        !source_ran_out(*final(source)),
{
    source.inner.byte_align();
}

/// Calls `BitRead::read_unary` with a one as its stop bit: takes the zeros and
/// the one behind them, and gives the number of zeros. Where no one follows,
/// the call fails with an end of file. The source then still has the zeros of
/// the byte that it took last. The count is kept in 32 bits.
#[verifier::external_body]
fn source_read_unary(source: &mut BitSource) -> (r: std::result::Result<u32, IoErrorKind>)
    requires
        leading_zeros(source_bits(*old(source))) <= u32::MAX,
    ensures
        leading_zeros(source_bits(*old(source))) < source_bits(*old(source)).len() ==> r is Ok
            && r->Ok_0 as nat == leading_zeros(source_bits(*old(source))) && source_bits(
            *final(source),
        ) == source_bits(*old(source)).skip(leading_zeros(source_bits(*old(source))) as int + 1)
            && !source_ran_out(*final(source)),
        leading_zeros(source_bits(*old(source))) == source_bits(*old(source)).len() ==> r is Err
            && r->Err_0 == IoErrorKind::UnexpectedEof && source_bits(*final(source)) == last_zeros(
            source_bits(*old(source)).len(),
        ) && source_ran_out(*final(source)) == (source_bits(*old(source)).len() >= 8),
{
    source.inner.read_unary::<1>().map_err(io_error_kind)
}

/// What is left of `bits` behind the next byte boundary, where the stream ends
/// at one.
pub open spec fn aligned(bits: Seq<bool>) -> Seq<bool> {
    bits.skip((bits.len() % 8) as int)
}

/// What is left of so many zeros after a search for a one: those of the last
/// byte.
pub open spec fn last_zeros(len: nat) -> Seq<bool> {
    zeros(
        if len < 8 {
            len
        } else {
            8
        },
    )
}

/// Whether it is settled what a reader has left that holds `held` bits, where
/// `count` bits are asked for and fewer are there: the bytes to be taken are
/// none, or all of those that a number of `count` bits fills.
pub open spec fn is_short_read_settled(bits: Seq<bool>, held: int, count: int) -> bool {
    let behind = bits.len() - held;
    behind == 0 || ((count - held) / 8 == behind / 8 && (count - held) % 8 != 0)
}

/// What a reader has left after such a read: the bits that it held, unless the
/// number would have ended at a byte boundary.
pub open spec fn after_short_read(bits: Seq<bool>, held: int, count: int) -> Seq<bool> {
    if (count - held) % 8 == 0 {
        Seq::empty()
    } else {
        bits.take(held)
    }
}

/// No run of zeros is longer than a 32-bit count can say.
pub open spec fn zero_runs_fit(bits: Seq<bool>) -> bool {
    forall|i: int|
        0 <= i && i + 0x1_0000_0000 <= bits.len() ==> leading_zeros(#[trigger] bits.skip(i))
            <= u32::MAX
}

/// Unsigned integers that a stream holds.
pub trait BitInteger: Copy {
    /// The number of bits of the type.
    spec fn width() -> nat;

    /// The number that a value stands for.
    spec fn num(self) -> nat;

    proof fn lemma_fits(self)
        ensures
            Self::width() <= 64,
            self.num() < pow2(Self::width()),
    ;

    /// Values with the same number are the same.
    proof fn lemma_same(self, other: Self)
        requires
            self.num() == other.num(),
        ensures
            self == other,
    ;

    /// The number of bits of the type.
    fn bit_count() -> (bits: u32)
        ensures
            bits == Self::width(),
            0 < bits <= 64,
    ;

    fn to_u64(self) -> (value: u64)
        ensures
            value == self.num(),
    ;

    fn from_u64(value: u64) -> (r: Self)
        requires
            value < pow2(Self::width()),
        ensures
            r.num() == value,
    ;
}

impl BitInteger for u8 {
    open spec fn width() -> nat {
        8
    }

    open spec fn num(self) -> nat {
        self as nat
    }

    proof fn lemma_fits(self) {
        lemma2_to64();
    }

    proof fn lemma_same(self, other: Self) {
    }

    fn bit_count() -> u32 {
        8
    }

    fn to_u64(self) -> u64 {
        self as u64
    }

    fn from_u64(value: u64) -> u8 {
        proof {
            lemma2_to64();
        }
        value as u8
    }
}

impl BitInteger for u16 {
    open spec fn width() -> nat {
        16
    }

    open spec fn num(self) -> nat {
        self as nat
    }

    proof fn lemma_fits(self) {
        lemma2_to64();
    }

    proof fn lemma_same(self, other: Self) {
    }

    fn bit_count() -> u32 {
        16
    }

    fn to_u64(self) -> u64 {
        self as u64
    }

    fn from_u64(value: u64) -> u16 {
        proof {
            lemma2_to64();
        }
        value as u16
    }
}

impl BitInteger for u32 {
    open spec fn width() -> nat {
        32
    }

    open spec fn num(self) -> nat {
        self as nat
    }

    proof fn lemma_fits(self) {
        lemma2_to64();
    }

    proof fn lemma_same(self, other: Self) {
    }

    fn bit_count() -> u32 {
        32
    }

    fn to_u64(self) -> u64 {
        self as u64
    }

    fn from_u64(value: u64) -> u32 {
        proof {
            lemma2_to64();
        }
        value as u32
    }
}

impl BitInteger for u64 {
    open spec fn width() -> nat {
        64
    }

    open spec fn num(self) -> nat {
        self as nat
    }

    proof fn lemma_fits(self) {
        lemma2_to64();
    }

    proof fn lemma_same(self, other: Self) {
    }

    fn bit_count() -> u32 {
        64
    }

    fn to_u64(self) -> u64 {
        self
    }

    fn from_u64(value: u64) -> u64 {
        value
    }
}

/// Writes bits into memory. Its view is what was written so far.
pub struct BitStreamWriter {
    inner: BitSink,
}

impl View for BitStreamWriter {
    type V = Seq<bool>;

    closed spec fn view(&self) -> Seq<bool> {
        sink_bits(self.inner)
    }
}

/// Whether `write_bits` takes a value: it has to fit both the bits that are
/// asked for and its type.
pub open spec fn bits_writable<T: BitInteger>(bits: u32, val: T) -> bool {
    bits <= T::width() && (bits == 0 || val.num() < pow2(bits as nat))
}

impl BitStreamWriter {
    /// A writer that holds nothing yet.
    pub fn new() -> (w: Self)
        ensures
            w@ == Seq::<bool>::empty(),
    {
        BitStreamWriter { inner: sink_new() }
    }

    /// Writes a value with all the bits of its type.
    pub fn write<T: BitInteger>(&mut self, val: T) -> (r: Result<()>)
        ensures
            r is Ok,
            final(self)@ == old(self)@ + be_bits(val.num(), T::width()),
    {
        proof {
            val.lemma_fits();
        }
        match sink_write_var(&mut self.inner, T::bit_count(), val.to_u64()) {
            Ok(()) => Ok(()),
            Err(kind) => Err(Error::Io(kind)),
        }
    }

    /// Writes the `bits` low bits of a value. A value with more bits than
    /// that, or a number of bits that its type does not have, is refused, and
    /// nothing is written.
    pub fn write_bits<T: BitInteger>(&mut self, bits: u32, val: T) -> (r: Result<()>)
        ensures
            r is Ok <==> bits_writable(bits, val),
            r is Ok ==> final(self)@ == old(self)@ + be_bits(val.num(), bits as nat),
            r is Err ==> r->Err_0 == Error::Io(IoErrorKind::InvalidInput) && final(self)@ == old(
                self,
            )@,
    {
        if bits > T::bit_count() {
            return Err(Error::Io(IoErrorKind::InvalidInput));
        }
        match sink_write_var(&mut self.inner, bits, val.to_u64()) {
            Ok(()) => Ok(()),
            Err(kind) => Err(Error::Io(kind)),
        }
    }

    /// Writes one bit.
    pub fn write_bit(&mut self, bit: bool) -> (r: Result<()>)
        ensures
            r is Ok,
            final(self)@ == old(self)@.push(bit),
    {
        match sink_write_bit(&mut self.inner, bit) {
            Ok(()) => Ok(()),
            Err(kind) => Err(Error::Io(kind)),
        }
    }

    /// Writes bytes, at a byte boundary or not.
    pub fn write_bytes(&mut self, bytes: &[u8]) -> (r: Result<()>)
        ensures
            r is Ok,
            final(self)@ == old(self)@ + bytes_bits(bytes@),
    {
        match sink_write_bytes(&mut self.inner, bytes) {
            Ok(()) => Ok(()),
            Err(kind) => Err(Error::Io(kind)),
        }
    }

    /// Pads to the next byte boundary and writes bytes there.
    pub fn write_aligned_bytes(&mut self, bytes: &[u8]) -> (r: Result<()>)
        ensures
            r is Ok,
            final(self)@ == padded(old(self)@) + bytes_bits(bytes@),
    {
        match sink_write_aligned(&mut self.inner, bytes) {
            Ok(()) => Ok(()),
            Err(kind) => Err(Error::Io(kind)),
        }
    }

    /// Pads to the next byte boundary with zero bits.
    pub fn align_to_byte(&mut self) -> (r: Result<()>)
        ensures
            r is Ok,
            final(self)@ == padded(old(self)@),
    {
        match sink_align(&mut self.inner) {
            Ok(()) => Ok(()),
            Err(kind) => Err(Error::Io(kind)),
        }
    }

    /// Brings everything that was written into the bytes: a last byte that is
    /// not full is padded with zero bits.
    pub fn flush(&mut self) -> (r: Result<()>)
        ensures
            r is Ok,
            final(self)@ == padded(old(self)@),
    {
        match sink_align(&mut self.inner) {
            Ok(()) => {},
            Err(kind) => {
                return Err(Error::Io(kind));
            },
        }
        match sink_flush(&mut self.inner) {
            Ok(()) => Ok(()),
            Err(kind) => Err(Error::Io(kind)),
        }
    }

    /// The bytes that were written. Bits behind the last byte boundary are
    /// dropped: `flush` keeps them.
    pub fn into_inner(self) -> (bytes: Vec<u8>)
        ensures
            bytes_bits(bytes@) == self@.take(self@.len() - self@.len() % 8),
    {
        sink_into_bytes(self.inner)
    }
}

/// Reads bits from memory. Its view is what is still to be read.
pub struct BitStreamReader {
    inner: BitSource,
}

impl View for BitStreamReader {
    type V = Seq<bool>;

    closed spec fn view(&self) -> Seq<bool> {
        source_bits(self.inner)
    }
}

impl BitStreamReader {
    /// Whether the reader ran into the end of the stream while it looked for a
    /// one.
    pub closed spec fn ran_out(&self) -> bool {
        source_ran_out(self.inner)
    }

    /// How many bits the reader holds of the byte that it took last.
    pub open spec fn held(&self) -> int {
        held_of(self@, self.ran_out())
    }

    /// What is to be read from the next byte boundary on.
    pub open spec fn behind(&self) -> Seq<bool> {
        self@.skip(self.held())
    }

    /// A reader at the start of the bytes.
    pub fn new(bytes: Vec<u8>) -> (reader: Self)
        ensures
            reader@ == bytes_bits(bytes@),
            !reader.ran_out(),
    {
        BitStreamReader { inner: source_new(bytes) }
    }

    /// Reads a value with all the bits of its type. `None` where the stream
    /// ends before that.
    pub fn read<T: BitInteger>(&mut self) -> (r: Result<Option<T>>)
        ensures
            r is Ok,
            T::width() <= old(self)@.len() ==> r->Ok_0 is Some && r->Ok_0->0.num() == bits_value(
                old(self)@.take(T::width() as int),
            ) && final(self)@ == old(self)@.skip(T::width() as int),
            T::width() > old(self)@.len() ==> r->Ok_0 is None && final(self)@.len() <= old(
                self,
            )@.len(),
            T::width() > old(self)@.len() && is_short_read_settled(
                old(self)@,
                old(self).held(),
                T::width() as int,
            ) ==> final(self)@ == after_short_read(
                old(self)@,
                old(self).held(),
                T::width() as int,
            ),
            final(self).ran_out() ==> old(self).ran_out() && r->Ok_0 is None,
    {
        self.read_bits(T::bit_count())
    }

    /// Reads `bits` bits as a number. `None` where the stream ends before
    /// that. More bits than the type has are refused, and nothing is read.
    pub fn read_bits<T: BitInteger>(&mut self, bits: u32) -> (r: Result<Option<T>>)
        ensures
            bits > T::width() ==> r is Err && r->Err_0 == Error::Io(IoErrorKind::InvalidInput)
                && final(self)@ == old(self)@,
            bits <= T::width() ==> r is Ok,
            bits <= T::width() && bits <= old(self)@.len() ==> r->Ok_0 is Some
                && r->Ok_0->0.num() == bits_value(old(self)@.take(bits as int)) && final(self)@
                == old(self)@.skip(bits as int),
            bits <= T::width() && bits > old(self)@.len() ==> r->Ok_0 is None
                && final(self)@.len() <= old(self)@.len(),
            bits <= T::width() && bits > old(self)@.len() && is_short_read_settled(
                old(self)@,
                old(self).held(),
                bits as int,
            ) ==> final(self)@ == after_short_read(old(self)@, old(self).held(), bits as int),
            final(self).ran_out() ==> old(self).ran_out(),
            final(self).ran_out() && r is Ok && r->Ok_0 is Some ==> bits == 0,
    {
        if bits > T::bit_count() {
            return Err(Error::Io(IoErrorKind::InvalidInput));
        }
        match source_read_var(&mut self.inner, bits) {
            Ok(value) => {
                proof {
                    let taken = old(self)@.take(bits as int);
                    lemma_be_bits_of_bits_value(taken);
                    if bits < T::width() {
                        lemma_pow2_strictly_increases(bits as nat, T::width());
                    }
                }
                Ok(Some(T::from_u64(value)))
            },
            Err(kind) => if matches!(kind, IoErrorKind::UnexpectedEof) {
                Ok(None)
            } else {
                Err(Error::Io(kind))
            },
        }
    }

    /// Reads one bit. `None` at the end of the stream.
    pub fn read_bit(&mut self) -> (r: Result<Option<bool>>)
        ensures
            r is Ok,
            old(self)@.len() > 0 ==> r->Ok_0 == Some(old(self)@[0]) && final(self)@ == old(
                self,
            )@.skip(1) && !final(self).ran_out(),
            old(self)@.len() == 0 ==> r->Ok_0 is None && final(self)@.len() == 0,
    {
        match source_read_bit(&mut self.inner) {
            Ok(bit) => Ok(Some(bit)),
            Err(kind) => if matches!(kind, IoErrorKind::UnexpectedEof) {
                Ok(None)
            } else {
                Err(Error::Io(kind))
            },
        }
    }

    /// Reads `n` bytes, at a byte boundary or not.
    pub fn read_to_vec(&mut self, n: usize) -> (r: Result<Vec<u8>>)
        ensures
            8 * n <= old(self).behind().len() ==> r is Ok && r->Ok_0@.len() == n && bytes_bits(
                r->Ok_0@,
            ) == old(self)@.take(8 * n) && final(self)@ == old(self)@.skip(8 * n),
            8 * n > old(self).behind().len() ==> r is Err && r->Err_0 == Error::Io(
                IoErrorKind::UnexpectedEof,
            ),
            final(self).ran_out() ==> old(self).ran_out(),
    {
        let mut buf: Vec<u8> = vec![0; n];
        match source_read_bytes(&mut self.inner, buf.as_mut_slice()) {
            Ok(()) => Ok(buf),
            Err(kind) => Err(Error::Io(kind)),
        }
    }

    /// Reads `N` bytes, at a byte boundary or not.
    pub fn read_exact<const N: usize>(&mut self) -> (r: Result<[u8; N]>)
        ensures
            8 * N <= old(self).behind().len() ==> r is Ok && bytes_bits(r->Ok_0@) == old(
                self,
            )@.take(8 * N) && final(self)@ == old(self)@.skip(8 * N),
            8 * N > old(self).behind().len() ==> r is Err && r->Err_0 == Error::Io(
                IoErrorKind::UnexpectedEof,
            ),
            final(self).ran_out() ==> old(self).ran_out(),
    {
        let mut buf: [u8; N] = [0; N];
        match source_read_bytes(&mut self.inner, &mut buf) {
            Ok(()) => Ok(buf),
            Err(kind) => Err(Error::Io(kind)),
        }
    }

    /// Reads `N` bytes from the next byte boundary on.
    pub fn read_raw_bytes<const N: usize>(&mut self) -> (r: Result<[u8; N]>)
        ensures
            8 * N <= old(self).behind().len() ==> r is Ok && bytes_bits(r->Ok_0@) == old(
                self,
            ).behind().take(8 * N) && final(self)@ == old(self).behind().skip(8 * N),
            8 * N > old(self).behind().len() ==> r is Err && r->Err_0 == Error::Io(
                IoErrorKind::UnexpectedEof,
            ),
            !final(self).ran_out(),
    {
        let mut buf: [u8; N] = [0; N];
        match source_read_aligned(&mut self.inner, &mut buf) {
            Ok(()) => Ok(buf),
            Err(kind) => Err(Error::Io(kind)),
        }
    }

    /// Drops the bits up to the next byte boundary.
    pub fn align_to_byte(&mut self) -> (r: Result<()>)
        ensures
            r is Ok,
            final(self)@ == old(self).behind(),
            !final(self).ran_out(),
    {
        source_align(&mut self.inner);
        Ok(())
    }

    /// Takes zeros and the one behind them, and gives the number of zeros.
    /// Where no one follows, the zeros of the last byte stay.
    pub fn count_leading_zeros(&mut self) -> (r: Result<usize>)
        requires
            leading_zeros(old(self)@) <= u32::MAX,
        ensures
            leading_zeros(old(self)@) < old(self)@.len() ==> r is Ok && r->Ok_0 as nat
                == leading_zeros(old(self)@) && final(self)@ == old(self)@.skip(
                leading_zeros(old(self)@) as int + 1,
            ) && !final(self).ran_out(),
            leading_zeros(old(self)@) == old(self)@.len() ==> r is Err && r->Err_0 == Error::Io(
                IoErrorKind::UnexpectedEof,
            ) && final(self)@ == last_zeros(old(self)@.len()) && final(self).ran_out() == (old(
                self,
            )@.len() >= 8),
    {
        match source_read_unary(&mut self.inner) {
            Ok(count) => Ok(count as usize),
            Err(kind) => Err(Error::Io(kind)),
        }
    }
}

/// What was written and flushed is what a reader of the bytes gets first.
pub proof fn law_flushed_bits_come_back(written: Seq<bool>, bytes: Seq<u8>)
    requires
        bytes_bits(bytes) == padded(written).take(
            padded(written).len() - padded(written).len() % 8,
        ),
    ensures
        bytes_bits(bytes) == padded(written),
        bytes_bits(bytes).take(written.len() as int) == written,
{
    crate::bits::lemma_padded(written);
    assert(padded(written).take(padded(written).len() as int) =~= padded(written));
}

/// A value that was written with all its bits is read back, and the stream
/// goes on behind it.
pub proof fn law_value_comes_back<T: BitInteger>(val: T, rest: Seq<bool>)
    ensures
        ({
            let stream = be_bits(val.num(), T::width()) + rest;
            &&& T::width() <= stream.len()
            &&& bits_value(stream.take(T::width() as int)) == val.num()
            &&& stream.skip(T::width() as int) == rest
        }),
{
    val.lemma_fits();
    law_bits_come_back(val.num(), T::width(), rest);
}

/// A number that was written with enough bits is read back with the same
/// number of bits, and the stream goes on behind it.
pub proof fn law_bits_come_back(value: nat, width: nat, rest: Seq<bool>)
    requires
        value < pow2(width),
    ensures
        ({
            let stream = be_bits(value, width) + rest;
            &&& width <= stream.len()
            &&& bits_value(stream.take(width as int)) == value
            &&& stream.skip(width as int) == rest
        }),
{
    let stream = be_bits(value, width) + rest;
    lemma_be_bits_len(value, width);
    lemma_bits_value_of_be_bits(value, width);
    assert(stream.take(width as int) =~= be_bits(value, width));
    assert(stream.skip(width as int) =~= rest);
}

/// Bytes that were written are read back, and the stream goes on behind them.
pub proof fn law_bytes_come_back(bytes: Seq<u8>, read: Seq<u8>, rest: Seq<bool>)
    requires
        bytes_bits(read) == (bytes_bits(bytes) + rest).take(8 * bytes.len() as int),
    ensures
        read == bytes,
        (bytes_bits(bytes) + rest).skip(8 * bytes.len() as int) == rest,
{
    lemma_bytes_bits_len(bytes);
    assert((bytes_bits(bytes) + rest).take(8 * bytes.len() as int) =~= bytes_bits(bytes));
    assert((bytes_bits(bytes) + rest).skip(8 * bytes.len() as int) =~= rest);
    lemma_bytes_bits_injective(read, bytes);
}

} // verus!
