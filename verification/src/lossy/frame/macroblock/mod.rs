//! Macroblocks: rectangles of blocks that are coded together.
use vstd::prelude::*;

use crate::bits::{
    be_bits, be_bytes, bits_bytes, bits_value, bytes_bits, lemma_be_bits_len, lemma_be_bits_mod,
    lemma_bits_bytes_of_bytes_bits, lemma_bytes_bits_add, lemma_bytes_bits_len,
};
use crate::bitstream::{law_bits_come_back, BitStreamReader, BitStreamWriter};
use crate::block::{
    block_bytes, block_size, block_views, blocks_bytes, law_block_comes_back,
    lemma_blocks_bytes_len, parsed_block, Block, Blocks,
};
use crate::bytes::{FromBytes, ToBytes};
use crate::error::{is_eof, is_failed_to_decode, Error, Result};
use crate::sample::Sample;

pub mod block_location;
pub mod bmacro;
pub mod imacro;
pub mod pmacro;

use self::block_location::BlockLocation;
use self::bmacro::Prediction;

verus! {

/// The macroblocks of frames that are predicted from others.
pub trait AssemblableMacroBlock {
    /// Where the macroblock lies.
    spec fn at(&self) -> BlockLocation;

    /// What it is predicted from.
    spec fn from(&self) -> Prediction;

    /// What the prediction missed.
    spec fn missed(&self) -> Residuals<i16>;

    /// Where the macroblock lies.
    fn location(&self) -> (r: &BlockLocation)
        ensures
            *r == self.at(),
    ;

    /// What it is predicted from.
    fn prediction(&self) -> (r: Prediction)
        ensures
            r == self.from(),
    ;

    /// What the prediction missed.
    fn residuals(&self) -> (r: &Residuals<i16>)
        ensures
            *r == self.missed(),
    ;
}

/// What a prediction missed, in the three channels.
pub struct Residuals<T> {
    pub y: Blocks<T>,
    pub cb: Blocks<T>,
    pub cr: Blocks<T>,
}

/// How a stream holds a list of blocks: the 32 low bits of their number, and
/// the blocks.
pub open spec fn counted_bits<T: Sample>(blocks: Seq<Seq<T>>) -> Seq<bool> {
    be_bits(blocks.len(), 32) + bytes_bits(blocks_bytes(blocks))
}

/// The number of bits of a block.
pub open spec fn block_bits<T: Sample>() -> int {
    8 * block_size::<T>()
}

/// The number of blocks that a stream announces.
pub open spec fn announced(bits: Seq<bool>) -> nat {
    bits_value(bits.take(32))
}

/// Whether a stream holds the blocks that it announces.
pub open spec fn holds_counted<T: Sample>(bits: Seq<bool>) -> bool {
    bits.len() >= 32 && bits.len() >= 32 + announced(bits) * block_bits::<T>()
}

/// The samples of block `i` that a stream holds behind the announcement.
pub open spec fn counted_block<T: Sample>(bits: Seq<bool>, i: int) -> Seq<T> {
    parsed_block::<T>(bits_bytes(bits.skip(32 + i * block_bits::<T>()).take(block_bits::<T>())))
}

/// The blocks that a stream holds.
pub open spec fn counted_blocks<T: Sample>(bits: Seq<bool>) -> Seq<Seq<T>> {
    Seq::new(announced(bits), |i: int| counted_block::<T>(bits, i))
}

/// What a stream holds behind the blocks.
pub open spec fn behind_counted<T: Sample>(bits: Seq<bool>) -> Seq<bool> {
    bits.skip(32 + announced(bits) * block_bits::<T>())
}

/// Writes a list of blocks.
pub(crate) fn write_counted<T: Sample>(blocks: &[Block<T>], stream: &mut BitStreamWriter) -> (r:
    Result<()>)
    ensures
        r is Ok,
        final(stream)@ == old(stream)@ + counted_bits(block_views(blocks@)),
{
    let ghost start = stream@;
    let ghost all = block_views(blocks@);
    proof {
        vstd::arithmetic::power2::lemma2_to64();
        lemma_be_bits_mod(blocks@.len(), 32);
    }
    stream.write((blocks.len() as u64 % 0x1_0000_0000) as u32)?;
    let ghost head = stream@;
    let mut i: usize = 0;
    assert(head + bytes_bits(blocks_bytes(all.take(0))) =~= head);
    while i < blocks.len()
        invariant
            i <= blocks@.len(),
            all == block_views(blocks@),
            stream@ == head + bytes_bits(blocks_bytes(all.take(i as int))),
        decreases blocks@.len() - i,
    {
        let ghost before = stream@;
        blocks[i].encode(stream)?;
        proof {
            assert(all.take(i + 1).drop_last() =~= all.take(i as int));
            lemma_bytes_bits_add(blocks_bytes(all.take(i as int)), block_bytes(all[i as int]));
            assert(stream@ =~= head + bytes_bits(blocks_bytes(all.take(i + 1))));
        }
        i = i + 1;
    }
    assert(all.take(blocks@.len() as int) =~= all);
    assert(stream@ =~= start + counted_bits(all));
    Ok(())
}

/// Reads a list of blocks. Where the number of blocks is not there, the error
/// names what was to be read.
pub(crate) fn read_counted<T: Sample>(stream: &mut BitStreamReader, what: &str) -> (r: Result<
    Vec<Block<T>>,
>)
    ensures
        old(stream)@.len() < 32 ==> is_failed_to_decode(r, what@),
        old(stream)@.len() >= 32 && !holds_counted::<T>(old(stream)@) ==> is_eof(r),
        holds_counted::<T>(old(stream)@) ==> {
            &&& r is Ok
            &&& block_views((r->Ok_0)@) == counted_blocks::<T>(old(stream)@)
            &&& final(stream)@ == behind_counted::<T>(old(stream)@)
        },
{
    let ghost bits = stream@;
    proof {
        T::lemma_type();
    }
    let count: u32 = match stream.read::<u32>()? {
        Some(count) => count,
        None => {
            return Err(Error::FailedToDecode(what.to_owned()));
        },
    };
    let ghost size = block_bits::<T>();
    let mut blocks: Vec<Block<T>> = Vec::new();
    let mut i: u32 = 0;
    assert(bits.skip(32 + 0 * size) =~= bits.skip(32));
    while i < count
        invariant
            i <= count,
            bits == old(stream)@,
            bits.len() >= 32,
            count == announced(bits),
            size == block_bits::<T>(),
            size > 0,
            blocks@.len() == i,
            bits.len() >= 32 + i * size,
            stream@ == bits.skip(32 + i * size),
            forall|j: int| 0 <= j < i ==> (#[trigger] blocks@[j])@ == counted_block::<T>(bits, j),
        decreases count - i,
    {
        proof {
            assert(i * size + size == (i + 1) * size) by (nonlinear_arith);
            assert((i + 1) * size <= count * size) by (nonlinear_arith)
                requires
                    i + 1 <= count,
                    0 < size,
            ;
        }
        let block = match Block::<T>::decode(stream) {
            Ok(block) => block,
            Err(e) => {
                return Err(e);
            },
        };
        blocks.push(block);
        assert(bits.skip(32 + i * size).skip(size) =~= bits.skip(32 + (i + 1) * size));
        i = i + 1;
    }
    assert(block_views(blocks@) =~= counted_blocks::<T>(bits));
    Ok(blocks)
}

/// Blocks that were written are read back, and the stream goes on behind them.
pub proof fn law_counted_come_back<T: Sample>(blocks: Seq<Seq<T>>, rest: Seq<bool>)
    requires
        blocks.len() <= u32::MAX,
        forall|i: int| 0 <= i < blocks.len() ==> (#[trigger] blocks[i]).len() == 64,
    ensures
        ({
            let stream = counted_bits(blocks) + rest;
            &&& holds_counted::<T>(stream)
            &&& counted_blocks::<T>(stream) == blocks
            &&& behind_counted::<T>(stream) == rest
        }),
{
    vstd::arithmetic::power2::lemma2_to64();
    T::lemma_type();
    let stream = counted_bits(blocks) + rest;
    let body = bytes_bits(blocks_bytes(blocks));
    lemma_be_bits_len(blocks.len(), 32);
    assert(stream =~= be_bits(blocks.len(), 32) + (body + rest));
    law_bits_come_back(blocks.len(), 32, body + rest);
    lemma_blocks_bytes_len(blocks);
    lemma_bytes_bits_len(blocks_bytes(blocks));
    assert(8 * (blocks.len() * block_size::<T>()) == blocks.len() * block_bits::<T>())
        by (nonlinear_arith)
        requires
            block_bits::<T>() == 8 * block_size::<T>(),
    ;
    assert forall|i: int| 0 <= i < blocks.len() implies counted_block::<T>(stream, i)
        == blocks[i] by {
        let n = block_bits::<T>();
        lemma_counted_at(blocks, i);
        assert(0 <= i * n && i * n + n <= blocks.len() * n) by (nonlinear_arith)
            requires
                0 <= i < blocks.len(),
                0 <= n,
        ;
        assert(stream.skip(32 + i * n).take(n) =~= body.subrange(i * n, i * n + n));
        law_block_comes_back(blocks[i], Seq::empty());
        assert(block_bytes(blocks[i]) + Seq::<u8>::empty() =~= block_bytes(blocks[i]));
        lemma_bits_bytes_of_bytes_bits(block_bytes(blocks[i]));
    }
    assert(counted_blocks::<T>(stream) =~= blocks);
    assert(behind_counted::<T>(stream) =~= rest);
}

proof fn lemma_counted_at<T: Sample>(blocks: Seq<Seq<T>>, i: int)
    requires
        0 <= i < blocks.len(),
        forall|j: int| 0 <= j < blocks.len() ==> (#[trigger] blocks[j]).len() == 64,
    ensures
        bytes_bits(blocks_bytes(blocks)).subrange(
            i * block_bits::<T>(),
            i * block_bits::<T>() + block_bits::<T>(),
        ) == bytes_bits(block_bytes(blocks[i])),
    decreases blocks.len(),
{
    let n = block_bits::<T>();
    let head = blocks_bytes(blocks.drop_last());
    let tail = block_bytes(blocks.last());
    T::lemma_type();
    lemma_blocks_bytes_len(blocks.drop_last());
    law_block_comes_back(blocks.last(), Seq::empty());
    lemma_bytes_bits_len(head);
    lemma_bytes_bits_len(tail);
    lemma_bytes_bits_add(head, tail);
    assert(8 * ((blocks.len() - 1) * block_size::<T>()) == (blocks.len() - 1) * n)
        by (nonlinear_arith)
        requires
            n == 8 * block_size::<T>(),
    ;
    if i == blocks.len() - 1 {
        assert(bytes_bits(blocks_bytes(blocks)).subrange(i * n, i * n + n) =~= bytes_bits(tail));
    } else {
        lemma_counted_at(blocks.drop_last(), i);
        assert(0 <= i * n && i * n + n <= (blocks.len() - 1) * n) by (nonlinear_arith)
            requires
                0 <= i < blocks.len() - 1,
                0 <= n,
        ;
        assert(bytes_bits(blocks_bytes(blocks)).subrange(i * n, i * n + n) =~= bytes_bits(
            head,
        ).subrange(i * n, i * n + n));
    }
}

/// What reading the three channels from a stream gives, and what it leaves of
/// the stream.
pub open spec fn residuals_read<T: Sample>(
    bits: Seq<bool>,
    r: Result<Residuals<T>>,
    rest: Seq<bool>,
) -> bool {
    let cb_bits = behind_counted::<T>(bits);
    let cr_bits = behind_counted::<T>(cb_bits);
    if bits.len() < 32 {
        is_failed_to_decode(r, "y len"@)
    } else if !holds_counted::<T>(bits) {
        is_eof(r)
    } else if cb_bits.len() < 32 {
        is_failed_to_decode(r, "cb len"@)
    } else if !holds_counted::<T>(cb_bits) {
        is_eof(r)
    } else if cr_bits.len() < 32 {
        is_failed_to_decode(r, "cr len"@)
    } else if !holds_counted::<T>(cr_bits) {
        is_eof(r)
    } else {
        &&& r is Ok
        &&& block_views(r->Ok_0.y@) == counted_blocks::<T>(bits)
        &&& block_views(r->Ok_0.cb@) == counted_blocks::<T>(cb_bits)
        &&& block_views(r->Ok_0.cr@) == counted_blocks::<T>(cr_bits)
        &&& rest == behind_counted::<T>(cr_bits)
    }
}

impl<T: Sample> Residuals<T> {
    /// How a stream holds the three channels.
    pub open spec fn stream_bits(&self) -> Seq<bool> {
        counted_bits(block_views(self.y@)) + counted_bits(block_views(self.cb@)) + counted_bits(
            block_views(self.cr@),
        )
    }

    /// Writes the three channels.
    pub fn encode(&self, stream: &mut BitStreamWriter) -> (r: Result<()>)
        ensures
            r is Ok,
            final(stream)@ == old(stream)@ + self.stream_bits(),
    {
        let ghost start = stream@;
        write_counted(self.y.as_slice(), stream)?;
        write_counted(self.cb.as_slice(), stream)?;
        write_counted(self.cr.as_slice(), stream)?;
        assert(stream@ =~= start + self.stream_bits());
        Ok(())
    }

    /// Reads the three channels.
    pub fn decode(stream: &mut BitStreamReader) -> (r: Result<Self>)
        ensures
            residuals_read(old(stream)@, r, final(stream)@),
    {
        let y = match read_counted::<T>(stream, "y len") {
            Ok(blocks) => blocks,
            Err(e) => {
                return Err(e);
            },
        };
        let cb = match read_counted::<T>(stream, "cb len") {
            Ok(blocks) => blocks,
            Err(e) => {
                return Err(e);
            },
        };
        let cr = match read_counted::<T>(stream, "cr len") {
            Ok(blocks) => blocks,
            Err(e) => {
                return Err(e);
            },
        };
        Ok(Residuals { y: Blocks::new(y), cb: Blocks::new(cb), cr: Blocks::new(cr) })
    }
}

impl<T: Sample> ToBytes for Residuals<T> {
    type Model = ((Seq<Seq<T>>, Seq<Seq<T>>), Seq<Seq<T>>);

    open spec fn model(&self) -> Self::Model {
        ((self.y.model(), self.cb.model()), self.cr.model())
    }

    open spec fn bytes_of(model: Self::Model) -> Seq<u8> {
        <((Blocks<T>, Blocks<T>), Blocks<T>) as ToBytes>::bytes_of(model)
    }

    fn to_bytes(&self) -> (bytes: Vec<u8>) {
        let mut bytes = self.y.to_bytes();
        let mut cb = self.cb.to_bytes();
        let mut cr = self.cr.to_bytes();
        bytes.append(&mut cb);
        bytes.append(&mut cr);
        bytes
    }
}

impl<T: Sample> FromBytes for Residuals<T> {
    open spec fn parsed(bytes: Seq<u8>) -> Option<(Self::Model, nat)> {
        <((Blocks<T>, Blocks<T>), Blocks<T>) as FromBytes>::parsed(bytes)
    }

    open spec fn readable(model: Self::Model) -> bool {
        <((Blocks<T>, Blocks<T>), Blocks<T>) as FromBytes>::readable(model)
    }

    proof fn lemma_readable(&self) {
        self.y.lemma_readable();
        self.cb.lemma_readable();
        self.cr.lemma_readable();
    }

    proof fn lemma_parsed_fits(bytes: Seq<u8>) {
        <((Blocks<T>, Blocks<T>), Blocks<T>) as FromBytes>::lemma_parsed_fits(bytes);
    }

    proof fn lemma_comes_back(model: Self::Model, rest: Seq<u8>) {
        <((Blocks<T>, Blocks<T>), Blocks<T>) as FromBytes>::lemma_comes_back(model, rest);
    }

    fn from_bytes(bytes: &[u8]) -> (r: Option<(Self, usize)>) {
        match <((Blocks<T>, Blocks<T>), Blocks<T>) as FromBytes>::from_bytes(bytes) {
            Some((((y, cb), cr), used)) => Some((Residuals { y, cb, cr }, used)),
            None => None,
        }
    }
}

/// Counted blocks are their number in 32 bits, and the blocks.
pub proof fn law_count_comes_first<T: Sample>(blocks: Seq<Seq<T>>)
    requires
        blocks.len() < 0x1_0000_0000,
    ensures
        bits_value(counted_bits(blocks).take(32)) == blocks.len(),
        counted_bits(blocks).skip(32) == bytes_bits(blocks_bytes(blocks)),
{
    vstd::arithmetic::power2::lemma2_to64();
    lemma_be_bits_len(blocks.len(), 32);
    crate::bits::lemma_bits_value_of_be_bits(blocks.len(), 32);
    assert(counted_bits(blocks).take(32) =~= be_bits(blocks.len(), 32));
    assert(counted_bits(blocks).skip(32) =~= bytes_bits(blocks_bytes(blocks)));
}

/// Residuals are written luma first, then Cb, then Cr, in streams as in bytes. In bytes the
/// number of blocks takes eight of them.
pub proof fn law_luma_comes_first<T: Sample>(residuals: Residuals<T>)
    ensures
        ({
            let y = block_views(residuals.y@);
            let cb = block_views(residuals.cb@);
            let cr = block_views(residuals.cr@);
            let luma = be_bytes(y.len(), 8) + blocks_bytes(y);
            let chroma = be_bytes(cb.len(), 8) + blocks_bytes(cb);
            let last = be_bytes(cr.len(), 8) + blocks_bytes(cr);
            let bytes = Residuals::<T>::bytes_of(residuals.model());
            &&& residuals.stream_bits() == counted_bits(y) + (counted_bits(cb) + counted_bits(
                cr,
            ))
            &&& bytes == luma + (chroma + last)
        }),
{
    let y = block_views(residuals.y@);
    let cb = block_views(residuals.cb@);
    let cr = block_views(residuals.cr@);
    let luma = be_bytes(y.len(), 8) + blocks_bytes(y);
    let chroma = be_bytes(cb.len(), 8) + blocks_bytes(cb);
    let last = be_bytes(cr.len(), 8) + blocks_bytes(cr);
    assert(residuals.stream_bits() =~= counted_bits(y) + (counted_bits(cb) + counted_bits(cr)));
    assert(Residuals::<T>::bytes_of(residuals.model()) =~= luma + (chroma + last));
}

/// Residuals that were written are read back, each channel as itself, and the stream goes on
/// behind them.
pub proof fn law_residuals_come_back<T: Sample>(
    residuals: Residuals<T>,
    rest: Seq<bool>,
    r: Result<Residuals<T>>,
    behind: Seq<bool>,
)
    requires
        residuals.y@.len() <= u32::MAX,
        residuals.cb@.len() <= u32::MAX,
        residuals.cr@.len() <= u32::MAX,
        residuals_read(residuals.stream_bits() + rest, r, behind),
    ensures
        r is Ok,
        block_views(r->Ok_0.y@) == block_views(residuals.y@),
        block_views(r->Ok_0.cb@) == block_views(residuals.cb@),
        block_views(r->Ok_0.cr@) == block_views(residuals.cr@),
        behind == rest,
{
    let y = block_views(residuals.y@);
    let cb = block_views(residuals.cb@);
    let cr = block_views(residuals.cr@);
    let bits = residuals.stream_bits() + rest;
    assert(bits =~= counted_bits(y) + (counted_bits(cb) + (counted_bits(cr) + rest)));
    law_counted_come_back(y, counted_bits(cb) + (counted_bits(cr) + rest));
    law_counted_come_back(cb, counted_bits(cr) + rest);
    law_counted_come_back(cr, rest);
    lemma_be_bits_len(y.len(), 32);
    lemma_be_bits_len(cb.len(), 32);
    lemma_be_bits_len(cr.len(), 32);
}

} // verus!
