//! Entropy coding with LZ4 blocks.
//!
//! A block stands at a byte boundary: its length in four bytes, least
//! significant first, and then the compressed bytes. These begin with the
//! length of what was compressed.
use vstd::arithmetic::power2::pow2;
use vstd::prelude::*;
use vstd::string::StringExecFns;

use crate::bits::{
    be_bytes, bits_bytes, bits_value, bytes_bits, le_bytes, le_value, lemma_be_value_of_be_bytes,
    lemma_bits_bytes_of_bytes_bits, lemma_bits_bytes_unique, lemma_bytes_bits_len,
    lemma_bytes_bits_of_be_bytes, lemma_padded, padded,
};
use crate::bitstream::{aligned, BitStreamReader, BitStreamWriter};
use crate::bytes::{from_be, to_be, FromBytes, ToBytes};
use crate::error::{decimal, decimal_chars, is_eof, is_failed_to_decode, Error, Result};
use crate::sample::{
    law_sample_comes_back, sample_bytes, sample_from_bytes, sample_to_bytes, sample_value, unsigned,
    Sample,
};

verus! {

/// What `lz4_flex::compress_prepend_size` makes of bytes, in one build of the
/// library.
pub uninterp spec fn lz4_compressed(bytes: Seq<u8>) -> Seq<u8>;

/// What `lz4_flex::decompress_size_prepended` makes of bytes: the bytes that
/// were compressed, or the text of its error.
pub uninterp spec fn lz4_decompressed(bytes: Seq<u8>) -> std::result::Result<Seq<u8>, Seq<char>>;

/// Calls `lz4_flex::compress_prepend_size`. Its result depends on the bytes
/// alone within one build: for bytes that are too many for its small table, the
/// matches that it finds depend on the width of pointers and the order of bytes
/// of the machine that the library is built for. It decompresses to them where
/// their length fits the 32 bits that it is kept in, and is not longer than
/// `get_maximum_output_size` and four bytes for the length.
#[verifier::external_body]
fn lz4_compress(bytes: &[u8]) -> (compressed: Vec<u8>)
    ensures
        compressed@ == lz4_compressed(bytes@),
        bytes@.len() <= u32::MAX ==> lz4_decompressed(compressed@) is Ok && lz4_decompressed(
            compressed@,
        )->Ok_0 == bytes@,
        compressed@.len() <= 24 + bytes@.len() * 110 / 100,
{
    lz4_flex::compress_prepend_size(bytes)
}

/// Calls `lz4_flex::decompress_size_prepended` and writes its error out as
/// text. The result depends on the bytes alone.
#[verifier::external_body]
fn lz4_decompress(bytes: &[u8]) -> (r: std::result::Result<Vec<u8>, String>)
    ensures
        r is Ok <==> lz4_decompressed(bytes@) is Ok,
        r is Ok ==> (r->Ok_0)@ == lz4_decompressed(bytes@)->Ok_0,
        r is Err ==> (r->Err_0)@ == lz4_decompressed(bytes@)->Err_0,
{
    lz4_flex::decompress_size_prepended(bytes).map_err(|error| error.to_string())
}

/// Compression keeps what was compressed.
pub open spec fn survives_lz4(bytes: Seq<u8>) -> bool {
    lz4_decompressed(lz4_compressed(bytes)) matches Ok(back) && back == bytes
}

/// Whether bytes are few enough for a stream to hold them, however little they
/// can be compressed.
pub open spec fn fits_block(bytes: Seq<u8>) -> bool {
    24 + bytes.len() * 110 / 100 <= u32::MAX
}

/// Bytes that a stream can hold survive the compression, and the length of what
/// they become fits in four bytes.
pub open spec fn is_kept(bytes: Seq<u8>) -> bool {
    fits_block(bytes) ==> survives_lz4(bytes) && lz4_compressed(bytes).len() <= u32::MAX
}

/// What a stream holds of bytes behind the byte boundary.
pub open spec fn compressed_bits(bytes: Seq<u8>) -> Seq<bool> {
    bytes_bits(le_bytes(lz4_compressed(bytes).len(), 4)) + bytes_bits(lz4_compressed(bytes))
}

/// The length of the block that a stream goes on with.
pub open spec fn block_len(bits: Seq<bool>) -> nat {
    le_value(bits_bytes(aligned(bits).take(32)))
}

/// Whether the stream holds the whole block.
pub open spec fn holds_block(bits: Seq<bool>) -> bool {
    aligned(bits).len() >= 32 && aligned(bits).len() >= 32 + 8 * block_len(bits)
}

/// The block that a stream goes on with.
pub open spec fn block_payload(bits: Seq<bool>) -> Seq<u8> {
    bits_bytes(aligned(bits).skip(32).take(8 * block_len(bits) as int))
}

/// What a stream holds behind the block.
pub open spec fn behind_block(bits: Seq<bool>) -> Seq<bool> {
    aligned(bits).skip(32 + 8 * block_len(bits) as int)
}

/// What a failed decompression is answered with.
pub open spec fn lz4_refused<T>(r: Result<T>, payload: Seq<u8>) -> bool {
    is_failed_to_decode(r, "lz4: "@ + lz4_decompressed(payload)->Err_0)
}

/// The four low bytes of a number, least significant first.
fn to_le4(value: u64) -> (bytes: Vec<u8>)
    ensures
        bytes@ == le_bytes(value as nat, 4),
{
    let be = to_be(value, 4);
    let mut bytes: Vec<u8> = Vec::new();
    bytes.push(be[3]);
    bytes.push(be[2]);
    bytes.push(be[1]);
    bytes.push(be[0]);
    assert(bytes@ =~= be@.reverse());
    bytes
}

/// The number of bytes, least significant first.
fn from_le(bytes: &[u8]) -> (value: u64)
    requires
        bytes@.len() <= 8,
    ensures
        value == le_value(bytes@),
{
    let mut be: Vec<u8> = Vec::new();
    let mut i: usize = bytes.len();
    while i > 0
        invariant
            i <= bytes@.len() <= 8,
            be@ == bytes@.reverse().take(bytes@.len() - i),
        decreases i,
    {
        i = i - 1;
        be.push(bytes[i]);
        assert(be@ =~= bytes@.reverse().take(bytes@.len() - i));
    }
    assert(be@ =~= bytes@.reverse());
    from_be(be.as_slice())
}

/// Compresses bytes and writes them at the next byte boundary.
fn write_compressed(bytes: &[u8], stream: &mut BitStreamWriter) -> (r: Result<()>)
    ensures
        r is Ok,
        final(stream)@ == padded(old(stream)@) + compressed_bits(bytes@),
        is_kept(bytes@),
{
    let compressed = lz4_compress(bytes);
    let length = to_le4(compressed.len() as u64);
    let ghost start = stream@;
    stream.flush()?;
    proof {
        lemma_padded(start);
        lemma_padded(padded(start));
        lemma_bytes_bits_len(length@);
        lemma_padded(padded(start) + bytes_bits(length@));
    }
    stream.write_aligned_bytes(length.as_slice())?;
    stream.write_aligned_bytes(compressed.as_slice())?;
    assert(stream@ =~= padded(start) + compressed_bits(bytes@));
    Ok(())
}

/// Reads a block from the next byte boundary and decompresses it.
fn read_compressed(stream: &mut BitStreamReader) -> (r: Result<Vec<u8>>)
    ensures
        !holds_block(old(stream)@) ==> is_eof(r),
        holds_block(old(stream)@) ==> {
            let payload = block_payload(old(stream)@);
            &&& final(stream)@ == behind_block(old(stream)@)
            &&& !final(stream).ran_out()
            &&& lz4_decompressed(payload) is Ok ==> r is Ok && (r->Ok_0)@ == lz4_decompressed(
                payload,
            )->Ok_0
            &&& lz4_decompressed(payload) is Err ==> lz4_refused(r, payload)
        },
{
    let ghost bits = stream@;
    let length = stream.read_raw_bytes::<4>()?;
    proof {
        lemma_bits_bytes_unique(length@, aligned(bits).take(32));
    }
    let length: u64 = from_le(&length);
    proof {
        vstd::arithmetic::power2::lemma2_to64();
        crate::bits::lemma_be_bytes_of_be_value(
            bits_bytes(aligned(bits).take(32)).reverse(),
        );
        assert(length <= u32::MAX);
    }
    let payload = stream.read_to_vec(length as usize)?;
    proof {
        lemma_bits_bytes_unique(payload@, aligned(bits).skip(32).take(8 * length as int));
        assert(stream@ =~= behind_block(bits));
    }
    match lz4_decompress(payload.as_slice()) {
        Ok(bytes) => Ok(bytes),
        Err(error) => {
            let mut text = "lz4: ".to_owned();
            text.append(error.as_str());
            Err(Error::FailedToDecode(text))
        },
    }
}

/// A compressed block is found again behind the byte boundary.
pub proof fn law_block_comes_back(bytes: Seq<u8>, rest: Seq<bool>)
    requires
        rest.len() % 8 == 0,
        lz4_compressed(bytes).len() <= u32::MAX,
    ensures
        ({
            let stream = compressed_bits(bytes) + rest;
            &&& holds_block(stream)
            &&& block_payload(stream) == lz4_compressed(bytes)
            &&& behind_block(stream) == rest
        }),
{
    let payload = lz4_compressed(bytes);
    let length = le_bytes(payload.len(), 4);
    vstd::arithmetic::power2::lemma2_to64();
    lemma_bytes_bits_of_be_bytes(payload.len(), 4);
    lemma_be_value_of_be_bytes(payload.len(), 4);
    lemma_bytes_bits_len(length);
    lemma_bytes_bits_len(payload);
    let stream = compressed_bits(bytes) + rest;
    assert(aligned(stream) =~= stream);
    assert(stream.take(32) =~= bytes_bits(length));
    lemma_bits_bytes_of_bytes_bits(length);
    assert(length.reverse() =~= be_bytes(payload.len(), 4));
    assert(stream.skip(32).take(8 * payload.len() as int) =~= bytes_bits(payload));
    lemma_bits_bytes_of_bytes_bits(payload);
    assert(behind_block(stream) =~= rest);
}

/// What values stand for.
pub open spec fn models<T: ToBytes>(data: Seq<T>) -> Seq<T::Model> {
    Seq::new(data.len(), |i: int| data[i].model())
}

/// The bytes of values, one after the other.
pub open spec fn items_bytes<T: ToBytes>(items: Seq<T::Model>) -> Seq<u8>
    decreases items.len(),
{
    if items.len() == 0 {
        Seq::empty()
    } else {
        items_bytes::<T>(items.drop_last()) + T::bytes_of(items.last())
    }
}

/// The values that bytes hold, one after the other.
pub open spec fn parsed_items<T: FromBytes>(bytes: Seq<u8>) -> Option<Seq<T::Model>>
    decreases bytes.len(),
{
    if bytes.len() == 0 {
        Some(Seq::empty())
    } else {
        match T::parsed(bytes) {
            None => None,
            Some((item, used)) => if used == 0 || used > bytes.len() {
                Some(Seq::empty())
            } else {
                match parsed_items::<T>(bytes.skip(used as int)) {
                    None => None,
                    Some(items) => Some(seq![item] + items),
                }
            },
        }
    }
}

/// Writes values: their bytes, compressed.
pub fn encode<T: ToBytes>(data: &[T], stream: &mut BitStreamWriter) -> (r: Result<()>)
    ensures
        r is Ok,
        final(stream)@ == padded(old(stream)@) + compressed_bits(items_bytes::<T>(models(data@))),
        is_kept(items_bytes::<T>(models(data@))),
{
    let ghost all = models(data@);
    let mut bytes: Vec<u8> = Vec::new();
    let mut i: usize = 0;
    assert(all.take(0) =~= Seq::empty());
    while i < data.len()
        invariant
            i <= data@.len(),
            all == models(data@),
            bytes@ == items_bytes::<T>(all.take(i as int)),
        decreases data@.len() - i,
    {
        let mut item = data[i].to_bytes();
        bytes.append(&mut item);
        assert(all.take(i + 1).drop_last() =~= all.take(i as int));
        i = i + 1;
    }
    assert(all.take(data@.len() as int) =~= all);
    write_compressed(bytes.as_slice(), stream)
}

/// Takes bytes apart into values. `None` where bytes stand for no value; a
/// value that takes no bytes ends the reading.
fn parse_items<T: FromBytes>(raw: &[u8]) -> (r: Option<Vec<T>>)
    ensures
        r is Some <==> parsed_items::<T>(raw@) is Some,
        r is Some ==> models((r->0)@) == parsed_items::<T>(raw@)->0,
{
    let mut items: Vec<T> = Vec::new();
    let mut start: usize = 0;
    assert(raw@.skip(0) =~= raw@);
    assert(models(items@) =~= Seq::empty());
    proof {
        if parsed_items::<T>(raw@) is Some {
            assert(parsed_items::<T>(raw@)->0 =~= models(items@) + parsed_items::<T>(raw@)->0);
        }
    }
    while start < raw.len()
        invariant
            start <= raw@.len(),
            parsed_items::<T>(raw@.skip(start as int)) is Some <==> parsed_items::<T>(raw@) is Some,
            parsed_items::<T>(raw@) is Some ==> parsed_items::<T>(raw@)->0 == models(items@)
                + parsed_items::<T>(raw@.skip(start as int))->0,
        ensures
            parsed_items::<T>(raw@) is Some,
            parsed_items::<T>(raw@)->0 == models(items@),
        decreases raw@.len() - start,
    {
        let tail = vstd::slice::slice_subrange(raw, start, raw.len());
        assert(tail@ =~= raw@.skip(start as int));
        match T::from_bytes(tail) {
            None => {
                return None;
            },
            Some((item, consumed)) => {
                proof {
                    T::lemma_parsed_fits(tail@);
                    assert(raw@.skip(start as int).skip(consumed as int) =~= raw@.skip(
                        start + consumed,
                    ));
                }
                if consumed == 0 {
                    assert(parsed_items::<T>(raw@)->0 =~= models(items@));
                    break ;
                }
                let ghost before = items@;
                items.push(item);
                proof {
                    assert(models(items@) =~= models(before).push(item.model()));
                    if parsed_items::<T>(raw@) is Some {
                        let rest = parsed_items::<T>(raw@.skip(start + consumed))->0;
                        assert(models(before) + (seq![item.model()] + rest) =~= models(items@)
                            + rest);
                    }
                }
                start = start + consumed;
            },
        }
        proof {
            if start == raw@.len() {
                assert(raw@.skip(start as int) =~= Seq::empty());
                if parsed_items::<T>(raw@) is Some {
                    assert(models(items@) + Seq::empty() =~= models(items@));
                }
            }
        }
    }
    Some(items)
}

/// Reads values. Bytes that stand for none are invalid data; a value that
/// takes no bytes ends the reading.
pub fn decode<T: FromBytes>(stream: &mut BitStreamReader) -> (r: Result<Vec<T>>)
    ensures
        !holds_block(old(stream)@) ==> is_eof(r),
        holds_block(old(stream)@) ==> {
            let payload = block_payload(old(stream)@);
            &&& final(stream)@ == behind_block(old(stream)@)
            &&& !final(stream).ran_out()
            &&& lz4_decompressed(payload) is Err ==> lz4_refused(r, payload)
            &&& lz4_decompressed(payload) is Ok ==> {
                let items = parsed_items::<T>(lz4_decompressed(payload)->Ok_0);
                &&& items is Some ==> r is Ok && models((r->Ok_0)@) == items->0
                &&& items is None ==> r is Err && r->Err_0 is InvalidData
            }
        },
{
    let raw = read_compressed(stream)?;
    match parse_items::<T>(raw.as_slice()) {
        Some(items) => Ok(items),
        None => Err(Error::InvalidData),
    }
}

/// The values that were written are read, as long as every one can be read
/// again.
pub proof fn law_items_come_back<T: FromBytes>(items: Seq<T::Model>)
    requires
        forall|i: int| 0 <= i < items.len() ==> T::readable(#[trigger] items[i]),
    ensures
        parsed_items::<T>(items_bytes::<T>(items)) == Some(items),
{
    lemma_items_come_back::<T>(items, Seq::empty(), Seq::empty());
    assert(items_bytes::<T>(items) + Seq::<u8>::empty() =~= items_bytes::<T>(items));
    assert(items + Seq::<T::Model>::empty() =~= items);
}

proof fn lemma_items_come_back<T: FromBytes>(
    items: Seq<T::Model>,
    rest: Seq<u8>,
    others: Seq<T::Model>,
)
    requires
        forall|i: int| 0 <= i < items.len() ==> T::readable(#[trigger] items[i]),
        parsed_items::<T>(rest) == Some(others),
    ensures
        parsed_items::<T>(items_bytes::<T>(items) + rest) == Some(items + others),
    decreases items.len(),
{
    if items.len() == 0 {
        assert(items_bytes::<T>(items) + rest =~= rest);
        assert(items + others =~= others);
    } else {
        let last = items.last();
        let code = T::bytes_of(last);
        T::lemma_comes_back(last, rest);
        assert((code + rest).skip(code.len() as int) =~= rest);
        assert(parsed_items::<T>(code + rest) == Some(seq![last] + others));
        lemma_items_come_back::<T>(items.drop_last(), code + rest, seq![last] + others);
        assert(items_bytes::<T>(items) + rest =~= items_bytes::<T>(items.drop_last()) + (code
            + rest));
        assert(items.drop_last() + (seq![last] + others) =~= items + others);
    }
}

/// The bytes of samples, each least significant first.
pub open spec fn raw_bytes<T: Sample>(samples: Seq<T>) -> Seq<u8>
    decreases samples.len(),
{
    if samples.len() == 0 {
        Seq::empty()
    } else {
        raw_bytes(samples.drop_last()) + sample_bytes(samples.last()).reverse()
    }
}

/// The samples of bytes, each least significant first.
pub open spec fn parsed_raw<T: Sample>(bytes: Seq<u8>) -> Seq<T> {
    Seq::new(
        bytes.len() / T::byte_len(),
        |i: int|
            T::with_num(
                sample_value::<T>(
                    bytes.subrange(i * T::byte_len(), (i + 1) * T::byte_len()).reverse(),
                ),
            ),
    )
}

proof fn lemma_raw_bytes_len<T: Sample>(samples: Seq<T>)
    ensures
        raw_bytes(samples).len() == samples.len() * T::byte_len(),
    decreases samples.len(),
{
    if samples.len() > 0 {
        lemma_raw_bytes_len(samples.drop_last());
        law_sample_comes_back(samples.last());
        assert((samples.len() - 1) * T::byte_len() + T::byte_len() == samples.len()
            * T::byte_len()) by (nonlinear_arith);
    } else {
        assert(0 * T::byte_len() == 0) by (nonlinear_arith);
    }
}

proof fn lemma_raw_bytes_at<T: Sample>(samples: Seq<T>, i: int)
    requires
        0 <= i < samples.len(),
    ensures
        0 <= i * T::byte_len(),
        (i + 1) * T::byte_len() == i * T::byte_len() + T::byte_len(),
        (i + 1) * T::byte_len() <= raw_bytes(samples).len(),
        raw_bytes(samples).subrange(i * T::byte_len(), (i + 1) * T::byte_len()) == sample_bytes(
            samples[i],
        ).reverse(),
    decreases samples.len(),
{
    let n = T::byte_len() as int;
    T::lemma_type();
    lemma_raw_bytes_len(samples);
    lemma_raw_bytes_len(samples.drop_last());
    law_sample_comes_back(samples.last());
    assert((i + 1) * n == i * n + n) by (nonlinear_arith);
    assert(0 <= i * n) by (nonlinear_arith)
        requires
            0 <= i,
            0 <= n,
    ;
    assert((samples.len() - 1) * n + n == samples.len() * n) by (nonlinear_arith);
    if i == samples.len() - 1 {
        assert(raw_bytes(samples).subrange(i * n, (i + 1) * n) =~= sample_bytes(
            samples[i],
        ).reverse());
    } else {
        lemma_raw_bytes_at(samples.drop_last(), i);
        assert(raw_bytes(samples).subrange(i * n, (i + 1) * n) =~= raw_bytes(
            samples.drop_last(),
        ).subrange(i * n, (i + 1) * n));
    }
}

/// The bytes of samples give the samples back.
pub proof fn law_raw_comes_back<T: Sample>(samples: Seq<T>)
    ensures
        raw_bytes(samples).len() % T::byte_len() == 0,
        parsed_raw::<T>(raw_bytes(samples)) == samples,
{
    T::lemma_type();
    lemma_raw_bytes_len(samples);
    let bytes = raw_bytes(samples);
    vstd::arithmetic::div_mod::lemma_fundamental_div_mod_converse(
        bytes.len() as int,
        T::byte_len() as int,
        samples.len() as int,
        0,
    );
    assert forall|i: int| 0 <= i < samples.len() implies parsed_raw::<T>(bytes)[i]
        == samples[i] by {
        lemma_raw_bytes_at(samples, i);
        law_sample_comes_back(samples[i]);
        samples[i].lemma_bounds();
        T::lemma_with_num(samples[i].num());
        assert(sample_bytes(samples[i]).reverse().reverse() =~= sample_bytes(samples[i]));
        samples[i].lemma_same(parsed_raw::<T>(bytes)[i]);
    }
    assert(parsed_raw::<T>(bytes) =~= samples);
}

/// Writes samples: their bytes, compressed. No samples are invalid data.
pub fn encode_raw<T: Sample>(data: &[T], stream: &mut BitStreamWriter) -> (r: Result<()>)
    ensures
        data@.len() == 0 ==> r is Err && r->Err_0 is InvalidData && final(stream)@ == old(stream)@,
        data@.len() > 0 ==> r is Ok && final(stream)@ == padded(old(stream)@) + compressed_bits(
            raw_bytes(data@),
        ),
        data@.len() > 0 ==> is_kept(raw_bytes(data@)),
{
    if data.len() == 0 {
        return Err(Error::InvalidData);
    }
    let mut bytes: Vec<u8> = Vec::new();
    let mut i: usize = 0;
    assert(data@.take(0) =~= Seq::empty());
    while i < data.len()
        invariant
            i <= data@.len(),
            bytes@ == raw_bytes(data@.take(i as int)),
        decreases data@.len() - i,
    {
        let sample = sample_to_bytes(data[i]);
        let ghost before = bytes@;
        let mut j: usize = sample.len();
        assert(before + sample@.reverse().take(0) =~= before);
        while j > 0
            invariant
                j <= sample@.len(),
                bytes@ == before + sample@.reverse().take(sample@.len() - j),
            decreases j,
        {
            j = j - 1;
            bytes.push(sample[j]);
            assert(bytes@ =~= before + sample@.reverse().take(sample@.len() - j));
        }
        assert(sample@.reverse().take(sample@.len() as int) =~= sample@.reverse());
        assert(data@.take(i + 1).drop_last() =~= data@.take(i as int));
        i = i + 1;
    }
    assert(data@.take(data@.len() as int) =~= data@);
    write_compressed(bytes.as_slice(), stream)
}

/// The complaint about bytes that are not a whole number of samples.
pub open spec fn uneven_text(len: nat, size: nat) -> Seq<char> {
    "decompressed length "@ + decimal_chars(len) + " not a multiple of element size "@
        + decimal_chars(size)
}

/// Reads samples.
pub fn decode_raw<T: Sample>(stream: &mut BitStreamReader) -> (r: Result<Vec<T>>)
    ensures
        !holds_block(old(stream)@) ==> is_eof(r),
        holds_block(old(stream)@) ==> {
            let payload = block_payload(old(stream)@);
            &&& final(stream)@ == behind_block(old(stream)@)
            &&& !final(stream).ran_out()
            &&& lz4_decompressed(payload) is Err ==> lz4_refused(r, payload)
            &&& lz4_decompressed(payload) is Ok ==> {
                let raw = lz4_decompressed(payload)->Ok_0;
                &&& raw.len() % T::byte_len() == 0 ==> r is Ok && (r->Ok_0)@ == parsed_raw::<T>(raw)
                &&& raw.len() % T::byte_len() != 0 ==> is_failed_to_decode(
                    r,
                    uneven_text(raw.len(), T::byte_len()),
                )
            }
        },
{
    proof {
        T::lemma_type();
    }
    let raw = read_compressed(stream)?;
    let size: usize = T::size();
    if raw.len() % size != 0 {
        let mut text = "decompressed length ".to_owned();
        text.append(decimal(raw.len()).as_str());
        text.append(" not a multiple of element size ");
        text.append(decimal(size).as_str());
        return Err(Error::FailedToDecode(text));
    }
    let total: usize = raw.len();
    let count: usize = total / size;
    proof {
        vstd::arithmetic::div_mod::lemma_fundamental_div_mod(raw@.len() as int, size as int);
    }
    let mut samples: Vec<T> = Vec::new();
    let mut i: usize = 0;
    while i < count
        invariant
            i <= count,
            size == T::byte_len(),
            size == 2 || size == 4,
            raw@.len() == size * count,
            raw@.len() == total,
            count == raw@.len() / T::byte_len(),
            samples@ == parsed_raw::<T>(raw@).take(i as int),
        decreases count - i,
    {
        proof {
            assert((i + 1) * size == i * size + size) by (nonlinear_arith);
            assert(0 <= i * size && (i + 1) * size <= size * count) by (nonlinear_arith)
                requires
                    0 <= i,
                    i + 1 <= count,
                    0 <= size,
            ;
        }
        let chunk = vstd::slice::slice_subrange(raw.as_slice(), i * size, i * size + size);
        let mut be: Vec<u8> = Vec::new();
        let mut j: usize = size;
        assert(be@ =~= chunk@.reverse().take(0));
        while j > 0
            invariant
                j <= size,
                chunk@.len() == size,
                be@ == chunk@.reverse().take(size - j),
            decreases j,
        {
            j = j - 1;
            be.push(chunk[j]);
            assert(be@ =~= chunk@.reverse().take(size - j));
        }
        assert(be@ =~= chunk@.reverse());
        let x: T = sample_from_bytes::<T>(be.as_slice());
        proof {
            x.lemma_bounds();
            T::lemma_with_num(x.num());
            x.lemma_same(parsed_raw::<T>(raw@)[i as int]);
        }
        samples.push(x);
        assert(samples@ =~= parsed_raw::<T>(raw@).take(i + 1));
        i = i + 1;
    }
    assert(samples@ =~= parsed_raw::<T>(raw@));
    Ok(samples)
}

/// A compressed block starts with its length, in four bytes with the lowest first, and goes on
/// with what compression made of the bytes.
pub proof fn law_block_starts_with_its_length(bytes: Seq<u8>, i: nat)
    requires
        i < 4,
    ensures
        ({
            let bits = compressed_bits(bytes);
            let held = lz4_compressed(bytes);
            &&& bits.len() == 32 + 8 * held.len()
            &&& bits.skip(32) == bytes_bits(held)
            &&& bits_value(bits.subrange(8 * i as int, 8 * i as int + 8)) == (held.len() / pow2(
                8 * i,
            )) % 256
        }),
{
    let bits = compressed_bits(bytes);
    let held = lz4_compressed(bytes);
    let len = le_bytes(held.len(), 4);
    lemma_bytes_bits_of_be_bytes(held.len(), 4);
    lemma_bytes_bits_len(len);
    lemma_bytes_bits_len(held);
    assert(bits.skip(32) =~= bytes_bits(held));
    crate::bits::law_bytes_go_from_high_to_low(held.len(), 4, i);
    lemma_bits_bytes_of_bytes_bits(len);
    let all = bits_bytes(bytes_bits(len));
    assert(all[i as int] == len[i as int]);
    let byte = bytes_bits(len).subrange(8 * i as int, 8 * i as int + 8);
    assert(bits.subrange(8 * i as int, 8 * i as int + 8) =~= byte);
    crate::bits::lemma_be_bits_of_bits_value(byte);
    vstd::arithmetic::power2::lemma2_to64();
}

/// Samples stand one after the other, the lowest byte of each one first.
pub proof fn law_raw_samples_stand_in_order<T: Sample>(samples: Seq<T>, i: int, j: nat)
    requires
        0 <= i < samples.len(),
        j < T::byte_len(),
    ensures
        raw_bytes(samples).len() == samples.len() * T::byte_len(),
        ({
            let x = samples[i].num();
            let n = if x < 0 {
                x + pow2(8 * T::byte_len())
            } else {
                x
            };
            raw_bytes(samples)[i * T::byte_len() + j] == (n as nat / pow2(8 * j)) % 256
        }),
{
    T::lemma_type();
    samples[i].lemma_bounds();
    lemma_raw_bytes_len(samples);
    lemma_raw_bytes_at(samples, i);
    let len = T::byte_len() as int;
    let x = samples[i].num();
    let n = unsigned(x, T::byte_len());
    crate::sample::law_sign_is_the_highest_bit(x, T::byte_len());
    crate::bits::law_bytes_go_from_high_to_low(n, T::byte_len(), j);
    let part = raw_bytes(samples).subrange(i * len, (i + 1) * len);
    assert(part[j as int] == raw_bytes(samples)[i * len + j]);
    assert(part[j as int] == le_bytes(n, T::byte_len())[j as int]);
}

/// The bytes of values stand one after the other, as each one says.
pub proof fn law_items_stand_in_order<T: ToBytes>(
    first: Seq<T::Model>,
    second: Seq<T::Model>,
    item: T::Model,
)
    ensures
        items_bytes::<T>(first + second) == items_bytes::<T>(first) + items_bytes::<T>(second),
        items_bytes::<T>(seq![item]) == T::bytes_of(item),
    decreases second.len(),
{
    reveal_with_fuel(items_bytes, 2);
    assert(seq![item].drop_last() =~= Seq::empty());
    assert(items_bytes::<T>(seq![item]) =~= T::bytes_of(item));
    if second.len() == 0 {
        assert(first + second =~= first);
        assert(items_bytes::<T>(first) + items_bytes::<T>(second) =~= items_bytes::<T>(first));
    } else {
        law_items_stand_in_order::<T>(first, second.drop_last(), item);
        assert((first + second).drop_last() =~= first + second.drop_last());
        assert(items_bytes::<T>(first + second) =~= items_bytes::<T>(first) + items_bytes::<T>(
            second,
        ));
    }
}

} // verus!
