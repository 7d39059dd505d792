//! Numbers as bytes.
use vstd::arithmetic::power2::{lemma2_to64, lemma_pow2_strictly_increases, pow2};
use vstd::prelude::*;

use crate::bits::{be_bytes, be_value, lemma_be_bytes_of_be_value, lemma_bytes_bits_of_be_bytes};

verus! {

/// The `len` low bytes of a number, most significant first.
pub(crate) fn to_be(value: u64, len: usize) -> (bytes: Vec<u8>)
    ensures
        bytes@ == be_bytes(value as nat, len as nat),
        bytes@.len() == len,
{
    let mut bytes: Vec<u8> = vec![0; len];
    let mut rest: u64 = value;
    let mut i: usize = len;
    proof {
        lemma_bytes_bits_of_be_bytes(value as nat, len as nat);
    }
    assert(be_bytes(value as nat, len as nat) =~= be_bytes(rest as nat, i as nat)
        + bytes@.subrange(i as int, len as int));
    while i > 0
        invariant
            i <= len,
            bytes@.len() == len,
            be_bytes(value as nat, len as nat) == be_bytes(rest as nat, i as nat)
                + bytes@.subrange(i as int, len as int),
        decreases i,
    {
        let ghost before = bytes@;
        let ghost high = be_bytes((rest / 256) as nat, (i - 1) as nat);
        i = i - 1;
        bytes.set(i, (rest % 256) as u8);
        assert(be_bytes(rest as nat, (i + 1) as nat) == high.push((rest % 256) as u8));
        assert(high.push((rest % 256) as u8) + before.subrange(i + 1, len as int) =~= high
            + bytes@.subrange(i as int, len as int));
        rest = rest / 256;
    }
    assert(be_bytes(rest as nat, 0) + bytes@.subrange(0, len as int) =~= bytes@);
    bytes
}

/// The number that at most eight bytes write, most significant first.
pub(crate) fn from_be(bytes: &[u8]) -> (value: u64)
    requires
        bytes@.len() <= 8,
    ensures
        value == be_value(bytes@),
{
    let mut value: u64 = 0;
    let mut i: usize = 0;
    while i < bytes.len()
        invariant
            i <= bytes@.len() <= 8,
            value == be_value(bytes@.take(i as int)),
        decreases bytes@.len() - i,
    {
        proof {
            let next = bytes@.take(i + 1);
            assert(next.drop_last() =~= bytes@.take(i as int));
            lemma_be_bytes_of_be_value(next);
            lemma2_to64();
            if 8 * (i + 1) < 64 {
                lemma_pow2_strictly_increases((8 * (i + 1)) as nat, 64);
            }
            assert(be_value(next) == 256 * value + bytes@[i as int]);
            assert(be_value(next) < pow2(64));
        }
        value = 256 * value + bytes[i] as u64;
        i = i + 1;
    }
    assert(bytes@.take(i as int) =~= bytes@);
    value
}

/// The number at place `i` of bytes that hold numbers of eight bytes.
pub open spec fn word_at(bytes: Seq<u8>, i: int) -> nat {
    be_value(bytes.subrange(8 * i, 8 * i + 8))
}

/// The bytes of numbers, eight for each.
pub open spec fn words_bytes(words: Seq<nat>) -> Seq<u8>
    decreases words.len(),
{
    if words.len() == 0 {
        Seq::empty()
    } else {
        words_bytes(words.drop_last()) + be_bytes(words.last(), 8)
    }
}

pub proof fn lemma_words_bytes_len(words: Seq<nat>)
    ensures
        words_bytes(words).len() == 8 * words.len(),
    decreases words.len(),
{
    if words.len() > 0 {
        lemma_words_bytes_len(words.drop_last());
        lemma_bytes_bits_of_be_bytes(words.last(), 8);
    }
}

/// The bytes of numbers give the numbers back, whatever follows them.
pub proof fn lemma_words_come_back(words: Seq<nat>, rest: Seq<u8>, i: int)
    requires
        0 <= i < words.len(),
        forall|j: int| 0 <= j < words.len() ==> #[trigger] words[j] <= u64::MAX,
    ensures
        word_at(words_bytes(words) + rest, i) == words[i],
    decreases words.len(),
{
    lemma2_to64();
    lemma_words_bytes_len(words);
    lemma_words_bytes_len(words.drop_last());
    let tail = be_bytes(words.last(), 8);
    lemma_bytes_bits_of_be_bytes(words.last(), 8);
    if i == words.len() - 1 {
        crate::bits::lemma_be_value_of_be_bytes(words.last(), 8);
        assert((words_bytes(words) + rest).subrange(8 * i, 8 * i + 8) =~= tail);
    } else {
        lemma_words_come_back(words.drop_last(), tail + rest, i);
        assert(words_bytes(words) + rest =~= words_bytes(words.drop_last()) + (tail + rest));
    }
}

/// Reads the number at place `i`. `None` where it is beyond `usize`.
pub(crate) fn read_word(bytes: &[u8], i: usize) -> (r: Option<usize>)
    requires
        i < 8,
        8 * i + 8 <= bytes@.len(),
    ensures
        r is Some <==> word_at(bytes@, i as int) <= usize::MAX,
        r is Some ==> r->0 == word_at(bytes@, i as int),
{
    let value: u64 = from_be(vstd::slice::slice_subrange(bytes, 8 * i, 8 * i + 8));
    if value > usize::MAX as u64 {
        None
    } else {
        Some(value as usize)
    }
}

/// Values that have a byte form.
pub trait ToBytes {
    /// What a value stands for.
    type Model;

    /// What the value stands for.
    spec fn model(&self) -> Self::Model;

    /// The bytes of what a value stands for.
    spec fn bytes_of(model: Self::Model) -> Seq<u8>;

    /// The bytes of the value.
    fn to_bytes(&self) -> (bytes: Vec<u8>)
        ensures
            bytes@ == Self::bytes_of(self.model()),
    ;
}

/// Values that are read from bytes.
pub trait FromBytes: ToBytes + Sized {
    /// What bytes start with, and how many of them it takes. `None` where
    /// there are too few, or where they stand for nothing.
    spec fn parsed(bytes: Seq<u8>) -> Option<(Self::Model, nat)>;

    /// Whether the byte form of `model` can be read again.
    spec fn readable(model: Self::Model) -> bool;

    /// What a value in memory stands for can be read again.
    proof fn lemma_readable(&self)
        ensures
            Self::readable(self.model()),
    ;

    /// No value is taken from more bytes than there are.
    proof fn lemma_parsed_fits(bytes: Seq<u8>)
        ensures
            Self::parsed(bytes) is Some ==> (Self::parsed(bytes)->0).1 <= bytes.len(),
    ;

    /// What was written is read, whatever follows it.
    proof fn lemma_comes_back(model: Self::Model, rest: Seq<u8>)
        requires
            Self::readable(model),
        ensures
            Self::bytes_of(model).len() > 0,
            Self::parsed(Self::bytes_of(model) + rest) == Some(
                (model, Self::bytes_of(model).len()),
            ),
    ;

    /// Reads a value from the start of bytes, and says how many it took.
    fn from_bytes(bytes: &[u8]) -> (r: Option<(Self, usize)>)
        ensures
            r is Some <==> Self::parsed(bytes@) is Some,
            r is Some ==> (r->0).0.model() == (Self::parsed(bytes@)->0).0 && (r->0).1 == (
            Self::parsed(bytes@)->0).1,
    ;
}

/// What is parsed from the bytes behind a first value.
pub open spec fn parsed_second<A: FromBytes, B: FromBytes>(bytes: Seq<u8>) -> Option<
    ((A::Model, B::Model), nat),
> {
    match A::parsed(bytes) {
        None => None,
        Some((a, n)) => match B::parsed(bytes.skip(n as int)) {
            None => None,
            Some((b, m)) => Some(((a, b), n + m)),
        },
    }
}

impl<A: ToBytes, B: ToBytes> ToBytes for (A, B) {
    type Model = (A::Model, B::Model);

    open spec fn model(&self) -> (A::Model, B::Model) {
        (self.0.model(), self.1.model())
    }

    open spec fn bytes_of(model: (A::Model, B::Model)) -> Seq<u8> {
        A::bytes_of(model.0) + B::bytes_of(model.1)
    }

    fn to_bytes(&self) -> (bytes: Vec<u8>) {
        let mut bytes = self.0.to_bytes();
        let mut second = self.1.to_bytes();
        bytes.append(&mut second);
        bytes
    }
}

impl<A: FromBytes, B: FromBytes> FromBytes for (A, B) {
    open spec fn parsed(bytes: Seq<u8>) -> Option<((A::Model, B::Model), nat)> {
        parsed_second::<A, B>(bytes)
    }

    open spec fn readable(model: (A::Model, B::Model)) -> bool {
        A::readable(model.0) && B::readable(model.1)
    }

    proof fn lemma_readable(&self) {
        self.0.lemma_readable();
        self.1.lemma_readable();
    }

    proof fn lemma_parsed_fits(bytes: Seq<u8>) {
        A::lemma_parsed_fits(bytes);
        if A::parsed(bytes) is Some {
            B::lemma_parsed_fits(bytes.skip((A::parsed(bytes)->0).1 as int));
        }
    }

    proof fn lemma_comes_back(model: (A::Model, B::Model), rest: Seq<u8>) {
        let first = A::bytes_of(model.0);
        let second = B::bytes_of(model.1);
        let bytes = Self::bytes_of(model) + rest;
        A::lemma_comes_back(model.0, second + rest);
        B::lemma_comes_back(model.1, rest);
        assert(bytes =~= first + (second + rest));
        assert(bytes.skip(first.len() as int) =~= second + rest);
    }

    fn from_bytes(bytes: &[u8]) -> (r: Option<(Self, usize)>) {
        match A::from_bytes(bytes) {
            None => None,
            Some((a, n)) => {
                proof {
                    A::lemma_parsed_fits(bytes@);
                    B::lemma_parsed_fits(bytes@.skip(n as int));
                }
                let rest = vstd::slice::slice_subrange(bytes, n, bytes.len());
                assert(rest@ =~= bytes@.skip(n as int));
                match B::from_bytes(rest) {
                    None => None,
                    Some((b, m)) => Some(((a, b), n + m)),
                }
            },
        }
    }
}

/// Numbers in eight bytes each stand one after the other.
pub proof fn law_words_stand_in_order(words: Seq<nat>, i: int)
    requires
        0 <= i < words.len(),
    ensures
        words_bytes(words).len() == 8 * words.len(),
        words_bytes(words).subrange(8 * i, 8 * i + 8) == be_bytes(words[i], 8),
    decreases words.len(),
{
    lemma_words_bytes_len(words);
    lemma_words_bytes_len(words.drop_last());
    lemma_bytes_bits_of_be_bytes(words.last(), 8);
    if i == words.len() - 1 {
        assert(words_bytes(words).subrange(8 * i, 8 * i + 8) =~= be_bytes(words[i], 8));
    } else {
        law_words_stand_in_order(words.drop_last(), i);
        assert(words_bytes(words).subrange(8 * i, 8 * i + 8) =~= words_bytes(
            words.drop_last(),
        ).subrange(8 * i, 8 * i + 8));
    }
}

} // verus!
