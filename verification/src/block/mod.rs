//! Blocks of eight by eight samples.
use std::ops::{Add, Div, Mul, Sub};

use vstd::arithmetic::power2::pow2;
use vstd::prelude::*;
use vstd::std_specs::ops::{AddSpecImpl, DivSpecImpl, MulSpecImpl, SubSpecImpl};
use vstd::string::StringExecFns;

use crate::bits::{
    be_bytes, be_value, bits_bytes, bytes_bits, lemma_bits_bytes_unique, lemma_be_value_of_be_bytes,
    lemma_bytes_bits_of_be_bytes,
};
use crate::bitstream::{BitStreamReader, BitStreamWriter};
use crate::bytes::{from_be, to_be, FromBytes, ToBytes};
use crate::error::{decimal_chars, is_eof, Error, Result};
use crate::sample::{
    clamped, divide, magnitude, quotient, sample_bytes, sample_from_bytes, sample_to_bytes,
    sample_value, unsigned, law_sample_comes_back, Sample,
};

pub mod quantization;
pub mod zigzag;

verus! {

/// The number of columns of a block.
pub const BLOCK_COLS: usize = 8;

/// The number of rows of a block.
pub const BLOCK_ROWS: usize = 8;

/// The number of samples of a block.
pub const BLOCK_SIZE: usize = 64;

/// How far blocks may differ and still count as alike: by two in every sample.
/// Equal blocks differ by nothing, and blocks that are off by one in every
/// sample by 64.
pub const REASONABLE_SUM_OF_ABS_DIFF_I16: i16 = 128;

/// Eight rows of eight samples.
#[derive(Debug, PartialEq, Eq)]
pub struct Block<T>(pub [T; 64]);

impl<T: Copy> Clone for Block<T> {
    fn clone(&self) -> (r: Self)
        ensures
            r == *self,
    {
        *self
    }
}

impl<T: Copy> Copy for Block<T> {

}

impl<T> View for Block<T> {
    type V = Seq<T>;

    open spec fn view(&self) -> Seq<T> {
        self.0@
    }
}

impl<T: Copy + Default> Default for Block<T> {
    fn default() -> (r: Self)
        ensures
            forall|i: int| 0 <= i < 64 ==> call_ensures(T::default, (), #[trigger] r@[i]),
    {
        Block([T::default(); 64])
    }
}

impl<T> Block<T> {
    /// The sample at a row and a column.
    pub fn get(&self, row: usize, col: usize) -> (r: T) where T: Copy
        requires
            row * 8 + col < 64,
        ensures
            r == self@[row * 8 + col],
    {
        self.0[row * BLOCK_COLS + col]
    }

    /// Replaces the sample at a row and a column.
    pub fn set(&mut self, row: usize, col: usize, value: T)
        requires
            row * 8 + col < 64,
        ensures
            final(self)@ == old(self)@.update(row * 8 + col, value),
    {
        self.0[row * BLOCK_COLS + col] = value;
    }

    /// The sample at a row and a column, borrowed.
    pub fn get_ref(&self, row: usize, col: usize) -> (r: &T)
        requires
            row * 8 + col < 64,
        ensures
            *r == self@[row * 8 + col],
    {
        &self.0[row * BLOCK_COLS + col]
    }

    /// The sample at a row and a column, to be changed in place.
    pub fn get_mut(&mut self, row: usize, col: usize) -> (r: &mut T)
        requires
            row * 8 + col < 64,
        ensures
            *r == old(self)@[row * 8 + col],
            final(self)@ == old(self)@.update(row * 8 + col, *final(r)),
    {
        &mut self.0[row * BLOCK_COLS + col]
    }

    /// The number of columns.
    pub fn cols() -> (r: usize)
        ensures
            r == 8,
    {
        BLOCK_COLS
    }

    /// The number of rows.
    pub fn rows() -> (r: usize)
        ensures
            r == 8,
    {
        BLOCK_ROWS
    }

    /// The number of samples.
    pub fn size() -> (r: usize)
        ensures
            r == 64,
    {
        BLOCK_SIZE
    }

    /// Starts to go through the samples, row after row.
    pub fn iter(&self) -> (r: BlockIter<'_, T>)
        ensures
            r.rest() == self@,
    {
        let r = BlockIter { block: self, index: 0 };
        assert(self@.skip(0) =~= self@);
        r
    }
}

/// What is left of going through a block.
pub struct BlockIter<'a, T> {
    block: &'a Block<T>,
    index: usize,
}

impl<'a, T> BlockIter<'a, T> {
    /// The samples that are still to come.
    pub closed spec fn rest(&self) -> Seq<T> {
        self.block@.skip(self.index as int)
    }

    #[verifier::type_invariant]
    spec fn index_in_block(self) -> bool {
        self.index <= 64
    }
}

impl<'a, T: Copy> BlockIter<'a, T> {
    /// The next sample, or none behind the last one.
    pub fn next(&mut self) -> (r: Option<T>)
        ensures
            old(self).rest().len() == 0 ==> r is None && final(self).rest() == old(self).rest(),
            old(self).rest().len() > 0 ==> r == Some(old(self).rest()[0]) && final(self).rest()
                == old(self).rest().skip(1),
    {
        proof {
            use_type_invariant(&*self);
        }
        if self.index >= BLOCK_SIZE {
            None
        } else {
            let value: T = self.block.0[self.index];
            self.index = self.index + 1;
            assert(self.rest() =~= old(self).rest().skip(1));
            Some(value)
        }
    }

    /// The samples that are still to come.
    pub fn collect(self) -> (r: Vec<T>)
        ensures
            r@ == self.rest(),
    {
        proof {
            use_type_invariant(&self);
        }
        let mut samples: Vec<T> = Vec::new();
        let mut i: usize = self.index;
        while i < BLOCK_SIZE
            invariant
                self.index <= i <= 64,
                samples@ == self.block@.subrange(self.index as int, i as int),
            decreases 64 - i,
        {
            samples.push(self.block.0[i]);
            i = i + 1;
            assert(samples@ =~= self.block@.subrange(self.index as int, i as int));
        }
        assert(samples@ =~= self.rest());
        samples
    }
}

impl<T: Copy> From<[T; 64]> for Block<T> {
    fn from(data: [T; 64]) -> (r: Self) {
        Block(data)
    }
}

impl<T: Copy> vstd::std_specs::convert::FromSpecImpl<[T; 64]> for Block<T> {
    open spec fn obeys_from_spec() -> bool {
        true
    }

    open spec fn from_spec(data: [T; 64]) -> Self {
        Block(data)
    }
}

impl<T: Copy> From<Block<T>> for [T; 64] {
    fn from(block: Block<T>) -> (r: Self) {
        block.0
    }
}

impl<T: Copy> vstd::std_specs::convert::FromSpecImpl<Block<T>> for [T; 64] {
    open spec fn obeys_from_spec() -> bool {
        true
    }

    open spec fn from_spec(block: Block<T>) -> Self {
        block.0
    }
}

impl<T: Copy> Block<T> {
    /// The block of 64 samples.
    pub fn from_slice(slice: &[T]) -> (r: Self)
        requires
            slice@.len() == 64,
        ensures
            r@ == slice@,
    {
        let mut data: [T; 64] = [slice[0]; 64];
        let mut i: usize = 0;
        while i < BLOCK_SIZE
            invariant
                i <= 64,
                slice@.len() == 64,
                forall|j: int| 0 <= j < i ==> data@[j] == slice@[j],
            decreases 64 - i,
        {
            data[i] = slice[i];
            i = i + 1;
        }
        assert(data@ =~= slice@);
        Block(data)
    }
}

/// Blocks with the same samples are the same.
pub proof fn lemma_same_block<T>(a: Block<T>, b: Block<T>)
    requires
        a@ == b@,
    ensures
        a == b,
{
    assert forall|i: int| 0 <= i < 64 implies a.0[i] == b.0[i] by {
        assert(a@[i] == b@[i]);
    }
    assert(a.0 =~= b.0);
}

/// Blocks of the same numbers are the same.
pub proof fn lemma_same_nums<T: Sample>(a: Block<T>, b: Block<T>)
    requires
        forall|i: int| 0 <= i < 64 ==> (#[trigger] a@[i]).num() == b@[i].num(),
    ensures
        a == b,
{
    assert forall|i: int| 0 <= i < 64 implies a@[i] == b@[i] by {
        a@[i].lemma_same(b@[i]);
    }
    assert(a@ =~= b@);
    lemma_same_block(a, b);
}

/// Every sample of `r` is the sum of those of `a` and `b`.
pub open spec fn is_sum<T: Sample>(a: Seq<T>, b: Seq<T>, r: Seq<T>) -> bool {
    forall|i: int| 0 <= i < 64 ==> (#[trigger] r[i]).num() == a[i].num() + b[i].num()
}

/// Every sample of `r` is the difference of those of `a` and `b`.
pub open spec fn is_difference<T: Sample>(a: Seq<T>, b: Seq<T>, r: Seq<T>) -> bool {
    forall|i: int| 0 <= i < 64 ==> (#[trigger] r[i]).num() == a[i].num() - b[i].num()
}

/// A number that a sample can hold.
pub open spec fn fits<T: Sample>(n: int) -> bool {
    T::lo() <= n <= T::hi()
}

impl<T: Sample> Add for Block<T> {
    type Output = Self;

    fn add(self, other: Self) -> (r: Self)
        ensures
            is_sum(self@, other@, r@),
    {
        let mut next: [T; 64] = self.0;
        let mut i: usize = 0;
        while i < BLOCK_SIZE
            invariant
                i <= 64,
                forall|j: int|
                    0 <= j < 64 ==> fits::<T>((#[trigger] self@[j]).num() + other@[j].num()),
                forall|j: int|
                    0 <= j < i ==> (#[trigger] next@[j]).num() == self@[j].num() + other@[j].num(),
            decreases 64 - i,
        {
            proof {
                T::lemma_type();
                self@[i as int].lemma_bounds();
                other@[i as int].lemma_bounds();
                assert(fits::<T>(self@[i as int].num() + other@[i as int].num()));
            }
            next[i] = T::from_i64(self.0[i].to_i64() + other.0[i].to_i64());
            i = i + 1;
        }
        Block(next)
    }
}

impl<T: Sample> AddSpecImpl for Block<T> {
    open spec fn obeys_add_spec() -> bool {
        false
    }

    open spec fn add_req(self, other: Self) -> bool {
        forall|i: int| 0 <= i < 64 ==> fits::<T>((#[trigger] self@[i]).num() + other@[i].num())
    }

    open spec fn add_spec(self, other: Self) -> Self {
        arbitrary()
    }
}

impl<T: Sample> Sub for Block<T> {
    type Output = Self;

    fn sub(self, other: Self) -> (r: Self)
        ensures
            is_difference(self@, other@, r@),
    {
        let mut next: [T; 64] = self.0;
        let mut i: usize = 0;
        while i < BLOCK_SIZE
            invariant
                i <= 64,
                forall|j: int|
                    0 <= j < 64 ==> fits::<T>((#[trigger] self@[j]).num() - other@[j].num()),
                forall|j: int|
                    0 <= j < i ==> (#[trigger] next@[j]).num() == self@[j].num() - other@[j].num(),
            decreases 64 - i,
        {
            proof {
                T::lemma_type();
                self@[i as int].lemma_bounds();
                other@[i as int].lemma_bounds();
                assert(fits::<T>(self@[i as int].num() - other@[i as int].num()));
            }
            next[i] = T::from_i64(self.0[i].to_i64() - other.0[i].to_i64());
            i = i + 1;
        }
        Block(next)
    }
}

impl<T: Sample> SubSpecImpl for Block<T> {
    open spec fn obeys_sub_spec() -> bool {
        false
    }

    open spec fn sub_req(self, other: Self) -> bool {
        forall|i: int| 0 <= i < 64 ==> fits::<T>((#[trigger] self@[i]).num() - other@[i].num())
    }

    open spec fn sub_spec(self, other: Self) -> Self {
        arbitrary()
    }
}

impl<T: Sample> Div<T> for Block<T> {
    type Output = Self;

    fn div(self, other: T) -> (r: Self)
        ensures
            forall|i: int|
                0 <= i < 64 ==> (#[trigger] r@[i]).num() == quotient(self@[i].num(), other.num()),
    {
        let mut next: [T; 64] = self.0;
        let mut i: usize = 0;
        while i < BLOCK_SIZE
            invariant
                i <= 64,
                other.num() != 0,
                forall|j: int|
                    0 <= j < 64 ==> fits::<T>(quotient((#[trigger] self@[j]).num(), other.num())),
                forall|j: int|
                    0 <= j < i ==> (#[trigger] next@[j]).num() == quotient(
                        self@[j].num(),
                        other.num(),
                    ),
            decreases 64 - i,
        {
            proof {
                T::lemma_type();
                self@[i as int].lemma_bounds();
                other.lemma_bounds();
                assert(fits::<T>(quotient(self@[i as int].num(), other.num())));
            }
            next[i] = T::from_i64(divide(self.0[i].to_i64(), other.to_i64()));
            i = i + 1;
        }
        Block(next)
    }
}

impl<T: Sample> DivSpecImpl<T> for Block<T> {
    open spec fn obeys_div_spec() -> bool {
        false
    }

    open spec fn div_req(self, other: T) -> bool {
        &&& other.num() != 0
        &&& forall|i: int|
            0 <= i < 64 ==> fits::<T>(quotient((#[trigger] self@[i]).num(), other.num()))
    }

    open spec fn div_spec(self, other: T) -> Self {
        arbitrary()
    }
}

impl<T: Sample> Div<Block<T>> for Block<T> {
    type Output = Self;

    fn div(self, other: Block<T>) -> (r: Self)
        ensures
            forall|i: int|
                0 <= i < 64 ==> (#[trigger] r@[i]).num() == quotient(
                    self@[i].num(),
                    other@[i].num(),
                ),
    {
        let mut next: [T; 64] = self.0;
        let mut i: usize = 0;
        while i < BLOCK_SIZE
            invariant
                i <= 64,
                forall|j: int|
                    0 <= j < 64 ==> (#[trigger] other@[j]).num() != 0 && fits::<T>(
                        quotient(self@[j].num(), other@[j].num()),
                    ),
                forall|j: int|
                    0 <= j < i ==> (#[trigger] next@[j]).num() == quotient(
                        self@[j].num(),
                        other@[j].num(),
                    ),
            decreases 64 - i,
        {
            proof {
                T::lemma_type();
                self@[i as int].lemma_bounds();
                other@[i as int].lemma_bounds();
            }
            next[i] = T::from_i64(divide(self.0[i].to_i64(), other.0[i].to_i64()));
            i = i + 1;
        }
        Block(next)
    }
}

impl<T: Sample> DivSpecImpl<Block<T>> for Block<T> {
    open spec fn obeys_div_spec() -> bool {
        false
    }

    open spec fn div_req(self, other: Block<T>) -> bool {
        forall|i: int|
            0 <= i < 64 ==> (#[trigger] other@[i]).num() != 0 && fits::<T>(
                quotient(self@[i].num(), other@[i].num()),
            )
    }

    open spec fn div_spec(self, other: Block<T>) -> Self {
        arbitrary()
    }
}

impl<T: Sample> Mul<Block<T>> for Block<T> {
    type Output = Self;

    fn mul(self, other: Block<T>) -> (r: Self)
        ensures
            forall|i: int|
                0 <= i < 64 ==> (#[trigger] r@[i]).num() == self@[i].num() * other@[i].num(),
    {
        let mut next: [T; 64] = self.0;
        let mut i: usize = 0;
        while i < BLOCK_SIZE
            invariant
                i <= 64,
                forall|j: int|
                    0 <= j < 64 ==> fits::<T>((#[trigger] self@[j]).num() * other@[j].num()),
                forall|j: int|
                    0 <= j < i ==> (#[trigger] next@[j]).num() == self@[j].num() * other@[j].num(),
            decreases 64 - i,
        {
            proof {
                T::lemma_type();
                self@[i as int].lemma_bounds();
                other@[i as int].lemma_bounds();
                assert(fits::<T>(self@[i as int].num() * other@[i as int].num()));
            }
            next[i] = T::from_i64(self.0[i].to_i64() * other.0[i].to_i64());
            i = i + 1;
        }
        Block(next)
    }
}

impl<T: Sample> MulSpecImpl<Block<T>> for Block<T> {
    open spec fn obeys_mul_spec() -> bool {
        false
    }

    open spec fn mul_req(self, other: Block<T>) -> bool {
        forall|i: int| 0 <= i < 64 ==> fits::<T>((#[trigger] self@[i]).num() * other@[i].num())
    }

    open spec fn mul_spec(self, other: Block<T>) -> Self {
        arbitrary()
    }
}

/// How far the first `n` samples of two blocks are apart, added up.
pub open spec fn abs_difference<T: Sample>(a: Seq<T>, b: Seq<T>, n: int) -> int
    decreases n,
{
    if n <= 0 {
        0
    } else {
        abs_difference(a, b, n - 1) + magnitude(a[n - 1].num() - b[n - 1].num())
    }
}

/// The smaller of a number and a limit.
pub open spec fn capped(n: int, limit: int) -> int {
    if n < limit {
        n
    } else {
        limit
    }
}

pub proof fn lemma_abs_difference_grows<T: Sample>(a: Seq<T>, b: Seq<T>, m: int, n: int)
    requires
        0 <= m <= n,
    ensures
        0 <= abs_difference(a, b, m) <= abs_difference(a, b, n),
    decreases n,
{
    if m < n {
        lemma_abs_difference_grows(a, b, m, n - 1);
    } else if m > 0 {
        lemma_abs_difference_grows(a, b, m - 1, n - 1);
    }
}

/// Equal blocks are not apart, and only equal blocks are not.
pub proof fn law_apart_by_nothing<T: Sample>(a: Block<T>, b: Block<T>)
    ensures
        abs_difference(a@, b@, 64) == 0 <==> a == b,
{
    if a == b {
        lemma_apart_from_itself(a@, 64);
    }
    if abs_difference(a@, b@, 64) == 0 {
        assert forall|i: int| 0 <= i < 64 implies (#[trigger] a@[i]).num() == b@[i].num() by {
            lemma_abs_difference_grows(a@, b@, i, i + 1);
            lemma_abs_difference_grows(a@, b@, i + 1, 64);
        }
        lemma_same_nums(a, b);
    }
}

proof fn lemma_apart_from_itself<T: Sample>(a: Seq<T>, n: int)
    ensures
        abs_difference(a, a, n) == 0,
    decreases n,
{
    if n > 0 {
        lemma_apart_from_itself(a, n - 1);
    }
}

impl<T: Sample> Block<T> {
    /// How far two blocks are apart: the sizes of the differences, added up.
    pub fn sum_of_abs_difference(&self, other: &Block<T>) -> (r: T)
        requires
            abs_difference(self@, other@, 64) <= T::hi(),
        ensures
            r.num() == abs_difference(self@, other@, 64),
    {
        proof {
            T::lemma_type();
        }
        let mut sum: i64 = 0;
        let mut i: usize = 0;
        while i < BLOCK_SIZE
            invariant
                i <= 64,
                0x7fff <= T::hi() <= 0x7fff_ffff,
                T::lo() == -T::hi() - 1,
                abs_difference(self@, other@, 64) <= T::hi(),
                sum == abs_difference(self@, other@, i as int),
            decreases 64 - i,
        {
            proof {
                self@[i as int].lemma_bounds();
                other@[i as int].lemma_bounds();
                lemma_abs_difference_grows(self@, other@, i as int, i + 1);
                lemma_abs_difference_grows(self@, other@, i + 1, 64);
            }
            let difference: i64 = self.0[i].to_i64() - other.0[i].to_i64();
            sum = sum + if difference < 0 {
                -difference
            } else {
                difference
            };
            i = i + 1;
        }
        proof {
            lemma_abs_difference_grows(self@, other@, 0, 64);
        }
        T::from_i64(sum)
    }

    /// How far two blocks are apart, in a number that holds it in any case.
    pub(crate) fn distance(&self, other: &Block<T>) -> (r: i64)
        ensures
            r == abs_difference(self@, other@, 64),
            0 <= r <= 0x40_0000_0000,
    {
        proof {
            T::lemma_type();
        }
        let mut sum: i64 = 0;
        let mut i: usize = 0;
        while i < BLOCK_SIZE
            invariant
                i <= 64,
                0x7fff <= T::hi() <= 0x7fff_ffff,
                T::lo() == -T::hi() - 1,
                sum == abs_difference(self@, other@, i as int),
                0 <= sum <= 0x1_0000_0000 * i,
            decreases 64 - i,
        {
            proof {
                self@[i as int].lemma_bounds();
                other@[i as int].lemma_bounds();
            }
            let difference: i64 = self.0[i].to_i64() - other.0[i].to_i64();
            sum = sum + if difference < 0 {
                -difference
            } else {
                difference
            };
            i = i + 1;
        }
        sum
    }

    /// How far two blocks are apart, counted up to a threshold.
    pub fn sum_of_abs_difference_early_exit(&self, other: &Block<T>, threshold: T) -> (r: T)
        ensures
            r.num() == capped(abs_difference(self@, other@, 64), threshold.num()),
    {
        proof {
            T::lemma_type();
            threshold.lemma_bounds();
        }
        let limit: i64 = threshold.to_i64();
        let mut sum: i64 = 0;
        let mut i: usize = 0;
        while i < BLOCK_SIZE
            invariant
                i <= 64,
                limit == threshold.num(),
                T::lo() <= limit <= T::hi(),
                0x7fff <= T::hi() <= 0x7fff_ffff,
                T::lo() == -T::hi() - 1,
                sum == abs_difference(self@, other@, i as int),
                0 <= sum <= 0x1_0000_0000 * i,
            decreases 64 - i,
        {
            proof {
                lemma_abs_difference_grows(self@, other@, i as int, 64);
                self@[i as int].lemma_bounds();
                other@[i as int].lemma_bounds();
            }
            if sum >= limit {
                return threshold;
            }
            let difference: i64 = self.0[i].to_i64() - other.0[i].to_i64();
            sum = sum + if difference < 0 {
                -difference
            } else {
                difference
            };
            i = i + 1;
        }
        if sum >= limit {
            threshold
        } else {
            T::from_i64(sum)
        }
    }

    /// Brings every sample between two others.
    pub fn clamp(self, min: T, max: T) -> (r: Self)
        ensures
            forall|i: int|
                0 <= i < 64 ==> (#[trigger] r@[i]).num() == clamped(
                    self@[i].num(),
                    min.num(),
                    max.num(),
                ),
    {
        let mut block: [T; 64] = self.0;
        let mut i: usize = 0;
        while i < BLOCK_SIZE
            invariant
                i <= 64,
                forall|j: int| i <= j < 64 ==> block@[j] == self@[j],
                forall|j: int|
                    0 <= j < i ==> (#[trigger] block@[j]).num() == clamped(
                        self@[j].num(),
                        min.num(),
                        max.num(),
                    ),
            decreases 64 - i,
        {
            if block[i].to_i64() < min.to_i64() {
                block[i] = min;
            } else if block[i].to_i64() > max.to_i64() {
                block[i] = max;
            }
            i = i + 1;
        }
        Block(block)
    }

    /// The same numbers as other samples. A number that the other samples
    /// cannot hold fails the conversion.
    pub fn try_convert_to<U: Sample>(self) -> (r: Result<Block<U>>)
        ensures
            r is Ok <==> forall|i: int| 0 <= i < 64 ==> fits::<U>((#[trigger] self@[i]).num()),
            r is Ok ==> forall|i: int|
                0 <= i < 64 ==> (#[trigger] (r->Ok_0)@[i]).num() == self@[i].num(),
            r is Err ==> r->Err_0 is BlockConversion,
    {
        let mut next: [U; 64] = [U::zero(); 64];
        let mut i: usize = 0;
        while i < BLOCK_SIZE
            invariant
                i <= 64,
                forall|j: int| 0 <= j < i ==> fits::<U>((#[trigger] self@[j]).num()),
                forall|j: int| 0 <= j < i ==> (#[trigger] next@[j]).num() == self@[j].num(),
            decreases 64 - i,
        {
            let value: i64 = self.0[i].to_i64();
            if value < U::min_value() || value > U::max_value() {
                assert(!fits::<U>(self@[i as int].num()));
                return Err(Error::BlockConversion);
            }
            next[i] = U::from_i64(value);
            i = i + 1;
        }
        Ok(Block(next))
    }

    /// The same numbers as other samples.
    pub fn convert_to<U: Sample>(self) -> (r: Block<U>)
        requires
            forall|i: int| 0 <= i < 64 ==> fits::<U>((#[trigger] self@[i]).num()),
        ensures
            forall|i: int| 0 <= i < 64 ==> (#[trigger] r@[i]).num() == self@[i].num(),
    {
        let mut next: [U; 64] = [U::zero(); 64];
        let mut i: usize = 0;
        while i < BLOCK_SIZE
            invariant
                i <= 64,
                forall|j: int| 0 <= j < 64 ==> fits::<U>((#[trigger] self@[j]).num()),
                forall|j: int| 0 <= j < i ==> (#[trigger] next@[j]).num() == self@[j].num(),
            decreases 64 - i,
        {
            assert(fits::<U>(self@[i as int].num()));
            next[i] = U::from_i64(self.0[i].to_i64());
            i = i + 1;
        }
        Block(next)
    }
}

/// The bytes of samples, one after the other.
pub open spec fn block_bytes<T: Sample>(samples: Seq<T>) -> Seq<u8>
    decreases samples.len(),
{
    if samples.len() == 0 {
        Seq::empty()
    } else {
        block_bytes(samples.drop_last()) + sample_bytes(samples.last())
    }
}

/// The sample at place `i` of bytes.
pub open spec fn parsed_sample<T: Sample>(bytes: Seq<u8>, i: int) -> T {
    T::with_num(sample_value::<T>(bytes.subrange(i * T::byte_len(), (i + 1) * T::byte_len())))
}

/// The samples that bytes start with.
pub open spec fn parsed_block<T: Sample>(bytes: Seq<u8>) -> Seq<T> {
    Seq::new(64, |i: int| parsed_sample::<T>(bytes, i))
}

proof fn lemma_block_bytes_len<T: Sample>(samples: Seq<T>)
    ensures
        block_bytes(samples).len() == samples.len() * T::byte_len(),
    decreases samples.len(),
{
    if samples.len() > 0 {
        lemma_block_bytes_len(samples.drop_last());
        law_sample_comes_back(samples.last());
        assert((samples.len() - 1) * T::byte_len() + T::byte_len() == samples.len()
            * T::byte_len()) by (nonlinear_arith);
    } else {
        assert(0 * T::byte_len() == 0) by (nonlinear_arith);
    }
}

proof fn lemma_block_bytes_at<T: Sample>(samples: Seq<T>, i: int, rest: Seq<u8>)
    requires
        0 <= i < samples.len(),
    ensures
        0 <= i * T::byte_len(),
        (i + 1) * T::byte_len() <= block_bytes(samples).len(),
        (i + 1) * T::byte_len() == i * T::byte_len() + T::byte_len(),
        (block_bytes(samples) + rest).subrange(i * T::byte_len(), (i + 1) * T::byte_len())
            == sample_bytes(samples[i]),
    decreases samples.len(),
{
    let n = T::byte_len() as int;
    T::lemma_type();
    lemma_block_bytes_len(samples);
    lemma_block_bytes_len(samples.drop_last());
    law_sample_comes_back(samples.last());
    assert((i + 1) * n == i * n + n) by (nonlinear_arith);
    assert(0 <= i * n) by (nonlinear_arith)
        requires
            0 <= i,
            0 <= n,
    ;
    assert((samples.len() - 1) * n + n == samples.len() * n) by (nonlinear_arith);
    let head = block_bytes(samples.drop_last());
    let tail = sample_bytes(samples.last());
    if i == samples.len() - 1 {
        assert((block_bytes(samples) + rest).subrange(i * n, (i + 1) * n) =~= tail);
    } else {
        lemma_block_bytes_at(samples.drop_last(), i, tail + rest);
        assert(block_bytes(samples) + rest =~= head + (tail + rest));
        assert((i + 1) * n <= (samples.len() - 1) * n) by (nonlinear_arith)
            requires
                i + 1 <= samples.len() - 1,
                0 <= n,
        ;
    }
}

/// The bytes of a block give the block back.
pub proof fn law_block_comes_back<T: Sample>(samples: Seq<T>, rest: Seq<u8>)
    requires
        samples.len() == 64,
    ensures
        block_bytes(samples).len() == 64 * T::byte_len(),
        parsed_block::<T>(block_bytes(samples) + rest) == samples,
{
    lemma_block_bytes_len(samples);
    let bytes = block_bytes(samples) + rest;
    assert forall|i: int| 0 <= i < 64 implies parsed_block::<T>(bytes)[i] == samples[i] by {
        lemma_block_bytes_at(samples, i, rest);
        law_sample_comes_back(samples[i]);
        samples[i].lemma_bounds();
        T::lemma_with_num(samples[i].num());
        samples[i].lemma_same(parsed_block::<T>(bytes)[i]);
    }
    assert(parsed_block::<T>(bytes) =~= samples);
}

impl<T: Sample> Block<T> {
    /// Reads the samples that bytes start with.
    fn read_samples(bytes: &[u8]) -> (r: Self)
        requires
            64 * T::byte_len() <= bytes@.len(),
        ensures
            r@ == parsed_block::<T>(bytes@),
    {
        proof {
            T::lemma_type();
        }
        let size: usize = T::size();
        let mut data: [T; 64] = [T::zero(); 64];
        let mut i: usize = 0;
        while i < BLOCK_SIZE
            invariant
                i <= 64,
                size == T::byte_len(),
                size == 2 || size == 4,
                64 * T::byte_len() <= bytes@.len(),
                forall|j: int| 0 <= j < i ==> #[trigger] data@[j] == parsed_sample::<T>(bytes@, j),
            decreases 64 - i,
        {
            proof {
                assert((i + 1) * size == i * size + size) by (nonlinear_arith);
                assert(0 <= i * size <= 63 * size) by (nonlinear_arith)
                    requires
                        0 <= i <= 63,
                        0 <= size,
                ;
            }
            let x: T = sample_from_bytes::<T>(
                vstd::slice::slice_subrange(bytes, i * size, i * size + size),
            );
            proof {
                x.lemma_bounds();
                T::lemma_with_num(x.num());
                x.lemma_same(parsed_sample::<T>(bytes@, i as int));
            }
            data[i] = x;
            i = i + 1;
        }
        assert(data@ =~= parsed_block::<T>(bytes@));
        Block(data)
    }

    /// Writes the samples.
    pub fn encode(&self, stream: &mut BitStreamWriter) -> (r: Result<()>)
        ensures
            r is Ok,
            final(stream)@ == old(stream)@ + bytes_bits(block_bytes(self@)),
    {
        let bytes = self.to_bytes();
        stream.write_bytes(bytes.as_slice())
    }

    /// Reads samples.
    pub fn decode(stream: &mut BitStreamReader) -> (r: Result<Self>)
        ensures
            512 * T::byte_len() <= old(stream)@.len() ==> {
                &&& r is Ok
                &&& (r->Ok_0)@ == parsed_block::<T>(
                    bits_bytes(old(stream)@.take(512 * T::byte_len() as int)),
                )
                &&& final(stream)@ == old(stream)@.skip(512 * T::byte_len() as int)
            },
            512 * T::byte_len() > old(stream)@.len() ==> is_eof(r),
    {
        proof {
            T::lemma_type();
        }
        let ghost bits = stream@;
        let bytes = stream.read_to_vec(BLOCK_SIZE * T::size())?;
        proof {
            lemma_bits_bytes_unique(bytes@, bits.take(512 * T::byte_len() as int));
        }
        Ok(Block::read_samples(bytes.as_slice()))
    }
}

impl<T: Sample> ToBytes for Block<T> {
    type Model = Seq<T>;

    open spec fn model(&self) -> Seq<T> {
        self@
    }

    open spec fn bytes_of(model: Seq<T>) -> Seq<u8> {
        block_bytes(model)
    }

    fn to_bytes(&self) -> (bytes: Vec<u8>) {
        let mut bytes: Vec<u8> = Vec::new();
        let mut i: usize = 0;
        assert(self@.take(0) =~= Seq::empty());
        while i < BLOCK_SIZE
            invariant
                i <= 64,
                bytes@ == block_bytes(self@.take(i as int)),
            decreases 64 - i,
        {
            let mut sample = sample_to_bytes(self.0[i]);
            bytes.append(&mut sample);
            assert(self@.take(i + 1).drop_last() =~= self@.take(i as int));
            i = i + 1;
        }
        assert(self@.take(i as int) =~= self@);
        assert(bytes@ == block_bytes(self@));
        assert(Self::bytes_of(self.model()) == block_bytes(self@));
        bytes
    }
}

impl<T: Sample> FromBytes for Block<T> {
    open spec fn parsed(bytes: Seq<u8>) -> Option<(Seq<T>, nat)> {
        if bytes.len() < 64 * T::byte_len() {
            None
        } else {
            Some((parsed_block::<T>(bytes), 64 * T::byte_len()))
        }
    }

    open spec fn readable(model: Seq<T>) -> bool {
        model.len() == 64
    }

    proof fn lemma_readable(&self) {
    }

    proof fn lemma_parsed_fits(bytes: Seq<u8>) {
    }

    proof fn lemma_comes_back(model: Seq<T>, rest: Seq<u8>) {
        T::lemma_type();
        law_block_comes_back(model, rest);
    }

    fn from_bytes(bytes: &[u8]) -> (r: Option<(Self, usize)>) {
        proof {
            T::lemma_type();
        }
        let size: usize = BLOCK_SIZE * T::size();
        if bytes.len() < size {
            None
        } else {
            Some((Block::read_samples(bytes), size))
        }
    }
}

/// A list of blocks.
pub struct Blocks<T>(Vec<Block<T>>);

impl<T> View for Blocks<T> {
    type V = Seq<Block<T>>;

    closed spec fn view(&self) -> Seq<Block<T>> {
        self.0@
    }
}

/// The samples of blocks.
pub open spec fn block_views<T>(blocks: Seq<Block<T>>) -> Seq<Seq<T>> {
    Seq::new(blocks.len(), |i: int| blocks[i]@)
}

/// A block that is added to a list is added to its views.
pub proof fn lemma_block_views_push<T>(blocks: Seq<Block<T>>, block: Block<T>)
    ensures
        block_views(blocks.push(block)) == block_views(blocks).push(block@),
{
    assert(block_views(blocks.push(block)) =~= block_views(blocks).push(block@));
}

/// The bytes of blocks, one after the other.
pub open spec fn blocks_bytes<T: Sample>(blocks: Seq<Seq<T>>) -> Seq<u8>
    decreases blocks.len(),
{
    if blocks.len() == 0 {
        Seq::empty()
    } else {
        blocks_bytes(blocks.drop_last()) + block_bytes(blocks.last())
    }
}

impl<T> Blocks<T> {
    /// The list of the blocks.
    pub fn new(blocks: Vec<Block<T>>) -> (r: Self)
        ensures
            r@ == blocks@,
    {
        Blocks(blocks)
    }

    /// All blocks.
    pub fn as_slice(&self) -> (r: &[Block<T>])
        ensures
            r@ == self@,
    {
        self.0.as_slice()
    }

    /// Hands the blocks back.
    pub fn into_inner(self) -> (r: Vec<Block<T>>)
        ensures
            r@ == self@,
    {
        self.0
    }

    /// The number of blocks.
    pub fn len(&self) -> (r: usize)
        ensures
            r == self@.len(),
    {
        self.0.len()
    }

    /// The block at an index.
    pub fn get(&self, index: usize) -> (r: &Block<T>)
        requires
            index < self@.len(),
        ensures
            *r == self@[index as int],
    {
        &self.0[index]
    }

    /// Starts to go through the blocks.
    pub fn iter(&self) -> (r: BlocksIter<'_, T>)
        ensures
            r.rest() == self@,
    {
        let r = BlocksIter { idx: 0, blocks: self.0.as_slice() };
        assert(self@.skip(0) =~= self@);
        r
    }
}

/// What is left of going through a list of blocks.
pub struct BlocksIter<'a, T> {
    idx: usize,
    blocks: &'a [Block<T>],
}

impl<'a, T> BlocksIter<'a, T> {
    /// The blocks that are still to come.
    pub closed spec fn rest(&self) -> Seq<Block<T>> {
        self.blocks@.skip(self.idx as int)
    }

    #[verifier::type_invariant]
    spec fn index_in_list(self) -> bool {
        self.idx <= self.blocks@.len()
    }

    /// The next block, or none behind the last one.
    pub fn next(&mut self) -> (r: Option<&'a Block<T>>)
        ensures
            old(self).rest().len() == 0 ==> r is None && final(self).rest() == old(self).rest(),
            old(self).rest().len() > 0 ==> r is Some && *r->0 == old(self).rest()[0]
                && final(self).rest() == old(self).rest().skip(1),
    {
        proof {
            use_type_invariant(&*self);
        }
        if self.idx >= self.blocks.len() {
            None
        } else {
            let block: &'a Block<T> = &self.blocks[self.idx];
            self.idx = self.idx + 1;
            assert(self.rest() =~= old(self).rest().skip(1));
            Some(block)
        }
    }
}

/// The number of bytes of a block.
pub open spec fn block_size<T: Sample>() -> int {
    64 * T::byte_len() as int
}

/// The block at place `i` of bytes that hold a list.
pub open spec fn parsed_list_block<T: Sample>(bytes: Seq<u8>, i: int) -> Seq<T> {
    parsed_block::<T>(bytes.skip(8 + i * block_size::<T>()))
}

impl<T: Sample> ToBytes for Blocks<T> {
    type Model = Seq<Seq<T>>;

    open spec fn model(&self) -> Seq<Seq<T>> {
        block_views(self@)
    }

    open spec fn bytes_of(model: Seq<Seq<T>>) -> Seq<u8> {
        be_bytes(model.len(), 8) + blocks_bytes(model)
    }

    fn to_bytes(&self) -> (bytes: Vec<u8>) {
        Blocks::list_to_bytes(self.0.as_slice())
    }
}

impl<T: Sample> Blocks<T> {
    /// The bytes of a list of blocks.
    pub(crate) fn list_to_bytes(blocks: &[Block<T>]) -> (bytes: Vec<u8>)
        ensures
            bytes@ == Self::bytes_of(block_views(blocks@)),
    {
        let mut bytes: Vec<u8> = to_be(blocks.len() as u64, 8);
        let ghost all = block_views(blocks@);
        let ghost head = bytes@;
        let mut i: usize = 0;
        assert(head + blocks_bytes(all.take(0)) =~= head);
        while i < blocks.len()
            invariant
                i <= blocks@.len(),
                all == block_views(blocks@),
                bytes@ == head + blocks_bytes(all.take(i as int)),
            decreases blocks@.len() - i,
        {
            let mut block = blocks[i].to_bytes();
            bytes.append(&mut block);
            assert(all.take(i + 1).drop_last() =~= all.take(i as int));
            assert(bytes@ =~= head + blocks_bytes(all.take(i + 1)));
            i = i + 1;
        }
        assert(all.take(blocks@.len() as int) =~= all);
        bytes
    }
}

pub proof fn lemma_blocks_bytes_len<T: Sample>(blocks: Seq<Seq<T>>)
    requires
        forall|i: int| 0 <= i < blocks.len() ==> (#[trigger] blocks[i]).len() == 64,
    ensures
        blocks_bytes(blocks).len() == blocks.len() * block_size::<T>(),
    decreases blocks.len(),
{
    if blocks.len() > 0 {
        lemma_blocks_bytes_len(blocks.drop_last());
        lemma_block_bytes_len(blocks.last());
        assert((blocks.len() - 1) * block_size::<T>() + block_size::<T>() == blocks.len()
            * block_size::<T>()) by (nonlinear_arith);
    } else {
        assert(0 * block_size::<T>() == 0) by (nonlinear_arith);
    }
}

proof fn lemma_blocks_bytes_at<T: Sample>(blocks: Seq<Seq<T>>, i: int, rest: Seq<u8>)
    requires
        0 <= i < blocks.len(),
        forall|j: int| 0 <= j < blocks.len() ==> (#[trigger] blocks[j]).len() == 64,
    ensures
        parsed_block::<T>((blocks_bytes(blocks) + rest).skip(i * block_size::<T>())) == blocks[i],
    decreases blocks.len(),
{
    let n = block_size::<T>();
    T::lemma_type();
    lemma_blocks_bytes_len(blocks);
    lemma_blocks_bytes_len(blocks.drop_last());
    let head = blocks_bytes(blocks.drop_last());
    let tail = block_bytes(blocks.last());
    assert((blocks.len() - 1) * n + n == blocks.len() * n) by (nonlinear_arith);
    if i == blocks.len() - 1 {
        law_block_comes_back(blocks.last(), rest);
        assert((blocks_bytes(blocks) + rest).skip(i * n) =~= tail + rest);
    } else {
        lemma_blocks_bytes_at(blocks.drop_last(), i, tail + rest);
        assert(blocks_bytes(blocks) + rest =~= head + (tail + rest));
    }
}

impl<T: Sample> FromBytes for Blocks<T> {
    open spec fn parsed(bytes: Seq<u8>) -> Option<(Seq<Seq<T>>, nat)> {
        let count = be_value(bytes.take(8));
        if bytes.len() < 8 || bytes.len() < 8 + count * block_size::<T>() {
            None
        } else {
            Some(
                (
                    Seq::new(count, |i: int| parsed_list_block::<T>(bytes, i)),
                    (8 + count * block_size::<T>()) as nat,
                ),
            )
        }
    }

    open spec fn readable(model: Seq<Seq<T>>) -> bool {
        &&& model.len() <= u64::MAX
        &&& forall|i: int| 0 <= i < model.len() ==> (#[trigger] model[i]).len() == 64
    }

    proof fn lemma_readable(&self) {
        assert(self.0.len() == self.0@.len());
    }

    proof fn lemma_parsed_fits(bytes: Seq<u8>) {
        assert(0 <= be_value(bytes.take(8)) * block_size::<T>()) by (nonlinear_arith)
            requires
                0 <= be_value(bytes.take(8)),
                0 <= block_size::<T>(),
        ;
    }

    proof fn lemma_comes_back(model: Seq<Seq<T>>, rest: Seq<u8>) {
        vstd::arithmetic::power2::lemma2_to64();
        let count = be_bytes(model.len(), 8);
        let bytes = Self::bytes_of(model) + rest;
        lemma_bytes_bits_of_be_bytes(model.len(), 8);
        lemma_be_value_of_be_bytes(model.len(), 8);
        lemma_blocks_bytes_len(model);
        assert(bytes.take(8) =~= count);
        assert(bytes.skip(8) =~= blocks_bytes(model) + rest);
        assert forall|i: int| 0 <= i < model.len() implies parsed_list_block::<T>(bytes, i)
            == model[i] by {
            lemma_blocks_bytes_at(model, i, rest);
            let n = block_size::<T>();
            assert(0 <= i * n <= model.len() * n) by (nonlinear_arith)
                requires
                    0 <= i <= model.len(),
                    0 <= n,
            ;
            assert(bytes.skip(8 + i * n) =~= bytes.skip(8).skip(i * n));
        }
        assert(Seq::new(model.len(), |i: int| parsed_list_block::<T>(bytes, i)) =~= model);
    }

    fn from_bytes(bytes: &[u8]) -> (r: Option<(Self, usize)>) {
        proof {
            T::lemma_type();
        }
        if bytes.len() < 8 {
            return None;
        }
        let count: u64 = from_be(vstd::slice::slice_subrange(bytes, 0, 8));
        proof {
            assert(bytes@.subrange(0, 8) =~= bytes@.take(8));
        }
        let size: usize = BLOCK_SIZE * T::size();
        let mut blocks: Vec<Block<T>> = Vec::new();
        let mut offset: usize = 8;
        let mut i: u64 = 0;
        while i < count
            invariant
                i <= count,
                count == be_value(bytes@.take(8)),
                size == block_size::<T>(),
                size == 128 || size == 256,
                8 <= offset <= bytes@.len(),
                offset == 8 + i * size,
                blocks@.len() == i,
                forall|j: int|
                    0 <= j < i ==> (#[trigger] blocks@[j])@ == parsed_list_block::<T>(bytes@, j),
            decreases count - i,
        {
            proof {
                assert(i * size + size == (i + 1) * size) by (nonlinear_arith);
                assert((i + 1) * size <= count * size) by (nonlinear_arith)
                    requires
                        i + 1 <= count,
                        0 <= size,
                ;
            }
            if bytes.len() - offset < size {
                return None;
            }
            let tail = vstd::slice::slice_subrange(bytes, offset, bytes.len());
            proof {
                assert(tail@ =~= bytes@.skip(offset as int));
            }
            let block: Block<T> = Block::read_samples(tail);
            blocks.push(block);
            offset = offset + size;
            i = i + 1;
        }
        let r: Blocks<T> = Blocks(blocks);
        proof {
            assert(r.model() =~= Seq::new(
                count as nat,
                |i: int| parsed_list_block::<T>(bytes@, i),
            ));
        }
        Some((r, offset))
    }
}

/// The text of a number.
pub open spec fn number_text(n: int) -> Seq<char> {
    if n < 0 {
        "-"@ + decimal_chars((-n) as nat)
    } else {
        decimal_chars(n as nat)
    }
}

/// The text of the first `n` samples, with commas between them.
pub open spec fn samples_text<T: Sample>(samples: Seq<T>, n: int) -> Seq<char>
    decreases n,
{
    if n <= 0 {
        Seq::empty()
    } else if n == 1 {
        number_text(samples[0].num())
    } else {
        samples_text(samples, n - 1) + ", "@ + number_text(samples[n - 1].num())
    }
}

impl<T: Sample> Block<T> {
    /// The block as text.
    pub fn text(&self) -> (r: String)
        ensures
            r@ == "Block { inner: ["@ + samples_text(self@, 64) + "] }"@,
    {
        let mut text = "Block { inner: [".to_owned();
        let ghost head = text@;
        let mut i: usize = 0;
        assert(head + samples_text(self@, 0) =~= head);
        while i < BLOCK_SIZE
            invariant
                i <= 64,
                text@ == head + samples_text(self@, i as int),
            decreases 64 - i,
        {
            let ghost before = text@;
            if i > 0 {
                text.append(", ");
            }
            proof {
                T::lemma_type();
                self@[i as int].lemma_bounds();
            }
            let value: i64 = self.0[i].to_i64();
            if value < 0 {
                text.append("-");
                text.append(crate::error::decimal((-value) as usize).as_str());
            } else {
                text.append(crate::error::decimal(value as usize).as_str());
            }
            assert(text@ =~= head + samples_text(self@, i + 1));
            i = i + 1;
        }
        text.append("] }");
        text
    }
}

/// A block that differs from another one in one sample only is as much further
/// from a third block, or closer to it, as that sample is.
pub proof fn law_one_sample_counts<T: Sample>(a: Seq<T>, b: Seq<T>, i: int, x: T)
    requires
        a.len() == 64,
        0 <= i < 64,
    ensures
        ({
            let was = a[i].num() - b[i].num();
            let is = x.num() - b[i].num();
            abs_difference(a.update(i, x), b, 64) - abs_difference(a, b, 64) == (if is < 0 {
                -is
            } else {
                is
            }) - (if was < 0 {
                -was
            } else {
                was
            })
        }),
{
    lemma_one_sample_counts(a, b, i, x, 64);
}

proof fn lemma_one_sample_counts<T: Sample>(a: Seq<T>, b: Seq<T>, i: int, x: T, n: int)
    requires
        a.len() == 64,
        0 <= i < 64,
        0 <= n <= 64,
    ensures
        ({
            let was = a[i].num() - b[i].num();
            let is = x.num() - b[i].num();
            abs_difference(a.update(i, x), b, n) - abs_difference(a, b, n) == if i < n {
                (if is < 0 {
                    -is
                } else {
                    is
                }) - (if was < 0 {
                    -was
                } else {
                    was
                })
            } else {
                0
            }
        }),
    decreases n,
{
    if n > 0 {
        lemma_one_sample_counts(a, b, i, x, n - 1);
    }
}

/// Blocks are as far from one another in either direction, and a way over a third
/// block is no shorter.
pub proof fn law_distance_is_a_metric<T: Sample>(a: Seq<T>, b: Seq<T>, c: Seq<T>)
    ensures
        0 <= abs_difference(a, b, 64),
        abs_difference(a, b, 64) == abs_difference(b, a, 64),
        abs_difference(a, c, 64) <= abs_difference(a, b, 64) + abs_difference(b, c, 64),
{
    lemma_metric(a, b, c, 64);
    lemma_abs_difference_grows(a, b, 0, 64);
}

proof fn lemma_metric<T: Sample>(a: Seq<T>, b: Seq<T>, c: Seq<T>, n: int)
    ensures
        abs_difference(a, b, n) == abs_difference(b, a, n),
        abs_difference(a, c, n) <= abs_difference(a, b, n) + abs_difference(b, c, n),
    decreases n,
{
    if n > 0 {
        lemma_metric(a, b, c, n - 1);
    }
}

/// A number that is counted up to a limit is the number or the limit, and larger
/// than neither.
pub proof fn law_counting_stops(n: int, limit: int)
    ensures
        capped(n, limit) == n || capped(n, limit) == limit,
        capped(n, limit) <= n,
        capped(n, limit) <= limit,
{
}

/// What is added can be taken away again, sample by sample.
pub proof fn law_sum_and_difference<T: Sample>(a: Seq<T>, b: Seq<T>, sum: Seq<T>, r: Seq<T>)
    requires
        is_sum(a, b, sum),
        is_difference(sum, b, r),
    ensures
        forall|i: int| 0 <= i < 64 ==> (#[trigger] r[i]).num() == a[i].num(),
        forall|i: int|
            0 <= i < 64 ==> (#[trigger] sum[i]).num() - a[i].num() == b[i].num(),
{
}

/// The samples of a block stand one after the other, the highest byte of each one first, in
/// the bits of two's complement.
pub proof fn law_samples_stand_in_order<T: Sample>(samples: Seq<T>, i: int, j: nat)
    requires
        0 <= i < samples.len(),
        j < T::byte_len(),
    ensures
        block_bytes(samples).len() == samples.len() * T::byte_len(),
        ({
            let x = samples[i].num();
            let n = if x < 0 {
                x + pow2(8 * T::byte_len())
            } else {
                x
            };
            &&& 0 <= n < pow2(8 * T::byte_len())
            &&& block_bytes(samples)[i * T::byte_len() + T::byte_len() - 1 - j] == (n as nat
                / pow2(8 * j)) % 256
        }),
{
    T::lemma_type();
    samples[i].lemma_bounds();
    lemma_block_bytes_len(samples);
    lemma_block_bytes_at(samples, i, Seq::empty());
    let len = T::byte_len() as int;
    let bytes = block_bytes(samples);
    assert(bytes + Seq::<u8>::empty() =~= bytes);
    let at = len - 1 - j;
    assert(bytes.subrange(i * len, (i + 1) * len)[at] == bytes[i * len + at]);
    let x = samples[i].num();
    crate::sample::law_sign_is_the_highest_bit(x, T::byte_len());
    crate::bits::law_bytes_go_from_high_to_low(unsigned(x, T::byte_len()), T::byte_len(), j);
}

/// The blocks of a list stand one after the other.
pub proof fn law_blocks_stand_in_order<T: Sample>(blocks: Seq<Seq<T>>, i: int)
    requires
        0 <= i < blocks.len(),
        forall|j: int| 0 <= j < blocks.len() ==> (#[trigger] blocks[j]).len() == 64,
    ensures
        ({
            let size = 64 * T::byte_len();
            &&& blocks_bytes(blocks).len() == blocks.len() * size
            &&& 0 <= i * size <= (i + 1) * size <= blocks.len() * size
            &&& blocks_bytes(blocks).subrange(i * size, (i + 1) * size) == block_bytes(
                blocks[i],
            )
        }),
    decreases blocks.len(),
{
    let size = block_size::<T>();
    lemma_blocks_bytes_len(blocks);
    lemma_blocks_bytes_len(blocks.drop_last());
    lemma_block_bytes_len(blocks.last());
    assert((blocks.len() - 1) * size + size == blocks.len() * size) by (nonlinear_arith);
    assert(0 <= i * size && (i + 1) * size == i * size + size && (i + 1) * size
        <= blocks.len() * size) by (nonlinear_arith)
        requires
            0 <= i < blocks.len(),
            0 <= size,
    ;
    let bytes = blocks_bytes(blocks);
    let head = blocks_bytes(blocks.drop_last());
    if i == blocks.len() - 1 {
        assert(bytes.subrange(i * size, (i + 1) * size) =~= block_bytes(blocks[i]));
    } else {
        law_blocks_stand_in_order(blocks.drop_last(), i);
        assert(bytes.subrange(i * size, (i + 1) * size) =~= head.subrange(
            i * size,
            (i + 1) * size,
        ));
    }
}

/// The text of samples is the text of each one, with a comma and a space between them, and the
/// text of a number is its digits, behind a sign where it is negative.
pub proof fn law_samples_are_listed<T: Sample>(samples: Seq<T>, n: int, value: nat)
    requires
        1 < n <= samples.len(),
        0 < value,
    ensures
        samples_text(samples, n) == samples_text(samples, n - 1) + ", "@ + samples_text(
            seq![samples[n - 1]],
            1,
        ),
        samples_text(seq![samples[n - 1]], 1) == number_text(samples[n - 1].num()),
        number_text(value as int) == decimal_chars(value),
        number_text(-(value as int)) == "-"@ + decimal_chars(value),
{
}

} // verus!
