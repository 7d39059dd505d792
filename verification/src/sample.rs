//! The signed integers that blocks hold.
use vstd::arithmetic::power2::{lemma2_to64, pow2};
use vstd::prelude::*;

use crate::bits::{be_bytes, be_value, lemma_be_bytes_of_be_value, lemma_be_value_of_be_bytes};
use crate::bytes::{from_be, to_be};

verus! {

/// Division that rounds towards zero.
pub open spec fn quotient(a: int, b: int) -> int {
    let size = magnitude(a) / magnitude(b);
    if (a < 0) == (b < 0) {
        size
    } else {
        -size
    }
}

/// The size of a number.
pub open spec fn magnitude(a: int) -> int {
    if a < 0 {
        -a
    } else {
        a
    }
}

/// A number brought between two others.
pub open spec fn clamped(x: int, low: int, high: int) -> int {
    if x < low {
        low
    } else if x > high {
        high
    } else {
        x
    }
}

/// A signed number in `len` bytes, as the unsigned one with the same bits.
pub open spec fn unsigned(x: int, len: nat) -> nat {
    if x < 0 {
        (x + pow2(8 * len)) as nat
    } else {
        x as nat
    }
}

/// The signed number in `len` bytes that has the bits of an unsigned one.
pub open spec fn signed(n: nat, len: nat) -> int {
    if 2 * n >= pow2(8 * len) {
        n - pow2(8 * len)
    } else {
        n as int
    }
}

/// A sample of a block.
pub trait Sample: Copy {
    /// The number that a sample stands for.
    spec fn num(self) -> int;

    /// The smallest sample.
    spec fn lo() -> int;

    /// The largest sample.
    spec fn hi() -> int;

    /// The number of bytes of a sample.
    spec fn byte_len() -> nat;

    /// The sample that stands for a number.
    spec fn with_num(n: int) -> Self;

    proof fn lemma_bounds(self)
        ensures
            Self::lo() <= self.num() <= Self::hi(),
    ;

    proof fn lemma_with_num(n: int)
        requires
            Self::lo() <= n <= Self::hi(),
        ensures
            Self::with_num(n).num() == n,
    ;

    /// What is known of the range.
    proof fn lemma_type()
        ensures
            Self::byte_len() == 2 || Self::byte_len() == 4,
            2 * (Self::hi() + 1) == pow2(8 * Self::byte_len()),
            Self::lo() == -Self::hi() - 1,
            0x7fff <= Self::hi() <= 0x7fff_ffff,
    ;

    /// Samples with the same number are the same.
    proof fn lemma_same(self, other: Self)
        requires
            self.num() == other.num(),
        ensures
            self == other,
    ;

    fn zero() -> (r: Self)
        ensures
            r.num() == 0,
    ;

    fn to_i64(self) -> (r: i64)
        ensures
            r == self.num(),
    ;

    fn from_i64(value: i64) -> (r: Self)
        requires
            Self::lo() <= value <= Self::hi(),
        ensures
            r.num() == value,
    ;

    fn size() -> (r: usize)
        ensures
            r == Self::byte_len(),
    ;

    fn min_value() -> (r: i64)
        ensures
            r == Self::lo(),
    ;

    fn max_value() -> (r: i64)
        ensures
            r == Self::hi(),
    ;
}

impl Sample for i16 {
    open spec fn num(self) -> int {
        self as int
    }

    open spec fn lo() -> int {
        -0x8000
    }

    open spec fn hi() -> int {
        0x7fff
    }

    open spec fn byte_len() -> nat {
        2
    }

    open spec fn with_num(n: int) -> Self {
        n as i16
    }

    proof fn lemma_bounds(self) {
    }

    proof fn lemma_with_num(n: int) {
    }

    proof fn lemma_type() {
        lemma2_to64();
    }

    proof fn lemma_same(self, other: Self) {
    }

    fn zero() -> i16 {
        0
    }

    fn to_i64(self) -> i64 {
        self as i64
    }

    fn from_i64(value: i64) -> i16 {
        value as i16
    }

    fn size() -> usize {
        2
    }

    fn min_value() -> i64 {
        -0x8000
    }

    fn max_value() -> i64 {
        0x7fff
    }
}

impl Sample for i32 {
    open spec fn num(self) -> int {
        self as int
    }

    open spec fn lo() -> int {
        -0x8000_0000
    }

    open spec fn hi() -> int {
        0x7fff_ffff
    }

    open spec fn byte_len() -> nat {
        4
    }

    open spec fn with_num(n: int) -> Self {
        n as i32
    }

    proof fn lemma_bounds(self) {
    }

    proof fn lemma_with_num(n: int) {
    }

    proof fn lemma_type() {
        lemma2_to64();
    }

    proof fn lemma_same(self, other: Self) {
    }

    fn zero() -> i32 {
        0
    }

    fn to_i64(self) -> i64 {
        self as i64
    }

    fn from_i64(value: i64) -> i32 {
        value as i32
    }

    fn size() -> usize {
        4
    }

    fn min_value() -> i64 {
        -0x8000_0000
    }

    fn max_value() -> i64 {
        0x7fff_ffff
    }
}

/// The bytes of a sample, most significant first.
pub open spec fn sample_bytes<T: Sample>(x: T) -> Seq<u8> {
    be_bytes(unsigned(x.num(), T::byte_len()), T::byte_len())
}

/// The number that the bytes of a sample stand for.
pub open spec fn sample_value<T: Sample>(bytes: Seq<u8>) -> int {
    signed(be_value(bytes), T::byte_len())
}

/// Divides and rounds towards zero.
pub(crate) fn divide(a: i64, b: i64) -> (r: i64)
    requires
        b != 0,
        -0x8000_0000 <= a <= 0x7fff_ffff,
        -0x8000_0000 <= b <= 0x7fff_ffff,
    ensures
        r == quotient(a as int, b as int),
        -0x8000_0000 <= r <= 0x8000_0000,
{
    let x: u64 = if a < 0 {
        (-a) as u64
    } else {
        a as u64
    };
    let y: u64 = if b < 0 {
        (-b) as u64
    } else {
        b as u64
    };
    proof {
        vstd::arithmetic::div_mod::lemma_div_is_ordered_by_denominator(x as int, 1, y as int);
        vstd::arithmetic::div_mod::lemma_div_pos_is_pos(x as int, y as int);
    }
    let size: i64 = (x / y) as i64;
    if (a < 0) == (b < 0) {
        size
    } else {
        -size
    }
}

proof fn lemma_unsigned_fits<T: Sample>(x: T)
    ensures
        unsigned(x.num(), T::byte_len()) < pow2(8 * T::byte_len()),
        pow2(8 * T::byte_len()) <= 0x1_0000_0000,
{
    lemma2_to64();
    T::lemma_type();
    x.lemma_bounds();
}

/// The bytes of a sample.
pub(crate) fn sample_to_bytes<T: Sample>(x: T) -> (bytes: Vec<u8>)
    ensures
        bytes@ == sample_bytes(x),
        bytes@.len() == T::byte_len(),
{
    proof {
        T::lemma_type();
        x.lemma_bounds();
        lemma_unsigned_fits(x);
    }
    let value: i64 = x.to_i64();
    let span: i64 = 2 * (T::max_value() + 1);
    let value: u64 = if value < 0 {
        (value + span) as u64
    } else {
        value as u64
    };
    to_be(value, T::size())
}

/// The sample of its bytes.
pub(crate) fn sample_from_bytes<T: Sample>(bytes: &[u8]) -> (x: T)
    requires
        bytes@.len() == T::byte_len(),
    ensures
        x.num() == sample_value::<T>(bytes@),
{
    proof {
        T::lemma_type();
        lemma_be_bytes_of_be_value(bytes@);
    }
    let value: u64 = from_be(bytes);
    let half: i64 = T::max_value() + 1;
    if value as i64 >= half {
        T::from_i64(value as i64 - 2 * half)
    } else {
        T::from_i64(value as i64)
    }
}

/// The bytes of a sample give the sample back.
pub proof fn law_sample_comes_back<T: Sample>(x: T)
    ensures
        sample_bytes(x).len() == T::byte_len(),
        sample_value::<T>(sample_bytes(x)) == x.num(),
{
    T::lemma_type();
    x.lemma_bounds();
    lemma_unsigned_fits(x);
    lemma_be_value_of_be_bytes(unsigned(x.num(), T::byte_len()), T::byte_len());
    crate::bits::lemma_bytes_bits_of_be_bytes(unsigned(x.num(), T::byte_len()), T::byte_len());
}

/// Division leaves a rest that is smaller than the divisor and has the sign of
/// what is divided.
pub proof fn law_quotient_leaves_a_rest(a: int, b: int)
    requires
        b != 0,
    ensures
        ({
            let rest = a - quotient(a, b) * b;
            &&& a >= 0 && b > 0 ==> 0 <= rest < b
            &&& a >= 0 && b < 0 ==> 0 <= rest < -b
            &&& a < 0 && b > 0 ==> -b < rest <= 0
            &&& a < 0 && b < 0 ==> b < rest <= 0
        }),
{
    let x = if a < 0 {
        -a
    } else {
        a
    };
    let y = if b < 0 {
        -b
    } else {
        b
    };
    let q = quotient(a, b);
    vstd::arithmetic::div_mod::lemma_fundamental_div_mod(x, y);
    vstd::arithmetic::div_mod::lemma_mod_bound(x, y);
    assert(q == x / y || q == -(x / y));
    let size = x / y;
    assert(q * b == if a < 0 {
        -(y * size)
    } else {
        y * size
    }) by (nonlinear_arith)
        requires
            (a < 0) == (b < 0) ==> q == size,
            (a < 0) != (b < 0) ==> q == -size,
            b < 0 ==> y == -b,
            b >= 0 ==> y == b,
    ;
}

/// A number brought between two others lies between them, and no number there is
/// closer to it.
pub proof fn law_clamped_is_closest(x: int, low: int, high: int, other: int)
    requires
        low <= other <= high,
    ensures
        low <= clamped(x, low, high) <= high,
        x <= other ==> x <= clamped(x, low, high) <= other,
        x >= other ==> x >= clamped(x, low, high) >= other,
{
}

/// A signed number and the unsigned one with the same bits differ by nothing or by
/// the number of bit patterns, and the highest bit tells which.
pub proof fn law_sign_is_the_highest_bit(x: int, len: nat)
    requires
        -pow2(8 * len) <= 2 * x < pow2(8 * len),
    ensures
        0 <= unsigned(x, len) < pow2(8 * len),
        x >= 0 ==> unsigned(x, len) == x,
        x < 0 ==> unsigned(x, len) - x == pow2(8 * len),
        signed(unsigned(x, len), len) == x,
{
    vstd::arithmetic::power2::lemma_pow2_pos(8 * len);
}

} // verus!
