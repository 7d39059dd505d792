//! Rice codes: a number is cut into a high part, written as so many zeros and
//! a one, and `k` low bits behind it.
use vstd::arithmetic::div_mod::{lemma_fundamental_div_mod, lemma_small_mod};
use vstd::arithmetic::power2::{
    lemma2_to64, lemma_pow2_adds, lemma_pow2_pos, lemma_pow2_strictly_increases, pow2,
};
use vstd::bits::lemma_u64_shl_is_mul;
use vstd::prelude::*;

use crate::bits::{
    be_bits, bits_value, leading_zeros, lemma_be_bits_len, lemma_be_bits_mod,
    lemma_be_bits_of_bits_value, lemma_bits_value_of_be_bits, lemma_leading_zeros_bounds,
    lemma_leading_zeros_of_run, zeros,
};
use crate::bitstream::{
    after_short_read, is_short_read_settled, last_zeros, BitStreamReader, BitStreamWriter,
};
use crate::error::{is_eof, Result};

pub mod depth16;
pub mod depth8;

verus! {

/// Signed numbers as natural ones, small in size first: 0, -1, 1, -2, 2, ...
pub open spec fn fold(x: int) -> nat {
    if x >= 0 {
        (2 * x) as nat
    } else {
        (-2 * x - 1) as nat
    }
}

/// The signed number at a place of that order, for a place written in 32
/// bits: the upper half stands for negative places.
pub open spec fn unfold(n: nat) -> int {
    let signed = if n < 0x8000_0000 {
        n as int
    } else {
        n - 0x1_0000_0000
    };
    if n % 2 == 0 {
        signed / 2
    } else {
        -(signed / 2) - 1
    }
}

/// The Rice code of a number.
pub open spec fn rice_bits(k: nat, n: nat) -> Seq<bool> {
    zeros(n / pow2(k)).push(true) + be_bits(n, k)
}

/// What follows the one that ends the zeros.
pub open spec fn behind_stop(bits: Seq<bool>) -> Seq<bool> {
    bits.skip(leading_zeros(bits) as int + 1)
}

/// The number that a stream starts with, in 32 bits. Where the stream ends
/// inside the low bits they count as zero.
pub open spec fn rice_number(k: nat, bits: Seq<bool>) -> nat {
    let low = if k <= behind_stop(bits).len() {
        bits_value(behind_stop(bits).take(k as int))
    } else {
        0
    };
    ((leading_zeros(bits) * pow2(k)) % 0x1_0000_0000 + low) as nat
}

/// The whole code is there: zeros, a one, and `k` low bits.
pub open spec fn holds_rice(k: nat, bits: Seq<bool>) -> bool {
    leading_zeros(bits) < bits.len() && k <= behind_stop(bits).len()
}

/// What follows the code that a stream starts with.
pub open spec fn behind_rice(k: nat, bits: Seq<bool>) -> Seq<bool> {
    behind_stop(bits).skip(k as int)
}

/// Whether it is settled what a reader has left behind a code: the code is
/// whole, or what a short read of the low bits leaves is settled.
pub open spec fn is_rice_settled(k: nat, bits: Seq<bool>) -> bool {
    holds_rice(k, bits) || is_short_read_settled(
        behind_stop(bits),
        behind_stop(bits).len() as int % 8,
        k as int,
    )
}

/// What a reader has left behind a code whose low bits may be cut short.
pub open spec fn left_behind_rice(k: nat, bits: Seq<bool>) -> Seq<bool> {
    if holds_rice(k, bits) {
        behind_rice(k, bits)
    } else {
        after_short_read(behind_stop(bits), behind_stop(bits).len() as int % 8, k as int)
    }
}

/// The least `k` such that three times two to the `k` is not below
/// `activity`.
pub open spec fn is_rice_parameter(k: nat, activity: int) -> bool {
    3 * pow2(k) >= activity && (k > 0 ==> 3 * pow2((k - 1) as nat) < activity)
}

/// How much four neighbours differ.
pub open spec fn activity(a: int, c: int, b: int, d: int) -> int {
    distance(d, b) + distance(b, c) + distance(c, a)
}

pub open spec fn distance(x: int, y: int) -> int {
    if x >= y {
        x - y
    } else {
        y - x
    }
}

pub proof fn lemma_unfold_of_fold(x: int)
    requires
        -0x4000_0000 <= x < 0x4000_0000,
    ensures
        fold(x) < 0x8000_0000,
        unfold(fold(x)) == x,
{
}

/// Two parameters for the same activity are the same.
pub proof fn lemma_rice_parameter_unique(k: nat, l: nat, activity: int)
    requires
        is_rice_parameter(k, activity),
        is_rice_parameter(l, activity),
    ensures
        k == l,
{
    if k < l {
        if k < l - 1 {
            lemma_pow2_strictly_increases(k, (l - 1) as nat);
        }
    } else if l < k {
        if l < k - 1 {
            lemma_pow2_strictly_increases(l, (k - 1) as nat);
        }
    }
}

/// What a number's Rice code is read back as: the number, and what came
/// behind it is left.
pub proof fn law_rice_comes_back(k: nat, n: nat, rest: Seq<bool>)
    requires
        k < 32,
        n < 0x1_0000_0000,
    ensures
        holds_rice(k, rice_bits(k, n) + rest),
        leading_zeros(rice_bits(k, n) + rest) == n / pow2(k),
        rice_number(k, rice_bits(k, n) + rest) == n,
        behind_rice(k, rice_bits(k, n) + rest) == rest,
{
    let p = pow2(k);
    lemma_pow2_pos(k);
    let high = n / p;
    let stream = rice_bits(k, n) + rest;
    let low = be_bits(n, k);
    lemma_be_bits_len(n, k);
    assert(stream =~= zeros(high).push(true) + (low + rest));
    lemma_leading_zeros_of_run(high, low + rest);
    assert(behind_stop(stream) =~= low + rest);
    assert(behind_stop(stream).take(k as int) =~= low);
    assert(behind_rice(k, stream) =~= rest);
    lemma_be_bits_mod(n, k);
    lemma_bits_value_of_be_bits(n % p, k);
    lemma_fundamental_div_mod(n as int, p as int);
    assert(high * p == p * high) by (nonlinear_arith);
    assert(high * p <= n);
    lemma_small_mod((high * p) as nat, 0x1_0000_0000);
}

/// Writes a number with its Rice code.
pub(crate) fn write_rice(k: u32, n: u32, stream: &mut BitStreamWriter) -> (r: Result<()>)
    requires
        k < 32,
    ensures
        r is Ok,
        final(stream)@ == old(stream)@ + rice_bits(k as nat, n as nat),
{
    let high: u32 = n >> k;
    proof {
        vstd::bits::lemma_u32_shr_is_div(n, k);
        lemma_pow2_pos(k as nat);
    }
    let ghost start = stream@;
    let mut remaining: u32 = high;
    assert(start + zeros(0) =~= start);
    while remaining > 0
        invariant
            remaining <= high,
            stream@ == start + zeros((high - remaining) as nat),
        decreases remaining,
    {
        let chunk: u32 = if remaining < 64 {
            remaining
        } else {
            64
        };
        let ghost before = stream@;
        proof {
            lemma_pow2_pos(chunk as nat);
            lemma_be_bits_zero(chunk as nat);
        }
        stream.write_bits(chunk, 0u64)?;
        remaining = remaining - chunk;
        assert(stream@ =~= start + zeros((high - remaining) as nat));
    }
    stream.write_bit(true)?;
    let ghost stopped = stream@;
    assert(stopped =~= start + zeros(high as nat).push(true));
    if k > 0 {
        proof {
            lemma_one_shl(k);
            lemma_be_bits_mod(n as nat, k as nat);
        }
        let low: u32 = n % (1u32 << k);
        stream.write_bits(k, low)?;
        assert(stream@ =~= start + rice_bits(k as nat, n as nat));
    } else {
        assert(stream@ =~= start + rice_bits(k as nat, n as nat));
    }
    Ok(())
}

proof fn lemma_one_shl(k: u32)
    requires
        k < 32,
    ensures
        (1u32 << k) == pow2(k as nat),
        (1u32 << k) > 0,
{
    lemma2_to64();
    if k < 31 {
        lemma_pow2_strictly_increases(k as nat, 31);
    }
    vstd::bits::lemma_u32_shl_is_mul(1, k);
    lemma_pow2_pos(k as nat);
}

proof fn lemma_be_bits_zero(width: nat)
    ensures
        be_bits(0, width) == zeros(width),
    decreases width,
{
    if width > 0 {
        lemma_be_bits_zero((width - 1) as nat);
    }
    assert(be_bits(0, width) =~= zeros(width));
}

/// Reads a Rice code as a number. A stream that ends inside the low bits gives
/// zero for them.
pub(crate) fn read_rice(k: u32, stream: &mut BitStreamReader) -> (r: Result<u32>)
    requires
        k < 32,
        leading_zeros(old(stream)@) <= u32::MAX,
    ensures
        leading_zeros(old(stream)@) == old(stream)@.len() ==> is_eof(r)
            && final(stream)@ == last_zeros(old(stream)@.len()),
        leading_zeros(old(stream)@) < old(stream)@.len() ==> r is Ok && r->Ok_0 as nat
            == rice_number(k as nat, old(stream)@),
        r is Ok && !holds_rice(k as nat, old(stream)@) ==> final(stream)@.len() < k,
        r is Ok && is_rice_settled(k as nat, old(stream)@) ==> final(stream)@ == left_behind_rice(
            k as nat,
            old(stream)@,
        ),
{
    let ghost start = stream@;
    proof {
        lemma_leading_zeros_bounds(start);
        lemma_pow2_pos(k as nat);
        lemma2_to64();
        lemma_pow2_adds(k as nat, (32 - k) as nat);
        lemma_pow2_pos((32 - k) as nat);
        if k < 31 {
            lemma_pow2_strictly_increases(k as nat, 31);
        }
    }
    let high: u32 = stream.count_leading_zeros()? as u32;
    assert(stream@ == behind_stop(start));
    let low: u32 = if k == 0 {
        assert(behind_stop(start).skip(0) =~= behind_stop(start));
        assert(bits_value(behind_stop(start).take(0)) == 0);
        0
    } else {
        match stream.read_bits::<u32>(k)? {
            Some(low) => low,
            None => 0,
        }
    };
    proof {
        let p = pow2(k as nat);
        if k <= behind_stop(start).len() {
            lemma_be_bits_of_bits_value(behind_stop(start).take(k as int));
        }
        assert(low < p);
        assert(high * p <= 0xffff_ffff * 0x8000_0000) by (nonlinear_arith)
            requires
                0 <= high <= 0xffff_ffff,
                0 <= p <= 0x8000_0000,
        ;
        lemma_u64_shl_is_mul(high as u64, k as u64);
        lemma_shifted_fits(high as nat, p, pow2((32 - k) as nat));
    }
    let shifted: u64 = ((high as u64) << (k as u64)) % 0x1_0000_0000;
    Ok(shifted as u32 + low)
}

/// A multiple of `p`, cut to a multiple `p * q`, leaves room for less than
/// `p`.
proof fn lemma_shifted_fits(high: nat, p: nat, q: nat)
    requires
        p > 0,
        q > 0,
        p * q == 0x1_0000_0000,
    ensures
        (high * p) % 0x1_0000_0000 + p <= 0x1_0000_0000,
{
    vstd::arithmetic::div_mod::lemma_truncate_middle(high as int, p as int, q as int);
    assert((p * high) % (p * q) == p * (high % q));
    assert(p * high == high * p) by (nonlinear_arith);
    assert(high % q <= q - 1);
    vstd::arithmetic::mul::lemma_mul_inequality((high % q) as int, q - 1, p as int);
    vstd::arithmetic::mul::lemma_mul_is_commutative((high % q) as int, p as int);
    vstd::arithmetic::mul::lemma_mul_is_commutative(q - 1, p as int);
    assert(p * (q - 1) == p * q - p) by (nonlinear_arith);
}

/// The signed number at a place.
pub(crate) fn unfold_number(n: u32) -> (x: i32)
    ensures
        x == unfold(n as nat),
{
    let half: i32 = if n < 0x8000_0000 {
        (n / 2) as i32
    } else {
        ((n / 2) as i64 - 0x8000_0000) as i32
    };
    if n % 2 == 0 {
        half
    } else {
        -half - 1
    }
}

/// The least `k` such that three times two to the `k` is not below
/// `activity`.
pub(crate) fn rice_parameter(activity: u32) -> (k: u32)
    requires
        activity <= 0x3_0000,
    ensures
        is_rice_parameter(k as nat, activity as int),
        k <= 16,
{
    let mut k: u32 = 0;
    let mut bound: u32 = 3;
    proof {
        lemma2_to64();
    }
    while bound < activity
        invariant
            activity <= 0x3_0000,
            k <= 16,
            bound == 3 * pow2(k as nat),
            k > 0 ==> 3 * pow2((k - 1) as nat) < activity,
        decreases 17 - k,
    {
        proof {
            lemma2_to64();
            if k == 16 {
                assert(pow2(16) == 0x1_0000);
            } else if k < 16 {
                lemma_pow2_strictly_increases(k as nat, 16);
            }
            vstd::arithmetic::power2::lemma_pow2_unfold((k + 1) as nat);
        }
        bound = bound * 2;
        k = k + 1;
    }
    k
}

/// Numbers are numbered by their size, a negative one before the positive one of the same
/// size.
pub proof fn law_fold_goes_by_size(x: int, y: int)
    ensures
        fold(0) == 0,
        x > 0 ==> fold(-x) + 1 == fold(x),
        x >= 0 ==> fold(-x - 1) == fold(x) + 1,
        fold(x) == fold(y) ==> x == y,
        x >= 0 && y >= 0 && x < y ==> fold(x) < fold(-y) < fold(y),
{
}

/// A code is a run of zeros, a one and the low bits: read as a number it is the low bits
/// with a one in front.
pub proof fn law_rice_code_is_short(k: nat, n: nat)
    ensures
        rice_bits(k, n).len() == n / pow2(k) + 1 + k,
        bits_value(rice_bits(k, n)) == pow2(k) + n % pow2(k),
{
    lemma_pow2_pos(k);
    lemma_be_bits_len(n, k);
    let low = be_bits(n, k);
    let run = zeros(n / pow2(k));
    let high = run + seq![true];
    assert(run.push(true) =~= high);
    crate::bits::law_digits_add_up(high, low);
    crate::bits::law_digits_add_up(run, seq![true]);
    lemma_zeros_count_nothing(n / pow2(k));
    lemma2_to64();
    assert(bits_value(run) * pow2(1) == 0) by (nonlinear_arith)
        requires
            bits_value(run) == 0,
    ;
    assert(bits_value(high) == 1);
    lemma_be_bits_mod(n, k);
    vstd::arithmetic::div_mod::lemma_mod_bound(n as int, pow2(k) as int);
    lemma_bits_value_of_be_bits(n % pow2(k), k);
    assert(rice_bits(k, n) =~= high + low);
    assert(1 * pow2(k) == pow2(k));
}

proof fn lemma_zeros_count_nothing(count: nat)
    ensures
        bits_value(zeros(count)) == 0,
    decreases count,
{
    if count > 0 {
        lemma_zeros_count_nothing((count - 1) as nat);
        assert(zeros(count).drop_last() =~= zeros((count - 1) as nat));
    }
}

/// The number of low bits is the least one with which three times its values reach the
/// activity.
pub proof fn law_least_parameter_is_taken(k: nat, activity: int, other: nat)
    requires
        is_rice_parameter(k, activity),
    ensures
        activity <= 3 * pow2(k),
        activity <= 3 * pow2(other) ==> k <= other,
{
    if other < k {
        if other < k - 1 {
            vstd::arithmetic::power2::lemma_pow2_strictly_increases(other, (k - 1) as nat);
        }
    }
}

/// The activity is the length of the way over the neighbours: from above right to above,
/// to above left, to the left. It is the same backwards, no less than the way from end to
/// end, and the sum of its parts.
pub proof fn law_activity_is_a_way(a: int, c: int, b: int, d: int)
    ensures
        activity(a, c, b, d) == activity(a, c, c, c) + activity(c, c, b, b) + activity(b, b, b, d),
        activity(a, c, c, c) == activity(c, a, a, a),
        a >= c ==> activity(a, c, c, c) == a - c && activity(c, c, a, a) == a - c && activity(
            c,
            c,
            c,
            a,
        ) == a - c,
        activity(a, c, b, d) == activity(d, b, c, a),
        activity(a, c, b, d) >= a - d,
{
}

} // verus!
