//! Rice codes for residuals of 8-bit samples.
use vstd::prelude::*;

use super::{
    activity, behind_rice, fold, holds_rice, is_rice_parameter, is_rice_settled, left_behind_rice,
    read_rice, rice_bits, rice_number, rice_parameter, unfold, unfold_number, write_rice,
};
use crate::bits::leading_zeros;
use crate::bitstream::{last_zeros, BitStreamReader, BitStreamWriter};
use crate::error::{is_eof, Result};

verus! {

/// The low 16 bits of a number, as a signed number.
pub open spec fn low16(x: int) -> int {
    let low = x % 0x1_0000;
    if low < 0x8000 {
        low
    } else {
        low - 0x1_0000
    }
}

/// Writes a residual.
pub fn encode(k: u16, x: i16, stream: &mut BitStreamWriter) -> (r: Result<()>)
    requires
        k < 32,
    ensures
        r is Ok,
        final(stream)@ == old(stream)@ + rice_bits(k as nat, fold(x as int)),
{
    let n: u32 = if x >= 0 {
        2 * (x as u32)
    } else {
        2 * (-(x + 1)) as u32 + 1
    };
    write_rice(k as u32, n, stream)
}

/// Reads a residual. A stream that ends inside the low bits gives zero for
/// them.
pub fn decode(k: u16, stream: &mut BitStreamReader) -> (r: Result<i16>)
    requires
        k < 32,
        leading_zeros(old(stream)@) <= u32::MAX,
    ensures
        leading_zeros(old(stream)@) == old(stream)@.len() ==> is_eof(r)
            && final(stream)@ == last_zeros(old(stream)@.len()),
        leading_zeros(old(stream)@) < old(stream)@.len() ==> r is Ok && r->Ok_0 as int == low16(
            unfold(rice_number(k as nat, old(stream)@)),
        ),
        r is Ok && !holds_rice(k as nat, old(stream)@) ==> final(stream)@.len() < k,
        r is Ok && is_rice_settled(k as nat, old(stream)@) ==> final(stream)@ == left_behind_rice(
            k as nat,
            old(stream)@,
        ),
{
    let n: u32 = read_rice(k as u32, stream)?;
    let x: i32 = unfold_number(n);
    let low: i64 = (x as i64 + 0x1_0000_0000) % 0x1_0000;
    proof {
        assert((x as int + 0x1_0000_0000) % 0x1_0000 == (x as int) % 0x1_0000);
    }
    Ok(
        if low < 0x8000 {
            low as i16
        } else {
            (low - 0x1_0000) as i16
        },
    )
}

/// The number of low bits for a sample with these neighbours: left, above to
/// the left, above, above to the right.
pub fn k(a: u8, c: u8, b: u8, d: u8) -> (k: u16)
    ensures
        is_rice_parameter(k as nat, activity(a as int, c as int, b as int, d as int)),
        k <= 16,
{
    let db: u8 = if d >= b {
        d - b
    } else {
        b - d
    };
    let bc: u8 = if b >= c {
        b - c
    } else {
        c - b
    };
    let ca: u8 = if c >= a {
        c - a
    } else {
        a - c
    };
    rice_parameter(db as u32 + bc as u32 + ca as u32) as u16
}

/// A residual that was written is read back with the same number of low bits,
/// and the stream goes on behind it.
pub proof fn law_residual_comes_back(k: u16, x: i16, rest: Seq<bool>)
    requires
        k < 32,
    ensures
        ({
            let stream = rice_bits(k as nat, fold(x as int)) + rest;
            &&& leading_zeros(stream) <= u32::MAX
            &&& holds_rice(k as nat, stream)
            &&& low16(unfold(rice_number(k as nat, stream))) == x
            &&& behind_rice(k as nat, stream) == rest
        }),
{
    super::lemma_unfold_of_fold(x as int);
    super::law_rice_comes_back(k as nat, fold(x as int), rest);
    vstd::arithmetic::power2::lemma_pow2_pos(k as nat);
    vstd::arithmetic::div_mod::lemma_div_is_ordered_by_denominator(
        fold(x as int) as int,
        1,
        vstd::arithmetic::power2::pow2(k as nat) as int,
    );
}

} // verus!
