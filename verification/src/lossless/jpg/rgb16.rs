//! Samples of sixteen bits.
use vstd::prelude::*;

use super::prediction::median;
use super::LosslessSample;
use crate::bitstream::{BitStreamReader, BitStreamWriter};
use crate::error::Result;
use crate::rice::depth16::{decode, encode, k};

verus! {

/// What a sample is expected to be, given its neighbours to the left, above to
/// the left, and above.
pub fn sample_prediction(a: u16, c: u16, b: u16) -> (r: i32)
    ensures
        r == median(a as int, c as int, b as int),
{
    let low: u16 = if a <= b {
        a
    } else {
        b
    };
    let high: u16 = if a <= b {
        b
    } else {
        a
    };
    if c >= high {
        low as i32
    } else if c <= low {
        high as i32
    } else {
        a as i32 + b as i32 - c as i32
    }
}

impl LosslessSample for u16 {
    open spec fn max() -> int {
        0xffff
    }

    open spec fn stride_width() -> nat {
        32
    }

    open spec fn num(self) -> int {
        self as int
    }

    proof fn lemma_range(self) {
    }

    fn zero() -> u16 {
        0
    }

    fn zeros(count: usize) -> Vec<u16> {
        vec![0; count]
    }

    fn low_bit_count(a: u16, c: u16, b: u16, d: u16) -> u32 {
        k(a, c, b, d)
    }

    fn predict(a: u16, c: u16, b: u16) -> i32 {
        sample_prediction(a, c, b)
    }

    fn write_sample(k: u32, x: u16, prediction: i32, stream: &mut BitStreamWriter) -> Result<()> {
        encode(k, x as i32 - prediction, stream)
    }

    fn read_sample(k: u32, prediction: i32, stream: &mut BitStreamReader) -> Result<u16> {
        let residual: i32 = decode(k, stream)?;
        let shifted: i64 = prediction as i64 + residual as i64 + 0x1_0000_0000;
        proof {
            assert(shifted as int % 0x1_0000 == (prediction + residual) % 0x1_0000);
        }
        Ok((shifted % 0x1_0000) as u16)
    }

    fn write_stride(stride: usize, stream: &mut BitStreamWriter) -> Result<()> {
        proof {
            vstd::arithmetic::power2::lemma2_to64();
            crate::bits::lemma_be_bits_mod(stride as nat, 32);
        }
        stream.write((stride as u64 % 0x1_0000_0000) as u32)
    }

    fn read_stride(stream: &mut BitStreamReader) -> Result<Option<u64>> {
        match stream.read::<u32>()? {
            Some(stride) => Ok(Some(stride as u64)),
            None => Ok(None),
        }
    }
}

} // verus!
