//! Samples of eight bits.
use vstd::prelude::*;

use super::prediction::median;
use super::LosslessSample;
use crate::bitstream::{BitStreamReader, BitStreamWriter};
use crate::error::Result;
use crate::rice::depth8::{decode, encode, k};

verus! {

/// What a sample is expected to be, given its neighbours to the left, above to
/// the left, and above.
pub fn sample_prediction(a: u8, c: u8, b: u8) -> (r: i16)
    ensures
        r == median(a as int, c as int, b as int),
{
    let low: u8 = if a <= b {
        a
    } else {
        b
    };
    let high: u8 = if a <= b {
        b
    } else {
        a
    };
    if c >= high {
        low as i16
    } else if c <= low {
        high as i16
    } else {
        a as i16 + b as i16 - c as i16
    }
}

impl LosslessSample for u8 {
    open spec fn max() -> int {
        255
    }

    open spec fn stride_width() -> nat {
        64
    }

    open spec fn num(self) -> int {
        self as int
    }

    proof fn lemma_range(self) {
    }

    fn zero() -> u8 {
        0
    }

    fn zeros(count: usize) -> Vec<u8> {
        vec![0; count]
    }

    fn low_bit_count(a: u8, c: u8, b: u8, d: u8) -> u32 {
        k(a, c, b, d) as u32
    }

    fn predict(a: u8, c: u8, b: u8) -> i32 {
        sample_prediction(a, c, b) as i32
    }

    fn write_sample(k: u32, x: u8, prediction: i32, stream: &mut BitStreamWriter) -> Result<()> {
        encode(k as u16, (x as i32 - prediction) as i16, stream)
    }

    fn read_sample(k: u32, prediction: i32, stream: &mut BitStreamReader) -> Result<u8> {
        let residual: i16 = decode(k as u16, stream)?;
        let x: i32 = prediction + residual as i32;
        Ok(
            if x < 0 {
                0
            } else if x > 255 {
                255
            } else {
                x as u8
            },
        )
    }

    fn write_stride(stride: usize, stream: &mut BitStreamWriter) -> Result<()> {
        stream.write(stride as u64)
    }

    fn read_stride(stream: &mut BitStreamReader) -> Result<Option<u64>> {
        stream.read::<u64>()
    }
}

} // verus!
