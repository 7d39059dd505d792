//! Quantization: every coefficient of a block is divided by its own step.
//!
//! Images and video have steps of their own, and so have their luminance and
//! their chrominance.
use vstd::prelude::*;

use super::{block_bytes, fits, parsed_block, Block, BLOCK_SIZE};
use crate::bits::{bits_bytes, bytes_bits};
use crate::bitstream::{BitStreamReader, BitStreamWriter};
use crate::error::{is_eof, Result};
use crate::sample::{clamped, magnitude, quotient, Sample};

verus! {

/// Steps for the luminance of images.
pub const IMAGE_LUMINANCE_QUANTIZATION: [i16; 64] = [
    16, 11, 10, 16, 24, 40, 51, 61,
    12, 12, 14, 19, 26, 58, 60, 55,
    14, 13, 16, 24, 40, 57, 69, 56,
    14, 17, 22, 29, 51, 87, 80, 62,
    18, 22, 37, 56, 68, 109, 103, 77,
    24, 35, 55, 64, 81, 104, 113, 92,
    49, 64, 78, 87, 103, 121, 120, 101,
    72, 92, 95, 98, 112, 100, 103, 99,
];

/// Steps for the chrominance of images.
pub const IMAGE_CHROMINANCE_QUANTIZATION: [i16; 64] = [
    17, 18, 24, 47, 99, 99, 99, 99,
    18, 21, 26, 66, 99, 99, 99, 99,
    24, 26, 56, 99, 99, 99, 99, 99,
    47, 66, 99, 99, 99, 99, 99, 99,
    99, 99, 99, 99, 99, 99, 99, 99,
    99, 99, 99, 99, 99, 99, 99, 99,
    99, 99, 99, 99, 99, 99, 99, 99,
    99, 99, 99, 99, 99, 99, 99, 99,
];

/// Steps for the luminance of video.
pub const VIDEO_LUMINANCE_QUANTIZATION: [i16; 64] = [
    6, 5, 4, 6, 10, 16, 20, 24,
    5, 5, 6, 8, 10, 22, 24, 22,
    6, 6, 7, 10, 16, 22, 28, 22,
    6, 7, 9, 12, 20, 34, 32, 24,
    7, 9, 15, 22, 26, 42, 40, 30,
    10, 14, 22, 26, 32, 40, 44, 36,
    20, 26, 30, 34, 40, 48, 48, 40,
    28, 36, 38, 38, 44, 40, 40, 38,
];

/// Steps for the chrominance of video.
pub const VIDEO_CHROMINANCE_QUANTIZATION: [i16; 64] = [
    6, 6, 8, 16, 32, 32, 32, 32,
    6, 7, 9, 22, 32, 32, 32, 32,
    8, 9, 18, 32, 32, 32, 32, 32,
    16, 22, 32, 32, 32, 32, 32, 32,
    32, 32, 32, 32, 32, 32, 32, 32,
    32, 32, 32, 32, 32, 32, 32, 32,
    32, 32, 32, 32, 32, 32, 32, 32,
    32, 32, 32, 32, 32, 32, 32, 32,
];

/// The steps of a block. All of them are positive.
#[derive(Debug)]
pub struct Quantizor<T>(Block<T>);

impl<T: Copy> Clone for Quantizor<T> {
    fn clone(&self) -> (r: Self)
        ensures
            r == *self,
    {
        *self
    }
}

impl<T: Copy> Copy for Quantizor<T> {

}

impl<T: Sample> View for Quantizor<T> {
    type V = Seq<T>;

    closed spec fn view(&self) -> Seq<T> {
        self.0@
    }
}

/// The steps have the numbers of a table.
pub open spec fn has_steps<T: Sample>(steps: Seq<T>, table: Seq<i16>) -> bool {
    &&& steps.len() == 64
    &&& forall|i: int| 0 <= i < 64 ==> (#[trigger] steps[i]).num() == table[i]
}

/// No step is zero or less.
pub open spec fn positive_steps<T: Sample>(steps: Seq<T>) -> bool {
    &&& steps.len() == 64
    &&& forall|i: int| 0 <= i < 64 ==> (#[trigger] steps[i]).num() > 0
}

/// The steps of a table.
pub open spec fn table_steps<T: Sample>(table: Seq<i16>) -> Seq<T> {
    Seq::new(64, |i: int| T::with_num(table[i] as int))
}

/// The steps for video are positive.
pub proof fn lemma_video_steps<T: Sample>()
    ensures
        positive_steps(table_steps::<T>(VIDEO_LUMINANCE_QUANTIZATION@)),
        positive_steps(table_steps::<T>(VIDEO_CHROMINANCE_QUANTIZATION@)),
{
    assert(forall|i: int| 0 <= i < 64 ==> 0 < #[trigger] VIDEO_LUMINANCE_QUANTIZATION@[i] < 128);
    assert(forall|i: int| 0 <= i < 64 ==> 0 < #[trigger] VIDEO_CHROMINANCE_QUANTIZATION@[i] < 128);
    T::lemma_type();
    let luma = table_steps::<T>(VIDEO_LUMINANCE_QUANTIZATION@);
    let chroma = table_steps::<T>(VIDEO_CHROMINANCE_QUANTIZATION@);
    assert forall|i: int| 0 <= i < 64 implies (#[trigger] luma[i]).num() > 0 by {
        T::lemma_with_num(VIDEO_LUMINANCE_QUANTIZATION@[i] as int);
    }
    assert forall|i: int| 0 <= i < 64 implies (#[trigger] chroma[i]).num() > 0 by {
        T::lemma_with_num(VIDEO_CHROMINANCE_QUANTIZATION@[i] as int);
    }
}

/// There is but one list of steps with the numbers of a table.
pub proof fn lemma_table_steps<T: Sample>(steps: Seq<T>, table: Seq<i16>)
    requires
        has_steps(steps, table),
    ensures
        steps == table_steps::<T>(table),
{
    T::lemma_type();
    assert forall|i: int| 0 <= i < 64 implies steps[i] == table_steps::<T>(table)[i] by {
        steps[i].lemma_bounds();
        T::lemma_with_num(table[i] as int);
        steps[i].lemma_same(T::with_num(table[i] as int));
    }
    assert(steps =~= table_steps::<T>(table));
}

/// Every coefficient, divided by its step, rounded towards zero and clamped to
/// 16 bits.
pub open spec fn is_quantized<T: Sample>(steps: Seq<T>, block: Seq<T>, r: Seq<T>) -> bool {
    forall|i: int|
        0 <= i < 64 ==> (#[trigger] r[i]).num() == clamped(
            quotient(block[i].num(), steps[i].num()),
            -0x8000,
            0x7fff,
        )
}

/// No quotient has to be clamped. So it is with all blocks of 16-bit samples.
pub open spec fn quantizes<T: Sample>(steps: Seq<T>, block: Seq<T>) -> bool {
    forall|i: int|
        0 <= i < 64 ==> -0x8000 <= quotient((#[trigger] block[i]).num(), steps[i].num()) <= 0x7fff
}

/// Every coefficient, multiplied by its step.
pub open spec fn is_dequantized<T: Sample>(steps: Seq<T>, block: Seq<T>, r: Seq<T>) -> bool {
    forall|i: int| 0 <= i < 64 ==> (#[trigger] r[i]).num() == block[i].num() * steps[i].num()
}

/// The products with the steps can be held.
pub open spec fn dequantizes<T: Sample>(steps: Seq<T>, block: Seq<T>) -> bool {
    forall|i: int| 0 <= i < 64 ==> fits::<T>((#[trigger] block[i]).num() * steps[i].num())
}

proof fn lemma_quotient(a: int, b: int)
    requires
        b > 0,
    ensures
        magnitude(quotient(a, b)) <= magnitude(a),
        magnitude(quotient(a, b) * b) <= magnitude(a),
        magnitude(a - quotient(a, b) * b) < b,
        a < 0 ==> quotient(a, b) <= 0,
        a >= 0 ==> quotient(a, b) >= 0,
{
    let x = magnitude(a);
    vstd::arithmetic::div_mod::lemma_fundamental_div_mod(x, b);
    vstd::arithmetic::div_mod::lemma_div_pos_is_pos(x, b);
    vstd::arithmetic::div_mod::lemma_div_is_ordered_by_denominator(x, 1, b);
    let q = x / b;
    assert(q * b == b * q && (-q) * b == -(b * q) && b * q >= 0) by (nonlinear_arith)
        requires
            q >= 0,
            b > 0,
    ;
}

fn steps_of<T: Sample>(table: [i16; 64]) -> (r: Quantizor<T>)
    ensures
        has_steps(r@, table@),
{
    proof {
        T::lemma_type();
    }
    let mut steps: [T; 64] = [T::zero(); 64];
    let mut i: usize = 0;
    while i < BLOCK_SIZE
        invariant
            i <= 64,
            0x7fff <= T::hi(),
            T::lo() == -T::hi() - 1,
            forall|j: int| 0 <= j < i ==> (#[trigger] steps@[j]).num() == table@[j],
        decreases 64 - i,
    {
        steps[i] = T::from_i64(table[i] as i64);
        i = i + 1;
    }
    Quantizor(Block(steps))
}

impl<T: Sample> Quantizor<T> {
    /// The steps for the luminance of images.
    pub fn image_luminance() -> (r: Self)
        ensures
            has_steps(r@, IMAGE_LUMINANCE_QUANTIZATION@),
            positive_steps(r@),
    {
        assert(forall|i: int| 0 <= i < 64 ==> #[trigger] IMAGE_LUMINANCE_QUANTIZATION@[i] > 0);
        steps_of(IMAGE_LUMINANCE_QUANTIZATION)
    }

    /// The steps for the chrominance of images.
    pub fn image_chrominance() -> (r: Self)
        ensures
            has_steps(r@, IMAGE_CHROMINANCE_QUANTIZATION@),
            positive_steps(r@),
    {
        assert(forall|i: int| 0 <= i < 64 ==> #[trigger] IMAGE_CHROMINANCE_QUANTIZATION@[i] > 0);
        steps_of(IMAGE_CHROMINANCE_QUANTIZATION)
    }

    /// The steps for the luminance of video.
    pub fn video_luminance() -> (r: Self)
        ensures
            has_steps(r@, VIDEO_LUMINANCE_QUANTIZATION@),
            positive_steps(r@),
    {
        assert(forall|i: int| 0 <= i < 64 ==> #[trigger] VIDEO_LUMINANCE_QUANTIZATION@[i] > 0);
        steps_of(VIDEO_LUMINANCE_QUANTIZATION)
    }

    /// The steps for the chrominance of video.
    pub fn video_chrominance() -> (r: Self)
        ensures
            has_steps(r@, VIDEO_CHROMINANCE_QUANTIZATION@),
            positive_steps(r@),
    {
        assert(forall|i: int| 0 <= i < 64 ==> #[trigger] VIDEO_CHROMINANCE_QUANTIZATION@[i] > 0);
        steps_of(VIDEO_CHROMINANCE_QUANTIZATION)
    }

    /// The steps as a block.
    pub fn steps(&self) -> (r: &Block<T>)
        ensures
            r@ == self@,
    {
        &self.0
    }

    /// Divides every coefficient by its step and clamps the quotients to the
    /// range of 16-bit numbers.
    pub fn quantize(&self, block: Block<T>) -> (r: Block<T>)
        requires
            positive_steps(self@),
        ensures
            is_quantized(self@, block@, r@),
    {
        proof {
            T::lemma_type();
            assert forall|i: int| 0 <= i < 64 implies (#[trigger] self.0@[i]).num() != 0
                && fits::<T>(quotient(block@[i].num(), self.0@[i].num())) by {
                assert(self@[i].num() > 0);
                block@[i].lemma_bounds();
                lemma_quotient(block@[i].num(), self.0@[i].num());
            }
        }
        let quotients = block / self.0;
        quotients.clamp(T::from_i64(-0x8000), T::from_i64(0x7fff))
    }

    /// Multiplies every coefficient by its step.
    pub fn dequantize(&self, block: Block<T>) -> (r: Block<T>)
        requires
            dequantizes(self@, block@),
        ensures
            is_dequantized(self@, block@, r@),
    {
        proof {
            assert forall|i: int| 0 <= i < 64 implies fits::<T>(
                (#[trigger] block@[i]).num() * self.0@[i].num(),
            ) by {
                assert(fits::<T>(block@[i].num() * self@[i].num()));
            }
        }
        block * self.0
    }

    /// Multiplies every coefficient by its step, unless a product leaves the
    /// range of the samples.
    pub fn try_dequantize(&self, block: Block<T>) -> (r: Option<Block<T>>)
        ensures
            r is Some <==> dequantizes(self@, block@),
            r is Some ==> is_dequantized(self@, block@, (r->0)@),
    {
        let mut i: usize = 0;
        while i < BLOCK_SIZE
            invariant
                i <= 64,
                forall|j: int|
                    0 <= j < i ==> fits::<T>((#[trigger] block@[j]).num() * self@[j].num()),
            decreases 64 - i,
        {
            proof {
                T::lemma_type();
                block@[i as int].lemma_bounds();
                self@[i as int].lemma_bounds();
                let a = block@[i as int].num();
                let b = self@[i as int].num();
                assert(-0x4000_0000_0000_0000 <= a * b <= 0x4000_0000_0000_0000)
                    by (nonlinear_arith)
                    requires
                        -0x8000_0000 <= a <= 0x7fff_ffff,
                        -0x8000_0000 <= b <= 0x7fff_ffff,
                ;
            }
            let product: i64 = block.0[i].to_i64() * self.0.0[i].to_i64();
            if product < T::min_value() || product > T::max_value() {
                assert(!fits::<T>(block@[i as int].num() * self@[i as int].num()));
                return None;
            }
            i = i + 1;
        }
        Some(self.dequantize(block))
    }

    /// Writes the steps.
    pub fn encode(&self, stream: &mut BitStreamWriter) -> (r: Result<()>)
        ensures
            r is Ok,
            final(stream)@ == old(stream)@ + bytes_bits(block_bytes(self@)),
    {
        self.0.encode(stream)
    }

    /// Reads steps.
    pub fn decode(stream: &mut BitStreamReader) -> (r: Result<Self>)
        ensures
            512 * T::byte_len() <= old(stream)@.len() ==> {
                &&& r is Ok
                &&& (r->Ok_0)@ == parsed_block::<T>(
                    bits_bytes(old(stream)@.take(512 * T::byte_len() as int)),
                )
                &&& final(stream)@ == old(stream)@.skip(512 * T::byte_len() as int)
            },
            512 * T::byte_len() > old(stream)@.len() ==> is_eof(r),
    {
        match Block::<T>::decode(stream) {
            Ok(block) => Ok(Quantizor(block)),
            Err(e) => Err(e),
        }
    }
}

/// What was quantized can be multiplied back.
pub proof fn law_quantized_can_come_back<T: Sample>(
    steps: Seq<T>,
    block: Seq<T>,
    quantized: Seq<T>,
)
    requires
        positive_steps(steps),
        is_quantized(steps, block, quantized),
    ensures
        dequantizes(steps, quantized),
{
    T::lemma_type();
    assert forall|i: int| 0 <= i < 64 implies fits::<T>(
        (#[trigger] quantized[i]).num() * steps[i].num(),
    ) by {
        block[i].lemma_bounds();
        assert(steps[i].num() > 0);
        lemma_quotient(block[i].num(), steps[i].num());
        let full = quotient(block[i].num(), steps[i].num());
        let q = quantized[i].num();
        let s = steps[i].num();
        let a = block[i].num();
        assert(a >= 0 ==> 0 <= q * s <= full * s) by (nonlinear_arith)
            requires
                s > 0,
                a >= 0 ==> 0 <= q <= full,
        ;
        assert(a < 0 ==> full * s <= q * s <= 0) by (nonlinear_arith)
            requires
                s > 0,
                a < 0 ==> full <= q <= 0,
        ;
    }
}

/// The quotients of 16-bit samples are 16-bit numbers.
pub proof fn law_small_samples_quantize(steps: Seq<i16>, block: Seq<i16>)
    requires
        positive_steps(steps),
    ensures
        quantizes(steps, block),
{
    i16::lemma_type();
    assert forall|i: int| 0 <= i < 64 implies -0x8000 <= quotient(
        (#[trigger] block[i]).num(),
        steps[i].num(),
    ) <= 0x7fff by {
        block[i].lemma_bounds();
        assert(steps[i].num() > 0);
        lemma_quotient(block[i].num(), steps[i].num());
    }
}

/// What was quantized without being clamped and multiplied back is off by less
/// than a step in every coefficient.
pub proof fn law_quantized_comes_close<T: Sample>(
    steps: Seq<T>,
    block: Seq<T>,
    quantized: Seq<T>,
    back: Seq<T>,
)
    requires
        positive_steps(steps),
        quantizes(steps, block),
        is_quantized(steps, block, quantized),
        is_dequantized(steps, quantized, back),
    ensures
        forall|i: int|
            0 <= i < 64 ==> magnitude((#[trigger] back[i]).num() - block[i].num())
                < steps[i].num(),
{
    assert forall|i: int| 0 <= i < 64 implies magnitude(
        (#[trigger] back[i]).num() - block[i].num(),
    ) < steps[i].num() by {
        assert(steps[i].num() > 0);
        lemma_quotient(block[i].num(), steps[i].num());
        assert(quantized[i].num() == quotient(block[i].num(), steps[i].num()));
    }
}

/// Quantizing counts the whole steps of a coefficient, from zero on, up to the largest
/// number of sixteen bits, and multiplying back gives so many steps.
pub proof fn law_quantizing_counts_whole_steps<T: Sample>(
    steps: Seq<T>,
    block: Seq<T>,
    quantized: Seq<T>,
    back: Seq<T>,
    i: int,
)
    requires
        positive_steps(steps),
        is_quantized(steps, block, quantized),
        is_dequantized(steps, quantized, back),
        0 <= i < 64,
    ensures
        ({
            let x = block[i].num();
            let step = steps[i].num();
            let q = quantized[i].num();
            &&& -32768 <= q <= 32767
            &&& x >= 0 ==> 0 <= q && q * step <= x
            &&& x < 0 ==> q <= 0 && x <= q * step
            &&& x >= 0 && q < 32767 ==> x < q * step + step
            &&& x < 0 && q > -32768 ==> q * step - step < x
            &&& back[i].num() == q * step
        }),
{
    let x = block[i].num();
    let step = steps[i].num();
    let q = quantized[i].num();
    let full = quotient(x, step);
    assert(steps[i].num() > 0);
    assert(quantized[i].num() == clamped(full, -0x8000, 0x7fff));
    assert(back[i].num() == q * step);
    crate::sample::law_quotient_leaves_a_rest(x, step);
    lemma_quotient(x, step);
    assert(q <= full ==> q * step <= full * step) by (nonlinear_arith)
        requires
            step > 0,
    ;
    assert(q >= full ==> q * step >= full * step) by (nonlinear_arith)
        requires
            step > 0,
    ;
}

} // verus!
