//! Bits and bytes as mathematical sequences.
//!
//! Every stream of the library is a sequence of bits, most significant bit
//! first. The functions here say which bits a number or a byte string stands
//! for, and the lemmas say that nothing is lost on the way.
use vstd::arithmetic::power2::{lemma2_to64, lemma_pow2_pos, lemma_pow2_unfold, pow2};
use vstd::prelude::*;

verus! {

/// The `width` low bits of `value`, most significant first.
pub open spec fn be_bits(value: nat, width: nat) -> Seq<bool>
    decreases width,
{
    if width == 0 {
        Seq::empty()
    } else {
        be_bits(value / 2, (width - 1) as nat).push(value % 2 == 1)
    }
}

/// The number whose binary digits are `bits`, most significant first.
pub open spec fn bits_value(bits: Seq<bool>) -> nat
    decreases bits.len(),
{
    if bits.len() == 0 {
        0
    } else {
        2 * bits_value(bits.drop_last()) + if bits.last() {
            1nat
        } else {
            0nat
        }
    }
}

/// The bits of a byte string, byte after byte.
pub open spec fn bytes_bits(bytes: Seq<u8>) -> Seq<bool>
    decreases bytes.len(),
{
    if bytes.len() == 0 {
        Seq::empty()
    } else {
        bytes_bits(bytes.drop_last()) + be_bits(bytes.last() as nat, 8)
    }
}

/// The `len` low bytes of `value`, most significant first.
pub open spec fn be_bytes(value: nat, len: nat) -> Seq<u8>
    decreases len,
{
    if len == 0 {
        Seq::empty()
    } else {
        be_bytes(value / 256, (len - 1) as nat).push((value % 256) as u8)
    }
}

/// The number that `bytes` write in base 256, most significant first.
pub open spec fn be_value(bytes: Seq<u8>) -> nat
    decreases bytes.len(),
{
    if bytes.len() == 0 {
        0
    } else {
        256 * be_value(bytes.drop_last()) + bytes.last() as nat
    }
}

/// The `len` low bytes of `value`, least significant first.
pub open spec fn le_bytes(value: nat, len: nat) -> Seq<u8> {
    be_bytes(value, len).reverse()
}

/// The number that `bytes` write in base 256, least significant first.
pub open spec fn le_value(bytes: Seq<u8>) -> nat {
    be_value(bytes.reverse())
}

/// The number of zero bits before the first one, or all of them.
pub open spec fn leading_zeros(bits: Seq<bool>) -> nat
    decreases bits.len(),
{
    if bits.len() == 0 || bits[0] {
        0
    } else {
        1 + leading_zeros(bits.skip(1))
    }
}

/// `count` zero bits.
pub open spec fn zeros(count: nat) -> Seq<bool> {
    Seq::new(count, |i: int| false)
}

/// `bits`, padded with zero bits to a whole number of bytes.
pub open spec fn padded(bits: Seq<bool>) -> Seq<bool> {
    bits + zeros(padding(bits.len()))
}

/// The number of bits that are missing to a whole number of bytes.
pub open spec fn padding(len: nat) -> nat {
    ((8 - len % 8) % 8) as nat
}

pub proof fn lemma_be_bits_len(value: nat, width: nat)
    ensures
        be_bits(value, width).len() == width,
    decreases width,
{
    if width > 0 {
        lemma_be_bits_len(value / 2, (width - 1) as nat);
    }
}

/// The bits of a number that fits give the number back.
pub proof fn lemma_bits_value_of_be_bits(value: nat, width: nat)
    requires
        value < pow2(width),
    ensures
        bits_value(be_bits(value, width)) == value,
    decreases width,
{
    if width == 0 {
        lemma2_to64();
    } else {
        lemma_pow2_unfold(width);
        lemma_be_bits_len(value / 2, (width - 1) as nat);
        lemma_bits_value_of_be_bits(value / 2, (width - 1) as nat);
        let bits = be_bits(value, width);
        assert(bits.drop_last() =~= be_bits(value / 2, (width - 1) as nat));
    }
}

/// A number is smaller than two to the number of its digits, and has no
/// other digits than the ones it was made of.
pub proof fn lemma_be_bits_of_bits_value(bits: Seq<bool>)
    ensures
        bits_value(bits) < pow2(bits.len()),
        be_bits(bits_value(bits), bits.len()) == bits,
    decreases bits.len(),
{
    if bits.len() == 0 {
        lemma2_to64();
        assert(bits =~= Seq::empty());
    } else {
        lemma_pow2_unfold(bits.len());
        lemma_be_bits_of_bits_value(bits.drop_last());
        let v = bits_value(bits);
        assert(v / 2 == bits_value(bits.drop_last()));
        assert((v % 2 == 1) == bits.last());
        assert(bits.drop_last().push(bits.last()) =~= bits);
    }
}

pub proof fn lemma_bytes_bits_len(bytes: Seq<u8>)
    ensures
        bytes_bits(bytes).len() == 8 * bytes.len(),
    decreases bytes.len(),
{
    if bytes.len() > 0 {
        lemma_bytes_bits_len(bytes.drop_last());
        lemma_be_bits_len(bytes.last() as nat, 8);
    }
}

pub proof fn lemma_bytes_bits_add(a: Seq<u8>, b: Seq<u8>)
    ensures
        bytes_bits(a + b) == bytes_bits(a) + bytes_bits(b),
    decreases b.len(),
{
    if b.len() == 0 {
        assert(a + b =~= a);
        assert(bytes_bits(a) + bytes_bits(b) =~= bytes_bits(a));
    } else {
        lemma_bytes_bits_add(a, b.drop_last());
        assert((a + b).drop_last() =~= a + b.drop_last());
        assert((a + b).last() == b.last());
        assert(bytes_bits(a + b) =~= bytes_bits(a) + bytes_bits(b));
    }
}

/// Byte strings with the same bits are the same.
pub proof fn lemma_bytes_bits_injective(a: Seq<u8>, b: Seq<u8>)
    requires
        bytes_bits(a) == bytes_bits(b),
    ensures
        a == b,
    decreases a.len(),
{
    lemma_bytes_bits_len(a);
    lemma_bytes_bits_len(b);
    if a.len() > 0 {
        let n = 8 * (a.len() - 1);
        lemma_bytes_bits_len(a.drop_last());
        lemma_bytes_bits_len(b.drop_last());
        lemma_be_bits_len(a.last() as nat, 8);
        lemma_be_bits_len(b.last() as nat, 8);
        assert(bytes_bits(a).take(n) =~= bytes_bits(a.drop_last()));
        assert(bytes_bits(b).take(n) =~= bytes_bits(b.drop_last()));
        assert(bytes_bits(a).skip(n) =~= be_bits(a.last() as nat, 8));
        assert(bytes_bits(b).skip(n) =~= be_bits(b.last() as nat, 8));
        lemma_bytes_bits_injective(a.drop_last(), b.drop_last());
        lemma2_to64();
        lemma_bits_value_of_be_bits(a.last() as nat, 8);
        lemma_bits_value_of_be_bits(b.last() as nat, 8);
        assert(a =~= a.drop_last().push(a.last()));
        assert(b =~= b.drop_last().push(b.last()));
    } else {
        assert(a =~= b);
    }
}

pub proof fn lemma_be_bits_split(value: nat, width: nat, low: nat)
    requires
        low <= width,
    ensures
        be_bits(value, width) == be_bits(value / pow2(low), (width - low) as nat) + be_bits(
            value,
            low,
        ),
    decreases low,
{
    lemma2_to64();
    if low == 0 {
        assert(value / 1 == value);
        assert(be_bits(value, width) + Seq::<bool>::empty() =~= be_bits(value, width));
    } else {
        lemma_be_bits_split(value / 2, (width - 1) as nat, (low - 1) as nat);
        lemma_pow2_unfold(low);
        lemma_pow2_pos((low - 1) as nat);
        let p = pow2((low - 1) as nat);
        vstd::arithmetic::div_mod::lemma_div_denominator(value as int, 2, p as int);
        assert((value / 2) / p == value / pow2(low));
        let high = be_bits(value / pow2(low), (width - low) as nat);
        let lows = be_bits(value / 2, (low - 1) as nat);
        assert(be_bits(value, width) == (high + lows).push(value % 2 == 1));
        assert((high + lows).push(value % 2 == 1) =~= high + lows.push(value % 2 == 1));
    }
}

/// The bytes of a number have the bits of the number.
pub proof fn lemma_bytes_bits_of_be_bytes(value: nat, len: nat)
    ensures
        be_bytes(value, len).len() == len,
        bytes_bits(be_bytes(value, len)) == be_bits(value, 8 * len),
    decreases len,
{
    if len > 0 {
        lemma_bytes_bits_of_be_bytes(value / 256, (len - 1) as nat);
        lemma2_to64();
        lemma_be_bits_split(value, 8 * len, 8);
        let bytes = be_bytes(value, len);
        assert(bytes.drop_last() =~= be_bytes(value / 256, (len - 1) as nat));
        lemma_be_bits_mod(value, 8);
        assert(pow2(8) == 256);
    }
}

/// The low bits of a number depend on its low bits only.
pub proof fn lemma_be_bits_mod(value: nat, width: nat)
    ensures
        be_bits(value % pow2(width), width) == be_bits(value, width),
    decreases width,
{
    lemma_pow2_pos(width);
    if width > 0 {
        lemma_pow2_unfold(width);
        lemma_pow2_pos((width - 1) as nat);
        let p = pow2((width - 1) as nat);
        lemma_be_bits_mod(value / 2, (width - 1) as nat);
        vstd::arithmetic::div_mod::lemma_mod_breakdown(value as int, 2, p as int);
        let m = value % pow2(width);
        assert(m == 2 * ((value / 2) % p) + value % 2);
        assert(m / 2 == (value / 2) % p);
        assert(m % 2 == value % 2);
    }
}

pub proof fn lemma_be_bytes_of_be_value(bytes: Seq<u8>)
    ensures
        be_value(bytes) < pow2(8 * bytes.len()),
        be_bytes(be_value(bytes), bytes.len()) == bytes,
    decreases bytes.len(),
{
    lemma2_to64();
    if bytes.len() == 0 {
        assert(bytes =~= Seq::empty());
    } else {
        lemma_be_bytes_of_be_value(bytes.drop_last());
        let v = be_value(bytes);
        vstd::arithmetic::power2::lemma_pow2_adds(8, (8 * (bytes.len() - 1)) as nat);
        assert(v / 256 == be_value(bytes.drop_last()));
        assert(v % 256 == bytes.last() as nat);
        assert(bytes.drop_last().push(bytes.last()) =~= bytes);
        let q = be_value(bytes.drop_last());
        let p = pow2((8 * (bytes.len() - 1)) as nat);
        assert(pow2(8 * bytes.len()) == 256 * p);
        assert(q + 1 <= p);
    }
}

/// The bytes of a number that fits give the number back.
pub proof fn lemma_be_value_of_be_bytes(value: nat, len: nat)
    requires
        value < pow2(8 * len),
    ensures
        be_value(be_bytes(value, len)) == value,
    decreases len,
{
    lemma2_to64();
    if len > 0 {
        vstd::arithmetic::power2::lemma_pow2_adds(8, (8 * (len - 1)) as nat);
        let p = pow2((8 * (len - 1)) as nat);
        assert(pow2(8 * len) == 256 * p);
        assert(value / 256 < p);
        lemma_be_value_of_be_bytes(value / 256, (len - 1) as nat);
        assert(be_bytes(value, len).drop_last() =~= be_bytes(value / 256, (len - 1) as nat));
    }
}

/// A run of zeros and the one that ends it.
pub proof fn lemma_leading_zeros_of_run(count: nat, rest: Seq<bool>)
    ensures
        leading_zeros(zeros(count).push(true) + rest) == count,
    decreases count,
{
    let bits = zeros(count).push(true) + rest;
    if count > 0 {
        assert(!bits[0]);
        assert(bits.skip(1) =~= zeros((count - 1) as nat).push(true) + rest);
        lemma_leading_zeros_of_run((count - 1) as nat, rest);
    } else {
        assert(bits[0]);
    }
}

/// What `leading_zeros` counts: zeros, up to a one or to the end.
pub proof fn lemma_leading_zeros_bounds(bits: Seq<bool>)
    ensures
        leading_zeros(bits) <= bits.len(),
        leading_zeros(bits) < bits.len() ==> bits[leading_zeros(bits) as int],
        forall|i: int| 0 <= i < leading_zeros(bits) ==> !#[trigger] bits[i],
    decreases bits.len(),
{
    if bits.len() > 0 && !bits[0] {
        lemma_leading_zeros_bounds(bits.skip(1));
        assert forall|i: int| 0 <= i < leading_zeros(bits) implies !#[trigger] bits[i] by {
            if i > 0 {
                assert(!bits.skip(1)[i - 1]);
            }
        }
    }
}

pub proof fn lemma_padded(bits: Seq<bool>)
    ensures
        padded(bits).len() % 8 == 0,
        padded(bits).len() < bits.len() + 8,
        padded(bits).take(bits.len() as int) == bits,
        bits.len() % 8 == 0 ==> padded(bits) == bits,
{
    assert(padded(bits).take(bits.len() as int) =~= bits);
    if bits.len() % 8 == 0 {
        assert(padded(bits) =~= bits);
    }
}

/// The bytes of bits that fill whole bytes.
pub open spec fn bits_bytes(bits: Seq<bool>) -> Seq<u8> {
    Seq::new(bits.len() / 8, |i: int| bits_value(bits.subrange(8 * i, 8 * i + 8)) as u8)
}

/// The bits of bytes give the bytes back.
pub proof fn lemma_bits_bytes_of_bytes_bits(bytes: Seq<u8>)
    ensures
        bits_bytes(bytes_bits(bytes)) == bytes,
{
    lemma_bytes_bits_len(bytes);
    assert forall|i: int| 0 <= i < bytes.len() implies bits_bytes(bytes_bits(bytes))[i]
        == bytes[i] by {
        lemma2_to64();
        let head = bytes.take(i);
        let tail = bytes.skip(i + 1);
        lemma_bytes_bits_len(head);
        lemma_be_bits_len(bytes[i] as nat, 8);
        lemma_bits_value_of_be_bits(bytes[i] as nat, 8);
        assert(bytes =~= head.push(bytes[i]) + tail);
        lemma_bytes_bits_add(head.push(bytes[i]), tail);
        assert(head.push(bytes[i]).drop_last() =~= head);
        assert(bytes_bits(bytes).subrange(8 * i, 8 * i + 8) =~= be_bits(bytes[i] as nat, 8));
    }
    assert(bits_bytes(bytes_bits(bytes)) =~= bytes);
}

/// Bytes whose bits are known are known.
pub proof fn lemma_bits_bytes_unique(bytes: Seq<u8>, bits: Seq<bool>)
    requires
        bytes_bits(bytes) == bits,
    ensures
        bytes == bits_bytes(bits),
{
    lemma_bits_bytes_of_bytes_bits(bytes);
}

/// A number has as many bits as asked for, and the one that is `i` places before the last
/// counts `2^i`.
pub proof fn law_bits_go_from_high_to_low(value: nat, width: nat, i: nat)
    requires
        i < width,
    ensures
        be_bits(value, width).len() == width,
        be_bits(value, width)[width - 1 - i] == ((value / pow2(i)) % 2 == 1),
    decreases i,
{
    lemma_be_bits_len(value, width);
    lemma2_to64();
    if i == 0 {
        lemma_be_bits_len(value / 2, (width - 1) as nat);
        assert(value / 1 == value);
    } else {
        law_bits_go_from_high_to_low(value / 2, (width - 1) as nat, (i - 1) as nat);
        lemma_pow2_unfold(i);
        lemma_pow2_pos((i - 1) as nat);
        vstd::arithmetic::div_mod::lemma_div_denominator(
            value as int,
            2,
            pow2((i - 1) as nat) as int,
        );
    }
}

/// A number has as many bytes as asked for, and the one that is `i` places before the last
/// counts `256^i`. The other way round, the first one counts least.
pub proof fn law_bytes_go_from_high_to_low(value: nat, len: nat, i: nat)
    requires
        i < len,
    ensures
        be_bytes(value, len).len() == len,
        be_bytes(value, len)[len - 1 - i] == (value / pow2(8 * i)) % 256,
        le_bytes(value, len).len() == len,
        le_bytes(value, len)[i as int] == (value / pow2(8 * i)) % 256,
    decreases i,
{
    lemma_bytes_bits_of_be_bytes(value, len);
    lemma2_to64();
    if i == 0 {
        lemma_bytes_bits_of_be_bytes(value / 256, (len - 1) as nat);
        assert(value / 1 == value);
    } else {
        lemma_bytes_bits_of_be_bytes(value / 256, (len - 1) as nat);
        law_bytes_go_from_high_to_low(value / 256, (len - 1) as nat, (i - 1) as nat);
        let low = (8 * (i - 1)) as nat;
        vstd::arithmetic::power2::lemma_pow2_adds(8, low);
        lemma_pow2_pos(low);
        vstd::arithmetic::div_mod::lemma_div_denominator(
            value as int,
            256,
            pow2(low) as int,
        );
    }
}

/// Bits in front of others count as much more as there are values of the others, and a
/// single bit counts one where it is set.
pub proof fn law_digits_add_up(high: Seq<bool>, low: Seq<bool>)
    ensures
        bits_value(high + low) == bits_value(high) * pow2(low.len()) + bits_value(low),
        bits_value(low) < pow2(low.len()),
        bits_value(seq![true]) == 1,
        bits_value(seq![false]) == 0,
    decreases low.len(),
{
    lemma2_to64();
    lemma_be_bits_of_bits_value(low);
    reveal_with_fuel(bits_value, 2);
    if low.len() == 0 {
        assert(high + low =~= high);
    } else {
        law_digits_add_up(high, low.drop_last());
        assert((high + low).drop_last() =~= high + low.drop_last());
        lemma_pow2_unfold(low.len());
        let p = pow2((low.len() - 1) as nat);
        assert(2 * (bits_value(high) * p) == bits_value(high) * (2 * p)) by (nonlinear_arith);
    }
}

/// The bits of bytes stand byte after byte, the highest bit of each one first.
pub proof fn law_bytes_have_their_bits(bytes: Seq<u8>, i: int, j: nat)
    requires
        0 <= i < bytes.len(),
        j < 8,
    ensures
        bytes_bits(bytes).len() == 8 * bytes.len(),
        bytes_bits(bytes)[8 * i + 7 - j] == ((bytes[i] as nat / pow2(j)) % 2 == 1),
    decreases bytes.len(),
{
    lemma_bytes_bits_len(bytes);
    lemma_bytes_bits_len(bytes.drop_last());
    lemma_be_bits_len(bytes.last() as nat, 8);
    if i == bytes.len() - 1 {
        law_bits_go_from_high_to_low(bytes[i] as nat, 8, j);
    } else {
        law_bytes_have_their_bits(bytes.drop_last(), i, j);
    }
}

/// As many zeros stand first as are counted, and behind them a one, or nothing.
pub proof fn law_leading_zeros_are_zeros(bits: Seq<bool>)
    ensures
        leading_zeros(bits) <= bits.len(),
        leading_zeros(bits) < bits.len() ==> bits[leading_zeros(bits) as int],
        forall|i: int| 0 <= i < leading_zeros(bits) ==> !#[trigger] bits[i],
{
    lemma_leading_zeros_bounds(bits);
}

/// Bits are filled up with zeros to the next whole byte, and not further.
pub proof fn law_padding_fills_a_byte(bits: Seq<bool>, i: int)
    requires
        0 <= i < padded(bits).len(),
    ensures
        padded(bits).len() % 8 == 0,
        bits.len() <= padded(bits).len() < bits.len() + 8,
        padded(bits)[i] == (i < bits.len() && bits[i]),
{
}

} // verus!
