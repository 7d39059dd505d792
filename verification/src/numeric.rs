//! Small arithmetic that the modules share.
use vstd::prelude::*;

verus! {

/// `a / b`, rounded up.
pub open spec fn ceil_div(a: int, b: int) -> int
    recommends
        b > 0,
{
    if a % b == 0 {
        a / b
    } else {
        a / b + 1
    }
}

/// Divides and rounds up.
pub(crate) fn div_ceil(a: usize, b: usize) -> (r: usize)
    requires
        b > 1,
    ensures
        r == ceil_div(a as int, b as int),
        r <= a,
{
    proof {
        vstd::arithmetic::div_mod::lemma_fundamental_div_mod(a as int, b as int);
        let q = a as int / b as int;
        assert(q + q <= b * q) by (nonlinear_arith)
            requires
                b >= 2,
                q >= 0,
        ;
        if a > 0 && a as int % b as int != 0 && q > 0 {
            assert(q + 1 <= a);
        }
    }
    if a % b == 0 {
        a / b
    } else {
        a / b + 1
    }
}

/// `row * width + col` is in row `row` and in column `col`.
pub proof fn lemma_place(row: int, col: int, width: int)
    requires
        0 <= row,
        0 <= col < width,
    ensures
        (row * width + col) / width == row,
        (row * width + col) % width == col,
        0 <= row * width,
{
    vstd::arithmetic::div_mod::lemma_fundamental_div_mod_converse(
        row * width + col,
        width,
        row,
        col,
    );
    assert(0 <= row * width) by (nonlinear_arith)
        requires
            0 <= row,
            0 < width,
    ;
}

/// A place is its row and its column.
pub proof fn lemma_place_parts(t: int, width: int)
    requires
        0 <= t,
        0 < width,
    ensures
        t == (t / width) * width + t % width,
        0 <= t % width < width,
        0 <= t / width,
{
    vstd::arithmetic::div_mod::lemma_fundamental_div_mod(t, width);
    vstd::arithmetic::mul::lemma_mul_is_commutative(t / width, width);
    vstd::arithmetic::div_mod::lemma_div_pos_is_pos(t, width);
}

/// The last place of a row is before the next row.
pub proof fn lemma_place_bound(row: int, col: int, width: int, height: int)
    requires
        0 <= row < height,
        0 <= col < width,
    ensures
        0 <= row * width + col < height * width,
        (row + 1) * width <= height * width,
{
    assert(0 <= row * width) by (nonlinear_arith)
        requires
            0 <= row,
            0 < width,
    ;
    assert((row + 1) * width <= height * width) by (nonlinear_arith)
        requires
            row + 1 <= height,
            0 < width,
    ;
    assert((row + 1) * width == row * width + width) by (nonlinear_arith);
}

/// So many parts of a size hold a number, and one part less does not.
pub proof fn law_ceil_div_just_covers(a: int, b: int)
    requires
        0 < b,
    ensures
        a <= ceil_div(a, b) * b,
        (ceil_div(a, b) - 1) * b < a,
{
    vstd::arithmetic::div_mod::lemma_fundamental_div_mod(a, b);
    vstd::arithmetic::div_mod::lemma_mod_bound(a, b);
    let q = a / b;
    assert((q + 1) * b == b * q + b && (q - 1) * b == b * q - b && q * b == b * q)
        by (nonlinear_arith);
}

} // verus!
