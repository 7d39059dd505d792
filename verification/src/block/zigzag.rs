//! The order that goes through a block along its diagonals.
use vstd::prelude::*;

use super::{Block, BLOCK_SIZE};

verus! {

/// The number of every place of a block along the diagonals.
pub const ZIGZAG: [usize; 64] = [
    0, 1, 5, 6, 14, 15, 27, 28,
    2, 4, 7, 13, 16, 26, 29, 42,
    3, 8, 12, 17, 25, 30, 41, 43,
    9, 11, 18, 24, 31, 40, 44, 53,
    10, 19, 23, 32, 39, 45, 52, 54,
    20, 22, 33, 38, 46, 51, 55, 60,
    21, 34, 37, 47, 50, 56, 59, 61,
    35, 36, 48, 49, 57, 58, 62, 63,
];

/// The places of a block in the order of the diagonals.
pub const ZAGZIG: [usize; 64] = [
    0, 1, 8, 16, 9, 2, 3, 10,
    17, 24, 32, 25, 18, 11, 4, 5,
    12, 19, 26, 33, 40, 48, 41, 34,
    27, 20, 13, 6, 7, 14, 21, 28,
    35, 42, 49, 56, 57, 50, 43, 36,
    29, 22, 15, 23, 30, 37, 44, 51,
    58, 59, 52, 45, 38, 31, 39, 46,
    53, 60, 61, 54, 47, 55, 62, 63,
];

/// The number of a place along the diagonals.
pub open spec fn zigzag_index(i: int) -> int {
    ZIGZAG@[i] as int
}

/// Every place has one number, and every number one place.
pub proof fn lemma_zigzag_bijective(i: int)
    requires
        0 <= i < 64,
    ensures
        0 <= zigzag_index(i) < 64,
        ZAGZIG@[zigzag_index(i)] == i,
        0 <= ZAGZIG@[i] < 64,
        zigzag_index(ZAGZIG@[i] as int) == i,
{
    lemma_tables();
}

proof fn lemma_tables()
    ensures
        forall|i: int|
            0 <= i < 64 ==> #[trigger] ZIGZAG@[i] < 64 && ZAGZIG@[ZIGZAG@[i] as int] == i,
        forall|i: int|
            0 <= i < 64 ==> #[trigger] ZAGZIG@[i] < 64 && ZIGZAG@[ZAGZIG@[i] as int] == i,
{
}

impl<T: Copy> Block<T> {
    /// Puts at every place the sample that stands at the number of the place.
    pub fn zigzag(self) -> (r: Self)
        ensures
            r@ == zigzagged(self@),
    {
        let mut next: [T; 64] = self.0;
        let mut i: usize = 0;
        while i < BLOCK_SIZE
            invariant
                i <= 64,
                forall|j: int| 0 <= j < i ==> #[trigger] next@[j] == self@[zigzag_index(j)],
            decreases 64 - i,
        {
            proof {
                lemma_zigzag_bijective(i as int);
            }
            next[i] = self.0[ZIGZAG[i]];
            i = i + 1;
        }
        assert(next@ =~= zigzagged(self@));
        Block(next)
    }

    /// Undoes `zigzag`.
    pub fn zagzig(self) -> (r: Self)
        ensures
            r@ == zagzigged(self@),
    {
        let mut next: [T; 64] = self.0;
        let mut i: usize = 0;
        while i < BLOCK_SIZE
            invariant
                i <= 64,
                forall|j: int| 0 <= j < i ==> next@[zigzag_index(j)] == #[trigger] self@[j],
            decreases 64 - i,
        {
            proof {
                lemma_zigzag_bijective(i as int);
            }
            let place: usize = ZIGZAG[i];
            let ghost before = next@;
            next[place] = self.0[i];
            proof {
                assert forall|j: int| 0 <= j < i + 1 implies next@[zigzag_index(j)]
                    == #[trigger] self@[j] by {
                    lemma_zigzag_bijective(j);
                    if j < i {
                        assert(before[zigzag_index(j)] == self@[j]);
                        assert(zigzag_index(j) != place);
                    }
                }
            }
            i = i + 1;
        }
        proof {
            assert forall|n: int| 0 <= n < 64 implies next@[n] == zagzigged(self@)[n] by {
                lemma_zigzag_bijective(n);
                assert(self@[ZAGZIG@[n] as int] == self@[ZAGZIG@[n] as int]);
            }
            assert(next@ =~= zagzigged(self@));
        }
        Block(next)
    }
}

/// What `zigzag` makes of a block.
pub open spec fn zigzagged<T>(block: Seq<T>) -> Seq<T> {
    Seq::new(64, |i: int| block[zigzag_index(i)])
}

/// What `zagzig` makes of a block.
pub open spec fn zagzigged<T>(block: Seq<T>) -> Seq<T> {
    Seq::new(64, |i: int| block[ZAGZIG@[i] as int])
}

/// `zagzig` undoes `zigzag`, and `zigzag` undoes `zagzig`.
pub proof fn law_zigzag_comes_back<T>(block: Seq<T>)
    requires
        block.len() == 64,
    ensures
        zagzigged(zigzagged(block)) == block,
        zigzagged(zagzigged(block)) == block,
{
    lemma_tables();
    assert(zagzigged(zigzagged(block)) =~= block);
    assert(zigzagged(zagzigged(block)) =~= block);
}

/// Along the diagonals, every place lies next to the one before, and no diagonal comes
/// before one closer to the first place, where the way starts to the right.
pub proof fn law_diagonals_go_on_next_door(n: int)
    requires
        0 <= n < 63,
    ensures
        ({
            let row = ZAGZIG@[n] as int / 8;
            let col = ZAGZIG@[n] as int % 8;
            let next_row = ZAGZIG@[n + 1] as int / 8;
            let next_col = ZAGZIG@[n + 1] as int % 8;
            &&& -1 <= next_row - row <= 1
            &&& -1 <= next_col - col <= 1
            &&& row + col <= next_row + next_col <= row + col + 1
            &&& n == 0 ==> (row, col) == (0int, 0int) && (next_row, next_col) == (0int, 1int)
            &&& zigzag_index(8 * row + col) == n
            &&& zigzag_index(8 * next_row + next_col) == n + 1
        }),
{
    lemma_tables();
    lemma_next_door(n);
}

proof fn lemma_next_door(n: int)
    requires
        0 <= n < 63,
    ensures
        is_next_door(ZAGZIG@[n] as int, ZAGZIG@[n + 1] as int),
        ZAGZIG@[0] == 0,
        ZAGZIG@[1] == 1,
{
}

/// Two places of a block, the second next to the first and on no diagonal before it.
spec fn is_next_door(place: int, next: int) -> bool {
    &&& -1 <= next / 8 - place / 8 <= 1
    &&& -1 <= next % 8 - place % 8 <= 1
    &&& place / 8 + place % 8 <= next / 8 + next % 8 <= place / 8 + place % 8 + 1
}

} // verus!
