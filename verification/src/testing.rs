//! A helper for tests and experiments: filling a single 3x3 box of a
//! grid with a random permutation of the nine digits.
use vstd::prelude::*;

use crate::game::{
    all_digits, all_digits_seq, in_pos, lemma_pos_coords, pos_of, Board, Cell, Digit,
};
use crate::rng::shuffle;

verus! {

/// The top row of box number `box_number` (boxes are numbered 1..=9 in
/// row-major order here).
pub open spec fn box_corner_row(box_number: int) -> int {
    (box_number - 1) / 3 * 3
}

/// The left column of box number `box_number`.
pub open spec fn box_corner_col(box_number: int) -> int {
    ((box_number - 1) % 3) * 3
}

/// The `k`-th cell of box number `box_number`, in row-major order.
pub open spec fn box_cell(box_number: int, k: int) -> int {
    pos_of(box_corner_row(box_number) + k / 3, box_corner_col(box_number) + k % 3)
}

/// Whether position `p` lies in box number `box_number`.
pub open spec fn in_box(box_number: int, p: int) -> bool {
    &&& box_corner_row(box_number) <= crate::game::row_of(p) < box_corner_row(box_number) + 3
    &&& box_corner_col(box_number) <= crate::game::col_of(p) < box_corner_col(box_number) + 3
}

/// Fill box number `box_number` (1..=9, row-major) with a random
/// permutation of the nine digits as `Given` cells, leaving every cell
/// outside the box untouched.
pub fn fill_box_randomly(board: &mut Board, box_number: usize, rng: &mut rand::rngs::ThreadRng)
    requires
        old(board)@.len() == 81,
        1 <= box_number <= 9,
    ensures
        final(board)@.len() == 81,
        forall|p: int|
            in_pos(p) && !in_box(box_number as int, p) ==> final(board)@[p] == old(board)@[p],
        exists|s: Seq<Digit>|
            {
                &&& s.len() == 9
                &&& s.to_multiset() == all_digits_seq().to_multiset()
                &&& forall|k: int|
                    0 <= k < 9 ==> final(board)@[box_cell(box_number as int, k)] == Cell::Given(
                        s[k],
                    )
            },
{
    let mut nums = all_digits();
    shuffle(rng, &mut nums);
    let u = (box_number - 1) / 3 * 3;
    let l = ((box_number - 1) % 3) * 3;
    let mut k: usize = 0;
    while k < 9
        invariant
            k <= 9,
            1 <= box_number <= 9,
            u == box_corner_row(box_number as int),
            l == box_corner_col(box_number as int),
            u <= 6,
            l <= 6,
            board@.len() == 81,
            nums@.len() == 9,
            nums@.to_multiset() == all_digits_seq().to_multiset(),
            forall|kk: int|
                0 <= kk < k ==> board@[box_cell(box_number as int, kk)] == Cell::Given(
                    nums@[kk],
                ),
            forall|p: int|
                in_pos(p) && !in_box(box_number as int, p) ==> board@[p] == old(board)@[p],
        decreases 9 - k,
    {
        let r = u + k / 3;
        let c = l + k % 3;
        let ghost prev = board@;
        board.set(r, c, Cell::Given(nums[k]));
        proof {
            lemma_pos_coords(r as int, c as int);
            assert(pos_of(r as int, c as int) == box_cell(box_number as int, k as int));
            assert(in_box(box_number as int, pos_of(r as int, c as int)));
            assert forall|kk: int|
                0 <= kk < k + 1 implies board@[box_cell(box_number as int, kk)] == Cell::Given(
                nums@[kk],
            ) by {
                if kk < k {
                    let pk = box_cell(box_number as int, kk);
                    assert(pk == pos_of(u + kk / 3, l + kk % 3));
                    lemma_pos_coords(u + kk / 3, l + kk % 3);
                    assert(kk == 3 * (kk / 3) + kk % 3 && k == 3 * (k as int / 3) + k as int
                        % 3) by (nonlinear_arith)
                        requires 0 <= kk < 9 && 0 <= k < 9;
                    assert(pk != pos_of(r as int, c as int));
                    assert(board@[pk] == prev[pk]);
                }
            }
        }
        k = k + 1;
    }
    proof {
        assert(nums@.len() == 9 && nums@.to_multiset() == all_digits_seq().to_multiset()
            && forall|kk: int|
            0 <= kk < 9 ==> board@[box_cell(box_number as int, kk)] == Cell::Given(nums@[kk]));
    }
}

} // verus!
