//! The evaluator: decides whether a board is a completed legal grid, that
//! is, fully populated with all 27 row/column/box disjointness constraints
//! satisfied.
use vstd::prelude::*;

use crate::game::{
    can_place, cell_digit, in_pos, is_full, is_legal_full, no_dups, occupied, sees, Board, Cell,
    Digit,
};

verus! {

/// The digit held by a cell, if any.
pub fn cell_digit_of(c: Cell) -> (d: Option<Digit>)
    ensures
        d == cell_digit(c),
{
    match c {
        Cell::Given(x) => Some(x),
        Cell::NonGiven(x) => Some(x),
        Cell::Empty => None,
    }
}

/// Whether two row-major positions constrain each other: distinct and in
/// the same row, column or box.
pub fn sees_pos(p: usize, q: usize) -> (r: bool)
    requires
        p < 81,
        q < 81,
    ensures
        r == sees(p as int, q as int),
{
    p != q && (p / 9 == q / 9 || p % 9 == q % 9 || (p / 9 / 3 == q / 9 / 3 && p % 9 / 3 == q % 9
        / 3))
}

/// Whether every cell of the board holds a digit.
pub fn board_is_full(board: &Board) -> (r: bool)
    requires
        board@.len() == 81,
    ensures
        r == is_full(board@),
{
    let mut p: usize = 0;
    while p < 81
        invariant
            p <= 81,
            board@.len() == 81,
            forall|q: int| 0 <= q < p ==> occupied(#[trigger] board@[q]),
        decreases 81 - p,
    {
        if let Cell::Empty = board.at(p / 9, p % 9) {
            proof {
                crate::game::lemma_coords_pos(p as int);
            }
            return false;
        }
        proof {
            crate::game::lemma_coords_pos(p as int);
        }
        p = p + 1;
    }
    true
}

/// Whether no two occupied cells that constrain each other hold the same
/// digit.
pub fn board_no_dups(board: &Board) -> (r: bool)
    requires
        board@.len() == 81,
    ensures
        r == no_dups(board@),
{
    let mut p: usize = 0;
    while p < 81
        invariant
            p <= 81,
            board@.len() == 81,
            forall|x: int, y: int|
                0 <= x < p && in_pos(y) && sees(x, y) && occupied(#[trigger] board@[x]) && occupied(
                    #[trigger] board@[y],
                ) ==> cell_digit(board@[x]) != cell_digit(board@[y]),
        decreases 81 - p,
    {
        proof {
            crate::game::lemma_coords_pos(p as int);
        }
        let cp = board.at(p / 9, p % 9);
        let dp = cell_digit_of(cp);
        if let Some(d) = dp {
            let mut q: usize = 0;
            while q < 81
                invariant
                    q <= 81,
                    p < 81,
                    board@.len() == 81,
                    Some(d) == cell_digit(board@[p as int]),
                    forall|y: int|
                        0 <= y < q && sees(p as int, y) && occupied(#[trigger] board@[y])
                            ==> cell_digit(board@[p as int]) != cell_digit(board@[y]),
                decreases 81 - q,
            {
                if sees_pos(p, q) {
                    proof {
                        crate::game::lemma_coords_pos(q as int);
                    }
                    let cq = board.at(q / 9, q % 9);
                    if let Some(e) = cell_digit_of(cq) {
                        if d == e {
                            return false;
                        }
                    }
                }
                q = q + 1;
            }
        }
        p = p + 1;
    }
    true
}

/// Decide whether the board is a completed legal grid: every cell holds a
/// digit and no row, column or box contains the same digit twice.
pub fn evaluate(board: &Board) -> (r: bool)
    requires
        board@.len() == 81,
    ensures
        r == is_legal_full(board@),
{
    board_is_full(board) && board_no_dups(board)
}

/// The evaluator is a pure function of the grid: two runs on the same grid
/// return the same boolean.
pub proof fn lemma_evaluate_idempotent(b: Seq<Cell>, r1: bool, r2: bool)
    requires
        r1 == is_legal_full(b),
        r2 == is_legal_full(b),
    ensures
        r1 == r2,
{
}

/// Whether digit `d` may be placed at position `(r, c)`: no occupied cell
/// in the same row, column or box already holds `d`.
pub fn is_valid_candidate(board: &Board, cand: Digit, r: usize, c: usize) -> (ok: bool)
    requires
        board@.len() == 81,
        r < 9,
        c < 9,
    ensures
        ok == can_place(board@, cand, crate::game::pos_of(r as int, c as int)),
{
    proof {
        crate::game::lemma_pos_coords(r as int, c as int);
    }
    let p: usize = r * 9 + c;
    let mut q: usize = 0;
    while q < 81
        invariant
            q <= 81,
            p < 81,
            p as int == crate::game::pos_of(r as int, c as int),
            board@.len() == 81,
            forall|y: int|
                0 <= y < q && sees(p as int, y) && occupied(#[trigger] board@[y]) ==> cell_digit(
                    board@[y],
                ) != Some(cand),
        decreases 81 - q,
    {
        if sees_pos(p, q) {
            proof {
                crate::game::lemma_coords_pos(q as int);
            }
            if let Some(e) = cell_digit_of(board.at(q / 9, q % 9)) {
                if e == cand {
                    proof {
                        assert(!can_place(board@, cand, p as int)) by {
                            assert(in_pos(q as int));
                            assert(sees(p as int, q as int));
                            assert(occupied(board@[q as int]));
                            assert(cell_digit(board@[q as int]) == Some(cand));
                        }
                    }
                    return false;
                }
            }
        }
        q = q + 1;
    }
    true
}

} // verus!
