//! Full-grid generation and puzzle reduction: fill an empty grid into a
//! complete legal grid by randomised backtracking, then carve givens out
//! of it while the uniqueness check keeps succeeding.
use vstd::prelude::*;

use crate::game::{
    all_digits_seq, cell_digit, cleared_of, givens_count, has_empty, has_unique_completion,
    in_pos, is_completion, is_full, is_legal_full, lemma_all_digits_no_duplicates,
    lemma_full_grid_unique_completion, lemma_givens_count_all, lemma_givens_count_update,
    lemma_no_dups_same_digits, lemma_same_multiset_digits, no_dups, occupied, Board, Cell, Digit,
};
use crate::naive_solver::{search, solve, CandidatesBoard, SolverResult};
use crate::rng::{new_rng, shuffle};
use crate::utilities::coords_from_pos;

verus! {

/// How many givens above the requested target a finished reduction may
/// keep: a removal order can get stuck before reaching the target, and a
/// result this close is accepted rather than thrown away.
pub const GIVENS_TOLERANCE: u8 = 10;

/// How many fresh full grids one reduction call may work through before
/// reporting that the budget came up empty.
pub const MAX_ATTEMPTS: u8 = 64;

/// The digit index the fallback grid holds at `(r, c)`: each row is the
/// nine digits rotated so that rows, columns and boxes never repeat one.
pub open spec fn base_idx(r: int, c: int) -> int {
    (3 * (r % 3) + r / 3 + c) % 9
}

/// Two in-range values whose difference is less than nine leave distinct
/// remainders.
proof fn lemma_mod9_neq(a: int, b: int)
    requires
        0 <= a,
        0 <= b,
        a != b,
        -9 < a - b < 9,
    ensures
        a % 9 != b % 9,
{
    assert(a % 9 != b % 9) by (nonlinear_arith)
        requires 0 <= a, 0 <= b, a != b, -9 < a - b < 9;
}

/// Cells of the fallback grid that share a row, a column or a box get
/// distinct digit indices.
proof fn lemma_base_idx_distinct(r1: int, c1: int, r2: int, c2: int)
    requires
        0 <= r1 < 9,
        0 <= c1 < 9,
        0 <= r2 < 9,
        0 <= c2 < 9,
        !(r1 == r2 && c1 == c2),
        r1 == r2 || c1 == c2 || (r1 / 3 == r2 / 3 && c1 / 3 == c2 / 3),
    ensures
        base_idx(r1, c1) != base_idx(r2, c2),
{
    let u1 = 3 * (r1 % 3) + r1 / 3;
    let u2 = 3 * (r2 % 3) + r2 / 3;
    assert(0 <= r1 % 3 < 3 && 0 <= r1 / 3 < 3 && 0 <= r2 % 3 < 3 && 0 <= r2 / 3 < 3)
        by (nonlinear_arith)
        requires 0 <= r1 < 9, 0 <= r2 < 9;
    assert(0 <= c1 % 3 < 3 && 0 <= c1 / 3 < 3 && 0 <= c2 % 3 < 3 && 0 <= c2 / 3 < 3)
        by (nonlinear_arith)
        requires 0 <= c1 < 9, 0 <= c2 < 9;
    if r1 == r2 {
        lemma_mod9_neq(u1 + c1, u2 + c2);
    } else if c1 == c2 {
        assert(r1 == 3 * (r1 / 3) + r1 % 3 && r2 == 3 * (r2 / 3) + r2 % 3) by (nonlinear_arith)
            requires 0 <= r1 < 9, 0 <= r2 < 9;
        assert(u1 != u2);
        lemma_mod9_neq(u1 + c1, u2 + c2);
    } else {
        // same box: the offset within the box decides the index
        assert(c1 == 3 * (c1 / 3) + c1 % 3 && c2 == 3 * (c2 / 3) + c2 % 3) by (nonlinear_arith)
            requires 0 <= c1 < 9, 0 <= c2 < 9;
        assert(r1 == 3 * (r1 / 3) + r1 % 3 && r2 == 3 * (r2 / 3) + r2 % 3) by (nonlinear_arith)
            requires 0 <= r1 < 9, 0 <= r2 < 9;
        let v1 = 3 * (r1 % 3) + c1 % 3;
        let v2 = 3 * (r2 % 3) + c2 % 3;
        assert(v1 != v2);
        assert(u1 + c1 == v1 + (r1 / 3 + 3 * (c1 / 3)));
        assert(u2 + c2 == v2 + (r2 / 3 + 3 * (c2 / 3)));
        lemma_mod9_neq(u1 + c1, u2 + c2);
    }
}

/// A grid following the fallback pattern satisfies all 27 constraints.
proof fn lemma_base_grid_legal(b: Seq<Cell>)
    requires
        b.len() == 81,
        forall|p: int|
            in_pos(p) ==> #[trigger] b[p] == Cell::Given(
                crate::game::all_digits_seq()[base_idx(
                    crate::game::row_of(p),
                    crate::game::col_of(p),
                )],
            ),
    ensures
        is_legal_full(b),
{
    crate::game::lemma_all_digits_no_duplicates();
    assert forall|p: int| in_pos(p) implies occupied(#[trigger] b[p]) by {
        crate::game::lemma_coords_pos(p);
        assert(0 <= base_idx(crate::game::row_of(p), crate::game::col_of(p)) < 9)
            by (nonlinear_arith);
    }
    assert forall|p: int, q: int|
        in_pos(p) && in_pos(q) && crate::game::sees(p, q) && occupied(#[trigger] b[p])
            && occupied(#[trigger] b[q]) implies cell_digit(b[p]) != cell_digit(b[q]) by {
        crate::game::lemma_coords_pos(p);
        crate::game::lemma_coords_pos(q);
        let r1 = crate::game::row_of(p);
        let c1 = crate::game::col_of(p);
        let r2 = crate::game::row_of(q);
        let c2 = crate::game::col_of(q);
        assert(!(r1 == r2 && c1 == c2));
        lemma_base_idx_distinct(r1, c1, r2, c2);
        assert(0 <= base_idx(r1, c1) < 9 && 0 <= base_idx(r2, c2) < 9) by (nonlinear_arith);
        assert(crate::game::all_digits_seq()[base_idx(r1, c1)]
            != crate::game::all_digits_seq()[base_idx(r2, c2)]);
    }
}

/// The deterministic fallback: a complete legal grid following a fixed
/// rotation pattern, used only if the randomised search were ever to
/// exhaust its space without a find.
fn base_full_board() -> (b: Board)
    ensures
        b@.len() == 81,
        is_legal_full(b@),
        forall|p: int| in_pos(p) ==> (#[trigger] b@[p]) is Given,
{
    let digits = crate::game::all_digits();
    let mut board = Board::zeroed();
    let mut p: usize = 0;
    while p < 81
        invariant
            p <= 81,
            board@.len() == 81,
            digits@ == crate::game::all_digits_seq(),
            digits@.len() == 9,
            forall|q: int|
                0 <= q < p ==> #[trigger] board@[q] == Cell::Given(
                    crate::game::all_digits_seq()[base_idx(
                        crate::game::row_of(q),
                        crate::game::col_of(q),
                    )],
                ),
        decreases 81 - p,
    {
        let (r, c) = coords_from_pos(p);
        let idx = (3 * (r % 3) + r / 3 + c) % 9;
        board.set(r, c, Cell::Given(digits[idx]));
        proof {
            crate::game::lemma_coords_pos(p as int);
        }
        p = p + 1;
    }
    proof {
        lemma_base_grid_legal(board@);
    }
    board
}

/// Fill an empty grid into a complete legal grid of `Given` cells by a
/// randomised backtracking search; if the search were ever to exhaust
/// its space without a find, a fixed legal grid stands in, so the result
/// is a fully populated legal grid in every case.
pub fn generate_full_board(rng: &mut rand::rngs::ThreadRng) -> (b: Board)
    ensures
        b@.len() == 81,
        is_legal_full(b@),
        forall|p: int| in_pos(p) ==> (#[trigger] b@[p]) is Given,
        givens_count(b@) == 81,
{
    let zero = Board::zeroed();
    proof {
        assert(!occupied(zero@[0]));
        assert(has_empty(zero@));
        assert(no_dups(zero@));
    }
    let mut cb = CandidatesBoard::new(zero);
    let ghost cb0 = cb;
    cb.shuffle_stacks(rng);
    proof {
        lemma_all_digits_no_duplicates();
        assert forall|p: int, d: Digit|
            in_pos(p) && cb.tracked_pos(p) implies #[trigger] cb.stack_at(p).contains(d) by {
            assert(cb0.tracked_pos(p));
            assert(cb0.stack_at(p) == all_digits_seq());
            lemma_same_multiset_digits(cb0.stack_at(p), cb.stack_at(p));
            assert(all_digits_seq().contains(d));
        }
        assert forall|p: int|
            in_pos(p) && #[trigger] cb.tracked_pos(p) implies cb.stack_at(
            p,
        ).no_duplicates() by {
            assert(cb0.tracked_pos(p));
            assert(cb0.stack_at(p) == all_digits_seq());
            lemma_same_multiset_digits(cb0.stack_at(p), cb.stack_at(p));
        }
    }
    let (_count, sol) = search(&mut cb, 1);
    match sol {
        Some(s) => {
            proof {
                assert forall|q: int| in_pos(q) implies (#[trigger] s@[q]) is NonGiven by {
                    assert(!occupied(zero@[q]));
                }
            }
            // turn the found completion into a grid of givens
            let mut out = s;
            let mut p: usize = 0;
            while p < 81
                invariant
                    p <= 81,
                    out@.len() == 81,
                    s@.len() == 81,
                    forall|q: int| in_pos(q) ==> (#[trigger] s@[q]) is NonGiven,
                    forall|q: int|
                        in_pos(q) ==> cell_digit(#[trigger] out@[q]) == cell_digit(s@[q]),
                    forall|q: int| 0 <= q < p ==> (#[trigger] out@[q]) is Given,
                    forall|q: int| p <= q < 81 ==> #[trigger] out@[q] == s@[q],
                decreases 81 - p,
            {
                let (r, c) = coords_from_pos(p);
                match out.at(r, c) {
                    Cell::NonGiven(d) => out.set(r, c, Cell::Given(d)),
                    Cell::Given(_) => {
                        proof {
                            assert(false);
                        }
                    },
                    Cell::Empty => {
                        proof {
                            assert(false);
                        }
                    },
                }
                p = p + 1;
            }
            proof {
                assert forall|q: int| in_pos(q) implies occupied(#[trigger] out@[q]) by {}
                lemma_no_dups_same_digits(s@, out@);
                assert forall|q: int| 0 <= q < out@.len() implies (#[trigger] out@[q])
                    is Given by {}
                lemma_givens_count_all(out@);
            }
            out
        },
        None => {
            let fallback = base_full_board();
            proof {
                assert forall|q: int| 0 <= q < fallback@.len() implies (#[trigger] fallback@[q])
                    is Given by {}
                lemma_givens_count_all(fallback@);
            }
            fallback
        },
    }
}

/// A puzzle source: something that produces a solved grid whose `Given`
/// cells are the distributed clues and whose `NonGiven` cells hold the
/// solution's remaining digits.
pub trait Generator {
    /// The generator's configuration is acceptable.
    spec fn wf(&self) -> bool;

    /// The fewest `Given` cells a produced puzzle may keep.
    spec fn min_givens(&self) -> int;

    /// The most `Given` cells a produced puzzle may keep.
    spec fn max_givens(&self) -> int;

    /// Produce a solved grid carrying a puzzle: a legal full grid whose
    /// given count lies between the promised bounds and whose givens-only
    /// grid has exactly one completion. Carving is driven by chance, so a
    /// bounded run may come up empty-handed; `None` reports that instead
    /// of a puzzle that breaks the promise.
    fn generate_puzzle(&self) -> (b: Option<Board>)
        requires
            self.wf(),
        ensures
            b is Some ==> {
                &&& b->0@.len() == 81
                &&& is_legal_full(b->0@)
                &&& self.min_givens() <= givens_count(b->0@) <= self.max_givens()
                &&& has_unique_completion(cleared_of(b->0@))
            },
    ;
}

/// The straightforward generator: fill a grid, then walk a random
/// permutation of the cells, clearing a given whenever the uniqueness
/// check still succeeds afterwards.
#[derive(Copy, Clone, Debug)]
pub struct NaiveGenerator {
    pub num_givens: u8,
}

impl NaiveGenerator {
    /// A generator aiming for `set_givens` given cells; zero selects the
    /// default of 39.
    pub fn new(set_givens: u8) -> (g: NaiveGenerator)
        ensures
            g.num_givens == if set_givens != 0 {
                set_givens
            } else {
                39u8
            },
    {
        NaiveGenerator {
            num_givens: if set_givens != 0 {
                set_givens
            } else {
                39
            },
        }
    }

    /// One generation attempt: fill a fresh full grid, then walk a random
    /// permutation of all 81 cells, carving a given whenever the puzzle
    /// keeps a unique solution without it. Succeeds when the walk reaches
    /// the target or gets stuck within the documented tolerance of it;
    /// gives `None` back otherwise, so that a caller — or a racing worker
    /// — may retry with a fresh grid or give up when it is cancelled.
    pub fn generate_puzzle_attempt(&self, rng: &mut rand::rngs::ThreadRng) -> (r: Option<Board>)
        requires
            self.wf(),
        ensures
            r is Some ==> {
                &&& r->0@.len() == 81
                &&& is_legal_full(r->0@)
                &&& self.num_givens <= givens_count(r->0@) <= self.num_givens
                    + GIVENS_TOLERANCE
                &&& has_unique_completion(cleared_of(r->0@))
            },
    {
        let full = generate_full_board(rng);
        let mut board = full;
        let mut givens: u8 = 81;
        proof {
            lemma_givens_count_all(board@);
            // an uncarved grid is its own single completion
            assert(cleared_of(board@) =~= board@);
            lemma_full_grid_unique_completion(board@);
        }
        // a (pseudo)random order of cells to try to clear
        let mut positions: Vec<usize> = Vec::new();
        let mut j: usize = 0;
        while j < 81
            invariant
                j <= 81,
                positions@.len() == j,
            decreases 81 - j,
        {
            positions.push(j);
            j = j + 1;
        }
        shuffle(rng, &mut positions);
        let mut i: usize = 0;
        while i < 81 && givens > self.num_givens
            invariant
                self.wf(),
                i <= 81,
                board@.len() == 81,
                is_full(board@),
                no_dups(board@),
                has_unique_completion(cleared_of(board@)),
                givens as int == givens_count(board@),
                givens >= self.num_givens,
                positions@.len() == 81,
            decreases 81 - i,
        {
            let p = positions[i];
            if p < 81 {
                let (r, c) = coords_from_pos(p);
                if let Cell::Given(d) = board.at(r, c) {
                    // clear this cell on top of every cell carved so far
                    // and test whether the puzzle still has exactly one
                    // solution
                    let mut scratch = board.non_givens_cleared();
                    proof {
                        assert(scratch@ =~= cleared_of(board@));
                    }
                    scratch.set(r, c, Cell::Empty);
                    let ghost target = scratch@;
                    match solve(&mut scratch) {
                        SolverResult::Invalid => {},
                        SolverResult::Valid => {
                            let ghost old_b = board@;
                            proof {
                                crate::game::lemma_pos_coords(r as int, c as int);
                                // the full grid, with its remaining cells
                                // read as player-filled, completes the
                                // grid that was just cleared once more
                                let w = Seq::new(
                                    81,
                                    |q: int|
                                        if occupied(target[q]) {
                                            target[q]
                                        } else {
                                            Cell::NonGiven(cell_digit(old_b[q])->0)
                                        },
                                );
                                assert forall|q: int| in_pos(q) implies cell_digit(#[trigger] w[q])
                                    == cell_digit(old_b[q]) by {
                                    if occupied(target[q]) {
                                        assert(target[q] == old_b[q]);
                                    } else {
                                        assert(occupied(old_b[q]));
                                    }
                                }
                                lemma_no_dups_same_digits(old_b, w);
                                assert forall|q: int| in_pos(q) implies occupied(
                                    #[trigger] w[q],
                                ) by {
                                    assert(occupied(old_b[q]));
                                }
                                assert(is_completion(w, target));
                                // the uniqueness check passed, so that
                                // completion is the only one
                                assert(has_unique_completion(target));
                            }
                            board.set(r, c, Cell::NonGiven(d));
                            proof {
                                assert forall|q: int| in_pos(q) implies cell_digit(
                                    #[trigger] old_b[q],
                                ) == cell_digit(board@[q]) by {}
                                lemma_no_dups_same_digits(old_b, board@);
                                assert forall|q: int| in_pos(q) implies occupied(
                                    #[trigger] board@[q],
                                ) by {
                                    assert(occupied(old_b[q]));
                                }
                                lemma_givens_count_update(old_b, p as int, Cell::NonGiven(d));
                                assert(cleared_of(board@) =~= target);
                            }
                            givens = givens - 1;
                        },
                    }
                }
            }
            i = i + 1;
        }
        if givens > self.num_givens + GIVENS_TOLERANCE {
            return None;
        }
        // final sanity check with the evaluator; the invariants above
        // prove that it can only confirm
        if !crate::evaluator::evaluate(&board) {
            return None;
        }
        Some(board)
    }
}

/// Why a generation request is rejected before any search begins.
#[derive(Copy, Clone, Debug, PartialEq, Eq, Structural)]
pub enum ConfigError {
    GivensOutOfRange,
    NoWorkers,
}

/// Check a generation request: the target number of givens must lie
/// between 17 and 80 and at least one worker must be asked for. Anything
/// outside is a configuration error, surfaced before any search begins.
pub fn validate_generation_config(num_givens: u8, worker_count: u8) -> (r: Result<
    (),
    ConfigError,
>)
    ensures
        r is Ok <==> (17 <= num_givens <= 80 && worker_count >= 1),
        r == Err::<(), ConfigError>(ConfigError::GivensOutOfRange) <==> !(17 <= num_givens
            <= 80),
        r == Err::<(), ConfigError>(ConfigError::NoWorkers) <==> (17 <= num_givens <= 80
            && worker_count == 0),
{
    if num_givens < 17 || num_givens > 80 {
        Err(ConfigError::GivensOutOfRange)
    } else if worker_count == 0 {
        Err(ConfigError::NoWorkers)
    } else {
        Ok(())
    }
}

impl Generator for NaiveGenerator {
    /// The target must lie between 17 (the minimum for a uniquely
    /// solvable grid) and 80 (one below full).
    open spec fn wf(&self) -> bool {
        17 <= self.num_givens <= 80
    }

    open spec fn min_givens(&self) -> int {
        self.num_givens as int
    }

    open spec fn max_givens(&self) -> int {
        self.num_givens as int + GIVENS_TOLERANCE as int
    }

    fn generate_puzzle(&self) -> (b: Option<Board>) {
        let mut rng = new_rng();
        let mut attempts: u8 = 0;
        while attempts < MAX_ATTEMPTS
            invariant
                self.wf(),
            decreases MAX_ATTEMPTS - attempts,
        {
            if let Some(board) = self.generate_puzzle_attempt(&mut rng) {
                return Some(board);
            }
            attempts = attempts + 1;
        }
        // every attempt of the budget got stuck above target and
        // tolerance: report that rather than a puzzle breaking the
        // promise (in practice an attempt succeeds long before this)
        None
    }
}

} // verus!
