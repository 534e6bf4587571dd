use ku::evaluator::evaluate;
use ku::game::Board;
use ku::game::Cell;
use ku::game::Digit::{D1, D2, D3, D4, D5, D6, D7, D8, D9};
use ku::naive_solver::{count_solutions, solve, SolverResult};

fn solved_board() -> Board {
    Board::new([
        [Cell::Given(D8), Cell::Given(D7), Cell::Given(D2), Cell::Given(D4), Cell::Given(D1), Cell::Given(D5), Cell::Given(D3), Cell::Given(D6), Cell::Given(D9)],
        [Cell::Given(D6), Cell::Given(D9), Cell::Given(D1), Cell::Given(D7), Cell::Given(D8), Cell::Given(D3), Cell::Given(D5), Cell::Given(D4), Cell::Given(D2)],
        [Cell::Given(D4), Cell::Given(D3), Cell::Given(D5), Cell::Given(D9), Cell::Given(D2), Cell::Given(D6), Cell::Given(D7), Cell::Given(D8), Cell::Given(D1)],
        [Cell::Given(D7), Cell::Given(D6), Cell::Given(D3), Cell::Given(D2), Cell::Given(D5), Cell::Given(D8), Cell::Given(D1), Cell::Given(D9), Cell::Given(D4)],
        [Cell::Given(D2), Cell::Given(D5), Cell::Given(D8), Cell::Given(D1), Cell::Given(D9), Cell::Given(D4), Cell::Given(D6), Cell::Given(D3), Cell::Given(D7)],
        [Cell::Given(D1), Cell::Given(D4), Cell::Given(D9), Cell::Given(D6), Cell::Given(D3), Cell::Given(D7), Cell::Given(D2), Cell::Given(D5), Cell::Given(D8)],
        [Cell::Given(D3), Cell::Given(D8), Cell::Given(D7), Cell::Given(D5), Cell::Given(D4), Cell::Given(D2), Cell::Given(D9), Cell::Given(D1), Cell::Given(D6)],
        [Cell::Given(D5), Cell::Given(D1), Cell::Given(D6), Cell::Given(D8), Cell::Given(D7), Cell::Given(D9), Cell::Given(D4), Cell::Given(D2), Cell::Given(D3)],
        [Cell::Given(D9), Cell::Given(D2), Cell::Given(D4), Cell::Given(D3), Cell::Given(D6), Cell::Given(D1), Cell::Given(D8), Cell::Given(D7), Cell::Given(D5)],
    ])
}

#[test]
fn test_one_empty_cell_is_rederived() {
    let mut board = solved_board();
    board.set(0, 0, Cell::Empty);
    let (count, sol) = count_solutions(&board, 2);
    assert_eq!(count, 1);
    let sol = sol.unwrap();
    assert_eq!(sol.at(0, 0), Cell::NonGiven(D8));
    assert!(evaluate(&sol));
}

#[test]
fn test_solve_fills_the_unique_completion_in_place() {
    let mut board = solved_board();
    board.set(8, 8, Cell::Empty);
    board.set(4, 4, Cell::Empty);
    let res = solve(&mut board);
    assert!(matches!(res, SolverResult::Valid));
    assert_eq!(board.at(8, 8), Cell::NonGiven(D5));
    assert_eq!(board.at(4, 4), Cell::NonGiven(D9));
    assert!(evaluate(&board));
}

#[test]
fn test_full_legal_grid_counts_as_its_own_completion() {
    let board = solved_board();
    let (count, sol) = count_solutions(&board, 2);
    assert_eq!(count, 1);
    assert!(sol.is_some());
    let mut board = solved_board();
    assert!(matches!(solve(&mut board), SolverResult::Valid));
}

#[test]
fn test_row_of_digits_alone_has_many_completions() {
    // every cell empty except row 0, which holds a valid permutation:
    // the count-mode search must report at least one completion (here it
    // hits the cap of two) without any fault
    let mut board = Board::zeroed();
    let digits = [D1, D2, D3, D4, D5, D6, D7, D8, D9];
    for (c, d) in digits.iter().enumerate() {
        board.set(0, c, Cell::Given(*d));
    }
    let (count, sol) = count_solutions(&board, 2);
    assert!(count >= 1);
    assert_eq!(count, 2);
    assert!(sol.is_some());
    assert!(evaluate(&sol.unwrap()));
    let mut board2 = board;
    assert!(matches!(solve(&mut board2), SolverResult::Invalid));
}

#[test]
fn test_duplicated_digit_means_no_completion() {
    // a solved grid with two cells in the same row swapped, so that the
    // crossing columns and boxes each hold a digit twice: illegal for
    // the evaluator, and no completion is reachable for the counting
    // search
    let mut board = solved_board();
    board.set(0, 0, Cell::Given(D7));
    board.set(0, 1, Cell::Given(D8));
    assert!(!evaluate(&board));
    let (count, sol) = count_solutions(&board, 2);
    assert_eq!(count, 0);
    assert!(sol.is_none());
    let before = board;
    let res = solve(&mut board);
    assert!(matches!(res, SolverResult::Valid));
    for r in 0..9 {
        for c in 0..9 {
            assert_eq!(board.at(r, c), before.at(r, c));
        }
    }
}

#[test]
fn test_partial_grid_with_conflict_has_no_completion() {
    // two equal givens in one column and some empty cells elsewhere
    let mut board = solved_board();
    board.set(3, 3, Cell::Empty);
    board.set(5, 7, Cell::Empty);
    board.set(0, 4, Cell::Given(D8));
    board.set(8, 4, Cell::Given(D8));
    let (count, _sol) = count_solutions(&board, 2);
    assert_eq!(count, 0);
}

#[test]
fn test_empty_grid_is_not_unique() {
    let mut board = Board::zeroed();
    let (count, sol) = count_solutions(&board, 2);
    assert_eq!(count, 2);
    assert!(sol.is_some());
    assert!(evaluate(&sol.unwrap()));
    assert!(matches!(solve(&mut board), SolverResult::Invalid));
}

#[test]
fn test_fill_mode_stops_at_first_completion() {
    let board = Board::zeroed();
    let (count, sol) = count_solutions(&board, 1);
    assert_eq!(count, 1);
    assert!(evaluate(&sol.unwrap()));
}
