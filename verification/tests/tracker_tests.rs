use ku::game::{Board, Cell, Digit};
use ku::naive_solver::CandidatesBoard;

fn pattern_board() -> Board {
    let digits = [
        Digit::D1,
        Digit::D2,
        Digit::D3,
        Digit::D4,
        Digit::D5,
        Digit::D6,
        Digit::D7,
        Digit::D8,
        Digit::D9,
    ];
    let mut board = Board::zeroed();
    for r in 0..9 {
        for c in 0..9 {
            board.set(r, c, Cell::Given(digits[(r * 3 + r / 3 + c) % 9]));
        }
    }
    board
}

#[test]
fn test_tracker_cursor_walks_the_empty_cells() {
    let mut board = pattern_board();
    board.set(1, 1, Cell::Empty);
    board.set(4, 4, Cell::Empty);
    board.set(8, 5, Cell::Empty);
    let mut cb = CandidatesBoard::new(board);
    assert!(cb.is_first_nongiven());
    assert!(!cb.is_last_nongiven());
    // the cursor visits exactly the three empty cells, in order
    cb.next_non_given();
    assert!(!cb.is_first_nongiven());
    assert!(!cb.is_last_nongiven());
    cb.next_non_given();
    assert!(cb.is_last_nongiven());
    cb.prev_non_given();
    cb.prev_non_given();
    assert!(cb.is_first_nongiven());
}

#[test]
fn test_tracker_candidate_stacks() {
    let mut board = pattern_board();
    board.set(0, 3, Cell::Empty);
    board.set(6, 6, Cell::Empty);
    let mut cb = CandidatesBoard::new(board);
    // a fresh stack holds all nine digits, the last one on top
    let cands = cb.current_cell_candidates().unwrap();
    assert_eq!(cands.len(), 9);
    assert!(!cb.curr_cell_no_candidates());
    assert_eq!(cb.current_candidate(), Some(Digit::D9));
    cb.pop_current_candidate();
    assert_eq!(cb.current_candidate(), Some(Digit::D8));
    // popping the remaining candidates exhausts the stack
    for _ in 0..8 {
        cb.pop_current_candidate();
    }
    assert!(cb.curr_cell_no_candidates());
    assert_eq!(cb.current_candidate(), None);
    // a reset refills all nine digits
    cb.reset_current_candidates();
    assert!(!cb.curr_cell_no_candidates());
    assert_eq!(cb.current_candidate(), Some(Digit::D9));
}

#[test]
fn test_tracker_candidate_validity_check() {
    let mut board = pattern_board();
    // clearing (0, 3) leaves a cell whose row already holds 5..9 and
    // 1..3, so only the digit 4 fits there
    board.set(0, 3, Cell::Empty);
    let mut cb = CandidatesBoard::new(board);
    // the top of a fresh stack is 9, which conflicts with the row
    assert!(!cb.is_current_candidate_valid());
    for _ in 0..5 {
        cb.pop_current_candidate();
    }
    // after five pops the top is 4, the one fitting digit
    assert_eq!(cb.current_candidate(), Some(Digit::D4));
    assert!(cb.is_current_candidate_valid());
}

#[test]
fn test_tracker_generate_solution_writes_stack_tops() {
    let mut board = pattern_board();
    board.set(1, 1, Cell::Empty);
    board.set(8, 5, Cell::Empty);
    let mut cb = CandidatesBoard::new(board);
    assert_eq!(cb.snapshot().at(1, 1), Cell::Empty);
    cb.generate_solution();
    let snap = cb.snapshot();
    // every empty cell now holds its stack's top as a non-given
    assert_eq!(snap.at(1, 1), Cell::NonGiven(Digit::D9));
    assert_eq!(snap.at(8, 5), Cell::NonGiven(Digit::D9));
    // and the occupied cells are untouched
    assert_eq!(snap.at(0, 0), board.at(0, 0));
    assert_eq!(snap.at(4, 4), board.at(4, 4));
}
