use ku::evaluator::evaluate;
use ku::game::Board;
use ku::game::Cell;
use ku::game::Digit::{D1, D2, D3, D4, D5, D6, D7, D8, D9};

#[test]
fn test_evaluating_valid_board1() {
    let board = Board::new([
        [Cell::Given(D1), Cell::Given(D2), Cell::Given(D3), Cell::Given(D4), Cell::Given(D5), Cell::Given(D6), Cell::Given(D7), Cell::Given(D8), Cell::Given(D9)],
        [Cell::Given(D4), Cell::Given(D5), Cell::Given(D6), Cell::Given(D7), Cell::Given(D8), Cell::Given(D9), Cell::Given(D1), Cell::Given(D2), Cell::Given(D3)],
        [Cell::Given(D7), Cell::Given(D8), Cell::Given(D9), Cell::Given(D1), Cell::Given(D2), Cell::Given(D3), Cell::Given(D4), Cell::Given(D5), Cell::Given(D6)],
        [Cell::Given(D2), Cell::Given(D3), Cell::Given(D4), Cell::Given(D5), Cell::Given(D6), Cell::Given(D7), Cell::Given(D8), Cell::Given(D9), Cell::Given(D1)],
        [Cell::Given(D5), Cell::Given(D6), Cell::Given(D7), Cell::Given(D8), Cell::Given(D9), Cell::Given(D1), Cell::Given(D2), Cell::Given(D3), Cell::Given(D4)],
        [Cell::Given(D8), Cell::Given(D9), Cell::Given(D1), Cell::Given(D2), Cell::Given(D3), Cell::Given(D4), Cell::Given(D5), Cell::Given(D6), Cell::Given(D7)],
        [Cell::Given(D3), Cell::Given(D4), Cell::Given(D5), Cell::Given(D6), Cell::Given(D7), Cell::Given(D8), Cell::Given(D9), Cell::Given(D1), Cell::Given(D2)],
        [Cell::Given(D6), Cell::Given(D7), Cell::Given(D8), Cell::Given(D9), Cell::Given(D1), Cell::Given(D2), Cell::Given(D3), Cell::Given(D4), Cell::Given(D5)],
        [Cell::Given(D9), Cell::Given(D1), Cell::Given(D2), Cell::Given(D3), Cell::Given(D4), Cell::Given(D5), Cell::Given(D6), Cell::Given(D7), Cell::Given(D8)],
    ]);
    let valid = evaluate(&board);
    assert!(valid);
}

#[test]
fn test_evaluating_valid_board2() {
    let board = Board::new([
        [Cell::NonGiven(D1), Cell::Given(D2), Cell::Given(D3), Cell::Given(D4), Cell::Given(D5), Cell::Given(D6), Cell::Given(D7), Cell::Given(D8), Cell::Given(D9)],
        [Cell::Given(D4), Cell::NonGiven(D5), Cell::Given(D6), Cell::Given(D7), Cell::Given(D8), Cell::Given(D9), Cell::Given(D1), Cell::Given(D2), Cell::Given(D3)],
        [Cell::Given(D7), Cell::Given(D8), Cell::NonGiven(D9), Cell::Given(D1), Cell::Given(D2), Cell::Given(D3), Cell::Given(D4), Cell::Given(D5), Cell::Given(D6)],
        [Cell::Given(D2), Cell::Given(D3), Cell::Given(D4), Cell::NonGiven(D5), Cell::NonGiven(D6), Cell::Given(D7), Cell::Given(D8), Cell::Given(D9), Cell::Given(D1)],
        [Cell::Given(D5), Cell::Given(D6), Cell::Given(D7), Cell::Given(D8), Cell::Given(D9), Cell::Given(D1), Cell::Given(D2), Cell::Given(D3), Cell::Given(D4)],
        [Cell::Given(D8), Cell::Given(D9), Cell::Given(D1), Cell::Given(D2), Cell::Given(D3), Cell::Given(D4), Cell::Given(D5), Cell::Given(D6), Cell::Given(D7)],
        [Cell::Given(D3), Cell::Given(D4), Cell::Given(D5), Cell::Given(D6), Cell::Given(D7), Cell::Given(D8), Cell::Given(D9), Cell::Given(D1), Cell::Given(D2)],
        [Cell::Given(D6), Cell::Given(D7), Cell::Given(D8), Cell::Given(D9), Cell::Given(D1), Cell::Given(D2), Cell::Given(D3), Cell::Given(D4), Cell::Given(D5)],
        [Cell::Given(D9), Cell::Given(D1), Cell::Given(D2), Cell::Given(D3), Cell::Given(D4), Cell::Given(D5), Cell::Given(D6), Cell::Given(D7), Cell::Given(D8)],
    ]);
    let valid = evaluate(&board);
    assert!(valid);
}

#[test]
fn test_evaluating_valid_board3() {
    let board = Board::new([
        [Cell::Given(D8), Cell::Given(D7), Cell::Given(D2), Cell::Given(D4), Cell::Given(D1), Cell::Given(D5), Cell::Given(D3), Cell::Given(D6), Cell::Given(D9)],
        [Cell::Given(D6), Cell::Given(D9), Cell::Given(D1), Cell::Given(D7), Cell::Given(D8), Cell::Given(D3), Cell::Given(D5), Cell::Given(D4), Cell::Given(D2)],
        [Cell::Given(D4), Cell::Given(D3), Cell::Given(D5), Cell::Given(D9), Cell::Given(D2), Cell::Given(D6), Cell::Given(D7), Cell::Given(D8), Cell::Given(D1)],
        [Cell::Given(D7), Cell::Given(D6), Cell::Given(D3), Cell::Given(D2), Cell::Given(D5), Cell::Given(D8), Cell::Given(D1), Cell::Given(D9), Cell::Given(D4)],
        [Cell::Given(D2), Cell::Given(D5), Cell::Given(D8), Cell::Given(D1), Cell::Given(D9), Cell::Given(D4), Cell::Given(D6), Cell::Given(D3), Cell::Given(D7)],
        [Cell::Given(D1), Cell::Given(D4), Cell::Given(D9), Cell::Given(D6), Cell::Given(D3), Cell::Given(D7), Cell::Given(D2), Cell::Given(D5), Cell::Given(D8)],
        [Cell::Given(D3), Cell::Given(D8), Cell::Given(D7), Cell::Given(D5), Cell::Given(D4), Cell::Given(D2), Cell::Given(D9), Cell::Given(D1), Cell::Given(D6)],
        [Cell::Given(D5), Cell::Given(D1), Cell::Given(D6), Cell::Given(D8), Cell::Given(D7), Cell::Given(D9), Cell::Given(D4), Cell::Given(D2), Cell::Given(D3)],
        [Cell::Given(D9), Cell::Given(D2), Cell::Given(D4), Cell::Given(D3), Cell::Given(D6), Cell::Given(D1), Cell::Given(D8), Cell::Given(D7), Cell::Given(D5)],
    ]);
    let valid = evaluate(&board);
    assert!(valid);
}

#[test]
fn test_evaluating_invalid_board1() {
    let board = Board::new([
        [Cell::Given(D1), Cell::Given(D7), Cell::Given(D2), Cell::Given(D4), Cell::Given(D1), Cell::Given(D5), Cell::Given(D3), Cell::Given(D6), Cell::Given(D9)],
        [Cell::Given(D6), Cell::NonGiven(D9), Cell::Given(D1), Cell::Given(D7), Cell::Given(D8), Cell::Given(D3), Cell::Given(D5), Cell::Given(D4), Cell::Given(D2)],
        [Cell::Given(D4), Cell::Given(D3), Cell::Given(D5), Cell::Given(D9), Cell::Given(D2), Cell::Given(D6), Cell::Given(D7), Cell::Given(D8), Cell::Given(D1)],
        [Cell::Given(D7), Cell::Given(D6), Cell::Given(D3), Cell::Given(D2), Cell::Given(D5), Cell::Given(D8), Cell::Given(D1), Cell::Given(D9), Cell::Given(D4)],
        [Cell::Given(D2), Cell::Given(D5), Cell::Given(D8), Cell::Given(D1), Cell::Given(D9), Cell::Given(D4), Cell::Given(D6), Cell::Given(D3), Cell::Given(D7)],
        [Cell::Given(D1), Cell::Given(D4), Cell::NonGiven(D9), Cell::Given(D6), Cell::Given(D3), Cell::Given(D7), Cell::Given(D2), Cell::Given(D5), Cell::Given(D8)],
        [Cell::Given(D3), Cell::Given(D8), Cell::Given(D7), Cell::Given(D5), Cell::Given(D4), Cell::Given(D2), Cell::Given(D9), Cell::Given(D1), Cell::Given(D6)],
        [Cell::Given(D5), Cell::Given(D1), Cell::Given(D6), Cell::Given(D8), Cell::Given(D7), Cell::Given(D9), Cell::Given(D4), Cell::Given(D2), Cell::Given(D3)],
        [Cell::Given(D9), Cell::Given(D2), Cell::Given(D4), Cell::Given(D3), Cell::Given(D6), Cell::Given(D1), Cell::Given(D8), Cell::Given(D7), Cell::Given(D5)],
    ]);
    let valid = evaluate(&board);
    assert!(!valid);
}

#[test]
fn test_evaluating_invalid_board2() {
    let board = Board::new([
        [Cell::Empty, Cell::Given(D7), Cell::Given(D2), Cell::Given(D4), Cell::Given(D1), Cell::Given(D5), Cell::Given(D3), Cell::Given(D6), Cell::Given(D9)],
        [Cell::Given(D6), Cell::Given(D9), Cell::Given(D1), Cell::Given(D7), Cell::Given(D8), Cell::Given(D3), Cell::Given(D5), Cell::Given(D4), Cell::Given(D2)],
        [Cell::Given(D4), Cell::Given(D3), Cell::Given(D5), Cell::Given(D9), Cell::Given(D2), Cell::Given(D6), Cell::Given(D7), Cell::Given(D8), Cell::Given(D1)],
        [Cell::Given(D7), Cell::Given(D6), Cell::Given(D3), Cell::Given(D2), Cell::Given(D5), Cell::Given(D8), Cell::Given(D1), Cell::Given(D9), Cell::Given(D4)],
        [Cell::Given(D2), Cell::Given(D5), Cell::Given(D8), Cell::Given(D1), Cell::Given(D9), Cell::Given(D4), Cell::Given(D6), Cell::Given(D3), Cell::Given(D7)],
        [Cell::Given(D1), Cell::Given(D4), Cell::NonGiven(D9), Cell::Given(D6), Cell::Given(D3), Cell::Given(D7), Cell::Given(D2), Cell::Given(D5), Cell::Given(D8)],
        [Cell::Given(D3), Cell::Given(D8), Cell::Given(D7), Cell::Given(D5), Cell::Given(D4), Cell::Given(D2), Cell::Given(D9), Cell::Given(D1), Cell::Given(D6)],
        [Cell::Given(D5), Cell::Empty, Cell::Given(D6), Cell::Given(D8), Cell::Given(D7), Cell::Given(D9), Cell::Given(D1), Cell::Given(D2), Cell::Given(D3)],
        [Cell::Given(D9), Cell::Given(D2), Cell::Given(D4), Cell::Given(D3), Cell::Given(D6), Cell::Given(D1), Cell::Given(D8), Cell::Given(D7), Cell::Given(D5)],
    ]);
    let valid = evaluate(&board);
    assert!(!valid);
}

#[test]
fn test_evaluator_is_idempotent() {
    let board = Board::new([
        [Cell::Given(D8), Cell::Given(D7), Cell::Given(D2), Cell::Given(D4), Cell::Given(D1), Cell::Given(D5), Cell::Given(D3), Cell::Given(D6), Cell::Given(D9)],
        [Cell::Given(D6), Cell::Given(D9), Cell::Given(D1), Cell::Given(D7), Cell::Given(D8), Cell::Given(D3), Cell::Given(D5), Cell::Given(D4), Cell::Given(D2)],
        [Cell::Given(D4), Cell::Given(D3), Cell::Given(D5), Cell::Given(D9), Cell::Given(D2), Cell::Given(D6), Cell::Given(D7), Cell::Given(D8), Cell::Given(D1)],
        [Cell::Given(D7), Cell::Given(D6), Cell::Given(D3), Cell::Given(D2), Cell::Given(D5), Cell::Given(D8), Cell::Given(D1), Cell::Given(D9), Cell::Given(D4)],
        [Cell::Given(D2), Cell::Given(D5), Cell::Given(D8), Cell::Given(D1), Cell::Given(D9), Cell::Given(D4), Cell::Given(D6), Cell::Given(D3), Cell::Given(D7)],
        [Cell::Given(D1), Cell::Given(D4), Cell::Given(D9), Cell::Given(D6), Cell::Given(D3), Cell::Given(D7), Cell::Given(D2), Cell::Given(D5), Cell::Given(D8)],
        [Cell::Given(D3), Cell::Given(D8), Cell::Given(D7), Cell::Given(D5), Cell::Given(D4), Cell::Given(D2), Cell::Given(D9), Cell::Given(D1), Cell::Given(D6)],
        [Cell::Given(D5), Cell::Given(D1), Cell::Given(D6), Cell::Given(D8), Cell::Given(D7), Cell::Given(D9), Cell::Given(D4), Cell::Given(D2), Cell::Given(D3)],
        [Cell::Given(D9), Cell::Given(D2), Cell::Given(D4), Cell::Given(D3), Cell::Given(D6), Cell::Given(D1), Cell::Given(D8), Cell::Given(D7), Cell::Given(D5)],
    ]);
    let first = evaluate(&board);
    let second = evaluate(&board);
    assert_eq!(first, second);
    // and the same for a grid that fails the check
    let mut broken = board;
    broken.set(0, 0, Cell::Given(D7));
    let first = evaluate(&broken);
    let second = evaluate(&broken);
    assert_eq!(first, second);
    assert!(!first);
}
