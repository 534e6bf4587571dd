use ku::game::{all_digits, Board, Cell, Digit};
use ku::utilities::{coords_from_pos, square_limits_from_cell, square_limits_from_square};

#[test]
fn test_board_at_and_set() {
    let mut board = Board::zeroed();
    assert_eq!(board.at(4, 7), Cell::Empty);
    board.set(4, 7, Cell::Given(Digit::D3));
    assert_eq!(board.at(4, 7), Cell::Given(Digit::D3));
    assert_eq!(board.at(4, 6), Cell::Empty);
    board.set(4, 7, Cell::NonGiven(Digit::D9));
    assert_eq!(board.at(4, 7), Cell::NonGiven(Digit::D9));
}

#[test]
fn test_board_rows_and_columns() {
    let mut board = Board::zeroed();
    board.set(2, 0, Cell::Given(Digit::D1));
    board.set(2, 8, Cell::Given(Digit::D2));
    board.set(0, 5, Cell::NonGiven(Digit::D7));
    let row = board.row_cells(2);
    assert_eq!(row.len(), 9);
    assert_eq!(row[0], Cell::Given(Digit::D1));
    assert_eq!(row[8], Cell::Given(Digit::D2));
    assert_eq!(row[4], Cell::Empty);
    let col = board.col_cells(5);
    assert_eq!(col.len(), 9);
    assert_eq!(col[0], Cell::NonGiven(Digit::D7));
    assert_eq!(col[1], Cell::Empty);
}

#[test]
fn test_non_givens_cleared() {
    let mut board = Board::zeroed();
    board.set(0, 0, Cell::Given(Digit::D5));
    board.set(1, 1, Cell::NonGiven(Digit::D6));
    board.set(2, 2, Cell::NonGiven(Digit::D7));
    let cleared = board.non_givens_cleared();
    assert_eq!(cleared.at(0, 0), Cell::Given(Digit::D5));
    assert_eq!(cleared.at(1, 1), Cell::Empty);
    assert_eq!(cleared.at(2, 2), Cell::Empty);
    assert_eq!(cleared.at(3, 3), Cell::Empty);
}

#[test]
fn test_set_non_given_refuses_givens() {
    // placing a digit on a position holding a given leaves the grid
    // unchanged
    let mut board = Board::zeroed();
    board.set(3, 4, Cell::Given(Digit::D2));
    board.set_non_given(3, 4, Cell::NonGiven(Digit::D8));
    assert_eq!(board.at(3, 4), Cell::Given(Digit::D2));
    board.set_non_given(3, 4, Cell::Empty);
    assert_eq!(board.at(3, 4), Cell::Given(Digit::D2));
    // but it overwrites empty and player-filled cells
    board.set_non_given(3, 5, Cell::NonGiven(Digit::D8));
    assert_eq!(board.at(3, 5), Cell::NonGiven(Digit::D8));
    board.set_non_given(3, 5, Cell::NonGiven(Digit::D4));
    assert_eq!(board.at(3, 5), Cell::NonGiven(Digit::D4));
    board.set_non_given(3, 5, Cell::Empty);
    assert_eq!(board.at(3, 5), Cell::Empty);
}

#[test]
fn test_cell_to_string() {
    assert_eq!(Cell::Given(Digit::D5).to_string(false), "5");
    assert_eq!(Cell::Given(Digit::D5).to_string(true), "5");
    assert_eq!(Cell::NonGiven(Digit::D3).to_string(true), "3");
    assert_eq!(Cell::NonGiven(Digit::D3).to_string(false), "_");
    assert_eq!(Cell::Empty.to_string(true), "_");
    assert_eq!(Cell::Empty.to_string(false), "_");
}

#[test]
fn test_digit_characters() {
    assert_eq!(Digit::D1.as_char(), '1');
    assert_eq!(Digit::D9.as_char(), '9');
    assert_eq!(Digit::from_char('4'), Some(Digit::D4));
    assert_eq!(Digit::from_char('0'), None);
    assert_eq!(Digit::from_char('x'), None);
    let digits = all_digits();
    assert_eq!(digits.len(), 9);
    for (i, d) in digits.iter().enumerate() {
        assert_eq!(d.as_char(), char::from_digit(i as u32 + 1, 10).unwrap());
    }
}

#[test]
fn test_square_limits() {
    assert_eq!(square_limits_from_square(0), (0, 0));
    assert_eq!(square_limits_from_square(1), (0, 3));
    assert_eq!(square_limits_from_square(4), (3, 3));
    assert_eq!(square_limits_from_square(8), (6, 6));
    assert_eq!(square_limits_from_cell(0, 0), (0, 0));
    assert_eq!(square_limits_from_cell(7, 2), (6, 0));
    assert_eq!(square_limits_from_cell(4, 8), (3, 6));
}

#[test]
fn test_coords_from_pos() {
    assert_eq!(coords_from_pos(0), (0, 0));
    assert_eq!(coords_from_pos(8), (0, 8));
    assert_eq!(coords_from_pos(9), (1, 0));
    assert_eq!(coords_from_pos(40), (4, 4));
    assert_eq!(coords_from_pos(80), (8, 8));
}

#[test]
fn test_fill_box_randomly() {
    let mut board = Board::zeroed();
    board.set(0, 0, Cell::Given(Digit::D1));
    let mut rng = ku::rng::new_rng();
    ku::testing::fill_box_randomly(&mut board, 5, &mut rng);
    // box 5 covers rows 3..6 and columns 3..6 and now holds each of the
    // nine digits exactly once, as givens
    let mut seen = [false; 9];
    for r in 3..6 {
        for c in 3..6 {
            match board.at(r, c) {
                Cell::Given(d) => {
                    let idx = d.as_char() as usize - '1' as usize;
                    assert!(!seen[idx]);
                    seen[idx] = true;
                }
                other => panic!("box cell left unfilled: {:?}", other),
            }
        }
    }
    assert!(seen.iter().all(|&s| s));
    // everything outside the box is untouched
    assert_eq!(board.at(0, 0), Cell::Given(Digit::D1));
    assert_eq!(board.at(8, 8), Cell::Empty);
    assert_eq!(board.at(3, 2), Cell::Empty);
    assert_eq!(board.at(6, 6), Cell::Empty);
}
