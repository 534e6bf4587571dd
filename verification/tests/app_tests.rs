use ku::game::{Board, Cell, Digit};
use ku::generator::NaiveGenerator;
use ku::tui::{App, Message, MoveDirection, PuzzleScreenState, RunningState, SolutionStatus};

fn app_with_boards(puzzle: Board, solution: Board) -> App {
    App {
        generator: NaiveGenerator::new(40),
        puzzle: Some(puzzle),
        solution: Some(solution),
        running_state: RunningState::PuzzleScreen(PuzzleScreenState::Puzzle),
        position: None,
        solution_status: None,
    }
}

#[test]
fn test_app_starts_on_initial_screen() {
    let app = App::new(NaiveGenerator::new(40));
    assert_eq!(app.running_state, RunningState::InitialScreen);
    assert!(app.puzzle.is_none());
    assert!(app.solution.is_none());
    assert!(app.position.is_none());
    assert!(app.solution_status.is_none());
}

#[test]
fn test_app_quit() {
    let mut app = App::new(NaiveGenerator::new(40));
    let out = app.update(Message::Quit);
    assert!(out.is_none());
    assert_eq!(app.running_state, RunningState::Done);
}

#[test]
fn test_app_cursor_wraps_around() {
    let mut app = App::new(NaiveGenerator::new(40));
    // the first movement places the cursor at the top-left corner
    let out = app.update(Message::Move(MoveDirection::Left));
    assert!(out.is_none());
    assert_eq!(app.position, Some((0, 0)));
    // moving left from column 0 wraps to column 8
    app.update(Message::Move(MoveDirection::Left));
    assert_eq!(app.position, Some((0, 8)));
    app.update(Message::Move(MoveDirection::Right));
    assert_eq!(app.position, Some((0, 0)));
    // moving up from row 0 wraps to row 8
    app.update(Message::Move(MoveDirection::Up));
    assert_eq!(app.position, Some((8, 0)));
    app.update(Message::Move(MoveDirection::Down));
    assert_eq!(app.position, Some((0, 0)));
}

#[test]
fn test_app_increment_decrement_and_reset() {
    let mut app = App::new(NaiveGenerator::new(40));
    let out = app.update(Message::Increment);
    assert_eq!(out, Some(Message::GenerateNewPuzzle));
    assert_eq!(app.generator.num_givens, 41);
    let out = app.update(Message::Decrement);
    assert_eq!(out, Some(Message::GenerateNewPuzzle));
    assert_eq!(app.generator.num_givens, 40);
    let out = app.update(Message::Reset);
    assert_eq!(out, Some(Message::GenerateNewPuzzle));
    assert_eq!(app.generator.num_givens, 39);
    // the ends of the range are sticky
    let mut app = App::new(NaiveGenerator::new(80));
    assert!(app.update(Message::Increment).is_none());
    assert_eq!(app.generator.num_givens, 80);
    let mut app = App::new(NaiveGenerator::new(17));
    assert!(app.update(Message::Decrement).is_none());
    assert_eq!(app.generator.num_givens, 17);
}

#[test]
fn test_app_enter_digit_respects_givens() {
    // entering a digit on a given leaves the board unchanged; on an
    // empty cell it places a non-given that can be deleted again
    let mut puzzle = Board::zeroed();
    puzzle.set(0, 0, Cell::Given(Digit::D5));
    let mut app = app_with_boards(puzzle, puzzle);
    app.update(Message::Move(MoveDirection::Down));
    assert_eq!(app.position, Some((0, 0)));
    app.update(Message::EnterDigit('7'));
    assert_eq!(app.puzzle.as_ref().unwrap().at(0, 0), Cell::Given(Digit::D5));
    app.update(Message::DeleteDigit);
    assert_eq!(app.puzzle.as_ref().unwrap().at(0, 0), Cell::Given(Digit::D5));
    // one cell to the right is empty
    app.update(Message::Move(MoveDirection::Right));
    app.update(Message::EnterDigit('7'));
    assert_eq!(app.puzzle.as_ref().unwrap().at(0, 1), Cell::NonGiven(Digit::D7));
    // a key that names no digit changes nothing
    app.update(Message::EnterDigit('x'));
    assert_eq!(app.puzzle.as_ref().unwrap().at(0, 1), Cell::NonGiven(Digit::D7));
    app.update(Message::DeleteDigit);
    assert_eq!(app.puzzle.as_ref().unwrap().at(0, 1), Cell::Empty);
}

#[test]
fn test_app_show_solution_toggles() {
    let board = Board::zeroed();
    let mut app = app_with_boards(board, board);
    app.update(Message::ShowSolution);
    assert_eq!(
        app.running_state,
        RunningState::PuzzleScreen(PuzzleScreenState::Solution)
    );
    app.update(Message::ShowSolution);
    assert_eq!(
        app.running_state,
        RunningState::PuzzleScreen(PuzzleScreenState::Puzzle)
    );
}

#[test]
fn test_app_check_solution() {
    let mut solution = Board::zeroed();
    solution.set(0, 0, Cell::Given(Digit::D1));
    solution.set(0, 1, Cell::NonGiven(Digit::D2));
    let mut app = app_with_boards(solution, solution);
    let out = app.update(Message::CheckSolution);
    assert_eq!(out, Some(Message::ShowSolutionStatus(SolutionStatus::Valid)));
    let out = app.update(Message::ShowSolutionStatus(SolutionStatus::Valid));
    assert!(out.is_none());
    assert_eq!(app.solution_status, Some(true));
    // a board that differs from the solution is reported as not valid
    let mut puzzle = solution;
    puzzle.set(0, 1, Cell::Empty);
    let mut app = app_with_boards(puzzle, solution);
    let out = app.update(Message::CheckSolution);
    assert_eq!(
        out,
        Some(Message::ShowSolutionStatus(SolutionStatus::NotValid))
    );
    let out = app.update(Message::ShowSolutionStatus(SolutionStatus::NotValid));
    assert!(out.is_none());
    assert_eq!(app.solution_status, Some(false));
}

#[test]
fn test_app_generate_new_puzzle() {
    let mut app = App::new(NaiveGenerator::new(45));
    let out = app.update(Message::GenerateNewPuzzle);
    assert!(out.is_none());
    assert_eq!(
        app.running_state,
        RunningState::PuzzleScreen(PuzzleScreenState::Puzzle)
    );
    assert!(app.solution_status.is_none());
    let puzzle = app.puzzle.as_ref().unwrap();
    let solution = app.solution.as_ref().unwrap();
    assert!(ku::evaluator::evaluate(solution));
    // the puzzle is the solution with the carved cells cleared
    for r in 0..9 {
        for c in 0..9 {
            match solution.at(r, c) {
                Cell::NonGiven(_) => assert_eq!(puzzle.at(r, c), Cell::Empty),
                other => assert_eq!(puzzle.at(r, c), other),
            }
        }
    }
}
