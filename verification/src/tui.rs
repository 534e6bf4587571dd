//! The interactive application's model: its screens, the messages that
//! drive it, and the update function that maps a message to the next
//! state. Reading keys and drawing screens live outside the library; the
//! state transitions are all here.
use vstd::prelude::*;

use crate::game::{
    cleared_of, givens_count, has_unique_completion, in_pos, is_legal_full, pos_of, Board, Cell,
    Digit,
};
use crate::generator::{Generator, NaiveGenerator};

verus! {

/// Which face of the puzzle screen is shown.
#[derive(Debug, Default, PartialEq, Eq, Clone, Structural)]
pub enum PuzzleScreenState {
    #[default]
    Puzzle,
    Solution,
}

/// The application's screen.
#[derive(Debug, Default, PartialEq, Eq, Clone, Structural)]
pub enum RunningState {
    #[default]
    InitialScreen,
    PuzzleScreen(PuzzleScreenState),
    Done,
}

/// A cursor movement over the board.
#[derive(Debug, PartialEq, Eq, Structural)]
pub enum MoveDirection {
    Left,
    Right,
    Up,
    Down,
}

/// The verdict shown after checking the player's solution.
#[derive(Debug, PartialEq, Eq, Structural)]
pub enum SolutionStatus {
    Valid,
    NotValid,
}

/// The messages the application reacts to.
#[derive(Debug, PartialEq, Eq, Structural)]
pub enum Message {
    GenerateNewPuzzle,
    Increment,
    Decrement,
    Quit,
    Reset,
    ShowSolution,
    EnterDigit(char),
    Move(MoveDirection),
    DeleteDigit,
    CheckSolution,
    ShowSolutionStatus(SolutionStatus),
}

/// The application model: the puzzle generator and its settings, the
/// current puzzle and its solution, the screen, the cursor and the last
/// check's verdict.
#[derive(Debug)]
pub struct App {
    pub generator: NaiveGenerator,
    pub puzzle: Option<Board>,
    pub solution: Option<Board>,
    pub running_state: RunningState,
    pub position: Option<(usize, usize)>,
    pub solution_status: Option<bool>,
}

impl App {
    /// The model's invariant: the generator's target is acceptable, the
    /// boards have the right size, the cursor is on the board, and the
    /// puzzle screen always has a puzzle and its solution to show.
    pub open spec fn wf(&self) -> bool {
        &&& self.generator.wf()
        &&& self.puzzle is Some ==> self.puzzle->0@.len() == 81
        &&& self.solution is Some ==> self.solution->0@.len() == 81
        &&& self.position is Some ==> ((self.position->0).0 < 9 && (self.position->0).1 < 9)
        &&& self.running_state is PuzzleScreen ==> (self.puzzle is Some && self.solution is Some)
    }

    /// Everything but the cursor is unchanged.
    pub open spec fn same_but_position(&self, other: &App) -> bool {
        &&& self.generator == other.generator
        &&& self.puzzle == other.puzzle
        &&& self.solution == other.solution
        &&& self.running_state == other.running_state
        &&& self.solution_status == other.solution_status
    }

    /// Everything but the puzzle board is unchanged.
    pub open spec fn same_but_puzzle(&self, other: &App) -> bool {
        &&& self.generator == other.generator
        &&& self.solution == other.solution
        &&& self.running_state == other.running_state
        &&& self.position == other.position
        &&& self.solution_status == other.solution_status
    }

    /// A fresh application showing the initial screen.
    pub fn new(generator: NaiveGenerator) -> (a: App)
        requires
            generator.wf(),
        ensures
            a.wf(),
            a.generator == generator,
            a.puzzle is None,
            a.solution is None,
            a.running_state == RunningState::InitialScreen,
            a.position is None,
            a.solution_status is None,
    {
        App {
            generator,
            puzzle: None,
            solution: None,
            running_state: RunningState::InitialScreen,
            position: None,
            solution_status: None,
        }
    }

    /// Move the cursor one column left, wrapping around; a missing cursor
    /// starts at the top-left corner.
    pub fn move_left(&mut self)
        requires
            old(self).wf(),
        ensures
            final(self).wf(),
            final(self).same_but_position(old(self)),
            final(self).position == match old(self).position {
                None => Some((0usize, 0usize)),
                Some(pos) => Some((pos.0, ((pos.1 + 9 - 1) % 9) as usize)),
            },
    {
        match self.position {
            None => self.position = Some((0, 0)),
            Some(pos) => self.position = Some((pos.0, (pos.1 + 9 - 1) % 9)),
        }
    }

    /// Move the cursor one column right, wrapping around.
    pub fn move_right(&mut self)
        requires
            old(self).wf(),
        ensures
            final(self).wf(),
            final(self).same_but_position(old(self)),
            final(self).position == match old(self).position {
                None => Some((0usize, 0usize)),
                Some(pos) => Some((pos.0, ((pos.1 + 1) % 9) as usize)),
            },
    {
        match self.position {
            None => self.position = Some((0, 0)),
            Some(pos) => self.position = Some((pos.0, (pos.1 + 1) % 9)),
        }
    }

    /// Move the cursor one row up, wrapping around.
    pub fn move_up(&mut self)
        requires
            old(self).wf(),
        ensures
            final(self).wf(),
            final(self).same_but_position(old(self)),
            final(self).position == match old(self).position {
                None => Some((0usize, 0usize)),
                Some(pos) => Some((((pos.0 + 9 - 1) % 9) as usize, pos.1)),
            },
    {
        match self.position {
            None => self.position = Some((0, 0)),
            Some(pos) => self.position = Some(((pos.0 + 9 - 1) % 9, pos.1)),
        }
    }

    /// Move the cursor one row down, wrapping around.
    pub fn move_down(&mut self)
        requires
            old(self).wf(),
        ensures
            final(self).wf(),
            final(self).same_but_position(old(self)),
            final(self).position == match old(self).position {
                None => Some((0usize, 0usize)),
                Some(pos) => Some((((pos.0 + 1) % 9) as usize, pos.1)),
            },
    {
        match self.position {
            None => self.position = Some((0, 0)),
            Some(pos) => self.position = Some(((pos.0 + 1) % 9, pos.1)),
        }
    }

    /// Place the digit named by `digit` into the puzzle at the cursor; a
    /// `Given` cell, a missing cursor, a missing puzzle or a character
    /// that names no digit leave everything unchanged.
    pub fn enter_digit(&mut self, digit: char)
        requires
            old(self).wf(),
        ensures
            final(self).wf(),
            final(self).same_but_puzzle(old(self)),
            (final(self).puzzle is Some) == (old(self).puzzle is Some),
            match (old(self).position, old(self).puzzle, Digit::spec_from_char(digit)) {
                (Some(pos), Some(pz), Some(d)) => final(self).puzzle->0@ == (if pz@[pos_of(
                    pos.0 as int,
                    pos.1 as int,
                )] is Given {
                    pz@
                } else {
                    pz@.update(pos_of(pos.0 as int, pos.1 as int), Cell::NonGiven(d))
                }),
                _ => final(self).puzzle == old(self).puzzle,
            },
    {
        if let Some(pos) = self.position {
            if let Some(d) = Digit::from_char(digit) {
                match &mut self.puzzle {
                    Some(puzzle) => {
                        puzzle.set_non_given(pos.0, pos.1, Cell::NonGiven(d));
                    },
                    None => {},
                }
            }
        }
    }

    /// Clear the puzzle cell at the cursor unless it holds a `Given`.
    pub fn delete_non_given(&mut self)
        requires
            old(self).wf(),
        ensures
            final(self).wf(),
            final(self).same_but_puzzle(old(self)),
            (final(self).puzzle is Some) == (old(self).puzzle is Some),
            match (old(self).position, old(self).puzzle) {
                (Some(pos), Some(pz)) => final(self).puzzle->0@ == (if pz@[pos_of(
                    pos.0 as int,
                    pos.1 as int,
                )] is Given {
                    pz@
                } else {
                    pz@.update(pos_of(pos.0 as int, pos.1 as int), Cell::Empty)
                }),
                _ => final(self).puzzle == old(self).puzzle,
            },
    {
        if let Some(pos) = self.position {
            match &mut self.puzzle {
                Some(puzzle) => {
                    puzzle.set_non_given(pos.0, pos.1, Cell::Empty);
                },
                None => {},
            }
        }
    }

    /// Whether the player's puzzle board agrees with the stored solution
    /// cell for cell.
    pub fn valid_solution(&self) -> (r: bool)
        requires
            self.wf(),
            self.puzzle is Some,
            self.solution is Some,
        ensures
            r == (forall|p: int|
                in_pos(p) ==> #[trigger] self.puzzle->0@[p] == self.solution->0@[p]),
    {
        let puzzle = match &self.puzzle {
            Some(b) => b,
            None => {
                proof {
                    assert(false);
                }
                return true;
            },
        };
        let solution = match &self.solution {
            Some(b) => b,
            None => {
                proof {
                    assert(false);
                }
                return true;
            },
        };
        let mut p: usize = 0;
        while p < 81
            invariant
                p <= 81,
                puzzle@.len() == 81,
                solution@.len() == 81,
                puzzle@ == self.puzzle->0@,
                solution@ == self.solution->0@,
                forall|q: int| 0 <= q < p ==> #[trigger] puzzle@[q] == solution@[q],
            decreases 81 - p,
        {
            let (r, c) = crate::utilities::coords_from_pos(p);
            if puzzle.at(r, c) != solution.at(r, c) {
                return false;
            }
            p = p + 1;
        }
        true
    }

    /// React to one message: adjust the settings, generate a puzzle,
    /// move the cursor, edit a cell, check the solution or quit; the
    /// returned message, if any, is fed back into this function.
    pub fn update(&mut self, msg: Message) -> (out: Option<Message>)
        requires
            old(self).wf(),
            msg is CheckSolution ==> old(self).running_state is PuzzleScreen,
        ensures
            final(self).wf(),
            match msg {
                Message::Increment => {
                    if old(self).generator.num_givens < 80 {
                        &&& final(self).generator.num_givens == old(self).generator.num_givens
                            + 1
                        &&& final(self).puzzle == old(self).puzzle
                        &&& final(self).solution == old(self).solution
                        &&& final(self).running_state == old(self).running_state
                        &&& final(self).position == old(self).position
                        &&& final(self).solution_status == old(self).solution_status
                        &&& out == Some(Message::GenerateNewPuzzle)
                    } else {
                        *final(self) == *old(self) && out is None
                    }
                },
                Message::Decrement => {
                    if old(self).generator.num_givens > 17 {
                        &&& final(self).generator.num_givens == old(self).generator.num_givens
                            - 1
                        &&& final(self).puzzle == old(self).puzzle
                        &&& final(self).solution == old(self).solution
                        &&& final(self).running_state == old(self).running_state
                        &&& final(self).position == old(self).position
                        &&& final(self).solution_status == old(self).solution_status
                        &&& out == Some(Message::GenerateNewPuzzle)
                    } else {
                        *final(self) == *old(self) && out is None
                    }
                },
                Message::Reset => {
                    &&& final(self).generator.num_givens == 39
                    &&& final(self).puzzle == old(self).puzzle
                    &&& final(self).solution == old(self).solution
                    &&& final(self).running_state == old(self).running_state
                    &&& final(self).position == old(self).position
                    &&& final(self).solution_status == old(self).solution_status
                    &&& out == Some(Message::GenerateNewPuzzle)
                },
                Message::GenerateNewPuzzle => {
                    &&& out is None
                    &&& final(self).generator == old(self).generator
                    &&& final(self).position == old(self).position
                    &&& (*final(self) == *old(self) || {
                        &&& final(self).solution is Some
                        &&& final(self).puzzle is Some
                        &&& is_legal_full(final(self).solution->0@)
                        &&& old(self).generator.min_givens() <= givens_count(
                            final(self).solution->0@,
                        ) <= old(self).generator.max_givens()
                        &&& has_unique_completion(cleared_of(final(self).solution->0@))
                        &&& forall|p: int|
                            in_pos(p) ==> #[trigger] final(self).puzzle->0@[p] == (if final(self)
                                .solution->0@[p] is NonGiven {
                                Cell::Empty
                            } else {
                                final(self).solution->0@[p]
                            })
                        &&& final(self).running_state == RunningState::PuzzleScreen(
                            PuzzleScreenState::Puzzle,
                        )
                        &&& final(self).solution_status is None
                    })
                },
                Message::Quit => {
                    &&& final(self).running_state == RunningState::Done
                    &&& final(self).generator == old(self).generator
                    &&& final(self).puzzle == old(self).puzzle
                    &&& final(self).solution == old(self).solution
                    &&& final(self).position == old(self).position
                    &&& final(self).solution_status == old(self).solution_status
                    &&& out is None
                },
                Message::ShowSolution => {
                    &&& final(self).running_state == (match old(self).running_state {
                        RunningState::PuzzleScreen(PuzzleScreenState::Puzzle) =>
                            RunningState::PuzzleScreen(PuzzleScreenState::Solution),
                        RunningState::PuzzleScreen(PuzzleScreenState::Solution) =>
                            RunningState::PuzzleScreen(PuzzleScreenState::Puzzle),
                        other => other,
                    })
                    &&& final(self).generator == old(self).generator
                    &&& final(self).puzzle == old(self).puzzle
                    &&& final(self).solution == old(self).solution
                    &&& final(self).position == old(self).position
                    &&& final(self).solution_status == old(self).solution_status
                    &&& out is None
                },
                Message::Move(_) => final(self).same_but_position(old(self)) && out is None,
                Message::EnterDigit(_) => final(self).same_but_puzzle(old(self)) && out is None,
                Message::DeleteDigit => final(self).same_but_puzzle(old(self)) && out is None,
                Message::CheckSolution => {
                    &&& *final(self) == *old(self)
                    &&& out == Some(
                        Message::ShowSolutionStatus(
                            if forall|p: int|
                                in_pos(p) ==> #[trigger] old(self).puzzle->0@[p] == old(
                                    self,
                                ).solution->0@[p] {
                                SolutionStatus::Valid
                            } else {
                                SolutionStatus::NotValid
                            },
                        ),
                    )
                },
                Message::ShowSolutionStatus(status) => {
                    &&& final(self).solution_status == Some(status == SolutionStatus::Valid)
                    &&& final(self).generator == old(self).generator
                    &&& final(self).puzzle == old(self).puzzle
                    &&& final(self).solution == old(self).solution
                    &&& final(self).running_state == old(self).running_state
                    &&& final(self).position == old(self).position
                    &&& out is None
                },
            },
    {
        match msg {
            Message::Increment => {
                if self.generator.num_givens < 80 {
                    self.generator.num_givens = self.generator.num_givens + 1;
                    return Some(Message::GenerateNewPuzzle);
                }
            },
            Message::Decrement => {
                if self.generator.num_givens > 17 {
                    self.generator.num_givens = self.generator.num_givens - 1;
                    return Some(Message::GenerateNewPuzzle);
                }
            },
            Message::Reset => {
                self.generator.num_givens = 39;
                return Some(Message::GenerateNewPuzzle);
            },
            Message::GenerateNewPuzzle => {
                // a generation budget that comes up empty leaves the
                // model as it was
                match self.generator.generate_puzzle() {
                    Some(new_puzzle) => {
                        self.solution = Some(new_puzzle);
                        let puzzle = new_puzzle.non_givens_cleared();
                        self.puzzle = Some(puzzle);
                        self.running_state = RunningState::PuzzleScreen(
                            PuzzleScreenState::Puzzle,
                        );
                        self.solution_status = None;
                    },
                    None => {},
                }
            },
            Message::Quit => {
                self.running_state = RunningState::Done;
            },
            Message::ShowSolution => {
                match &self.running_state {
                    RunningState::PuzzleScreen(x) => {
                        match x {
                            PuzzleScreenState::Puzzle => {
                                self.running_state = RunningState::PuzzleScreen(
                                    PuzzleScreenState::Solution,
                                );
                            },
                            PuzzleScreenState::Solution => {
                                self.running_state = RunningState::PuzzleScreen(
                                    PuzzleScreenState::Puzzle,
                                );
                            },
                        }
                    },
                    _ => {},
                }
            },
            Message::Move(direction) => {
                match direction {
                    MoveDirection::Left => self.move_left(),
                    MoveDirection::Right => self.move_right(),
                    MoveDirection::Up => self.move_up(),
                    MoveDirection::Down => self.move_down(),
                }
            },
            Message::EnterDigit(digit) => {
                self.enter_digit(digit);
            },
            Message::DeleteDigit => {
                self.delete_non_given();
            },
            Message::CheckSolution => {
                if self.valid_solution() {
                    return Some(Message::ShowSolutionStatus(SolutionStatus::Valid));
                } else {
                    return Some(Message::ShowSolutionStatus(SolutionStatus::NotValid));
                }
            },
            Message::ShowSolutionStatus(status) => {
                match status {
                    SolutionStatus::Valid => self.solution_status = Some(true),
                    SolutionStatus::NotValid => self.solution_status = Some(false),
                }
            },
        }
        None
    }
}

} // verus!
