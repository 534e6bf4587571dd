//! The value domain (digits), per-position classification (cells) and the
//! 9x9 grid, together with the spec-level model of the 27 sudoku
//! constraints that every other module's contracts are written against.
use vstd::prelude::*;

verus! {

broadcast use vstd::array::group_array_axioms;

/// One of the nine sudoku symbols. Digits are only ever compared for
/// equality; no arithmetic is performed on them.
#[derive(Copy, Clone, Debug, Eq, PartialEq, Hash, Structural)]
pub enum Digit {
    D1,
    D2,
    D3,
    D4,
    D5,
    D6,
    D7,
    D8,
    D9,
}

/// A cell of the grid: a fixed part of the puzzle (`Given`), a value placed
/// on top of an originally empty cell (`NonGiven`), or nothing (`Empty`).
#[derive(Copy, Clone, Debug, Eq, PartialEq, Structural)]
pub enum Cell {
    Given(Digit),
    NonGiven(Digit),
    Empty,
}

/// The digit held by an occupied cell, if any.
pub open spec fn cell_digit(c: Cell) -> Option<Digit> {
    match c {
        Cell::Given(d) => Some(d),
        Cell::NonGiven(d) => Some(d),
        Cell::Empty => None,
    }
}

/// Whether a cell holds a digit.
pub open spec fn occupied(c: Cell) -> bool {
    !(c is Empty)
}

/// Row-major position of grid coordinates.
pub open spec fn pos_of(r: int, c: int) -> int {
    r * 9 + c
}

/// Row of a row-major position.
pub open spec fn row_of(p: int) -> int {
    p / 9
}

/// Column of a row-major position.
pub open spec fn col_of(p: int) -> int {
    p % 9
}

/// A valid row-major position.
pub open spec fn in_pos(p: int) -> bool {
    0 <= p < 81
}

pub proof fn lemma_pos_coords(r: int, c: int)
    requires
        0 <= r < 9,
        0 <= c < 9,
    ensures
        in_pos(pos_of(r, c)),
        row_of(pos_of(r, c)) == r,
        col_of(pos_of(r, c)) == c,
{
    assert(0 <= r * 9 + c < 81 && (r * 9 + c) / 9 == r && (r * 9 + c) % 9 == c)
        by (nonlinear_arith)
        requires 0 <= r < 9 && 0 <= c < 9;
}

pub proof fn lemma_coords_pos(p: int)
    requires
        in_pos(p),
    ensures
        0 <= row_of(p) < 9,
        0 <= col_of(p) < 9,
        pos_of(row_of(p), col_of(p)) == p,
{
    assert(0 <= p / 9 < 9 && 0 <= p % 9 < 9 && (p / 9) * 9 + p % 9 == p)
        by (nonlinear_arith)
        requires 0 <= p < 81;
}

/// Two positions lie in the same row.
pub open spec fn same_row(p: int, q: int) -> bool {
    row_of(p) == row_of(q)
}

/// Two positions lie in the same column.
pub open spec fn same_col(p: int, q: int) -> bool {
    col_of(p) == col_of(q)
}

/// Two positions lie in the same 3x3 box.
pub open spec fn same_box(p: int, q: int) -> bool {
    row_of(p) / 3 == row_of(q) / 3 && col_of(p) / 3 == col_of(q) / 3
}

/// Two distinct positions constrain each other: they share a row, a column
/// or a box.
pub open spec fn sees(p: int, q: int) -> bool {
    p != q && (same_row(p, q) || same_col(p, q) || same_box(p, q))
}

/// No two occupied cells that constrain each other hold the same digit:
/// the 27 row/column/box disjointness constraints, for grids that may
/// still contain empty cells.
pub open spec fn no_dups(b: Seq<Cell>) -> bool {
    forall|p: int, q: int|
        in_pos(p) && in_pos(q) && sees(p, q) && occupied(#[trigger] b[p]) && occupied(
            #[trigger] b[q],
        ) ==> cell_digit(b[p]) != cell_digit(b[q])
}

/// Every cell of the grid holds a digit.
pub open spec fn is_full(b: Seq<Cell>) -> bool {
    forall|p: int| in_pos(p) ==> occupied(#[trigger] b[p])
}

/// Some cell of the grid is empty.
pub open spec fn has_empty(b: Seq<Cell>) -> bool {
    exists|p: int| in_pos(p) && !occupied(#[trigger] b[p])
}

/// How many cells of the grid are `Given`.
pub open spec fn givens_count(b: Seq<Cell>) -> nat
    decreases b.len(),
{
    if b.len() == 0 {
        0
    } else {
        givens_count(b.drop_last()) + if b.last() is Given {
            1nat
        } else {
            0nat
        }
    }
}

/// A completed legal grid: fully populated and satisfying all 27
/// constraints.
pub open spec fn is_legal_full(b: Seq<Cell>) -> bool {
    is_full(b) && no_dups(b)
}

/// Digit `d` may be placed at the (empty) position `p` of `b`: no occupied
/// cell in the same row, column or box already holds `d`.
pub open spec fn can_place(b: Seq<Cell>, d: Digit, p: int) -> bool {
    forall|q: int|
        in_pos(q) && sees(p, q) && occupied(#[trigger] b[q]) ==> cell_digit(b[q]) != Some(d)
}

/// `s` is a legal completion of `b`: a completed legal grid that keeps
/// every occupied cell of `b` and fills each empty cell with a `NonGiven`.
pub open spec fn is_completion(s: Seq<Cell>, b: Seq<Cell>) -> bool {
    &&& s.len() == 81
    &&& is_legal_full(s)
    &&& forall|p: int| in_pos(p) && occupied(#[trigger] b[p]) ==> s[p] == b[p]
    &&& forall|p: int| in_pos(p) && !occupied(#[trigger] b[p]) ==> s[p] is NonGiven
}

/// The grid with every `NonGiven` cell cleared back to `Empty`: the
/// puzzle as distributed to the player.
pub open spec fn cleared_of(b: Seq<Cell>) -> Seq<Cell> {
    Seq::new(
        b.len(),
        |p: int|
            if b[p] is NonGiven {
                Cell::Empty
            } else {
                b[p]
            },
    )
}

/// The grid has exactly one legal completion: a proper puzzle.
pub open spec fn has_unique_completion(b: Seq<Cell>) -> bool {
    &&& exists|s: Seq<Cell>| is_completion(s, b)
    &&& forall|s1: Seq<Cell>, s2: Seq<Cell>|
        is_completion(s1, b) && is_completion(s2, b) ==> s1 == s2
}

/// A completed legal grid is a completion of itself, and its only one.
pub proof fn lemma_full_grid_unique_completion(b: Seq<Cell>)
    requires
        b.len() == 81,
        is_legal_full(b),
    ensures
        has_unique_completion(b),
        forall|s: Seq<Cell>| is_completion(s, b) ==> s == b,
{
    assert(is_completion(b, b));
    assert forall|s: Seq<Cell>| is_completion(s, b) implies s == b by {
        assert forall|p: int| 0 <= p < 81 implies s[p] == b[p] by {
            assert(occupied(b[p]));
        }
        assert(s =~= b);
    }
}

/// A grid whose fixed cells already conflict has no completion at all.
pub proof fn lemma_conflict_no_completion(b: Seq<Cell>)
    requires
        b.len() == 81,
        !no_dups(b),
    ensures
        forall|s: Seq<Cell>| !is_completion(s, b),
{
    assert forall|s: Seq<Cell>| !is_completion(s, b) by {
        if is_completion(s, b) {
            let (p, q) = choose|p: int, q: int|
                in_pos(p) && in_pos(q) && sees(p, q) && occupied(#[trigger] b[p]) && occupied(
                    #[trigger] b[q],
                ) && cell_digit(b[p]) == cell_digit(b[q]);
            assert(s[p] == b[p] && s[q] == b[q]);
            assert(occupied(s[p]) && occupied(s[q]));
        }
    }
}

/// Placing an allowed digit into an empty cell of a duplicate-free grid
/// keeps the grid duplicate-free.
pub proof fn lemma_place_keeps_no_dups(b: Seq<Cell>, c: Cell, p: int)
    requires
        b.len() == 81,
        no_dups(b),
        in_pos(p),
        !occupied(b[p]),
        cell_digit(c) is Some,
        can_place(b, cell_digit(c)->0, p),
    ensures
        no_dups(b.update(p, c)),
{
    let b2 = b.update(p, c);
    assert forall|x: int, y: int|
        in_pos(x) && in_pos(y) && sees(x, y) && occupied(#[trigger] b2[x]) && occupied(
            #[trigger] b2[y],
        ) implies cell_digit(b2[x]) != cell_digit(b2[y]) by {
        if x == p {
            assert(b2[y] == b[y]);
        } else if y == p {
            assert(b2[x] == b[x]);
        } else {
            assert(b2[x] == b[x] && b2[y] == b[y]);
        }
    }
}

/// Clearing a cell (or weakening it in a way that keeps its digit or
/// removes it) cannot introduce a duplicate.
pub proof fn lemma_clear_keeps_no_dups(b: Seq<Cell>, p: int)
    requires
        b.len() == 81,
        no_dups(b),
        in_pos(p),
    ensures
        no_dups(b.update(p, Cell::Empty)),
{
    let b2 = b.update(p, Cell::Empty);
    assert forall|x: int, y: int|
        in_pos(x) && in_pos(y) && sees(x, y) && occupied(#[trigger] b2[x]) && occupied(
            #[trigger] b2[y],
        ) implies cell_digit(b2[x]) != cell_digit(b2[y]) by {
        assert(b2[x] == b[x] && b2[y] == b[y]);
    }
}

/// Two grids whose cells hold the same digits cell for cell (only the
/// `Given` / `NonGiven` tags may differ) satisfy the same constraints.
pub proof fn lemma_no_dups_same_digits(a: Seq<Cell>, b: Seq<Cell>)
    requires
        a.len() == 81,
        b.len() == 81,
        forall|p: int| in_pos(p) ==> cell_digit(#[trigger] a[p]) == cell_digit(#[trigger] b[p]),
        no_dups(a),
    ensures
        no_dups(b),
{
    assert forall|p: int, q: int|
        in_pos(p) && in_pos(q) && sees(p, q) && occupied(#[trigger] b[p]) && occupied(
            #[trigger] b[q],
        ) implies cell_digit(b[p]) != cell_digit(b[q]) by {
        assert(cell_digit(a[p]) == cell_digit(b[p]));
        assert(cell_digit(a[q]) == cell_digit(b[q]));
        assert(occupied(a[p]) && occupied(a[q]));
    }
}

/// How updating one cell changes the number of `Given` cells.
pub proof fn lemma_givens_count_update(b: Seq<Cell>, p: int, c: Cell)
    requires
        0 <= p < b.len(),
    ensures
        givens_count(b.update(p, c)) == givens_count(b) - (if b[p] is Given {
            1int
        } else {
            0int
        }) + (if c is Given {
            1int
        } else {
            0int
        }),
    decreases b.len(),
{
    let b2 = b.update(p, c);
    if p == b.len() - 1 {
        assert(b2.drop_last() =~= b.drop_last());
    } else {
        assert(b2.drop_last() =~= b.drop_last().update(p, c));
        lemma_givens_count_update(b.drop_last(), p, c);
    }
}

/// A grid all of whose cells are `Given` has as many givens as cells.
pub proof fn lemma_givens_count_all(b: Seq<Cell>)
    requires
        forall|p: int| 0 <= p < b.len() ==> (#[trigger] b[p]) is Given,
    ensures
        givens_count(b) == b.len(),
    decreases b.len(),
{
    if b.len() > 0 {
        lemma_givens_count_all(b.drop_last());
    }
}

impl Cell {
    /// The single-character rendering of a cell: the digit for a `Given`,
    /// the digit or a placeholder for a `NonGiven` depending on
    /// `show_non_givens`, and a placeholder for an empty cell.
    pub fn to_string(&self, show_non_givens: bool) -> (s: String)
        ensures
            s@ == self.spec_str(show_non_givens),
    {
        match self {
            Cell::Given(x) => x.to_digit_string(),
            Cell::NonGiven(x) => {
                if show_non_givens {
                    x.to_digit_string()
                } else {
                    String::from_str("_")
                }
            },
            Cell::Empty => String::from_str("_"),
        }
    }

    /// What `to_string` renders.
    pub open spec fn spec_str(&self, show_non_givens: bool) -> Seq<char> {
        match *self {
            Cell::Given(x) => x.spec_char_seq(),
            Cell::NonGiven(x) => if show_non_givens {
                x.spec_char_seq()
            } else {
                "_"@
            },
            Cell::Empty => "_"@,
        }
    }
}

impl Digit {
    /// The character for a digit.
    pub open spec fn spec_char(&self) -> char {
        match *self {
            Digit::D1 => '1',
            Digit::D2 => '2',
            Digit::D3 => '3',
            Digit::D4 => '4',
            Digit::D5 => '5',
            Digit::D6 => '6',
            Digit::D7 => '7',
            Digit::D8 => '8',
            Digit::D9 => '9',
        }
    }

    /// The one-character string for a digit, as a sequence.
    pub open spec fn spec_char_seq(&self) -> Seq<char> {
        match *self {
            Digit::D1 => "1"@,
            Digit::D2 => "2"@,
            Digit::D3 => "3"@,
            Digit::D4 => "4"@,
            Digit::D5 => "5"@,
            Digit::D6 => "6"@,
            Digit::D7 => "7"@,
            Digit::D8 => "8"@,
            Digit::D9 => "9"@,
        }
    }

    /// The one-character string for a digit.
    pub fn to_digit_string(&self) -> (s: String)
        ensures
            s@ == self.spec_char_seq(),
    {
        match self {
            Digit::D1 => String::from_str("1"),
            Digit::D2 => String::from_str("2"),
            Digit::D3 => String::from_str("3"),
            Digit::D4 => String::from_str("4"),
            Digit::D5 => String::from_str("5"),
            Digit::D6 => String::from_str("6"),
            Digit::D7 => String::from_str("7"),
            Digit::D8 => String::from_str("8"),
            Digit::D9 => String::from_str("9"),
        }
    }

    /// The character for a digit, for display purposes.
    pub fn as_char(&self) -> (c: char)
        ensures
            c == self.spec_char(),
    {
        match self {
            Digit::D1 => '1',
            Digit::D2 => '2',
            Digit::D3 => '3',
            Digit::D4 => '4',
            Digit::D5 => '5',
            Digit::D6 => '6',
            Digit::D7 => '7',
            Digit::D8 => '8',
            Digit::D9 => '9',
        }
    }

    /// The digit for a character between `'1'` and `'9'`, if any.
    pub open spec fn spec_from_char(c: char) -> Option<Digit> {
        match c {
            '1' => Some(Digit::D1),
            '2' => Some(Digit::D2),
            '3' => Some(Digit::D3),
            '4' => Some(Digit::D4),
            '5' => Some(Digit::D5),
            '6' => Some(Digit::D6),
            '7' => Some(Digit::D7),
            '8' => Some(Digit::D8),
            '9' => Some(Digit::D9),
            _ => None,
        }
    }

    /// The digit for a character between `'1'` and `'9'`, if any.
    pub fn from_char(c: char) -> (d: Option<Digit>)
        ensures
            d == Self::spec_from_char(c),
            d is Some ==> d->0.spec_char() == c,
    {
        match c {
            '1' => Some(Digit::D1),
            '2' => Some(Digit::D2),
            '3' => Some(Digit::D3),
            '4' => Some(Digit::D4),
            '5' => Some(Digit::D5),
            '6' => Some(Digit::D6),
            '7' => Some(Digit::D7),
            '8' => Some(Digit::D8),
            '9' => Some(Digit::D9),
            _ => None,
        }
    }
}

/// The nine digits, in their natural order.
pub open spec fn all_digits_seq() -> Seq<Digit> {
    seq![
        Digit::D1,
        Digit::D2,
        Digit::D3,
        Digit::D4,
        Digit::D5,
        Digit::D6,
        Digit::D7,
        Digit::D8,
        Digit::D9,
    ]
}

/// The nine digits as a vector, in their natural order.
pub fn all_digits() -> (v: Vec<Digit>)
    ensures
        v@ == all_digits_seq(),
{
    let mut v: Vec<Digit> = Vec::new();
    v.push(Digit::D1);
    v.push(Digit::D2);
    v.push(Digit::D3);
    v.push(Digit::D4);
    v.push(Digit::D5);
    v.push(Digit::D6);
    v.push(Digit::D7);
    v.push(Digit::D8);
    v.push(Digit::D9);
    proof {
        assert(v@ =~= all_digits_seq());
    }
    v
}

/// The nine digits are pairwise distinct, and every digit is among them.
pub proof fn lemma_all_digits_no_duplicates()
    ensures
        all_digits_seq().no_duplicates(),
        forall|d: Digit| all_digits_seq().contains(d),
{
    let s = all_digits_seq();
    assert forall|d: Digit| s.contains(d) by {
        match d {
            Digit::D1 => assert(s[0] == d),
            Digit::D2 => assert(s[1] == d),
            Digit::D3 => assert(s[2] == d),
            Digit::D4 => assert(s[3] == d),
            Digit::D5 => assert(s[4] == d),
            Digit::D6 => assert(s[5] == d),
            Digit::D7 => assert(s[6] == d),
            Digit::D8 => assert(s[7] == d),
            Digit::D9 => assert(s[8] == d),
        }
    }
}

/// A sequence holding the same digits as another (as a multiset) keeps
/// distinctness and membership.
pub proof fn lemma_same_multiset_digits(a: Seq<Digit>, b: Seq<Digit>)
    requires
        a.to_multiset() == b.to_multiset(),
    ensures
        a.no_duplicates() ==> b.no_duplicates(),
        forall|d: Digit| a.contains(d) <==> b.contains(d),
{
    broadcast use vstd::seq_lib::group_to_multiset_ensures;

    if a.no_duplicates() {
        a.lemma_multiset_has_no_duplicates();
        b.lemma_multiset_has_no_duplicates_conv();
    }
    assert forall|d: Digit| a.contains(d) <==> b.contains(d) by {
        assert(a.contains(d) <==> a.to_multiset().count(d) > 0);
        assert(b.contains(d) <==> b.to_multiset().count(d) > 0);
    }
}

/// The 9x9 grid, stored in row-major order. Its view is the flat sequence
/// of its 81 cells.
#[derive(Copy, Clone, Debug)]
pub struct Board {
    values: [Cell; 81],
}

impl View for Board {
    type V = Seq<Cell>;

    closed spec fn view(&self) -> Seq<Cell> {
        self.values@
    }
}

impl Board {
    /// A board from a 9x9 array of cells, row by row.
    pub fn new(values: [[Cell; 9]; 9]) -> (b: Board)
        ensures
            b@.len() == 81,
            forall|r: int, c: int|
                0 <= r < 9 && 0 <= c < 9 ==> #[trigger] b@[pos_of(r, c)] == values@[r]@[c],
    {
        let mut flat: [Cell; 81] = [Cell::Empty; 81];
        let mut p: usize = 0;
        while p < 81
            invariant
                p <= 81,
                flat@.len() == 81,
                forall|q: int| 0 <= q < p ==> #[trigger] flat@[q] == values@[row_of(q)]@[col_of(q)],
            decreases 81 - p,
        {
            proof {
                lemma_coords_pos(p as int);
            }
            flat[p] = values[p / 9][p % 9];
            p = p + 1;
        }
        proof {
            assert forall|r: int, c: int| 0 <= r < 9 && 0 <= c < 9 implies #[trigger] flat@[pos_of(
                r,
                c,
            )] == values@[r]@[c] by {
                lemma_pos_coords(r, c);
            }
        }
        Board { values: flat }
    }

    /// The board whose cells are all empty.
    pub fn zeroed() -> (b: Board)
        ensures
            b@.len() == 81,
            forall|p: int| in_pos(p) ==> #[trigger] b@[p] == Cell::Empty,
    {
        let values: [Cell; 81] = [Cell::Empty; 81];
        proof {
            assert forall|p: int| in_pos(p) implies values@[p] == Cell::Empty by {
                assert(vstd::array::spec_array_fill_for_copy_type::<Cell, 81>(Cell::Empty)@[p]
                    == Cell::Empty);
            }
        }
        Board { values }
    }

    /// The cell at the given coordinates.
    pub fn at(&self, row: usize, col: usize) -> (c: Cell)
        requires
            row < 9,
            col < 9,
        ensures
            c == self@[pos_of(row as int, col as int)],
    {
        proof {
            lemma_pos_coords(row as int, col as int);
        }
        self.values[row * 9 + col]
    }

    /// Overwrite the cell at the given coordinates.
    pub fn set(&mut self, row: usize, col: usize, digit: Cell)
        requires
            row < 9,
            col < 9,
        ensures
            final(self)@ == old(self)@.update(pos_of(row as int, col as int), digit),
    {
        proof {
            lemma_pos_coords(row as int, col as int);
        }
        self.values[row * 9 + col] = digit;
    }

    /// The cells of a row, left to right.
    pub fn row_cells(&self, row: usize) -> (v: Vec<Cell>)
        requires
            row < 9,
        ensures
            v@.len() == 9,
            forall|c: int| 0 <= c < 9 ==> #[trigger] v@[c] == self@[pos_of(row as int, c)],
    {
        let mut v: Vec<Cell> = Vec::new();
        let mut c: usize = 0;
        while c < 9
            invariant
                c <= 9,
                row < 9,
                v@.len() == c,
                forall|j: int| 0 <= j < c ==> #[trigger] v@[j] == self@[pos_of(row as int, j)],
            decreases 9 - c,
        {
            v.push(self.at(row, c));
            c = c + 1;
        }
        v
    }

    /// The cells of a column, top to bottom.
    pub fn col_cells(&self, col: usize) -> (v: Vec<Cell>)
        requires
            col < 9,
        ensures
            v@.len() == 9,
            forall|r: int| 0 <= r < 9 ==> #[trigger] v@[r] == self@[pos_of(r, col as int)],
    {
        let mut v: Vec<Cell> = Vec::new();
        let mut r: usize = 0;
        while r < 9
            invariant
                r <= 9,
                col < 9,
                v@.len() == r,
                forall|j: int| 0 <= j < r ==> #[trigger] v@[j] == self@[pos_of(j, col as int)],
            decreases 9 - r,
        {
            v.push(self.at(r, col));
            r = r + 1;
        }
        v
    }

    /// A copy of the board with every `NonGiven` cell cleared back to
    /// `Empty`; used to turn a solved board into the puzzle handed to the
    /// player.
    pub fn non_givens_cleared(self) -> (b: Board)
        requires
            self@.len() == 81,
        ensures
            b@.len() == 81,
            forall|p: int|
                in_pos(p) ==> #[trigger] b@[p] == if self@[p] is NonGiven {
                    Cell::Empty
                } else {
                    self@[p]
                },
    {
        let mut out = self;
        let mut p: usize = 0;
        while p < 81
            invariant
                p <= 81,
                out@.len() == 81,
                forall|q: int|
                    0 <= q < p ==> #[trigger] out@[q] == if self@[q] is NonGiven {
                        Cell::Empty
                    } else {
                        self@[q]
                    },
                forall|q: int| p <= q < 81 ==> #[trigger] out@[q] == self@[q],
            decreases 81 - p,
        {
            if let Cell::NonGiven(_) = out.values[p] {
                out.values[p] = Cell::Empty;
            }
            p = p + 1;
        }
        out
    }

    /// Overwrite the cell at the given coordinates unless it holds a
    /// `Given`, which is never editable.
    pub fn set_non_given(&mut self, row: usize, col: usize, digit: Cell)
        requires
            row < 9,
            col < 9,
        ensures
            final(self)@ == if old(self)@[pos_of(row as int, col as int)] is Given {
                old(self)@
            } else {
                old(self)@.update(pos_of(row as int, col as int), digit)
            },
    {
        match self.at(row, col) {
            Cell::Given(_) => {
                proof {
                    assert(self@ =~= old(self)@);
                }
            },
            Cell::NonGiven(_) | Cell::Empty => self.set(row, col, digit),
        }
    }
}

} // verus!
