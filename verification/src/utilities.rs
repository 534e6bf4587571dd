//! Coordinate helpers for addressing the nine 3x3 boxes and for converting
//! between row-major positions and grid coordinates.
use vstd::prelude::*;

verus! {

/// The upper-left corner `(row, col)` of box number `s` (boxes are
/// numbered 0..9 in row-major order).
pub fn square_limits_from_square(s: usize) -> (limits: (usize, usize))
    requires
        s < 9,
    ensures
        limits.0 == (s as int / 3) * 3,
        limits.1 == (s as int % 3) * 3,
{
    let u = s - s % 3;
    let l = (s % 3) * 3;
    proof {
        assert(s - s % 3 == (s as int / 3) * 3) by (nonlinear_arith)
            requires 0 <= s < 9;
    }
    (u, l)
}

/// The upper-left corner `(row, col)` of the box containing the cell at
/// `(r, c)`.
pub fn square_limits_from_cell(r: usize, c: usize) -> (limits: (usize, usize))
    requires
        r < 9,
        c < 9,
    ensures
        limits.0 == (r as int / 3) * 3,
        limits.1 == (c as int / 3) * 3,
    {
    let u = r - r % 3;
    let l = c - c % 3;
    proof {
        assert(r - r % 3 == (r as int / 3) * 3 && c - c % 3 == (c as int / 3) * 3)
            by (nonlinear_arith)
            requires 0 <= r < 9 && 0 <= c < 9;
    }
    (u, l)
}

/// The grid coordinates `(row, col)` of a row-major position.
pub fn coords_from_pos(pos: usize) -> (coords: (usize, usize))
    requires
        pos < 81,
    ensures
        coords.0 == crate::game::row_of(pos as int),
        coords.1 == crate::game::col_of(pos as int),
        coords.0 < 9,
        coords.1 < 9,
{
    proof {
        crate::game::lemma_coords_pos(pos as int);
    }
    (pos / 9, pos % 9)
}

} // verus!
