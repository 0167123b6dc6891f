//! Grid geometry: which cells are adjacent, the boundary-safe neighbor
//! relation per direction, and the direction between two adjacent cells.
//!
//! Cells of a `cols` × `rows` grid are identified by their row-major linear
//! index; the codec in `utils` relates an index to its (column, row).

use vstd::prelude::*;
use crate::constants::DIRECTION;
use crate::utils::lemma_index_round_trip;
use crate::utils::lemma_xy_round_trip;
use crate::utils::spec_index_to_x;
use crate::utils::spec_index_to_y;

verus! {

/// Whether `i` is the index of a cell of a `cols` × `rows` grid.
pub open spec fn in_grid(cols: int, rows: int, i: int) -> bool {
    0 <= i < cols * rows
}

/// The neighbor of cell `i` across direction `d`, or none when `i` lies on
/// that boundary of the grid.
pub open spec fn neighbor_of(cols: int, rows: int, i: int, d: DIRECTION) -> Option<int> {
    match d {
        DIRECTION::UP => if spec_index_to_y(i, cols) > 0 {
            Some(i - cols)
        } else {
            None
        },
        DIRECTION::RIGHT => if spec_index_to_x(i, cols) < cols - 1 {
            Some(i + 1)
        } else {
            None
        },
        DIRECTION::DOWN => if spec_index_to_y(i, cols) < rows - 1 {
            Some(i + cols)
        } else {
            None
        },
        DIRECTION::LEFT => if spec_index_to_x(i, cols) > 0 {
            Some(i - 1)
        } else {
            None
        },
    }
}

/// Two cells share a wall: same row and one column apart, or one row apart
/// in the same column.
pub open spec fn adjacent(cols: int, rows: int, a: int, b: int) -> bool {
    &&& in_grid(cols, rows, a)
    &&& in_grid(cols, rows, b)
    &&& {
        ||| (spec_index_to_y(a, cols) == spec_index_to_y(b, cols) && (b == a + 1 || a == b + 1))
        ||| b == a + cols
        ||| a == b + cols
    }
}

/// The direction from cell `a` toward an adjacent cell `b`. The vertical
/// cases are tested first so that a one-column grid, where `a + 1` is also
/// `a + cols`, resolves to a vertical direction.
pub open spec fn dir_between(cols: int, a: int, b: int) -> DIRECTION {
    if b == a - cols {
        DIRECTION::UP
    } else if b == a + cols {
        DIRECTION::DOWN
    } else if b == a + 1 {
        DIRECTION::RIGHT
    } else {
        DIRECTION::LEFT
    }
}

/// An index decomposes as column plus row times width, with the column below
/// the width and the row below the height.
pub proof fn lemma_decompose(cols: int, rows: int, i: int)
    requires
        cols >= 1,
        rows >= 1,
        in_grid(cols, rows, i),
    ensures
        i == spec_index_to_x(i, cols) + spec_index_to_y(i, cols) * cols,
        0 <= spec_index_to_x(i, cols) < cols,
        0 <= spec_index_to_y(i, cols) < rows,
{
    lemma_index_round_trip(i, cols);
    vstd::arithmetic::div_mod::lemma_mod_bound(i, cols);
    vstd::arithmetic::div_mod::lemma_div_pos_is_pos(i, cols);
    let x = spec_index_to_x(i, cols);
    let y = spec_index_to_y(i, cols);
    assert(y < rows) by (nonlinear_arith)
        requires
            i == x + y * cols,
            0 <= x,
            i < cols * rows,
            cols >= 1,
            0 <= y,
    ;
}

/// A neighbor returned by the boundary-checked query is a grid cell adjacent
/// to the one asked about, and lies in the asked direction.
pub proof fn lemma_neighbor_in_grid(cols: int, rows: int, i: int, d: DIRECTION)
    requires
        cols >= 1,
        rows >= 1,
        in_grid(cols, rows, i),
        neighbor_of(cols, rows, i, d) is Some,
    ensures
        in_grid(cols, rows, neighbor_of(cols, rows, i, d)->0),
        adjacent(cols, rows, i, neighbor_of(cols, rows, i, d)->0),
        dir_between(cols, i, neighbor_of(cols, rows, i, d)->0) == d,
        spec_index_to_x(i, cols) + spec_index_to_y(i, cols) * cols == i,
{
    lemma_decompose(cols, rows, i);
    let x = spec_index_to_x(i, cols);
    let y = spec_index_to_y(i, cols);
    let j = neighbor_of(cols, rows, i, d)->0;
    match d {
        DIRECTION::UP => {
            assert(j == x + (y - 1) * cols) by (nonlinear_arith)
                requires
                    i == x + y * cols,
                    j == i - cols,
            ;
            lemma_xy_round_trip(x, y - 1, cols);
            assert(j < i);
            assert(i - cols >= 0) by (nonlinear_arith)
                requires
                    i == x + y * cols,
                    0 <= x,
                    y >= 1,
                    cols >= 1,
            ;
        },
        DIRECTION::DOWN => {
            assert(j == x + (y + 1) * cols) by (nonlinear_arith)
                requires
                    i == x + y * cols,
                    j == i + cols,
            ;
            lemma_xy_round_trip(x, y + 1, cols);
            assert(j < cols * rows) by (nonlinear_arith)
                requires
                    j == x + (y + 1) * cols,
                    x < cols,
                    y + 1 <= rows - 1,
                    cols >= 1,
            ;
            // A cell below in the same column is never one step to the side.
            assert(j != i - cols && j != i + 1 || cols == 1);
        },
        DIRECTION::RIGHT => {
            // x < cols - 1 forces at least two columns.
            assert(cols >= 2);
            lemma_xy_round_trip(x + 1, y, cols);
            assert(j < cols * rows) by (nonlinear_arith)
                requires
                    j == x + 1 + y * cols,
                    x + 1 < cols,
                    y <= rows - 1,
                    cols >= 1,
            ;
        },
        DIRECTION::LEFT => {
            assert(cols >= 2);
            lemma_xy_round_trip(x - 1, y, cols);
        },
    }
}

/// For adjacent cells the direction from each toward the other is defined:
/// the neighbor query from `a` in `dir_between(a, b)` lands on `b`, and the
/// direction back is the opposite one.
pub proof fn lemma_adjacent_dirs(cols: int, rows: int, a: int, b: int)
    requires
        cols >= 1,
        rows >= 1,
        adjacent(cols, rows, a, b),
    ensures
        neighbor_of(cols, rows, a, dir_between(cols, a, b)) == Some(b),
        neighbor_of(cols, rows, b, dir_between(cols, b, a)) == Some(a),
        dir_between(cols, b, a) == dir_between(cols, a, b).spec_opposite(),
{
    lemma_decompose(cols, rows, a);
    lemma_decompose(cols, rows, b);
    let xa = spec_index_to_x(a, cols);
    let ya = spec_index_to_y(a, cols);
    let xb = spec_index_to_x(b, cols);
    let yb = spec_index_to_y(b, cols);
    if ya == yb && b == a + 1 {
        assert(xb == xa + 1);
        assert(cols >= 2);
        assert(dir_between(cols, a, b) == DIRECTION::RIGHT);
        assert(dir_between(cols, b, a) == DIRECTION::LEFT);
    } else if ya == yb && a == b + 1 {
        assert(xa == xb + 1);
        assert(cols >= 2);
        assert(dir_between(cols, a, b) == DIRECTION::LEFT);
        assert(dir_between(cols, b, a) == DIRECTION::RIGHT);
    } else if b == a + cols {
        assert(b == xa + (ya + 1) * cols) by (nonlinear_arith)
            requires
                a == xa + ya * cols,
                b == a + cols,
        ;
        lemma_xy_round_trip(xa, ya + 1, cols);
        assert(yb == ya + 1 && xb == xa);
        assert(dir_between(cols, a, b) == DIRECTION::DOWN);
        assert(dir_between(cols, b, a) == DIRECTION::UP);
    } else {
        assert(a == b + cols);
        assert(a == xb + (yb + 1) * cols) by (nonlinear_arith)
            requires
                b == xb + yb * cols,
                a == b + cols,
        ;
        lemma_xy_round_trip(xb, yb + 1, cols);
        assert(ya == yb + 1 && xa == xb);
        assert(dir_between(cols, a, b) == DIRECTION::UP);
        assert(dir_between(cols, b, a) == DIRECTION::DOWN);
    }
}

} // verus!
