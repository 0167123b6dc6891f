//! Coordinate codec: the bijection between a cell's linear index and its
//! (column, row) position in a grid that is `cols` cells wide, row-major.

use vstd::prelude::*;

verus! {

/// The linear index of the cell at column `x`, row `y`.
pub open spec fn spec_x_and_y_to_index(x: int, y: int, cols: int) -> int {
    x + y * cols
}

/// The column of the cell with linear index `index`.
pub open spec fn spec_index_to_x(index: int, cols: int) -> int {
    index % cols
}

/// The row of the cell with linear index `index`.
pub open spec fn spec_index_to_y(index: int, cols: int) -> int {
    index / cols
}

pub fn x_and_y_to_index(x: usize, y: usize, cols: usize) -> (index: usize)
    requires
        x + y * cols <= usize::MAX,
    ensures
        index == spec_x_and_y_to_index(x as int, y as int, cols as int),
{
    x + y * cols
}

pub fn index_to_x_and_y(index: usize, cols: usize) -> (xy: (usize, usize))
    requires
        cols > 0,
    ensures
        xy.0 == spec_index_to_x(index as int, cols as int),
        xy.1 == spec_index_to_y(index as int, cols as int),
{
    (index % cols, index / cols)
}

/// Decoding an index and re-encoding the resulting position gives the index
/// back, for every index and every positive width.
pub proof fn lemma_index_round_trip(index: int, cols: int)
    requires
        cols > 0,
        0 <= index,
    ensures
        spec_x_and_y_to_index(
            spec_index_to_x(index, cols),
            spec_index_to_y(index, cols),
            cols,
        ) == index,
{
    vstd::arithmetic::div_mod::lemma_fundamental_div_mod(index, cols);
    vstd::arithmetic::mul::lemma_mul_is_commutative(index / cols, cols);
}

/// Encoding an in-range position and decoding the resulting index gives the
/// position back, for every column below the width and every row.
pub proof fn lemma_xy_round_trip(x: int, y: int, cols: int)
    requires
        0 <= x < cols,
        0 <= y,
    ensures
        spec_index_to_x(spec_x_and_y_to_index(x, y, cols), cols) == x,
        spec_index_to_y(spec_x_and_y_to_index(x, y, cols), cols) == y,
{
    vstd::arithmetic::div_mod::lemma_fundamental_div_mod_converse(x + y * cols, cols, y, x);
}

} // verus!
