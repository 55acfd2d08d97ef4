//! Row-major index arithmetic.
//!
//! Matrices and image planes are stored in flat slices. The lemmas here relate
//! the flat position of an element to its row and column.
use vstd::arithmetic::div_mod::lemma_fundamental_div_mod_converse;
use vstd::prelude::*;

verus! {

/// The flat position of a cell that is `row` strides and `column` cells behind
/// `start`.
pub open spec fn cell_at(start: int, stride: int, row: int, column: int) -> int {
    start + row * stride + column
}

/// Whether the flat position `index` lies in a block of `rows` by `columns`
/// cells whose first cell is at `start` and whose rows are `stride` apart.
pub open spec fn in_block(index: int, start: int, stride: int, rows: int, columns: int) -> bool {
    &&& start <= index
    &&& 0 < stride
    &&& (index - start) / stride < rows
    &&& (index - start) % stride < columns
}

/// A row and a column below the row length are recovered from the flat position.
pub proof fn lemma_decode(row: int, column: int, stride: int)
    requires
        0 <= column < stride,
    ensures
        (row * stride + column) / stride == row,
        (row * stride + column) % stride == column,
{
    lemma_fundamental_div_mod_converse(row * stride + column, stride, row, column);
}

/// A flat position is the row times the row length plus the column.
pub proof fn lemma_encode(index: int, stride: int)
    requires
        0 < stride,
    ensures
        index == (index / stride) * stride + index % stride,
        0 <= index % stride < stride,
        0 <= index ==> 0 <= index / stride,
{
    vstd::arithmetic::div_mod::lemma_fundamental_div_mod(index, stride);
    assert(index == stride * (index / stride) + index % stride);
    assert(stride * (index / stride) == (index / stride) * stride) by (nonlinear_arith);
    if 0 <= index {
        vstd::arithmetic::div_mod::lemma_div_pos_is_pos(index, stride);
    }
}

/// Multiplication by a non-negative factor keeps order.
pub proof fn lemma_scale(a: int, b: int, factor: int)
    requires
        a <= b,
        0 <= factor,
    ensures
        a * factor <= b * factor,
{
    assert(a * factor <= b * factor) by (nonlinear_arith)
        requires
            a <= b,
            0 <= factor,
    ;
}

/// A cell in a row below `rows` lies before the end of `rows` full rows.
pub proof fn lemma_row_bound(row: int, rows: int, column: int, stride: int)
    requires
        0 <= row < rows,
        0 <= column < stride,
    ensures
        0 <= row * stride,
        0 <= row * stride + column < rows * stride,
        (row + 1) * stride == row * stride + stride,
        (row + 1) * stride <= rows * stride,
{
    lemma_scale(row + 1, rows, stride);
    lemma_scale(0, row, stride);
    assert((row + 1) * stride == row * stride + stride) by (nonlinear_arith);
}

} // verus!
