//! The matrix kernels.
//!
//! Each kernel takes the arithmetic of its element type from the caller and
//! states its result as one chain of multiply-add steps per output cell.
use crate::accumulate::{activation_valid, fused, Arithmetic};
use crate::index::{cell_at, in_block, lemma_decode, lemma_row_bound, lemma_scale};
use crate::product::{block_product, blocked_product, packed_position, Block, Initial, Product};
use vstd::prelude::*;

verus! {

/// The value that a row starts from.
pub open spec fn bias_at<T>(zero: T, bias: Option<&[T]>, position: int) -> T {
    match bias {
        Some(values) => values@[position],
        None => zero,
    }
}

/// The bias, where there is one, has `len` entries.
pub open spec fn bias_has_len<T>(bias: Option<&[T]>, len: int) -> bool {
    bias matches Some(values) ==> values@.len() == len
}

/// The factor pairs of a cell of a product whose operands are both row-major.
pub open spec fn dense_terms<T>(
    left: Seq<T>,
    right: Seq<T>,
    inner: int,
    right_stride: int,
    row: int,
    column: int,
) -> Seq<(T, T)> {
    Seq::new(
        inner as nat,
        |k: int| (left[cell_at(0, inner, row, k)], right[cell_at(0, right_stride, k, column)]),
    )
}

/// The factor pairs of a cell of a product whose left operand is interleaved in
/// groups of `block` rows.
pub open spec fn packed_terms<T>(
    left: Seq<T>,
    right: Seq<T>,
    rows: int,
    inner: int,
    block: int,
    right_stride: int,
    row: int,
    column: int,
) -> Seq<(T, T)> {
    Seq::new(
        inner as nat,
        |k: int|
            (
                left[packed_position(rows, inner, block, row, k)],
                right[cell_at(0, right_stride, k, column)],
            ),
    )
}

/// `output` is a row-major matrix whose cells are activated chains of `terms`
/// from `initial`.
pub open spec fn is_product<T, M: Fn(T, T, T) -> T, A: Fn(T) -> T>(
    mul_add: M,
    activation: Option<&A>,
    initial: spec_fn(int, int) -> T,
    terms: spec_fn(int, int) -> Seq<(T, T)>,
    rows: int,
    columns: int,
    output: Seq<T>,
) -> bool {
    &&& output.len() == rows * columns
    &&& forall|row: int, column: int|
        0 <= row < rows && 0 <= column < columns ==> fused(
            mul_add,
            activation,
            initial(row, column),
            terms(row, column),
            #[trigger] output[cell_at(0, columns, row, column)],
        )
}

/// The starting values for a bias with one entry per row.
fn row_initial<'a, T: Copy>(
    zero: T,
    bias: Option<&'a [T]>,
    start: usize,
) -> (result: Initial<'a, T>)
    ensures
        result == match bias {
            Some(values) => Initial::PerRow(values, start),
            None => Initial::Constant(zero),
        },
{
    match bias {
        Some(values) => Initial::PerRow(values, start),
        None => Initial::Constant(zero),
    }
}

/// The starting values for a bias with one entry per column.
fn column_initial<'a, T: Copy>(zero: T, bias: Option<&'a [T]>, start: usize) -> (result: Initial<
    'a,
    T,
>)
    ensures
        result == match bias {
            Some(values) => Initial::PerColumn(values, start),
            None => Initial::Constant(zero),
        },
{
    match bias {
        Some(values) => Initial::PerColumn(values, start),
        None => Initial::Constant(zero),
    }
}

/// The last cell of a row-major matrix is just before its end.
pub proof fn lemma_last_cell(rows: int, columns: int)
    requires
        0 < rows,
        0 < columns,
    ensures
        cell_at(0, columns, rows - 1, columns - 1) == rows * columns - 1,
{
    assert((rows - 1) * columns + columns == rows * columns) by (nonlinear_arith);
}

/// The starting value of a cell: that of its column where there is a column
/// bias, else that of its row.
pub open spec fn start_at<T>(
    zero: T,
    bias: Option<&[T]>,
    column_bias: Option<&[T]>,
    row: int,
    column: int,
) -> T {
    match column_bias {
        Some(values) => values@[column],
        None => bias_at(zero, bias, row),
    }
}

/// The factor pairs of a cell, for a left operand that is row-major, or
/// interleaved in groups of `block` rows.
pub open spec fn product_terms<T>(
    left: Seq<T>,
    packed: Option<int>,
    right: Seq<T>,
    rows: int,
    inner: int,
    right_stride: int,
    row: int,
    column: int,
) -> Seq<(T, T)> {
    match packed {
        Some(block) => packed_terms(left, right, rows, inner, block, right_stride, row, column),
        None => dense_terms(left, right, inner, right_stride, row, column),
    }
}

/// `output` is the product of `left` and `right` with the bias and activation
/// that are given.
pub open spec fn is_gemm<T, M: Fn(T, T, T) -> T, A: Fn(T) -> T>(
    arithmetic: &Arithmetic<T, M>,
    activation: Option<&A>,
    bias: Option<&[T]>,
    column_bias: Option<&[T]>,
    left: Seq<T>,
    packed: Option<int>,
    right: Seq<T>,
    rows: int,
    inner: int,
    columns: int,
    right_stride: int,
    output: Seq<T>,
) -> bool {
    is_product(
        arithmetic.mul_add,
        activation,
        |row: int, column: int| start_at(arithmetic.zero, bias, column_bias, row, column),
        |row: int, column: int|
            product_terms(left, packed, right, rows, inner, right_stride, row, column),
        rows,
        columns,
        output,
    )
}

/// Multiplies two matrices whose operands fill their slices.
pub(crate) fn whole_product<T: Copy, M: Fn(T, T, T) -> T, A: Fn(T) -> T>(
    arithmetic: &Arithmetic<T, M>,
    output: &mut [T],
    left: &[T],
    right: &[T],
    rows: usize,
    inner: usize,
    columns: usize,
    right_stride: usize,
    bias: Option<&[T]>,
    column_bias: Option<&[T]>,
    packed_left: bool,
    block_rows: usize,
    depth_block: usize,
    activation: Option<&A>,
)
    requires
        arithmetic.valid(),
        activation_valid(activation),
        rows > 0 && inner > 0 && columns > 0,
        block_rows > 0 && depth_block > 0,
        old(output)@.len() == rows * columns,
        left@.len() == rows * inner,
        right_stride >= columns,
        right@.len() >= (inner - 1) * right_stride + columns,
        bias_has_len(bias, rows as int),
        bias_has_len(column_bias, columns as int),
        bias is None || column_bias is None,
    ensures
        is_gemm(
            arithmetic,
            activation,
            bias,
            column_bias,
            left@,
            if packed_left {
                Some(block_rows as int)
            } else {
                None
            },
            right@,
            rows as int,
            inner as int,
            columns as int,
            right_stride as int,
            final(output)@,
        ),
{
    let product: Product = Product {
        rows,
        inner,
        columns,
        output_start: 0,
        output_stride: columns,
        right_start: 0,
        right_stride,
        packed_left,
        block_rows,
        depth_block,
    };
    let initial: Initial<'_, T> = match column_bias {
        Some(values) => column_initial(arithmetic.zero, Some(values), 0),
        None => row_initial(arithmetic.zero, bias, 0),
    };
    proof {
        lemma_last_cell(rows as int, columns as int);
    }
    let ghost before = output@;
    blocked_product(arithmetic, output, left, right, product, initial, activation);
    proof {
        let packed: Option<int> = if packed_left {
            Some(block_rows as int)
        } else {
            None
        };
        assert forall|row: int, column: int|
            0 <= row < rows && 0 <= column < columns implies fused(
            arithmetic.mul_add,
            activation,
            start_at(arithmetic.zero, bias, column_bias, row, column),
            product_terms(
                left@,
                packed,
                right@,
                rows as int,
                inner as int,
                right_stride as int,
                row,
                column,
            ),
            #[trigger] output@[cell_at(0, columns as int, row, column)],
        ) by {
            let position = product.output_at(row, column);
            assert(fused(
                arithmetic.mul_add,
                activation,
                initial.value(row, column, before[position]),
                product.terms(left@, right@, row, column),
                output@[position],
            ));
            assert(product.terms(left@, right@, row, column) =~= product_terms(
                left@,
                packed,
                right@,
                rows as int,
                inner as int,
                right_stride as int,
                row,
                column,
            ));
        }
    }
}

/// Multiplies two row-major matrices, or a left matrix whose rows are all
/// interleaved with a row-major one, and starts each cell from the bias of its
/// row or column.
pub fn gemm_rows<T: Copy, M: Fn(T, T, T) -> T, A: Fn(T) -> T>(
    arithmetic: &Arithmetic<T, M>,
    output: &mut [T],
    left: &[T],
    right: &[T],
    rows: usize,
    inner: usize,
    columns: usize,
    right_stride: usize,
    bias: Option<&[T]>,
    column_bias: Option<&[T]>,
    packed_left: bool,
    activation: Option<&A>,
)
    requires
        arithmetic.valid(),
        activation_valid(activation),
        rows > 0 && inner > 0 && columns > 0,
        old(output)@.len() == rows * columns,
        left@.len() == rows * inner,
        right_stride >= columns,
        right@.len() >= (inner - 1) * right_stride + columns,
        bias_has_len(bias, rows as int),
        bias_has_len(column_bias, columns as int),
        bias is None || column_bias is None,
        packed_left ==> column_bias is None,
    ensures
        is_gemm(
            arithmetic,
            activation,
            bias,
            column_bias,
            left@,
            if packed_left {
                Some(rows as int)
            } else {
                None
            },
            right@,
            rows as int,
            inner as int,
            columns as int,
            right_stride as int,
            final(output)@,
        ),
{
    whole_product(
        arithmetic,
        output,
        left,
        right,
        rows,
        inner,
        columns,
        right_stride,
        bias,
        column_bias,
        packed_left,
        rows,
        inner,
        activation,
    );
}

/// Multiplies two row-major matrices.
pub fn gemm_with_activation<T: Copy, M: Fn(T, T, T) -> T, A: Fn(T) -> T>(
    arithmetic: &Arithmetic<T, M>,
    output: &mut [T],
    left: &[T],
    right: &[T],
    rows: usize,
    inner: usize,
    columns: usize,
    bias: Option<&[T]>,
    activation: Option<&A>,
)
    requires
        arithmetic.valid(),
        activation_valid(activation),
        rows > 0 && inner > 0 && columns > 0,
        old(output)@.len() == rows * columns,
        left@.len() == rows * inner,
        right@.len() == inner * columns,
        bias_has_len(bias, rows as int),
    ensures
        is_gemm(
            arithmetic,
            activation,
            bias,
            None,
            left@,
            None,
            right@,
            rows as int,
            inner as int,
            columns as int,
            columns as int,
            final(output)@,
        ),
{
    proof {
        assert((inner - 1) * columns + columns == inner * columns) by (nonlinear_arith);
    }
    whole_product(
        arithmetic,
        output,
        left,
        right,
        rows,
        inner,
        columns,
        columns,
        bias,
        None,
        false,
        rows,
        inner,
        activation,
    );
}

/// Multiplies a left matrix that is interleaved in groups of twelve rows with a
/// row-major one.
pub fn gemm_packed_left_with_activation<T: Copy, M: Fn(T, T, T) -> T, A: Fn(T) -> T>(
    arithmetic: &Arithmetic<T, M>,
    output: &mut [T],
    left: &[T],
    right: &[T],
    rows: usize,
    inner: usize,
    columns: usize,
    bias: Option<&[T]>,
    activation: Option<&A>,
)
    requires
        arithmetic.valid(),
        activation_valid(activation),
        rows > 0 && inner > 0 && columns > 0,
        old(output)@.len() == rows * columns,
        left@.len() == rows * inner,
        right@.len() == inner * columns,
        bias_has_len(bias, rows as int),
    ensures
        is_gemm(
            arithmetic,
            activation,
            bias,
            None,
            left@,
            Some(12),
            right@,
            rows as int,
            inner as int,
            columns as int,
            columns as int,
            final(output)@,
        ),
{
    proof {
        assert((inner - 1) * columns + columns == inner * columns) by (nonlinear_arith);
    }
    whole_product(
        arithmetic,
        output,
        left,
        right,
        rows,
        inner,
        columns,
        columns,
        bias,
        None,
        true,
        12,
        inner,
        activation,
    );
}

/// The depth that is folded in one pass: as much as keeps the left operand
/// within a quarter of a million elements, in steps of 64, from 64 to 256.
pub open spec fn depth_block_of(rows: int) -> int {
    let depth: int = 229_376int / rows;
    let bounded: int = if depth < 64 {
        64
    } else if depth > 256 {
        256
    } else {
        depth
    };
    bounded / 64 * 64
}

/// The depth that is folded in one pass for a left matrix of `rows` rows.
pub fn depth_block(rows: usize) -> (result: usize)
    requires
        rows > 0,
    ensures
        result == depth_block_of(rows as int),
        64 <= result <= 256,
        result % 64 == 0,
{
    let depth: usize = 229_376 / rows;
    let bounded: usize = if depth < 64 {
        64
    } else if depth > 256 {
        256
    } else {
        depth
    };
    bounded / 64 * 64
}

/// Multiplies a left matrix that is interleaved in groups of six rows with a
/// row-major one, a range of depths at a time.
pub fn gemm_packed_left_blocked_6<T: Copy, M: Fn(T, T, T) -> T, A: Fn(T) -> T>(
    arithmetic: &Arithmetic<T, M>,
    output: &mut [T],
    left: &[T],
    right: &[T],
    rows: usize,
    inner: usize,
    columns: usize,
    bias: Option<&[T]>,
    activation: Option<&A>,
)
    requires
        arithmetic.valid(),
        activation_valid(activation),
        rows > 0 && inner > 0 && columns > 0,
        old(output)@.len() == rows * columns,
        left@.len() == rows * inner,
        right@.len() == inner * columns,
        bias_has_len(bias, rows as int),
    ensures
        is_gemm(
            arithmetic,
            activation,
            bias,
            None,
            left@,
            Some(6),
            right@,
            rows as int,
            inner as int,
            columns as int,
            columns as int,
            final(output)@,
        ),
{
    let depth: usize = depth_block(rows);
    proof {
        assert((inner - 1) * columns + columns == inner * columns) by (nonlinear_arith);
    }
    whole_product(
        arithmetic,
        output,
        left,
        right,
        rows,
        inner,
        columns,
        columns,
        bias,
        None,
        true,
        6,
        depth,
        activation,
    );
}

/// Multiplies a tile of at most 32 columns of a wider row-major matrix with a left
/// matrix that is interleaved in groups of `block_rows` rows.
pub fn gemm_packed_left_tile<T: Copy, M: Fn(T, T, T) -> T, A: Fn(T) -> T>(
    arithmetic: &Arithmetic<T, M>,
    output: &mut [T],
    left: &[T],
    right: &[T],
    rows: usize,
    inner: usize,
    columns: usize,
    right_stride: usize,
    bias: Option<&[T]>,
    activation: Option<&A>,
    block_rows: usize,
)
    requires
        arithmetic.valid(),
        activation_valid(activation),
        rows > 0 && inner > 0 && columns > 0,
        old(output)@.len() == rows * columns,
        left@.len() == rows * inner,
        right_stride >= columns,
        right@.len() >= (inner - 1) * right_stride + columns,
        bias_has_len(bias, rows as int),
        columns <= 32,
        block_rows == 6 || block_rows == 12,
    ensures
        is_gemm(
            arithmetic,
            activation,
            bias,
            None,
            left@,
            Some(block_rows as int),
            right@,
            rows as int,
            inner as int,
            columns as int,
            right_stride as int,
            final(output)@,
        ),
{
    whole_product(
        arithmetic,
        output,
        left,
        right,
        rows,
        inner,
        columns,
        right_stride,
        bias,
        None,
        true,
        block_rows,
        inner,
        activation,
    );
}

/// The factor pairs of a cell of a product whose left rows are all interleaved.
pub open spec fn interleaved_terms<T>(
    left: Seq<T>,
    right: Seq<T>,
    rows: int,
    inner: int,
    right_stride: int,
    row: int,
    column: int,
) -> Seq<(T, T)> {
    Seq::new(
        inner as nat,
        |k: int| (left[cell_at(0, rows, k, row)], right[cell_at(0, right_stride, k, column)]),
    )
}

/// A tile of a wider output holds a product of interleaved rows, and nothing else
/// of the output has changed.
pub open spec fn is_tile<T, M: Fn(T, T, T) -> T, A: Fn(T) -> T>(
    mul_add: M,
    activation: Option<&A>,
    initial: spec_fn(int, int) -> T,
    left: Seq<T>,
    right: Seq<T>,
    rows: int,
    inner: int,
    columns: int,
    output_stride: int,
    right_stride: int,
    before: Seq<T>,
    after: Seq<T>,
) -> bool {
    &&& after.len() == before.len()
    &&& forall|row: int, column: int|
        0 <= row < rows && 0 <= column < columns ==> fused(
            mul_add,
            activation,
            initial(row, column),
            interleaved_terms(left, right, rows, inner, right_stride, row, column),
            #[trigger] after[cell_at(0, output_stride, row, column)],
        )
    &&& forall|position: int|
        0 <= position < before.len() && !in_block(position, 0, output_stride, rows, columns)
            ==> #[trigger] after[position] == before[position]
}

/// Multiplies interleaved rows into a tile of a wider output.
fn packed_tile<T: Copy, M: Fn(T, T, T) -> T, A: Fn(T) -> T>(
    arithmetic: &Arithmetic<T, M>,
    output: &mut [T],
    left: &[T],
    right: &[T],
    rows: usize,
    inner: usize,
    columns: usize,
    output_stride: usize,
    right_stride: usize,
    initial: Initial<'_, T>,
    activation: Option<&A>,
)
    requires
        arithmetic.valid(),
        activation_valid(activation),
        rows > 0,
        output_stride >= columns,
        columns == 0 || old(output)@.len() >= (rows - 1) * output_stride + columns,
        left@.len() == rows * inner,
        right_stride >= columns,
        inner == 0 || right@.len() >= (inner - 1) * right_stride + columns,
        initial.covers(rows as int, columns as int),
    ensures
        is_tile(
            arithmetic.mul_add,
            activation,
            |row: int, column: int|
                initial.value(row, column, old(output)@[cell_at(0, output_stride as int, row, column)]),
            left@,
            right@,
            rows as int,
            inner as int,
            columns as int,
            output_stride as int,
            right_stride as int,
            old(output)@,
            final(output)@,
        ),
{
    let block: Block = Block {
        rows,
        inner,
        columns,
        output_start: 0,
        output_stride,
        left_start: 0,
        left_row_step: 1,
        left_step: rows,
        right_start: 0,
        right_step: right_stride,
        right_column_step: 1,
    };
    let ghost before = output@;
    proof {
        if inner > 0 {
            assert((inner - 1) * rows + rows == rows * inner) by (nonlinear_arith);
        }
    }
    block_product(arithmetic, output, left, right, block, initial, activation);
    proof {
        assert forall|row: int, column: int| 0 <= row < rows && 0 <= column < columns implies fused(
            arithmetic.mul_add,
            activation,
            initial.value(row, column, before[cell_at(0, output_stride as int, row, column)]),
            interleaved_terms(
                left@,
                right@,
                rows as int,
                inner as int,
                right_stride as int,
                row,
                column,
            ),
            #[trigger] output@[cell_at(0, output_stride as int, row, column)],
        ) by {
            let position = block.output_at(row, column);
            assert(fused(
                arithmetic.mul_add,
                activation,
                initial.value(row, column, before[position]),
                block.terms(left@, right@, row, column),
                output@[position],
            ));
            assert(block.terms(left@, right@, row, column) =~= interleaved_terms(
                left@,
                right@,
                rows as int,
                inner as int,
                right_stride as int,
                row,
                column,
            ));
        }
    }
}

/// Multiplies four interleaved rows into a tile of a wider output. With
/// `accumulate` the sums go on from what the tile holds.
pub fn gemm_4x16_packed<T: Copy, M: Fn(T, T, T) -> T, A: Fn(T) -> T>(
    arithmetic: &Arithmetic<T, M>,
    output: &mut [T],
    left: &[T],
    right: &[T],
    inner: usize,
    columns: usize,
    output_stride: usize,
    right_stride: usize,
    bias: Option<&[T]>,
    accumulate: bool,
    activation: Option<&A>,
)
    requires
        arithmetic.valid(),
        activation_valid(activation),
        output_stride >= columns,
        columns == 0 || old(output)@.len() >= (4 - 1) * output_stride + columns,
        left@.len() == 4 * inner,
        right_stride >= columns,
        inner == 0 || right@.len() >= (inner - 1) * right_stride + columns,
        bias_has_len(bias, 4),
    ensures
        is_tile(
            arithmetic.mul_add,
            activation,
            |row: int, column: int|
                if accumulate {
                    old(output)@[cell_at(0, output_stride as int, row, column)]
                } else {
                    bias_at(arithmetic.zero, bias, row)
                },
            left@,
            right@,
            4,
            inner as int,
            columns as int,
            output_stride as int,
            right_stride as int,
            old(output)@,
            final(output)@,
        ),
{
    let initial: Initial<'_, T> = if accumulate {
        Initial::Accumulate
    } else {
        row_initial(arithmetic.zero, bias, 0)
    };
    packed_tile(
        arithmetic,
        output,
        left,
        right,
        4,
        inner,
        columns,
        output_stride,
        right_stride,
        initial,
        activation,
    );
}

/// Multiplies six interleaved rows into a tile of a wider output. With
/// `accumulate` the sums go on from what the tile holds.
pub fn gemm_6x16_packed<T: Copy, M: Fn(T, T, T) -> T, A: Fn(T) -> T>(
    arithmetic: &Arithmetic<T, M>,
    output: &mut [T],
    left: &[T],
    right: &[T],
    inner: usize,
    columns: usize,
    output_stride: usize,
    right_stride: usize,
    bias: Option<&[T]>,
    accumulate: bool,
    activation: Option<&A>,
)
    requires
        arithmetic.valid(),
        activation_valid(activation),
        output_stride >= columns,
        columns == 0 || old(output)@.len() >= (6 - 1) * output_stride + columns,
        left@.len() == 6 * inner,
        right_stride >= columns,
        inner == 0 || right@.len() >= (inner - 1) * right_stride + columns,
        bias_has_len(bias, 6),
    ensures
        is_tile(
            arithmetic.mul_add,
            activation,
            |row: int, column: int|
                if accumulate {
                    old(output)@[cell_at(0, output_stride as int, row, column)]
                } else {
                    bias_at(arithmetic.zero, bias, row)
                },
            left@,
            right@,
            6,
            inner as int,
            columns as int,
            output_stride as int,
            right_stride as int,
            old(output)@,
            final(output)@,
        ),
{
    let initial: Initial<'_, T> = if accumulate {
        Initial::Accumulate
    } else {
        row_initial(arithmetic.zero, bias, 0)
    };
    packed_tile(
        arithmetic,
        output,
        left,
        right,
        6,
        inner,
        columns,
        output_stride,
        right_stride,
        initial,
        activation,
    );
}

/// Multiplies sixteen interleaved rows with a panel of six columns, of which the
/// first `COLUMNS` are used, into a tile of a wider output.
pub fn gemm_16x6_packed<const COLUMNS: usize, T: Copy, M: Fn(T, T, T) -> T, A: Fn(T) -> T>(
    arithmetic: &Arithmetic<T, M>,
    output: &mut [T],
    left: &[T],
    right: &[T],
    inner: usize,
    output_stride: usize,
    bias: Option<&[T]>,
    activation: Option<&A>,
)
    requires
        arithmetic.valid(),
        activation_valid(activation),
        1 <= COLUMNS <= 6,
        output_stride >= COLUMNS,
        old(output)@.len() >= 15 * output_stride + COLUMNS,
        left@.len() == 16 * inner,
        right@.len() >= inner * 6,
        bias_has_len(bias, 16),
    ensures
        is_tile(
            arithmetic.mul_add,
            activation,
            |row: int, column: int| bias_at(arithmetic.zero, bias, row),
            left@,
            right@,
            16,
            inner as int,
            COLUMNS as int,
            output_stride as int,
            6,
            old(output)@,
            final(output)@,
        ),
{
    let initial: Initial<'_, T> = row_initial(arithmetic.zero, bias, 0);
    packed_tile(
        arithmetic,
        output,
        left,
        right,
        16,
        inner,
        COLUMNS,
        output_stride,
        6,
        initial,
        activation,
    );
}

/// Multiplies at most six interleaved input rows with at most sixteen interleaved
/// weight columns into a tile of a wider output, and starts each cell from the
/// bias of its column.
pub fn linear_6x16_packed<const ROWS: usize, T: Copy, M: Fn(T, T, T) -> T, A: Fn(T) -> T>(
    arithmetic: &Arithmetic<T, M>,
    output: &mut [T],
    output_stride: usize,
    packed_input: &[T],
    weight: &[T],
    inner: usize,
    columns: usize,
    bias: Option<&[T]>,
    activation: Option<&A>,
)
    requires
        arithmetic.valid(),
        activation_valid(activation),
        0 < ROWS <= 6,
        0 < columns <= 16,
        output_stride >= columns,
        old(output)@.len() >= (ROWS - 1) * output_stride + columns,
        packed_input@.len() == ROWS * inner,
        weight@.len() == columns * inner,
        bias_has_len(bias, columns as int),
    ensures
        is_tile(
            arithmetic.mul_add,
            activation,
            |row: int, column: int| bias_at(arithmetic.zero, bias, column),
            packed_input@,
            weight@,
            ROWS as int,
            inner as int,
            columns as int,
            output_stride as int,
            columns as int,
            old(output)@,
            final(output)@,
        ),
{
    let initial: Initial<'_, T> = column_initial(arithmetic.zero, bias, 0);
    proof {
        assert((inner - 1) * columns + columns == columns * inner) by (nonlinear_arith);
    }
    packed_tile(
        arithmetic,
        output,
        packed_input,
        weight,
        ROWS,
        inner,
        columns,
        output_stride,
        columns,
        initial,
        activation,
    );
}

/// The factor pairs of a cell of a linear layer whose weight is stored by output
/// column, interleaved in groups of `block` columns.
pub open spec fn linear_terms<T>(
    input: Seq<T>,
    weight: Seq<T>,
    inner: int,
    columns: int,
    block: int,
    row: int,
    column: int,
) -> Seq<(T, T)> {
    Seq::new(
        inner as nat,
        |k: int|
            (
                input[cell_at(0, inner, row, k)],
                weight[packed_position(columns, inner, block, column, k)],
            ),
    )
}

/// Applies a linear layer to `rows` input rows. The weight is stored by output
/// column, interleaved in groups of `weight_block_columns`.
pub fn linear_right_transposed<T: Copy, M: Fn(T, T, T) -> T, A: Fn(T) -> T>(
    arithmetic: &Arithmetic<T, M>,
    output: &mut [T],
    input: &[T],
    weight: &[T],
    rows: usize,
    inner: usize,
    columns: usize,
    weight_block_columns: usize,
    bias: Option<&[T]>,
    activation: Option<&A>,
)
    requires
        arithmetic.valid(),
        activation_valid(activation),
        rows > 0 && inner > 0 && columns > 0,
        weight_block_columns > 0,
        old(output)@.len() == rows * columns,
        input@.len() == rows * inner,
        weight@.len() == columns * inner,
        bias_has_len(bias, columns as int),
    ensures
        is_product(
            arithmetic.mul_add,
            activation,
            |row: int, column: int| bias_at(arithmetic.zero, bias, column),
            |row: int, column: int|
                linear_terms(
                    input@,
                    weight@,
                    inner as int,
                    columns as int,
                    weight_block_columns as int,
                    row,
                    column,
                ),
            rows as int,
            columns as int,
            final(output)@,
        ),
{
    let block: usize = weight_block_columns;
    let output_len: usize = output.len();
    let input_len: usize = input.len();
    let weight_len: usize = weight.len();
    let mut column_start: usize = 0;
    let ghost mut group: int = 0;
    while column_start < columns
        invariant
            arithmetic.valid(),
            activation_valid(activation),
            rows > 0 && inner > 0 && columns > 0,
            block > 0,
            block == weight_block_columns,
            output_len == output@.len(),
            input_len == input@.len(),
            weight_len == weight@.len(),
            output@.len() == rows * columns,
            input@.len() == rows * inner,
            weight@.len() == columns * inner,
            bias_has_len(bias, columns as int),
            0 <= group,
            column_start <= columns,
            column_start < columns ==> column_start == group * block,
            forall|row: int, column: int|
                0 <= row < rows && 0 <= column < column_start ==> fused(
                    arithmetic.mul_add,
                    activation,
                    bias_at(arithmetic.zero, bias, column),
                    linear_terms(
                        input@,
                        weight@,
                        inner as int,
                        columns as int,
                        block as int,
                        row,
                        column,
                    ),
                    #[trigger] output@[cell_at(0, columns as int, row, column)],
                ),
        decreases columns - column_start,
    {
        let width: usize = if columns - column_start < block {
            columns - column_start
        } else {
            block
        };
        proof {
            lemma_scale(0, column_start as int, inner as int);
            lemma_scale(column_start + width, columns as int, inner as int);
            assert((column_start + width) * inner == column_start * inner + (inner - 1) * width
                + width) by (nonlinear_arith);
            lemma_scale(0, inner - 1, width as int);
            assert((rows - 1) * columns + columns == rows * columns) by (nonlinear_arith);
            assert((rows - 1) * inner + inner == rows * inner) by (nonlinear_arith);
        }
        let tile: Block = Block {
            rows,
            inner,
            columns: width,
            output_start: column_start,
            output_stride: columns,
            left_start: 0,
            left_row_step: inner,
            left_step: 1,
            right_start: column_start * inner,
            right_step: width,
            right_column_step: 1,
        };
        let initial: Initial<'_, T> = column_initial(arithmetic.zero, bias, column_start);
        let ghost before = output@;
        block_product(arithmetic, output, input, weight, tile, initial, activation);
        proof {
            assert forall|row: int, column: int|
                0 <= row < rows && 0 <= column < column_start + width implies fused(
                arithmetic.mul_add,
                activation,
                bias_at(arithmetic.zero, bias, column),
                linear_terms(
                    input@,
                    weight@,
                    inner as int,
                    columns as int,
                    block as int,
                    row,
                    column,
                ),
                #[trigger] output@[cell_at(0, columns as int, row, column)],
            ) by {
                let position = cell_at(0, columns as int, row, column);
                lemma_row_bound(row, rows as int, column, columns as int);
                if column < column_start {
                    assert(!tile.writes(position)) by {
                        let d = position - column_start;
                        if d >= 0 {
                            let wrapped = columns + column - column_start;
                            assert((row - 1) * columns + wrapped == d) by (nonlinear_arith)
                                requires
                                    d == row * columns + column - column_start,
                                    wrapped == columns + column - column_start,
                            ;
                            lemma_decode(row - 1, wrapped, columns as int);
                        }
                    }
                    assert(output@[position] == before[position]);
                } else {
                    let c = column - column_start;
                    assert(tile.output_at(row, c) == position);
                    assert(fused(
                        arithmetic.mul_add,
                        activation,
                        initial.value(row, c, before[tile.output_at(row, c)]),
                        tile.terms(input@, weight@, row, c),
                        output@[tile.output_at(row, c)],
                    ));
                    lemma_decode(group, c, block as int);
                    assert(tile.terms(input@, weight@, row, c) =~= linear_terms(
                        input@,
                        weight@,
                        inner as int,
                        columns as int,
                        block as int,
                        row,
                        column,
                    ));
                }
            }
            group = group + 1;
            assert(group * block == (group - 1) * block + block) by (nonlinear_arith);
        }
        column_start = column_start + width;
    }
}

/// Multiplies an interleaved left matrix with panels of sixteen columns. Panels
/// follow one another in the right operand and in the output.
pub fn gemm_packed_panels<T: Copy, M: Fn(T, T, T) -> T, A: Fn(T) -> T>(
    arithmetic: &Arithmetic<T, M>,
    output: &mut [T],
    left: &[T],
    right: &[T],
    rows: usize,
    inner: usize,
    panels: usize,
    bias: Option<&[T]>,
    activation: Option<&A>,
)
    requires
        arithmetic.valid(),
        activation_valid(activation),
        rows > 0 && inner > 0,
        old(output)@.len() == panels * (rows * 16),
        left@.len() == rows * inner,
        right@.len() == panels * (inner * 16),
        bias_has_len(bias, rows as int),
    ensures
        final(output)@.len() == old(output)@.len(),
        forall|panel: int, row: int, column: int|
            0 <= panel < panels && 0 <= row < rows && 0 <= column < 16 ==> fused(
                arithmetic.mul_add,
                activation,
                bias_at(arithmetic.zero, bias, row),
                packed_terms(
                    left@,
                    right@.skip(panel * (inner * 16)),
                    rows as int,
                    inner as int,
                    4,
                    16,
                    row,
                    column,
                ),
                #[trigger] final(output)@[cell_at(panel * (rows * 16), 16, row, column)],
            ),
{
    let output_len: usize = output.len();
    let right_len: usize = right.len();
    let initial: Initial<'_, T> = row_initial(arithmetic.zero, bias, 0);
    let mut panel: usize = 0;
    while panel < panels
        invariant
            arithmetic.valid(),
            activation_valid(activation),
            rows > 0 && inner > 0,
            output_len == output@.len(),
            right_len == right@.len(),
            output@.len() == panels * (rows * 16),
            left@.len() == rows * inner,
            right@.len() == panels * (inner * 16),
            bias_has_len(bias, rows as int),
            initial == match bias {
                Some(values) => Initial::PerRow(values, 0),
                None => Initial::Constant(arithmetic.zero),
            },
            panel <= panels,
            forall|p: int, row: int, column: int|
                0 <= p < panel && 0 <= row < rows && 0 <= column < 16 ==> fused(
                    arithmetic.mul_add,
                    activation,
                    bias_at(arithmetic.zero, bias, row),
                    packed_terms(
                        left@,
                        right@.skip(p * (inner * 16)),
                        rows as int,
                        inner as int,
                        4,
                        16,
                        row,
                        column,
                    ),
                    #[trigger] output@[cell_at(p * (rows * 16), 16, row, column)],
                ),
        decreases panels - panel,
    {
        let ghost output_size = rows * 16;
        let ghost right_size = inner * 16;
        proof {
            lemma_row_bound(panel as int, panels as int, 0, output_size);
            lemma_row_bound(panel as int, panels as int, 0, right_size);
            lemma_scale(1, panels as int, output_size);
            lemma_scale(1, panels as int, right_size);
        }
        let product: Product = Product {
            rows,
            inner,
            columns: 16,
            output_start: panel * (rows * 16),
            output_stride: 16,
            right_start: panel * (inner * 16),
            right_stride: 16,
            packed_left: true,
            block_rows: 4,
            depth_block: 256,
        };
        let ghost before = output@;
        blocked_product(arithmetic, output, left, right, product, initial, activation);
        proof {
            assert forall|p: int, row: int, column: int|
                0 <= p < panel + 1 && 0 <= row < rows && 0 <= column < 16 implies fused(
                arithmetic.mul_add,
                activation,
                bias_at(arithmetic.zero, bias, row),
                packed_terms(
                    left@,
                    right@.skip(p * (inner * 16)),
                    rows as int,
                    inner as int,
                    4,
                    16,
                    row,
                    column,
                ),
                #[trigger] output@[cell_at(p * (rows * 16), 16, row, column)],
            ) by {
                let position = cell_at(p * (rows * 16), 16, row, column);
                lemma_row_bound(row, rows as int, column, 16);
                lemma_row_bound(p, panels as int, row * 16 + column, output_size);
                if p < panel {
                    lemma_row_bound(p, panel as int, row * 16 + column, output_size);
                    assert(!product.writes(position));
                    assert(output@[position] == before[position]);
                } else {
                    assert(product.output_at(row, column) == position);
                    assert(fused(
                        arithmetic.mul_add,
                        activation,
                        initial.value(row, column, before[position]),
                        product.terms(left@, right@, row, column),
                        output@[position],
                    ));
                    assert forall|k: int| 0 <= k < inner implies cell_at(
                        p * right_size,
                        16,
                        k,
                        column,
                    ) - p * right_size < right@.len() - p * right_size && #[trigger] right@.skip(
                        p * right_size,
                    )[cell_at(0, 16, k, column)] == right@[cell_at(
                        p * right_size,
                        16,
                        k,
                        column,
                    )] by {
                        lemma_row_bound(k, inner as int, column, 16);
                    }
                    assert(product.terms(left@, right@, row, column) =~= packed_terms(
                        left@,
                        right@.skip(p * (inner * 16)),
                        rows as int,
                        inner as int,
                        4,
                        16,
                        row,
                        column,
                    ));
                }
            }
        }
        panel = panel + 1;
    }
}

/// Copies `width` columns of a row-major matrix into panels of six columns, one
/// panel after the other. Lanes behind the last column are `zero`.
fn pack_right_panels<T: Copy>(
    zero: T,
    right: &[T],
    inner: usize,
    columns: usize,
    column_start: usize,
    width: usize,
) -> (packed: Vec<T>)
    requires
        right@.len() == inner * columns,
        column_start + width <= columns,
        width <= 96,
        (width + 5) / 6 * (inner * 6) <= usize::MAX,
        inner * 6 <= usize::MAX,
    ensures
        packed@.len() == (width + 5) / 6 * (inner * 6),
        forall|panel: int, index: int, lane: int|
            0 <= panel < (width + 5) / 6 && 0 <= index < inner && 0 <= lane < 6 && panel * 6 + lane
                < width ==> #[trigger] packed@[cell_at(panel * (inner * 6), 6, index, lane)]
                == right@[cell_at(0, columns as int, index, column_start + panel * 6 + lane)],
{
    let panels: usize = (width + 5) / 6;
    let right_len: usize = right.len();
    let mut packed: Vec<T> = Vec::with_capacity(panels * (inner * 6));
    let ghost size = inner * 6;
    proof {
        vstd::arithmetic::mul::lemma_mul_basics(size);
    }
    for panel in 0..panels
        invariant
            panels == (width + 5) / 6,
            right_len == right@.len(),
            right@.len() == inner * columns,
            column_start + width <= columns,
            width <= 96,
            size == inner * 6,
            packed@.len() == panel * size,
            forall|p: int, index: int, lane: int|
                0 <= p < panel && 0 <= index < inner && 0 <= lane < 6 && p * 6 + lane < width
                    ==> #[trigger] packed@[cell_at(p * size, 6, index, lane)] == right@[cell_at(
                    0,
                    columns as int,
                    index,
                    column_start + p * 6 + lane,
                )],
    {
        for index in 0..inner
            invariant
                panel < panels,
                panels == (width + 5) / 6,
                right_len == right@.len(),
                right@.len() == inner * columns,
                column_start + width <= columns,
                width <= 96,
                size == inner * 6,
                packed@.len() == panel * size + index * 6,
                forall|p: int, i: int, lane: int|
                    0 <= p <= panel && 0 <= i < inner && 0 <= lane < 6 && p * 6 + lane < width && (p
                        < panel || i < index) ==> #[trigger] packed@[cell_at(p * size, 6, i, lane)]
                        == right@[cell_at(0, columns as int, i, column_start + p * 6 + lane)],
        {
            for lane in 0..6usize
                invariant
                    panel < panels,
                    index < inner,
                    panels == (width + 5) / 6,
                    right_len == right@.len(),
                    right@.len() == inner * columns,
                    column_start + width <= columns,
                    width <= 96,
                    size == inner * 6,
                    packed@.len() == panel * size + index * 6 + lane,
                    forall|p: int, i: int, l: int|
                        0 <= p <= panel && 0 <= i < inner && 0 <= l < 6 && p * 6 + l < width && (p
                            < panel || i < index || (i == index && l < lane))
                            ==> #[trigger] packed@[cell_at(p * size, 6, i, l)] == right@[cell_at(
                            0,
                            columns as int,
                            i,
                            column_start + p * 6 + l,
                        )],
            {
                let column: usize = panel * 6 + lane;
                let value: T = if column < width {
                    proof {
                        lemma_row_bound(
                            index as int,
                            inner as int,
                            column_start + column,
                            columns as int,
                        );
                    }
                    right[index * columns + (column_start + column)]
                } else {
                    zero
                };
                let ghost before = packed@;
                packed.push(value);
                proof {
                    assert forall|p: int, i: int, l: int|
                        0 <= p <= panel && 0 <= i < inner && 0 <= l < 6 && p * 6 + l < width && (p
                            < panel || i < index || (i == index && l < lane + 1)) implies
                        #[trigger] packed@[cell_at(p * size, 6, i, l)] == right@[cell_at(
                        0,
                        columns as int,
                        i,
                        column_start + p * 6 + l,
                    )] by {
                        let position = cell_at(p * size, 6, i, l);
                        lemma_row_bound(i, inner as int, l, 6);
                        if p < panel {
                            lemma_row_bound(p, panel as int, i * 6 + l, size);
                        } else {
                            lemma_scale(0, panel as int, size);
                        }
                        if p < panel || i < index || l < lane {
                            assert(position < before.len());
                            assert(before[position] == packed@[position]);
                        }
                    }
                }
            }
        }
        assert((panel + 1) * size == panel * size + size) by (nonlinear_arith);
    }
    packed
}

/// The number of columns that are packed at a time.
pub open spec fn cached_columns(inner: int, columns: int) -> int {
    if inner >= 768 || (inner <= 128 && columns >= 10_000) {
        96
    } else {
        24
    }
}

/// The number of columns that are packed at a time.
pub fn cached_column_block(inner: usize, columns: usize) -> (result: usize)
    ensures
        result == cached_columns(inner as int, columns as int),
{
    if inner >= 768 || (inner <= 128 && columns >= 10_000) {
        96
    } else {
        24
    }
}

/// Multiplies a left matrix that is interleaved in groups of sixteen rows with a
/// row-major one. The right operand is copied into narrow panels first.
#[verifier::spinoff_prover]
pub fn gemm_packed_left_cached_blocked_16<T: Copy, M: Fn(T, T, T) -> T, A: Fn(T) -> T>(
    arithmetic: &Arithmetic<T, M>,
    output: &mut [T],
    left: &[T],
    right: &[T],
    rows: usize,
    inner: usize,
    columns: usize,
    bias: Option<&[T]>,
    activation: Option<&A>,
)
    requires
        arithmetic.valid(),
        activation_valid(activation),
        rows > 0 && inner > 0 && columns > 0,
        rows % 16 == 0,
        inner * 96 <= usize::MAX,
        old(output)@.len() == rows * columns,
        left@.len() == rows * inner,
        right@.len() == inner * columns,
        bias_has_len(bias, rows as int),
    ensures
        is_gemm(
            arithmetic,
            activation,
            bias,
            None,
            left@,
            Some(16),
            right@,
            rows as int,
            inner as int,
            columns as int,
            columns as int,
            final(output)@,
        ),
{
    let column_block: usize = cached_column_block(inner, columns);
    let output_len: usize = output.len();
    let initial: Initial<'_, T> = row_initial(arithmetic.zero, bias, 0);
    let mut column_start: usize = 0;
    proof {
        assert((rows - 1) * columns + columns == rows * columns) by (nonlinear_arith);
    }
    while column_start < columns
        invariant
            arithmetic.valid(),
            activation_valid(activation),
            rows > 0 && inner > 0 && columns > 0,
            column_block == 24 || column_block == 96,
            inner * 96 <= usize::MAX,
            output_len == output@.len(),
            output@.len() == rows * columns,
            (rows - 1) * columns + columns == rows * columns,
            left@.len() == rows * inner,
            right@.len() == inner * columns,
            bias_has_len(bias, rows as int),
            initial == match bias {
                Some(values) => Initial::PerRow(values, 0),
                None => Initial::Constant(arithmetic.zero),
            },
            column_start <= columns,
            forall|row: int, column: int|
                0 <= row < rows && 0 <= column < column_start ==> fused(
                    arithmetic.mul_add,
                    activation,
                    start_at(arithmetic.zero, bias, None, row, column),
                    product_terms(
                        left@,
                        Some(16),
                        right@,
                        rows as int,
                        inner as int,
                        columns as int,
                        row,
                        column,
                    ),
                    #[trigger] output@[cell_at(0, columns as int, row, column)],
                ),
        decreases columns - column_start,
    {
        let width: usize = if columns - column_start < column_block {
            columns - column_start
        } else {
            column_block
        };
        let panels: usize = (width + 5) / 6;
        proof {
            assert(panels <= 16);
            lemma_scale(panels as int, 16, inner * 6);
        }
        let packed: Vec<T> = pack_right_panels(
            arithmetic.zero,
            right,
            inner,
            columns,
            column_start,
            width,
        );
        let mut panel: usize = 0;
        while panel < panels
            invariant
                arithmetic.valid(),
                activation_valid(activation),
                rows > 0 && inner > 0 && columns > 0,
                panels == (width + 5) / 6,
                0 < width <= 96,
                column_start + width <= columns,
                inner * 96 <= usize::MAX,
                packed@.len() == panels * (inner * 6),
                packed@.len() <= usize::MAX,
                forall|p: int, index: int, lane: int|
                    0 <= p < panels && 0 <= index < inner && 0 <= lane < 6 && p * 6 + lane < width
                        ==> #[trigger] packed@[cell_at(p * (inner * 6), 6, index, lane)]
                        == right@[cell_at(0, columns as int, index, column_start + p * 6 + lane)],
                output_len == output@.len(),
                output@.len() == rows * columns,
                (rows - 1) * columns + columns == rows * columns,
                left@.len() == rows * inner,
                right@.len() == inner * columns,
                bias_has_len(bias, rows as int),
                initial == match bias {
                    Some(values) => Initial::PerRow(values, 0),
                    None => Initial::Constant(arithmetic.zero),
                },
                panel <= panels,
                forall|row: int, column: int|
                    0 <= row < rows && 0 <= column < column_start + panel * 6 && column
                        < column_start + width ==> fused(
                        arithmetic.mul_add,
                        activation,
                        start_at(arithmetic.zero, bias, None, row, column),
                        product_terms(
                            left@,
                            Some(16),
                            right@,
                            rows as int,
                            inner as int,
                            columns as int,
                            row,
                            column,
                        ),
                        #[trigger] output@[cell_at(0, columns as int, row, column)],
                    ),
            decreases panels - panel,
        {
            let panel_columns: usize = if width - panel * 6 < 6 {
                width - panel * 6
            } else {
                6
            };
            let first: usize = column_start + panel * 6;
            proof {
                lemma_row_bound(panel as int, panels as int, 0, inner * 6);
                assert((inner - 1) * 6 + 6 == inner * 6);
            }
            let product: Product = Product {
                rows,
                inner,
                columns: panel_columns,
                output_start: first,
                output_stride: columns,
                right_start: panel * (inner * 6),
                right_stride: 6,
                packed_left: true,
                block_rows: 16,
                depth_block: inner,
            };
            let ghost before = output@;
            blocked_product(
                arithmetic,
                output,
                left,
                packed.as_slice(),
                product,
                initial,
                activation,
            );
            proof {
                assert forall|row: int, column: int|
                    0 <= row < rows && 0 <= column < column_start + (panel + 1) * 6 && column
                        < column_start + width implies fused(
                    arithmetic.mul_add,
                    activation,
                    start_at(arithmetic.zero, bias, None, row, column),
                    product_terms(
                        left@,
                        Some(16),
                        right@,
                        rows as int,
                        inner as int,
                        columns as int,
                        row,
                        column,
                    ),
                    #[trigger] output@[cell_at(0, columns as int, row, column)],
                ) by {
                    let position = cell_at(0, columns as int, row, column);
                    lemma_row_bound(row, rows as int, column, columns as int);
                    if column < first {
                        assert(!product.writes(position)) by {
                            let d = position - first;
                            if d >= 0 {
                                let wrapped = columns + column - first;
                                assert((row - 1) * columns + wrapped == d) by (nonlinear_arith)
                                    requires
                                        d == row * columns + column - first,
                                        wrapped == columns + column - first,
                                ;
                                lemma_decode(row - 1, wrapped, columns as int);
                            }
                        }
                        assert(output@[position] == before[position]);
                    } else {
                        let lane = column - first;
                        assert(product.output_at(row, lane) == position);
                        assert(fused(
                            arithmetic.mul_add,
                            activation,
                            initial.value(row, lane, before[position]),
                            product.terms(left@, packed@, row, lane),
                            output@[position],
                        ));
                        assert(product.terms(left@, packed@, row, lane) =~= product_terms(
                            left@,
                            Some(16),
                            right@,
                            rows as int,
                            inner as int,
                            columns as int,
                            row,
                            column,
                        )) by {
                            assert forall|k: int| 0 <= k < inner implies #[trigger] packed@[cell_at(
                                panel * (inner * 6),
                                6,
                                k,
                                lane,
                            )] == right@[cell_at(0, columns as int, k, column)] by {
                                assert(column_start + panel * 6 + lane == column);
                            }
                        }
                    }
                }
            }
            panel = panel + 1;
        }
        column_start = column_start + width;
    }
}

} // verus!
