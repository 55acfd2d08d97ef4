//! Interleaved storage of matrix rows.
use crate::accumulate::Arithmetic;
use crate::index::{cell_at, lemma_decode, lemma_encode, lemma_row_bound, lemma_scale};
use crate::kernels::{dense_terms, is_gemm, packed_terms, product_terms, start_at};
use crate::product::{group_height, packed_position};
use vstd::prelude::*;

verus! {

/// Why a weight cannot be interleaved.
#[derive(Clone, Copy, Debug, PartialEq, Eq, Structural)]
pub enum PackError {
    ZeroRows,
    ZeroBlock,
    Uneven,
}

/// `packed` holds the elements of the row-major matrix `source`, interleaved in
/// groups of `block` rows.
pub open spec fn interleaves<T>(
    packed: Seq<T>,
    source: Seq<T>,
    rows: int,
    inner: int,
    block: int,
) -> bool {
    &&& packed.len() == source.len()
    &&& forall|row: int, index: int|
        0 <= row < rows && 0 <= index < inner ==> #[trigger] packed[packed_position(
            rows,
            inner,
            block,
            row,
            index,
        )] == source[cell_at(0, inner, row, index)]
}

/// `packed` holds the element of `source` at its interleaved place.
spec fn placed<T>(
    packed: Seq<T>,
    source: Seq<T>,
    rows: int,
    inner: int,
    block: int,
    row: int,
    index: int,
) -> bool {
    let position: int = packed_position(rows, inner, block, row, index);
    0 <= position < packed.len() && packed[position] == source[cell_at(0, inner, row, index)]
}

/// The group of a row, and its height.
proof fn lemma_group(rows: int, block: int, row: int)
    requires
        0 < block,
        0 <= row < rows,
    ensures
        0 <= (row / block) * block <= row,
        row == (row / block) * block + row % block,
        0 <= row % block < group_height(rows, block, row) <= block,
        (row / block) * block + group_height(rows, block, row) <= rows,
        0 <= row / block,
{
    lemma_encode(row, block);
    lemma_scale(0, row / block, block);
}

/// Every element of an interleaved matrix has a place inside it.
pub proof fn lemma_packed_position_in_range(rows: int, inner: int, block: int, row: int, index: int)
    requires
        0 < block,
        0 <= row < rows,
        0 <= index < inner,
    ensures
        (row / block) * block * inner <= packed_position(rows, inner, block, row, index)
            < ((row / block) * block + group_height(rows, block, row)) * inner,
        0 <= packed_position(rows, inner, block, row, index) < rows * inner,
{
    lemma_group(rows, block, row);
    let start = (row / block) * block;
    let height = group_height(rows, block, row);
    lemma_row_bound(index, inner, row % block, height);
    lemma_scale(0, start, inner);
    lemma_scale(start + height, rows, inner);
    assert((start + height) * inner == start * inner + inner * height) by (nonlinear_arith);
}

/// Different elements of an interleaved matrix have different places.
pub proof fn lemma_packed_position_injective(
    rows: int,
    inner: int,
    block: int,
    row: int,
    index: int,
    other_row: int,
    other_index: int,
)
    requires
        0 < block,
        0 <= row < rows,
        0 <= index < inner,
        0 <= other_row < rows,
        0 <= other_index < inner,
        packed_position(rows, inner, block, row, index) == packed_position(
            rows,
            inner,
            block,
            other_row,
            other_index,
        ),
    ensures
        row == other_row,
        index == other_index,
{
    lemma_group(rows, block, row);
    lemma_group(rows, block, other_row);
    lemma_packed_position_in_range(rows, inner, block, row, index);
    lemma_packed_position_in_range(rows, inner, block, other_row, other_index);
    let group = row / block;
    let other = other_row / block;
    let height = group_height(rows, block, row);
    let other_height = group_height(rows, block, other_row);
    if group < other {
        lemma_scale(group + 1, other, block);
        assert((group + 1) * block == group * block + block) by (nonlinear_arith);
        lemma_scale(group * block + height, other * block, inner);
    } else if other < group {
        lemma_scale(other + 1, group, block);
        assert((other + 1) * block == other * block + block) by (nonlinear_arith);
        lemma_scale(other * block + other_height, group * block, inner);
    } else {
        lemma_decode(index, row % block, height);
        lemma_decode(other_index, other_row % block, height);
    }
}

/// Interleaving the rows of the left operand does not change a product.
pub proof fn lemma_packed_product<T: Copy, M: Fn(T, T, T) -> T, A: Fn(T) -> T>(
    arithmetic: &Arithmetic<T, M>,
    activation: Option<&A>,
    bias: Option<&[T]>,
    packed: Seq<T>,
    source: Seq<T>,
    right: Seq<T>,
    rows: int,
    inner: int,
    columns: int,
    right_stride: int,
    block: int,
    output: Seq<T>,
)
    requires
        0 <= inner,
        interleaves(packed, source, rows, inner, block),
    ensures
        is_gemm(
            arithmetic,
            activation,
            bias,
            None,
            packed,
            Some(block),
            right,
            rows,
            inner,
            columns,
            right_stride,
            output,
        ) <==> is_gemm(
            arithmetic,
            activation,
            bias,
            None,
            source,
            None,
            right,
            rows,
            inner,
            columns,
            right_stride,
            output,
        ),
{
    assert forall|row: int, column: int| 0 <= row < rows && 0 <= column < columns implies
        #[trigger] product_terms(packed, Some(block), right, rows, inner, right_stride, row, column)
        == product_terms(source, None, right, rows, inner, right_stride, row, column) by {
        assert(packed_terms(packed, right, rows, inner, block, right_stride, row, column)
            =~= dense_terms(source, right, inner, right_stride, row, column));
    }
    let first = is_gemm(
        arithmetic,
        activation,
        bias,
        None,
        packed,
        Some(block),
        right,
        rows,
        inner,
        columns,
        right_stride,
        output,
    );
    let second = is_gemm(
        arithmetic,
        activation,
        bias,
        None,
        source,
        None,
        right,
        rows,
        inner,
        columns,
        right_stride,
        output,
    );
    if first {
        assert forall|row: int, column: int|
            0 <= row < rows && 0 <= column < columns implies crate::accumulate::fused(
            arithmetic.mul_add,
            activation,
            start_at(arithmetic.zero, bias, None, row, column),
            product_terms(source, None, right, rows, inner, right_stride, row, column),
            #[trigger] output[cell_at(0, columns, row, column)],
        ) by {
            assert(product_terms(packed, Some(block), right, rows, inner, right_stride, row, column)
                == product_terms(source, None, right, rows, inner, right_stride, row, column));
        }
        assert(second);
    }
    if second {
        assert forall|row: int, column: int|
            0 <= row < rows && 0 <= column < columns implies crate::accumulate::fused(
            arithmetic.mul_add,
            activation,
            start_at(arithmetic.zero, bias, None, row, column),
            product_terms(packed, Some(block), right, rows, inner, right_stride, row, column),
            #[trigger] output[cell_at(0, columns, row, column)],
        ) by {
            assert(product_terms(packed, Some(block), right, rows, inner, right_stride, row, column)
                == product_terms(source, None, right, rows, inner, right_stride, row, column));
        }
        assert(first);
    }
}

/// A matrix whose rows are all interleaved and the row-major one give the same
/// product, for every number of rows: where the element `index` of each row stands
/// among those of the other rows, so that `packed` at `index * rows + row` is
/// `source` at `row * inner + index`.
pub proof fn lemma_packed_rows<T: Copy, M: Fn(T, T, T) -> T, A: Fn(T) -> T>(
    arithmetic: &Arithmetic<T, M>,
    activation: Option<&A>,
    bias: Option<&[T]>,
    packed: Seq<T>,
    source: Seq<T>,
    right: Seq<T>,
    rows: int,
    inner: int,
    columns: int,
    right_stride: int,
    output: Seq<T>,
)
    requires
        0 <= inner,
        packed.len() == source.len(),
        forall|row: int, index: int|
            0 <= row < rows && 0 <= index < inner ==> #[trigger] packed[cell_at(
                0,
                rows,
                index,
                row,
            )] == source[cell_at(0, inner, row, index)],
    ensures
        is_gemm(
            arithmetic,
            activation,
            bias,
            None,
            packed,
            Some(rows),
            right,
            rows,
            inner,
            columns,
            right_stride,
            output,
        ) <==> is_gemm(
            arithmetic,
            activation,
            bias,
            None,
            source,
            None,
            right,
            rows,
            inner,
            columns,
            right_stride,
            output,
        ),
{
    assert forall|row: int, index: int| 0 <= row < rows && 0 <= index < inner implies
        #[trigger] packed[packed_position(rows, inner, rows, row, index)] == source[cell_at(
        0,
        inner,
        row,
        index,
    )] by {
        assert(row / rows == 0 && row % rows == row) by (nonlinear_arith)
            requires
                0 <= row < rows,
        ;
        assert((row / rows) * rows == 0) by (nonlinear_arith)
            requires
                row / rows == 0,
        ;
        assert(packed_position(rows, inner, rows, row, index) == cell_at(0, rows, index, row));
    }
    lemma_packed_product(
        arithmetic,
        activation,
        bias,
        packed,
        source,
        right,
        rows,
        inner,
        columns,
        right_stride,
        rows,
        output,
    );
}

/// Interleaves the rows of a row-major matrix in groups of `block_rows`.
pub fn pack_rows<T: Copy>(source: &[T], rows: usize, block_rows: usize) -> (result: Result<
    Vec<T>,
    PackError,
>)
    ensures
        match result {
            Ok(packed) => rows > 0 && block_rows > 0 && source@.len() % (rows as nat) == 0
                && interleaves(
                packed@,
                source@,
                rows as int,
                (source@.len() / (rows as nat)) as int,
                block_rows as int,
            ),
            Err(PackError::ZeroRows) => rows == 0,
            Err(PackError::ZeroBlock) => rows > 0 && block_rows == 0,
            Err(PackError::Uneven) => rows > 0 && block_rows > 0 && source@.len() % (rows as nat)
                != 0,
        },
{
    if rows == 0 {
        return Err(PackError::ZeroRows);
    }
    if block_rows == 0 {
        return Err(PackError::ZeroBlock);
    }
    let len: usize = source.len();
    if len % rows != 0 {
        return Err(PackError::Uneven);
    }
    let inner: usize = len / rows;
    proof {
        vstd::arithmetic::div_mod::lemma_fundamental_div_mod(len as int, rows as int);
        assert(rows * inner == inner * rows) by (nonlinear_arith);
    }
    let mut packed: Vec<T> = Vec::with_capacity(len);
    let mut row_start: usize = 0;
    let ghost mut group: int = 0;
    while row_start < rows
        invariant
            0 < rows,
            0 < block_rows,
            len == source@.len(),
            len == rows * inner,
            row_start <= rows,
            0 <= group,
            row_start < rows ==> row_start == group * block_rows,
            packed@.len() == row_start * inner,
            forall|r: int, k: int|
                0 <= r < row_start && 0 <= k < inner ==> #[trigger] placed(
                    packed@,
                    source@,
                    rows as int,
                    inner as int,
                    block_rows as int,
                    r,
                    k,
                ),
        decreases rows - row_start,
    {
        let height: usize = if rows - row_start < block_rows {
            rows - row_start
        } else {
            block_rows
        };
        proof {
            lemma_decode(group, 0, block_rows as int);
            vstd::arithmetic::mul::lemma_mul_basics(height as int);
        }
        for index in 0..inner
            invariant
                0 < rows,
                0 < height <= block_rows,
                row_start + height <= rows,
                len == source@.len(),
                len == rows * inner,
                row_start == group * block_rows,
                height == group_height(rows as int, block_rows as int, row_start as int),
                packed@.len() == row_start * inner + index * height,
                forall|r: int, k: int|
                    0 <= r < row_start + height && 0 <= k < inner && (r < row_start || k < index)
                        ==> #[trigger] placed(
                    packed@,
                    source@,
                    rows as int,
                    inner as int,
                    block_rows as int,
                    r,
                    k,
                ),
        {
            for row in 0..height
                invariant
                    0 < rows,
                    index < inner,
                    0 < height <= block_rows,
                    row_start + height <= rows,
                    len == source@.len(),
                    len == rows * inner,
                    row_start == group * block_rows,
                    height == group_height(rows as int, block_rows as int, row_start as int),
                    packed@.len() == row_start * inner + index * height + row,
                    forall|r: int, k: int|
                        0 <= r < row_start + height && 0 <= k < inner && (r < row_start || k < index
                            || (k == index && r < row_start + row)) ==> #[trigger] placed(
                    packed@,
                    source@,
                    rows as int,
                    inner as int,
                    block_rows as int,
                    r,
                    k,
                ),
            {
                proof {
                    lemma_row_bound(
                        row_start + row,
                        rows as int,
                        index as int,
                        inner as int,
                    );
                    lemma_decode(group, row as int, block_rows as int);
                    lemma_decode(group, 0, block_rows as int);
                    assert(packed_position(
                        rows as int,
                        inner as int,
                        block_rows as int,
                        row_start + row,
                        index as int,
                    ) == packed@.len());
                }
                let ghost before = packed@;
                packed.push(source[(row_start + row) * inner + index]);
                proof {
                    assert forall|r: int, k: int|
                        0 <= r < row_start + height && 0 <= k < inner && (r < row_start || k < index
                            || (k == index && r < row_start + row + 1)) implies #[trigger] placed(
                    packed@,
                    source@,
                    rows as int,
                    inner as int,
                    block_rows as int,
                    r,
                    k,
                ) by {
                        let p = packed_position(
                            rows as int,
                            inner as int,
                            block_rows as int,
                            r,
                            k,
                        );
                        lemma_packed_position_in_range(
                            rows as int,
                            inner as int,
                            block_rows as int,
                            r,
                            k,
                        );
                        if !(k == index && r == row_start + row) {
                            assert(placed(
                                before,
                                source@,
                                rows as int,
                                inner as int,
                                block_rows as int,
                                r,
                                k,
                            ));
                        }
                    }
                }
            }
            assert((index + 1) * height == index * height + height) by (nonlinear_arith);
        }
        proof {
            assert((row_start + height) * inner == row_start * inner + inner * height)
                by (nonlinear_arith);
            group = group + 1;
            assert(group * block_rows == (group - 1) * block_rows + block_rows)
                by (nonlinear_arith);
        }
        row_start = row_start + height;
    }
    proof {
        assert forall|row: int, index: int| 0 <= row < rows && 0 <= index < inner implies
            #[trigger] packed@[packed_position(
            rows as int,
            inner as int,
            block_rows as int,
            row,
            index,
        )] == source@[cell_at(0, inner as int, row, index)] by {
            assert(placed(
                packed@,
                source@,
                rows as int,
                inner as int,
                block_rows as int,
                row,
                index,
            ));
        }
    }
    Ok(packed)
}

} // verus!
