//! Products with a left matrix that keeps only its nonzero groups of four rows.
use crate::accumulate::{
    accumulates, activate, activates, activation_valid, fused, lemma_accumulate_none,
    lemma_accumulate_step, running_sums, Arithmetic,
};
use crate::index::{cell_at, lemma_decode, lemma_row_bound, lemma_scale};
use crate::kernels::{bias_at, bias_has_len, dense_terms, is_product};
use vstd::prelude::*;

verus! {

/// The factor pairs of a cell: one pair per kept entry of the row's group of
/// four. An entry names the depth it stands for and has one weight per row.
pub open spec fn sparse_terms<T>(
    right: Seq<T>,
    right_start: int,
    right_stride: int,
    row_offsets: Seq<usize>,
    indices: Seq<u32>,
    values: Seq<T>,
    row: int,
    column: int,
) -> Seq<(T, T)> {
    let first: int = row_offsets[row / 4] as int;
    Seq::new(
        (row_offsets[row / 4 + 1] - first) as nat,
        |k: int|
            (
                values[cell_at(0, 4, first + k, row % 4)],
                right[cell_at(right_start, right_stride, indices[first + k] as int, column)],
            ),
    )
}

/// The entries of each group of four rows follow one another, every entry has
/// four weights, and names a depth of the right operand.
pub open spec fn sparse_valid<T>(
    rows: int,
    columns: int,
    right_len: int,
    right_start: int,
    right_stride: int,
    row_offsets: Seq<usize>,
    indices: Seq<u32>,
    values: Seq<T>,
) -> bool {
    &&& rows % 4 == 0
    &&& row_offsets.len() == rows / 4 + 1
    &&& values.len() == indices.len() * 4
    &&& forall|group: int|
        0 <= group < rows / 4 ==> #[trigger] row_offsets[group] <= row_offsets[group + 1]
            <= indices.len()
    &&& forall|group: int, entry: int|
        0 <= group < rows / 4 && row_offsets[group] <= entry < row_offsets[group + 1]
            ==> #[trigger] row_offsets[group] >= 0 && right_start + (#[trigger] indices[entry])
            * right_stride + columns <= right_len
}

/// Multiplies kept entries into a block of the output.
fn sparse_product<T: Copy, M: Fn(T, T, T) -> T, A: Fn(T) -> T>(
    arithmetic: &Arithmetic<T, M>,
    output: &mut [T],
    output_start: usize,
    right: &[T],
    right_start: usize,
    right_stride: usize,
    rows: usize,
    columns: usize,
    bias: Option<&[T]>,
    row_offsets: &[usize],
    indices: &[u32],
    values: &[T],
    activation: Option<&A>,
)
    requires
        arithmetic.valid(),
        activation_valid(activation),
        old(output)@.len() >= output_start + rows * columns,
        bias_has_len(bias, rows as int),
        sparse_valid(
            rows as int,
            columns as int,
            right@.len() as int,
            right_start as int,
            right_stride as int,
            row_offsets@,
            indices@,
            values@,
        ),
    ensures
        final(output)@.len() == old(output)@.len(),
        forall|row: int, column: int|
            0 <= row < rows && 0 <= column < columns ==> fused(
                arithmetic.mul_add,
                activation,
                bias_at(arithmetic.zero, bias, row),
                sparse_terms(
                    right@,
                    right_start as int,
                    right_stride as int,
                    row_offsets@,
                    indices@,
                    values@,
                    row,
                    column,
                ),
                #[trigger] final(output)@[cell_at(
                    output_start as int,
                    columns as int,
                    row,
                    column,
                )],
            ),
        forall|position: int|
            0 <= position < old(output)@.len() && !(output_start <= position < output_start + rows
                * columns) ==> #[trigger] final(output)@[position] == old(output)@[position],
{
    let output_len: usize = output.len();
    let right_len: usize = right.len();
    let values_len: usize = values.len();
    let ghost before = output@;
    for row in 0..rows
        invariant
            arithmetic.valid(),
            activation_valid(activation),
            output_len == output@.len(),
            before.len() == output_len,
            right_len == right@.len(),
            values_len == values@.len(),
            output_len >= output_start + rows * columns,
            bias_has_len(bias, rows as int),
            sparse_valid(
                rows as int,
                columns as int,
                right@.len() as int,
                right_start as int,
                right_stride as int,
                row_offsets@,
                indices@,
                values@,
            ),
            forall|r: int, c: int|
                0 <= r < row && 0 <= c < columns ==> fused(
                    arithmetic.mul_add,
                    activation,
                    bias_at(arithmetic.zero, bias, r),
                    sparse_terms(
                        right@,
                        right_start as int,
                        right_stride as int,
                        row_offsets@,
                        indices@,
                        values@,
                        r,
                        c,
                    ),
                    #[trigger] output@[cell_at(output_start as int, columns as int, r, c)],
                ),
            forall|position: int|
                0 <= position < output_len && !(output_start <= position < output_start + rows
                    * columns) ==> #[trigger] output@[position] == before[position],
    {
        let group: usize = row / 4;
        let lane: usize = row % 4;
        let first: usize = row_offsets[group];
        let last: usize = row_offsets[group + 1];
        for column in 0..columns
            invariant
                row < rows,
                group == row / 4,
                lane == row % 4,
                first == row_offsets@[group as int],
                last == row_offsets@[group + 1],
                first <= last <= indices@.len(),
                arithmetic.valid(),
                activation_valid(activation),
                output_len == output@.len(),
                before.len() == output_len,
                right_len == right@.len(),
                values_len == values@.len(),
                output_len >= output_start + rows * columns,
                bias_has_len(bias, rows as int),
                sparse_valid(
                    rows as int,
                    columns as int,
                    right@.len() as int,
                    right_start as int,
                    right_stride as int,
                    row_offsets@,
                    indices@,
                    values@,
                ),
                forall|r: int, c: int|
                    0 <= r <= row && 0 <= c < columns && (r < row || c < column) ==> fused(
                        arithmetic.mul_add,
                        activation,
                        bias_at(arithmetic.zero, bias, r),
                        sparse_terms(
                            right@,
                            right_start as int,
                            right_stride as int,
                            row_offsets@,
                            indices@,
                            values@,
                            r,
                            c,
                        ),
                        #[trigger] output@[cell_at(output_start as int, columns as int, r, c)],
                    ),
                forall|position: int|
                    0 <= position < output_len && !(output_start <= position < output_start + rows
                        * columns) ==> #[trigger] output@[position] == before[position],
        {
            proof {
                lemma_row_bound(row as int, rows as int, column as int, columns as int);
            }
            let position: usize = output_start + row * columns + column;
            let ghost terms = sparse_terms(
                right@,
                right_start as int,
                right_stride as int,
                row_offsets@,
                indices@,
                values@,
                row as int,
                column as int,
            );
            let start: T = match bias {
                Some(entries) => entries[row],
                None => arithmetic.zero,
            };
            let mut sum: T = start;
            proof {
                crate::accumulate::lemma_accumulate_none(arithmetic.mul_add, sum, terms.take(0));
            }
            for entry in first..last
                invariant
                    row < rows,
                    column < columns,
                    group == row / 4,
                    lane == row % 4,
                    first == row_offsets@[group as int],
                    last == row_offsets@[group + 1],
                    first <= last <= indices@.len(),
                    right_len == right@.len(),
                    values_len == values@.len(),
                    values@.len() == indices@.len() * 4,
                    arithmetic.valid(),
                    sparse_valid(
                        rows as int,
                        columns as int,
                        right@.len() as int,
                        right_start as int,
                        right_stride as int,
                        row_offsets@,
                        indices@,
                        values@,
                    ),
                    terms == sparse_terms(
                        right@,
                        right_start as int,
                        right_stride as int,
                        row_offsets@,
                        indices@,
                        values@,
                        row as int,
                        column as int,
                    ),
                    accumulates(arithmetic.mul_add, start, terms.take(entry - first), sum),
            {
                let ghost k = entry - first;
                let index: usize = indices[entry] as usize;
                proof {
                    assert(right_start + indices@[entry as int] * right_stride + columns
                        <= right_len) by {
                        assert(row_offsets@[group as int] >= 0);
                    }
                    lemma_scale(0, index as int, right_stride as int);
                }
                let ghost partial = sum;
                sum =
                (arithmetic.mul_add)(
                    values[entry * 4 + lane],
                    right[right_start + index * right_stride + column],
                    sum,
                );
                proof {
                    crate::accumulate::lemma_accumulate_step(
                        arithmetic.mul_add,
                        start,
                        terms.take(k),
                        partial,
                        terms[k],
                        sum,
                    );
                    assert(terms.take(k).push(terms[k]) =~= terms.take(k + 1));
                }
            }
            assert(terms.take(last - first) =~= terms);
            let value: T = activate(activation, sum);
            let ghost earlier = output@;
            output[position] = value;
            proof {
                assert forall|r: int, c: int|
                    0 <= r <= row && 0 <= c < columns && (r < row || c < column + 1) implies fused(
                    arithmetic.mul_add,
                    activation,
                    bias_at(arithmetic.zero, bias, r),
                    sparse_terms(
                        right@,
                        right_start as int,
                        right_stride as int,
                        row_offsets@,
                        indices@,
                        values@,
                        r,
                        c,
                    ),
                    #[trigger] output@[cell_at(output_start as int, columns as int, r, c)],
                ) by {
                    lemma_decode(r, c, columns as int);
                    lemma_decode(row as int, column as int, columns as int);
                    lemma_row_bound(r, rows as int, c, columns as int);
                    let p = cell_at(output_start as int, columns as int, r, c);
                    if r != row || c != column {
                        assert(output@[p] == earlier[p]);
                    }
                }
            }
        }
    }
}

/// Multiplies the kept entries of a left matrix with a row-major right matrix.
pub fn gemm_sparse_packed_left<T: Copy, M: Fn(T, T, T) -> T, A: Fn(T) -> T>(
    arithmetic: &Arithmetic<T, M>,
    output: &mut [T],
    right: &[T],
    rows: usize,
    inner: usize,
    columns: usize,
    bias: Option<&[T]>,
    row_offsets: &[usize],
    indices: &[u32],
    values: &[T],
    activation: Option<&A>,
)
    requires
        arithmetic.valid(),
        activation_valid(activation),
        old(output)@.len() == rows * columns,
        right@.len() == inner * columns,
        bias_has_len(bias, rows as int),
        sparse_valid(
            rows as int,
            columns as int,
            right@.len() as int,
            0,
            columns as int,
            row_offsets@,
            indices@,
            values@,
        ),
    ensures
        is_product(
            arithmetic.mul_add,
            activation,
            |row: int, column: int| bias_at(arithmetic.zero, bias, row),
            |row: int, column: int|
                sparse_terms(
                    right@,
                    0,
                    columns as int,
                    row_offsets@,
                    indices@,
                    values@,
                    row,
                    column,
                ),
            rows as int,
            columns as int,
            final(output)@,
        ),
{
    sparse_product(
        arithmetic,
        output,
        0,
        right,
        0,
        columns,
        rows,
        columns,
        bias,
        row_offsets,
        indices,
        values,
        activation,
    );
}

/// Multiplies the kept entries of four rows with a right matrix whose rows are
/// `right_stride` apart.
pub fn gemm_4x16_sparse<T: Copy, M: Fn(T, T, T) -> T, A: Fn(T) -> T>(
    arithmetic: &Arithmetic<T, M>,
    output: &mut [T],
    right: &[T],
    indices: &[u32],
    weights: &[T],
    columns: usize,
    right_stride: usize,
    bias: Option<&[T]>,
    activation: Option<&A>,
)
    requires
        arithmetic.valid(),
        activation_valid(activation),
        old(output)@.len() == 4 * columns,
        weights@.len() == indices@.len() * 4,
        bias_has_len(bias, 4),
        forall|entry: int|
            0 <= entry < indices@.len() ==> (#[trigger] indices@[entry]) * right_stride + columns
                <= right@.len(),
    ensures
        is_product(
            arithmetic.mul_add,
            activation,
            |row: int, column: int| bias_at(arithmetic.zero, bias, row),
            |row: int, column: int|
                Seq::new(
                    indices@.len(),
                    |k: int|
                        (
                            weights@[cell_at(0, 4, k, row)],
                            right@[cell_at(0, right_stride as int, indices@[k] as int, column)],
                        ),
                ),
            4,
            columns as int,
            final(output)@,
        ),
{
    let entries: usize = indices.len();
    let mut offsets: Vec<usize> = Vec::new();
    offsets.push(0);
    offsets.push(entries);
    sparse_product(
        arithmetic,
        output,
        0,
        right,
        0,
        right_stride,
        4,
        columns,
        bias,
        offsets.as_slice(),
        indices,
        weights,
        activation,
    );
    proof {
        assert forall|row: int, column: int| 0 <= row < 4 && 0 <= column < columns implies
            #[trigger] sparse_terms(
            right@,
            0,
            right_stride as int,
            offsets@,
            indices@,
            weights@,
            row,
            column,
        ) == Seq::new(
            indices@.len(),
            |k: int|
                (
                    weights@[cell_at(0, 4, k, row)],
                    right@[cell_at(0, right_stride as int, indices@[k] as int, column)],
                ),
        ) by {
            assert(sparse_terms(
                right@,
                0,
                right_stride as int,
                offsets@,
                indices@,
                weights@,
                row,
                column,
            ) =~= Seq::new(
                indices@.len(),
                |k: int|
                    (
                        weights@[cell_at(0, 4, k, row)],
                        right@[cell_at(0, right_stride as int, indices@[k] as int, column)],
                    ),
            ));
        }
    }
}

/// Multiplies the kept entries of a left matrix with panels of sixteen columns.
pub fn gemm_sparse_packed_panels<T: Copy, M: Fn(T, T, T) -> T, A: Fn(T) -> T>(
    arithmetic: &Arithmetic<T, M>,
    output: &mut [T],
    right: &[T],
    rows: usize,
    inner: usize,
    panels: usize,
    bias: Option<&[T]>,
    row_offsets: &[usize],
    indices: &[u32],
    values: &[T],
    activation: Option<&A>,
)
    requires
        arithmetic.valid(),
        activation_valid(activation),
        rows > 0 && inner > 0,
        old(output)@.len() == panels * (rows * 16),
        right@.len() == panels * (inner * 16),
        bias_has_len(bias, rows as int),
        sparse_valid(rows as int, 16, inner * 16, 0, 16, row_offsets@, indices@, values@),
    ensures
        final(output)@.len() == old(output)@.len(),
        forall|panel: int, row: int, column: int|
            0 <= panel < panels && 0 <= row < rows && 0 <= column < 16 ==> fused(
                arithmetic.mul_add,
                activation,
                bias_at(arithmetic.zero, bias, row),
                sparse_terms(
                    right@,
                    panel * (inner * 16),
                    16,
                    row_offsets@,
                    indices@,
                    values@,
                    row,
                    column,
                ),
                #[trigger] final(output)@[cell_at(panel * (rows * 16), 16, row, column)],
            ),
{
    let output_len: usize = output.len();
    let right_len: usize = right.len();
    let mut panel: usize = 0;
    while panel < panels
        invariant
            arithmetic.valid(),
            activation_valid(activation),
            rows > 0 && inner > 0,
            output_len == output@.len(),
            right_len == right@.len(),
            output@.len() == panels * (rows * 16),
            right@.len() == panels * (inner * 16),
            bias_has_len(bias, rows as int),
            sparse_valid(rows as int, 16, inner * 16, 0, 16, row_offsets@, indices@, values@),
            panel <= panels,
            forall|p: int, row: int, column: int|
                0 <= p < panel && 0 <= row < rows && 0 <= column < 16 ==> fused(
                    arithmetic.mul_add,
                    activation,
                    bias_at(arithmetic.zero, bias, row),
                    sparse_terms(
                        right@,
                        p * (inner * 16),
                        16,
                        row_offsets@,
                        indices@,
                        values@,
                        row,
                        column,
                    ),
                    #[trigger] output@[cell_at(p * (rows * 16), 16, row, column)],
                ),
        decreases panels - panel,
    {
        let ghost output_size = rows * 16;
        let ghost right_size = inner * 16;
        proof {
            lemma_row_bound(panel as int, panels as int, 0, output_size);
            lemma_row_bound(panel as int, panels as int, 0, right_size);
            lemma_scale(1, panels as int, output_size);
            lemma_scale(1, panels as int, right_size);
        }
        let ghost before = output@;
        let output_start: usize = panel * (rows * 16);
        let right_start: usize = panel * (inner * 16);
        sparse_product(
            arithmetic,
            output,
            output_start,
            right,
            right_start,
            16,
            rows,
            16,
            bias,
            row_offsets,
            indices,
            values,
            activation,
        );
        proof {
            assert forall|p: int, row: int, column: int|
                0 <= p < panel + 1 && 0 <= row < rows && 0 <= column < 16 implies fused(
                arithmetic.mul_add,
                activation,
                bias_at(arithmetic.zero, bias, row),
                sparse_terms(
                    right@,
                    p * (inner * 16),
                    16,
                    row_offsets@,
                    indices@,
                    values@,
                    row,
                    column,
                ),
                #[trigger] output@[cell_at(p * (rows * 16), 16, row, column)],
            ) by {
                let position = cell_at(p * (rows * 16), 16, row, column);
                lemma_row_bound(row, rows as int, column, 16);
                lemma_row_bound(p, panels as int, row * 16 + column, output_size);
                if p < panel {
                    lemma_row_bound(p, panel as int, row * 16 + column, output_size);
                    assert(output@[position] == before[position]);
                } else {
                    assert(cell_at(output_start as int, 16, row, column) == position);
                }
            }
        }
        panel = panel + 1;
    }
}

/// Whether kept entries hold the weights of a group of four rows: the depths of
/// its entries rise, their weights are those of the matrix, and at all other
/// depths the weights are zero.
pub open spec fn keeps_group<T>(
    zero: T,
    weights: Seq<T>,
    inner: int,
    row_offsets: Seq<usize>,
    indices: Seq<u32>,
    values: Seq<T>,
    group: int,
) -> bool {
    let first: int = row_offsets[group] as int;
    let end: int = row_offsets[group + 1] as int;
    &&& 0 <= first <= end <= indices.len()
    &&& forall|i: int, j: int| first <= i < j < end ==> indices[i] < indices[j]
    &&& forall|entry: int| first <= entry < end ==> (#[trigger] indices[entry]) < inner
    &&& forall|entry: int, lane: int|
        first <= entry < end && 0 <= lane < 4 ==> #[trigger] values[cell_at(0, 4, entry, lane)]
            == weights[cell_at(0, inner, group * 4 + lane, indices[entry] as int)]
    &&& forall|depth: int, lane: int|
        0 <= depth < inner && 0 <= lane < 4 && (forall|entry: int|
            first <= entry < end ==> #[trigger] indices[entry] != depth)
            ==> #[trigger] weights[cell_at(0, inner, group * 4 + lane, depth)] == zero
}

proof fn lemma_lossless_prefix<T, M: Fn(T, T, T) -> T>(
    mul_add: M,
    zero: T,
    initial: T,
    weights: Seq<T>,
    right: Seq<T>,
    inner: int,
    right_stride: int,
    row_offsets: Seq<usize>,
    indices: Seq<u32>,
    values: Seq<T>,
    row: int,
    column: int,
    sums: Seq<T>,
    depth: int,
) -> (count: int)
    requires
        0 <= row,
        0 <= depth <= inner,
        keeps_group(zero, weights, inner, row_offsets, indices, values, row / 4),
        forall|b: T, c: T| #[trigger] call_ensures(mul_add, (zero, b, c), c),
        running_sums(
            mul_add,
            initial,
            sparse_terms(
                right,
                0,
                right_stride,
                row_offsets,
                indices,
                values,
                row,
                column,
            ),
            sums,
        ),
    ensures
        0 <= count <= row_offsets[row / 4 + 1] - row_offsets[row / 4],
        forall|k: int|
            0 <= k < count ==> #[trigger] indices[row_offsets[row / 4] + k] < depth,
        forall|k: int|
            count <= k < row_offsets[row / 4 + 1] - row_offsets[row / 4] ==> #[trigger]
                indices[row_offsets[row / 4] + k] >= depth,
        accumulates(
            mul_add,
            initial,
            dense_terms(weights, right, inner, right_stride, row, column).take(depth),
            sums[count],
        ),
    decreases depth,
{
    let group: int = row / 4;
    let first: int = row_offsets[group] as int;
    let total: int = row_offsets[group + 1] - first;
    let dense = dense_terms(weights, right, inner, right_stride, row, column);
    let sparse = sparse_terms(
        right,
        0,
        right_stride,
        row_offsets,
        indices,
        values,
        row,
        column,
    );
    if depth == 0 {
        lemma_accumulate_none(mul_add, initial, dense.take(0));
        0
    } else {
        let before = lemma_lossless_prefix(
            mul_add,
            zero,
            initial,
            weights,
            right,
            inner,
            right_stride,
            row_offsets,
            indices,
            values,
            row,
            column,
            sums,
            depth - 1,
        );
        let here: int = depth - 1;
        let lane: int = row % 4;
        assert(group * 4 + lane == row);
        assert(dense.take(depth) =~= dense.take(here).push(dense[here]));
        if before < total && indices[first + before] == here {
            assert(values[cell_at(0, 4, first + before, lane)] == weights[cell_at(
                0,
                inner,
                group * 4 + lane,
                here,
            )]);
            assert(sparse[before] == dense[here]);
            lemma_accumulate_step(
                mul_add,
                initial,
                dense.take(here),
                sums[before],
                dense[here],
                sums[before + 1],
            );
            assert forall|k: int| before + 1 <= k < total implies #[trigger] indices[first + k]
                >= depth by {
                assert(indices[first + before] < indices[first + k]);
            }
            before + 1
        } else {
            assert forall|entry: int| first <= entry < first + total implies #[trigger] indices[entry]
                != here by {
                let k: int = entry - first;
                assert(indices[first + k] == indices[entry]);
                if k > before {
                    assert(indices[first + before] >= here);
                    assert(indices[first + before] < indices[first + k]);
                }
            }
            assert(weights[cell_at(0, inner, group * 4 + lane, here)] == zero);
            lemma_accumulate_step(
                mul_add,
                initial,
                dense.take(here),
                sums[before],
                dense[here],
                sums[before],
            );
            before
        }
    }
}

/// Leaving out blocks of zeros loses nothing: where a zero factor leaves a sum as
/// it is, a cell that is summed over the kept entries is one that is summed over
/// all weights.
pub proof fn lemma_sparse_lossless<T, M: Fn(T, T, T) -> T, A: Fn(T) -> T>(
    mul_add: M,
    activation: Option<&A>,
    zero: T,
    initial: T,
    weights: Seq<T>,
    right: Seq<T>,
    inner: int,
    right_stride: int,
    row_offsets: Seq<usize>,
    indices: Seq<u32>,
    values: Seq<T>,
    row: int,
    column: int,
    result: T,
)
    requires
        0 <= row,
        0 <= inner,
        keeps_group(zero, weights, inner, row_offsets, indices, values, row / 4),
        forall|b: T, c: T| #[trigger] call_ensures(mul_add, (zero, b, c), c),
        fused(
            mul_add,
            activation,
            initial,
            sparse_terms(
                right,
                0,
                right_stride,
                row_offsets,
                indices,
                values,
                row,
                column,
            ),
            result,
        ),
    ensures
        fused(
            mul_add,
            activation,
            initial,
            dense_terms(weights, right, inner, right_stride, row, column),
            result,
        ),
{
    let dense = dense_terms(weights, right, inner, right_stride, row, column);
    let sparse = sparse_terms(
        right,
        0,
        right_stride,
        row_offsets,
        indices,
        values,
        row,
        column,
    );
    let total = choose|sum: T| #[trigger]
        accumulates(mul_add, initial, sparse, sum) && activates(activation, sum, result);
    let sums = choose|sums: Seq<T>| #[trigger]
        running_sums(mul_add, initial, sparse, sums) && sums.last() == total;
    let count = lemma_lossless_prefix(
        mul_add,
        zero,
        initial,
        weights,
        right,
        inner,
        right_stride,
        row_offsets,
        indices,
        values,
        row,
        column,
        sums,
        inner,
    );
    assert(count == sparse.len()) by {
        if count < sparse.len() {
            assert(indices[row_offsets[row / 4] + count] >= inner);
            assert(indices[row_offsets[row / 4] + count] < inner);
        }
    }
    assert(dense.take(inner) =~= dense);
}

} // verus!
