//! Products of batches of matrices.
use vstd::prelude::*;
use crate::accumulate::{activation_valid, Arithmetic};
use crate::broadcast::{
    broadcast_of, broadcast_shape, broadcast_steps, broadcast_strides, broadcasts, fits, fits_in,
    lemma_broadcast_reach, lemma_broadcast_zero,
};
use crate::elementwise::{keeps_length, row_of, row_result, rows_in_place};
use crate::index::lemma_scale;
use crate::kernels::{bias_has_len, is_gemm, whole_product};
use crate::layout::{all_wf, axis_of, lemma_no_zero, lemma_wf_count, normalize_axis, views};
use crate::shape::{
    count_of, counts, element_count, gather_index, gathered, lemma_product_bounds,
    lemma_reach_row_major, lemma_strides_count, product, reach, strides, strides_count, strides_of,
};
use crate::tensor::{DataView, Tensor, TensorError, TensorView};

verus! {

/// The dimensions before the last two.
pub open spec fn batch_of(shape: Seq<usize>) -> Seq<usize> {
    shape.take(shape.len() - 2)
}

/// The last dimension but `back`, counted from zero.
pub open spec fn from_end(shape: Seq<usize>, back: int) -> usize {
    shape[shape.len() - 1 - back]
}

/// Why a product is refused; `None` where it is not. With `axis` a third input
/// holds a bias for the columns, and the rows are mapped afterwards.
pub open spec fn matmul_error<F>(inputs: Seq<TensorView<F>>, axis: Option<i64>) -> Option<
    TensorError,
> {
    if inputs.len() != if axis is Some {
        3int
    } else {
        2int
    } {
        Some(TensorError::InputCount)
    } else if inputs[0].data is I64 || inputs[1].data is I64 {
        Some(TensorError::ExpectedF32)
    } else if inputs[0].shape.len() < 2 || inputs[1].shape.len() < 2 {
        Some(TensorError::Rank)
    } else if from_end(inputs[0].shape, 0) != from_end(inputs[1].shape, 1) {
        Some(TensorError::ShapeMismatch)
    } else {
        let left = batch_of(inputs[0].shape);
        let right = batch_of(inputs[1].shape);
        if !broadcasts(left, right) {
            Some(TensorError::Broadcast)
        } else {
            let batch = broadcast_of(left, right);
            if axis is Some && bias_error(inputs, axis->Some_0, batch.len() as int) is Some {
                bias_error(inputs, axis->Some_0, batch.len() as int)
            } else if !counts(batch) {
                Some(TensorError::ShapeOverflow)
            } else if !fits_in(left, batch) || !fits_in(right, batch) {
                Some(TensorError::ShapeMismatch)
            } else if !counts(output_shape(inputs[0].shape, inputs[1].shape)) {
                Some(TensorError::ShapeOverflow)
            } else if product(batch) > 0 && (from_end(inputs[0].shape, 1) == 0 || from_end(
                inputs[0].shape,
                0,
            ) == 0 || from_end(inputs[1].shape, 0) == 0) {
                Some(TensorError::EmptyOutput)
            } else {
                None
            }
        }
    }
}

/// Why the bias of the columns is refused.
pub open spec fn bias_error<F>(inputs: Seq<TensorView<F>>, axis: i64, batch_rank: int) -> Option<
    TensorError,
> {
    match axis_of(axis, batch_rank + 2) {
        Err(error) => Some(error),
        Ok(position) => if position != batch_rank + 1 {
            Some(TensorError::SuffixAxes)
        } else if inputs[2].data is I64 {
            Some(TensorError::ExpectedF32)
        } else if inputs[2].data.len() != from_end(inputs[1].shape, 0) {
            Some(TensorError::Bias)
        } else {
            None
        },
    }
}

/// The shape of a product.
pub open spec fn output_shape(left: Seq<usize>, right: Seq<usize>) -> Seq<usize> {
    broadcast_of(batch_of(left), batch_of(right)).push(from_end(left, 1)).push(from_end(right, 0))
}

/// The number of the matrix of a tensor that takes part in a product.
pub open spec fn matrix_of(shape: Seq<usize>, batch: Seq<usize>, index: int) -> int {
    gathered(index, strides_of(batch), broadcast_steps(batch_of(shape), batch), 0)
}

/// `part` is the product with this number.
pub open spec fn is_batch_product<F, M: Fn(F, F, F) -> F, A: Fn(F) -> F>(
    arithmetic: &Arithmetic<F, M>,
    activation: Option<&A>,
    column_bias: Option<&[F]>,
    left: TensorView<F>,
    right: TensorView<F>,
    index: int,
    part: Seq<F>,
) -> bool {
    let batch = broadcast_of(batch_of(left.shape), batch_of(right.shape));
    let rows: int = from_end(left.shape, 1) as int;
    let inner: int = from_end(left.shape, 0) as int;
    let columns: int = from_end(right.shape, 0) as int;
    is_gemm(
        arithmetic,
        activation,
        None,
        column_bias,
        row_of(left.data->F32_0, rows * inner, matrix_of(left.shape, batch, index)),
        None,
        row_of(right.data->F32_0, inner * columns, matrix_of(right.shape, batch, index)),
        rows,
        inner,
        columns,
        columns,
        part,
    )
}

/// `values` holds the products of all batches.
pub open spec fn is_products<F, M: Fn(F, F, F) -> F, A: Fn(F) -> F>(
    arithmetic: &Arithmetic<F, M>,
    activation: Option<&A>,
    column_bias: Option<&[F]>,
    left: TensorView<F>,
    right: TensorView<F>,
    batches: int,
    values: Seq<F>,
) -> bool {
    let rows: int = from_end(left.shape, 1) as int;
    let columns: int = from_end(right.shape, 0) as int;
    &&& values.len() == batches * (rows * columns)
    &&& forall|index: int|
        0 <= index < batches ==> is_batch_product(
            arithmetic,
            activation,
            column_bias,
            left,
            right,
            index,
            #[trigger] row_of(values, rows * columns, index),
        )
}

/// `result` is the product of two tensors.
pub open spec fn is_matmul<F, M: Fn(F, F, F) -> F, A: Fn(F) -> F>(
    arithmetic: &Arithmetic<F, M>,
    activation: Option<&A>,
    left: TensorView<F>,
    right: TensorView<F>,
    result: TensorView<F>,
) -> bool {
    &&& result.wf()
    &&& result.shape == output_shape(left.shape, right.shape)
    &&& result.data is F32
    &&& is_products(
        arithmetic,
        activation,
        None,
        left,
        right,
        product(broadcast_of(batch_of(left.shape), batch_of(right.shape))),
        result.data->F32_0,
    )
}

/// `result` is the product of two tensors, with a bias for the columns and the
/// rows mapped.
pub open spec fn is_mapped_matmul<
    F,
    M: Fn(F, F, F) -> F,
    A: Fn(F) -> F,
    R: Fn(Vec<F>) -> Vec<F>,
>(
    arithmetic: &Arithmetic<F, M>,
    activation: Option<&A>,
    operation: R,
    left: TensorView<F>,
    right: TensorView<F>,
    bias: Seq<F>,
    result: TensorView<F>,
) -> bool {
    let columns: int = from_end(right.shape, 0) as int;
    &&& result.wf()
    &&& result.shape == output_shape(left.shape, right.shape)
    &&& result.data is F32
    &&& exists|products: Seq<F>, column_bias: &[F]|
        column_bias@ == bias && #[trigger] is_products(
            arithmetic,
            activation,
            Some(column_bias),
            left,
            right,
            product(broadcast_of(batch_of(left.shape), batch_of(right.shape))),
            products,
        ) && result.data.len() == products.len() && (columns > 0 ==> forall|row: int|
            0 <= row < products.len() as int / columns ==> row_result(
                operation,
                row_of(products, columns, row),
                #[trigger] row_of(result.data->F32_0, columns, row),
            ))
}

/// The matrices of a tensor fill its values.
proof fn lemma_matrices<F>(tensor: TensorView<F>)
    requires
        tensor.wf(),
        tensor.shape.len() >= 2,
    ensures
        tensor.data.len() == product(batch_of(tensor.shape)) * (from_end(tensor.shape, 1)
            * from_end(tensor.shape, 0)),
        product(batch_of(tensor.shape)) >= 0,
{
    lemma_wf_count(tensor);
    let shape = tensor.shape;
    let rank = shape.len();
    let three = shape.drop_last();
    assert(three.drop_last() =~= batch_of(shape));
    assert(three.last() == from_end(shape, 1));
    let head: int = product(batch_of(shape));
    lemma_product_bounds(batch_of(shape));
    assert(product(three) == head * from_end(shape, 1));
    assert(product(shape) == product(three) * from_end(shape, 0));
    assert(head * from_end(shape, 1) * from_end(shape, 0) == head * (from_end(shape, 1)
        * from_end(shape, 0))) by (nonlinear_arith);
}

#[verifier::spinoff_prover]
fn multiply_batches<F: Copy, M: Fn(F, F, F) -> F, A: Fn(F) -> F>(
    arithmetic: &Arithmetic<F, M>,
    activation: Option<&A>,
    column_bias: Option<&[F]>,
    left: &Tensor<F>,
    right: &Tensor<F>,
    batch: &Vec<usize>,
    batches: usize,
) -> (result: Vec<F>)
    requires
        arithmetic.valid(),
        activation_valid(activation),
        left@.wf() && right@.wf(),
        left@.data is F32 && right@.data is F32,
        left@.shape.len() >= 2 && right@.shape.len() >= 2,
        from_end(left@.shape, 0) == from_end(right@.shape, 1),
        broadcasts(batch_of(left@.shape), batch_of(right@.shape)),
        batch@ == broadcast_of(batch_of(left@.shape), batch_of(right@.shape)),
        fits_in(batch_of(left@.shape), batch@),
        fits_in(batch_of(right@.shape), batch@),
        batches == product(batch@),
        batches > 0,
        from_end(left@.shape, 1) > 0,
        from_end(left@.shape, 0) > 0,
        from_end(right@.shape, 0) > 0,
        bias_has_len(column_bias, from_end(right@.shape, 0) as int),
        batches * (from_end(left@.shape, 1) * from_end(right@.shape, 0)) <= usize::MAX,
    ensures
        is_products(
            arithmetic,
            activation,
            column_bias,
            left@,
            right@,
            batches as int,
            result@,
        ),
{
    let left_shape: &[usize] = left.shape();
    let right_shape: &[usize] = right.shape();
    let left_rank: usize = left_shape.len();
    let right_rank: usize = right_shape.len();
    let rows: usize = left_shape[left_rank - 2];
    let inner: usize = left_shape[left_rank - 1];
    let columns: usize = right_shape[right_rank - 1];
    let left_batch: &[usize] = vstd::slice::slice_subrange(left_shape, 0, left_rank - 2);
    let right_batch: &[usize] = vstd::slice::slice_subrange(right_shape, 0, right_rank - 2);
    let mut output: Vec<F> = Vec::new();
    let left_values: &[F] = match left.as_f32() {
        Ok(values) => values,
        Err(_) => {
            return output;
        },
    };
    let right_values: &[F] = match right.as_f32() {
        Ok(values) => values,
        Err(_) => {
            return output;
        },
    };
    let left_len: usize = left_values.len();
    let right_len: usize = right_values.len();
    let ghost left_count: int = product(left_batch@);
    let ghost right_count: int = product(right_batch@);
    proof {
        assert(left_batch@ =~= batch_of(left@.shape));
        assert(right_batch@ =~= batch_of(right@.shape));
        lemma_matrices(left@);
        lemma_matrices(right@);
        lemma_broadcast_zero(left_batch@, right_batch@);
        lemma_no_zero(batch@);
        assert(left_count <= left_len && rows * inner <= left_len) by (nonlinear_arith)
            requires
                left_len == left_count * (rows * inner),
                left_count >= 1,
                rows >= 1,
                inner >= 1,
        ;
        assert(right_count <= right_len && inner * columns <= right_len) by (nonlinear_arith)
            requires
                right_len == right_count * (inner * columns),
                right_count >= 1,
                inner >= 1,
                columns >= 1,
        ;
        assert(rows * columns <= batches * (rows * columns) && rows * columns >= 1)
            by (nonlinear_arith)
            requires
                batches >= 1,
                rows >= 1,
                columns >= 1,
        ;
        lemma_strides_count(left_batch@);
        lemma_strides_count(right_batch@);
        lemma_strides_count(batch@);
        lemma_broadcast_reach(left_batch@, batch@, 0);
        lemma_broadcast_reach(right_batch@, batch@, 0);
        lemma_reach_row_major(left_batch@, 0);
        lemma_reach_row_major(right_batch@, 0);
        assert(left_batch@.skip(0) =~= left_batch@);
        assert(right_batch@.skip(0) =~= right_batch@);
    }
    let left_steps: Vec<usize> = match broadcast_strides(left_batch, batch.as_slice()) {
        Ok(steps) => steps,
        Err(_) => {
            return output;
        },
    };
    let right_steps: Vec<usize> = match broadcast_strides(right_batch, batch.as_slice()) {
        Ok(steps) => steps,
        Err(_) => {
            return output;
        },
    };
    let batch_strides: Vec<usize> = strides(batch.as_slice());
    let left_size: usize = rows * inner;
    let right_size: usize = inner * columns;
    let size: usize = rows * columns;
    proof {
        vstd::arithmetic::mul::lemma_mul_basics(size as int);
    }
    for index in 0..batches
        invariant
            arithmetic.valid(),
            activation_valid(activation),
            bias_has_len(column_bias, columns as int),
            rows > 0 && inner > 0 && columns > 0,
            rows == from_end(left@.shape, 1),
            inner == from_end(left@.shape, 0),
            columns == from_end(right@.shape, 0),
            left_size == rows * inner,
            right_size == inner * columns,
            size == rows * columns,
            batches * size <= usize::MAX,
            left_len == left_values@.len(),
            right_len == right_values@.len(),
            left@.data == DataView::F32(left_values@),
            right@.data == DataView::F32(right_values@),
            left_len == left_count * left_size,
            right_len == right_count * right_size,
            batch@ == broadcast_of(batch_of(left@.shape), batch_of(right@.shape)),
            batches == product(batch@),
            strides_count(batch@),
            batch_strides@ == strides_of(batch@),
            forall|d: int| 0 <= d < batch@.len() ==> #[trigger] batch@[d] > 0,
            left_steps@ == broadcast_steps(batch_of(left@.shape), batch@),
            right_steps@ == broadcast_steps(batch_of(right@.shape), batch@),
            left_steps@.len() == batch@.len(),
            right_steps@.len() == batch@.len(),
            reach(batch@, left_steps@, 0) < left_count <= usize::MAX,
            reach(batch@, right_steps@, 0) < right_count <= usize::MAX,
            output@.len() == index * size,
            forall|i: int|
                0 <= i < index ==> is_batch_product(
                    arithmetic,
                    activation,
                    column_bias,
                    left@,
                    right@,
                    i,
                    #[trigger] row_of(output@, size as int, i),
                ),
    {
        let left_index: usize = gather_index(
            index,
            batch.as_slice(),
            batch_strides.as_slice(),
            left_steps.as_slice(),
        );
        let right_index: usize = gather_index(
            index,
            batch.as_slice(),
            batch_strides.as_slice(),
            right_steps.as_slice(),
        );
        proof {
            assert(left_index * left_size + left_size == (left_index + 1) * left_size)
                by (nonlinear_arith);
            assert((left_index + 1) * left_size <= left_count * left_size) by (nonlinear_arith)
                requires
                    left_index + 1 <= left_count,
                    left_size >= 0,
            ;
            assert(right_index * right_size + right_size == (right_index + 1) * right_size)
                by (nonlinear_arith);
            assert((right_index + 1) * right_size <= right_count * right_size) by (nonlinear_arith)
                requires
                    right_index + 1 <= right_count,
                    right_size >= 0,
            ;
            lemma_scale(0, left_index as int, left_size as int);
            lemma_scale(0, right_index as int, right_size as int);
            assert((index + 1) * size == index * size + size) by (nonlinear_arith);
            assert((inner - 1) * columns + columns == inner * columns) by (nonlinear_arith);
        }
        let left_start: usize = left_index * left_size;
        let right_start: usize = right_index * right_size;
        let left_part: &[F] = vstd::slice::slice_subrange(
            left_values,
            left_start,
            left_start + left_size,
        );
        let right_part: &[F] = vstd::slice::slice_subrange(
            right_values,
            right_start,
            right_start + right_size,
        );
        let mut part: Vec<F> = crate::arena::zeroed(Vec::new(), size, arithmetic.zero);
        whole_product(
            arithmetic,
            part.as_mut_slice(),
            left_part,
            right_part,
            rows,
            inner,
            columns,
            columns,
            None,
            column_bias,
            false,
            8,
            inner,
            activation,
        );
        let ghost before = output@;
        let ghost made = part@;
        proof {
            assert(left_part@ =~= row_of(left_values@, left_size as int, left_index as int));
            assert(right_part@ =~= row_of(right_values@, right_size as int, right_index as int));
            assert(is_batch_product(
                arithmetic,
                activation,
                column_bias,
                left@,
                right@,
                index as int,
                made,
            ));
        }
        output.append(&mut part);
        proof {
            assert(made.len() == size);
            assert(output@ =~= before + made);
            assert forall|i: int| 0 <= i < index + 1 implies is_batch_product(
                arithmetic,
                activation,
                column_bias,
                left@,
                right@,
                i,
                #[trigger] row_of(output@, size as int, i),
            ) by {
                if i < index {
                    assert((i + 1) * size <= index * size) by (nonlinear_arith)
                        requires
                            i + 1 <= index,
                            size >= 0,
                    ;
                    lemma_scale(0, i, size as int);
                    assert((i + 1) * size == i * size + size) by (nonlinear_arith);
                    assert(row_of(output@, size as int, i) =~= row_of(before, size as int, i));
                } else {
                    assert(row_of(output@, size as int, i) =~= made);
                }
            }
        }
    }
    output
}

/// What the shapes of a product say: the batch, its count and the output shape.
fn plan_batches<F: Copy>(left: &Tensor<F>, right: &Tensor<F>) -> (result: Result<
    Vec<usize>,
    TensorError,
>)
    requires
        left@.wf() && right@.wf(),
    ensures
        match result {
            Ok(batch) => {
                &&& left@.data is F32 && right@.data is F32
                &&& left@.shape.len() >= 2 && right@.shape.len() >= 2
                &&& from_end(left@.shape, 0) == from_end(right@.shape, 1)
                &&& broadcasts(batch_of(left@.shape), batch_of(right@.shape))
                &&& batch@ == broadcast_of(batch_of(left@.shape), batch_of(right@.shape))
            },
            Err(error) => if left@.data is I64 || right@.data is I64 {
                error == TensorError::ExpectedF32
            } else if left@.shape.len() < 2 || right@.shape.len() < 2 {
                error == TensorError::Rank
            } else if from_end(left@.shape, 0) != from_end(right@.shape, 1) {
                error == TensorError::ShapeMismatch
            } else {
                !broadcasts(batch_of(left@.shape), batch_of(right@.shape)) && error
                    == TensorError::Broadcast
            },
        },
{
    match left.as_f32() {
        Err(error) => {
            return Err(error);
        },
        Ok(_) => {},
    }
    match right.as_f32() {
        Err(error) => {
            return Err(error);
        },
        Ok(_) => {},
    }
    let left_shape: &[usize] = left.shape();
    let right_shape: &[usize] = right.shape();
    let left_rank: usize = left_shape.len();
    let right_rank: usize = right_shape.len();
    if left_rank < 2 || right_rank < 2 {
        return Err(TensorError::Rank);
    }
    if left_shape[left_rank - 1] != right_shape[right_rank - 2] {
        return Err(TensorError::ShapeMismatch);
    }
    let left_batch: &[usize] = vstd::slice::slice_subrange(left_shape, 0, left_rank - 2);
    let right_batch: &[usize] = vstd::slice::slice_subrange(right_shape, 0, right_rank - 2);
    assert(left_batch@ =~= batch_of(left@.shape));
    assert(right_batch@ =~= batch_of(right@.shape));
    broadcast_shape(left_batch, right_batch)
}

/// Multiplies the batches once their shapes are known to go together.
fn multiply<F: Copy, M: Fn(F, F, F) -> F, A: Fn(F) -> F>(
    arithmetic: &Arithmetic<F, M>,
    activation: Option<&A>,
    column_bias: Option<&[F]>,
    left: &Tensor<F>,
    right: &Tensor<F>,
    batch: &Vec<usize>,
) -> (result: Result<(Vec<usize>, Vec<F>), TensorError>)
    requires
        arithmetic.valid(),
        activation_valid(activation),
        left@.wf() && right@.wf(),
        left@.data is F32 && right@.data is F32,
        left@.shape.len() >= 2 && right@.shape.len() >= 2,
        from_end(left@.shape, 0) == from_end(right@.shape, 1),
        broadcasts(batch_of(left@.shape), batch_of(right@.shape)),
        batch@ == broadcast_of(batch_of(left@.shape), batch_of(right@.shape)),
        bias_has_len(column_bias, from_end(right@.shape, 0) as int),
    ensures
        match result {
            Ok((shape, values)) => {
                &&& counts(batch@)
                &&& fits_in(batch_of(left@.shape), batch@)
                &&& fits_in(batch_of(right@.shape), batch@)
                &&& shape@ == output_shape(left@.shape, right@.shape)
                &&& count_of(shape@) == Some(values@.len() as usize)
                &&& product(batch@) > 0 ==> from_end(left@.shape, 1) > 0 && from_end(left@.shape, 0)
                    > 0 && from_end(right@.shape, 0) > 0
                &&& is_products(
                    arithmetic,
                    activation,
                    column_bias,
                    left@,
                    right@,
                    product(batch@),
                    values@,
                )
            },
            Err(error) => if !counts(batch@) {
                error == TensorError::ShapeOverflow
            } else if !fits_in(batch_of(left@.shape), batch@) || !fits_in(
                batch_of(right@.shape),
                batch@,
            ) {
                error == TensorError::ShapeMismatch
            } else if !counts(output_shape(left@.shape, right@.shape)) {
                error == TensorError::ShapeOverflow
            } else {
                &&& error == TensorError::EmptyOutput
                &&& product(batch@) > 0
                &&& from_end(left@.shape, 1) == 0 || from_end(left@.shape, 0) == 0 || from_end(
                    right@.shape,
                    0,
                ) == 0
            },
        },
{
    let left_shape: &[usize] = left.shape();
    let right_shape: &[usize] = right.shape();
    let left_rank: usize = left_shape.len();
    let right_rank: usize = right_shape.len();
    let rows: usize = left_shape[left_rank - 2];
    let inner: usize = left_shape[left_rank - 1];
    let columns: usize = right_shape[right_rank - 1];
    let batches: usize = match element_count(batch.as_slice()) {
        None => {
            return Err(TensorError::ShapeOverflow);
        },
        Some(batches) => batches,
    };
    proof {
        lemma_product_bounds(batch@);
        assert(batch@.take(batch@.len() as int) =~= batch@);
    }
    let left_batch: &[usize] = vstd::slice::slice_subrange(left_shape, 0, left_rank - 2);
    let right_batch: &[usize] = vstd::slice::slice_subrange(right_shape, 0, right_rank - 2);
    assert(left_batch@ =~= batch_of(left@.shape));
    assert(right_batch@ =~= batch_of(right@.shape));
    if !fits(left_batch, batch.as_slice()) || !fits(right_batch, batch.as_slice()) {
        return Err(TensorError::ShapeMismatch);
    }
    let mut shape: Vec<usize> = vstd::slice::slice_to_vec(batch.as_slice());
    shape.push(rows);
    shape.push(columns);
    assert(shape@ =~= output_shape(left@.shape, right@.shape));
    let total: usize = match element_count(shape.as_slice()) {
        None => {
            return Err(TensorError::ShapeOverflow);
        },
        Some(total) => total,
    };
    proof {
        let three = shape@.drop_last();
        assert(three.drop_last() =~= batch@);
        assert(three.last() == rows);
        assert(product(three) == batches * rows);
        assert(product(shape@) == product(three) * columns);
        assert(batches * rows * columns == batches * (rows * columns)) by (nonlinear_arith);
        assert(shape@.take(shape@.len() as int) =~= shape@);
        lemma_product_bounds(shape@);
    }
    if batches == 0 {
        proof {
            assert(batches * (rows * columns) == 0) by (nonlinear_arith)
                requires
                    batches == 0,
            ;
        }
        return Ok((shape, Vec::new()));
    }
    if rows == 0 || inner == 0 || columns == 0 {
        return Err(TensorError::EmptyOutput);
    }
    let values: Vec<F> = multiply_batches(
        arithmetic,
        activation,
        column_bias,
        left,
        right,
        batch,
        batches,
    );
    Ok((shape, values))
}

/// Multiplies the matrices of two tensors; the other dimensions are broadcast.
pub fn matmul<F: Copy, M: Fn(F, F, F) -> F, A: Fn(F) -> F>(
    arithmetic: &Arithmetic<F, M>,
    inputs: &[Tensor<F>],
    activation: Option<&A>,
) -> (result: Result<Tensor<F>, TensorError>)
    requires
        arithmetic.valid(),
        activation_valid(activation),
        all_wf(inputs@),
    ensures
        match result {
            Ok(tensor) => matmul_error(views(inputs@), None) is None && is_matmul(
                arithmetic,
                activation,
                inputs@[0]@,
                inputs@[1]@,
                tensor@,
            ),
            Err(error) => matmul_error(views(inputs@), None) == Some(error),
        },
{
    if inputs.len() != 2 {
        return Err(TensorError::InputCount);
    }
    let left: &Tensor<F> = &inputs[0];
    let right: &Tensor<F> = &inputs[1];
    assert(views(inputs@)[0] == left@);
    assert(views(inputs@)[1] == right@);
    assert(left@.wf() && right@.wf());
    let batch: Vec<usize> = match plan_batches(left, right) {
        Err(error) => {
            return Err(error);
        },
        Ok(batch) => batch,
    };
    match multiply(arithmetic, activation, None, left, right, &batch) {
        Err(error) => Err(error),
        Ok((shape, values)) => Ok(Tensor::new_f32(shape, values)),
    }
}

/// Multiplies the matrices of two tensors, starting each column from its bias,
/// and applies an operation, such as softmax, to each row.
pub fn matmul_bias_softmax<
    F: Copy,
    M: Fn(F, F, F) -> F,
    A: Fn(F) -> F,
    R: Fn(Vec<F>) -> Vec<F>,
>(
    arithmetic: &Arithmetic<F, M>,
    inputs: &[Tensor<F>],
    axis: i64,
    activation: Option<&A>,
    operation: &R,
) -> (result: Result<Tensor<F>, TensorError>)
    requires
        arithmetic.valid(),
        activation_valid(activation),
        keeps_length(*operation),
        all_wf(inputs@),
    ensures
        match result {
            Ok(tensor) => matmul_error(views(inputs@), Some(axis)) is None && is_mapped_matmul(
                arithmetic,
                activation,
                *operation,
                inputs@[0]@,
                inputs@[1]@,
                inputs@[2]@.data->F32_0,
                tensor@,
            ),
            Err(error) => matmul_error(views(inputs@), Some(axis)) == Some(error),
        },
{
    if inputs.len() != 3 {
        return Err(TensorError::InputCount);
    }
    let left: &Tensor<F> = &inputs[0];
    let right: &Tensor<F> = &inputs[1];
    assert(views(inputs@)[0] == left@);
    assert(views(inputs@)[1] == right@);
    assert(views(inputs@)[2] == inputs@[2]@);
    assert(left@.wf() && right@.wf() && inputs@[2]@.wf());
    let batch: Vec<usize> = match plan_batches(left, right) {
        Err(error) => {
            return Err(error);
        },
        Ok(batch) => batch,
    };
    let rank: usize = batch.len();
    let left_rank: usize = left.shape().len();
    let right_rank: usize = right.shape().len();
    proof {
        assert(batch@.len() == crate::broadcast::broadcast_rank(
            batch_of(left@.shape),
            batch_of(right@.shape),
        ));
    }
    match normalize_axis(axis, rank + 2) {
        Err(error) => {
            return Err(error);
        },
        Ok(position) => {
            if position != rank + 1 {
                return Err(TensorError::SuffixAxes);
            }
        },
    }
    let bias: &[F] = match inputs[2].as_f32() {
        Err(error) => {
            return Err(error);
        },
        Ok(values) => values,
    };
    let columns: usize = right.shape()[right_rank - 1];
    if bias.len() != columns {
        return Err(TensorError::Bias);
    }
    match multiply(arithmetic, activation, Some(bias), left, right, &batch) {
        Err(error) => Err(error),
        Ok((shape, values)) => {
            let ghost products = values@;
            let mut output: Vec<F> = values;
            if columns > 0 {
                proof {
                    let rows: int = from_end(left@.shape, 1) as int;
                    let count: int = product(batch@);
                    assert(count * (rows * columns) == (count * rows) * columns)
                        by (nonlinear_arith);
                    vstd::arithmetic::div_mod::lemma_mod_multiples_basic(
                        count * rows,
                        columns as int,
                    );
                }
                rows_in_place(output.as_mut_slice(), columns, operation);
            }
            let tensor: Tensor<F> = Tensor::new_f32(shape, output);
            assert(bias@ == inputs@[2]@.data->F32_0 && is_products(
                arithmetic,
                activation,
                Some(bias),
                left@,
                right@,
                product(batch@),
                products,
            ));
            Ok(tensor)
        },
    }
}

} // verus!
