//! Operations that rearrange the values of tensors or change their shapes.
use crate::index::{lemma_decode, lemma_encode, lemma_scale};
use crate::permutation::{
    is_permutation, lemma_product_reordered, lemma_reach_reordered, reordered,
};
use crate::shape::{
    count_of, counts, element_count, gather_index, gathered, lemma_product_bounds,
    lemma_product_split, lemma_reach_row_major, lemma_strides_count, product, reach, strides,
    strides_count, strides_of,
};
use crate::tensor::{DataView, Tensor, TensorData, TensorError, TensorView};
use vstd::prelude::*;

verus! {

/// What a list of tensors holds.
pub open spec fn views<F>(inputs: Seq<Tensor<F>>) -> Seq<TensorView<F>> {
    inputs.map_values(|tensor: Tensor<F>| tensor@)
}

/// All tensors of a list are well formed.
pub open spec fn all_wf<F>(inputs: Seq<Tensor<F>>) -> bool {
    forall|i: int| 0 <= i < inputs.len() ==> (#[trigger] inputs[i])@.wf()
}

/// A result is what is expected: the same tensor, or the same refusal.
pub open spec fn agrees<F>(
    result: Result<Tensor<F>, TensorError>,
    expected: Result<TensorView<F>, TensorError>,
) -> bool {
    match (result, expected) {
        (Ok(tensor), Ok(view)) => tensor@ == view && view.wf(),
        (Err(error), Err(refusal)) => error == refusal,
        _ => false,
    }
}

/// The element count of a well-formed tensor's shape.
pub proof fn lemma_wf_count<F>(tensor: TensorView<F>)
    requires
        tensor.wf(),
    ensures
        product(tensor.shape) == tensor.data.len(),
        counts(tensor.shape),
{
    assert(tensor.shape.take(tensor.shape.len() as int) =~= tensor.shape);
    lemma_product_bounds(tensor.shape);
}

/// The dimension that an axis names. A negative axis counts from the end.
pub open spec fn axis_of(axis: i64, rank: int) -> Result<usize, TensorError> {
    let position: int = if axis < 0 {
        rank + axis
    } else {
        axis as int
    };
    if rank > i64::MAX {
        Err(TensorError::DimensionRange)
    } else if 0 <= position < rank {
        Ok(position as usize)
    } else {
        Err(TensorError::Axis)
    }
}

/// The dimensions that axes name; the first axis that names none is refused.
pub open spec fn axes_of(axes: Seq<i64>, rank: int) -> Result<Seq<usize>, TensorError>
    decreases axes.len(),
{
    if axes.len() == 0 {
        Ok(Seq::empty())
    } else {
        match axes_of(axes.drop_last(), rank) {
            Err(error) => Err(error),
            Ok(before) => match axis_of(axes.last(), rank) {
                Err(error) => Err(error),
                Ok(axis) => Ok(before.push(axis)),
            },
        }
    }
}

/// The dimension that an axis names.
pub fn normalize_axis(axis: i64, rank: usize) -> (result: Result<usize, TensorError>)
    ensures
        result == axis_of(axis, rank as int),
{
    if rank as u64 > i64::MAX as u64 {
        return Err(TensorError::DimensionRange);
    }
    let size: i64 = rank as i64;
    let position: i64 = if axis < 0 {
        size + axis
    } else {
        axis
    };
    if 0 <= position && position < size {
        Ok(position as usize)
    } else {
        Err(TensorError::Axis)
    }
}

/// The dimensions that axes name.
pub fn normalize_axes(axes: &[i64], rank: usize) -> (result: Result<Vec<usize>, TensorError>)
    ensures
        match result {
            Ok(dimensions) => axes_of(axes@, rank as int) == Ok::<Seq<usize>, TensorError>(
                dimensions@,
            ) && dimensions@.len() == axes@.len() && forall|i: int|
                0 <= i < dimensions@.len() ==> #[trigger] dimensions@[i] < rank,
            Err(error) => axes_of(axes@, rank as int) == Err::<Seq<usize>, TensorError>(error),
        },
{
    let mut dimensions: Vec<usize> = Vec::with_capacity(axes.len());
    assert(axes@.take(0) =~= Seq::<i64>::empty());
    for index in 0..axes.len()
        invariant
            dimensions@.len() == index,
            axes_of(axes@.take(index as int), rank as int) == Ok::<Seq<usize>, TensorError>(
                dimensions@,
            ),
            forall|i: int| 0 <= i < index ==> #[trigger] dimensions@[i] < rank,
    {
        proof {
            assert(axes@.take(index + 1).drop_last() =~= axes@.take(index as int));
            assert(axes@.take(index + 1).last() == axes@[index as int]);
        }
        match normalize_axis(axes[index], rank) {
            Ok(axis) => {
                dimensions.push(axis);
            },
            Err(error) => {
                proof {
                    lemma_axes_error(axes@, rank as int, index + 1, error);
                }
                return Err(error);
            },
        }
    }
    assert(axes@.take(axes@.len() as int) =~= axes@);
    Ok(dimensions)
}

/// An axis that is refused refuses the whole list.
proof fn lemma_axes_error(axes: Seq<i64>, rank: int, count: int, error: TensorError)
    requires
        0 <= count <= axes.len(),
        axes_of(axes.take(count), rank) == Err::<Seq<usize>, TensorError>(error),
    ensures
        axes_of(axes, rank) == Err::<Seq<usize>, TensorError>(error),
    decreases axes.len() - count,
{
    if count == axes.len() {
        assert(axes.take(count) =~= axes);
    } else {
        assert(axes.take(count + 1).drop_last() =~= axes.take(count));
        lemma_axes_error(axes, rank, count + 1, error);
    }
}

/// The output size of a sliding window along one dimension.
pub open spec fn window_count(
    input: int,
    kernel: int,
    stride: int,
    pad_start: int,
    pad_end: int,
    ceil: bool,
) -> Result<usize, TensorError> {
    let padded: int = input + pad_start + pad_end;
    if stride <= 0 || kernel <= 0 {
        Err(TensorError::Geometry)
    } else if padded > usize::MAX {
        Err(TensorError::ShapeOverflow)
    } else if padded < kernel {
        Err(TensorError::KernelTooLarge)
    } else if ceil {
        Ok(((padded - kernel + stride - 1) / stride + 1) as usize)
    } else {
        Ok(((padded - kernel) / stride + 1) as usize)
    }
}

/// The output size of a sliding window along one dimension.
pub fn conv_output_size(
    input: usize,
    kernel: usize,
    stride: usize,
    pad_start: usize,
    pad_end: usize,
    ceil: bool,
) -> (result: Result<usize, TensorError>)
    ensures
        result == window_count(
            input as int,
            kernel as int,
            stride as int,
            pad_start as int,
            pad_end as int,
            ceil,
        ),
        result matches Ok(size) ==> 0 < size <= input + pad_start + pad_end - kernel + 1,
{
    if stride == 0 || kernel == 0 {
        return Err(TensorError::Geometry);
    }
    let padded: usize = match input.checked_add(pad_start) {
        None => {
            return Err(TensorError::ShapeOverflow);
        },
        Some(value) => match value.checked_add(pad_end) {
            None => {
                return Err(TensorError::ShapeOverflow);
            },
            Some(value) => value,
        },
    };
    if padded < kernel {
        return Err(TensorError::KernelTooLarge);
    }
    let numerator: usize = padded - kernel;
    let quotient: usize = numerator / stride;
    let remainder: usize = numerator % stride;
    proof {
        let n = numerator as int;
        let s = stride as int;
        lemma_encode(n, s);
        let q = quotient as int;
        let r = remainder as int;
        lemma_scale(1, s, q);
        assert(q * s == s * q) by (nonlinear_arith);
        if r == 0 {
            lemma_decode(q, s - 1, s);
        } else {
            assert((q + 1) * s + (r - 1) == n + s - 1) by (nonlinear_arith)
                requires
                    n == q * s + r,
            ;
            lemma_decode(q + 1, r - 1, s);
        }
    }
    if ceil && remainder > 0 {
        Ok(quotient + 1 + 1)
    } else {
        Ok(quotient + 1)
    }
}

/// The four dimensions of a shape.
pub fn shape4(shape: &[usize]) -> (result: Result<[usize; 4], TensorError>)
    ensures
        match result {
            Ok(sizes) => shape@ == sizes@,
            Err(error) => error == TensorError::Rank && shape@.len() != 4,
        },
{
    if shape.len() == 4 {
        let sizes: [usize; 4] = [shape[0], shape[1], shape[2], shape[3]];
        assert(shape@ =~= sizes@);
        Ok(sizes)
    } else {
        Err(TensorError::Rank)
    }
}

/// The dimensions of a tensor, as integers.
pub open spec fn shape_result<F>(inputs: Seq<TensorView<F>>) -> Result<TensorView<F>, TensorError> {
    if inputs.len() != 1 {
        Err(TensorError::InputCount)
    } else if exists|d: int|
        0 <= d < inputs[0].shape.len() && #[trigger] inputs[0].shape[d] > i64::MAX {
        Err(TensorError::DimensionRange)
    } else {
        Ok(
            TensorView {
                shape: seq![inputs[0].shape.len() as usize],
                data: DataView::I64(
                    Seq::new(inputs[0].shape.len(), |d: int| inputs[0].shape[d] as i64),
                ),
            },
        )
    }
}

/// A one-dimensional shape has as many elements as its dimension.
proof fn lemma_single_count(size: usize)
    ensures
        count_of(seq![size]) == Some(size),
{
    let shape = seq![size];
    assert(shape.drop_last() =~= Seq::<usize>::empty());
    assert(product(shape.drop_last()) == 1);
    assert(1 * shape.last() == shape.last()) by (nonlinear_arith);
    assert(product(shape) == size);
    assert forall|k: int| 0 <= k <= 1 implies #[trigger] product(shape.take(k)) <= usize::MAX by {
        if k == 0 {
            assert(shape.take(k) =~= Seq::<usize>::empty());
        } else {
            assert(shape.take(k) =~= shape);
        }
    }
}

/// The dimensions of a tensor, as a tensor of integers.
pub fn shape<F: Copy>(inputs: &[Tensor<F>]) -> (result: Result<Tensor<F>, TensorError>)
    ensures
        agrees(result, shape_result(views(inputs@))),
{
    if inputs.len() != 1 {
        return Err(TensorError::InputCount);
    }
    let source: &[usize] = inputs[0].shape();
    assert(views(inputs@)[0] == inputs@[0]@);
    let mut values: Vec<i64> = Vec::with_capacity(source.len());
    for index in 0..source.len()
        invariant
            inputs@.len() == 1,
            source@ == inputs@[0]@.shape,
            views(inputs@)[0] == inputs@[0]@,
            values@.len() == index,
            forall|d: int| 0 <= d < index ==> source@[d] <= i64::MAX,
            forall|d: int| 0 <= d < index ==> #[trigger] values@[d] == source@[d] as i64,
    {
        if source[index] as u64 > i64::MAX as u64 {
            assert(views(inputs@)[0].shape[index as int] > i64::MAX);
            return Err(TensorError::DimensionRange);
        }
        values.push(source[index] as i64);
    }
    proof {
        lemma_single_count(values.len());
        assert(values@ =~= Seq::new(source@.len(), |d: int| source@[d] as i64));
    }
    let mut shape: Vec<usize> = Vec::new();
    shape.push(values.len());
    assert(shape@ =~= seq![source@.len() as usize]);
    Ok(Tensor::new_i64(shape, values))
}

/// The values of a list, each taken from another list at a gathered place.
fn gather<T: Copy>(
    values: &[T],
    shape: &[usize],
    shape_strides: &[usize],
    steps: &[usize],
    base: usize,
    count: usize,
) -> (result: Vec<T>)
    requires
        strides_count(shape@),
        shape_strides@ == strides_of(shape@),
        steps@.len() == shape@.len(),
        count > 0 ==> forall|d: int| 0 <= d < shape@.len() ==> #[trigger] shape@[d] > 0,
        count == product(shape@),
        count > 0 ==> base + reach(shape@, steps@, 0) < values@.len(),
    ensures
        result@ == Seq::new(
            count as nat,
            |flat: int| values@[base + gathered(flat, shape_strides@, steps@, 0)],
        ),
{
    let len: usize = values.len();
    let mut result: Vec<T> = Vec::with_capacity(count);
    for flat in 0..count
        invariant
            len == values@.len(),
            strides_count(shape@),
            shape_strides@ == strides_of(shape@),
            steps@.len() == shape@.len(),
            count > 0 ==> forall|d: int| 0 <= d < shape@.len() ==> #[trigger] shape@[d] > 0,
            count == product(shape@),
            count > 0 ==> base + reach(shape@, steps@, 0) < values@.len(),
            result@ == Seq::new(
                flat as nat,
                |i: int| values@[base + gathered(i, shape_strides@, steps@, 0)],
            ),
    {
        let index: usize = gather_index(flat, shape, shape_strides, steps);
        result.push(values[base + index]);
        assert(result@ =~= Seq::new(
            (flat + 1) as nat,
            |i: int| values@[base + gathered(i, shape_strides@, steps@, 0)],
        ));
    }
    result
}

/// A shape whose elements can be counted, and are not none, has no zero.
pub proof fn lemma_no_zero(shape: Seq<usize>)
    requires
        product(shape) > 0,
    ensures
        forall|d: int| 0 <= d < shape.len() ==> #[trigger] shape[d] > 0,
    decreases shape.len(),
{
    if shape.len() > 0 {
        lemma_product_bounds(shape.drop_last());
        let rest = product(shape.drop_last());
        assert(rest > 0 && shape.last() > 0) by (nonlinear_arith)
            requires
                0 <= rest,
                0 <= shape.last(),
                rest * shape.last() > 0,
        ;
        lemma_no_zero(shape.drop_last());
        assert forall|d: int| 0 <= d < shape.len() implies #[trigger] shape[d] > 0 by {
            if d < shape.len() - 1 {
                assert(shape.drop_last()[d] == shape[d]);
            }
        }
    }
}

/// A shape without a zero whose elements can be counted can be counted in parts.
pub proof fn lemma_counts(shape: Seq<usize>)
    requires
        product(shape) <= usize::MAX,
        forall|d: int| 0 <= d < shape.len() ==> #[trigger] shape[d] > 0,
    ensures
        counts(shape),
{
    assert forall|k: int| 0 <= k <= shape.len() implies #[trigger] product(shape.take(k))
        <= usize::MAX by {
        lemma_product_split(shape, k);
        let tail = shape.skip(k);
        assert forall|e: int| 0 <= e < tail.len() implies #[trigger] tail[e] > 0 by {
            assert(tail[e] == shape[k + e]);
        }
        lemma_product_bounds(tail);
        lemma_product_bounds(shape.take(k));
        lemma_scale(1, product(tail), product(shape.take(k)));
        assert(product(tail) * product(shape.take(k)) == product(shape.take(k)) * product(tail))
            by (nonlinear_arith);
    }
}

/// The tensor with its dimensions in another order.
pub open spec fn transposed<F>(input: TensorView<F>, order: Seq<usize>) -> TensorView<F> {
    let shape = reordered(input.shape, order);
    TensorView {
        shape,
        data: input.data.rearranged(
            input.data.len(),
            |flat: int|
                gathered(flat, strides_of(shape), reordered(strides_of(input.shape), order), 0),
        ),
    }
}

/// The tensor with its dimensions in another order.
pub open spec fn transpose_result<F>(
    inputs: Seq<TensorView<F>>,
    order: Seq<usize>,
) -> Result<TensorView<F>, TensorError> {
    if inputs.len() != 1 {
        Err(TensorError::InputCount)
    } else if order.len() != inputs[0].shape.len() {
        Err(TensorError::Rank)
    } else if !is_permutation(order, inputs[0].shape.len() as int) {
        Err(TensorError::Permutation)
    } else if inputs[0].data.len() > 0 || counts(reordered(inputs[0].shape, order)) {
        Ok(transposed(inputs[0], order))
    } else {
        Err(TensorError::ShapeOverflow)
    }
}

/// Reorders the dimensions of a tensor.
pub fn transpose<F: Copy>(inputs: &[Tensor<F>], permutation: &[usize]) -> (result: Result<
    Tensor<F>,
    TensorError,
>)
    requires
        all_wf(inputs@),
    ensures
        agrees(result, transpose_result(views(inputs@), permutation@)),
{
    if inputs.len() != 1 {
        return Err(TensorError::InputCount);
    }
    let input: &Tensor<F> = &inputs[0];
    assert(views(inputs@)[0] == input@);
    assert(input@.wf());
    let source: &[usize] = input.shape();
    let rank: usize = source.len();
    if permutation.len() != rank {
        return Err(TensorError::Rank);
    }
    let mut seen: Vec<bool> = Vec::with_capacity(rank);
    for _index in 0..rank
        invariant
            seen@.len() == _index,
            forall|i: int| 0 <= i < _index ==> #[trigger] seen@[i] == false,
    {
        seen.push(false);
    }
    let mut output_shape: Vec<usize> = Vec::with_capacity(rank);
    for index in 0..rank
        invariant
            views(inputs@).len() == 1,
            views(inputs@)[0] == input@,
            source@ == input@.shape,
            rank == source@.len(),
            permutation@.len() == rank,
            seen@.len() == rank,
            output_shape@.len() == index,
            forall|d: int| 0 <= d < index ==> #[trigger] permutation@[d] < rank,
            forall|d: int, e: int|
                0 <= d < e < index ==> #[trigger] permutation@[d] != #[trigger] permutation@[e],
            forall|d: int| 0 <= d < index ==> seen@[#[trigger] permutation@[d] as int],
            forall|n: int|
                0 <= n < rank && #[trigger] seen@[n] ==> exists|d: int|
                    0 <= d < index && #[trigger] permutation@[d] == n,
            forall|d: int|
                0 <= d < index ==> #[trigger] output_shape@[d] == source@[permutation@[d] as int],
    {
        let dimension: usize = permutation[index];
        if dimension >= rank || seen[dimension] {
            proof {
                if dimension < rank {
                    let d = choose|d: int| 0 <= d < index && #[trigger] permutation@[d] == dimension;
                    assert(permutation@[d] == permutation@[index as int]);
                }
                assert(!is_permutation(permutation@, rank as int));
            }
            return Err(TensorError::Permutation);
        }
        let ghost before = seen@;
        seen.set(dimension, true);
        output_shape.push(source[dimension]);
        proof {
            assert forall|n: int| 0 <= n < rank && #[trigger] seen@[n] implies exists|d: int|
                0 <= d < index + 1 && #[trigger] permutation@[d] == n by {
                if n == dimension {
                    assert(permutation@[index as int] == n);
                } else {
                    assert(before[n]);
                    let d = choose|d: int| 0 <= d < index && #[trigger] permutation@[d] == n;
                    assert(permutation@[d] == n);
                }
            }
            assert forall|d: int, e: int| 0 <= d < e < index + 1 implies #[trigger] permutation@[d]
                != #[trigger] permutation@[e] by {
                if e == index {
                    assert(before[permutation@[d] as int]);
                }
            }
        }
    }
    let ghost order = permutation@;
    assert(is_permutation(order, rank as int));
    assert(output_shape@ =~= reordered(source@, order));
    let count: usize = input.len();
    proof {
        lemma_product_reordered(source@, order);
        lemma_wf_count(input@);
    }
    if count == 0 {
        return match element_count(output_shape.as_slice()) {
            None => Err(TensorError::ShapeOverflow),
            Some(_) => {
                let ghost expected = transposed(input@, order);
                proof {
                    lemma_empty_data(input@.data, expected.data);
                }
                Ok(input.with_shape(output_shape))
            },
        };
    }
    proof {
        lemma_no_zero(source@);
        lemma_strides_count(source@);
        assert forall|d: int| 0 <= d < rank implies #[trigger] output_shape@[d] > 0 by {
            assert(source@[order[d] as int] > 0);
        }
        lemma_strides_count(output_shape@);
        lemma_counts(output_shape@);
    }
    let input_strides: Vec<usize> = strides(source);
    let output_strides: Vec<usize> = strides(output_shape.as_slice());
    let mut steps: Vec<usize> = Vec::with_capacity(rank);
    for index in 0..rank
        invariant
            permutation@.len() == rank,
            input_strides@.len() == rank,
            is_permutation(permutation@, rank as int),
            steps@.len() == index,
            forall|d: int|
                0 <= d < index ==> #[trigger] steps@[d] == input_strides@[permutation@[d] as int],
    {
        assert(permutation@[index as int] < rank);
        steps.push(input_strides[permutation[index]]);
    }
    proof {
        assert(steps@ =~= reordered(strides_of(source@), order));
        lemma_reach_reordered(source@, strides_of(source@), order);
        lemma_reach_row_major(source@, 0);
        assert(source@.skip(0) =~= source@);
    }
    let ghost expected = transposed(input@, order);
    match input.data() {
        TensorData::F32(values) => {
            let output: Vec<F> = gather(
                values.as_slice(),
                output_shape.as_slice(),
                output_strides.as_slice(),
                steps.as_slice(),
                0,
                count,
            );
            assert(expected.data == DataView::F32(output@)) by {
                assert(expected.data->F32_0 =~= output@);
            }
            Ok(Tensor::new_f32(output_shape, output))
        },
        TensorData::I64(values) => {
            let output: Vec<i64> = gather(
                values.as_slice(),
                output_shape.as_slice(),
                output_strides.as_slice(),
                steps.as_slice(),
                0,
                count,
            );
            assert(expected.data == DataView::<F>::I64(output@)) by {
                assert(expected.data->I64_0 =~= output@);
            }
            Ok(Tensor::new_i64(output_shape, output))
        },
    }
}

/// Two lists of values of one kind without values are the same.
proof fn lemma_empty_data<F>(first: DataView<F>, second: DataView<F>)
    requires
        first.len() == 0,
        second.len() == 0,
        first is F32 <==> second is F32,
    ensures
        first == second,
{
    match (first, second) {
        (DataView::F32(a), DataView::F32(b)) => {
            assert(a =~= b);
        },
        (DataView::I64(a), DataView::I64(b)) => {
            assert(a =~= b);
        },
        _ => {},
    }
}

} // verus!
