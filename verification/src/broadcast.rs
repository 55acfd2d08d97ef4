//! Element-wise operations on tensors of different shapes.
use crate::elementwise::unary_in_place;
use crate::index::lemma_encode;
use crate::layout::{all_wf, lemma_no_zero, lemma_wf_count, views};
use crate::shape::{
    counts, element_count, gather_index, gathered, lemma_gathered_bound, lemma_product_bounds,
    lemma_reach_row_major, lemma_strides_count, product, reach, stride_of, strides, strides_count,
    strides_of,
};
use crate::tensor::{DataView, Tensor, TensorError, TensorView};
use vstd::prelude::*;

verus! {

/// The size of a dimension, counted from the last one; missing dimensions are one.
pub open spec fn trailing(shape: Seq<usize>, from_end: int) -> usize {
    if from_end <= shape.len() {
        shape[shape.len() - from_end]
    } else {
        1
    }
}

/// The number of dimensions of two shapes that are broadcast to each other.
pub open spec fn broadcast_rank(left: Seq<usize>, right: Seq<usize>) -> nat {
    if left.len() > right.len() {
        left.len()
    } else {
        right.len()
    }
}

/// Two shapes can be broadcast: aligned at their ends, dimensions are equal or
/// one of them is one.
pub open spec fn broadcasts(left: Seq<usize>, right: Seq<usize>) -> bool {
    forall|k: int|
        1 <= k <= broadcast_rank(left, right) ==> #[trigger] trailing(left, k) == trailing(right, k)
            || trailing(left, k) == 1 || trailing(right, k) == 1
}

/// The larger of two sizes.
pub open spec fn larger(first: usize, second: usize) -> usize {
    if first > second {
        first
    } else {
        second
    }
}

/// The shape that two shapes are broadcast to.
pub open spec fn broadcast_of(left: Seq<usize>, right: Seq<usize>) -> Seq<usize> {
    let rank = broadcast_rank(left, right);
    Seq::new(rank, |d: int| larger(trailing(left, rank - d), trailing(right, rank - d)))
}

/// The shape that two shapes are broadcast to.
pub fn broadcast_shape(left: &[usize], right: &[usize]) -> (result: Result<Vec<usize>, TensorError>)
    ensures
        match result {
            Ok(shape) => broadcasts(left@, right@) && shape@ == broadcast_of(left@, right@),
            Err(error) => error == TensorError::Broadcast && !broadcasts(left@, right@),
        },
{
    let rank: usize = if left.len() > right.len() {
        left.len()
    } else {
        right.len()
    };
    let mut shape: Vec<usize> = Vec::with_capacity(rank);
    for index in 0..rank
        invariant
            rank == broadcast_rank(left@, right@),
            shape@.len() == index,
            forall|k: int|
                rank - index < k <= rank ==> #[trigger] trailing(left@, k) == trailing(right@, k)
                    || trailing(left@, k) == 1 || trailing(right@, k) == 1,
            forall|d: int|
                0 <= d < index ==> #[trigger] shape@[d] == larger(
                    trailing(left@, rank - d),
                    trailing(right@, rank - d),
                ),
    {
        let from_end: usize = rank - index;
        let first: usize = if from_end <= left.len() {
            left[left.len() - from_end]
        } else {
            1
        };
        let second: usize = if from_end <= right.len() {
            right[right.len() - from_end]
        } else {
            1
        };
        assert(first == trailing(left@, from_end as int));
        assert(second == trailing(right@, from_end as int));
        if first != second && first != 1 && second != 1 {
            return Err(TensorError::Broadcast);
        }
        if first > second {
            shape.push(first);
        } else {
            shape.push(second);
        }
    }
    assert(shape@ =~= broadcast_of(left@, right@));
    Ok(shape)
}

/// A shape fits another one that it is broadcast to.
pub open spec fn fits_in(input: Seq<usize>, output: Seq<usize>) -> bool {
    &&& input.len() <= output.len()
    &&& forall|d: int|
        0 <= d < input.len() ==> #[trigger] input[d] == 1 || input[d] == output[output.len()
            - input.len() + d]
}

/// The steps in a tensor for neighbours in the shape that it is broadcast to.
pub open spec fn broadcast_steps(input: Seq<usize>, output: Seq<usize>) -> Seq<usize> {
    let offset = output.len() - input.len();
    Seq::new(
        output.len(),
        |d: int|
            if d < offset || input[d - offset] == 1 {
                0
            } else {
                stride_of(input, d - offset) as usize
            },
    )
}

/// The steps in a tensor for neighbours in the shape that it is broadcast to.
pub fn broadcast_strides(input: &[usize], output: &[usize]) -> (result: Result<
    Vec<usize>,
    TensorError,
>)
    requires
        strides_count(input@),
    ensures
        match result {
            Ok(steps) => fits_in(input@, output@) && steps@ == broadcast_steps(input@, output@),
            Err(error) => error == TensorError::ShapeMismatch && !fits_in(input@, output@),
        },
{
    if input.len() > output.len() {
        return Err(TensorError::ShapeMismatch);
    }
    let input_strides: Vec<usize> = strides(input);
    let output_len: usize = output.len();
    let offset: usize = output_len - input.len();
    let mut steps: Vec<usize> = Vec::with_capacity(output.len());
    for _index in 0..offset
        invariant
            steps@.len() == _index,
            forall|d: int| 0 <= d < _index ==> #[trigger] steps@[d] == 0,
    {
        steps.push(0);
    }
    for index in 0..input.len()
        invariant
            output_len == output@.len(),
            input@.len() <= output@.len(),
            offset == output@.len() - input@.len(),
            input_strides@ == strides_of(input@),
            strides_count(input@),
            steps@.len() == offset + index,
            forall|d: int| 0 <= d < offset ==> #[trigger] steps@[d] == 0,
            forall|d: int|
                0 <= d < index ==> #[trigger] input@[d] == 1 || input@[d] == output@[offset + d],
            forall|d: int|
                offset <= d < offset + index ==> #[trigger] steps@[d] == (if input@[d - offset] == 1 {
                    0
                } else {
                    stride_of(input@, d - offset)
                }),
    {
        if input[index] != 1 && input[index] != output[offset + index] {
            return Err(TensorError::ShapeMismatch);
        }
        if input[index] == 1 {
            steps.push(0);
        } else {
            proof {
                assert(stride_of(input@, index as int) <= usize::MAX);
                lemma_product_bounds(input@.skip(index + 1));
            }
            steps.push(input_strides[index]);
        }
    }
    assert(steps@ =~= broadcast_steps(input@, output@));
    Ok(steps)
}

/// Broadcasting a tensor never leaves it.
pub proof fn lemma_broadcast_reach(input: Seq<usize>, output: Seq<usize>, from: int)
    requires
        fits_in(input, output),
        strides_count(input),
        0 <= from <= output.len(),
    ensures
        reach(output, broadcast_steps(input, output), from) == reach(
            input,
            strides_of(input),
            if from < output.len() - input.len() {
                0
            } else {
                from - (output.len() - input.len())
            },
        ),
    decreases output.len() - from,
{
    let offset = output.len() - input.len();
    if from < output.len() {
        lemma_broadcast_reach(input, output, from + 1);
        let steps = broadcast_steps(input, output);
        if from < offset {
            assert((output[from] - 1) * 0 == 0) by (nonlinear_arith);
        } else {
            let d = from - offset;
            assert(input[d] == 1 || input[d] == output[from]);
            assert(stride_of(input, d) <= usize::MAX);
            assert(strides_of(input)[d] == stride_of(input, d)) by {
                lemma_product_bounds(input.skip(d + 1));
            }
            if input[d] == 1 {
                assert((output[from] - 1) * 0 == 0) by (nonlinear_arith);
                assert(0 * strides_of(input)[d] == 0) by (nonlinear_arith);
            }
        }
    }
}

/// Whether an input, without its leading ones, is the end of an output shape.
pub open spec fn repeats(input: Seq<usize>, output: Seq<usize>) -> bool {
    exists|start: int|
        0 <= start < input.len() && #[trigger] input[start] != 1 && (forall|d: int|
            0 <= d < start ==> input[d] == 1) && input.len() - start <= output.len()
            && input.skip(start) == output.skip(output.len() - (input.len() - start))
}

/// Whether an input, without its leading ones, is the end of an output shape.
pub fn is_repeated_suffix(input: &[usize], output: &[usize]) -> (result: bool)
    ensures
        result == repeats(input@, output@),
{
    let mut start: usize = 0;
    while start < input.len() && input[start] == 1
        invariant
            start <= input@.len(),
            forall|d: int| 0 <= d < start ==> input@[d] == 1,
        decreases input@.len() - start,
    {
        start = start + 1;
    }
    if start == input.len() {
        return false;
    }
    let len: usize = input.len() - start;
    if len > output.len() {
        proof {
            if repeats(input@, output@) {
                let other = choose|s: int|
                    0 <= s < input@.len() && #[trigger] input@[s] != 1 && (forall|d: int|
                        0 <= d < s ==> input@[d] == 1) && input@.len() - s <= output@.len()
                        && input@.skip(s) == output@.skip(output@.len() - (input@.len() - s));
                assert(other == start);
            }
        }
        return false;
    }
    let input_len: usize = input.len();
    let output_len: usize = output.len();
    let shift: usize = output_len - len;
    for index in 0..len
        invariant
            input_len == input@.len(),
            output_len == output@.len(),
            start < input@.len(),
            len == input@.len() - start,
            len <= output@.len(),
            shift == output@.len() - len,
            input@[start as int] != 1,
            forall|d: int| 0 <= d < start ==> input@[d] == 1,
            forall|i: int|
                start <= i < start + index ==> #[trigger] input@[i] == output@[shift + i - start],
    {
        if input[start + index] != output[shift + index] {
            proof {
                if repeats(input@, output@) {
                    let other = choose|s: int|
                        0 <= s < input@.len() && #[trigger] input@[s] != 1 && (forall|d: int|
                            0 <= d < s ==> input@[d] == 1) && input@.len() - s <= output@.len()
                            && input@.skip(s) == output@.skip(output@.len() - (input@.len() - s));
                    assert(other == start);
                    assert(input@.skip(other)[index as int] == output@.skip(shift as int)[index as int]);
                }
            }
            return false;
        }
    }
    proof {
        assert(input@.skip(start as int) =~= output@.skip(shift as int));
        assert(input@[start as int] != 1);
    }
    true
}

/// Whether two shapes are the same.
pub fn same_shape(first: &[usize], second: &[usize]) -> (result: bool)
    ensures
        result == (first@ == second@),
{
    if first.len() != second.len() {
        return false;
    }
    for index in 0..first.len()
        invariant
            first@.len() == second@.len(),
            forall|i: int| 0 <= i < index ==> first@[i] == second@[i],
    {
        if first[index] != second[index] {
            return false;
        }
    }
    assert(first@ =~= second@);
    true
}

/// A shape of one value per channel, broadcast over a batch of images.
pub open spec fn per_channel(right: Seq<usize>, output: Seq<usize>) -> bool {
    output.len() == 4 && right.len() == 4 && right[0] == 1 && right[1] == output[1] && right[2] == 1
        && right[3] == 1
}

/// Whether an operation takes its right value as a constant for many left values.
pub open spec fn by_scalar(left: Seq<usize>, right: Seq<usize>, output: Seq<usize>) -> bool {
    left == output && right != output && (product(right) == 1 || (!repeats(right, output)
        && per_channel(right, output)))
}

/// Why two tensors cannot be combined.
pub open spec fn binary_error<F>(inputs: Seq<TensorView<F>>) -> Option<TensorError> {
    if inputs.len() != 2 {
        Some(TensorError::InputCount)
    } else if !broadcasts(inputs[0].shape, inputs[1].shape) {
        Some(TensorError::Broadcast)
    } else if inputs[1].data is I64 || inputs[0].data is I64 {
        Some(TensorError::ExpectedF32)
    } else if !counts(broadcast_of(inputs[0].shape, inputs[1].shape)) {
        Some(TensorError::ShapeOverflow)
    } else if !fits_in(inputs[0].shape, broadcast_of(inputs[0].shape, inputs[1].shape))
        || !fits_in(inputs[1].shape, broadcast_of(inputs[0].shape, inputs[1].shape)) {
        Some(TensorError::ShapeMismatch)
    } else {
        None
    }
}

/// The value of a broadcast tensor at a place of the output.
pub open spec fn broadcast_value<F>(input: TensorView<F>, output: Seq<usize>, flat: int) -> F {
    input.data->F32_0[gathered(
        flat,
        strides_of(output),
        broadcast_steps(input.shape, output),
        0,
    )]
}

/// `result` combines two broadcast tensors value by value.
pub open spec fn combines<F, G: Fn(F, F) -> F, H: Fn(F, F) -> F>(
    operation: G,
    scalar_operation: H,
    left: TensorView<F>,
    right: TensorView<F>,
    result: TensorView<F>,
) -> bool {
    let output = broadcast_of(left.shape, right.shape);
    &&& result.wf()
    &&& result.shape == output
    &&& result.data is F32
    &&& forall|flat: int|
        0 <= flat < result.data.len() ==> if by_scalar(left.shape, right.shape, output) {
            call_ensures(
                scalar_operation,
                (broadcast_value(left, output, flat), broadcast_value(right, output, flat)),
                #[trigger] result.data->F32_0[flat],
            )
        } else {
            call_ensures(
                operation,
                (broadcast_value(left, output, flat), broadcast_value(right, output, flat)),
                result.data->F32_0[flat],
            )
        }
}

/// A zero in a broadcast shape comes from a zero in a shape that fits it.
pub proof fn lemma_broadcast_zero(left: Seq<usize>, right: Seq<usize>)
    requires
        broadcasts(left, right),
        fits_in(left, broadcast_of(left, right)),
        fits_in(right, broadcast_of(left, right)),
        product(broadcast_of(left, right)) > 0,
    ensures
        product(left) > 0,
        product(right) > 0,
        forall|d: int| 0 <= d < left.len() ==> #[trigger] left[d] > 0,
        forall|d: int| 0 <= d < right.len() ==> #[trigger] right[d] > 0,
{
    let output = broadcast_of(left, right);
    lemma_no_zero(output);
    assert forall|d: int| 0 <= d < left.len() implies #[trigger] left[d] > 0 by {
        assert(left[d] == 1 || left[d] == output[output.len() - left.len() + d]);
    }
    assert forall|d: int| 0 <= d < right.len() implies #[trigger] right[d] > 0 by {
        assert(right[d] == 1 || right[d] == output[output.len() - right.len() + d]);
    }
    lemma_product_bounds(left);
    lemma_product_bounds(right);
}

/// Combines two tensors value by value. Where the right one is a single value, or
/// one value per channel, `scalar_operation` takes the place of `operation`.
#[verifier::spinoff_prover]
#[verifier::rlimit(40)]
pub fn binary<F: Copy, G: Fn(F, F) -> F, H: Fn(F, F) -> F>(
    inputs: &[Tensor<F>],
    operation: &G,
    scalar_operation: &H,
) -> (result: Result<Tensor<F>, TensorError>)
    requires
        all_wf(inputs@),
        forall|a: F, b: F| #[trigger] call_requires(*operation, (a, b)),
        forall|a: F, b: F| #[trigger] call_requires(*scalar_operation, (a, b)),
    ensures
        match result {
            Ok(tensor) => binary_error(views(inputs@)) is None && combines(
                *operation,
                *scalar_operation,
                views(inputs@)[0],
                views(inputs@)[1],
                tensor@,
            ),
            Err(error) => binary_error(views(inputs@)) == Some(error),
        },
{
    if inputs.len() != 2 {
        return Err(TensorError::InputCount);
    }
    let left: &Tensor<F> = &inputs[0];
    let right: &Tensor<F> = &inputs[1];
    assert(views(inputs@)[0] == left@);
    assert(views(inputs@)[1] == right@);
    assert(left@.wf() && right@.wf());
    let left_shape: &[usize] = left.shape();
    let right_shape: &[usize] = right.shape();
    let shape: Vec<usize> = match broadcast_shape(left_shape, right_shape) {
        Err(error) => {
            return Err(error);
        },
        Ok(shape) => shape,
    };
    let right_values: &[F] = match right.as_f32() {
        Err(error) => {
            return Err(error);
        },
        Ok(values) => values,
    };
    let left_values: &[F] = match left.as_f32() {
        Err(error) => {
            return Err(error);
        },
        Ok(values) => values,
    };
    let count: usize = match element_count(shape.as_slice()) {
        None => {
            return Err(TensorError::ShapeOverflow);
        },
        Some(count) => count,
    };
    proof {
        lemma_wf_count(left@);
        lemma_wf_count(right@);
        assert(shape@.take(shape@.len() as int) =~= shape@);
        lemma_product_bounds(shape@);
    }
    if !fits(left_shape, shape.as_slice()) || !fits(right_shape, shape.as_slice()) {
        return Err(TensorError::ShapeMismatch);
    }
    let mut output: Vec<F> = Vec::with_capacity(count);
    if count == 0 {
        return Ok(Tensor::new_f32(shape, output));
    }
    proof {
        lemma_broadcast_zero(left_shape@, right_shape@);
        lemma_no_zero(shape@);
        lemma_strides_count(left_shape@);
        lemma_strides_count(right_shape@);
        lemma_strides_count(shape@);
        lemma_broadcast_reach(left_shape@, shape@, 0);
        lemma_broadcast_reach(right_shape@, shape@, 0);
        lemma_reach_row_major(left_shape@, 0);
        lemma_reach_row_major(right_shape@, 0);
        assert(left_shape@.skip(0) =~= left_shape@);
        assert(right_shape@.skip(0) =~= right_shape@);
    }
    let left_steps: Vec<usize> = match broadcast_strides(left_shape, shape.as_slice()) {
        Err(error) => {
            return Err(error);
        },
        Ok(steps) => steps,
    };
    let right_steps: Vec<usize> = match broadcast_strides(right_shape, shape.as_slice()) {
        Err(error) => {
            return Err(error);
        },
        Ok(steps) => steps,
    };
    let scalar: bool = same_shape(left_shape, shape.as_slice()) && !same_shape(
        right_shape,
        shape.as_slice(),
    ) && (right_values.len() == 1 || (!is_repeated_suffix(right_shape, shape.as_slice())
        && shape.len() == 4 && right_shape.len() == 4 && right_shape[0] == 1 && right_shape[1]
        == shape[1] && right_shape[2] == 1 && right_shape[3] == 1));
    assert(scalar == by_scalar(left_shape@, right_shape@, shape@));
    let shape_strides: Vec<usize> = strides(shape.as_slice());
    for flat in 0..count
        invariant
            forall|a: F, b: F| #[trigger] call_requires(*operation, (a, b)),
            forall|a: F, b: F| #[trigger] call_requires(*scalar_operation, (a, b)),
            count == product(shape@),
            strides_count(shape@),
            shape_strides@ == strides_of(shape@),
            forall|d: int| 0 <= d < shape@.len() ==> #[trigger] shape@[d] > 0,
            shape@ == broadcast_of(left_shape@, right_shape@),
            left_shape@ == left@.shape,
            right_shape@ == right@.shape,
            left@.data == DataView::F32(left_values@),
            right@.data == DataView::F32(right_values@),
            left_steps@ == broadcast_steps(left_shape@, shape@),
            right_steps@ == broadcast_steps(right_shape@, shape@),
            reach(shape@, left_steps@, 0) < left_values@.len() <= usize::MAX,
            reach(shape@, right_steps@, 0) < right_values@.len() <= usize::MAX,
            scalar == by_scalar(left_shape@, right_shape@, shape@),
            output@.len() == flat,
            forall|i: int|
                0 <= i < flat ==> if scalar {
                    call_ensures(
                        *scalar_operation,
                        (broadcast_value(left@, shape@, i), broadcast_value(right@, shape@, i)),
                        #[trigger] output@[i],
                    )
                } else {
                    call_ensures(
                        *operation,
                        (broadcast_value(left@, shape@, i), broadcast_value(right@, shape@, i)),
                        output@[i],
                    )
                },
    {
        let left_index: usize = gather_index(
            flat,
            shape.as_slice(),
            shape_strides.as_slice(),
            left_steps.as_slice(),
        );
        let right_index: usize = gather_index(
            flat,
            shape.as_slice(),
            shape_strides.as_slice(),
            right_steps.as_slice(),
        );
        let value: F = if scalar {
            scalar_operation(left_values[left_index], right_values[right_index])
        } else {
            operation(left_values[left_index], right_values[right_index])
        };
        output.push(value);
    }
    Ok(Tensor::new_f32(shape, output))
}

/// Whether a shape fits another one that it is broadcast to.
pub(crate) fn fits(input: &[usize], output: &[usize]) -> (result: bool)
    ensures
        result == fits_in(input@, output@),
{
    if input.len() > output.len() {
        return false;
    }
    let output_len: usize = output.len();
    let offset: usize = output_len - input.len();
    for index in 0..input.len()
        invariant
            output_len == output@.len(),
            input@.len() <= output@.len(),
            offset == output@.len() - input@.len(),
            forall|d: int|
                0 <= d < index ==> #[trigger] input@[d] == 1 || input@[d] == output@[offset + d],
    {
        if input[index] != 1 && input[index] != output[offset + index] {
            return false;
        }
    }
    true
}

/// `result` holds an operation's values on each value of a tensor.
pub open spec fn maps<F, G: Fn(F) -> F>(
    operation: G,
    input: TensorView<F>,
    result: TensorView<F>,
) -> bool {
    &&& result.wf()
    &&& result.shape == input.shape
    &&& result.data is F32
    &&& result.data.len() == input.data.len()
    &&& forall|i: int|
        0 <= i < input.data.len() ==> call_ensures(
            operation,
            (input.data->F32_0[i],),
            #[trigger] result.data->F32_0[i],
        )
}

/// Applies an operation to each value of a tensor.
pub fn unary<F: Copy, G: Fn(F) -> F>(inputs: &[Tensor<F>], operation: &G) -> (result: Result<
    Tensor<F>,
    TensorError,
>)
    requires
        all_wf(inputs@),
        forall|a: F| #[trigger] call_requires(*operation, (a,)),
    ensures
        match result {
            Ok(tensor) => inputs@.len() == 1 && inputs@[0]@.data is F32 && maps(
                *operation,
                inputs@[0]@,
                tensor@,
            ),
            Err(TensorError::InputCount) => inputs@.len() != 1,
            Err(error) => error == TensorError::ExpectedF32 && inputs@.len() == 1
                && inputs@[0]@.data is I64,
        },
{
    if inputs.len() != 1 {
        return Err(TensorError::InputCount);
    }
    let input: &Tensor<F> = &inputs[0];
    assert(input@.wf());
    match input.as_f32() {
        Err(error) => Err(error),
        Ok(values) => {
            let mut output: Vec<F> = vstd::slice::slice_to_vec(values);
            unary_in_place(output.as_mut_slice(), operation);
            Ok(Tensor::new_f32(vstd::slice::slice_to_vec(input.shape()), output))
        },
    }
}

/// Broadcasting treats both sides alike.
pub proof fn lemma_broadcast_symmetric(left: Seq<usize>, right: Seq<usize>)
    ensures
        broadcasts(left, right) == broadcasts(right, left),
        broadcast_of(left, right) == broadcast_of(right, left),
{
    assert(broadcast_rank(left, right) == broadcast_rank(right, left));
    if broadcasts(left, right) {
        assert forall|k: int| 1 <= k <= broadcast_rank(right, left) implies #[trigger] trailing(
            right,
            k,
        ) == trailing(left, k) || trailing(right, k) == 1 || trailing(left, k) == 1 by {
            assert(trailing(left, k) == trailing(right, k) || trailing(left, k) == 1 || trailing(
                right,
                k,
            ) == 1);
        }
    }
    if broadcasts(right, left) {
        assert forall|k: int| 1 <= k <= broadcast_rank(left, right) implies #[trigger] trailing(
            left,
            k,
        ) == trailing(right, k) || trailing(left, k) == 1 || trailing(right, k) == 1 by {
            assert(trailing(right, k) == trailing(left, k) || trailing(right, k) == 1 || trailing(
                left,
                k,
            ) == 1);
        }
    }
    assert(broadcast_of(left, right) =~= broadcast_of(right, left));
}

/// Tensors of one shape are combined value by value.
pub proof fn lemma_broadcast_same(shape: Seq<usize>)
    ensures
        broadcasts(shape, shape),
        broadcast_of(shape, shape) == shape,
{
    assert(broadcast_of(shape, shape) =~= shape);
}

proof fn lemma_same_place(flat: int, shape: Seq<usize>, from: int)
    requires
        0 <= from <= shape.len(),
        strides_count(shape),
        forall|d: int| 0 <= d < shape.len() ==> #[trigger] shape[d] > 0,
        0 <= flat < product(shape.skip(from)),
    ensures
        gathered(flat, strides_of(shape), broadcast_steps(shape, shape), from) == flat,
    decreases shape.len() - from,
{
    let steps = broadcast_steps(shape, shape);
    lemma_gathered_bound(flat, shape, steps, from);
    if from < shape.len() {
        let stride = stride_of(shape, from);
        lemma_encode(flat, stride);
        assert(strides_of(shape)[from] == stride);
        lemma_same_place(flat % stride, shape, from + 1);
        if shape[from] == 1 {
            assert(flat / stride == 0);
            assert(0 * steps[from] == 0);
            assert(0 * stride == 0);
        } else {
            assert(steps[from] == stride);
        }
    } else {
        assert(shape.skip(from) =~= Seq::<usize>::empty());
    }
}

/// A tensor is not stretched to its own shape.
pub proof fn lemma_broadcast_value_same<F>(input: TensorView<F>, flat: int)
    requires
        input.wf(),
        input.data is F32,
        0 <= flat < input.data.len(),
    ensures
        broadcast_value(input, input.shape, flat) == input.data->F32_0[flat],
{
    lemma_wf_count(input);
    lemma_no_zero(input.shape);
    lemma_strides_count(input.shape);
    assert(input.shape.skip(0) =~= input.shape);
    lemma_same_place(flat, input.shape, 0);
}

} // verus!
