//! Joining tensors along a dimension.
use crate::index::lemma_scale;
use crate::layout::{agrees, all_wf, axis_of, lemma_wf_count, normalize_axis, views};
use crate::shape::{
    count_of, counts, element_count, lemma_product_bounds, lemma_product_skip, lemma_product_split,
    product,
};
use crate::tensor::{DataView, Tensor, TensorData, TensorError, TensorView};
use vstd::prelude::*;

verus! {

/// The shape of the first `count` tensors joined along a dimension. The others
/// have to agree.
pub open spec fn joined_shape<F>(
    inputs: Seq<TensorView<F>>,
    axis: int,
    count: nat,
) -> Result<Seq<usize>, TensorError>
    decreases count,
{
    if count == 0 {
        Ok(inputs[0].shape.update(axis, 0))
    } else {
        let next = inputs[count - 1].shape;
        match joined_shape(inputs, axis, (count - 1) as nat) {
            Err(error) => Err(error),
            Ok(before) => if next.len() != before.len() {
                Err(TensorError::Rank)
            } else if exists|d: int|
                0 <= d < before.len() && d != axis && #[trigger] next[d] != before[d] {
                Err(TensorError::ShapeMismatch)
            } else if before[axis] + next[axis] > usize::MAX {
                Err(TensorError::ShapeOverflow)
            } else {
                Ok(before.update(axis, (before[axis] + next[axis]) as usize))
            },
        }
    }
}

/// The parts of the first `count` lists that belong to one outer index, one
/// behind the other.
pub open spec fn joined_row<T>(
    values: Seq<Seq<T>>,
    chunks: Seq<int>,
    outer: int,
    count: nat,
) -> Seq<T>
    decreases count,
{
    if count == 0 {
        Seq::empty()
    } else {
        joined_row(values, chunks, outer, (count - 1) as nat) + values[count - 1].subrange(
            outer * chunks[count - 1],
            (outer + 1) * chunks[count - 1],
        )
    }
}

/// The parts of all lists, outer index by outer index.
pub open spec fn joined_values<T>(values: Seq<Seq<T>>, chunks: Seq<int>, outer: nat) -> Seq<T>
    decreases outer,
{
    if outer == 0 {
        Seq::empty()
    } else {
        joined_values(values, chunks, (outer - 1) as nat) + joined_row(
            values,
            chunks,
            outer - 1,
            values.len(),
        )
    }
}

/// The number of values of each tensor that belong to one outer index.
pub open spec fn chunks_of<F>(inputs: Seq<TensorView<F>>, axis: int) -> Seq<int> {
    Seq::new(inputs.len(), |i: int| product(inputs[i].shape.skip(axis)))
}

/// The values of tensors that all hold elements.
pub open spec fn elements_of<F>(inputs: Seq<TensorView<F>>) -> Seq<Seq<F>> {
    Seq::new(inputs.len(), |i: int| inputs[i].data->F32_0)
}

/// The values of tensors that all hold integers.
pub open spec fn whole_numbers_of<F>(inputs: Seq<TensorView<F>>) -> Seq<Seq<i64>> {
    Seq::new(inputs.len(), |i: int| inputs[i].data->I64_0)
}

/// The tensors joined along a dimension.
pub open spec fn joined<F>(inputs: Seq<TensorView<F>>, axis: int) -> Result<
    TensorView<F>,
    TensorError,
> {
    match joined_shape(inputs, axis, inputs.len()) {
        Err(error) => Err(error),
        Ok(shape) => {
            let outer: int = product(shape.take(axis));
            if !counts(shape) || !counts(shape.skip(axis + 1)) {
                Err(TensorError::ShapeOverflow)
            } else if inputs[0].data is F32 {
                if outer > 0 && exists|i: int|
                    0 <= i < inputs.len() && (#[trigger] inputs[i]).data is I64 {
                    Err(TensorError::ExpectedF32)
                } else {
                    Ok(
                        TensorView {
                            shape,
                            data: DataView::F32(
                                joined_values(
                                    elements_of(inputs),
                                    chunks_of(inputs, axis),
                                    outer as nat,
                                ),
                            ),
                        },
                    )
                }
            } else {
                if outer > 0 && exists|i: int|
                    0 <= i < inputs.len() && (#[trigger] inputs[i]).data is F32 {
                    Err(TensorError::ExpectedI64)
                } else {
                    Ok(
                        TensorView {
                            shape,
                            data: DataView::I64(
                                joined_values(
                                    whole_numbers_of(inputs),
                                    chunks_of(inputs, axis),
                                    outer as nat,
                                ),
                            ),
                        },
                    )
                }
            }
        },
    }
}

/// The inputs joined along the dimension that an axis names.
pub open spec fn concat_result<F>(inputs: Seq<TensorView<F>>, axis: i64) -> Result<
    TensorView<F>,
    TensorError,
> {
    if inputs.len() == 0 {
        Err(TensorError::InputCount)
    } else {
        match axis_of(axis, inputs[0].shape.len() as int) {
            Err(error) => Err(error),
            Ok(dimension) => joined(inputs, dimension as int),
        }
    }
}

proof fn lemma_joined_error<F>(
    inputs: Seq<TensorView<F>>,
    axis: int,
    count: nat,
    error: TensorError,
)
    requires
        count <= inputs.len(),
        joined_shape(inputs, axis, count) == Err::<Seq<usize>, TensorError>(error),
    ensures
        joined_shape(inputs, axis, inputs.len()) == Err::<Seq<usize>, TensorError>(error),
    decreases inputs.len() - count,
{
    if count < inputs.len() {
        lemma_joined_error(inputs, axis, count + 1, error);
    }
}

/// The sizes of the first `count` tensors along a dimension, in all.
spec fn axis_total<F>(inputs: Seq<TensorView<F>>, axis: int, count: nat) -> int
    decreases count,
{
    if count == 0 {
        0
    } else {
        axis_total(inputs, axis, (count - 1) as nat) + inputs[count - 1].shape[axis]
    }
}

/// Tensors that can be joined agree but for the dimension they are joined along.
proof fn lemma_joined_shape<F>(inputs: Seq<TensorView<F>>, axis: int, count: nat)
    requires
        count <= inputs.len(),
        inputs.len() > 0,
        0 <= axis < inputs[0].shape.len(),
        joined_shape(inputs, axis, count) is Ok,
    ensures
        ({
            let shape = joined_shape(inputs, axis, count)->Ok_0;
            &&& shape.len() == inputs[0].shape.len()
            &&& shape[axis] == axis_total(inputs, axis, count)
            &&& forall|d: int|
                0 <= d < shape.len() && d != axis ==> #[trigger] shape[d] == inputs[0].shape[d]
            &&& forall|i: int|
                0 <= i < count ==> (#[trigger] inputs[i]).shape.len() == shape.len()
            &&& forall|i: int, d: int|
                0 <= i < count && 0 <= d < shape.len() && d != axis
                    ==> (#[trigger] inputs[i]).shape[d] == #[trigger] inputs[0].shape[d]
        }),
    decreases count,
{
    if count > 0 {
        lemma_joined_shape(inputs, axis, (count - 1) as nat);
        let before = joined_shape(inputs, axis, (count - 1) as nat)->Ok_0;
        let next = inputs[count - 1].shape;
        assert forall|i: int, d: int|
            0 <= i < count && 0 <= d < before.len() && d != axis implies (#[trigger] inputs[i]).shape[d]
            == #[trigger] inputs[0].shape[d] by {
            if i == count - 1 {
                assert(next[d] == before[d]);
            }
        }
    }
}

/// The length of one row of joined values.
proof fn lemma_joined_row_len<F, T>(
    inputs: Seq<TensorView<F>>,
    values: Seq<Seq<T>>,
    axis: int,
    outer: int,
    index: int,
    inner: int,
    count: nat,
)
    requires
        count <= inputs.len(),
        inputs.len() > 0,
        0 <= axis < inputs[0].shape.len(),
        joined_shape(inputs, axis, inputs.len()) is Ok,
        values.len() == inputs.len(),
        inner == product(joined_shape(inputs, axis, inputs.len())->Ok_0.skip(axis + 1)),
        outer == product(joined_shape(inputs, axis, inputs.len())->Ok_0.take(axis)),
        0 <= index < outer,
        forall|i: int| 0 <= i < inputs.len() ==> (#[trigger] inputs[i]).wf(),
        forall|i: int|
            0 <= i < inputs.len() ==> (#[trigger] values[i]).len() == inputs[i].data.len(),
    ensures
        joined_row(values, chunks_of(inputs, axis), index, count).len() == axis_total(
            inputs,
            axis,
            count,
        ) * inner,
        forall|i: int|
            0 <= i < count ==> 0 <= index * #[trigger] chunks_of(inputs, axis)[i] <= (index + 1)
                * chunks_of(inputs, axis)[i] <= values[i].len(),
        forall|i: int|
            0 <= i < count ==> #[trigger] chunks_of(inputs, axis)[i] == inputs[i].shape[axis]
                * inner,
        0 <= axis_total(inputs, axis, count),
    decreases count,
{
    if count == 0 {
        assert(0 * inner == 0) by (nonlinear_arith);
    } else {
        let i = count - 1;
        lemma_joined_row_len(inputs, values, axis, outer, index, inner, (count - 1) as nat);
        lemma_joined_shape(inputs, axis, inputs.len());
        let shape = joined_shape(inputs, axis, inputs.len())->Ok_0;
        let own = inputs[i].shape;
        assert(inputs[i].shape.len() == shape.len());
        assert(own.take(axis) =~= shape.take(axis)) by {
            assert forall|d: int| 0 <= d < axis implies own[d] == shape[d] by {
                assert(inputs[i].shape[d] == inputs[0].shape[d]);
                assert(shape[d] == inputs[0].shape[d]);
            }
        }
        assert(own.skip(axis + 1) =~= shape.skip(axis + 1)) by {
            assert forall|d: int| axis < d < shape.len() implies own[d] == shape[d] by {
                assert(inputs[i].shape[d] == inputs[0].shape[d]);
                assert(shape[d] == inputs[0].shape[d]);
            }
        }
        lemma_product_split(own, axis);
        lemma_product_skip(own, axis);
        assert(inputs[i].wf());
        lemma_wf_count(inputs[i]);
        let chunk = chunks_of(inputs, axis)[i];
        assert(chunk == own[axis] * inner);
        lemma_product_bounds(shape.skip(axis + 1));
        lemma_scale(0, own[axis] as int, inner);
        lemma_scale(index + 1, outer, chunk);
        lemma_scale(0, index, chunk);
        assert((index + 1) * chunk == index * chunk + chunk) by (nonlinear_arith);
        assert(values[i].len() == inputs[i].data.len());
        assert((axis_total(inputs, axis, (count - 1) as nat) + own[axis]) * inner == axis_total(
            inputs,
            axis,
            (count - 1) as nat,
        ) * inner + own[axis] * inner) by (nonlinear_arith);
    }
}

/// The length of joined values.
proof fn lemma_joined_len<F, T>(
    inputs: Seq<TensorView<F>>,
    values: Seq<Seq<T>>,
    axis: int,
    outer: int,
    inner: int,
    count: nat,
)
    requires
        inputs.len() > 0,
        0 <= axis < inputs[0].shape.len(),
        joined_shape(inputs, axis, inputs.len()) is Ok,
        values.len() == inputs.len(),
        inner == product(joined_shape(inputs, axis, inputs.len())->Ok_0.skip(axis + 1)),
        outer == product(joined_shape(inputs, axis, inputs.len())->Ok_0.take(axis)),
        count <= outer,
        forall|i: int| 0 <= i < inputs.len() ==> (#[trigger] inputs[i]).wf(),
        forall|i: int|
            0 <= i < inputs.len() ==> (#[trigger] values[i]).len() == inputs[i].data.len(),
    ensures
        joined_values(values, chunks_of(inputs, axis), count).len() == count * (axis_total(
            inputs,
            axis,
            inputs.len(),
        ) * inner),
    decreases count,
{
    let row = axis_total(inputs, axis, inputs.len()) * inner;
    if count == 0 {
        assert(0 * row == 0) by (nonlinear_arith);
    } else {
        lemma_joined_len(inputs, values, axis, outer, inner, (count - 1) as nat);
        lemma_joined_row_len(inputs, values, axis, outer, count - 1, inner, inputs.len());
        assert(count * row == (count - 1) * row + row) by (nonlinear_arith);
    }
}

/// Appends a part of a list.
fn append_part<T: Copy>(output: &mut Vec<T>, values: &[T], start: usize, end: usize)
    requires
        start <= end <= values@.len(),
    ensures
        final(output)@ == old(output)@ + values@.subrange(start as int, end as int),
{
    let ghost before = output@;
    assert(before + values@.subrange(start as int, start as int) =~= before);
    for index in start..end
        invariant
            start <= end <= values@.len(),
            output@ == before + values@.subrange(start as int, index as int),
    {
        output.push(values[index]);
        assert(output@ =~= before + values@.subrange(start as int, index + 1));
    }
}

/// Joins tensors along the dimension that an axis names.
pub fn concat<F: Copy>(inputs: &[Tensor<F>], axis: i64) -> (result: Result<Tensor<F>, TensorError>)
    requires
        all_wf(inputs@),
    ensures
        agrees(result, concat_result(views(inputs@), axis)),
{
    let ghost all = views(inputs@);
    proof {
        assert forall|i: int| 0 <= i < all.len() implies #[trigger] all[i] == inputs@[i]@ by {}
        assert forall|i: int| 0 <= i < all.len() implies (#[trigger] all[i]).wf() by {
            assert(inputs@[i]@.wf());
        }
    }
    if inputs.len() == 0 {
        return Err(TensorError::InputCount);
    }
    let first: &[usize] = inputs[0].shape();
    let rank: usize = first.len();
    let dimension: usize = match normalize_axis(axis, rank) {
        Err(error) => {
            return Err(error);
        },
        Ok(dimension) => dimension,
    };
    let mut shape: Vec<usize> = vstd::slice::slice_to_vec(first);
    shape.set(dimension, 0);
    for index in 0..inputs.len()
        invariant
            all == views(inputs@),
            all.len() == inputs@.len(),
            forall|i: int| 0 <= i < all.len() ==> #[trigger] all[i] == inputs@[i]@,
            dimension < rank,
            shape@.len() == rank,
            joined_shape(all, dimension as int, index as nat) == Ok::<Seq<usize>, TensorError>(
                shape@,
            ),
            all.len() > 0,
            concat_result(all, axis) == joined(all, dimension as int),
    {
        assert(all[index as int] == inputs@[index as int]@);
        let next: &[usize] = inputs[index].shape();
        if next.len() != rank {
            proof {
                lemma_joined_error(all, dimension as int, (index + 1) as nat, TensorError::Rank);
            }
            return Err(TensorError::Rank);
        }
        for d in 0..rank
            invariant
                index < inputs@.len(),
                all.len() == inputs@.len(),
                all == views(inputs@),
                all[index as int] == inputs@[index as int]@,
                next@ == all[index as int].shape,
                next@.len() == rank,
                shape@.len() == rank,
                dimension < rank,
                joined_shape(all, dimension as int, index as nat) == Ok::<Seq<usize>, TensorError>(
                    shape@,
                ),
                concat_result(all, axis) == joined(all, dimension as int),
                forall|e: int| 0 <= e < d && e != dimension ==> #[trigger] next@[e] == shape@[e],
        {
            if d != dimension && next[d] != shape[d] {
                proof {
                    assert(all[index as int].shape[d as int] != shape@[d as int]);
                    lemma_joined_error(
                        all,
                        dimension as int,
                        (index + 1) as nat,
                        TensorError::ShapeMismatch,
                    );
                }
                return Err(TensorError::ShapeMismatch);
            }
        }
        match shape[dimension].checked_add(next[dimension]) {
            None => {
                proof {
                    lemma_joined_error(
                        all,
                        dimension as int,
                        (index + 1) as nat,
                        TensorError::ShapeOverflow,
                    );
                }
                return Err(TensorError::ShapeOverflow);
            },
            Some(total) => {
                shape.set(dimension, total);
            },
        }
    }
    let ghost joint = shape@;
    let ghost at = dimension as int;
    proof {
        lemma_joined_shape(all, at, all.len());
    }
    if element_count(shape.as_slice()).is_none() {
        return Err(TensorError::ShapeOverflow);
    }
    let head: Vec<usize> = vstd::slice::slice_to_vec(
        vstd::slice::slice_subrange(shape.as_slice(), 0, dimension),
    );
    let tail: Vec<usize> = vstd::slice::slice_to_vec(
        vstd::slice::slice_subrange(shape.as_slice(), dimension + 1, rank),
    );
    proof {
        assert(head@ =~= joint.take(at));
        assert(tail@ =~= joint.skip(at + 1));
        assert(counts(head@)) by {
            assert forall|k: int| 0 <= k <= head@.len() implies #[trigger] product(head@.take(k))
                <= usize::MAX by {
                assert(head@.take(k) =~= joint.take(k));
            }
        }
        assert(head@.take(head@.len() as int) =~= head@);
        lemma_product_bounds(head@);
        assert(tail@.take(tail@.len() as int) =~= tail@);
        lemma_product_bounds(tail@);
        lemma_product_bounds(joint);
        assert(joint.take(joint.len() as int) =~= joint);
        lemma_product_split(joint, at);
        lemma_product_skip(joint, at);
    }
    let outer: usize = match element_count(head.as_slice()) {
        None => {
            return Err(TensorError::ShapeOverflow);
        },
        Some(outer) => outer,
    };
    let inner: usize = match element_count(tail.as_slice()) {
        None => {
            return Err(TensorError::ShapeOverflow);
        },
        Some(inner) => inner,
    };
    match inputs[0].data() {
        TensorData::F32(_) => {
            let ghost values = elements_of(all);
            let ghost chunks = chunks_of(all, at);
            let mut output: Vec<F> = Vec::new();
            for outer_index in 0..outer
                invariant
                    all == views(inputs@),
                    all.len() == inputs@.len(),
                    all.len() > 0,
                    forall|i: int| 0 <= i < all.len() ==> #[trigger] all[i] == inputs@[i]@,
                    forall|i: int| 0 <= i < all.len() ==> (#[trigger] all[i]).wf(),
                    at == dimension,
                    0 <= at < all[0].shape.len(),
                    joined_shape(all, at, all.len()) == Ok::<Seq<usize>, TensorError>(joint),
                    counts(joint),
                    counts(joint.skip(at + 1)),
                    outer == product(joint.take(at)),
                    inner == product(joint.skip(at + 1)),
                    all[0].data is F32,
                    values == elements_of(all),
                    chunks == chunks_of(all, at),
                    concat_result(all, axis) == joined(all, at),
                    output@ == joined_values(values, chunks, outer_index as nat),
                    outer_index > 0 ==> forall|i: int|
                        0 <= i < all.len() ==> (#[trigger] all[i]).data is F32,
            {
                let ghost before = output@;
                assert(before + joined_row(values, chunks, outer_index as int, 0) =~= before);
                for index in 0..inputs.len()
                    invariant
                        outer_index < outer,
                        all == views(inputs@),
                        all.len() == inputs@.len(),
                        all.len() > 0,
                        forall|i: int| 0 <= i < all.len() ==> #[trigger] all[i] == inputs@[i]@,
                        forall|i: int| 0 <= i < all.len() ==> (#[trigger] all[i]).wf(),
                        at == dimension,
                        0 <= at < all[0].shape.len(),
                        joined_shape(all, at, all.len()) == Ok::<Seq<usize>, TensorError>(joint),
                        counts(joint),
                        counts(joint.skip(at + 1)),
                        outer == product(joint.take(at)),
                        inner == product(joint.skip(at + 1)),
                        all[0].data is F32,
                        values == elements_of(all),
                        chunks == chunks_of(all, at),
                        concat_result(all, axis) == joined(all, at),
                        output@ == before + joined_row(
                            values,
                            chunks,
                            outer_index as int,
                            index as nat,
                        ),
                        forall|i: int| 0 <= i < index ==> (#[trigger] all[i]).data is F32,
                {
                    assert(all[index as int] == inputs@[index as int]@);
                    match inputs[index].as_f32() {
                        Err(error) => {
                            assert(all[index as int].data is I64);
                            return Err(error);
                        },
                        Ok(part) => {
                            proof {
                                assert(all[index as int].data is F32);
                                lemma_part_bounds(
                                    all,
                                    part@,
                                    at,
                                    outer as int,
                                    outer_index as int,
                                    inner as int,
                                    index as int,
                                );
                            }
                            let own: &[usize] = inputs[index].shape();
                            let chunk: usize = own[dimension] * inner;
                            append_part(
                                &mut output,
                                part,
                                outer_index * chunk,
                                (outer_index + 1) * chunk,
                            );
                            proof {
                                assert(values[index as int] == part@);
                                assert(output@ =~= before + joined_row(
                                    values,
                                    chunks,
                                    outer_index as int,
                                    (index + 1) as nat,
                                ));
                            }
                        },
                    }
                }
            }
            proof {
                if outer > 0 {
                    assert forall|i: int| 0 <= i < all.len() implies (#[trigger] values[i]).len()
                        == all[i].data.len() by {
                        assert(all[i].data is F32);
                    }
                    lemma_joined_len(all, values, at, outer as int, inner as int, outer as nat);
                } else {
                    assert(0 * (joint[at] * inner) == 0) by (nonlinear_arith);
                }
                assert(count_of(shape@) == Some(output@.len() as usize));
            }
            Ok(Tensor::new_f32(shape, output))
        },
        TensorData::I64(_) => {
            let ghost values = whole_numbers_of(all);
            let ghost chunks = chunks_of(all, at);
            let mut output: Vec<i64> = Vec::new();
            for outer_index in 0..outer
                invariant
                    all == views(inputs@),
                    all.len() == inputs@.len(),
                    all.len() > 0,
                    forall|i: int| 0 <= i < all.len() ==> #[trigger] all[i] == inputs@[i]@,
                    forall|i: int| 0 <= i < all.len() ==> (#[trigger] all[i]).wf(),
                    at == dimension,
                    0 <= at < all[0].shape.len(),
                    joined_shape(all, at, all.len()) == Ok::<Seq<usize>, TensorError>(joint),
                    counts(joint),
                    counts(joint.skip(at + 1)),
                    outer == product(joint.take(at)),
                    inner == product(joint.skip(at + 1)),
                    all[0].data is I64,
                    values == whole_numbers_of(all),
                    chunks == chunks_of(all, at),
                    concat_result(all, axis) == joined(all, at),
                    output@ == joined_values(values, chunks, outer_index as nat),
                    outer_index > 0 ==> forall|i: int|
                        0 <= i < all.len() ==> (#[trigger] all[i]).data is I64,
            {
                let ghost before = output@;
                assert(before + joined_row(values, chunks, outer_index as int, 0) =~= before);
                for index in 0..inputs.len()
                    invariant
                        outer_index < outer,
                        all == views(inputs@),
                        all.len() == inputs@.len(),
                        all.len() > 0,
                        forall|i: int| 0 <= i < all.len() ==> #[trigger] all[i] == inputs@[i]@,
                        forall|i: int| 0 <= i < all.len() ==> (#[trigger] all[i]).wf(),
                        at == dimension,
                        0 <= at < all[0].shape.len(),
                        joined_shape(all, at, all.len()) == Ok::<Seq<usize>, TensorError>(joint),
                        counts(joint),
                        counts(joint.skip(at + 1)),
                        outer == product(joint.take(at)),
                        inner == product(joint.skip(at + 1)),
                        all[0].data is I64,
                        values == whole_numbers_of(all),
                        chunks == chunks_of(all, at),
                        concat_result(all, axis) == joined(all, at),
                        output@ == before + joined_row(
                            values,
                            chunks,
                            outer_index as int,
                            index as nat,
                        ),
                        forall|i: int| 0 <= i < index ==> (#[trigger] all[i]).data is I64,
                {
                    assert(all[index as int] == inputs@[index as int]@);
                    match inputs[index].as_i64() {
                        Err(error) => {
                            assert(all[index as int].data is F32);
                            return Err(error);
                        },
                        Ok(part) => {
                            proof {
                                assert(all[index as int].data is I64);
                                lemma_part_bounds(
                                    all,
                                    part@,
                                    at,
                                    outer as int,
                                    outer_index as int,
                                    inner as int,
                                    index as int,
                                );
                            }
                            let own: &[usize] = inputs[index].shape();
                            let chunk: usize = own[dimension] * inner;
                            append_part(
                                &mut output,
                                part,
                                outer_index * chunk,
                                (outer_index + 1) * chunk,
                            );
                            proof {
                                assert(values[index as int] == part@);
                                assert(output@ =~= before + joined_row(
                                    values,
                                    chunks,
                                    outer_index as int,
                                    (index + 1) as nat,
                                ));
                            }
                        },
                    }
                }
            }
            proof {
                if outer > 0 {
                    assert forall|i: int| 0 <= i < all.len() implies (#[trigger] values[i]).len()
                        == all[i].data.len() by {
                        assert(all[i].data is I64);
                    }
                    lemma_joined_len(all, values, at, outer as int, inner as int, outer as nat);
                } else {
                    assert(0 * (joint[at] * inner) == 0) by (nonlinear_arith);
                }
                assert(count_of(shape@) == Some(output@.len() as usize));
            }
            Ok(Tensor::new_i64(shape, output))
        },
    }
}

/// The part of one tensor that belongs to one outer index lies inside it.
proof fn lemma_part_bounds<F, T>(
    inputs: Seq<TensorView<F>>,
    part: Seq<T>,
    axis: int,
    outer: int,
    index: int,
    inner: int,
    at: int,
)
    requires
        inputs.len() > 0,
        0 <= axis < inputs[0].shape.len(),
        joined_shape(inputs, axis, inputs.len()) is Ok,
        inner == product(joined_shape(inputs, axis, inputs.len())->Ok_0.skip(axis + 1)),
        outer == product(joined_shape(inputs, axis, inputs.len())->Ok_0.take(axis)),
        0 <= index < outer,
        0 <= at < inputs.len(),
        inputs[at].wf(),
        part.len() == inputs[at].data.len(),
    ensures
        inputs[at].shape.len() == inputs[0].shape.len(),
        chunks_of(inputs, axis)[at] == inputs[at].shape[axis] * inner,
        0 <= inputs[at].shape[axis] * inner <= usize::MAX,
        0 <= index * (inputs[at].shape[axis] * inner) <= (index + 1) * (inputs[at].shape[axis]
            * inner) <= part.len(),
        part.len() <= usize::MAX,
{
    lemma_joined_shape(inputs, axis, inputs.len());
    let shape = joined_shape(inputs, axis, inputs.len())->Ok_0;
    let own = inputs[at].shape;
    assert(own.take(axis) =~= shape.take(axis)) by {
        assert forall|d: int| 0 <= d < axis implies own[d] == shape[d] by {
            assert(inputs[at].shape[d] == inputs[0].shape[d]);
            assert(shape[d] == inputs[0].shape[d]);
        }
    }
    assert(own.skip(axis + 1) =~= shape.skip(axis + 1)) by {
        assert forall|d: int| axis < d < shape.len() implies own[d] == shape[d] by {
            assert(inputs[at].shape[d] == inputs[0].shape[d]);
            assert(shape[d] == inputs[0].shape[d]);
        }
    }
    lemma_product_split(own, axis);
    lemma_product_skip(own, axis);
    lemma_wf_count(inputs[at]);
    let chunk = own[axis] * inner;
    lemma_product_bounds(shape.skip(axis + 1));
    lemma_scale(0, own[axis] as int, inner);
    lemma_scale(index + 1, outer, chunk);
    lemma_scale(1, outer, chunk);
    lemma_scale(0, index, chunk);
    assert((index + 1) * chunk == index * chunk + chunk) by (nonlinear_arith);
}

} // verus!
