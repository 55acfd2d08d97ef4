//! Operations that take rows of values together: means, normalisation, softmax.
use vstd::prelude::*;
use crate::elementwise::{keeps_length, row_of, row_result, rows_in_place};
use crate::layout::{
    all_wf, axes_of, axis_of, lemma_wf_count, normalize_axes, normalize_axis, shape4, views,
};
use crate::shape::{
    count_of, counts, element_count, lemma_product_bounds, lemma_product_split, product,
};
use crate::tensor::{Tensor, TensorError, TensorView};

verus! {

/// `value` is what a reduction may give for a row.
pub open spec fn reduces<F, R: Fn(Vec<F>) -> F>(reduce: R, row: Seq<F>, value: F) -> bool {
    exists|list: Vec<F>| list@ == row && #[trigger] call_ensures(reduce, (list,), value)
}

/// Each value is what the reduction may give for the row with its number.
pub open spec fn reduces_rows<F, R: Fn(Vec<F>) -> F>(
    reduce: R,
    values: Seq<F>,
    columns: int,
    output: Seq<F>,
) -> bool {
    forall|row: int|
        0 <= row < output.len() ==> reduces(
            reduce,
            row_of(values, columns, row),
            #[trigger] output[row],
        )
}

fn reduce_rows<F: Copy, R: Fn(Vec<F>) -> F>(
    values: &[F],
    columns: usize,
    rows: usize,
    reduce: &R,
) -> (result: Vec<F>)
    requires
        rows * columns <= values@.len(),
        forall|row: Vec<F>| #[trigger] call_requires(*reduce, (row,)),
    ensures
        result@.len() == rows,
        reduces_rows(*reduce, values@, columns as int, result@),
{
    let len: usize = values.len();
    let mut result: Vec<F> = Vec::with_capacity(rows);
    let mut start: usize = 0;
    proof {
        vstd::arithmetic::mul::lemma_mul_basics(columns as int);
    }
    for row in 0..rows
        invariant
            len == values@.len(),
            rows * columns <= len,
            start == row * columns,
            result@.len() == row,
            forall|row: Vec<F>| #[trigger] call_requires(*reduce, (row,)),
            reduces_rows(*reduce, values@, columns as int, result@),
    {
        proof {
            assert((row + 1) * columns == row * columns + columns) by (nonlinear_arith);
            assert((row + 1) * columns <= rows * columns) by (nonlinear_arith)
                requires
                    row + 1 <= rows,
                    columns >= 0,
            ;
        }
        let list: Vec<F> = vstd::slice::slice_to_vec(
            vstd::slice::slice_subrange(values, start, start + columns),
        );
        let ghost kept = list;
        let value: F = reduce(list);
        proof {
            assert(kept@ =~= row_of(values@, columns as int, row as int));
            assert(call_ensures(*reduce, (kept,), value));
            assert(reduces(*reduce, row_of(values@, columns as int, row as int), value));
        }
        result.push(value);
        start = start + columns;
    }
    result
}

/// The shape of an input, where it is the only one and has four dimensions.
pub open spec fn planes_error<F>(inputs: Seq<TensorView<F>>) -> Option<TensorError> {
    if inputs.len() != 1 {
        Some(TensorError::InputCount)
    } else if inputs[0].shape.len() != 4 {
        Some(TensorError::Rank)
    } else if inputs[0].data is I64 {
        Some(TensorError::ExpectedF32)
    } else {
        None
    }
}

/// Whether `result` holds, for each plane, what the reduction may give.
pub open spec fn pools_planes<F, R: Fn(Vec<F>) -> F>(
    reduce: R,
    input: TensorView<F>,
    result: TensorView<F>,
) -> bool {
    &&& result.wf()
    &&& result.shape == seq![input.shape[0], input.shape[1], 1usize, 1usize]
    &&& result.data is F32
    &&& reduces_rows(
        reduce,
        input.data->F32_0,
        input.shape[2] * input.shape[3],
        result.data->F32_0,
    )
}

/// Replaces each plane by one value, such as its mean.
pub fn global_average_pool<F: Copy, R: Fn(Vec<F>) -> F>(
    inputs: &[Tensor<F>],
    mean: &R,
) -> (result: Result<Tensor<F>, TensorError>)
    requires
        all_wf(inputs@),
        forall|row: Vec<F>| #[trigger] call_requires(*mean, (row,)),
    ensures
        match result {
            Ok(tensor) => planes_error(views(inputs@)) is None && pools_planes(
                *mean,
                inputs@[0]@,
                tensor@,
            ),
            Err(error) => planes_error(views(inputs@)) == Some(error),
        },
{
    if inputs.len() != 1 {
        return Err(TensorError::InputCount);
    }
    let input: &Tensor<F> = &inputs[0];
    assert(views(inputs@)[0] == input@);
    assert(input@.wf());
    let sizes: [usize; 4] = match shape4(input.shape()) {
        Err(error) => {
            return Err(error);
        },
        Ok(sizes) => sizes,
    };
    let values: &[F] = match input.as_f32() {
        Err(error) => {
            return Err(error);
        },
        Ok(values) => values,
    };
    let ghost shape = input@.shape;
    let count: usize = values.len();
    proof {
        lemma_wf_count(input@);
        assert(shape =~= seq![sizes@[0], sizes@[1], sizes@[2], sizes@[3]]);
        crate::conv::lemma_product4(sizes@[0], sizes@[1], sizes@[2], sizes@[3]);
        assert(shape.take(2) =~= seq![sizes@[0], sizes@[1]]);
        lemma_pair(sizes@[0], sizes@[1]);
    }
    let planes: usize = sizes[0] * sizes[1];
    if planes == 0 {
        let shape_out: Vec<usize> = vec![sizes[0], sizes[1], 1, 1];
        let empty: Vec<F> = Vec::new();
        proof {
            assert(shape_out@ =~= seq![sizes@[0], sizes@[1], 1usize, 1usize]);
            lemma_units(sizes@[0], sizes@[1]);
        }
        return Ok(Tensor::new_f32(shape_out, empty));
    }
    proof {
        let spatial: int = sizes@[2] * sizes@[3];
        assert(spatial <= planes * spatial) by (nonlinear_arith)
            requires
                planes >= 1,
                spatial >= 0,
        ;
        assert(spatial >= 0) by (nonlinear_arith)
            requires
                spatial == sizes@[2] * sizes@[3],
        ;
    }
    let spatial: usize = sizes[2] * sizes[3];
    let output: Vec<F> = reduce_rows(values, spatial, planes, mean);
    let shape_out: Vec<usize> = vec![sizes[0], sizes[1], 1, 1];
    proof {
        assert(shape_out@ =~= seq![sizes@[0], sizes@[1], 1usize, 1usize]);
        lemma_units(sizes@[0], sizes@[1]);
    }
    Ok(Tensor::new_f32(shape_out, output))
}

proof fn lemma_pair(first: usize, second: usize)
    ensures
        product(seq![first, second]) == first * second,
{
    let shape = seq![first, second];
    let one = shape.drop_last();
    assert(one.drop_last() =~= Seq::<usize>::empty());
    assert(product(one.drop_last()) == 1);
    assert(1 * first == first) by (nonlinear_arith);
    assert(product(one) == first);
}

proof fn lemma_units(first: usize, second: usize)
    requires
        first * second <= usize::MAX,
    ensures
        count_of(seq![first, second, 1usize, 1usize]) == Some((first * second) as usize),
{
    let shape = seq![first, second, 1usize, 1usize];
    crate::conv::lemma_product4(first, second, 1, 1);
    assert(first * second * (1 * 1) == first * second) by (nonlinear_arith);
    assert forall|k: int| 0 <= k <= 4 implies #[trigger] product(shape.take(k)) <= usize::MAX by {
        let three = shape.take(3);
        let two = shape.take(2);
        let one = shape.take(1);
        lemma_pair(first, second);
        assert(two =~= seq![first, second]);
        assert(three.drop_last() =~= two);
        assert(product(three) == product(two) * 1);
        assert(one.drop_last() =~= Seq::<usize>::empty());
        assert(product(one.drop_last()) == 1);
        assert(1 * first == first) by (nonlinear_arith);
        assert(one.last() == first);
        assert(product(one) == first);
        assert(shape.take(0) =~= Seq::<usize>::empty());
        assert(shape.take(4) =~= shape);
    }
}

/// Whether every value from `start` up to `rank` is named.
pub open spec fn names_suffix(axes: Seq<usize>, start: int, rank: int) -> bool {
    &&& forall|axis: int| start <= axis < rank ==> #[trigger] axes.contains(axis as usize)
    &&& forall|i: int| 0 <= i < axes.len() ==> start <= #[trigger] axes[i] < rank
}

/// Where the reduced dimensions begin: the axes name all dimensions from there on.
pub open spec fn suffix_start(axes: Seq<usize>, rank: int) -> Option<int> {
    if exists|start: int| 0 <= start < rank && #[trigger] names_suffix(axes, start, rank) {
        Some(choose|start: int| 0 <= start < rank && #[trigger] names_suffix(axes, start, rank))
    } else {
        None
    }
}

proof fn lemma_suffix_unique(axes: Seq<usize>, first: int, second: int, rank: int)
    requires
        0 <= first < rank,
        0 <= second < rank,
        rank <= usize::MAX,
        names_suffix(axes, first, rank),
        names_suffix(axes, second, rank),
    ensures
        first == second,
{
    if first < second {
        assert(axes.contains(first as usize));
    } else if second < first {
        assert(axes.contains(second as usize));
    }
}

/// Why a reduction is refused; `None` where it is not.
pub open spec fn reduce_error<F>(inputs: Seq<TensorView<F>>, axes: Seq<i64>) -> Option<
    TensorError,
> {
    if inputs.len() != 1 {
        Some(TensorError::InputCount)
    } else {
        let shape = inputs[0].shape;
        match axes_of(axes, shape.len() as int) {
            Err(error) => Some(error),
            Ok(dimensions) => if dimensions.len() == 0 {
                Some(TensorError::Axis)
            } else {
                match suffix_start(dimensions, shape.len() as int) {
                    None => Some(TensorError::SuffixAxes),
                    Some(start) => if !counts(shape.skip(start)) {
                        Some(TensorError::ShapeOverflow)
                    } else if product(shape.skip(start)) == 0 {
                        Some(TensorError::Division)
                    } else if inputs[0].data is I64 {
                        Some(TensorError::ExpectedF32)
                    } else {
                        None
                    },
                }
            },
        }
    }
}

/// The shape that is left of a reduction.
pub open spec fn reduced_shape(shape: Seq<usize>, start: int, keep_dims: bool) -> Seq<usize> {
    if keep_dims {
        Seq::new(
            shape.len(),
            |i: int|
                if i < start {
                    shape[i]
                } else {
                    1
                },
        )
    } else {
        shape.take(start)
    }
}

/// Whether `result` holds what the reduction over the named axes may give.
pub open spec fn is_reduced<F, R: Fn(Vec<F>) -> F>(
    reduce: R,
    input: TensorView<F>,
    axes: Seq<i64>,
    keep_dims: bool,
    result: TensorView<F>,
) -> bool {
    let start = suffix_start(
        axes_of(axes, input.shape.len() as int)->Ok_0,
        input.shape.len() as int,
    )->Some_0;
    &&& result.wf()
    &&& result.shape == reduced_shape(input.shape, start, keep_dims)
    &&& result.data is F32
    &&& reduces_rows(
        reduce,
        input.data->F32_0,
        product(input.shape.skip(start)),
        result.data->F32_0,
    )
}

fn find_suffix(axes: &Vec<usize>, rank: usize) -> (result: Option<usize>)
    requires
        axes@.len() > 0,
        forall|i: int| 0 <= i < axes@.len() ==> #[trigger] axes@[i] < rank,
    ensures
        match result {
            Some(start) => suffix_start(axes@, rank as int) == Some(start as int) && start < rank,
            None => suffix_start(axes@, rank as int) is None,
        },
{
    let mut least: usize = axes[0];
    let ghost mut place: int = 0;
    for index in 0..axes.len()
        invariant
            0 <= place < axes@.len(),
            axes@[place] == least,
            forall|i: int| 0 <= i < index ==> least <= #[trigger] axes@[i],
            forall|i: int| 0 <= i < axes@.len() ==> #[trigger] axes@[i] < rank,
    {
        if axes[index] < least {
            least = axes[index];
            proof {
                place = index as int;
            }
        }
    }
    assert(least < rank);
    for axis in least..rank
        invariant
            least < rank,
            0 <= place < axes@.len(),
            axes@[place] == least,
            forall|i: int| 0 <= i < axes@.len() ==> least <= #[trigger] axes@[i] < rank,
            forall|other: int| least <= other < axis ==> #[trigger] axes@.contains(other as usize),
    {
        let mut found: bool = false;
        for index in 0..axes.len()
            invariant
                found == axes@.take(index as int).contains(axis),
        {
            proof {
                let head = axes@.take(index as int);
                let longer = axes@.take(index + 1);
                if head.contains(axis) {
                    let i = choose|i: int| 0 <= i < head.len() && head[i] == axis;
                    assert(longer[i] == axis);
                }
                if longer.contains(axis) && axes@[index as int] != axis {
                    let i = choose|i: int| 0 <= i < longer.len() && longer[i] == axis;
                    assert(head[i] == axis);
                }
                if axes@[index as int] == axis {
                    assert(longer[index as int] == axis);
                }
            }
            if axes[index] == axis {
                found = true;
            }
        }
        assert(axes@.take(axes@.len() as int) =~= axes@);
        if !found {
            proof {
                assert forall|start: int| 0 <= start < rank implies !#[trigger] names_suffix(
                    axes@,
                    start,
                    rank as int,
                ) by {
                    if names_suffix(axes@, start, rank as int) {
                        assert(start <= axes@[place]);
                        assert(axes@.contains(axis as int as usize));
                    }
                }
            }
            return None;
        }
    }
    proof {
        assert(names_suffix(axes@, least as int, rank as int));
        let start = suffix_start(axes@, rank as int)->Some_0;
        lemma_suffix_unique(axes@, least as int, start, rank as int);
    }
    Some(least)
}

/// Reduces the last dimensions of a tensor, which the axes name in any order.
pub fn reduce_mean<F: Copy, R: Fn(Vec<F>) -> F>(
    inputs: &[Tensor<F>],
    axes: &[i64],
    keep_dims: bool,
    mean: &R,
) -> (result: Result<Tensor<F>, TensorError>)
    requires
        all_wf(inputs@),
        forall|row: Vec<F>| #[trigger] call_requires(*mean, (row,)),
    ensures
        match result {
            Ok(tensor) => reduce_error(views(inputs@), axes@) is None && is_reduced(
                *mean,
                inputs@[0]@,
                axes@,
                keep_dims,
                tensor@,
            ),
            Err(error) => reduce_error(views(inputs@), axes@) == Some(error),
        },
{
    if inputs.len() != 1 {
        return Err(TensorError::InputCount);
    }
    let input: &Tensor<F> = &inputs[0];
    assert(views(inputs@)[0] == input@);
    assert(input@.wf());
    let shape: &[usize] = input.shape();
    let rank: usize = shape.len();
    let dimensions: Vec<usize> = match normalize_axes(axes, rank) {
        Err(error) => {
            return Err(error);
        },
        Ok(dimensions) => dimensions,
    };
    if dimensions.len() == 0 {
        return Err(TensorError::Axis);
    }
    let start: usize = match find_suffix(&dimensions, rank) {
        None => {
            return Err(TensorError::SuffixAxes);
        },
        Some(start) => start,
    };
    let tail: &[usize] = vstd::slice::slice_subrange(shape, start, rank);
    assert(tail@ =~= shape@.skip(start as int));
    let columns: usize = match element_count(tail) {
        None => {
            return Err(TensorError::ShapeOverflow);
        },
        Some(columns) => columns,
    };
    proof {
        lemma_product_bounds(tail@);
        assert(tail@.take(tail@.len() as int) =~= tail@);
    }
    if columns == 0 {
        return Err(TensorError::Division);
    }
    let values: &[F] = match input.as_f32() {
        Err(error) => {
            return Err(error);
        },
        Ok(values) => values,
    };
    let len: usize = values.len();
    let rows: usize = len / columns;
    let ghost head = shape@.take(start as int);
    proof {
        lemma_wf_count(input@);
        lemma_product_split(shape@, start as int);
        lemma_product_bounds(head);
        assert(len == product(head) * columns);
        vstd::arithmetic::div_mod::lemma_div_by_multiple(product(head), columns as int);
        assert(rows == product(head));
    }
    let output: Vec<F> = reduce_rows(values, columns, rows, mean);
    let mut result_shape: Vec<usize> = vstd::slice::slice_to_vec(
        vstd::slice::slice_subrange(shape, 0, start),
    );
    assert(result_shape@ =~= head);
    proof {
        assert forall|k: int| 0 <= k <= head.len() implies #[trigger] product(head.take(k))
            <= usize::MAX by {
            assert(head.take(k) =~= shape@.take(k));
        }
        assert(head.take(head.len() as int) =~= head);
    }
    if keep_dims {
        while result_shape.len() < rank
            invariant
                start <= result_shape@.len() <= rank,
                rank == shape@.len(),
                head == shape@.take(start as int),
                start < rank,
                counts(result_shape@),
                product(result_shape@) == product(head),
                forall|i: int| 0 <= i < start ==> result_shape@[i] == shape@[i],
                forall|i: int| start <= i < result_shape@.len() ==> result_shape@[i] == 1,
            decreases rank - result_shape@.len(),
        {
            let ghost before = result_shape@;
            result_shape.push(1);
            proof {
                let after = result_shape@;
                assert(after.drop_last() =~= before);
                assert(product(after) == product(before) * 1);
                assert forall|k: int| 0 <= k <= after.len() implies #[trigger] product(
                    after.take(k),
                ) <= usize::MAX by {
                    if k < after.len() {
                        assert(after.take(k) =~= before.take(k));
                    } else {
                        assert(after.take(k) =~= after);
                        assert(before.take(before.len() as int) =~= before);
                    }
                }
            }
        }
        assert(result_shape@ =~= reduced_shape(shape@, start as int, true));
    }
    Ok(Tensor::new_f32(result_shape, output))
}

/// Why a row operation over an axis is refused; `None` where it is not.
pub open spec fn softmax_error<F>(
    inputs: Seq<TensorView<F>>,
    axis: i64,
    biased: bool,
) -> Option<TensorError> {
    if inputs.len() != if biased {
        2int
    } else {
        1int
    } {
        Some(TensorError::InputCount)
    } else {
        let shape = inputs[0].shape;
        match axis_of(axis, shape.len() as int) {
            Err(error) => Some(error),
            Ok(position) => {
                let inner = shape.skip(position + 1);
                if !counts(inner) {
                    Some(TensorError::ShapeOverflow)
                } else if product(inner) != 1 {
                    Some(TensorError::SuffixAxes)
                } else if biased && inputs[1].data is I64 {
                    Some(TensorError::ExpectedF32)
                } else if biased && inputs[1].data.len() != shape[position as int] {
                    Some(TensorError::Bias)
                } else if inputs[0].data is I64 {
                    Some(TensorError::ExpectedF32)
                } else if shape[position as int] == 0 {
                    Some(TensorError::EmptyOutput)
                } else {
                    None
                }
            },
        }
    }
}

/// Whether `result` has the shape of a tensor and, in each row of `columns`
/// values, what the operation may give for the row of `values`.
pub open spec fn maps_rows<F, R: Fn(Vec<F>) -> Vec<F>>(
    operation: R,
    shape: Seq<usize>,
    values: Seq<F>,
    columns: int,
    result: TensorView<F>,
) -> bool {
    &&& result.wf()
    &&& result.shape == shape
    &&& result.data is F32
    &&& result.data.len() == values.len()
    &&& forall|row: int|
        0 <= row < values.len() as int / columns ==> row_result(
            operation,
            row_of(values, columns, row),
            #[trigger] row_of(result.data->F32_0, columns, row),
        )
}

proof fn lemma_row_axis(shape: Seq<usize>, position: int)
    requires
        0 <= position < shape.len(),
        product(shape.skip(position + 1)) == 1,
        shape[position] > 0,
    ensures
        product(shape) % (shape[position] as int) == 0,
{
    lemma_product_split(shape, position + 1);
    let head = shape.take(position + 1);
    assert(head.drop_last() =~= shape.take(position));
    assert(head.last() == shape[position]);
    assert(product(shape) == product(head) * 1);
    vstd::arithmetic::div_mod::lemma_mod_multiples_basic(
        product(shape.take(position)),
        shape[position] as int,
    );
}

fn row_axis<F: Copy>(input: &Tensor<F>, axis: i64) -> (result: Result<usize, TensorError>)
    requires
        input@.wf(),
    ensures
        ({
            let shape = input@.shape;
            match axis_of(axis, shape.len() as int) {
                Err(error) => result == Err::<usize, TensorError>(error),
                Ok(position) => {
                    let inner = shape.skip(position + 1);
                    if !counts(inner) {
                        result == Err::<usize, TensorError>(TensorError::ShapeOverflow)
                    } else if product(inner) != 1 {
                        result == Err::<usize, TensorError>(TensorError::SuffixAxes)
                    } else {
                        result == Ok::<usize, TensorError>(shape[position as int])
                    }
                },
            }
        }),
{
    let shape: &[usize] = input.shape();
    let rank: usize = shape.len();
    let position: usize = match normalize_axis(axis, rank) {
        Err(error) => {
            return Err(error);
        },
        Ok(position) => position,
    };
    let inner: &[usize] = vstd::slice::slice_subrange(shape, position + 1, rank);
    assert(inner@ =~= shape@.skip(position + 1));
    proof {
        lemma_product_bounds(inner@);
        assert(inner@.take(inner@.len() as int) =~= inner@);
    }
    match element_count(inner) {
        None => Err(TensorError::ShapeOverflow),
        Some(count) => {
            if count != 1 {
                return Err(TensorError::SuffixAxes);
            }
            Ok(shape[position])
        },
    }
}

/// Applies an operation, such as softmax, to each row along the last axis.
pub fn softmax<F: Copy, R: Fn(Vec<F>) -> Vec<F>>(
    inputs: &[Tensor<F>],
    axis: i64,
    operation: &R,
) -> (result: Result<Tensor<F>, TensorError>)
    requires
        all_wf(inputs@),
        keeps_length(*operation),
    ensures
        match result {
            Ok(tensor) => {
                let input = inputs@[0]@;
                &&& softmax_error(views(inputs@), axis, false) is None
                &&& maps_rows(
                    *operation,
                    input.shape,
                    input.data->F32_0,
                    input.shape[axis_of(axis, input.shape.len() as int)->Ok_0 as int] as int,
                    tensor@,
                )
            },
            Err(error) => softmax_error(views(inputs@), axis, false) == Some(error),
        },
{
    if inputs.len() != 1 {
        return Err(TensorError::InputCount);
    }
    let input: &Tensor<F> = &inputs[0];
    assert(views(inputs@)[0] == input@);
    assert(input@.wf());
    let columns: usize = match row_axis(input, axis) {
        Err(error) => {
            return Err(error);
        },
        Ok(columns) => columns,
    };
    let values: &[F] = match input.as_f32() {
        Err(error) => {
            return Err(error);
        },
        Ok(values) => values,
    };
    if columns == 0 {
        return Err(TensorError::EmptyOutput);
    }
    proof {
        lemma_wf_count(input@);
        lemma_row_axis(
            input@.shape,
            axis_of(axis, input@.shape.len() as int)->Ok_0 as int,
        );
    }
    let mut output: Vec<F> = vstd::slice::slice_to_vec(values);
    rows_in_place(output.as_mut_slice(), columns, operation);
    Ok(Tensor::new_f32(vstd::slice::slice_to_vec(input.shape()), output))
}

/// Whether `sums` holds the values with the bias added in each row.
pub open spec fn adds_bias<F, G: Fn(F, F) -> F>(
    add: G,
    values: Seq<F>,
    bias: Seq<F>,
    sums: Seq<F>,
) -> bool {
    &&& sums.len() == values.len()
    &&& forall|i: int|
        0 <= i < values.len() ==> call_ensures(
            add,
            (values[i], bias[i % bias.len() as int]),
            #[trigger] sums[i],
        )
}

/// Adds a bias to each row along the last axis and applies an operation to it.
pub fn bias_softmax<F: Copy, G: Fn(F, F) -> F, R: Fn(Vec<F>) -> Vec<F>>(
    inputs: &[Tensor<F>],
    axis: i64,
    addition: &G,
    operation: &R,
) -> (result: Result<Tensor<F>, TensorError>)
    requires
        all_wf(inputs@),
        forall|a: F, b: F| #[trigger] call_requires(*addition, (a, b)),
        keeps_length(*operation),
    ensures
        match result {
            Ok(tensor) => {
                let input = inputs@[0]@;
                &&& softmax_error(views(inputs@), axis, true) is None
                &&& exists|sums: Seq<F>| #[trigger]
                    adds_bias(
                        *addition,
                        input.data->F32_0,
                        inputs@[1]@.data->F32_0,
                        sums,
                    ) && maps_rows(
                        *operation,
                        input.shape,
                        sums,
                        input.shape[axis_of(axis, input.shape.len() as int)->Ok_0 as int] as int,
                        tensor@,
                    )
            },
            Err(error) => softmax_error(views(inputs@), axis, true) == Some(error),
        },
{
    if inputs.len() != 2 {
        return Err(TensorError::InputCount);
    }
    let input: &Tensor<F> = &inputs[0];
    assert(views(inputs@)[0] == input@);
    assert(views(inputs@)[1] == inputs@[1]@);
    assert(input@.wf());
    assert(inputs@[1]@.wf());
    let columns: usize = match row_axis(input, axis) {
        Err(error) => {
            return Err(error);
        },
        Ok(columns) => columns,
    };
    let bias: &[F] = match inputs[1].as_f32() {
        Err(error) => {
            return Err(error);
        },
        Ok(values) => values,
    };
    if bias.len() != columns {
        return Err(TensorError::Bias);
    }
    let values: &[F] = match input.as_f32() {
        Err(error) => {
            return Err(error);
        },
        Ok(values) => values,
    };
    if columns == 0 {
        return Err(TensorError::EmptyOutput);
    }
    proof {
        lemma_wf_count(input@);
        lemma_row_axis(
            input@.shape,
            axis_of(axis, input@.shape.len() as int)->Ok_0 as int,
        );
    }
    let mut output: Vec<F> = Vec::with_capacity(values.len());
    for index in 0..values.len()
        invariant
            columns > 0,
            columns == bias@.len(),
            forall|a: F, b: F| #[trigger] call_requires(*addition, (a, b)),
            output@.len() == index,
            forall|i: int|
                0 <= i < index ==> call_ensures(
                    *addition,
                    (values@[i], bias@[i % columns as int]),
                    #[trigger] output@[i],
                ),
    {
        let sum: F = addition(values[index], bias[index % columns]);
        output.push(sum);
    }
    let ghost sums = output@;
    assert(adds_bias(*addition, values@, bias@, sums));
    rows_in_place(output.as_mut_slice(), columns, operation);
    Ok(Tensor::new_f32(vstd::slice::slice_to_vec(input.shape()), output))
}

} // verus!
