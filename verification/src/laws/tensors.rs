//! Laws of tensors: which value of the input stands at a place of the result.
use vstd::prelude::*;
use crate::index::{lemma_row_bound, lemma_scale};
use crate::layout::{lemma_wf_count, transposed};
use crate::permutation::{
    is_permutation, lemma_product_reordered, lemma_reach_reordered, reordered,
};
use crate::shape::{
    gathered, lemma_product_bounds, lemma_product_skip, lemma_strides_count, product, reach,
    stride_of, strides_count, strides_of,
};
use crate::slicing::{range_base, range_shape, range_steps, taken, Range};
use crate::tensor::{DataView, TensorError, TensorView};
use crate::tensor_ops::reshape_of;
use crate::transposition::{lemma_gathered_places, within};

verus! {

/// The place of coordinates in a row-major tensor.
pub open spec fn place_in(shape: Seq<usize>, at: Seq<int>) -> int
    decreases shape.len(),
{
    if shape.len() == 0 {
        0
    } else {
        place_in(shape.drop_last(), at.drop_last()) * shape.last() + at.last()
    }
}

/// Whether coordinates lie within a shape.
pub open spec fn lies_in(shape: Seq<usize>, at: Seq<int>) -> bool {
    &&& at.len() == shape.len()
    &&& forall|d: int| 0 <= d < shape.len() ==> 0 <= #[trigger] at[d] < shape[d]
}

/// One more than each coordinate.
spec fn counted(at: Seq<int>) -> Seq<usize> {
    Seq::new(at.len(), |d: int| (at[d] + 1) as usize)
}

/// The coordinates times steps, from dimension `from` on.
spec fn weighted(at: Seq<int>, steps: Seq<int>, from: int) -> int
    decreases at.len() - from,
{
    if from < 0 || from >= at.len() {
        0
    } else {
        at[from] * steps[from] + weighted(at, steps, from + 1)
    }
}

spec fn whole(steps: Seq<usize>) -> Seq<int> {
    steps.map_values(|step: usize| step as int)
}

spec fn true_strides(shape: Seq<usize>) -> Seq<int> {
    Seq::new(shape.len(), |d: int| stride_of(shape, d))
}

proof fn lemma_weighted_reach(at: Seq<int>, steps: Seq<usize>, from: int)
    requires
        0 <= from <= at.len(),
        steps.len() == at.len(),
        forall|d: int| 0 <= d < at.len() ==> 0 <= #[trigger] at[d] < usize::MAX,
    ensures
        reach(counted(at), steps, from) == weighted(at, whole(steps), from),
    decreases at.len() - from,
{
    if from < at.len() {
        lemma_weighted_reach(at, steps, from + 1);
        assert(counted(at)[from] - 1 == at[from]);
    }
}

/// The row-major place is the sum of the coordinates times the strides.
proof fn lemma_place(shape: Seq<usize>, at: Seq<int>)
    requires
        at.len() == shape.len(),
    ensures
        place_in(shape, at) == weighted(at, true_strides(shape), 0),
    decreases shape.len(),
{
    if shape.len() > 0 {
        let last = shape.last() as int;
        let head = shape.drop_last();
        lemma_place(head, at.drop_last());
        lemma_weighted_last(shape, at, 0);
    }
}

proof fn lemma_weighted_last(shape: Seq<usize>, at: Seq<int>, from: int)
    requires
        at.len() == shape.len(),
        shape.len() > 0,
        0 <= from < shape.len(),
    ensures
        weighted(at, true_strides(shape), from) == weighted(
            at.drop_last(),
            true_strides(shape.drop_last()),
            from,
        ) * shape.last() + at.last(),
    decreases shape.len() - from,
{
    let head = shape.drop_last();
    let size = shape.last() as int;
    if from == shape.len() - 1 {
        assert(shape.skip(from + 1) =~= Seq::<usize>::empty());
        assert(true_strides(shape)[from] == 1);
        assert(weighted(at, true_strides(shape), from + 1) == 0);
        assert(at[from] * 1 == at.last());
        assert(0 * size == 0);
    } else {
        lemma_weighted_last(shape, at, from + 1);
        let rest = weighted(at.drop_last(), true_strides(head), from + 1);
        let stride = stride_of(head, from);
        assert(shape.skip(from + 1).drop_last() =~= head.skip(from + 1));
        assert(shape.skip(from + 1).last() == shape.last());
        assert(true_strides(shape)[from] == stride * size);
        assert(at[from] * (stride * size) + (rest * size + at.last()) == (at[from] * stride + rest)
            * size + at.last()) by (nonlinear_arith);
    }
}

/// The place lies within the values.
pub proof fn lemma_place_bound(shape: Seq<usize>, at: Seq<int>)
    requires
        lies_in(shape, at),
    ensures
        0 <= place_in(shape, at) < product(shape),
    decreases shape.len(),
{
    if shape.len() > 0 {
        let head = shape.drop_last();
        let before = at.drop_last();
        assert forall|d: int| 0 <= d < head.len() implies 0 <= #[trigger] before[d] < head[d] by {
            assert(before[d] == at[d] && head[d] == shape[d]);
        }
        lemma_place_bound(head, before);
        assert(0 <= at[shape.len() - 1] < shape[shape.len() - 1]);
        lemma_row_bound(
            place_in(head, before),
            product(head),
            at.last(),
            shape.last() as int,
        );
    }
}

/// Taking the coordinates of a place with other steps gives the coordinates times the
/// steps.
proof fn lemma_gathered_at(shape: Seq<usize>, at: Seq<int>, steps: Seq<usize>)
    requires
        lies_in(shape, at),
        steps.len() == shape.len(),
        product(shape) <= usize::MAX,
    ensures
        gathered(place_in(shape, at), strides_of(shape), steps, 0) == weighted(
            at,
            whole(steps),
            0,
        ),
{
    assert forall|d: int| 0 <= d < shape.len() implies #[trigger] shape[d] > 0 by {
        assert(0 <= at[d] < shape[d]);
    }
    lemma_strides_count(shape);
    let places = counted(at);
    assert forall|d: int| 0 <= d < shape.len() implies 1 <= #[trigger] places[d] <= shape[d] by {
        assert(0 <= at[d] < shape[d]);
    }
    assert forall|d: int| 0 <= d < at.len() implies 0 <= #[trigger] at[d] < usize::MAX by {
        assert(at[d] < shape[d]);
    }
    lemma_gathered_places(places, shape, steps, 0);
    lemma_weighted_reach(at, strides_of(shape), 0);
    lemma_weighted_reach(at, steps, 0);
    assert(whole(strides_of(shape)) =~= true_strides(shape)) by {
        assert forall|d: int| 0 <= d < shape.len() implies whole(strides_of(shape))[d]
            == true_strides(shape)[d] by {
            assert(stride_of(shape, d) <= usize::MAX);
            lemma_product_bounds(shape.skip(d + 1));
        }
    }
    lemma_place(shape, at);
}

/// What reordering the dimensions of a tensor is for: the value at some coordinates is
/// found, in the result, at the same coordinates in the new order.
pub proof fn lemma_transposed_value<F>(input: TensorView<F>, order: Seq<usize>, at: Seq<int>)
    requires
        input.wf(),
        is_permutation(order, input.shape.len() as int),
        lies_in(input.shape, at),
    ensures
        ({
            let output = transposed(input, order);
            let moved = Seq::new(order.len(), |d: int| at[order[d] as int]);
            &&& output.shape == Seq::new(order.len(), |d: int| input.shape[order[d] as int])
            &&& lies_in(output.shape, moved)
            &&& output.data.len() == input.data.len()
            &&& output.data is F32 == input.data is F32
            &&& input.data is F32 ==> output.data->F32_0[place_in(output.shape, moved)]
                == input.data->F32_0[place_in(input.shape, at)]
            &&& input.data is I64 ==> output.data->I64_0[place_in(output.shape, moved)]
                == input.data->I64_0[place_in(input.shape, at)]
        }),
{
    let output = transposed(input, order);
    let other = reordered(input.shape, order);
    let moved = Seq::new(order.len(), |d: int| at[order[d] as int]);
    lemma_wf_count(input);
    lemma_product_reordered(input.shape, order);
    assert(other =~= Seq::new(order.len(), |d: int| input.shape[order[d] as int]));
    assert forall|d: int| 0 <= d < other.len() implies 0 <= #[trigger] moved[d] < other[d] by {
        assert(order[d] < input.shape.len());
        assert(0 <= at[order[d] as int] < input.shape[order[d] as int]);
    }
    let strides = strides_of(input.shape);
    let steps = reordered(strides, order);
    lemma_gathered_at(other, moved, steps);
    lemma_place_bound(other, moved);
    assert forall|d: int| 0 <= d < at.len() implies 0 <= #[trigger] at[d] < usize::MAX by {
        assert(at[d] < input.shape[d]);
    }
    assert forall|d: int| 0 <= d < moved.len() implies 0 <= #[trigger] moved[d] < usize::MAX by {
        assert(moved[d] < other[d]);
    }
    lemma_weighted_reach(moved, steps, 0);
    lemma_weighted_reach(at, strides, 0);
    assert(counted(moved) =~= reordered(counted(at), order)) by {
        assert forall|d: int| 0 <= d < moved.len() implies counted(moved)[d] == reordered(
            counted(at),
            order,
        )[d] by {
            assert(order[d] < at.len());
        }
    }
    lemma_reach_reordered(counted(at), strides, order);
    assert forall|d: int| 0 <= d < input.shape.len() implies #[trigger] input.shape[d] > 0 by {
        assert(0 <= at[d] < input.shape[d]);
    }
    lemma_strides_count(input.shape);
    assert(whole(strides) =~= true_strides(input.shape)) by {
        assert forall|d: int| 0 <= d < strides.len() implies whole(strides)[d] == true_strides(
            input.shape,
        )[d] by {
            assert(stride_of(input.shape, d) <= usize::MAX);
            lemma_product_bounds(input.shape.skip(d + 1));
        }
    }
    lemma_place(input.shape, at);
}

/// What taking a part of a tensor is for: the value at some coordinates of the part is
/// that of the tensor as many steps behind the start of each range.
pub proof fn lemma_taken_value<F>(input: TensorView<F>, ranges: Seq<Range>, at: Seq<int>)
    requires
        input.wf(),
        ranges.len() == input.shape.len(),
        forall|d: int|
            0 <= d < ranges.len() ==> (#[trigger] ranges[d]).start <= ranges[d].end
                <= input.shape[d] && ranges[d].step > 0,
        at.len() == ranges.len(),
        forall|d: int|
            0 <= d < ranges.len() ==> 0 <= #[trigger] at[d] && ranges[d].start + at[d]
                * ranges[d].step < ranges[d].end,
    ensures
        ({
            let output = taken(input, ranges);
            let source = Seq::new(
                ranges.len(),
                |d: int| ranges[d].start + at[d] * ranges[d].step,
            );
            &&& lies_in(output.shape, at)
            &&& lies_in(input.shape, source)
            &&& product(output.shape) <= input.data.len()
            &&& input.data is F32 ==> output.data is F32 && output.data->F32_0[place_in(
                output.shape,
                at,
            )] == input.data->F32_0[place_in(input.shape, source)]
            &&& input.data is I64 ==> output.data is I64 && output.data->I64_0[place_in(
                output.shape,
                at,
            )] == input.data->I64_0[place_in(input.shape, source)]
        }),
{
    let shape = input.shape;
    let output = taken(input, ranges);
    let other = range_shape(ranges);
    let source = Seq::new(ranges.len(), |d: int| ranges[d].start + at[d] * ranges[d].step);
    lemma_wf_count(input);
    assert forall|d: int| 0 <= d < other.len() implies 0 <= #[trigger] at[d] < other[d] && other[d]
        <= shape[d] by {
        let range = ranges[d];
        let size: int = range.end - range.start;
        let step: int = range.step as int;
        assert(range.start + at[d] * step < range.end);
        let count = (size + step - 1) / step;
        assert(at[d] * step < size ==> at[d] < count) by (nonlinear_arith)
            requires
                count == (size + step - 1) / step,
                step > 0,
                at[d] >= 0,
        ;
        assert(count <= size) by (nonlinear_arith)
            requires
                count == (size + step - 1) / step,
                step > 0,
                size >= 1,
        ;
        assert(at[d] * step >= 0) by (nonlinear_arith)
            requires
                at[d] >= 0,
                step > 0,
        ;
    }
    assert forall|d: int| 0 <= d < shape.len() implies 0 <= #[trigger] source[d] < shape[d] by {
        assert(0 <= at[d]);
        assert(at[d] * ranges[d].step >= 0) by (nonlinear_arith)
            requires
                at[d] >= 0,
                ranges[d].step > 0,
        ;
    }
    assert forall|d: int| 0 <= d < shape.len() implies #[trigger] shape[d] > 0 by {
        assert(0 <= source[d] < shape[d]);
    }
    assert forall|d: int| 0 <= d < other.len() implies #[trigger] other[d] <= shape[d] by {
        assert(0 <= at[d] < other[d]);
    }
    lemma_smaller_product(other, shape);
    lemma_gathered_at(other, at, range_steps(shape, ranges));
    lemma_place_bound(other, at);
    lemma_place(shape, source);
    lemma_strides_count(shape);
    lemma_range_places(shape, ranges, at, source, 0);
}

proof fn lemma_smaller_product(first: Seq<usize>, second: Seq<usize>)
    requires
        first.len() == second.len(),
        forall|d: int| 0 <= d < first.len() ==> #[trigger] first[d] <= second[d],
    ensures
        product(first) <= product(second),
    decreases first.len(),
{
    if first.len() > 0 {
        assert forall|d: int| 0 <= d < first.len() - 1 implies #[trigger] first.drop_last()[d]
            <= second.drop_last()[d] by {
            assert(first[d] <= second[d]);
        }
        lemma_smaller_product(first.drop_last(), second.drop_last());
        lemma_product_bounds(first.drop_last());
        let a = product(first.drop_last());
        let b = product(second.drop_last());
        assert(first[first.len() - 1] <= second[first.len() - 1]);
        assert(a * first.last() <= b * second.last()) by (nonlinear_arith)
            requires
                0 <= a <= b,
                0 <= first.last() <= second.last(),
        ;
    }
}

proof fn lemma_range_places(
    shape: Seq<usize>,
    ranges: Seq<Range>,
    at: Seq<int>,
    source: Seq<int>,
    from: int,
)
    requires
        0 <= from <= shape.len(),
        ranges.len() == shape.len(),
        at.len() == shape.len(),
        source == Seq::new(ranges.len(), |d: int| ranges[d].start + at[d] * ranges[d].step),
        lies_in(shape, source),
        product(shape) <= usize::MAX,
        forall|d: int| 0 <= d < shape.len() ==> 0 <= #[trigger] at[d],
    ensures
        range_base(shape, ranges, from) + weighted(at, whole(range_steps(shape, ranges)), from)
            == weighted(source, true_strides(shape), from),
    decreases shape.len() - from,
{
    if from < shape.len() {
        lemma_range_places(shape, ranges, at, source, from + 1);
        let stride = stride_of(shape, from);
        let step: int = ranges[from].step as int;
        let start: int = ranges[from].start as int;
        lemma_product_bounds(shape.skip(from + 1));
        assert(0 <= source[from] < shape[from]);
        assert(source[from] == start + at[from] * step);
        if at[from] > 0 {
            assert(step <= source[from]) by (nonlinear_arith)
                requires
                    source[from] == start + at[from] * step,
                    start >= 0,
                    at[from] >= 1,
                    step >= 0,
            ;
            crate::shape::lemma_product_split(shape, from);
            lemma_product_skip(shape, from);
            let head = product(shape.take(from));
            let rest = product(shape.skip(from));
            assert forall|d: int| 0 <= d < shape.take(from).len() implies #[trigger] shape.take(
                from,
            )[d] > 0 by {
                assert(0 <= source[d] < shape[d]);
            }
            lemma_product_bounds(shape.take(from));
            assert(step * stride <= shape[from] * stride) by (nonlinear_arith)
                requires
                    step <= shape[from],
                    stride >= 0,
            ;
            assert(rest <= head * rest) by (nonlinear_arith)
                requires
                    head >= 1,
                    rest >= 0,
            ;
            assert(step * stride >= 0) by (nonlinear_arith)
                requires
                    step >= 0,
                    stride >= 0,
            ;
            assert(whole(range_steps(shape, ranges))[from] == step * stride);
        } else {
            assert(at[from] == 0);
            let other = whole(range_steps(shape, ranges))[from];
            assert(0 * other == 0);
            assert(0 * (step * stride) == 0);
        }
        assert(at[from] * whole(range_steps(shape, ranges))[from] == at[from] * (step * stride));
        assert((start + at[from] * step) * stride == start * stride + at[from] * (step * stride))
            by (nonlinear_arith);
    }
}

/// What giving a tensor another shape is for: the values stay as they are, and the
/// shape is the one that was asked for, where none of its dimensions is zero.
pub proof fn lemma_reshaped_values<F>(input: TensorView<F>, shape: Seq<usize>, output: TensorView<F>)
    requires
        reshape_of(input, shape) == Ok::<TensorView<F>, TensorError>(output),
        forall|d: int| 0 <= d < shape.len() ==> #[trigger] shape[d] > 0,
    ensures
        output.data == input.data,
        output.shape == shape,
        input.wf() ==> product(shape) == input.data.len(),
{
    let requested = crate::tensor_ops::requested_of(shape);
    lemma_requested(input.shape, shape, shape.len());
    assert(shape.take(shape.len() as int) =~= shape);
    if input.wf() {
        assert(crate::shape::count_of(shape) == Some(input.data.len() as usize));
        assert(product(shape.take(shape.len() as int)) <= usize::MAX);
        lemma_product_bounds(shape);
    }
}

proof fn lemma_requested(input: Seq<usize>, shape: Seq<usize>, count: nat)
    requires
        count <= shape.len(),
        forall|d: int| 0 <= d < shape.len() ==> 0 < #[trigger] shape[d] <= i64::MAX,
    ensures
        ({
            let requested = crate::tensor_ops::requested_of(shape);
            match crate::reshape::request_of(requested, input, count) {
                Ok(request) => request.shape == shape.take(count as int) && request.inferred is None,
                Err(_) => true,
            }
        }),
    decreases count,
{
    if count > 0 {
        lemma_requested(input, shape, (count - 1) as nat);
        let requested = crate::tensor_ops::requested_of(shape);
        let index = count - 1;
        assert(0 < shape[index] <= i64::MAX);
        assert(requested[index] == shape[index] as i64);
        assert(shape.take(count as int) =~= shape.take(index).push(shape[index]));
    } else {
        assert(shape.take(0) =~= Seq::<usize>::empty());
    }
}

/// The coordinates of a tensor that is broadcast: those of the result, of which the
/// leading ones are left out, and zero along dimensions of one.
pub open spec fn spread_at(input: Seq<usize>, at: Seq<int>) -> Seq<int> {
    Seq::new(
        input.len(),
        |d: int|
            if input[d] == 1 {
                0
            } else {
                at[at.len() - input.len() + d]
            },
    )
}

/// The value of a broadcast tensor that stands at coordinates of the result.
proof fn lemma_spread_place(input: Seq<usize>, output: Seq<usize>, at: Seq<int>)
    requires
        crate::broadcast::fits_in(input, output),
        lies_in(output, at),
        product(output) <= usize::MAX,
    ensures
        lies_in(input, spread_at(input, at)),
        gathered(
            place_in(output, at),
            strides_of(output),
            crate::broadcast::broadcast_steps(input, output),
            0,
        ) == place_in(input, spread_at(input, at)),
{
    let steps = crate::broadcast::broadcast_steps(input, output);
    let offset = output.len() - input.len();
    let clipped = spread_at(input, at);
    assert forall|d: int| 0 <= d < input.len() implies 0 <= #[trigger] clipped[d] < input[d] by {
        assert(input[d] == 1 || input[d] == output[offset + d]);
        assert(0 <= at[offset + d] < output[offset + d]);
    }
    assert forall|d: int| 0 <= d < input.len() implies #[trigger] input[d] > 0 by {
        assert(0 <= clipped[d] < input[d]);
    }
    assert forall|d: int| 0 <= d < output.len() implies #[trigger] output[d] > 0 by {
        assert(0 <= at[d] < output[d]);
    }
    let tail = output.skip(offset);
    assert forall|d: int| 0 <= d < input.len() implies #[trigger] input[d] <= tail[d] by {
        assert(input[d] == 1 || input[d] == output[offset + d]);
        assert(output[offset + d] > 0);
    }
    lemma_smaller_product(input, tail);
    crate::shape::lemma_product_split(output, offset);
    let head = output.take(offset);
    assert forall|d: int| 0 <= d < head.len() implies #[trigger] head[d] > 0 by {
        assert(output[d] > 0);
    }
    lemma_product_bounds(head);
    lemma_product_bounds(tail);
    let first = product(head);
    let second = product(tail);
    assert(second <= first * second) by (nonlinear_arith)
        requires
            first >= 1,
            second >= 0,
    ;
    lemma_strides_count(input);
    lemma_gathered_at(output, at, steps);
    lemma_place(input, clipped);
    lemma_leading_steps(input, output, at, 0);
    lemma_spread_steps(input, output, at, 0);
}

proof fn lemma_leading_steps(input: Seq<usize>, output: Seq<usize>, at: Seq<int>, from: int)
    requires
        input.len() <= output.len(),
        at.len() == output.len(),
        0 <= from <= output.len() - input.len(),
    ensures
        weighted(at, whole(crate::broadcast::broadcast_steps(input, output)), from) == weighted(
            at,
            whole(crate::broadcast::broadcast_steps(input, output)),
            output.len() - input.len(),
        ),
    decreases output.len() - from,
{
    if from < output.len() - input.len() {
        lemma_leading_steps(input, output, at, from + 1);
        assert(whole(crate::broadcast::broadcast_steps(input, output))[from] == 0);
        assert(at[from] * 0 == 0);
    }
}

proof fn lemma_spread_steps(input: Seq<usize>, output: Seq<usize>, at: Seq<int>, from: int)
    requires
        input.len() <= output.len(),
        at.len() == output.len(),
        0 <= from <= input.len(),
        strides_count(input),
    ensures
        weighted(
            at,
            whole(crate::broadcast::broadcast_steps(input, output)),
            output.len() - input.len() + from,
        ) == weighted(spread_at(input, at), true_strides(input), from),
    decreases input.len() - from,
{
    if from < input.len() {
        lemma_spread_steps(input, output, at, from + 1);
        let steps = whole(crate::broadcast::broadcast_steps(input, output));
        let place = output.len() - input.len() + from;
        lemma_product_bounds(input.skip(from + 1));
        if input[from] == 1 {
            assert(steps[place] == 0);
            assert(at[place] * 0 == 0);
            assert(0 * true_strides(input)[from] == 0);
        } else {
            assert(stride_of(input, from) <= usize::MAX);
            assert(steps[place] == true_strides(input)[from]);
        }
    }
}

/// What combining two tensors value by value is for: at every place of the result
/// stands what one of the two functions may give for the values of the two tensors at
/// that place, where a dimension of one stands for each index of the other tensor's.
pub proof fn lemma_combined_value<F, G: Fn(F, F) -> F, H: Fn(F, F) -> F>(
    operation: G,
    scalar_operation: H,
    left: TensorView<F>,
    right: TensorView<F>,
    result: TensorView<F>,
    at: Seq<int>,
)
    requires
        left.wf() && right.wf(),
        crate::broadcast::binary_error(seq![left, right]) is None,
        crate::broadcast::combines(operation, scalar_operation, left, right, result),
        lies_in(result.shape, at),
    ensures
        result.data is F32 && left.data is F32 && right.data is F32,
        lies_in(left.shape, spread_at(left.shape, at)),
        lies_in(right.shape, spread_at(right.shape, at)),
        ({
            let first = left.data->F32_0[place_in(left.shape, spread_at(left.shape, at))];
            let second = right.data->F32_0[place_in(right.shape, spread_at(right.shape, at))];
            let value = result.data->F32_0[place_in(result.shape, at)];
            call_ensures(operation, (first, second), value) || call_ensures(
                scalar_operation,
                (first, second),
                value,
            )
        }),
{
    let output = crate::broadcast::broadcast_of(left.shape, right.shape);
    assert(seq![left, right][0] == left && seq![left, right][1] == right);
    lemma_wf_count(result);
    lemma_spread_place(left.shape, output, at);
    lemma_spread_place(right.shape, output, at);
    lemma_place_bound(output, at);
    let flat = place_in(output, at);
    let value = result.data->F32_0[flat];
}

/// What a product of matrices is for. The value in a row and a column of one of the
/// matrices of the result folds, from zero, the values of that row of the left matrix
/// with those of that column of the right one, in order; the matrices that are
/// multiplied are those at the same leading coordinates.
pub proof fn lemma_product_value<
    F,
    M: Fn(F, F, F) -> F,
    A: Fn(F) -> F,
>(
    arithmetic: &crate::accumulate::Arithmetic<F, M>,
    activation: Option<&A>,
    left: TensorView<F>,
    right: TensorView<F>,
    result: TensorView<F>,
    at: Seq<int>,
    row: int,
    column: int,
) -> (sum: F)
    requires
        left.wf() && right.wf(),
        crate::matmul::matmul_error(seq![left, right], None) is None,
        crate::matmul::is_matmul(arithmetic, activation, left, right, result),
        result.shape.len() >= 2,
        lies_in(result.shape.take(result.shape.len() - 2), at),
        0 <= row < result.shape[result.shape.len() - 2],
        0 <= column < result.shape[result.shape.len() - 1],
    ensures
        ({
            let rows = result.shape[result.shape.len() - 2] as int;
            let columns = result.shape[result.shape.len() - 1] as int;
            let inner = left.shape[left.shape.len() - 1] as int;
            let first = left.shape.take(left.shape.len() - 2);
            let second = right.shape.take(right.shape.len() - 2);
            let one = place_in(first, spread_at(first, at));
            let other = place_in(second, spread_at(second, at));
            let whole = place_in(result.shape.take(result.shape.len() - 2), at);
            let value = result.data->F32_0[(whole * rows + row) * columns + column];
            &&& left.shape[left.shape.len() - 2] == rows
            &&& right.shape[right.shape.len() - 2] == inner
            &&& right.shape[right.shape.len() - 1] == columns
            &&& result.data is F32 && left.data is F32 && right.data is F32
            &&& lies_in(first, spread_at(first, at)) && lies_in(second, spread_at(second, at))
            &&& crate::laws::folded(
                arithmetic.mul_add,
                arithmetic.zero,
                Seq::new(
                    inner as nat,
                    |k: int|
                        (
                            left.data->F32_0[(one * rows + row) * inner + k],
                            right.data->F32_0[(other * inner + k) * columns + column],
                        ),
                ),
                sum,
            )
            &&& match activation {
                None => value == sum,
                Some(function) => call_ensures(*function, (sum,), value),
            }
        }),
{
    assert(seq![left, right][0] == left && seq![left, right][1] == right);
    let rank = result.shape.len();
    let first = crate::matmul::batch_of(left.shape);
    let second = crate::matmul::batch_of(right.shape);
    let batch = crate::broadcast::broadcast_of(first, second);
    assert(result.shape.take(rank - 2) =~= batch);
    let rows = result.shape[rank - 2] as int;
    let columns = result.shape[rank - 1] as int;
    let inner = left.shape[left.shape.len() - 1] as int;
    assert(batch.take(batch.len() as int) =~= batch);
    assert(product(batch) <= usize::MAX);
    lemma_spread_place(first, batch, at);
    lemma_spread_place(second, batch, at);
    lemma_place_bound(batch, at);
    lemma_place_bound(first, spread_at(first, at));
    lemma_place_bound(second, spread_at(second, at));
    let index = place_in(batch, at);
    let one = place_in(first, spread_at(first, at));
    let other = place_in(second, spread_at(second, at));
    let values = result.data->F32_0;
    let part = crate::elementwise::row_of(values, rows * columns, index);
    assert(crate::matmul::is_batch_product(
        arithmetic,
        activation,
        None,
        left,
        right,
        index,
        part,
    ));
    assert(crate::matmul::matrix_of(left.shape, batch, index) == one);
    assert(crate::matmul::matrix_of(right.shape, batch, index) == other);
    let a = crate::elementwise::row_of(left.data->F32_0, rows * inner, one);
    let b = crate::elementwise::row_of(right.data->F32_0, inner * columns, other);
    lemma_row_bound(row, rows, column, columns);
    lemma_matrix_cell(values, product(batch), rows, columns, index, row, column);
    let cell = crate::index::cell_at(0, columns, row, column);
    assert(part[cell] == values[(index * rows + row) * columns + column]);
    let terms = crate::kernels::dense_terms(a, b, inner, columns, row, column);
    let value = part[cell];
    assert(crate::accumulate::fused(
        arithmetic.mul_add,
        activation,
        arithmetic.zero,
        terms,
        value,
    ));
    let sum = choose|sum: F| #[trigger]
        crate::accumulate::accumulates(arithmetic.mul_add, arithmetic.zero, terms, sum)
            && crate::accumulate::activates(activation, sum, value);
    crate::laws::lemma_folded(arithmetic.mul_add, arithmetic.zero, terms, sum);
    lemma_wf_count(left);
    lemma_wf_count(right);
    crate::shape::lemma_product_split(left.shape, left.shape.len() - 2);
    crate::shape::lemma_product_split(right.shape, right.shape.len() - 2);
    lemma_two_product(left.shape.skip(left.shape.len() - 2));
    lemma_two_product(right.shape.skip(right.shape.len() - 2));
    let wanted = Seq::new(
        inner as nat,
        |k: int|
            (
                left.data->F32_0[(one * rows + row) * inner + k],
                right.data->F32_0[(other * inner + k) * columns + column],
            ),
    );
    assert forall|k: int| 0 <= k < inner implies terms[k] == wanted[k] by {
        lemma_row_bound(row, rows, k, inner);
        lemma_row_bound(k, inner, column, columns);
        lemma_matrix_cell(left.data->F32_0, product(first), rows, inner, one, row, k);
        lemma_matrix_cell(right.data->F32_0, product(second), inner, columns, other, k, column);
    }
    assert(terms =~= wanted);
    sum
}

proof fn lemma_two_product(shape: Seq<usize>)
    requires
        shape.len() == 2,
    ensures
        product(shape) == shape[0] * shape[1],
{
    let head = shape.drop_last();
    assert(head.drop_last() =~= Seq::<usize>::empty());
    assert(product(head.drop_last()) == 1);
    assert(1 * shape[0] == shape[0]);
    assert(product(head) == shape[0]);
}

/// A cell of one of several matrices of the same size.
proof fn lemma_matrix_cell<T>(
    values: Seq<T>,
    count: int,
    rows: int,
    columns: int,
    index: int,
    row: int,
    column: int,
)
    requires
        0 <= index < count,
        0 <= row < rows,
        0 <= column < columns,
        values.len() == count * (rows * columns),
    ensures
        0 <= row * columns + column < rows * columns,
        crate::elementwise::row_of(values, rows * columns, index)[row * columns + column]
            == values[(index * rows + row) * columns + column],
        0 <= (index * rows + row) * columns + column < values.len(),
{
    lemma_row_bound(row, rows, column, columns);
    lemma_row_bound(index, count, row * columns + column, rows * columns);
    assert((index * rows + row) * columns + column == index * (rows * columns) + (row * columns
        + column)) by (nonlinear_arith);
    assert((index + 1) * (rows * columns) <= count * (rows * columns));
}

} // verus!
