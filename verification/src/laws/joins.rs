//! What joining tensors is for.
use vstd::prelude::*;
use crate::index::{lemma_row_bound, lemma_scale};
use crate::joining::{chunks_of, elements_of, joined, joined_row, joined_shape, joined_values};
use crate::layout::lemma_wf_count;
use crate::shape::{lemma_product_bounds, lemma_product_split, product};
use crate::tensor::{TensorError, TensorView};

verus! {

/// The sum of the first lengths.
pub open spec fn total(lengths: Seq<int>, count: int) -> int
    decreases count,
{
    if count <= 0 {
        0
    } else {
        total(lengths, count - 1) + lengths[count - 1]
    }
}

/// Sums of lengths grow.
proof fn lemma_total(lengths: Seq<int>, first: int, second: int)
    requires
        0 <= first <= second <= lengths.len(),
        forall|i: int| 0 <= i < lengths.len() ==> 0 <= #[trigger] lengths[i],
    ensures
        0 <= total(lengths, first) <= total(lengths, second),
    decreases second,
{
    if first < second {
        lemma_total(lengths, first, second - 1);
        assert(0 <= lengths[second - 1]);
    } else if 0 < first {
        lemma_total(lengths, first - 1, first - 1);
        assert(0 <= lengths[first - 1]);
    }
}

/// Where the values of a list stand in a joined row.
proof fn lemma_row<T>(values: Seq<Seq<T>>, lengths: Seq<int>, row: int, count: nat)
    requires
        count <= values.len(),
        values.len() == lengths.len(),
        0 <= row,
        forall|i: int|
            0 <= i < lengths.len() ==> 0 <= #[trigger] lengths[i] && (row + 1) * lengths[i]
                <= values[i].len(),
    ensures
        joined_row(values, lengths, row, count).len() == total(lengths, count as int),
        forall|i: int, k: int|
            #![trigger values[i], total(lengths, i) + k]
            0 <= i < count && 0 <= k < lengths[i] ==> joined_row(
                values,
                lengths,
                row,
                count,
            )[total(lengths, i) + k] == values[i][row * lengths[i] + k],
    decreases count,
{
    if count > 0 {
        let last = count - 1;
        let before = joined_row(values, lengths, row, last as nat);
        lemma_row(values, lengths, row, last as nat);
        let length = lengths[last];
        assert(0 <= length && (row + 1) * length <= values[last].len());
        assert((row + 1) * length == row * length + length) by (nonlinear_arith);
        lemma_scale(0, row, length);
        let piece = values[last].subrange(row * length, (row + 1) * length);
        assert forall|i: int, k: int|
            #![trigger values[i], total(lengths, i) + k]
            0 <= i < count && 0 <= k < lengths[i] implies joined_row(
            values,
            lengths,
            row,
            count,
        )[total(lengths, i) + k] == values[i][row * lengths[i] + k] by {
            lemma_total(lengths, 0, i);
            if i < last {
                lemma_total(lengths, i + 1, last);
                assert(total(lengths, i + 1) == total(lengths, i) + lengths[i]);
                assert((before + piece)[total(lengths, i) + k] == before[total(lengths, i) + k]);
            } else {
                assert((before + piece)[total(lengths, i) + k] == piece[k]);
            }
        }
    }
}

/// What joining is for: along the dimensions before the joined one, the values of each
/// list follow those of the list before, none left out and each as it was.
pub proof fn lemma_joined_value<T>(
    values: Seq<Seq<T>>,
    lengths: Seq<int>,
    rows: nat,
    row: int,
    list: int,
    offset: int,
)
    requires
        values.len() == lengths.len(),
        forall|i: int|
            0 <= i < lengths.len() ==> 0 <= #[trigger] lengths[i] && values[i].len() == rows
                * lengths[i],
        0 <= row < rows,
        0 <= list < lengths.len(),
        0 <= offset < lengths[list],
    ensures
        ({
            let width = total(lengths, lengths.len() as int);
            let result = joined_values(values, lengths, rows);
            &&& result.len() == rows * width
            &&& result[row * width + total(lengths, list) + offset] == values[list][row
                * lengths[list] + offset]
        }),
{
    lemma_joined_rows(values, lengths, rows, rows, row, list, offset);
}

proof fn lemma_joined_rows<T>(
    values: Seq<Seq<T>>,
    lengths: Seq<int>,
    rows: nat,
    count: nat,
    row: int,
    list: int,
    offset: int,
)
    requires
        values.len() == lengths.len(),
        count <= rows,
        forall|i: int|
            0 <= i < lengths.len() ==> 0 <= #[trigger] lengths[i] && values[i].len() == rows
                * lengths[i],
        0 <= list < lengths.len(),
        0 <= offset < lengths[list],
        0 <= row,
    ensures
        ({
            let width = total(lengths, lengths.len() as int);
            let result = joined_values(values, lengths, count);
            &&& result.len() == count * width
            &&& row < count ==> result[row * width + total(lengths, list) + offset]
                == values[list][row * lengths[list] + offset]
        }),
    decreases count,
{
    let width = total(lengths, lengths.len() as int);
    if count > 0 {
        let last = count - 1;
        lemma_joined_rows(values, lengths, rows, last as nat, row, list, offset);
        assert forall|i: int| 0 <= i < lengths.len() implies 0 <= #[trigger] lengths[i] && (last
            + 1) * lengths[i] <= values[i].len() by {
            lemma_scale(last + 1, rows as int, lengths[i]);
        }
        lemma_row(values, lengths, last, lengths.len());
        lemma_total(lengths, 0, list);
        lemma_total(lengths, list + 1, lengths.len() as int);
        assert(total(lengths, list + 1) == total(lengths, list) + lengths[list]);
        assert(count * width == last * width + width) by (nonlinear_arith)
            requires
                count == last + 1,
        ;
        let before = joined_values(values, lengths, last as nat);
        let piece = joined_row(values, lengths, last, lengths.len());
        let place = total(lengths, list) + offset;
        if row < last {
            lemma_row_bound(row, last, place, width);
            assert((before + piece)[row * width + place] == before[row * width + place]);
        } else if row == last {
            let value = values[list];
            assert((before + piece)[row * width + place] == piece[place]);
            assert(piece[total(lengths, list) + offset] == values[list][last * lengths[list]
                + offset]);
        }
    } else {
        assert(0 * width == 0);
    }
}

/// The sizes of tensors along a dimension.
pub open spec fn sizes<F>(inputs: Seq<TensorView<F>>, axis: int) -> Seq<int> {
    Seq::new(inputs.len(), |i: int| inputs[i].shape[axis] as int)
}

/// The shape of joined tensors.
proof fn lemma_shape<F>(inputs: Seq<TensorView<F>>, axis: int, count: nat)
    requires
        count <= inputs.len(),
        0 < inputs.len(),
        0 <= axis < inputs[0].shape.len(),
        joined_shape(inputs, axis, count) is Ok,
    ensures
        ({
            let shape = joined_shape(inputs, axis, count)->Ok_0;
            &&& shape.len() == inputs[0].shape.len()
            &&& shape[axis] == total(sizes(inputs, axis), count as int)
            &&& forall|d: int|
                0 <= d < shape.len() && d != axis ==> #[trigger] shape[d] == inputs[0].shape[d]
            &&& forall|i: int|
                0 <= i < count ==> (#[trigger] inputs[i]).shape.len() == inputs[0].shape.len()
            &&& forall|i: int, d: int|
                0 <= i < count && 0 <= d < shape.len() && d != axis
                    ==> #[trigger] inputs[i].shape[d] == inputs[0].shape[d]
        }),
    decreases count,
{
    if count > 0 {
        let last = count - 1;
        lemma_shape(inputs, axis, last as nat);
        let before = joined_shape(inputs, axis, last as nat)->Ok_0;
        let next = inputs[last].shape;
        assert(next.len() == before.len());
        assert forall|d: int| 0 <= d < before.len() && d != axis implies next[d] == before[d] by {
            let other = next[d];
        }
        assert(sizes(inputs, axis)[last] == next[axis]);
    }
}

/// What joining tensors is for: the sizes of the joined dimension add up, all others
/// are kept, and for each place of the dimensions before the joined one the values of
/// the tensors follow each other in the order of the tensors.
pub proof fn lemma_joined_tensors<F>(
    inputs: Seq<TensorView<F>>,
    axis: int,
    output: TensorView<F>,
    row: int,
    list: int,
    offset: int,
)
    requires
        forall|i: int| 0 <= i < inputs.len() ==> (#[trigger] inputs[i]).wf(),
        0 < inputs.len(),
        0 <= axis < inputs[0].shape.len(),
        joined(inputs, axis) == Ok::<TensorView<F>, TensorError>(output),
        inputs[0].data is F32,
        0 <= list < inputs.len(),
        0 <= row < product(output.shape.take(axis)),
        0 <= offset < product(inputs[list].shape.skip(axis)),
    ensures
        ({
            let lengths = Seq::new(inputs.len(), |i: int| product(inputs[i].shape.skip(axis)));
            let width = total(lengths, lengths.len() as int);
            &&& output.shape.len() == inputs[0].shape.len()
            &&& output.shape[axis] == total(sizes(inputs, axis), inputs.len() as int)
            &&& forall|d: int|
                0 <= d < output.shape.len() && d != axis ==> #[trigger] output.shape[d]
                    == inputs[list].shape[d]
            &&& output.data is F32
            &&& inputs[list].data is F32
            &&& output.data->F32_0.len() == product(output.shape.take(axis)) * width
            &&& output.data->F32_0[row * width + total(lengths, list) + offset]
                == inputs[list].data->F32_0[row * lengths[list] + offset]
        }),
{
    let lengths = Seq::new(inputs.len(), |i: int| product(inputs[i].shape.skip(axis)));
    let values = elements_of(inputs);
    lemma_shape(inputs, axis, inputs.len());
    let shape = joined_shape(inputs, axis, inputs.len())->Ok_0;
    let rows: int = product(shape.take(axis));
    assert(lengths =~= chunks_of(inputs, axis));
    assert forall|i: int| 0 <= i < lengths.len() implies 0 <= #[trigger] lengths[i]
        && values[i].len() == (rows as nat) * lengths[i] by {
        let tensor = inputs[i];
        assert(tensor.data is F32);
        lemma_wf_count(tensor);
        lemma_product_bounds(tensor.shape.skip(axis));
        lemma_product_split(tensor.shape, axis);
        assert forall|d: int| 0 <= d < axis implies tensor.shape.take(axis)[d] == shape.take(
            axis,
        )[d] by {
            assert(inputs[i].shape[d] == inputs[0].shape[d]);
            assert(shape[d] == inputs[0].shape[d]);
        }
        assert(tensor.shape.take(axis) =~= shape.take(axis));
    }
    lemma_joined_value(values, lengths, rows as nat, row, list, offset);
    assert forall|d: int| 0 <= d < output.shape.len() && d != axis implies #[trigger] output.shape[d]
        == inputs[list].shape[d] by {
        assert(inputs[list].shape[d] == inputs[0].shape[d]);
    }
}

} // verus!
