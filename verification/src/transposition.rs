//! Dimensions that are reordered and put back.
use vstd::prelude::*;
use crate::index::{lemma_decode, lemma_row_bound};
use crate::layout::{lemma_no_zero, lemma_wf_count, transposed};
use crate::permutation::{
    is_permutation, lemma_permutation_holds, lemma_product_reordered, lemma_reach_reordered,
    reordered,
};
use crate::shape::{
    gathered, lemma_product_bounds, lemma_product_skip, lemma_strides_count, product, reach,
    stride_of, strides_count, strides_of,
};
use crate::tensor::{DataView, TensorError, TensorView};
use crate::tensor_ops::{swapped, swapped_order};

verus! {

/// One more than each coordinate of a flat position.
spec fn coordinates(flat: int, shape: Seq<usize>) -> Seq<usize> {
    Seq::new(
        shape.len(),
        |d: int| (flat / stride_of(shape, d) % shape[d] as int + 1) as usize,
    )
}

/// The coordinates lie within the shape.
pub open spec fn within(places: Seq<usize>, shape: Seq<usize>) -> bool {
    &&& places.len() == shape.len()
    &&& forall|d: int| 0 <= d < shape.len() ==> 1 <= #[trigger] places[d] <= shape[d]
}

proof fn lemma_stride_positive(shape: Seq<usize>, d: int)
    requires
        0 <= d < shape.len(),
        forall|e: int| 0 <= e < shape.len() ==> #[trigger] shape[e] > 0,
    ensures
        stride_of(shape, d) > 0,
{
    let tail = shape.skip(d + 1);
    assert forall|e: int| 0 <= e < tail.len() implies #[trigger] tail[e] > 0 by {
        assert(tail[e] == shape[d + 1 + e]);
    }
    lemma_product_bounds(tail);
}

/// Coordinates of a flat position stand for it.
proof fn lemma_coordinates(flat: int, shape: Seq<usize>, from: int)
    requires
        0 <= from <= shape.len(),
        0 <= flat,
        strides_count(shape),
        forall|d: int| 0 <= d < shape.len() ==> #[trigger] shape[d] > 0,
    ensures
        reach(coordinates(flat, shape), strides_of(shape), from) == flat % product(
            shape.skip(from),
        ),
    decreases shape.len() - from,
{
    if from < shape.len() {
        let stride = stride_of(shape, from);
        let size: int = shape[from] as int;
        let places = coordinates(flat, shape);
        lemma_coordinates(flat, shape, from + 1);
        lemma_stride_positive(shape, from);
        lemma_product_skip(shape, from);
        vstd::arithmetic::div_mod::lemma_mod_breakdown(flat, stride, size);
        vstd::arithmetic::div_mod::lemma_mod_bound(flat / stride, size);
        assert(places[from] - 1 == flat / stride % size);
        assert(strides_of(shape)[from] == stride);
        assert(stride * (flat / stride % size) == (flat / stride % size) * stride)
            by (nonlinear_arith);
        assert(stride * size == size * stride) by (nonlinear_arith);
    } else {
        assert(shape.skip(from) =~= Seq::<usize>::empty());
    }
}

/// What coordinates stand for is taken apart into them.
pub proof fn lemma_gathered_places(places: Seq<usize>, shape: Seq<usize>, steps: Seq<usize>, from: int)
    requires
        0 <= from <= shape.len(),
        within(places, shape),
        steps.len() == shape.len(),
        strides_count(shape),
        forall|d: int| 0 <= d < shape.len() ==> #[trigger] shape[d] > 0,
    ensures
        0 <= reach(places, strides_of(shape), from) < product(shape.skip(from)),
        gathered(reach(places, strides_of(shape), from), strides_of(shape), steps, from) == reach(
            places,
            steps,
            from,
        ),
    decreases shape.len() - from,
{
    if from < shape.len() {
        lemma_gathered_places(places, shape, steps, from + 1);
        let stride = stride_of(shape, from);
        let rest = reach(places, strides_of(shape), from + 1);
        lemma_product_skip(shape, from);
        assert(strides_of(shape)[from] == stride);
        lemma_decode(places[from] - 1, rest, stride);
        lemma_row_bound(places[from] - 1, shape[from] as int, rest, stride);
    } else {
        assert(shape.skip(from) =~= Seq::<usize>::empty());
    }
}

/// The place of a value that was moved there and back is its own.
proof fn lemma_there_and_back(flat: int, shape: Seq<usize>, order: Seq<usize>, back: Seq<usize>)
    requires
        0 <= flat < product(shape),
        product(shape) <= usize::MAX,
        is_permutation(order, shape.len() as int),
        back.len() == shape.len(),
        forall|d: int| 0 <= d < shape.len() ==> back[#[trigger] order[d] as int] == d,
    ensures
        ({
            let other = reordered(shape, order);
            let moved = gathered(
                flat,
                strides_of(shape),
                reordered(strides_of(other), back),
                0,
            );
            &&& 0 <= moved < product(shape)
            &&& gathered(
                moved,
                strides_of(other),
                reordered(strides_of(shape), order),
                0,
            ) == flat
        }),
{
    let other = reordered(shape, order);
    let steps = reordered(strides_of(other), back);
    lemma_no_zero(shape);
    lemma_strides_count(shape);
    lemma_product_reordered(shape, order);
    assert forall|d: int| 0 <= d < other.len() implies #[trigger] other[d] > 0 by {
        assert(shape[order[d] as int] > 0);
    }
    lemma_strides_count(other);
    let places = coordinates(flat, shape);
    assert(within(places, shape)) by {
        assert forall|d: int| 0 <= d < shape.len() implies 1 <= #[trigger] places[d] <= shape[d] by {
            lemma_stride_positive(shape, d);
            vstd::arithmetic::div_mod::lemma_mod_bound(
                flat / stride_of(shape, d),
                shape[d] as int,
            );
        }
    }
    lemma_coordinates(flat, shape, 0);
    assert(shape.skip(0) =~= shape);
    vstd::arithmetic::div_mod::lemma_small_mod(flat as nat, product(shape) as nat);
    assert(reach(places, strides_of(shape), 0) == flat);
    lemma_gathered_places(places, shape, steps, 0);
    let moved = gathered(flat, strides_of(shape), steps, 0);
    assert(moved == reach(places, steps, 0));
    let other_places = reordered(places, order);
    lemma_reach_reordered(places, steps, order);
    assert(reordered(steps, order) =~= strides_of(other)) by {
        assert forall|d: int| 0 <= d < other.len() implies reordered(steps, order)[d]
            == #[trigger] strides_of(other)[d] by {
            assert(back[order[d] as int] == d);
        }
    }
    assert(moved == reach(other_places, strides_of(other), 0));
    assert(within(other_places, other)) by {
        assert forall|d: int| 0 <= d < other.len() implies 1 <= #[trigger] other_places[d]
            <= other[d] by {
            assert(1 <= places[order[d] as int] <= shape[order[d] as int]);
        }
    }
    let home = reordered(strides_of(shape), order);
    lemma_gathered_places(other_places, other, home, 0);
    assert(other.skip(0) =~= other);
    lemma_reach_reordered(places, strides_of(shape), order);
}

/// Reordering the dimensions of a tensor and putting them back gives the tensor.
pub proof fn lemma_transposed_back<F>(input: TensorView<F>, order: Seq<usize>, back: Seq<usize>)
    requires
        input.wf(),
        is_permutation(order, input.shape.len() as int),
        back.len() == input.shape.len(),
        forall|d: int| 0 <= d < input.shape.len() ==> back[#[trigger] order[d] as int] == d,
    ensures
        transposed(transposed(input, order), back) == input,
{
    let shape = input.shape;
    let there = transposed(input, order);
    let again = transposed(there, back);
    lemma_wf_count(input);
    assert(again.shape =~= shape) by {
        assert forall|d: int| 0 <= d < shape.len() implies again.shape[d] == #[trigger] shape[d] by {
            let at = lemma_permutation_holds(order, shape.len() as int, d);
            assert(back[order[at] as int] == at);
        }
    }
    assert forall|flat: int| 0 <= flat < input.data.len() implies {
        let moved = #[trigger] gathered(
            flat,
            strides_of(shape),
            reordered(strides_of(there.shape), back),
            0,
        );
        &&& 0 <= moved < input.data.len()
        &&& gathered(
            moved,
            strides_of(there.shape),
            reordered(strides_of(shape), order),
            0,
        ) == flat
    } by {
        lemma_there_and_back(flat, shape, order, back);
    }
    match input.data {
        DataView::F32(values) => {
            assert(again.data->F32_0 =~= values);
        },
        DataView::I64(values) => {
            assert(again.data->I64_0 =~= values);
        },
    }
}

/// Swapping two dimensions of a tensor twice gives the tensor.
pub proof fn lemma_swapped_twice<F>(input: TensorView<F>, first: int, second: int)
    requires
        input.wf(),
        0 <= first,
        0 <= second,
        swapped(input, first, second) is Ok,
        input.shape.len() <= usize::MAX,
    ensures
        swapped(swapped(input, first, second)->Ok_0, first, second) == Ok::<
            TensorView<F>,
            TensorError,
        >(input),
{
    let rank: int = input.shape.len() as int;
    let order = swapped_order(rank, first, second);
    let there = transposed(input, order);
    assert(swapped(input, first, second) == Ok::<TensorView<F>, TensorError>(there));
    lemma_transposed_back(input, order, order);
    assert(reordered(there.shape, order) =~= input.shape) by {
        assert(transposed(there, order).shape == input.shape);
    }
    assert(there.shape.len() == rank);
}

} // verus!
