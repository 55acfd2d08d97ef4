//! Permutations of dimensions, and sums and products over them.
use crate::shape::{product, reach};
use vstd::prelude::*;

verus! {

/// Every number below `count` occurs exactly once.
pub open spec fn is_permutation(order: Seq<usize>, count: int) -> bool {
    &&& order.len() == count
    &&& forall|d: int| 0 <= d < count ==> #[trigger] order[d] < count
    &&& forall|d: int, e: int|
        0 <= d < e < count ==> #[trigger] order[d] != #[trigger] order[e]
}

/// The sum, or the product, of the values of the numbers in a list.
spec fn combined(order: Seq<usize>, value: spec_fn(int) -> int, multiply: bool) -> int
    decreases order.len(),
{
    if order.len() == 0 {
        if multiply {
            1
        } else {
            0
        }
    } else {
        let before = combined(order.drop_last(), value, multiply);
        if multiply {
            before * value(order.last() as int)
        } else {
            before + value(order.last() as int)
        }
    }
}

/// The sum, or the product, of the values of the numbers below `count`.
spec fn combined_range(count: nat, value: spec_fn(int) -> int, multiply: bool) -> int
    decreases count,
{
    if count == 0 {
        if multiply {
            1
        } else {
            0
        }
    } else {
        let before = combined_range((count - 1) as nat, value, multiply);
        if multiply {
            before * value(count - 1)
        } else {
            before + value(count - 1)
        }
    }
}

proof fn lemma_combined_remove(
    order: Seq<usize>,
    value: spec_fn(int) -> int,
    multiply: bool,
    at: int,
)
    requires
        0 <= at < order.len(),
    ensures
        combined(order, value, multiply) == (if multiply {
            combined(order.remove(at), value, multiply) * value(order[at] as int)
        } else {
            combined(order.remove(at), value, multiply) + value(order[at] as int)
        }),
    decreases order.len(),
{
    if at == order.len() - 1 {
        assert(order.remove(at) =~= order.drop_last());
    } else {
        lemma_combined_remove(order.drop_last(), value, multiply, at);
        let rest = order.remove(at);
        assert(rest.drop_last() =~= order.drop_last().remove(at));
        assert(rest.last() == order.last());
        let a = combined(order.drop_last().remove(at), value, multiply);
        let b = value(order[at] as int);
        let c = value(order.last() as int);
        assert(a * b * c == a * c * b) by (nonlinear_arith);
    }
}

/// A permutation of the numbers below `count` holds each of them.
pub proof fn lemma_permutation_holds(order: Seq<usize>, count: int, number: int) -> (at: int)
    requires
        is_permutation(order, count),
        0 <= number < count,
    ensures
        0 <= at < count,
        order[at] == number,
{
    let numbers = order.map_values(|n: usize| n as int);
    assert(numbers.no_duplicates()) by {
        assert forall|i: int, j: int|
            0 <= i < numbers.len() && 0 <= j < numbers.len() && i != j implies numbers[i]
            != numbers[j] by {
            if i < j {
                assert(order[i] != order[j]);
            } else {
                assert(order[j] != order[i]);
            }
        }
    }
    numbers.unique_seq_to_set();
    let range = vstd::set_lib::set_int_range(0, count);
    vstd::set_lib::lemma_int_range(0, count);
    assert(numbers.to_set().subset_of(range)) by {
        assert forall|n: int| numbers.to_set().contains(n) implies range.contains(n) by {
            let i = choose|i: int| 0 <= i < numbers.len() && numbers[i] == n;
            assert(order[i] < count);
        }
    }
    vstd::set_lib::lemma_subset_equality(numbers.to_set(), range);
    assert(numbers.to_set().contains(number));
    choose|i: int| 0 <= i < numbers.len() && numbers[i] == number
}

proof fn lemma_combined_permutation(
    order: Seq<usize>,
    count: nat,
    value: spec_fn(int) -> int,
    multiply: bool,
)
    requires
        is_permutation(order, count as int),
    ensures
        combined(order, value, multiply) == combined_range(count, value, multiply),
    decreases count,
{
    if count > 0 {
        let at = lemma_permutation_holds(order, count as int, count - 1);
        let rest = order.remove(at);
        assert(is_permutation(rest, count - 1)) by {
            assert forall|d: int| 0 <= d < count - 1 implies #[trigger] rest[d] < count - 1 by {
                let source = if d < at {
                    d
                } else {
                    d + 1
                };
                assert(rest[d] == order[source]);
                if source < at {
                    assert(order[source] != order[at]);
                } else {
                    assert(order[at] != order[source]);
                }
            }
            assert forall|d: int, e: int| 0 <= d < e < count - 1 implies #[trigger] rest[d]
                != #[trigger] rest[e] by {
                let first = if d < at {
                    d
                } else {
                    d + 1
                };
                let second = if e < at {
                    e
                } else {
                    e + 1
                };
                assert(order[first] != order[second]);
            }
        }
        lemma_combined_permutation(rest, (count - 1) as nat, value, multiply);
        lemma_combined_remove(order, value, multiply, at);
    }
}

/// A list of values taken in the order of `order`.
pub open spec fn reordered(values: Seq<usize>, order: Seq<usize>) -> Seq<usize> {
    Seq::new(order.len(), |d: int| values[order[d] as int])
}

proof fn lemma_reordered_product(values: Seq<usize>, order: Seq<usize>)
    ensures
        product(reordered(values, order)) == combined(order, |j: int| values[j] as int, true),
    decreases order.len(),
{
    if order.len() > 0 {
        lemma_reordered_product(values, order.drop_last());
        assert(reordered(values, order).drop_last() =~= reordered(values, order.drop_last()));
    }
}

proof fn lemma_range_product(values: Seq<usize>, count: nat)
    requires
        count <= values.len(),
    ensures
        product(values.take(count as int)) == combined_range(
            count,
            |j: int| values[j] as int,
            true,
        ),
    decreases count,
{
    if count > 0 {
        lemma_range_product(values, (count - 1) as nat);
        assert(values.take(count as int).drop_last() =~= values.take(count - 1));
    }
}

/// Reordering the dimensions of a shape keeps its element count.
pub proof fn lemma_product_reordered(values: Seq<usize>, order: Seq<usize>)
    requires
        is_permutation(order, values.len() as int),
    ensures
        product(reordered(values, order)) == product(values),
{
    lemma_reordered_product(values, order);
    lemma_combined_permutation(order, values.len(), |j: int| values[j] as int, true);
    lemma_range_product(values, values.len());
    assert(values.take(values.len() as int) =~= values);
}

/// How far one dimension reaches.
spec fn extent(shape: Seq<usize>, steps: Seq<usize>) -> spec_fn(int) -> int {
    |j: int| (shape[j] - 1) * steps[j]
}

proof fn lemma_reach_range(shape: Seq<usize>, steps: Seq<usize>, from: nat)
    requires
        from <= shape.len(),
        steps.len() == shape.len(),
    ensures
        reach(shape, steps, 0) == combined_range(from, extent(shape, steps), false) + reach(
            shape,
            steps,
            from as int,
        ),
    decreases from,
{
    if from > 0 {
        lemma_reach_range(shape, steps, (from - 1) as nat);
    }
}

proof fn lemma_reach_reordered_list(
    shape: Seq<usize>,
    steps: Seq<usize>,
    order: Seq<usize>,
    count: nat,
)
    requires
        count <= order.len(),
    ensures
        combined_range(
            count,
            extent(reordered(shape, order), reordered(steps, order)),
            false,
        ) == combined(order.take(count as int), extent(shape, steps), false),
    decreases count,
{
    if count > 0 {
        lemma_reach_reordered_list(shape, steps, order, (count - 1) as nat);
        assert(order.take(count as int).drop_last() =~= order.take(count - 1));
    }
}

/// Reordering the dimensions of a shape together with their steps keeps how far
/// the coordinates reach.
pub proof fn lemma_reach_reordered(shape: Seq<usize>, steps: Seq<usize>, order: Seq<usize>)
    requires
        is_permutation(order, shape.len() as int),
        steps.len() == shape.len(),
    ensures
        reach(reordered(shape, order), reordered(steps, order), 0) == reach(shape, steps, 0),
{
    let count = shape.len();
    lemma_reach_range(shape, steps, count);
    lemma_reach_range(reordered(shape, order), reordered(steps, order), count);
    lemma_reach_reordered_list(shape, steps, order, count);
    assert(order.take(count as int) =~= order);
    lemma_combined_permutation(order, count, extent(shape, steps), false);
}

} // verus!
