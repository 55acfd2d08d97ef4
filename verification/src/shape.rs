//! Shapes of row-major tensors: element counts, strides and coordinates.
use crate::index::{lemma_encode, lemma_scale};
use vstd::prelude::*;

verus! {

/// The product of all dimensions.
pub open spec fn product(shape: Seq<usize>) -> int
    decreases shape.len(),
{
    if shape.len() == 0 {
        1
    } else {
        product(shape.drop_last()) * shape.last()
    }
}

/// The product of every leading part of the shape can be counted.
pub open spec fn counts(shape: Seq<usize>) -> bool {
    forall|k: int| 0 <= k <= shape.len() ==> #[trigger] product(shape.take(k)) <= usize::MAX
}

/// The number of elements of a shape, where every leading part can be counted.
pub open spec fn count_of(shape: Seq<usize>) -> Option<usize> {
    if counts(shape) {
        Some(product(shape) as usize)
    } else {
        None
    }
}

/// The distance of two neighbours along a dimension of a row-major tensor.
pub open spec fn stride_of(shape: Seq<usize>, dimension: int) -> int {
    product(shape.skip(dimension + 1))
}

/// The strides of all dimensions can be counted.
pub open spec fn strides_count(shape: Seq<usize>) -> bool {
    forall|d: int| 0 <= d < shape.len() ==> #[trigger] stride_of(shape, d) <= usize::MAX
}

/// The strides of a row-major tensor.
pub open spec fn strides_of(shape: Seq<usize>) -> Seq<usize> {
    Seq::new(shape.len(), |d: int| stride_of(shape, d) as usize)
}

pub proof fn lemma_product_bounds(shape: Seq<usize>)
    ensures
        0 <= product(shape),
        (forall|d: int| 0 <= d < shape.len() ==> #[trigger] shape[d] > 0) ==> product(shape) > 0,
    decreases shape.len(),
{
    if shape.len() > 0 {
        lemma_product_bounds(shape.drop_last());
        lemma_scale(0, shape.last() as int, product(shape.drop_last()));
        assert(shape.last() * product(shape.drop_last()) == product(shape.drop_last())
            * shape.last()) by (nonlinear_arith);
        if forall|d: int| 0 <= d < shape.len() ==> #[trigger] shape[d] > 0 {
            assert forall|d: int| 0 <= d < shape.drop_last().len() implies #[trigger] shape.drop_last()[d]
                > 0 by {
                assert(shape.drop_last()[d] == shape[d]);
            }
            assert(shape[shape.len() - 1] > 0);
            lemma_scale(1, shape.last() as int, product(shape.drop_last()));
        }
    }
}

/// The element count of two joined shapes is the product of their counts.
pub proof fn lemma_product_concat(first: Seq<usize>, second: Seq<usize>)
    ensures
        product(first + second) == product(first) * product(second),
    decreases second.len(),
{
    if second.len() == 0 {
        assert(first + second =~= first);
    } else {
        lemma_product_concat(first, second.drop_last());
        assert((first + second).drop_last() =~= first + second.drop_last());
        assert((first + second).last() == second.last());
        assert(product(first) * product(second.drop_last()) * second.last() == product(first) * (
        product(second.drop_last()) * second.last())) by (nonlinear_arith);
    }
}

/// The element count of a shape that is split in front of a dimension.
pub proof fn lemma_product_split(shape: Seq<usize>, at: int)
    requires
        0 <= at <= shape.len(),
    ensures
        product(shape) == product(shape.take(at)) * product(shape.skip(at)),
{
    lemma_product_concat(shape.take(at), shape.skip(at));
    assert(shape.take(at) + shape.skip(at) =~= shape);
}

/// The element count behind a dimension is that dimension times the count behind
/// the next one.
pub proof fn lemma_product_skip(shape: Seq<usize>, at: int)
    requires
        0 <= at < shape.len(),
    ensures
        product(shape.skip(at)) == shape[at] * stride_of(shape, at),
        0 <= stride_of(shape, at),
{
    let single = seq![shape[at]];
    lemma_product_concat(single, shape.skip(at + 1));
    assert(single + shape.skip(at + 1) =~= shape.skip(at));
    assert(single.drop_last() =~= Seq::<usize>::empty());
    assert(product(single) == shape[at]) by {
        assert(product(single.drop_last()) == 1);
        assert(1 * single.last() == single.last()) by (nonlinear_arith);
    }
    lemma_product_bounds(shape.skip(at + 1));
}

/// A shape without a zero whose elements can be counted has strides that can be
/// counted.
pub proof fn lemma_strides_count(shape: Seq<usize>)
    requires
        product(shape) <= usize::MAX,
        forall|d: int| 0 <= d < shape.len() ==> #[trigger] shape[d] > 0,
    ensures
        strides_count(shape),
{
    assert forall|d: int| 0 <= d < shape.len() implies #[trigger] stride_of(shape, d)
        <= usize::MAX by {
        lemma_product_split(shape, d + 1);
        let head = shape.take(d + 1);
        assert forall|e: int| 0 <= e < head.len() implies #[trigger] head[e] > 0 by {
            assert(head[e] == shape[e]);
        }
        lemma_product_bounds(head);
        lemma_product_bounds(shape.skip(d + 1));
        lemma_scale(1, product(head), stride_of(shape, d));
    }
}

/// The number of elements of a shape, unless a leading part of the shape has too
/// many.
pub fn element_count(shape: &[usize]) -> (result: Option<usize>)
    ensures
        result == count_of(shape@),
{
    let mut size: usize = 1;
    for index in 0..shape.len()
        invariant
            size == product(shape@.take(index as int)),
            forall|k: int|
                0 <= k <= index ==> #[trigger] product(shape@.take(k)) <= usize::MAX,
    {
        proof {
            assert(shape@.take(index + 1).drop_last() =~= shape@.take(index as int));
            assert(shape@.take(index + 1).last() == shape@[index as int]);
        }
        match size.checked_mul(shape[index]) {
            Some(value) => {
                size = value;
            },
            None => {
                proof {
                    assert(product(shape@.take(index + 1)) > usize::MAX);
                    assert(!counts(shape@));
                }
                return None;
            },
        }
    }
    assert(shape@.take(shape@.len() as int) =~= shape@);
    Some(size)
}

/// The strides of a row-major tensor.
pub fn strides(shape: &[usize]) -> (result: Vec<usize>)
    requires
        strides_count(shape@),
    ensures
        result@ == strides_of(shape@),
{
    let rank: usize = shape.len();
    let mut result: Vec<usize> = Vec::with_capacity(rank);
    for _index in 0..rank
        invariant
            result@.len() == _index,
    {
        result.push(1);
    }
    let mut index: usize = rank;
    proof {
        if rank > 0 {
            assert(shape@.skip(rank as int) =~= Seq::<usize>::empty());
        }
    }
    while index > 0
        invariant
            rank == shape@.len(),
            strides_count(shape@),
            result@.len() == rank,
            index <= rank,
            forall|d: int|
                index <= d < rank ==> #[trigger] result@[d] == stride_of(shape@, d),
        decreases index,
    {
        index = index - 1;
        if index + 1 < rank {
            proof {
                lemma_product_skip(shape@, index + 1);
                assert(result@[index + 1] == stride_of(shape@, index + 1));
                assert(stride_of(shape@, index as int) <= usize::MAX);
                assert(shape@[index + 1] * stride_of(shape@, index + 1) == stride_of(
                    shape@,
                    index + 1,
                ) * shape@[index + 1]) by (nonlinear_arith);
            }
            let value: usize = result[index + 1] * shape[index + 1];
            result.set(index, value);
        } else {
            proof {
                assert(shape@.skip(index + 1) =~= Seq::<usize>::empty());
            }
            result.set(index, 1);
        }
    }
    assert(result@ =~= strides_of(shape@)) by {
        assert forall|d: int| 0 <= d < rank implies result@[d] == strides_of(shape@)[d] by {
            assert(result@[d] == stride_of(shape@, d));
        }
    }
    result
}

/// The place that is reached from a flat position by taking its coordinates, from
/// dimension `from` on, with other steps.
pub open spec fn gathered(
    flat: int,
    strides: Seq<usize>,
    steps: Seq<usize>,
    from: int,
) -> int
    decreases strides.len() - from,
{
    if from < 0 || from >= strides.len() {
        0
    } else {
        flat / strides[from] as int * steps[from] + gathered(
            flat % strides[from] as int,
            strides,
            steps,
            from + 1,
        )
    }
}

/// The largest place that coordinates below a shape reach with given steps, from
/// dimension `from` on.
pub open spec fn reach(shape: Seq<usize>, steps: Seq<usize>, from: int) -> int
    decreases shape.len() - from,
{
    if from < 0 || from >= shape.len() {
        0
    } else {
        (shape[from] - 1) * steps[from] + reach(shape, steps, from + 1)
    }
}

/// Places stay within the reach of the shape.
pub proof fn lemma_gathered_bound(flat: int, shape: Seq<usize>, steps: Seq<usize>, from: int)
    requires
        0 <= from <= shape.len(),
        steps.len() == shape.len(),
        strides_count(shape),
        forall|d: int| 0 <= d < shape.len() ==> #[trigger] shape[d] > 0,
        0 <= flat < product(shape.skip(from)),
    ensures
        0 <= gathered(flat, strides_of(shape), steps, from) <= reach(shape, steps, from),
        from < shape.len() ==> 0 < stride_of(shape, from),
        from < shape.len() ==> 0 <= flat / stride_of(shape, from) < shape[from],
        from < shape.len() ==> 0 <= flat % stride_of(shape, from) < product(shape.skip(from + 1)),
        from < shape.len() ==> 0 <= flat / stride_of(shape, from) * steps[from],
    decreases shape.len() - from,
{
    if from < shape.len() {
        let stride = stride_of(shape, from);
        lemma_product_skip(shape, from);
        let tail = shape.skip(from + 1);
        assert forall|e: int| 0 <= e < tail.len() implies #[trigger] tail[e] > 0 by {
            assert(tail[e] == shape[from + 1 + e]);
        }
        lemma_product_bounds(tail);
        lemma_encode(flat, stride);
        let coordinate = flat / stride;
        assert(coordinate < shape[from]) by {
            if coordinate >= shape[from] {
                lemma_scale(shape[from] as int, coordinate, stride);
            }
        }
        assert(strides_of(shape)[from] == stride);
        lemma_gathered_bound(flat % stride, shape, steps, from + 1);
        lemma_scale(coordinate, shape[from] - 1, steps[from] as int);
        lemma_scale(0, coordinate, steps[from] as int);
    }
}

/// The places of the row-major strides themselves reach the last element.
pub proof fn lemma_reach_row_major(shape: Seq<usize>, from: int)
    requires
        0 <= from <= shape.len(),
        strides_count(shape),
    ensures
        reach(shape, strides_of(shape), from) == product(shape.skip(from)) - 1,
    decreases shape.len() - from,
{
    if from < shape.len() {
        lemma_reach_row_major(shape, from + 1);
        lemma_product_skip(shape, from);
        assert(strides_of(shape)[from] == stride_of(shape, from));
        assert((shape[from] - 1) * stride_of(shape, from) == shape[from] * stride_of(shape, from)
            - stride_of(shape, from)) by (nonlinear_arith);
    } else {
        assert(shape.skip(from) =~= Seq::<usize>::empty());
    }
}

/// Taking the coordinates of a flat position with other steps.
pub fn gather_index(
    flat: usize,
    shape: &[usize],
    shape_strides: &[usize],
    steps: &[usize],
) -> (result: usize)
    requires
        strides_count(shape@),
        shape_strides@ == strides_of(shape@),
        steps@.len() == shape@.len(),
        forall|d: int| 0 <= d < shape@.len() ==> #[trigger] shape@[d] > 0,
        flat < product(shape@),
        reach(shape@, steps@, 0) <= usize::MAX,
    ensures
        result == gathered(flat as int, shape_strides@, steps@, 0),
        result <= reach(shape@, steps@, 0),
{
    let mut remainder: usize = flat;
    let mut index: usize = 0;
    proof {
        assert(shape@.skip(0) =~= shape@);
        lemma_gathered_bound(flat as int, shape@, steps@, 0);
    }
    for dimension in 0..shape.len()
        invariant
            strides_count(shape@),
            shape_strides@ == strides_of(shape@),
            steps@.len() == shape@.len(),
            forall|d: int| 0 <= d < shape@.len() ==> #[trigger] shape@[d] > 0,
            reach(shape@, steps@, 0) <= usize::MAX,
            0 <= remainder < product(shape@.skip(dimension as int)),
            index + gathered(remainder as int, shape_strides@, steps@, dimension as int)
                == gathered(flat as int, shape_strides@, steps@, 0),
            gathered(flat as int, shape_strides@, steps@, 0) <= reach(shape@, steps@, 0),
    {
        proof {
            lemma_gathered_bound(remainder as int, shape@, steps@, dimension as int);
            lemma_gathered_bound(
                remainder as int % stride_of(shape@, dimension as int),
                shape@,
                steps@,
                dimension + 1,
            );
            assert(shape_strides@[dimension as int] == stride_of(shape@, dimension as int));
        }
        let coordinate: usize = remainder / shape_strides[dimension];
        remainder = remainder % shape_strides[dimension];
        index = index + coordinate * steps[dimension];
    }
    index
}

/// A list of numbers that runs through a shape: what a function gives a shape
/// from.
pub trait IntoShape: Sized {
    /// The dimensions.
    spec fn dimensions(self) -> Seq<usize>;

    /// Lists the dimensions.
    fn into_shape(self) -> (result: Vec<usize>)
        ensures
            result@ == self.dimensions(),
    ;
}

impl IntoShape for usize {
    open spec fn dimensions(self) -> Seq<usize> {
        seq![self]
    }

    fn into_shape(self) -> (result: Vec<usize>) {
        let mut shape: Vec<usize> = Vec::new();
        shape.push(self);
        assert(shape@ =~= seq![self]);
        shape
    }
}

impl IntoShape for Vec<usize> {
    open spec fn dimensions(self) -> Seq<usize> {
        self@
    }

    fn into_shape(self) -> (result: Vec<usize>) {
        self
    }
}

impl IntoShape for &[usize] {
    open spec fn dimensions(self) -> Seq<usize> {
        self@
    }

    fn into_shape(self) -> (result: Vec<usize>) {
        vstd::slice::slice_to_vec(self)
    }
}

impl<const N: usize> IntoShape for [usize; N] {
    open spec fn dimensions(self) -> Seq<usize> {
        self@
    }

    fn into_shape(self) -> (result: Vec<usize>) {
        let mut shape: Vec<usize> = Vec::with_capacity(N);
        for index in 0..N
            invariant
                shape@ == self@.take(index as int),
        {
            shape.push(self[index]);
            assert(shape@ =~= self@.take(index + 1));
        }
        assert(self@.take(N as int) =~= self@);
        shape
    }
}

impl IntoShape for (usize,) {
    open spec fn dimensions(self) -> Seq<usize> {
        seq![self.0]
    }

    fn into_shape(self) -> (result: Vec<usize>) {
        [self.0].into_shape()
    }
}

impl IntoShape for (usize, usize) {
    open spec fn dimensions(self) -> Seq<usize> {
        seq![self.0, self.1]
    }

    fn into_shape(self) -> (result: Vec<usize>) {
        let result: Vec<usize> = [self.0, self.1].into_shape();
        assert(result@ =~= seq![self.0, self.1]);
        result
    }
}

impl IntoShape for (usize, usize, usize) {
    open spec fn dimensions(self) -> Seq<usize> {
        seq![self.0, self.1, self.2]
    }

    fn into_shape(self) -> (result: Vec<usize>) {
        let result: Vec<usize> = [self.0, self.1, self.2].into_shape();
        assert(result@ =~= seq![self.0, self.1, self.2]);
        result
    }
}

impl IntoShape for (usize, usize, usize, usize) {
    open spec fn dimensions(self) -> Seq<usize> {
        seq![self.0, self.1, self.2, self.3]
    }

    fn into_shape(self) -> (result: Vec<usize>) {
        let result: Vec<usize> = [self.0, self.1, self.2, self.3].into_shape();
        assert(result@ =~= seq![self.0, self.1, self.2, self.3]);
        result
    }
}

impl IntoShape for (usize, usize, usize, usize, usize) {
    open spec fn dimensions(self) -> Seq<usize> {
        seq![self.0, self.1, self.2, self.3, self.4]
    }

    fn into_shape(self) -> (result: Vec<usize>) {
        let result: Vec<usize> = [self.0, self.1, self.2, self.3, self.4].into_shape();
        assert(result@ =~= seq![self.0, self.1, self.2, self.3, self.4]);
        result
    }
}

} // verus!
