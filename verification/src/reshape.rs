//! Operations that keep the values of a tensor and change its shape.
use crate::layout::{agrees, all_wf, axes_of, lemma_wf_count, normalize_axes, views};
use crate::shape::{count_of, counts, element_count, product};
use crate::tensor::{DataView, Tensor, TensorError, TensorView};
use vstd::prelude::*;

verus! {

/// What the leading part of a requested shape asks for.
pub struct Request {
    /// The dimensions, with one in place of the dimension to be inferred.
    pub shape: Seq<usize>,
    /// The place of the dimension to be inferred.
    pub inferred: Option<int>,
    /// The product of the other dimensions.
    pub known: int,
}

/// Reads the first `count` numbers of a requested shape. A zero keeps the
/// dimension of the input, minus one stands for the dimension to be inferred.
pub open spec fn request_of(
    requested: Seq<i64>,
    input: Seq<usize>,
    count: nat,
) -> Result<Request, TensorError>
    decreases count,
{
    if count == 0 {
        Ok(Request { shape: Seq::empty(), inferred: None, known: 1 })
    } else {
        let index = count - 1;
        match request_of(requested, input, index as nat) {
            Err(error) => Err(error),
            Ok(before) => if requested[index] == -1 {
                if before.inferred is Some {
                    Err(TensorError::Reshape)
                } else {
                    Ok(
                        Request {
                            shape: before.shape.push(1),
                            inferred: Some(index),
                            known: before.known,
                        },
                    )
                }
            } else if requested[index] < 0 || (requested[index] == 0 && index >= input.len()) {
                Err(TensorError::Reshape)
            } else if requested[index] > usize::MAX {
                Err(TensorError::DimensionRange)
            } else {
                let size: int = if requested[index] == 0 {
                    input[index] as int
                } else {
                    requested[index] as int
                };
                if before.known * size > usize::MAX {
                    Err(TensorError::ShapeOverflow)
                } else {
                    Ok(
                        Request {
                            shape: before.shape.push(size as usize),
                            inferred: before.inferred,
                            known: before.known * size,
                        },
                    )
                }
            },
        }
    }
}

/// The shape that a request comes to for a number of elements.
pub open spec fn resolved(request: Request, len: int) -> Result<Seq<usize>, TensorError> {
    match request.inferred {
        None => Ok(request.shape),
        Some(index) => if request.known == 0 || len % request.known != 0 {
            Err(TensorError::Reshape)
        } else {
            Ok(request.shape.update(index, (len / request.known) as usize))
        },
    }
}

/// The tensor with a requested shape.
pub open spec fn reshaped<F>(
    input: TensorView<F>,
    requested: Seq<i64>,
) -> Result<TensorView<F>, TensorError> {
    match request_of(requested, input.shape, requested.len()) {
        Err(error) => Err(error),
        Ok(request) => match resolved(request, input.data.len() as int) {
            Err(error) => Err(error),
            Ok(shape) => if count_of(shape) == Some(input.data.len() as usize) {
                Ok(TensorView { shape, data: input.data })
            } else {
                Err(TensorError::ShapeMismatch)
            },
        },
    }
}

/// The tensor with the shape that the second input requests.
pub open spec fn reshape_result<F>(inputs: Seq<TensorView<F>>) -> Result<
    TensorView<F>,
    TensorError,
> {
    if inputs.len() != 2 {
        Err(TensorError::InputCount)
    } else {
        match inputs[1].data {
            DataView::F32(_) => Err(TensorError::ExpectedI64),
            DataView::I64(requested) => reshaped(inputs[0], requested),
        }
    }
}

/// A request that is refused stays refused.
proof fn lemma_request_error(
    requested: Seq<i64>,
    input: Seq<usize>,
    count: nat,
    error: TensorError,
)
    requires
        count <= requested.len(),
        request_of(requested, input, count) == Err::<Request, TensorError>(error),
    ensures
        request_of(requested, input, requested.len()) == Err::<Request, TensorError>(error),
    decreases requested.len() - count,
{
    if count < requested.len() {
        lemma_request_error(requested, input, count + 1, error);
    }
}

/// Gives a tensor the requested shape.
pub fn reshape_to<F: Copy>(input: &Tensor<F>, requested: &[i64]) -> (result: Result<
    Tensor<F>,
    TensorError,
>)
    requires
        input@.wf(),
    ensures
        agrees(result, reshaped(input@, requested@)),
{
    let source: &[usize] = input.shape();
    let len: usize = input.len();
    let mut shape: Vec<usize> = Vec::with_capacity(requested.len());
    let mut inferred: Option<usize> = None;
    let mut known: usize = 1;
    for index in 0..requested.len()
        invariant
            source@ == input@.shape,
            shape@.len() == index,
            inferred matches Some(at) ==> at < index,
            request_of(requested@, source@, index as nat) == Ok::<Request, TensorError>(
                Request {
                    shape: shape@,
                    inferred: match inferred {
                        Some(at) => Some(at as int),
                        None => None,
                    },
                    known: known as int,
                },
            ),
    {
        let dimension: i64 = requested[index];
        if dimension == -1 {
            if inferred.is_some() {
                proof {
                    lemma_request_error(
                        requested@,
                        source@,
                        (index + 1) as nat,
                        TensorError::Reshape,
                    );
                }
                return Err(TensorError::Reshape);
            }
            inferred = Some(index);
            shape.push(1);
        } else if dimension < 0 || (dimension == 0 && index >= source.len()) {
            proof {
                lemma_request_error(requested@, source@, (index + 1) as nat, TensorError::Reshape);
            }
            return Err(TensorError::Reshape);
        } else if dimension as u64 > usize::MAX as u64 {
            proof {
                lemma_request_error(
                    requested@,
                    source@,
                    (index + 1) as nat,
                    TensorError::DimensionRange,
                );
            }
            return Err(TensorError::DimensionRange);
        } else {
            let size: usize = if dimension == 0 {
                source[index]
            } else {
                dimension as usize
            };
            match known.checked_mul(size) {
                None => {
                    proof {
                        lemma_request_error(
                            requested@,
                            source@,
                            (index + 1) as nat,
                            TensorError::ShapeOverflow,
                        );
                    }
                    return Err(TensorError::ShapeOverflow);
                },
                Some(value) => {
                    known = value;
                },
            }
            shape.push(size);
        }
    }
    if let Some(index) = inferred {
        if known == 0 || len % known != 0 {
            return Err(TensorError::Reshape);
        }
        shape.set(index, len / known);
    }
    match element_count(shape.as_slice()) {
        Some(count) => {
            if count == len {
                Ok(input.with_shape(shape))
            } else {
                Err(TensorError::ShapeMismatch)
            }
        },
        None => Err(TensorError::ShapeMismatch),
    }
}

/// Gives the first input the shape that the second one requests.
pub fn reshape<F: Copy>(inputs: &[Tensor<F>]) -> (result: Result<Tensor<F>, TensorError>)
    requires
        all_wf(inputs@),
    ensures
        agrees(result, reshape_result(views(inputs@))),
{
    if inputs.len() != 2 {
        return Err(TensorError::InputCount);
    }
    assert(views(inputs@)[0] == inputs@[0]@);
    assert(views(inputs@)[1] == inputs@[1]@);
    match inputs[1].as_i64() {
        Err(error) => Err(error),
        Ok(requested) => reshape_to(&inputs[0], requested),
    }
}

/// Which dimensions are named by axes.
pub open spec fn marks(axes: Seq<usize>, rank: int) -> Seq<bool> {
    Seq::new(rank as nat, |d: int| axes.contains(d as usize))
}

/// The number of dimensions below `count` that are not marked.
pub open spec fn unmarked(marked: Seq<bool>, count: nat) -> nat
    decreases count,
{
    if count == 0 {
        0
    } else {
        unmarked(marked, (count - 1) as nat) + (if marked[count - 1] {
            0nat
        } else {
            1nat
        })
    }
}

/// The first `count` dimensions that are not marked.
pub open spec fn without_marked(shape: Seq<usize>, marked: Seq<bool>, count: nat) -> Seq<usize>
    decreases count,
{
    if count == 0 {
        Seq::empty()
    } else if marked[count - 1] {
        without_marked(shape, marked, (count - 1) as nat)
    } else {
        without_marked(shape, marked, (count - 1) as nat).push(shape[count - 1])
    }
}

/// The first `count` dimensions of a shape in which marked places hold one and
/// the others hold the given dimensions in order.
pub open spec fn with_marked(shape: Seq<usize>, marked: Seq<bool>, count: nat) -> Seq<usize>
    decreases count,
{
    if count == 0 {
        Seq::empty()
    } else {
        let before = with_marked(shape, marked, (count - 1) as nat);
        if marked[count - 1] {
            before.push(1)
        } else {
            before.push(shape[unmarked(marked, (count - 1) as nat) as int])
        }
    }
}

/// Marks the dimensions that axes name.
pub fn mark_axes(axes: &[usize], rank: usize) -> (marked: Vec<bool>)
    requires
        forall|i: int| 0 <= i < axes@.len() ==> #[trigger] axes@[i] < rank,
    ensures
        marked@ == marks(axes@, rank as int),
{
    let mut marked: Vec<bool> = Vec::with_capacity(rank);
    for _index in 0..rank
        invariant
            marked@.len() == _index,
            forall|d: int| 0 <= d < _index ==> #[trigger] marked@[d] == false,
    {
        marked.push(false);
    }
    for index in 0..axes.len()
        invariant
            marked@.len() == rank,
            forall|i: int| 0 <= i < axes@.len() ==> #[trigger] axes@[i] < rank,
            forall|d: int|
                0 <= d < rank ==> #[trigger] marked@[d] == axes@.take(index as int).contains(
                    d as usize,
                ),
    {
        let ghost before = marked@;
        assert(axes@[index as int] < rank);
        let axis: usize = axes[index];
        marked.set(axis, true);
        proof {
            let grown = axes@.take(index + 1);
            assert forall|d: int| 0 <= d < rank implies #[trigger] marked@[d] == grown.contains(
                d as usize,
            ) by {
                if d == axis {
                    assert(grown[index as int] == d as usize);
                } else {
                    if before[d] {
                        let i = choose|i: int|
                            0 <= i < axes@.take(index as int).len() && axes@.take(
                                index as int,
                            )[i] == d as usize;
                        assert(grown[i] == d as usize);
                    }
                    if grown.contains(d as usize) {
                        let i = choose|i: int| 0 <= i < grown.len() && grown[i] == d as usize;
                        assert(axes@.take(index as int)[i] == d as usize);
                    }
                }
            }
        }
    }
    proof {
        assert(axes@.take(axes@.len() as int) =~= axes@);
        assert(marked@ =~= marks(axes@, rank as int));
    }
    marked
}

/// The axes of an operation: the second input's, where there is one, else the
/// attribute's.
pub open spec fn requested_axes<F>(
    inputs: Seq<TensorView<F>>,
    attribute: Seq<i64>,
) -> Result<Seq<i64>, TensorError> {
    if inputs.len() == 2 {
        match inputs[1].data {
            DataView::I64(values) => Ok(values),
            DataView::F32(_) => Err(TensorError::ExpectedI64),
        }
    } else {
        Ok(attribute)
    }
}

/// The tensor without the dimensions that axes name, or without all dimensions of
/// one where there are no axes.
pub open spec fn squeezed<F>(input: TensorView<F>, axes: Seq<i64>) -> Result<
    TensorView<F>,
    TensorError,
> {
    let rank = input.shape.len();
    match axes_of(axes, rank as int) {
        Err(error) => Err(error),
        Ok(dimensions) => if dimensions.len() == 0 {
            Ok(
                TensorView {
                    shape: without_marked(
                        input.shape,
                        Seq::new(rank, |d: int| input.shape[d] == 1),
                        rank,
                    ),
                    data: input.data,
                },
            )
        } else if exists|i: int|
            0 <= i < dimensions.len() && input.shape[#[trigger] dimensions[i] as int] != 1 {
            Err(TensorError::Squeeze)
        } else {
            Ok(
                TensorView {
                    shape: without_marked(input.shape, marks(dimensions, rank as int), rank),
                    data: input.data,
                },
            )
        },
    }
}

/// Dropping dimensions of one keeps the element count.
proof fn lemma_without_ones(shape: Seq<usize>, marked: Seq<bool>, count: nat)
    requires
        count <= shape.len(),
        marked.len() == shape.len(),
        forall|d: int| 0 <= d < shape.len() && #[trigger] marked[d] ==> shape[d] == 1,
    ensures
        product(without_marked(shape, marked, count)) == product(shape.take(count as int)),
        counts(shape) ==> counts(without_marked(shape, marked, count)),
    decreases count,
{
    if count == 0 {
        assert(shape.take(0) =~= Seq::<usize>::empty());
        let none = Seq::<usize>::empty();
        assert forall|k: int| 0 <= k <= none.len() implies #[trigger] product(none.take(k))
            <= usize::MAX by {
            assert(none.take(k) =~= none);
        }
    } else {
        let before = without_marked(shape, marked, (count - 1) as nat);
        lemma_without_ones(shape, marked, (count - 1) as nat);
        let part = shape.take(count as int);
        assert(part.drop_last() =~= shape.take(count - 1));
        assert(part.last() == shape[count - 1]);
        if marked[count - 1] {
            let p = product(part.drop_last());
            assert(p * 1 == p) by (nonlinear_arith);
        } else {
            let after = before.push(shape[count - 1]);
            assert(after.drop_last() =~= before);
            if counts(shape) {
                assert forall|k: int| 0 <= k <= after.len() implies #[trigger] product(
                    after.take(k),
                ) <= usize::MAX by {
                    if k <= before.len() {
                        assert(after.take(k) =~= before.take(k));
                    } else {
                        assert(after.take(k) =~= after);
                        assert(product(shape.take(count as int)) <= usize::MAX);
                    }
                }
            }
        }
    }
}

/// Removes dimensions of one from a tensor.
pub fn squeeze_axes<F: Copy>(input: &Tensor<F>, axes: &[i64]) -> (result: Result<
    Tensor<F>,
    TensorError,
>)
    requires
        input@.wf(),
    ensures
        agrees(result, squeezed(input@, axes@)),
{
    let source: &[usize] = input.shape();
    let rank: usize = source.len();
    let dimensions: Vec<usize> = match normalize_axes(axes, rank) {
        Err(error) => {
            return Err(error);
        },
        Ok(dimensions) => dimensions,
    };
    let mut marked: Vec<bool> = Vec::with_capacity(rank);
    if dimensions.len() == 0 {
        for index in 0..rank
            invariant
                rank == source@.len(),
                marked@.len() == index,
                forall|d: int| 0 <= d < index ==> #[trigger] marked@[d] == (source@[d] == 1),
        {
            marked.push(source[index] == 1);
        }
        assert(marked@ =~= Seq::new(rank as nat, |d: int| source@[d] == 1));
    } else {
        for index in 0..dimensions.len()
            invariant
                rank == source@.len(),
                forall|i: int| 0 <= i < dimensions@.len() ==> #[trigger] dimensions@[i] < rank,
                forall|i: int|
                    0 <= i < index ==> source@[#[trigger] dimensions@[i] as int] == 1,
                source@ == input@.shape,
                dimensions@.len() > 0,
                axes_of(axes@, rank as int) == Ok::<Seq<usize>, TensorError>(dimensions@),
        {
            assert(dimensions@[index as int] < rank);
            if source[dimensions[index]] != 1 {
                assert(input@.shape[dimensions@[index as int] as int] != 1);
                return Err(TensorError::Squeeze);
            }
        }
        marked = mark_axes(dimensions.as_slice(), rank);
        assert forall|d: int| 0 <= d < rank && #[trigger] marked@[d] implies source@[d] == 1 by {
            assert(dimensions@.contains(d as usize));
            let i = choose|i: int|
                0 <= i < dimensions@.len() && #[trigger] dimensions@[i] == d as usize;
            assert(source@[dimensions@[i] as int] == 1);
        }
    }
    let mut shape: Vec<usize> = Vec::new();
    for index in 0..rank
        invariant
            rank == source@.len(),
            marked@.len() == rank,
            shape@ == without_marked(source@, marked@, index as nat),
    {
        if !marked[index] {
            shape.push(source[index]);
        }
    }
    proof {
        lemma_wf_count(input@);
        lemma_without_ones(source@, marked@, rank as nat);
        assert(source@.take(rank as int) =~= source@);
    }
    Ok(input.with_shape(shape))
}

/// Removes dimensions of one: those that the second input or the attribute names,
/// or all.
pub fn squeeze<F: Copy>(inputs: &[Tensor<F>], attribute_axes: &[i64]) -> (result: Result<
    Tensor<F>,
    TensorError,
>)
    requires
        all_wf(inputs@),
    ensures
        agrees(
            result,
            if inputs@.len() == 0 || inputs@.len() > 2 {
                Err(TensorError::InputCount)
            } else {
                match requested_axes(views(inputs@), attribute_axes@) {
                    Err(error) => Err(error),
                    Ok(axes) => squeezed(views(inputs@)[0], axes),
                }
            },
        ),
{
    if inputs.len() == 0 || inputs.len() > 2 {
        return Err(TensorError::InputCount);
    }
    assert(views(inputs@)[0] == inputs@[0]@);
    if inputs.len() == 2 {
        assert(views(inputs@)[1] == inputs@[1]@);
        match inputs[1].as_i64() {
            Err(error) => Err(error),
            Ok(axes) => squeeze_axes(&inputs[0], axes),
        }
    } else {
        squeeze_axes(&inputs[0], attribute_axes)
    }
}

/// No dimension is named twice.
pub open spec fn distinct(dimensions: Seq<usize>) -> bool {
    forall|i: int, j: int|
        0 <= i < j < dimensions.len() ==> #[trigger] dimensions[i] != #[trigger] dimensions[j]
}

/// The tensor with dimensions of one at the places that axes name.
pub open spec fn unsqueezed<F>(input: TensorView<F>, axes: Seq<i64>) -> Result<
    TensorView<F>,
    TensorError,
> {
    let rank = input.shape.len() + axes.len();
    match axes_of(axes, rank as int) {
        Err(error) => Err(error),
        Ok(dimensions) => if !distinct(dimensions) {
            Err(TensorError::DuplicateAxis)
        } else {
            Ok(
                TensorView {
                    shape: with_marked(input.shape, marks(dimensions, rank as int), rank),
                    data: input.data,
                },
            )
        },
    }
}

/// Marking one more dimension takes one unmarked dimension away.
proof fn lemma_unmarked_update(marked: Seq<bool>, at: int, count: nat)
    requires
        0 <= at < marked.len(),
        !marked[at],
        count <= marked.len(),
    ensures
        unmarked(marked.update(at, true), count) == unmarked(marked, count) - (if at < count {
            1int
        } else {
            0int
        }),
    decreases count,
{
    if count > 0 {
        lemma_unmarked_update(marked, at, (count - 1) as nat);
    }
}

/// The number of unmarked dimensions does not fall.
proof fn lemma_unmarked_monotone(marked: Seq<bool>, first: nat, second: nat)
    requires
        first <= second <= marked.len(),
    ensures
        unmarked(marked, first) <= unmarked(marked, second),
    decreases second,
{
    if first < second {
        lemma_unmarked_monotone(marked, first, (second - 1) as nat);
    }
}

/// Dimensions of one keep the element count.
proof fn lemma_with_ones(shape: Seq<usize>, marked: Seq<bool>, count: nat)
    requires
        count <= marked.len(),
        unmarked(marked, count) <= shape.len(),
        counts(shape),
    ensures
        product(with_marked(shape, marked, count)) == product(
            shape.take(unmarked(marked, count) as int),
        ),
        counts(with_marked(shape, marked, count)),
        with_marked(shape, marked, count).len() == count,
    decreases count,
{
    if count == 0 {
        assert(shape.take(0) =~= Seq::<usize>::empty());
        let none = Seq::<usize>::empty();
        assert forall|k: int| 0 <= k <= none.len() implies #[trigger] product(none.take(k))
            <= usize::MAX by {
            assert(none.take(k) =~= none);
        }
    } else {
        lemma_unmarked_monotone(marked, (count - 1) as nat, count);
        lemma_with_ones(shape, marked, (count - 1) as nat);
        let before = with_marked(shape, marked, (count - 1) as nat);
        let after = with_marked(shape, marked, count);
        assert(after.drop_last() =~= before);
        let used = unmarked(marked, (count - 1) as nat) as int;
        if marked[count - 1] {
            let p = product(before);
            assert(p * 1 == p) by (nonlinear_arith);
        } else {
            let part = shape.take(used + 1);
            assert(part.drop_last() =~= shape.take(used));
            assert(part.last() == shape[used]);
        }
        assert forall|k: int| 0 <= k <= after.len() implies #[trigger] product(after.take(k))
            <= usize::MAX by {
            if k <= before.len() {
                assert(after.take(k) =~= before.take(k));
            } else {
                assert(after.take(k) =~= after);
                assert(product(shape.take(unmarked(marked, count) as int)) <= usize::MAX);
            }
        }
    }
}

/// Inserts dimensions of one into the shape of a tensor.
pub fn unsqueeze_axes<F: Copy>(input: &Tensor<F>, axes: &[i64]) -> (result: Result<
    Tensor<F>,
    TensorError,
>)
    requires
        input@.wf(),
        input@.shape.len() + axes@.len() <= usize::MAX,
    ensures
        agrees(result, unsqueezed(input@, axes@)),
{
    let source: &[usize] = input.shape();
    let rank: usize = source.len() + axes.len();
    let dimensions: Vec<usize> = match normalize_axes(axes, rank) {
        Err(error) => {
            return Err(error);
        },
        Ok(dimensions) => dimensions,
    };
    let mut marked: Vec<bool> = Vec::with_capacity(rank);
    for _index in 0..rank
        invariant
            marked@.len() == _index,
            forall|d: int| 0 <= d < _index ==> #[trigger] marked@[d] == false,
            unmarked(marked@, _index as nat) == _index,
    {
        let ghost before = marked@;
        marked.push(false);
        proof {
            lemma_unmarked_prefix(before, marked@, _index as nat);
        }
    }
    for index in 0..dimensions.len()
        invariant
            marked@.len() == rank,
            rank == source@.len() + axes@.len(),
            dimensions@.len() == axes@.len(),
            axes_of(axes@, rank as int) == Ok::<Seq<usize>, TensorError>(dimensions@),
            source@ == input@.shape,
            forall|i: int| 0 <= i < dimensions@.len() ==> #[trigger] dimensions@[i] < rank,
            forall|i: int, j: int|
                0 <= i < j < index ==> #[trigger] dimensions@[i] != #[trigger] dimensions@[j],
            forall|i: int| 0 <= i < index ==> marked@[#[trigger] dimensions@[i] as int],
            forall|d: int|
                0 <= d < rank && #[trigger] marked@[d] ==> exists|i: int|
                    0 <= i < index && #[trigger] dimensions@[i] == d,
            unmarked(marked@, rank as nat) == rank - index,
    {
        assert(dimensions@[index as int] < rank);
        let axis: usize = dimensions[index];
        if marked[axis] {
            proof {
                let i = choose|i: int| 0 <= i < index && #[trigger] dimensions@[i] == axis;
                assert(dimensions@[i] == dimensions@[index as int]);
                assert(!distinct(dimensions@));
            }
            return Err(TensorError::DuplicateAxis);
        }
        let ghost before = marked@;
        proof {
            lemma_unmarked_update(marked@, axis as int, rank as nat);
        }
        marked.set(axis, true);
        proof {
            assert(marked@ =~= before.update(axis as int, true));
            assert forall|d: int| 0 <= d < rank && #[trigger] marked@[d] implies exists|i: int|
                0 <= i < index + 1 && #[trigger] dimensions@[i] == d by {
                if d == axis {
                    assert(dimensions@[index as int] == d);
                } else {
                    assert(before[d]);
                    let i = choose|i: int| 0 <= i < index && #[trigger] dimensions@[i] == d;
                    assert(dimensions@[i] == d);
                }
            }
            assert forall|i: int, j: int| 0 <= i < j < index + 1 implies #[trigger] dimensions@[i]
                != #[trigger] dimensions@[j] by {
                if j == index {
                    assert(before[dimensions@[i] as int]);
                }
            }
        }
    }
    proof {
        assert(marked@ =~= marks(dimensions@, rank as int)) by {
            assert forall|d: int| 0 <= d < rank implies marked@[d] == marks(
                dimensions@,
                rank as int,
            )[d] by {
                if marked@[d] {
                    let i = choose|i: int|
                        0 <= i < dimensions@.len() && #[trigger] dimensions@[i] == d;
                    assert(dimensions@[i] == d as usize);
                }
                if dimensions@.contains(d as usize) {
                    let i = choose|i: int|
                        0 <= i < dimensions@.len() && #[trigger] dimensions@[i] == d as usize;
                    assert(marked@[dimensions@[i] as int]);
                }
            }
        }
    }
    let mut shape: Vec<usize> = Vec::with_capacity(rank);
    let mut used: usize = 0;
    for index in 0..rank
        invariant
            marked@.len() == rank,
            unmarked(marked@, rank as nat) == source@.len(),
            used == unmarked(marked@, index as nat),
            shape@ == with_marked(source@, marked@, index as nat),
    {
        if marked[index] {
            shape.push(1);
        } else {
            proof {
                lemma_unmarked_monotone(marked@, (index + 1) as nat, rank as nat);
            }
            shape.push(source[used]);
            used = used + 1;
        }
    }
    proof {
        lemma_wf_count(input@);
        lemma_with_ones(source@, marked@, rank as nat);
        assert(source@.take(source@.len() as int) =~= source@);
    }
    Ok(input.with_shape(shape))
}

/// The count of unmarked dimensions reads only the dimensions below it.
proof fn lemma_unmarked_prefix(first: Seq<bool>, second: Seq<bool>, count: nat)
    requires
        count <= first.len(),
        first.len() <= second.len(),
        forall|d: int| 0 <= d < first.len() ==> first[d] == second[d],
    ensures
        unmarked(first, count) == unmarked(second, count),
    decreases count,
{
    if count > 0 {
        lemma_unmarked_prefix(first, second, (count - 1) as nat);
    }
}

/// Inserts dimensions of one at the places that the second input or the attribute
/// names.
pub fn unsqueeze<F: Copy>(inputs: &[Tensor<F>], attribute_axes: &[i64]) -> (result: Result<
    Tensor<F>,
    TensorError,
>)
    requires
        all_wf(inputs@),
        inputs@.len() == 1 ==> inputs@[0]@.shape.len() + attribute_axes@.len() <= usize::MAX,
        inputs@.len() == 2 ==> inputs@[0]@.shape.len() + inputs@[1]@.data.len() <= usize::MAX,
    ensures
        agrees(
            result,
            if inputs@.len() == 0 || inputs@.len() > 2 {
                Err(TensorError::InputCount)
            } else {
                match requested_axes(views(inputs@), attribute_axes@) {
                    Err(error) => Err(error),
                    Ok(axes) => unsqueezed(views(inputs@)[0], axes),
                }
            },
        ),
{
    if inputs.len() == 0 || inputs.len() > 2 {
        return Err(TensorError::InputCount);
    }
    assert(views(inputs@)[0] == inputs@[0]@);
    if inputs.len() == 2 {
        assert(views(inputs@)[1] == inputs@[1]@);
        match inputs[1].as_i64() {
            Err(error) => Err(error),
            Ok(axes) => unsqueeze_axes(&inputs[0], axes),
        }
    } else {
        unsqueeze_axes(&inputs[0], attribute_axes)
    }
}

/// Reshaping keeps every value in its place.
pub proof fn lemma_reshape_keeps_values<F>(input: TensorView<F>, requested: Seq<i64>)
    ensures
        reshaped(input, requested) matches Ok(output) ==> output.data == input.data && count_of(
            output.shape,
        ) == Some(input.data.len() as usize),
{
}

/// The dimensions that are removed where they were inserted.
proof fn lemma_without_with(shape: Seq<usize>, marked: Seq<bool>, count: nat)
    requires
        count <= marked.len(),
        unmarked(marked, count) <= shape.len(),
    ensures
        without_marked(with_marked(shape, marked, count), marked, count) == shape.take(
            unmarked(marked, count) as int,
        ),
        with_marked(shape, marked, count).len() == count,
    decreases count,
{
    if count == 0 {
        assert(shape.take(0) =~= Seq::<usize>::empty());
    } else {
        lemma_unmarked_monotone(marked, (count - 1) as nat, count);
        lemma_without_with(shape, marked, (count - 1) as nat);
        let before = with_marked(shape, marked, (count - 1) as nat);
        let after = with_marked(shape, marked, count);
        lemma_without_prefix(after, before, marked, (count - 1) as nat);
        let used = unmarked(marked, (count - 1) as nat) as int;
        if !marked[count - 1] {
            assert(shape.take(used).push(shape[used]) =~= shape.take(used + 1));
        }
    }
}

/// Removing marked dimensions reads only the dimensions below the count.
proof fn lemma_without_prefix(first: Seq<usize>, second: Seq<usize>, marked: Seq<bool>, count: nat)
    requires
        count <= first.len(),
        count <= second.len(),
        forall|d: int| 0 <= d < count ==> first[d] == second[d],
    ensures
        without_marked(first, marked, count) == without_marked(second, marked, count),
    decreases count,
{
    if count > 0 {
        lemma_without_prefix(first, second, marked, (count - 1) as nat);
    }
}

/// The dimension that an axis stands for; a negative one counts from the end.
pub open spec fn named_dimension(axis: i64, rank: int) -> int {
    if axis < 0 {
        rank + axis
    } else {
        axis as int
    }
}

/// Axes within the rank name one dimension each.
proof fn lemma_axes(axes: Seq<i64>, rank: int)
    requires
        0 <= rank <= usize::MAX,
        rank <= i64::MAX,
        forall|i: int| 0 <= i < axes.len() ==> -rank <= #[trigger] axes[i] < rank,
    ensures
        axes_of(axes, rank) is Ok,
        axes_of(axes, rank)->Ok_0.len() == axes.len(),
        forall|i: int|
            0 <= i < axes.len() ==> #[trigger] axes_of(axes, rank)->Ok_0[i] == named_dimension(
                axes[i],
                rank,
            ),
    decreases axes.len(),
{
    if axes.len() > 0 {
        let before = axes.drop_last();
        assert forall|i: int| 0 <= i < before.len() implies -rank <= #[trigger] before[i]
            < rank by {
            assert(before[i] == axes[i]);
        }
        lemma_axes(before, rank);
        assert(axes.last() == axes[axes.len() - 1]);
        let dimensions = axes_of(axes, rank)->Ok_0;
        assert forall|i: int| 0 <= i < axes.len() implies #[trigger] dimensions[i]
            == named_dimension(axes[i], rank) by {
            if i < before.len() {
                assert(dimensions[i] == axes_of(before, rank)->Ok_0[i]);
            }
        }
    }
}

/// Dimensions that are named once each leave the others unmarked.
proof fn lemma_unmarked_count(dimensions: Seq<usize>, rank: nat)
    requires
        rank <= usize::MAX,
        distinct(dimensions),
        forall|i: int| 0 <= i < dimensions.len() ==> #[trigger] dimensions[i] < rank,
    ensures
        unmarked(marks(dimensions, rank as int), rank) == rank - dimensions.len(),
    decreases dimensions.len(),
{
    if dimensions.len() == 0 {
        lemma_none_marked(marks(dimensions, rank as int), rank);
    } else {
        let before = dimensions.drop_last();
        let last = dimensions.last();
        assert forall|i: int, j: int| 0 <= i < j < before.len() implies #[trigger] before[i]
            != #[trigger] before[j] by {
            assert(dimensions[i] != dimensions[j]);
        }
        assert forall|i: int| 0 <= i < before.len() implies #[trigger] before[i] < rank by {
            assert(before[i] == dimensions[i]);
        }
        lemma_unmarked_count(before, rank);
        let marked = marks(before, rank as int);
        assert(last == dimensions[dimensions.len() - 1]);
        assert(!before.contains(last)) by {
            if before.contains(last) {
                let i = choose|i: int| 0 <= i < before.len() && before[i] == last;
                assert(dimensions[i] != dimensions[dimensions.len() - 1]);
            }
        }
        lemma_unmarked_update(marked, last as int, rank);
        assert forall|d: int| 0 <= d < rank implies #[trigger] marks(dimensions, rank as int)[d]
            == marked.update(last as int, true)[d] by {
            if before.contains(d as usize) {
                let i = choose|i: int| 0 <= i < before.len() && before[i] == d as usize;
                assert(dimensions[i] == d as usize);
            }
            if dimensions.contains(d as usize) && d != last {
                let i = choose|i: int| 0 <= i < dimensions.len() && dimensions[i] == d as usize;
                assert(before[i] == d as usize);
            }
        }
        assert(marks(dimensions, rank as int) =~= marked.update(last as int, true));
    }
}

/// Where nothing is marked, all is counted.
proof fn lemma_none_marked(marked: Seq<bool>, count: nat)
    requires
        count <= marked.len(),
        forall|d: int| 0 <= d < marked.len() ==> !#[trigger] marked[d],
    ensures
        unmarked(marked, count) == count,
    decreases count,
{
    if count > 0 {
        lemma_none_marked(marked, (count - 1) as nat);
    }
}

/// A marked place holds one.
proof fn lemma_marked_one(shape: Seq<usize>, marked: Seq<bool>, count: nat, at: int)
    requires
        0 <= at < count <= marked.len(),
        marked[at],
        unmarked(marked, count) <= shape.len(),
    ensures
        with_marked(shape, marked, count)[at] == 1,
    decreases count,
{
    lemma_unmarked_monotone(marked, (count - 1) as nat, count);
    lemma_without_with(shape, marked, (count - 1) as nat);
    if at < count - 1 {
        lemma_marked_one(shape, marked, (count - 1) as nat, at);
    }
}

/// Inserting dimensions of one and removing the same ones gives the tensor back.
/// Axes within the new rank of which no two name the same dimension are accepted,
/// the dimensions that they name are one, the values keep their places, and the
/// same axes remove what was inserted. Without axes this does not hold: all
/// dimensions of one are then removed.
pub proof fn lemma_squeeze_undoes_unsqueeze<F>(input: TensorView<F>, axes: Seq<i64>)
    requires
        axes.len() > 0,
        input.shape.len() + axes.len() <= usize::MAX,
        input.shape.len() + axes.len() <= i64::MAX,
        ({
            let rank = (input.shape.len() + axes.len()) as int;
            &&& forall|i: int| 0 <= i < axes.len() ==> -rank <= #[trigger] axes[i] < rank
            &&& forall|i: int, j: int|
                0 <= i < j < axes.len() ==> named_dimension(#[trigger] axes[i], rank)
                    != named_dimension(#[trigger] axes[j], rank)
        }),
    ensures
        unsqueezed(input, axes) is Ok,
        ({
            let rank = (input.shape.len() + axes.len()) as int;
            let output = unsqueezed(input, axes)->Ok_0;
            &&& output.data == input.data
            &&& output.shape.len() == rank
            &&& forall|i: int|
                0 <= i < axes.len() ==> output.shape[named_dimension(#[trigger] axes[i], rank)]
                    == 1
            &&& squeezed(output, axes) == Ok::<TensorView<F>, TensorError>(input)
        }),
{
    let rank = input.shape.len() + axes.len();
    let dimensions = axes_of(axes, rank as int)->Ok_0;
    let marked = marks(dimensions, rank as int);
    lemma_axes(axes, rank as int);
    assert forall|i: int| 0 <= i < dimensions.len() implies #[trigger] dimensions[i] < rank by {
        assert(axes_of(axes, rank as int)->Ok_0[i] == named_dimension(axes[i], rank as int));
    }
    assert forall|i: int, j: int| 0 <= i < j < dimensions.len() implies #[trigger] dimensions[i]
        != #[trigger] dimensions[j] by {
        assert(named_dimension(axes[i], rank as int) != named_dimension(axes[j], rank as int));
    }
    let output = unsqueezed(input, axes)->Ok_0;
    lemma_unmarked_count(dimensions, rank);
    lemma_without_with(input.shape, marked, rank);
    assert(input.shape.take(input.shape.len() as int) =~= input.shape);
    assert forall|i: int| 0 <= i < dimensions.len() implies output.shape[
    #[trigger] dimensions[i] as int] == 1 by {
        let at = dimensions[i] as int;
        assert(dimensions.contains(at as usize));
        assert(marked[at]);
        lemma_marked_one(input.shape, marked, rank, at);
    }
    assert forall|i: int| 0 <= i < axes.len() implies output.shape[named_dimension(
        #[trigger] axes[i],
        rank as int,
    )] == 1 by {
        assert(output.shape[dimensions[i] as int] == 1);
    }
}

} // verus!
