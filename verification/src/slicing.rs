//! Operations that take tensors apart and put them together.
use crate::index::{lemma_decode, lemma_encode, lemma_scale};
use crate::layout::{agrees, all_wf, axis_of, lemma_no_zero, lemma_wf_count, normalize_axis, views};
use crate::shape::{
    counts, element_count, gather_index, gathered, lemma_product_bounds, lemma_product_skip,
    lemma_product_split, lemma_reach_row_major, lemma_strides_count, product, reach, stride_of,
    strides, strides_count, strides_of,
};
use crate::tensor::{DataView, Tensor, TensorData, TensorError, TensorView};
use vstd::prelude::*;

verus! {

/// The part of one dimension that a slice takes: every `step`-th index from
/// `start` up to, and without, `end`.
#[derive(Clone, Copy, Debug, PartialEq, Eq, Structural)]
pub struct Range {
    pub start: usize,
    pub end: usize,
    pub step: usize,
}

impl Range {
    /// The range lies inside a dimension.
    pub open spec fn within(self, size: int) -> bool {
        self.start <= self.end <= size && self.step > 0
    }

    /// The number of indices that are taken.
    pub open spec fn count(self) -> int {
        (self.end - self.start + self.step - 1) / self.step as int
    }
}

/// A bound of a slice, counted from the end where it is negative, and moved into
/// the dimension.
pub open spec fn slice_bound(bound: i64, size: int) -> int {
    let position: int = if bound < 0 {
        size + bound
    } else {
        bound as int
    };
    if position < 0 {
        0
    } else if position > size {
        size
    } else {
        position
    }
}

/// The part of a dimension between two bounds.
pub open spec fn range_of(start: i64, end: i64, step: i64, size: int) -> Range {
    let first = slice_bound(start, size);
    let last = slice_bound(end, size);
    Range {
        start: first as usize,
        end: (if last < first {
            first
        } else {
            last
        }) as usize,
        step: step as usize,
    }
}

/// The parts of all dimensions after the first `count` entries of a slice.
pub open spec fn ranges_of(
    shape: Seq<usize>,
    starts: Seq<i64>,
    ends: Seq<i64>,
    axes: Seq<i64>,
    steps: Seq<i64>,
    count: nat,
) -> Result<Seq<Range>, TensorError>
    decreases count,
{
    if count == 0 {
        Ok(Seq::new(shape.len(), |d: int| Range { start: 0, end: shape[d], step: 1 }))
    } else {
        let index = count - 1;
        match ranges_of(shape, starts, ends, axes, steps, index as nat) {
            Err(error) => Err(error),
            Ok(before) => if steps[index] <= 0 {
                Err(TensorError::Step)
            } else {
                match axis_of(axes[index], shape.len() as int) {
                    Err(error) => Err(error),
                    Ok(axis) => if steps[index] > usize::MAX {
                        Err(TensorError::DimensionRange)
                    } else {
                        Ok(
                            before.update(
                                axis as int,
                                range_of(
                                    starts[index],
                                    ends[index],
                                    steps[index],
                                    shape[axis as int] as int,
                                ),
                            ),
                        )
                    },
                }
            },
        }
    }
}

/// The shape of what the ranges take.
pub open spec fn range_shape(ranges: Seq<Range>) -> Seq<usize> {
    Seq::new(ranges.len(), |d: int| ranges[d].count() as usize)
}

/// The steps in the source for neighbours in what the ranges take.
pub open spec fn range_steps(shape: Seq<usize>, ranges: Seq<Range>) -> Seq<usize> {
    Seq::new(ranges.len(), |d: int| (ranges[d].step * stride_of(shape, d)) as usize)
}

/// The place in the source of the first value that is taken, counted from
/// dimension `from` on.
pub open spec fn range_base(shape: Seq<usize>, ranges: Seq<Range>, from: int) -> int
    decreases ranges.len() - from,
{
    if from < 0 || from >= ranges.len() {
        0
    } else {
        ranges[from].start * stride_of(shape, from) + range_base(shape, ranges, from + 1)
    }
}

/// The values that the ranges take.
pub open spec fn taken<F>(input: TensorView<F>, ranges: Seq<Range>) -> TensorView<F> {
    let shape = range_shape(ranges);
    TensorView {
        shape,
        data: input.data.rearranged(
            product(shape) as nat,
            |flat: int|
                range_base(input.shape, ranges, 0) + gathered(
                    flat,
                    strides_of(shape),
                    range_steps(input.shape, ranges),
                    0,
                ),
        ),
    }
}

/// The part of a tensor that starts, ends, axes and steps name.
pub open spec fn sliced<F>(
    input: TensorView<F>,
    starts: Seq<i64>,
    ends: Seq<i64>,
    axes: Seq<i64>,
    steps: Seq<i64>,
) -> Result<TensorView<F>, TensorError> {
    if starts.len() != ends.len() || starts.len() != axes.len() || starts.len() != steps.len() {
        Err(TensorError::LengthMismatch)
    } else {
        match ranges_of(input.shape, starts, ends, axes, steps, starts.len()) {
            Err(error) => Err(error),
            Ok(ranges) => if counts(range_shape(ranges)) {
                Ok(taken(input, ranges))
            } else {
                Err(TensorError::ShapeOverflow)
            },
        }
    }
}

/// Entries that are refused refuse the slice.
proof fn lemma_ranges_error(
    shape: Seq<usize>,
    starts: Seq<i64>,
    ends: Seq<i64>,
    axes: Seq<i64>,
    steps: Seq<i64>,
    count: nat,
    error: TensorError,
)
    requires
        count <= starts.len(),
        ranges_of(shape, starts, ends, axes, steps, count) == Err::<Seq<Range>, TensorError>(error),
    ensures
        ranges_of(shape, starts, ends, axes, steps, starts.len()) == Err::<
            Seq<Range>,
            TensorError,
        >(error),
    decreases starts.len() - count,
{
    if count < starts.len() {
        lemma_ranges_error(shape, starts, ends, axes, steps, count + 1, error);
    }
}

/// The last value that a range takes lies before its end.
proof fn lemma_range_last(range: Range, size: int)
    requires
        range.within(size),
        range.count() > 0,
    ensures
        range.start + (range.count() - 1) * range.step < size,
        range.count() <= size,
{
    let n = range.end - range.start + range.step - 1;
    let s = range.step as int;
    lemma_encode(n, s);
    let q = n / s;
    assert((q - 1) * s == q * s - s) by (nonlinear_arith);
    lemma_scale(1, s, q - 1);
    assert(s * (q - 1) == (q - 1) * s) by (nonlinear_arith);
}

/// Taking from the ranges stays inside the source.
proof fn lemma_range_reach(shape: Seq<usize>, ranges: Seq<Range>, from: int)
    requires
        0 <= from <= shape.len(),
        ranges.len() == shape.len(),
        strides_count(shape),
        product(shape) <= usize::MAX,
        forall|d: int| 0 <= d < shape.len() ==> #[trigger] shape[d] > 0,
        forall|d: int| 0 <= d < shape.len() ==> (#[trigger] ranges[d]).within(shape[d] as int),
        forall|d: int| 0 <= d < shape.len() ==> (#[trigger] ranges[d]).count() > 0,
        forall|d: int|
            0 <= d < shape.len() ==> (#[trigger] ranges[d]).step * stride_of(shape, d)
                <= usize::MAX,
    ensures
        0 <= range_base(shape, ranges, from),
        0 <= reach(range_shape(ranges), range_steps(shape, ranges), from),
        range_base(shape, ranges, from) + reach(
            range_shape(ranges),
            range_steps(shape, ranges),
            from,
        ) <= reach(shape, strides_of(shape), from),
    decreases shape.len() - from,
{
    if from < shape.len() {
        lemma_range_reach(shape, ranges, from + 1);
        let range = ranges[from];
        let stride = stride_of(shape, from);
        lemma_product_skip(shape, from);
        lemma_range_last(range, shape[from] as int);
        let count = range.count();
        assert(range_shape(ranges)[from] == count);
        lemma_scale(0, range.step as int, stride);
        assert(range_steps(shape, ranges)[from] == range.step * stride);
        assert(strides_of(shape)[from] == stride);
        assert((count - 1) * (range.step * stride) == (count - 1) * range.step * stride)
            by (nonlinear_arith);
        lemma_scale(range.start + (count - 1) * range.step, shape[from] - 1, stride);
        assert((range.start + (count - 1) * range.step) * stride == range.start * stride + (count
            - 1) * range.step * stride) by (nonlinear_arith);
        lemma_scale(0, range.start as int, stride);
        lemma_scale(0, count - 1, range.step * stride);
    }
}

/// The values at gathered places behind a base.
fn gather_from<T: Copy>(
    values: &[T],
    shape: &[usize],
    shape_strides: &[usize],
    steps: &[usize],
    base: usize,
    count: usize,
) -> (result: Vec<T>)
    requires
        strides_count(shape@),
        shape_strides@ == strides_of(shape@),
        steps@.len() == shape@.len(),
        forall|d: int| 0 <= d < shape@.len() ==> #[trigger] shape@[d] > 0,
        count == product(shape@),
        base + reach(shape@, steps@, 0) < values@.len(),
    ensures
        result@ == Seq::new(
            count as nat,
            |flat: int| values@[base + gathered(flat, shape_strides@, steps@, 0)],
        ),
{
    let len: usize = values.len();
    let mut result: Vec<T> = Vec::with_capacity(count);
    for flat in 0..count
        invariant
            len == values@.len(),
            strides_count(shape@),
            shape_strides@ == strides_of(shape@),
            steps@.len() == shape@.len(),
            forall|d: int| 0 <= d < shape@.len() ==> #[trigger] shape@[d] > 0,
            count == product(shape@),
            base + reach(shape@, steps@, 0) < values@.len(),
            result@ == Seq::new(
                flat as nat,
                |i: int| values@[base + gathered(i, shape_strides@, steps@, 0)],
            ),
    {
        let index: usize = gather_index(flat, shape, shape_strides, steps);
        result.push(values[base + index]);
        assert(result@ =~= Seq::new(
            (flat + 1) as nat,
            |i: int| values@[base + gathered(i, shape_strides@, steps@, 0)],
        ));
    }
    result
}

/// Takes what the ranges name.
fn take_ranges<F: Copy>(input: &Tensor<F>, ranges: &[Range]) -> (result: Result<
    Tensor<F>,
    TensorError,
>)
    requires
        input@.wf(),
        ranges@.len() == input@.shape.len(),
        forall|d: int|
            0 <= d < ranges@.len() ==> (#[trigger] ranges@[d]).within(input@.shape[d] as int),
    ensures
        agrees(
            result,
            if counts(range_shape(ranges@)) {
                Ok(taken(input@, ranges@))
            } else {
                Err(TensorError::ShapeOverflow)
            },
        ),
{
    let source: &[usize] = input.shape();
    let rank: usize = source.len();
    let mut shape: Vec<usize> = Vec::with_capacity(rank);
    for index in 0..rank
        invariant
            rank == ranges@.len(),
            source@ == input@.shape,
            ranges@.len() == source@.len(),
            forall|d: int|
                0 <= d < ranges@.len() ==> (#[trigger] ranges@[d]).within(input@.shape[d] as int),
            shape@.len() == index,
            forall|d: int| 0 <= d < index ==> #[trigger] shape@[d] == ranges@[d].count(),
    {
        let range: Range = ranges[index];
        assert(ranges@[index as int].within(input@.shape[index as int] as int));
        let span: usize = range.end - range.start;
        let quotient: usize = span / range.step;
        let remainder: usize = span % range.step;
        proof {
            let s = range.step as int;
            lemma_encode(span as int, s);
            lemma_scale(1, s, quotient as int);
            assert(s * quotient == quotient * s) by (nonlinear_arith);
            if remainder == 0 {
                lemma_decode(quotient as int, s - 1, s);
            } else {
                assert((quotient + 1) * s + (remainder - 1) == span + s - 1) by (nonlinear_arith)
                    requires
                        span == quotient * s + remainder,
                ;
                lemma_decode(quotient + 1, remainder - 1, s);
            }
        }
        if remainder > 0 {
            shape.push(quotient + 1);
        } else {
            shape.push(quotient);
        }
    }
    assert(shape@ =~= range_shape(ranges@));
    let count: usize = match element_count(shape.as_slice()) {
        None => {
            return Err(TensorError::ShapeOverflow);
        },
        Some(count) => count,
    };
    proof {
        assert(shape@.take(rank as int) =~= shape@);
        lemma_product_bounds(shape@);
        lemma_wf_count(input@);
    }
    let ghost expected = taken(input@, ranges@);
    if count == 0 {
        return match input.data() {
            TensorData::F32(_) => {
                let none: Vec<F> = Vec::new();
                assert(expected.data->F32_0 =~= none@);
                Ok(Tensor::new_f32(shape, none))
            },
            TensorData::I64(_) => {
                let none: Vec<i64> = Vec::new();
                assert(expected.data->I64_0 =~= none@);
                Ok(Tensor::new_i64(shape, none))
            },
        };
    }
    proof {
        lemma_no_zero(shape@);
        assert forall|d: int| 0 <= d < rank implies #[trigger] source@[d] > 0 by {
            assert(shape@[d] > 0);
            assert(ranges@[d].within(source@[d] as int));
            lemma_range_last(ranges@[d], source@[d] as int);
        }
        lemma_product_bounds(source@);
        lemma_strides_count(source@);
        lemma_strides_count(shape@);
    }
    let source_strides: Vec<usize> = strides(source);
    let shape_strides: Vec<usize> = strides(shape.as_slice());
    let mut steps: Vec<usize> = Vec::with_capacity(rank);
    let mut clamped: Vec<Range> = Vec::with_capacity(rank);
    for index in 0..rank
        invariant
            rank == ranges@.len(),
            rank == source@.len(),
            rank == shape@.len(),
            source@ == input@.shape,
            source_strides@ == strides_of(source@),
            strides_count(source@),
            product(source@) <= usize::MAX,
            forall|d: int| 0 <= d < rank ==> #[trigger] source@[d] > 0,
            forall|d: int|
                0 <= d < ranges@.len() ==> (#[trigger] ranges@[d]).within(input@.shape[d] as int),
            shape@ == range_shape(ranges@),
            forall|d: int| 0 <= d < rank ==> #[trigger] shape@[d] == ranges@[d].count(),
            forall|d: int| 0 <= d < rank ==> #[trigger] shape@[d] > 0,
            steps@.len() == index,
            clamped@.len() == index,
            forall|d: int|
                0 <= d < index ==> (#[trigger] clamped@[d]).start == ranges@[d].start
                    && clamped@[d].within(source@[d] as int) && clamped@[d].count()
                    == ranges@[d].count() && clamped@[d].step * stride_of(source@, d)
                    <= usize::MAX && (shape@[d] > 1 ==> clamped@[d].step == ranges@[d].step),
            forall|d: int|
                0 <= d < index ==> #[trigger] steps@[d] == clamped@[d].step * stride_of(source@, d),
    {
        let range: Range = ranges[index];
        let step: usize = if shape[index] > 1 {
            range.step
        } else {
            1
        };
        proof {
            assert(ranges@[index as int].within(source@[index as int] as int));
            assert(shape@[index as int] > 0);
            lemma_range_last(range, source@[index as int] as int);
            lemma_product_split(source@, index as int);
            lemma_product_skip(source@, index as int);
            let head = source@.take(index as int);
            assert forall|e: int| 0 <= e < head.len() implies #[trigger] head[e] > 0 by {
                assert(head[e] == source@[e]);
            }
            lemma_product_bounds(head);
            let stride = stride_of(source@, index as int);
            let size = source@[index as int] as int;
            lemma_scale(1, product(head), product(source@.skip(index as int)));
            if shape@[index as int] > 1 {
                lemma_scale(1, shape@[index as int] - 1, range.step as int);
                lemma_scale(range.step as int, size, stride);
            } else {
                lemma_scale(1, size, stride);
            }
            assert(step * stride <= usize::MAX);
            assert(source_strides@[index as int] == stride);
        }
        steps.push(step * source_strides[index]);
        let end: usize = if shape[index] > 1 {
            range.end
        } else {
            range.start + 1
        };
        clamped.push(Range { start: range.start, end, step });
        proof {
            if shape@[index as int] <= 1 {
                lemma_decode(1, 0, 1);
                assert(clamped@[index as int].end - clamped@[index as int].start == 1);
                assert(clamped@[index as int].count() == 1);
            }
        }
    }
    let mut base: usize = 0;
    let mut at: usize = rank;
    proof {
        assert(steps@ =~= range_steps(source@, clamped@)) by {
            assert forall|d: int| 0 <= d < rank implies steps@[d] == range_steps(
                source@,
                clamped@,
            )[d] by {
                assert(clamped@[d].within(source@[d] as int));
                lemma_product_skip(source@, d);
                lemma_scale(0, clamped@[d].step as int, stride_of(source@, d));
            }
        }
        assert(range_shape(clamped@) =~= shape@) by {
            assert forall|d: int| 0 <= d < rank implies range_shape(clamped@)[d] == shape@[d] by {
                assert(clamped@[d].count() == ranges@[d].count());
            }
        }
        assert forall|d: int| 0 <= d < rank implies (#[trigger] clamped@[d]).count() > 0 by {
            assert(shape@[d] > 0);
        }
        lemma_range_reach(source@, clamped@, 0);
        lemma_reach_row_major(source@, 0);
        assert(source@.skip(0) =~= source@);
        lemma_range_base_same(source@, ranges@, clamped@, 0);
    }
    while at > 0
        invariant
            at <= rank,
            rank == ranges@.len(),
            rank == source@.len(),
            rank == clamped@.len(),
            source_strides@ == strides_of(source@),
            strides_count(source@),
            base == range_base(source@, ranges@, at as int),
            range_base(source@, ranges@, 0) <= usize::MAX,
        decreases at,
    {
        at = at - 1;
        proof {
            lemma_range_base_monotone(source@, ranges@, 0, at as int);
            lemma_product_skip(source@, at as int);
            lemma_scale(0, ranges@[at as int].start as int, stride_of(source@, at as int));
            assert(source_strides@[at as int] == stride_of(source@, at as int));
        }
        base = ranges[at].start * source_strides[at] + base;
    }
    match input.data() {
        TensorData::F32(values) => {
            let output: Vec<F> = gather_from(
                values.as_slice(),
                shape.as_slice(),
                shape_strides.as_slice(),
                steps.as_slice(),
                base,
                count,
            );
            proof {
                assert forall|flat: int| 0 <= flat < count implies output@[flat]
                    == expected.data->F32_0[flat] by {
                    assert(shape@.skip(0) =~= shape@);
                    lemma_gathered_value(
                        flat,
                        shape@,
                        steps@,
                        range_steps(source@, ranges@),
                        0,
                    );
                }
                assert(expected.data->F32_0 =~= output@);
            }
            Ok(Tensor::new_f32(shape, output))
        },
        TensorData::I64(values) => {
            let output: Vec<i64> = gather_from(
                values.as_slice(),
                shape.as_slice(),
                shape_strides.as_slice(),
                steps.as_slice(),
                base,
                count,
            );
            proof {
                assert forall|flat: int| 0 <= flat < count implies output@[flat]
                    == expected.data->I64_0[flat] by {
                    assert(shape@.skip(0) =~= shape@);
                    lemma_gathered_value(
                        flat,
                        shape@,
                        steps@,
                        range_steps(source@, ranges@),
                        0,
                    );
                }
                assert(expected.data->I64_0 =~= output@);
            }
            Ok(Tensor::new_i64(shape, output))
        },
    }
}

/// Only the starts of ranges move the first value.
proof fn lemma_range_base_same(shape: Seq<usize>, first: Seq<Range>, second: Seq<Range>, from: int)
    requires
        0 <= from <= first.len(),
        first.len() == second.len(),
        forall|d: int| 0 <= d < first.len() ==> (#[trigger] second[d]).start == first[d].start,
    ensures
        range_base(shape, first, from) == range_base(shape, second, from),
    decreases first.len() - from,
{
    if from < first.len() {
        lemma_range_base_same(shape, first, second, from + 1);
        assert(second[from].start == first[from].start);
    }
}

/// The place of the first value does not fall with more dimensions.
proof fn lemma_range_base_monotone(shape: Seq<usize>, ranges: Seq<Range>, from: int, to: int)
    requires
        0 <= from <= to <= ranges.len(),
        ranges.len() == shape.len(),
    ensures
        0 <= range_base(shape, ranges, to) <= range_base(shape, ranges, from),
    decreases ranges.len() - from,
{
    if from < ranges.len() {
        lemma_product_bounds(shape.skip(from + 1));
        lemma_scale(0, ranges[from].start as int, stride_of(shape, from));
        if from < to {
            lemma_range_base_monotone(shape, ranges, from + 1, to);
        } else {
            lemma_range_base_monotone(shape, ranges, from + 1, from + 1);
        }
    }
}

/// Steps along dimensions of one do not matter.
proof fn lemma_gathered_value(
    flat: int,
    shape: Seq<usize>,
    first: Seq<usize>,
    second: Seq<usize>,
    from: int,
)
    requires
        0 <= from <= shape.len(),
        first.len() == shape.len(),
        second.len() == shape.len(),
        strides_count(shape),
        forall|d: int| 0 <= d < shape.len() ==> #[trigger] shape[d] > 0,
        forall|d: int| 0 <= d < shape.len() && #[trigger] shape[d] > 1 ==> first[d] == second[d],
        0 <= flat < product(shape.skip(from)),
    ensures
        gathered(flat, strides_of(shape), first, from) == gathered(
            flat,
            strides_of(shape),
            second,
            from,
        ),
    decreases shape.len() - from,
{
    if from < shape.len() {
        crate::shape::lemma_gathered_bound(flat, shape, first, from);
        let stride = stride_of(shape, from);
        assert(strides_of(shape)[from] == stride);
        lemma_gathered_value(flat % stride, shape, first, second, from + 1);
        if shape[from] == 1 {
            assert(flat / stride == 0);
            assert(0 * first[from] == 0) by (nonlinear_arith);
            assert(0 * second[from] == 0) by (nonlinear_arith);
        } else {
            assert(shape[from] > 1);
        }
    }
}

/// Every entry is in the range of indices of the library's integers.
pub open spec fn indexable(shape: Seq<usize>) -> bool {
    forall|d: int| 0 <= d < shape.len() ==> #[trigger] shape[d] <= i64::MAX
}

/// A bound of a slice, moved into the dimension.
fn clamp_bound(bound: i64, size: usize) -> (result: usize)
    requires
        size <= i64::MAX,
    ensures
        result == slice_bound(bound, size as int),
        result <= size,
{
    let whole: i64 = size as i64;
    let position: i64 = if bound < 0 {
        whole + bound
    } else {
        bound
    };
    if position < 0 {
        0
    } else if position > whole {
        size
    } else {
        position as usize
    }
}

/// Takes the part of a tensor that starts, ends, axes and steps name.
pub fn slice_parts<F: Copy>(
    input: &Tensor<F>,
    starts: &[i64],
    ends: &[i64],
    axes: &[i64],
    steps: &[i64],
) -> (result: Result<Tensor<F>, TensorError>)
    requires
        input@.wf(),
        indexable(input@.shape),
    ensures
        agrees(result, sliced(input@, starts@, ends@, axes@, steps@)),
{
    if starts.len() != ends.len() || starts.len() != axes.len() || starts.len() != steps.len() {
        return Err(TensorError::LengthMismatch);
    }
    let source: &[usize] = input.shape();
    let rank: usize = source.len();
    let mut ranges: Vec<Range> = Vec::with_capacity(rank);
    for index in 0..rank
        invariant
            rank == source@.len(),
            ranges@.len() == index,
            forall|d: int|
                0 <= d < index ==> #[trigger] ranges@[d] == (Range {
                    start: 0,
                    end: source@[d],
                    step: 1,
                }),
    {
        ranges.push(Range { start: 0, end: source[index], step: 1 });
    }
    assert(ranges@ =~= Seq::new(rank as nat, |d: int| Range { start: 0, end: source@[d], step: 1 }));
    for index in 0..starts.len()
        invariant
            starts@.len() == ends@.len(),
            starts@.len() == axes@.len(),
            starts@.len() == steps@.len(),
            source@ == input@.shape,
            indexable(source@),
            rank == source@.len(),
            ranges@.len() == rank,
            ranges_of(source@, starts@, ends@, axes@, steps@, index as nat) == Ok::<
                Seq<Range>,
                TensorError,
            >(ranges@),
            forall|d: int| 0 <= d < rank ==> (#[trigger] ranges@[d]).within(source@[d] as int),
    {
        let step: i64 = steps[index];
        if step <= 0 {
            proof {
                lemma_ranges_error(
                    source@,
                    starts@,
                    ends@,
                    axes@,
                    steps@,
                    (index + 1) as nat,
                    TensorError::Step,
                );
            }
            return Err(TensorError::Step);
        }
        let axis: usize = match normalize_axis(axes[index], rank) {
            Err(error) => {
                proof {
                    lemma_ranges_error(
                        source@,
                        starts@,
                        ends@,
                        axes@,
                        steps@,
                        (index + 1) as nat,
                        error,
                    );
                }
                return Err(error);
            },
            Ok(axis) => axis,
        };
        if step as u64 > usize::MAX as u64 {
            proof {
                lemma_ranges_error(
                    source@,
                    starts@,
                    ends@,
                    axes@,
                    steps@,
                    (index + 1) as nat,
                    TensorError::DimensionRange,
                );
            }
            return Err(TensorError::DimensionRange);
        }
        assert(source@[axis as int] <= i64::MAX);
        let first: usize = clamp_bound(starts[index], source[axis]);
        let last: usize = clamp_bound(ends[index], source[axis]);
        let end: usize = if last < first {
            first
        } else {
            last
        };
        ranges.set(axis, Range { start: first, end, step: step as usize });
    }
    take_ranges(input, ranges.as_slice())
}

/// The integers of an input, where there is one.
pub open spec fn integers_of<F>(
    inputs: Seq<TensorView<F>>,
    index: int,
    default: Seq<i64>,
) -> Result<
    Seq<i64>,
    TensorError,
> {
    if index < inputs.len() {
        match inputs[index].data {
            DataView::I64(values) => Ok(values),
            DataView::F32(_) => Err(TensorError::ExpectedI64),
        }
    } else {
        Ok(default)
    }
}

/// The part of the first input that the others name. Without axes the leading
/// dimensions are meant, without steps every index is taken.
pub open spec fn slice_result<F>(inputs: Seq<TensorView<F>>) -> Result<
    TensorView<F>,
    TensorError,
> {
    if inputs.len() < 3 || inputs.len() > 5 {
        Err(TensorError::InputCount)
    } else {
        match integers_of(inputs, 1, Seq::empty()) {
            Err(error) => Err(error),
            Ok(starts) => match integers_of(inputs, 2, Seq::empty()) {
                Err(error) => Err(error),
                Ok(ends) => match integers_of(
                    inputs,
                    3,
                    Seq::new(starts.len(), |i: int| i as i64),
                ) {
                    Err(error) => Err(error),
                    Ok(axes) => match integers_of(inputs, 4, Seq::new(starts.len(), |i: int| 1i64)) {
                        Err(error) => Err(error),
                        Ok(steps) => sliced(inputs[0], starts, ends, axes, steps),
                    },
                },
            },
        }
    }
}

/// Takes a part of the first input.
pub fn slice<F: Copy>(inputs: &[Tensor<F>]) -> (result: Result<Tensor<F>, TensorError>)
    requires
        all_wf(inputs@),
        inputs@.len() > 0 ==> indexable(inputs@[0]@.shape),
        inputs@.len() > 1 ==> inputs@[1]@.data.len() <= i64::MAX,
    ensures
        agrees(result, slice_result(views(inputs@))),
{
    if inputs.len() < 3 || inputs.len() > 5 {
        return Err(TensorError::InputCount);
    }
    proof {
        assert forall|i: int| 0 <= i < inputs@.len() implies #[trigger] views(inputs@)[i]
            == inputs@[i]@ by {}
    }
    let starts: &[i64] = match inputs[1].as_i64() {
        Err(error) => {
            return Err(error);
        },
        Ok(values) => values,
    };
    let ends: &[i64] = match inputs[2].as_i64() {
        Err(error) => {
            return Err(error);
        },
        Ok(values) => values,
    };
    let mut default_axes: Vec<i64> = Vec::new();
    let mut default_steps: Vec<i64> = Vec::new();
    for index in 0..starts.len()
        invariant
            starts@.len() <= i64::MAX,
            default_axes@ == Seq::new(index as nat, |i: int| i as i64),
            default_steps@ == Seq::new(index as nat, |i: int| 1i64),
    {
        default_axes.push(index as i64);
        default_steps.push(1);
        assert(default_axes@ =~= Seq::new((index + 1) as nat, |i: int| i as i64));
        assert(default_steps@ =~= Seq::new((index + 1) as nat, |i: int| 1i64));
    }
    let axes: &[i64] = if inputs.len() > 3 {
        match inputs[3].as_i64() {
            Err(error) => {
                return Err(error);
            },
            Ok(values) => values,
        }
    } else {
        default_axes.as_slice()
    };
    let steps: &[i64] = if inputs.len() > 4 {
        match inputs[4].as_i64() {
            Err(error) => {
                return Err(error);
            },
            Ok(values) => values,
        }
    } else {
        default_steps.as_slice()
    };
    slice_parts(&inputs[0], starts, ends, axes, steps)
}

/// The range of a dimension that a narrowed tensor keeps.
pub open spec fn narrow_ranges(
    shape: Seq<usize>,
    axis: int,
    start: int,
    length: int,
) -> Seq<Range> {
    Seq::new(
        shape.len(),
        |d: int|
            if d == axis {
                Range { start: start as usize, end: (start + length) as usize, step: 1 }
            } else {
                Range { start: 0, end: shape[d], step: 1 }
            },
    )
}

/// The part of a tensor with `length` indices of one dimension, from `start` on.
pub open spec fn narrowed<F>(input: TensorView<F>, axis: int, start: int, length: int) -> Result<
    TensorView<F>,
    TensorError,
> {
    if axis >= input.shape.len() {
        Err(TensorError::Axis)
    } else if start + length > usize::MAX {
        Err(TensorError::ShapeOverflow)
    } else if start + length > input.shape[axis] {
        Err(TensorError::ShapeMismatch)
    } else if start + length > i64::MAX {
        Err(TensorError::DimensionRange)
    } else if counts(range_shape(narrow_ranges(input.shape, axis, start, length))) {
        Ok(taken(input, narrow_ranges(input.shape, axis, start, length)))
    } else {
        Err(TensorError::ShapeOverflow)
    }
}

/// Keeps `length` indices of one dimension, from `start` on.
pub fn narrow<F: Copy>(input: &Tensor<F>, axis: usize, start: usize, length: usize) -> (result:
    Result<Tensor<F>, TensorError>)
    requires
        input@.wf(),
    ensures
        agrees(result, narrowed(input@, axis as int, start as int, length as int)),
{
    let source: &[usize] = input.shape();
    if axis >= source.len() {
        return Err(TensorError::Axis);
    }
    let end: usize = match start.checked_add(length) {
        None => {
            return Err(TensorError::ShapeOverflow);
        },
        Some(end) => end,
    };
    if end > source[axis] {
        return Err(TensorError::ShapeMismatch);
    }
    if end as u64 > i64::MAX as u64 {
        return Err(TensorError::DimensionRange);
    }
    let mut ranges: Vec<Range> = Vec::with_capacity(source.len());
    for index in 0..source.len()
        invariant
            axis < source@.len(),
            end == start + length,
            ranges@.len() == index,
            forall|d: int|
                0 <= d < index ==> #[trigger] ranges@[d] == narrow_ranges(
                    source@,
                    axis as int,
                    start as int,
                    length as int,
                )[d],
    {
        if index == axis {
            ranges.push(Range { start, end, step: 1 });
        } else {
            ranges.push(Range { start: 0, end: source[index], step: 1 });
        }
    }
    assert(ranges@ =~= narrow_ranges(source@, axis as int, start as int, length as int));
    take_ranges(input, ranges.as_slice())
}

/// Splits one dimension into equal parts.
pub fn chunk<F: Copy>(input: &Tensor<F>, chunks: usize, axis: usize) -> (result: Result<
    Vec<Tensor<F>>,
    TensorError,
>)
    requires
        input@.wf(),
    ensures
        match result {
            Ok(parts) => {
                &&& chunks > 0 && axis < input@.shape.len()
                &&& input@.shape[axis as int] % chunks == 0
                &&& parts@.len() == chunks
                &&& forall|index: int|
                    0 <= index < chunks ==> narrowed(
                        input@,
                        axis as int,
                        index * (input@.shape[axis as int] / chunks),
                        (input@.shape[axis as int] / chunks) as int,
                    ) == Ok::<TensorView<F>, TensorError>((#[trigger] parts@[index])@)
            },
            Err(error) => if chunks == 0 {
                error == TensorError::Division
            } else if axis >= input@.shape.len() {
                error == TensorError::Axis
            } else if input@.shape[axis as int] % chunks != 0 {
                error == TensorError::Division
            } else {
                exists|index: int|
                    0 <= index < chunks && #[trigger] narrowed(
                        input@,
                        axis as int,
                        index * (input@.shape[axis as int] / chunks),
                        (input@.shape[axis as int] / chunks) as int,
                    ) == Err::<TensorView<F>, TensorError>(error)
            },
        },
{
    if chunks == 0 {
        return Err(TensorError::Division);
    }
    let size: usize = match input.dim(axis) {
        Err(error) => {
            return Err(error);
        },
        Ok(size) => size,
    };
    if size % chunks != 0 {
        return Err(TensorError::Division);
    }
    let part: usize = size / chunks;
    proof {
        lemma_encode(size as int, chunks as int);
        assert(part * chunks == chunks * part) by (nonlinear_arith);
    }
    let mut parts: Vec<Tensor<F>> = Vec::with_capacity(chunks);
    for index in 0..chunks
        invariant
            input@.wf(),
            axis < input@.shape.len(),
            size == input@.shape[axis as int],
            chunks > 0,
            size % chunks == 0,
            part == size / chunks,
            size == chunks * part,
            parts@.len() == index,
            forall|i: int|
                0 <= i < index ==> narrowed(input@, axis as int, i * part, part as int) == Ok::<
                    TensorView<F>,
                    TensorError,
                >((#[trigger] parts@[i])@),
    {
        proof {
            lemma_scale(index + 1, chunks as int, part as int);
            lemma_scale(0, index as int, part as int);
            assert((index + 1) * part == index * part + part) by (nonlinear_arith);
        }
        match narrow(input, axis, index * part, part) {
            Err(error) => {
                assert(narrowed(input@, axis as int, index * part, part as int) == Err::<
                    TensorView<F>,
                    TensorError,
                >(error));
                return Err(error);
            },
            Ok(tensor) => {
                parts.push(tensor);
            },
        }
    }
    Ok(parts)
}

} // verus!
