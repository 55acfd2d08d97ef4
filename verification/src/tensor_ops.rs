//! Operations that models use on tensors.
use vstd::prelude::*;
use crate::accumulate::Arithmetic;
use crate::conv::lemma_product4;
use crate::elementwise::{affine_in_place, residual_of};
use crate::index::lemma_encode;
use crate::layout::{agrees, lemma_wf_count, transpose, transpose_result, views};
use crate::reshape::{reshape_to, reshaped, squeeze_axes, squeezed};
use crate::shape::{counts, element_count, product, IntoShape};
use crate::tensor::{Tensor, TensorError, TensorView};

verus! {

/// Dimensions as they are requested of a reshape.
pub open spec fn requested_of(shape: Seq<usize>) -> Seq<i64> {
    shape.map_values(|size: usize| size as i64)
}

/// The tensor in another shape; a dimension that has no place in a request is refused.
pub open spec fn reshape_of<F>(input: TensorView<F>, shape: Seq<usize>) -> Result<
    TensorView<F>,
    TensorError,
> {
    if exists|i: int| 0 <= i < shape.len() && #[trigger] shape[i] > i64::MAX {
        Err(TensorError::DimensionRange)
    } else {
        reshaped(input, requested_of(shape))
    }
}

/// The shape with the dimensions from `start` to `end` made one.
pub open spec fn flattened_shape(shape: Seq<usize>, start: int, end: int) -> Seq<usize> {
    shape.take(start).push(product(shape.subrange(start, end + 1)) as usize) + shape.skip(end + 1)
}

/// What flattening gives.
pub open spec fn flattened<F>(input: TensorView<F>, start: int, end: int) -> Result<
    TensorView<F>,
    TensorError,
> {
    if start > end || end >= input.shape.len() {
        Err(TensorError::Axis)
    } else if !counts(input.shape.subrange(start, end + 1)) {
        Err(TensorError::ShapeOverflow)
    } else {
        reshape_of(input, flattened_shape(input.shape, start, end))
    }
}

/// The order of dimensions with two of them swapped.
pub open spec fn swapped_order(rank: int, first: int, second: int) -> Seq<usize> {
    Seq::new(
        rank as nat,
        |i: int|
            if i == first {
                second as usize
            } else if i == second {
                first as usize
            } else {
                i as usize
            },
    )
}

/// What swapping two dimensions gives.
pub open spec fn swapped<F>(input: TensorView<F>, first: int, second: int) -> Result<
    TensorView<F>,
    TensorError,
> {
    if first >= input.shape.len() || second >= input.shape.len() {
        Err(TensorError::Axis)
    } else {
        transpose_result(seq![input], swapped_order(input.shape.len() as int, first, second))
    }
}

/// Why a gate is refused; `None` where it is not.
pub open spec fn gate_error<F>(input: TensorView<F>, gate: TensorView<F>) -> Option<TensorError> {
    if input.shape.len() != 4 || gate.shape.len() != 4 {
        Some(TensorError::Rank)
    } else if gate.shape != seq![input.shape[0], input.shape[1], 1usize, 1usize] {
        Some(TensorError::ShapeMismatch)
    } else if input.shape[2] * input.shape[3] > usize::MAX {
        Some(TensorError::ShapeOverflow)
    } else if gate.data is I64 || input.data is I64 {
        Some(TensorError::ExpectedF32)
    } else if input.shape[2] * input.shape[3] == 0 {
        Some(TensorError::EmptyOutput)
    } else {
        None
    }
}

/// Whether every value has its product with the factor of its plane added.
pub open spec fn is_gated<F, M: Fn(F, F, F) -> F>(
    arithmetic: &Arithmetic<F, M>,
    one: F,
    input: TensorView<F>,
    gate: TensorView<F>,
    result: TensorView<F>,
) -> bool {
    &&& result.wf()
    &&& result.shape == input.shape
    &&& result.data is F32
    &&& result.data.len() == input.data.len()
    &&& forall|i: int|
        0 <= i < input.data.len() ==> residual_of(
            arithmetic,
            one,
            input.data->F32_0[i],
            gate.data->F32_0[i / (input.shape[2] * input.shape[3])],
            #[trigger] result.data->F32_0[i],
        )
}

impl<F: Copy> Tensor<F> {
    /// The tensor in another shape.
    pub fn reshape<S: IntoShape>(&self, shape: S) -> (result: Result<Tensor<F>, TensorError>)
        requires
            self@.wf(),
        ensures
            agrees(result, reshape_of(self@, shape.dimensions())),
    {
        let sizes: Vec<usize> = shape.into_shape();
        let mut requested: Vec<i64> = Vec::new();
        assert(requested_of(sizes@).take(0) =~= requested@);
        for index in 0..sizes.len()
            invariant
                requested@ == requested_of(sizes@).take(index as int),
                forall|i: int| 0 <= i < index ==> #[trigger] sizes@[i] <= i64::MAX,
                sizes@ == shape.dimensions(),
        {
            if sizes[index] as u64 > i64::MAX as u64 {
                assert(sizes@[index as int] > i64::MAX);
                return Err(TensorError::DimensionRange);
            }
            requested.push(sizes[index] as i64);
            assert(requested@ =~= requested_of(sizes@).take(index + 1));
        }
        assert(requested_of(sizes@).take(sizes@.len() as int) =~= requested_of(sizes@));
        reshape_to(self, requested.as_slice())
    }

    /// The tensor with the dimensions from `start` to `end` made one.
    pub fn flatten(&self, start: usize, end: usize) -> (result: Result<Tensor<F>, TensorError>)
        requires
            self@.wf(),
        ensures
            agrees(result, flattened(self@, start as int, end as int)),
    {
        let shape: &[usize] = self.shape();
        let rank: usize = shape.len();
        if start > end || end >= rank {
            return Err(TensorError::Axis);
        }
        let part: &[usize] = vstd::slice::slice_subrange(shape, start, end + 1);
        let count: usize = match element_count(part) {
            None => {
                return Err(TensorError::ShapeOverflow);
            },
            Some(count) => count,
        };
        let mut sizes: Vec<usize> = vstd::slice::slice_to_vec(
            vstd::slice::slice_subrange(shape, 0, start),
        );
        sizes.push(count);
        let ghost lead = sizes@;
        assert(lead =~= shape@.take(start as int).push(count));
        assert(lead + shape@.subrange(end + 1, end + 1) =~= lead);
        for index in end + 1..rank
            invariant
                end < rank,
                rank == shape@.len(),
                sizes@ == lead + shape@.subrange(end + 1, index as int),
        {
            sizes.push(shape[index]);
            assert(sizes@ =~= lead + shape@.subrange(end + 1, index + 1));
        }
        assert(shape@.subrange(end + 1, rank as int) =~= shape@.skip(end + 1));
        self.reshape(sizes)
    }

    /// The tensor with its dimensions in another order.
    pub fn permute<S: IntoShape>(&self, permutation: S) -> (result: Result<Tensor<F>, TensorError>)
        requires
            self@.wf(),
        ensures
            agrees(result, transpose_result(seq![self@], permutation.dimensions())),
    {
        let order: Vec<usize> = permutation.into_shape();
        let mut inputs: Vec<Tensor<F>> = Vec::new();
        inputs.push(self.duplicate());
        assert(views(inputs@) =~= seq![self@]);
        transpose(inputs.as_slice(), order.as_slice())
    }

    /// The tensor with two dimensions swapped.
    pub fn transpose(&self, first: usize, second: usize) -> (result: Result<
        Tensor<F>,
        TensorError,
    >)
        requires
            self@.wf(),
        ensures
            agrees(result, swapped(self@, first as int, second as int)),
    {
        let rank: usize = self.rank();
        if first >= rank || second >= rank {
            return Err(TensorError::Axis);
        }
        let ghost wanted = swapped_order(rank as int, first as int, second as int);
        let mut order: Vec<usize> = Vec::new();
        for index in 0..rank
            invariant
                wanted == swapped_order(rank as int, first as int, second as int),
                order@ == wanted.take(index as int),
        {
            order.push(
                if index == first {
                    second
                } else if index == second {
                    first
                } else {
                    index
                },
            );
            assert(order@ =~= wanted.take(index + 1));
        }
        assert(wanted.take(rank as int) =~= wanted);
        self.permute(order)
    }

    /// The tensor without a dimension of one.
    pub fn squeeze(&self, axis: usize) -> (result: Result<Tensor<F>, TensorError>)
        requires
            self@.wf(),
        ensures
            if axis > i64::MAX {
                result matches Err(error) && error == TensorError::DimensionRange
            } else {
                agrees(result, squeezed(self@, seq![axis as i64]))
            },
    {
        if axis as u64 > i64::MAX as u64 {
            return Err(TensorError::DimensionRange);
        }
        let axes: [i64; 1] = [axis as i64];
        let slice: &[i64] = vstd::array::array_as_slice(&axes);
        assert(slice@ =~= seq![axis as i64]);
        squeeze_axes(self, slice)
    }

    /// Adds to each value its product with the factor of its plane.
    pub fn into_residual_mul<M: Fn(F, F, F) -> F>(
        self,
        arithmetic: &Arithmetic<F, M>,
        one: F,
        gate: &Tensor<F>,
    ) -> (result: Result<Tensor<F>, TensorError>)
        requires
            arithmetic.valid(),
            self@.wf(),
            gate@.wf(),
        ensures
            match result {
                Ok(tensor) => gate_error(self@, gate@) is None && is_gated(
                    arithmetic,
                    one,
                    self@,
                    gate@,
                    tensor@,
                ),
                Err(error) => gate_error(self@, gate@) == Some(error),
            },
    {
        let (batch, channels, height, width): (usize, usize, usize, usize) = match self.dims4() {
            Err(error) => {
                return Err(error);
            },
            Ok(sizes) => sizes,
        };
        let (first, second, third, fourth): (usize, usize, usize, usize) = match gate.dims4() {
            Err(error) => {
                return Err(error);
            },
            Ok(sizes) => sizes,
        };
        proof {
            assert(gate@.shape =~= seq![first, second, third, fourth]);
            assert(self@.shape =~= seq![batch, channels, height, width]);
        }
        if first != batch || second != channels || third != 1 || fourth != 1 {
            proof {
                let wanted = seq![batch, channels, 1usize, 1usize];
                assert(gate@.shape[0] == first && gate@.shape[1] == second && gate@.shape[2]
                    == third && gate@.shape[3] == fourth);
                assert(wanted[0] == batch && wanted[1] == channels && wanted[2] == 1 && wanted[3]
                    == 1);
            }
            return Err(TensorError::ShapeMismatch);
        }
        let plane: usize = match height.checked_mul(width) {
            None => {
                return Err(TensorError::ShapeOverflow);
            },
            Some(plane) => plane,
        };
        let gates: &[F] = match gate.as_f32() {
            Err(error) => {
                return Err(error);
            },
            Ok(values) => values,
        };
        let values: &[F] = match self.as_f32() {
            Err(error) => {
                return Err(error);
            },
            Ok(values) => values,
        };
        if plane == 0 {
            return Err(TensorError::EmptyOutput);
        }
        let len: usize = values.len();
        let ghost planes: int = batch * channels;
        proof {
            lemma_wf_count(self@);
            lemma_wf_count(gate@);
            lemma_product4(batch, channels, height, width);
            lemma_product4(batch, channels, 1, 1);
            assert(planes * (1 * 1) == planes) by (nonlinear_arith);
        }
        let mut output: Vec<F> = Vec::with_capacity(len);
        for index in 0..len
            invariant
                arithmetic.valid(),
                len == values@.len(),
                len == planes * plane,
                gates@.len() == planes,
                plane > 0,
                output@.len() == index,
                forall|i: int|
                    0 <= i < index ==> residual_of(
                        arithmetic,
                        one,
                        values@[i],
                        gates@[i / plane as int],
                        #[trigger] output@[i],
                    ),
        {
            let row: usize = index / plane;
            proof {
                lemma_encode(index as int, plane as int);
                assert(row < planes) by (nonlinear_arith)
                    requires
                        index < planes * plane,
                        index == row * plane + index as int % plane as int,
                        index as int % plane as int >= 0,
                        plane > 0,
                ;
            }
            let original: F = values[index];
            let scaled: F = (arithmetic.mul_add)(original, gates[row], arithmetic.zero);
            let value: F = (arithmetic.mul_add)(scaled, one, original);
            assert(residual_of(arithmetic, one, original, gates@[row as int], value));
            output.push(value);
        }
        Ok(Tensor::new_f32(vstd::slice::slice_to_vec(self.shape()), output))
    }

    /// Scales every value and adds a constant.
    pub fn into_affine<M: Fn(F, F, F) -> F>(
        self,
        arithmetic: &Arithmetic<F, M>,
        scale: F,
        bias: F,
    ) -> (result: Result<Tensor<F>, TensorError>)
        requires
            arithmetic.valid(),
            self@.wf(),
        ensures
            match result {
                Ok(tensor) => {
                    &&& self@.data is F32
                    &&& tensor@.wf()
                    &&& tensor@.shape == self@.shape
                    &&& tensor@.data is F32
                    &&& tensor@.data.len() == self@.data.len()
                    &&& forall|i: int|
                        0 <= i < self@.data.len() ==> call_ensures(
                            arithmetic.mul_add,
                            (self@.data->F32_0[i], scale, bias),
                            #[trigger] tensor@.data->F32_0[i],
                        )
                },
                Err(error) => self@.data is I64 && error == TensorError::ExpectedF32,
            },
    {
        match self.as_f32() {
            Err(error) => Err(error),
            Ok(values) => {
                let mut output: Vec<F> = vstd::slice::slice_to_vec(values);
                affine_in_place(arithmetic, output.as_mut_slice(), scale, bias);
                Ok(Tensor::new_f32(vstd::slice::slice_to_vec(self.shape()), output))
            },
        }
    }
}

} // verus!
