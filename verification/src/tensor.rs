//! Row-major tensors.
//!
//! A tensor holds either integers or elements of a type that the caller chooses;
//! the latter stand for the floating-point values of a model.
use crate::shape::{count_of, element_count, IntoShape};
use vstd::prelude::*;

verus! {

/// Why an operation on tensors is refused.
#[derive(Clone, Copy, Debug, PartialEq, Eq, Structural)]
pub enum TensorError {
    /// The elements of a shape cannot be counted.
    ShapeOverflow,
    /// A shape and a number of values do not belong together.
    LengthMismatch,
    /// The tensor holds integers.
    ExpectedF32,
    /// The tensor does not hold integers.
    ExpectedI64,
    /// The number of inputs is wrong.
    InputCount,
    /// The number of dimensions is wrong.
    Rank,
    /// An axis is not one of the tensor's.
    Axis,
    /// Two dimensions cannot be broadcast to each other.
    Broadcast,
    /// Shapes do not belong together.
    ShapeMismatch,
    /// A permutation names a dimension twice or not at all.
    Permutation,
    /// A requested shape names no dimension, or more than one to be inferred.
    Reshape,
    /// A dimension does not fit in the integer type of shapes.
    DimensionRange,
    /// A step is not positive.
    Step,
    /// A dimension to be removed is not one.
    Squeeze,
    /// An axis is named twice.
    DuplicateAxis,
    /// The axes are not the last ones.
    SuffixAxes,
    /// Kernel, stride or group count is zero.
    Geometry,
    /// The kernel is larger than the padded input.
    KernelTooLarge,
    /// Channel counts do not belong together.
    Channels,
    /// The bias has a wrong length.
    Bias,
    /// An output dimension is not positive.
    EmptyOutput,
    /// A weight cannot be rearranged.
    Pack,
    /// A dimension cannot be divided evenly.
    Division,
    /// A layer has no features.
    Features,
    /// The number that keeps a variance above zero is negative or none.
    Epsilon,
}

/// The values of a tensor.
pub enum TensorData<F> {
    F32(Vec<F>),
    I64(Vec<i64>),
}

/// The values of a tensor, as sequences.
pub enum DataView<F> {
    F32(Seq<F>),
    I64(Seq<i64>),
}

impl<F> DataView<F> {
    /// The number of values.
    pub open spec fn len(self) -> nat {
        match self {
            DataView::F32(values) => values.len(),
            DataView::I64(values) => values.len(),
        }
    }

    /// The values at other places: entry `i` comes from `place(i)`.
    pub open spec fn rearranged(self, len: nat, place: spec_fn(int) -> int) -> DataView<F> {
        match self {
            DataView::F32(values) => DataView::F32(Seq::new(len, |i: int| values[place(i)])),
            DataView::I64(values) => DataView::I64(Seq::new(len, |i: int| values[place(i)])),
        }
    }
}

/// What a tensor is: its dimensions and its values in row-major order.
pub struct TensorView<F> {
    pub shape: Seq<usize>,
    pub data: DataView<F>,
}

impl<F> TensorView<F> {
    /// The shape has as many elements as there are values.
    pub open spec fn wf(self) -> bool {
        count_of(self.shape) == Some(self.data.len() as usize) && self.data.len() <= usize::MAX
    }
}

/// A row-major tensor.
pub struct Tensor<F> {
    shape: Vec<usize>,
    data: TensorData<F>,
}

impl<F> View for Tensor<F> {
    type V = TensorView<F>;

    closed spec fn view(&self) -> TensorView<F> {
        TensorView {
            shape: self.shape@,
            data: match self.data {
                TensorData::F32(values) => DataView::F32(values@),
                TensorData::I64(values) => DataView::I64(values@),
            },
        }
    }
}

/// A shape and a number of values belong together.
pub fn validate_len(shape: &[usize], len: usize) -> (result: Result<(), TensorError>)
    ensures
        match result {
            Ok(()) => count_of(shape@) == Some(len),
            Err(TensorError::ShapeOverflow) => count_of(shape@) is None,
            Err(error) => error == TensorError::LengthMismatch && (count_of(
                shape@,
            ) matches Some(expected) && expected != len),
        },
{
    match element_count(shape) {
        None => Err(TensorError::ShapeOverflow),
        Some(expected) => {
            if expected != len {
                Err(TensorError::LengthMismatch)
            } else {
                Ok(())
            }
        },
    }
}

impl<F: Copy> Tensor<F> {
    /// A tensor of a shape, with values in row-major order.
    pub fn from_f32<S: IntoShape>(shape: S, data: Vec<F>) -> (result: Result<Self, TensorError>)
        ensures
            match result {
                Ok(tensor) => tensor@ == (TensorView {
                    shape: shape.dimensions(),
                    data: DataView::F32(data@),
                }) && tensor@.wf(),
                Err(TensorError::ShapeOverflow) => count_of(shape.dimensions()) is None,
                Err(error) => error == TensorError::LengthMismatch && (count_of(
                    shape.dimensions(),
                ) matches Some(expected) && expected != data@.len()),
            },
    {
        let shape: Vec<usize> = shape.into_shape();
        match validate_len(shape.as_slice(), data.len()) {
            Ok(()) => Ok(Tensor { shape, data: TensorData::F32(data) }),
            Err(error) => Err(error),
        }
    }

    /// A tensor of integers.
    pub fn from_i64<S: IntoShape>(shape: S, data: Vec<i64>) -> (result: Result<Self, TensorError>)
        ensures
            match result {
                Ok(tensor) => tensor@ == (TensorView::<F> {
                    shape: shape.dimensions(),
                    data: DataView::I64(data@),
                }) && tensor@.wf(),
                Err(TensorError::ShapeOverflow) => count_of(shape.dimensions()) is None,
                Err(error) => error == TensorError::LengthMismatch && (count_of(
                    shape.dimensions(),
                ) matches Some(expected) && expected != data@.len()),
            },
    {
        let shape: Vec<usize> = shape.into_shape();
        match validate_len(shape.as_slice(), data.len()) {
            Ok(()) => Ok(Tensor { shape, data: TensorData::I64(data) }),
            Err(error) => Err(error),
        }
    }

    /// A tensor of a shape that is known to have as many elements as there are
    /// values.
    pub fn new_f32(shape: Vec<usize>, data: Vec<F>) -> (tensor: Self)
        requires
            count_of(shape@) == Some(data@.len() as usize),
        ensures
            tensor@ == (TensorView { shape: shape@, data: DataView::F32(data@) }),
            tensor@.wf(),
    {
        assert(data@.len() == data.len());
        Tensor { shape, data: TensorData::F32(data) }
    }

    /// A tensor of integers of a shape that is known to have as many elements as
    /// there are values.
    pub fn new_i64(shape: Vec<usize>, data: Vec<i64>) -> (tensor: Self)
        requires
            count_of(shape@) == Some(data@.len() as usize),
        ensures
            tensor@ == (TensorView::<F> { shape: shape@, data: DataView::I64(data@) }),
            tensor@.wf(),
    {
        assert(data@.len() == data.len());
        Tensor { shape, data: TensorData::I64(data) }
    }

    /// The dimensions.
    pub fn shape(&self) -> (result: &[usize])
        ensures
            result@ == self@.shape,
    {
        self.shape.as_slice()
    }

    /// The values.
    pub fn data(&self) -> (result: &TensorData<F>)
        ensures
            self@.data == (match *result {
                TensorData::F32(values) => DataView::F32(values@),
                TensorData::I64(values) => DataView::I64(values@),
            }),
    {
        &self.data
    }

    /// The number of elements.
    pub fn len(&self) -> (result: usize)
        ensures
            result == self@.data.len(),
    {
        match &self.data {
            TensorData::F32(values) => values.len(),
            TensorData::I64(values) => values.len(),
        }
    }

    /// Whether there are no elements.
    pub fn is_empty(&self) -> (result: bool)
        ensures
            result == (self@.data.len() == 0),
    {
        self.len() == 0
    }

    /// The values, unless they are integers.
    pub fn as_f32(&self) -> (result: Result<&[F], TensorError>)
        ensures
            match result {
                Ok(values) => self@.data == DataView::F32(values@),
                Err(error) => error == TensorError::ExpectedF32 && self@.data is I64,
            },
    {
        match &self.data {
            TensorData::F32(values) => Ok(values.as_slice()),
            TensorData::I64(_) => Err(TensorError::ExpectedF32),
        }
    }

    /// The values, if they are integers.
    pub fn as_i64(&self) -> (result: Result<&[i64], TensorError>)
        ensures
            match result {
                Ok(values) => self@.data == DataView::<F>::I64(values@),
                Err(error) => error == TensorError::ExpectedI64 && self@.data is F32,
            },
    {
        match &self.data {
            TensorData::I64(values) => Ok(values.as_slice()),
            TensorData::F32(_) => Err(TensorError::ExpectedI64),
        }
    }

    /// The values, unless they are integers.
    pub fn into_f32(self) -> (result: Result<Vec<F>, TensorError>)
        ensures
            match result {
                Ok(values) => self@.data == DataView::F32(values@),
                Err(error) => error == TensorError::ExpectedF32 && self@.data is I64,
            },
    {
        match self.data {
            TensorData::F32(values) => Ok(values),
            TensorData::I64(_) => Err(TensorError::ExpectedF32),
        }
    }

    /// The values, if they are integers.
    pub fn into_i64(self) -> (result: Result<Vec<i64>, TensorError>)
        ensures
            match result {
                Ok(values) => self@.data == DataView::<F>::I64(values@),
                Err(error) => error == TensorError::ExpectedI64 && self@.data is F32,
            },
    {
        match self.data {
            TensorData::I64(values) => Ok(values),
            TensorData::F32(_) => Err(TensorError::ExpectedI64),
        }
    }

    /// A tensor with the same values in the same order and another shape.
    pub fn with_shape(&self, shape: Vec<usize>) -> (tensor: Self)
        ensures
            tensor@ == (TensorView { shape: shape@, data: self@.data }),
    {
        let data: TensorData<F> = match &self.data {
            TensorData::F32(values) => TensorData::F32(
                vstd::slice::slice_to_vec(values.as_slice()),
            ),
            TensorData::I64(values) => TensorData::I64(
                vstd::slice::slice_to_vec(values.as_slice()),
            ),
        };
        Tensor { shape, data }
    }

    /// A tensor with the same shape and values.
    pub fn duplicate(&self) -> (tensor: Self)
        ensures
            tensor@ == self@,
    {
        self.with_shape(vstd::slice::slice_to_vec(self.shape.as_slice()))
    }

    /// The number of dimensions.
    pub fn rank(&self) -> (result: usize)
        ensures
            result == self@.shape.len(),
    {
        self.shape.len()
    }

    /// The size of a dimension.
    pub fn dim(&self, axis: usize) -> (result: Result<usize, TensorError>)
        ensures
            match result {
                Ok(size) => axis < self@.shape.len() && size == self@.shape[axis as int],
                Err(error) => error == TensorError::Axis && axis >= self@.shape.len(),
            },
    {
        if axis < self.shape.len() {
            Ok(self.shape[axis])
        } else {
            Err(TensorError::Axis)
        }
    }

    /// The two dimensions of a matrix.
    pub fn dims2(&self) -> (result: Result<(usize, usize), TensorError>)
        ensures
            match result {
                Ok(sizes) => self@.shape == seq![sizes.0, sizes.1],
                Err(error) => error == TensorError::Rank && self@.shape.len() != 2,
            },
    {
        if self.shape.len() == 2 {
            assert(self.shape@ =~= seq![self.shape@[0], self.shape@[1]]);
            Ok((self.shape[0], self.shape[1]))
        } else {
            Err(TensorError::Rank)
        }
    }

    /// The three dimensions of a batch of matrices.
    pub fn dims3(&self) -> (result: Result<(usize, usize, usize), TensorError>)
        ensures
            match result {
                Ok(sizes) => self@.shape == seq![sizes.0, sizes.1, sizes.2],
                Err(error) => error == TensorError::Rank && self@.shape.len() != 3,
            },
    {
        if self.shape.len() == 3 {
            assert(self.shape@ =~= seq![self.shape@[0], self.shape@[1], self.shape@[2]]);
            Ok((self.shape[0], self.shape[1], self.shape[2]))
        } else {
            Err(TensorError::Rank)
        }
    }

    /// The four dimensions of a batch of images.
    pub fn dims4(&self) -> (result: Result<(usize, usize, usize, usize), TensorError>)
        ensures
            match result {
                Ok(sizes) => self@.shape == seq![sizes.0, sizes.1, sizes.2, sizes.3],
                Err(error) => error == TensorError::Rank && self@.shape.len() != 4,
            },
    {
        if self.shape.len() == 4 {
            assert(self.shape@ =~= seq![
                self.shape@[0],
                self.shape@[1],
                self.shape@[2],
                self.shape@[3],
            ]);
            Ok((self.shape[0], self.shape[1], self.shape[2], self.shape[3]))
        } else {
            Err(TensorError::Rank)
        }
    }
}

} // verus!
