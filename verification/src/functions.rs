//! The functions on values that a network is run with, and the steps that they
//! take part in. A step that is handed a refusal hands it on.
use vstd::prelude::*;
use crate::accumulate::{activation_valid, Arithmetic};
use crate::broadcast::{binary, binary_error, combines, maps, unary};
use crate::conv_layer::{is_forward, Conv2d};
use crate::conv_transpose_layer::{is_transpose_forward, ConvTranspose2d};
use crate::elementwise::keeps_length;
use crate::layout::{axis_of, transpose_result, views};
use crate::linear::{is_linear_result, is_norm_result, normalizes, LayerNorm, Linear};
use crate::matmul::{is_matmul, matmul, matmul_error};
use crate::pooling::{
    is_pooled, pool, pool_shape_of, scale_error, scale_nearest, scaled, view_of, PoolOptions,
};
use crate::reduction::{
    global_average_pool, maps_rows, planes_error, pools_planes, softmax, softmax_error,
};
use crate::reshape::squeezed;
use crate::single::Single;
use crate::slicing::{narrow, narrowed};
use crate::tensor::{Tensor, TensorError, TensorView};
use crate::tensor_ops::{flattened, gate_error, is_gated, reshape_of, swapped};

verus! {

/// A tensor or why there is none.
pub type Outcome = Result<Tensor<Single>, TensorError>;

/// What an outcome holds.
pub type Seen = Result<TensorView<Single>, TensorError>;

/// A function that is applied to each value.
#[derive(Clone, Copy, Debug, PartialEq, Eq, Structural)]
pub enum Activation {
    Identity,
    Relu,
    Silu,
    Gelu,
    HardSigmoid,
    HardSigmoidFive,
    HardSwish,
    Sigmoid,
}

/// The functions on values.
pub struct Functions<M, U, B, R, N, D, P, H> {
    pub arithmetic: Arithmetic<Single, M>,
    pub one: Single,
    pub relu: U,
    pub silu: U,
    pub gelu: U,
    pub hard_sigmoid: U,
    /// The hard sigmoid with a slope of a fifth.
    pub hard_sigmoid_five: U,
    pub hard_swish: U,
    pub sigmoid: U,
    pub addition: B,
    pub product: B,
    /// Turns a row into shares of one.
    pub softmax: R,
    /// Normalises a row with a scale, an offset and an epsilon.
    pub normalize: N,
    pub mean: D,
    /// The greatest value of a window.
    pub maximum: P,
    /// The mean of a window over the given number of cells.
    pub average: P,
    /// The factor of the scores of heads with the given number of features.
    pub head_scale: H,
    pub single_thread: bool,
}

/// The function takes every value.
pub open spec fn takes_all<U: Fn(Single) -> Single>(function: U) -> bool {
    forall|value: Single| #[trigger] call_requires(function, (value,))
}

/// What is seen of an outcome is well formed.
pub open spec fn sound(outcome: Seen) -> bool {
    outcome matches Ok(tensor) ==> tensor.wf()
}

/// The tensor with a shape of the same size.
pub open spec fn reshaped(input: Seen, shape: Seq<usize>) -> Seen {
    match input {
        Ok(tensor) => reshape_of(tensor, shape),
        Err(error) => Err(error),
    }
}

/// The tensor with its dimensions in another order.
pub open spec fn permuted(input: Seen, order: Seq<usize>) -> Seen {
    match input {
        Ok(tensor) => transpose_result(seq![tensor], order),
        Err(error) => Err(error),
    }
}

/// The tensor with two dimensions exchanged.
pub open spec fn exchanged(input: Seen, first: int, second: int) -> Seen {
    match input {
        Ok(tensor) => swapped(tensor, first, second),
        Err(error) => Err(error),
    }
}

/// The tensor without a dimension of size one.
pub open spec fn narrowed_by(input: Seen, axis: i64) -> Seen {
    match input {
        Ok(tensor) => squeezed(tensor, seq![axis]),
        Err(error) => Err(error),
    }
}

/// The tensor with its last two of four dimensions made one.
pub open spec fn rows_joined(input: Seen) -> Seen {
    match input {
        Ok(tensor) => flattened(tensor, 2, 3),
        Err(error) => Err(error),
    }
}

/// One of the parts that the first dimension counts.
pub open spec fn part_at(input: Seen, index: int) -> Seen {
    match input {
        Ok(tensor) => narrowed_by(narrowed(tensor, 0, index, 1), 0),
        Err(error) => Err(error),
    }
}

/// The planes repeated along both sides.
pub open spec fn upsampled(input: Seen, scale: usize) -> Seen {
    match input {
        Err(error) => Err(error),
        Ok(tensor) => if scale == 1 {
            Ok(tensor)
        } else if tensor.shape.len() != 4 {
            Err(TensorError::Rank)
        } else if tensor.shape[2] * scale > usize::MAX || tensor.shape[3] * scale > usize::MAX {
            Err(TensorError::ShapeOverflow)
        } else if tensor.shape[0] > i64::MAX || tensor.shape[1] > i64::MAX || tensor.shape[2] * scale
            > i64::MAX || tensor.shape[3] * scale > i64::MAX {
            Err(TensorError::DimensionRange)
        } else if tensor.data is I64 {
            Err(TensorError::ExpectedF32)
        } else {
            let height: usize = (tensor.shape[2] * scale) as usize;
            let width: usize = (tensor.shape[3] * scale) as usize;
            match scale_error(tensor.shape, height, width) {
                Some(error) => Err(error),
                None => Ok(scaled(tensor, height, width)),
            }
        },
    }
}

/// Gives a tensor another shape.
pub fn reshape_step<const K: usize>(input: Outcome, shape: [usize; K]) -> (result: Outcome)
    requires
        sound(view_of(input)),
    ensures
        view_of(result) == reshaped(view_of(input), shape@),
        sound(view_of(result)),
{
    match input {
        Ok(tensor) => tensor.reshape(shape),
        Err(error) => Err(error),
    }
}

/// Reorders the dimensions of a tensor.
pub fn permute_step<const K: usize>(input: Outcome, order: [usize; K]) -> (result: Outcome)
    requires
        sound(view_of(input)),
    ensures
        view_of(result) == permuted(view_of(input), order@),
        sound(view_of(result)),
{
    match input {
        Ok(tensor) => tensor.permute(order),
        Err(error) => Err(error),
    }
}

/// Exchanges two dimensions of a tensor.
pub fn exchange_step(input: Outcome, first: usize, second: usize) -> (result: Outcome)
    requires
        sound(view_of(input)),
    ensures
        view_of(result) == exchanged(view_of(input), first as int, second as int),
        sound(view_of(result)),
{
    match input {
        Ok(tensor) => tensor.transpose(first, second),
        Err(error) => Err(error),
    }
}

/// Removes a dimension of size one.
pub fn squeeze_step(input: Outcome, axis: usize) -> (result: Outcome)
    requires
        sound(view_of(input)),
        axis <= i64::MAX,
    ensures
        view_of(result) == narrowed_by(view_of(input), axis as i64),
        sound(view_of(result)),
{
    match input {
        Ok(tensor) => tensor.squeeze(axis),
        Err(error) => Err(error),
    }
}

/// Makes the last two of four dimensions one.
pub fn flatten_step(input: Outcome) -> (result: Outcome)
    requires
        sound(view_of(input)),
    ensures
        view_of(result) == rows_joined(view_of(input)),
        sound(view_of(result)),
{
    match input {
        Ok(tensor) => tensor.flatten(2, 3),
        Err(error) => Err(error),
    }
}

/// Takes one of the parts that the first dimension counts.
pub fn part_step(input: &Outcome, index: usize) -> (result: Outcome)
    requires
        sound(view_of(*input)),
    ensures
        view_of(result) == part_at(view_of(*input), index as int),
        sound(view_of(result)),
{
    match input {
        Ok(tensor) => squeeze_step(narrow(tensor, 0, index, 1), 0),
        Err(error) => Err(*error),
    }
}

/// Repeats the planes along both sides.
pub fn upsample(input: &Tensor<Single>, scale: usize) -> (result: Outcome)
    requires
        input@.wf(),
    ensures
        view_of(result) == upsampled(Ok(input@), scale),
        sound(view_of(result)),
{
    if scale == 1 {
        return Ok(input.duplicate());
    }
    let (batch, channels, height, width): (usize, usize, usize, usize) = match input.dims4() {
        Ok(dimensions) => dimensions,
        Err(error) => {
            return Err(error);
        },
    };
    match (height.checked_mul(scale), width.checked_mul(scale)) {
        (Some(tall), Some(wide)) => {
            if batch as u64 > i64::MAX as u64 || channels as u64 > i64::MAX as u64 || tall as u64
                > i64::MAX as u64 || wide as u64 > i64::MAX as u64 {
                return Err(TensorError::DimensionRange);
            }
            match input.as_f32() {
                Err(error) => {
                    return Err(error);
                },
                Ok(_) => {},
            }
            scale_nearest(input, tall, wide)
        },
        _ => Err(TensorError::ShapeOverflow),
    }
}

impl<
    M: Fn(Single, Single, Single) -> Single,
    U: Fn(Single) -> Single,
    B: Fn(Single, Single) -> Single,
    R: Fn(Vec<Single>) -> Vec<Single>,
    N: Fn(Vec<Single>, Vec<Single>, Vec<Single>, Single) -> Vec<Single>,
    D: Fn(Vec<Single>) -> Single,
    P: Fn(Vec<Single>, usize) -> Single,
    H: Fn(usize) -> Single,
> Functions<M, U, B, R, N, D, P, H> {
    /// The functions take all values.
    pub open spec fn valid(&self) -> bool {
        &&& self.arithmetic.valid()
        &&& takes_all(self.relu) && takes_all(self.silu) && takes_all(self.gelu)
        &&& takes_all(self.hard_sigmoid) && takes_all(self.hard_sigmoid_five)
        &&& takes_all(self.hard_swish) && takes_all(self.sigmoid)
        &&& forall|a: Single, b: Single| #[trigger] call_requires(self.addition, (a, b))
        &&& forall|a: Single, b: Single| #[trigger] call_requires(self.product, (a, b))
        &&& keeps_length(self.softmax)
        &&& normalizes(self.normalize)
        &&& forall|row: Vec<Single>| #[trigger] call_requires(self.mean, (row,))
        &&& forall|list: Vec<Single>, count: usize| #[trigger]
            call_requires(self.maximum, (list, count))
        &&& forall|list: Vec<Single>, count: usize| #[trigger]
            call_requires(self.average, (list, count))
        &&& forall|size: usize| #[trigger] call_requires(self.head_scale, (size,))
    }

    /// The function of an activation; none leaves values as they are.
    pub open spec fn function_of(&self, activation: Activation) -> Option<&U> {
        match activation {
            Activation::Identity => None,
            Activation::Relu => Some(&self.relu),
            Activation::Silu => Some(&self.silu),
            Activation::Gelu => Some(&self.gelu),
            Activation::HardSigmoid => Some(&self.hard_sigmoid),
            Activation::HardSigmoidFive => Some(&self.hard_sigmoid_five),
            Activation::HardSwish => Some(&self.hard_swish),
            Activation::Sigmoid => Some(&self.sigmoid),
        }
    }

    /// The function of an activation.
    pub(crate) fn function(&self, activation: Activation) -> (result: Option<&U>)
        requires
            self.valid(),
        ensures
            result == self.function_of(activation),
            activation_valid(result),
            result matches Some(function) ==> takes_all(*function),
    {
        match activation {
            Activation::Identity => None,
            Activation::Relu => Some(&self.relu),
            Activation::Silu => Some(&self.silu),
            Activation::Gelu => Some(&self.gelu),
            Activation::HardSigmoid => Some(&self.hard_sigmoid),
            Activation::HardSigmoidFive => Some(&self.hard_sigmoid_five),
            Activation::HardSwish => Some(&self.hard_swish),
            Activation::Sigmoid => Some(&self.sigmoid),
        }
    }

    /// What an activation may give for a tensor.
    pub open spec fn activates(&self, activation: Activation, input: Seen, output: Seen) -> bool {
        match (input, self.function_of(activation)) {
            (Err(error), _) => output == Err::<TensorView<Single>, TensorError>(error),
            (Ok(tensor), None) => output == Ok::<TensorView<Single>, TensorError>(tensor),
            (Ok(tensor), Some(function)) => match output {
                Ok(result) => tensor.data is F32 && maps(*function, tensor, result),
                Err(error) => tensor.data is I64 && error == TensorError::ExpectedF32,
            },
        }
    }

    /// Applies an activation.
    pub fn activate(&self, activation: Activation, input: Outcome) -> (result: Outcome)
        requires
            self.valid(),
            sound(view_of(input)),
        ensures
            self.activates(activation, view_of(input), view_of(result)),
            sound(view_of(result)),
    {
        match (input, self.function(activation)) {
            (Err(error), _) => Err(error),
            (Ok(tensor), None) => Ok(tensor),
            (Ok(tensor), Some(function)) => {
                let inputs: Vec<Tensor<Single>> = vec![tensor];
                assert(inputs@[0] == tensor);
                unary(inputs.as_slice(), function)
            },
        }
    }

    /// What a convolution with an activation may give.
    pub open spec fn convolves(
        &self,
        layer: Conv2d<Single>,
        activation: Activation,
        input: Seen,
        output: Seen,
    ) -> bool {
        match input {
            Err(error) => output == Err::<TensorView<Single>, TensorError>(error),
            Ok(tensor) => is_forward(
                layer,
                &self.arithmetic,
                self.function_of(activation),
                self.single_thread,
                tensor,
                output,
            ),
        }
    }

    /// What a transposed convolution with an activation behind it may give.
    pub open spec fn spreads(
        &self,
        layer: ConvTranspose2d<Single>,
        activation: Activation,
        input: Seen,
        output: Seen,
    ) -> bool {
        exists|between: Seen|
            (match input {
                Err(error) => between == Err::<TensorView<Single>, TensorError>(error),
                Ok(tensor) => is_transpose_forward(
                    layer,
                    &self.arithmetic,
                    self.addition,
                    tensor,
                    between,
                ),
            }) && #[trigger] self.activates(activation, between, output)
    }

    /// Runs a transposed convolution with an activation behind it.
    pub fn spread(
        &self,
        layer: &ConvTranspose2d<Single>,
        activation: Activation,
        input: &Outcome,
    ) -> (result: Outcome)
        requires
            self.valid(),
            layer.wf(),
            sound(view_of(*input)),
        ensures
            self.spreads(*layer, activation, view_of(*input), view_of(result)),
            sound(view_of(result)),
    {
        let between: Outcome = match input {
            Err(error) => Err(*error),
            Ok(tensor) => layer.forward(&self.arithmetic, &self.addition, tensor),
        };
        self.activate(activation, between)
    }

    /// What a linear layer may give, with its rows turned into shares of one
    /// where `shares`.
    pub open spec fn projects(
        &self,
        layer: Linear<Single>,
        activation: Activation,
        shares: bool,
        input: Seen,
        output: Seen,
    ) -> bool {
        match input {
            Err(error) => output == Err::<TensorView<Single>, TensorError>(error),
            Ok(tensor) => match output {
                Ok(result) => layer.input_error(tensor) is None && is_linear_result(
                    layer,
                    &self.arithmetic,
                    self.function_of(activation),
                    if shares {
                        Some(&self.softmax)
                    } else {
                        None
                    },
                    tensor,
                    result,
                ),
                Err(error) => layer.input_error(tensor) == Some(error),
            },
        }
    }

    /// Runs a linear layer.
    pub fn project(
        &self,
        layer: &Linear<Single>,
        activation: Activation,
        shares: bool,
        input: &Outcome,
    ) -> (result: Outcome)
        requires
            self.valid(),
            layer.wf(),
            sound(view_of(*input)),
        ensures
            self.projects(*layer, activation, shares, view_of(*input), view_of(result)),
            sound(view_of(result)),
    {
        match input {
            Err(error) => Err(*error),
            Ok(tensor) => {
                let rows: Option<&R> = if shares {
                    Some(&self.softmax)
                } else {
                    None
                };
                layer.forward(&self.arithmetic, self.function(activation), rows, tensor)
            },
        }
    }

    /// What layer normalisation may give.
    pub open spec fn levels(&self, layer: LayerNorm<Single>, input: Seen, output: Seen) -> bool {
        match input {
            Err(error) => output == Err::<TensorView<Single>, TensorError>(error),
            Ok(tensor) => match output {
                Ok(result) => layer.input_error(tensor) is None && is_norm_result(
                    layer,
                    self.normalize,
                    tensor,
                    result,
                ),
                Err(error) => layer.input_error(tensor) == Some(error),
            },
        }
    }

    /// What a function of two values may give for two tensors.
    pub open spec fn merges(&self, function: B, left: Seen, right: Seen, output: Seen) -> bool {
        match (left, right) {
            (Err(error), _) => output == Err::<TensorView<Single>, TensorError>(error),
            (_, Err(error)) => output == Err::<TensorView<Single>, TensorError>(error),
            (Ok(first), Ok(second)) => match output {
                Ok(result) => binary_error(seq![first, second]) is None && combines(
                    function,
                    function,
                    first,
                    second,
                    result,
                ),
                Err(error) => binary_error(seq![first, second]) == Some(error),
            },
        }
    }

    /// Combines two tensors by a function of two values.
    pub fn merge(&self, function: &B, left: Outcome, right: Outcome) -> (result: Outcome)
        requires
            forall|a: Single, b: Single| #[trigger] call_requires(*function, (a, b)),
            sound(view_of(left)),
            sound(view_of(right)),
        ensures
            self.merges(*function, view_of(left), view_of(right), view_of(result)),
            sound(view_of(result)),
    {
        match (left, right) {
            (Err(error), _) => Err(error),
            (_, Err(error)) => Err(error),
            (Ok(first), Ok(second)) => {
                let inputs: Vec<Tensor<Single>> = vec![first, second];
                assert(inputs@[0] == first && inputs@[1] == second);
                assert(views(inputs@) =~= seq![first@, second@]);
                binary(inputs.as_slice(), function, function)
            },
        }
    }

    /// What adding to each value its product with the factor of its plane may
    /// give.
    pub open spec fn gates(&self, input: Seen, factors: Seen, output: Seen) -> bool {
        match (input, factors) {
            (Err(error), _) => output == Err::<TensorView<Single>, TensorError>(error),
            (_, Err(error)) => output == Err::<TensorView<Single>, TensorError>(error),
            (Ok(tensor), Ok(gate)) => match output {
                Ok(result) => gate_error(tensor, gate) is None && is_gated(
                    &self.arithmetic,
                    self.one,
                    tensor,
                    gate,
                    result,
                ),
                Err(error) => gate_error(tensor, gate) == Some(error),
            },
        }
    }

    /// Adds to each value its product with the factor of its plane.
    pub fn gate(&self, input: Outcome, factors: Outcome) -> (result: Outcome)
        requires
            self.valid(),
            sound(view_of(input)),
            sound(view_of(factors)),
        ensures
            self.gates(view_of(input), view_of(factors), view_of(result)),
            sound(view_of(result)),
    {
        match (input, factors) {
            (Err(error), _) => Err(error),
            (_, Err(error)) => Err(error),
            (Ok(tensor), Ok(gate)) => tensor.into_residual_mul(&self.arithmetic, self.one, &gate),
        }
    }

    /// What taking the mean of each plane may give.
    pub open spec fn averages(&self, input: Seen, output: Seen) -> bool {
        match input {
            Err(error) => output == Err::<TensorView<Single>, TensorError>(error),
            Ok(tensor) => match output {
                Ok(result) => planes_error(seq![tensor]) is None && pools_planes(
                    self.mean,
                    tensor,
                    result,
                ),
                Err(error) => planes_error(seq![tensor]) == Some(error),
            },
        }
    }

    /// Takes the mean of each plane.
    pub fn average_planes(&self, input: Outcome) -> (result: Outcome)
        requires
            self.valid(),
            sound(view_of(input)),
        ensures
            self.averages(view_of(input), view_of(result)),
            sound(view_of(result)),
    {
        match input {
            Err(error) => Err(error),
            Ok(tensor) => {
                let inputs: Vec<Tensor<Single>> = vec![tensor];
                assert(inputs@[0] == tensor);
                assert(views(inputs@) =~= seq![tensor@]);
                global_average_pool(inputs.as_slice(), &self.mean)
            },
        }
    }

    /// What pooling may give.
    pub open spec fn pools(
        &self,
        options: PoolOptions,
        average: bool,
        input: Seen,
        output: Seen,
    ) -> bool {
        match input {
            Err(error) => output == Err::<TensorView<Single>, TensorError>(error),
            Ok(tensor) => match (pool_shape_of(seq![tensor], options), output) {
                (Err(wanted), Err(error)) => error == wanted,
                (Ok(shape), Ok(result)) => is_pooled(
                    if average {
                        self.average
                    } else {
                        self.maximum
                    },
                    options,
                    tensor,
                    shape,
                    result,
                ),
                _ => false,
            },
        }
    }

    /// Pools windows of each plane, by their mean or their greatest value.
    pub fn pool_planes(&self, options: &PoolOptions, average: bool, input: Outcome) -> (result:
        Outcome)
        requires
            self.valid(),
            sound(view_of(input)),
        ensures
            self.pools(*options, average, view_of(input), view_of(result)),
            sound(view_of(result)),
    {
        match input {
            Err(error) => Err(error),
            Ok(tensor) => {
                let inputs: Vec<Tensor<Single>> = vec![tensor];
                assert(inputs@[0] == tensor);
                assert(views(inputs@) =~= seq![tensor@]);
                let reduce: &P = if average {
                    &self.average
                } else {
                    &self.maximum
                };
                pool(inputs.as_slice(), options, reduce)
            },
        }
    }

    /// What a product of matrices may give.
    pub open spec fn multiplies(&self, left: Seen, right: Seen, output: Seen) -> bool {
        match (left, right) {
            (Err(error), _) => output == Err::<TensorView<Single>, TensorError>(error),
            (_, Err(error)) => output == Err::<TensorView<Single>, TensorError>(error),
            (Ok(first), Ok(second)) => match output {
                Ok(result) => matmul_error(seq![first, second], None) is None && is_matmul(
                    &self.arithmetic,
                    self.function_of(Activation::Identity),
                    first,
                    second,
                    result,
                ),
                Err(error) => matmul_error(seq![first, second], None) == Some(error),
            },
        }
    }

    /// Multiplies matrices.
    pub fn multiply(&self, left: Outcome, right: Outcome) -> (result: Outcome)
        requires
            self.valid(),
            sound(view_of(left)),
            sound(view_of(right)),
        ensures
            self.multiplies(view_of(left), view_of(right), view_of(result)),
            sound(view_of(result)),
    {
        match (left, right) {
            (Err(error), _) => Err(error),
            (_, Err(error)) => Err(error),
            (Ok(first), Ok(second)) => {
                let inputs: Vec<Tensor<Single>> = vec![first, second];
                assert(inputs@[0] == first && inputs@[1] == second);
                assert(views(inputs@) =~= seq![first@, second@]);
                matmul(&self.arithmetic, inputs.as_slice(), self.function(Activation::Identity))
            },
        }
    }

    /// What multiplying each value by a factor may give.
    pub open spec fn scales(&self, factor: Single, input: Seen, output: Seen) -> bool {
        match (input, output) {
            (Err(error), _) => output == Err::<TensorView<Single>, TensorError>(error),
            (Ok(tensor), Err(error)) => tensor.data is I64 && error == TensorError::ExpectedF32,
            (Ok(tensor), Ok(result)) => {
                &&& tensor.data is F32
                &&& result.wf()
                &&& result.shape == tensor.shape
                &&& result.data is F32
                &&& result.data.len() == tensor.data.len()
                &&& forall|i: int|
                    0 <= i < tensor.data.len() ==> call_ensures(
                        self.arithmetic.mul_add,
                        (tensor.data->F32_0[i], factor, self.arithmetic.zero),
                        #[trigger] result.data->F32_0[i],
                    )
            },
        }
    }

    /// Multiplies each value by a factor.
    pub fn scale(&self, factor: Single, input: Outcome) -> (result: Outcome)
        requires
            self.valid(),
            sound(view_of(input)),
        ensures
            self.scales(factor, view_of(input), view_of(result)),
            sound(view_of(result)),
    {
        match input {
            Err(error) => Err(error),
            Ok(tensor) => tensor.into_affine(&self.arithmetic, factor, self.arithmetic.zero),
        }
    }

    /// What turning the rows of a tensor into shares of one may give.
    pub open spec fn shares(&self, input: Seen, output: Seen) -> bool {
        match input {
            Err(error) => output == Err::<TensorView<Single>, TensorError>(error),
            Ok(tensor) => match output {
                Ok(result) => softmax_error(seq![tensor], -1i64, false) is None && maps_rows(
                    self.softmax,
                    tensor.shape,
                    tensor.data->F32_0,
                    tensor.shape[axis_of(-1i64, tensor.shape.len() as int)->Ok_0 as int] as int,
                    result,
                ),
                Err(error) => softmax_error(seq![tensor], -1i64, false) == Some(error),
            },
        }
    }

    /// Turns the rows of a tensor into shares of one.
    pub fn share(&self, input: Outcome) -> (result: Outcome)
        requires
            self.valid(),
            sound(view_of(input)),
        ensures
            self.shares(view_of(input), view_of(result)),
            sound(view_of(result)),
    {
        match input {
            Err(error) => Err(error),
            Ok(tensor) => {
                let inputs: Vec<Tensor<Single>> = vec![tensor];
                assert(inputs@[0] == tensor);
                assert(views(inputs@) =~= seq![tensor@]);
                softmax(inputs.as_slice(), -1, &self.softmax)
            },
        }
    }
}

} // verus!
