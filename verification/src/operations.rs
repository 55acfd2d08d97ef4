//! The operations of a graph of tensors, and how a node runs one.
use vstd::prelude::*;
use crate::accumulate::Arithmetic;
use crate::broadcast::{binary, binary_error, combines, maps, unary};
use crate::conv::{conv, conv_error, is_conv, ConvOptions};
use crate::conv_transpose::{conv_transpose, is_transposed, transpose_shape_of};
use crate::elementwise::keeps_length;
use crate::joining::{concat, concat_result};
use crate::layout::{all_wf, axis_of, shape, shape_result, transpose, transpose_result, views};
use crate::matmul::{is_mapped_matmul, is_matmul, matmul, matmul_bias_softmax, matmul_error};
use crate::pooling::{
    batch_normalization, folds_parameters, is_normalized, is_pooled, is_resized,
    normalization_error, pool, pool_shape_of, resize, view_of, PoolOptions,
};
use crate::reduction::{
    adds_bias, bias_softmax, global_average_pool, is_reduced, maps_rows, planes_error, pools_planes,
    reduce_error, reduce_mean, softmax, softmax_error,
};
use crate::reshape::{
    requested_axes, reshape, reshape_result, squeeze, squeezed, unsqueeze, unsqueezed,
};
use crate::slicing::{indexable, slice, slice_result};
use crate::tensor::{Tensor, TensorError, TensorView};

verus! {

/// An operation on tensors, with its attributes.
pub enum Operation<F> {
    Add,
    AveragePool(PoolOptions),
    BatchNormalization { epsilon: F },
    BiasSoftmax { axis: i64 },
    Concat { axis: i64 },
    Conv(ConvOptions),
    ConvGelu(ConvOptions),
    ConvTranspose(ConvOptions),
    Div,
    Erf,
    Gelu,
    GlobalAveragePool,
    HardSigmoid { alpha: F, beta: F },
    HardSwish,
    MatMul,
    MatMulBiasSoftmax { axis: i64 },
    MaxPool(PoolOptions),
    Mul,
    Pow,
    ReduceMean { axes: Vec<i64>, keep_dims: bool },
    Relu,
    Reshape,
    Resize,
    Shape,
    Sigmoid,
    Silu,
    Slice,
    Softmax { axis: i64 },
    Sqrt,
    Squeeze { axes: Vec<i64> },
    Sub,
    Transpose { permutation: Vec<usize> },
    Unsqueeze { axes: Vec<i64> },
}

/// The functions on values that the operations are run with.
pub struct Kernels<F, M, U, B, R, D, P, S, V, X> {
    pub arithmetic: Arithmetic<F, M>,
    pub erf: U,
    pub gelu: U,
    pub hard_swish: U,
    pub relu: U,
    pub sigmoid: U,
    pub silu: U,
    pub sqrt: U,
    pub addition: B,
    pub division: B,
    pub product: B,
    pub power: B,
    pub difference: B,
    /// Turns a row into shares of one.
    pub softmax: R,
    pub mean: D,
    /// The greatest value of a window.
    pub maximum: P,
    /// The mean of a window over the given number of cells.
    pub average: P,
    /// A size times a factor.
    pub scale: S,
    /// The hard sigmoid of a value, with its slope and offset before it.
    pub hard_sigmoid: V,
    /// The factor and the offset of a channel, from an epsilon and the scale,
    /// the offset, the mean and the variance of the channel.
    pub normalization: X,
}

/// What a function of one value may give.
pub open spec fn unary_gives<F, U: Fn(F) -> F>(
    function: U,
    inputs: Seq<TensorView<F>>,
    output: Result<TensorView<F>, TensorError>,
) -> bool {
    match output {
        Ok(tensor) => inputs.len() == 1 && inputs[0].data is F32 && maps(
            function,
            inputs[0],
            tensor,
        ),
        Err(error) => if inputs.len() != 1 {
            error == TensorError::InputCount
        } else {
            inputs[0].data is I64 && error == TensorError::ExpectedF32
        },
    }
}

/// What a function of two values may give.
pub open spec fn binary_gives<F, B: Fn(F, F) -> F>(
    function: B,
    inputs: Seq<TensorView<F>>,
    output: Result<TensorView<F>, TensorError>,
) -> bool {
    match output {
        Ok(tensor) => binary_error(inputs) is None && combines(
            function,
            function,
            inputs[0],
            inputs[1],
            tensor,
        ),
        Err(error) => binary_error(inputs) == Some(error),
    }
}

/// What pooling may give.
pub open spec fn pool_gives<F, P: Fn(Vec<F>, usize) -> F>(
    reduce: P,
    options: PoolOptions,
    inputs: Seq<TensorView<F>>,
    output: Result<TensorView<F>, TensorError>,
) -> bool {
    match (pool_shape_of(inputs, options), output) {
        (Err(wanted), Err(error)) => error == wanted,
        (Ok(dimensions), Ok(tensor)) => is_pooled(reduce, options, inputs[0], dimensions, tensor),
        _ => false,
    }
}

/// What a convolution may give.
pub open spec fn conv_gives<F, M: Fn(F, F, F) -> F, U: Fn(F) -> F>(
    arithmetic: &Arithmetic<F, M>,
    activation: Option<&U>,
    options: ConvOptions,
    inputs: Seq<TensorView<F>>,
    output: Result<TensorView<F>, TensorError>,
) -> bool {
    match output {
        Ok(tensor) => conv_error(inputs, options) is None && is_conv(
            arithmetic,
            activation,
            options,
            inputs,
            tensor,
        ),
        Err(error) => conv_error(inputs, options) == Some(error),
    }
}

/// Whether each value is what the hard sigmoid with a slope and an offset may give.
pub open spec fn hard_sigmoid_gives<F, V: Fn(F, F, F) -> F>(
    function: V,
    alpha: F,
    beta: F,
    inputs: Seq<TensorView<F>>,
    output: Result<TensorView<F>, TensorError>,
) -> bool {
    match output {
        Ok(tensor) => {
            &&& inputs.len() == 1
            &&& inputs[0].data is F32
            &&& tensor.wf()
            &&& tensor.shape == inputs[0].shape
            &&& tensor.data is F32
            &&& tensor.data.len() == inputs[0].data.len()
            &&& forall|i: int|
                0 <= i < tensor.data.len() ==> call_ensures(
                    function,
                    (alpha, beta, inputs[0].data->F32_0[i]),
                    #[trigger] tensor.data->F32_0[i],
                )
        },
        Err(error) => if inputs.len() != 1 {
            error == TensorError::InputCount
        } else {
            inputs[0].data is I64 && error == TensorError::ExpectedF32
        },
    }
}

/// Whether the pairs are factors and offsets of the channels.
pub open spec fn folds_channels<F, X: Fn(F, F, F, F, F) -> (F, F)>(
    function: X,
    epsilon: F,
    inputs: Seq<TensorView<F>>,
    folded: Seq<(F, F)>,
) -> bool {
    &&& folded.len() == inputs[1].data->F32_0.len()
    &&& forall|c: int|
        0 <= c < folded.len() ==> call_ensures(
            function,
            (
                epsilon,
                inputs[1].data->F32_0[c],
                inputs[2].data->F32_0[c],
                inputs[3].data->F32_0[c],
                inputs[4].data->F32_0[c],
            ),
            #[trigger] folded[c],
        )
}

/// What the normalisation of channels may give.
pub open spec fn normalization_gives<F, X: Fn(F, F, F, F, F) -> (F, F), M: Fn(F, F, F) -> F>(
    function: X,
    mul_add: M,
    epsilon: F,
    inputs: Seq<TensorView<F>>,
    output: Result<TensorView<F>, TensorError>,
) -> bool {
    match output {
        Ok(tensor) => {
            &&& normalization_error(inputs) is None
            &&& exists|folded: Seq<(F, F)>| #[trigger]
                folds_channels(function, epsilon, inputs, folded) && is_normalized(
                    mul_add,
                    inputs[0],
                    folded,
                    tensor,
                )
        },
        Err(error) => normalization_error(inputs) == Some(error),
    }
}

impl<
    F: Copy,
    M: Fn(F, F, F) -> F,
    U: Fn(F) -> F,
    B: Fn(F, F) -> F,
    R: Fn(Vec<F>) -> Vec<F>,
    D: Fn(Vec<F>) -> F,
    P: Fn(Vec<F>, usize) -> F,
    S: Fn(usize, F) -> usize,
    V: Fn(F, F, F) -> F,
    X: Fn(F, F, F, F, F) -> (F, F),
> Kernels<F, M, U, B, R, D, P, S, V, X> {
    /// The functions take all values.
    pub open spec fn valid(&self) -> bool {
        &&& self.arithmetic.valid()
        &&& forall|a: F| #[trigger] call_requires(self.erf, (a,))
        &&& forall|a: F| #[trigger] call_requires(self.gelu, (a,))
        &&& forall|a: F| #[trigger] call_requires(self.hard_swish, (a,))
        &&& forall|a: F| #[trigger] call_requires(self.relu, (a,))
        &&& forall|a: F| #[trigger] call_requires(self.sigmoid, (a,))
        &&& forall|a: F| #[trigger] call_requires(self.silu, (a,))
        &&& forall|a: F| #[trigger] call_requires(self.sqrt, (a,))
        &&& forall|a: F, b: F| #[trigger] call_requires(self.addition, (a, b))
        &&& forall|a: F, b: F| #[trigger] call_requires(self.division, (a, b))
        &&& forall|a: F, b: F| #[trigger] call_requires(self.product, (a, b))
        &&& forall|a: F, b: F| #[trigger] call_requires(self.power, (a, b))
        &&& forall|a: F, b: F| #[trigger] call_requires(self.difference, (a, b))
        &&& keeps_length(self.softmax)
        &&& forall|row: Vec<F>| #[trigger] call_requires(self.mean, (row,))
        &&& forall|list: Vec<F>, count: usize| #[trigger]
            call_requires(self.maximum, (list, count))
        &&& forall|list: Vec<F>, count: usize| #[trigger]
            call_requires(self.average, (list, count))
        &&& forall|size: usize, factor: F| #[trigger] call_requires(self.scale, (size, factor))
        &&& forall|a: F, b: F, c: F| #[trigger] call_requires(self.hard_sigmoid, (a, b, c))
        &&& forall|a: F, b: F, c: F, d: F, e: F| #[trigger]
            call_requires(self.normalization, (a, b, c, d, e))
    }

    /// What an operation may give for its inputs.
    pub open spec fn runs(
        &self,
        operation: Operation<F>,
        inputs: Seq<TensorView<F>>,
        output: Result<TensorView<F>, TensorError>,
    ) -> bool {
        match operation {
            Operation::Add => binary_gives(self.addition, inputs, output),
            Operation::Div => binary_gives(self.division, inputs, output),
            Operation::Mul => binary_gives(self.product, inputs, output),
            Operation::Pow => binary_gives(self.power, inputs, output),
            Operation::Sub => binary_gives(self.difference, inputs, output),
            Operation::Erf => unary_gives(self.erf, inputs, output),
            Operation::Gelu => unary_gives(self.gelu, inputs, output),
            Operation::HardSwish => unary_gives(self.hard_swish, inputs, output),
            Operation::Relu => unary_gives(self.relu, inputs, output),
            Operation::Sigmoid => unary_gives(self.sigmoid, inputs, output),
            Operation::Silu => unary_gives(self.silu, inputs, output),
            Operation::Sqrt => unary_gives(self.sqrt, inputs, output),
            Operation::HardSigmoid { alpha, beta } => hard_sigmoid_gives(
                self.hard_sigmoid,
                alpha,
                beta,
                inputs,
                output,
            ),
            Operation::AveragePool(options) => pool_gives(self.average, options, inputs, output),
            Operation::MaxPool(options) => pool_gives(self.maximum, options, inputs, output),
            Operation::Conv(options) => conv_gives(
                &self.arithmetic,
                None::<&U>,
                options,
                inputs,
                output,
            ),
            Operation::ConvGelu(options) => conv_gives(
                &self.arithmetic,
                Some(&self.gelu),
                options,
                inputs,
                output,
            ),
            Operation::ConvTranspose(options) => match (
                transpose_shape_of(inputs, options),
                output,
            ) {
                (Err(wanted), Err(error)) => error == wanted,
                (Ok(dimensions), Ok(tensor)) => is_transposed(
                    &self.arithmetic,
                    self.addition,
                    options,
                    dimensions,
                    inputs,
                    tensor,
                ),
                _ => false,
            },
            Operation::BatchNormalization { epsilon } => normalization_gives(
                self.normalization,
                self.arithmetic.mul_add,
                epsilon,
                inputs,
                output,
            ),
            Operation::BiasSoftmax { axis } => match output {
                Ok(tensor) => softmax_error(inputs, axis, true) is None && exists|sums: Seq<F>|
                    #[trigger] adds_bias(
                        self.addition,
                        inputs[0].data->F32_0,
                        inputs[1].data->F32_0,
                        sums,
                    ) && maps_rows(
                        self.softmax,
                        inputs[0].shape,
                        sums,
                        inputs[0].shape[axis_of(
                            axis,
                            inputs[0].shape.len() as int,
                        )->Ok_0 as int] as int,
                        tensor,
                    ),
                Err(error) => softmax_error(inputs, axis, true) == Some(error),
            },
            Operation::Softmax { axis } => match output {
                Ok(tensor) => softmax_error(inputs, axis, false) is None && maps_rows(
                    self.softmax,
                    inputs[0].shape,
                    inputs[0].data->F32_0,
                    inputs[0].shape[axis_of(
                        axis,
                        inputs[0].shape.len() as int,
                    )->Ok_0 as int] as int,
                    tensor,
                ),
                Err(error) => softmax_error(inputs, axis, false) == Some(error),
            },
            Operation::GlobalAveragePool => match output {
                Ok(tensor) => planes_error(inputs) is None && pools_planes(
                    self.mean,
                    inputs[0],
                    tensor,
                ),
                Err(error) => planes_error(inputs) == Some(error),
            },
            Operation::MatMul => match output {
                Ok(tensor) => matmul_error(inputs, None) is None && is_matmul(
                    &self.arithmetic,
                    None::<&U>,
                    inputs[0],
                    inputs[1],
                    tensor,
                ),
                Err(error) => matmul_error(inputs, None) == Some(error),
            },
            Operation::MatMulBiasSoftmax { axis } => match output {
                Ok(tensor) => matmul_error(inputs, Some(axis)) is None && is_mapped_matmul(
                    &self.arithmetic,
                    None::<&U>,
                    self.softmax,
                    inputs[0],
                    inputs[1],
                    inputs[2].data->F32_0,
                    tensor,
                ),
                Err(error) => matmul_error(inputs, Some(axis)) == Some(error),
            },
            Operation::ReduceMean { axes, keep_dims } => match output {
                Ok(tensor) => reduce_error(inputs, axes@) is None && is_reduced(
                    self.mean,
                    inputs[0],
                    axes@,
                    keep_dims,
                    tensor,
                ),
                Err(error) => reduce_error(inputs, axes@) == Some(error),
            },
            Operation::Concat { axis } => output == concat_result(inputs, axis),
            Operation::Reshape => output == reshape_result(inputs),
            Operation::Resize => is_resized(self.scale, inputs, output),
            Operation::Shape => output == shape_result(inputs),
            Operation::Slice => output == slice_result(inputs),
            Operation::Squeeze { axes } => output == if inputs.len() == 0 || inputs.len() > 2 {
                Err(TensorError::InputCount)
            } else {
                match requested_axes(inputs, axes@) {
                    Err(error) => Err(error),
                    Ok(found) => squeezed(inputs[0], found),
                }
            },
            Operation::Unsqueeze { axes } => output == if inputs.len() == 0 || inputs.len() > 2 {
                Err(TensorError::InputCount)
            } else {
                match requested_axes(inputs, axes@) {
                    Err(error) => Err(error),
                    Ok(found) => unsqueezed(inputs[0], found),
                }
            },
            Operation::Transpose { permutation } => output == transpose_result(
                inputs,
                permutation@,
            ),
        }
    }

    fn hard_sigmoid_of(&self, alpha: F, beta: F, inputs: &[Tensor<F>]) -> (result: Result<
        Tensor<F>,
        TensorError,
    >)
        requires
            self.valid(),
            all_wf(inputs@),
        ensures
            hard_sigmoid_gives(self.hard_sigmoid, alpha, beta, views(inputs@), view_of(result)),
    {
        let function = |value: F| -> (result: F)
            ensures
                call_ensures(self.hard_sigmoid, (alpha, beta, value), result),
            { (self.hard_sigmoid)(alpha, beta, value) };
        unary(inputs, &function)
    }

    fn normalize(&self, epsilon: F, inputs: &[Tensor<F>]) -> (result: Result<
        Tensor<F>,
        TensorError,
    >)
        requires
            self.valid(),
            all_wf(inputs@),
        ensures
            normalization_gives(
                self.normalization,
                self.arithmetic.mul_add,
                epsilon,
                views(inputs@),
                view_of(result),
            ),
    {
        let parameters = |scale: F, offset: F, mean: F, variance: F| -> (result: (F, F))
            ensures
                call_ensures(
                    self.normalization,
                    (epsilon, scale, offset, mean, variance),
                    result,
                ),
            { (self.normalization)(epsilon, scale, offset, mean, variance) };
        let result: Result<Tensor<F>, TensorError> = batch_normalization(
            inputs,
            &parameters,
            &self.arithmetic.mul_add,
        );
        proof {
            if result is Ok {
                let tensor = result->Ok_0@;
                let folded = choose|folded: Seq<(F, F)>| #[trigger]
                    folds_parameters(
                        parameters,
                        inputs@[1]@.data->F32_0,
                        inputs@[2]@.data->F32_0,
                        inputs@[3]@.data->F32_0,
                        inputs@[4]@.data->F32_0,
                        folded,
                    ) && is_normalized(
                        self.arithmetic.mul_add,
                        inputs@[0]@,
                        folded,
                        tensor,
                    );
                assert(views(inputs@)[0] == inputs@[0]@);
                assert(is_normalized(
                    self.arithmetic.mul_add,
                    views(inputs@)[0],
                    folded,
                    tensor,
                ));
                assert(folds_channels(self.normalization, epsilon, views(inputs@), folded));
            }
        }
        result
    }

    /// Runs an operation.
    #[verifier::spinoff_prover]
    #[verifier::rlimit(40)]
    pub fn run(&self, operation: &Operation<F>, inputs: &[Tensor<F>]) -> (result: Result<
        Tensor<F>,
        TensorError,
    >)
        requires
            self.valid(),
            all_wf(inputs@),
            operation is Slice ==> (inputs@.len() > 0 ==> indexable(inputs@[0]@.shape)) && (
            inputs@.len() > 1 ==> inputs@[1]@.data.len() <= i64::MAX),
            operation matches Operation::Unsqueeze { axes } ==> (inputs@.len() == 1
                ==> inputs@[0]@.shape.len() + axes@.len() <= usize::MAX) && (inputs@.len() == 2
                ==> inputs@[0]@.shape.len() + inputs@[1]@.data.len() <= usize::MAX),
        ensures
            self.runs(*operation, views(inputs@), view_of(result)),
    {
        match operation {
            Operation::Add => binary(inputs, &self.addition, &self.addition),
            Operation::Div => binary(inputs, &self.division, &self.division),
            Operation::Mul => binary(inputs, &self.product, &self.product),
            Operation::Pow => binary(inputs, &self.power, &self.power),
            Operation::Sub => binary(inputs, &self.difference, &self.difference),
            Operation::Erf => unary(inputs, &self.erf),
            Operation::Gelu => unary(inputs, &self.gelu),
            Operation::HardSwish => unary(inputs, &self.hard_swish),
            Operation::Relu => unary(inputs, &self.relu),
            Operation::Sigmoid => unary(inputs, &self.sigmoid),
            Operation::Silu => unary(inputs, &self.silu),
            Operation::Sqrt => unary(inputs, &self.sqrt),
            Operation::HardSigmoid { alpha, beta } => self.hard_sigmoid_of(*alpha, *beta, inputs),
            Operation::AveragePool(options) => pool(inputs, options, &self.average),
            Operation::MaxPool(options) => pool(inputs, options, &self.maximum),
            Operation::Conv(options) => conv(&self.arithmetic, inputs, options, None::<&U>),
            Operation::ConvGelu(options) => conv(
                &self.arithmetic,
                inputs,
                options,
                Some(&self.gelu),
            ),
            Operation::ConvTranspose(options) => conv_transpose(
                &self.arithmetic,
                inputs,
                options,
                &self.addition,
            ),
            Operation::BatchNormalization { epsilon } => self.normalize(*epsilon, inputs),
            Operation::BiasSoftmax { axis } => bias_softmax(
                inputs,
                *axis,
                &self.addition,
                &self.softmax,
            ),
            Operation::Softmax { axis } => softmax(inputs, *axis, &self.softmax),
            Operation::GlobalAveragePool => global_average_pool(inputs, &self.mean),
            Operation::MatMul => matmul(&self.arithmetic, inputs, None::<&U>),
            Operation::MatMulBiasSoftmax { axis } => matmul_bias_softmax(
                &self.arithmetic,
                inputs,
                *axis,
                None::<&U>,
                &self.softmax,
            ),
            Operation::ReduceMean { axes, keep_dims } => reduce_mean(
                inputs,
                axes.as_slice(),
                *keep_dims,
                &self.mean,
            ),
            Operation::Concat { axis } => concat(inputs, *axis),
            Operation::Reshape => reshape(inputs),
            Operation::Resize => resize(inputs, &self.scale),
            Operation::Shape => shape(inputs),
            Operation::Slice => slice(inputs),
            Operation::Squeeze { axes } => squeeze(inputs, axes.as_slice()),
            Operation::Unsqueeze { axes } => unsqueeze(inputs, axes.as_slice()),
            Operation::Transpose { permutation } => transpose(inputs, permutation.as_slice()),
        }
    }
}

} // verus!
