//! A transposed convolution with weights of its own.
use vstd::prelude::*;
use crate::accumulate::{accumulates, fused, Arithmetic};
use crate::conv::{lemma_product4, ConvOptions};
use crate::conv_layer::bias_view;
use crate::conv_transpose::{
    conv_transpose, doubles, doubling_terms, is_transposed, transpose_cell, transpose_shape_of,
    TransposeShape,
};
use crate::elementwise::row_of;
use crate::index::{cell_at, lemma_decode, lemma_encode, lemma_row_bound, lemma_scale};
use crate::kernels::{
    bias_at, dense_terms, gemm_packed_left_cached_blocked_16, gemm_with_activation, is_gemm,
};
use crate::layout::{lemma_wf_count, shape4, views};
use crate::packing::{interleaves, lemma_packed_product, pack_rows};
use crate::pooling::view_of;
use crate::shape::{counts, element_count, lemma_product_bounds};
use crate::tensor::{Tensor, TensorError, TensorView};

verus! {

/// A transposed convolution layer.
pub struct ConvTranspose2d<F> {
    pub weight: Tensor<F>,
    pub bias: Option<Tensor<F>>,
    pub options: ConvOptions,
    /// The weights of a doubling layer, by output channel and kernel cell.
    pub matrix: Option<Vec<F>>,
    /// The same, interleaved for large products.
    pub large: Option<Vec<F>>,
}

/// `matrix` holds the weights of a doubling layer by output channel, kernel cell
/// and input channel.
pub open spec fn is_matrix<F>(
    matrix: Seq<F>,
    weight: Seq<F>,
    input_channels: int,
    output_channels: int,
) -> bool {
    &&& matrix.len() == output_channels * 4 * input_channels
    &&& forall|row: int, k: int|
        0 <= row < output_channels * 4 && 0 <= k < input_channels ==> #[trigger] matrix[cell_at(
            0,
            input_channels,
            row,
            k,
        )] == weight[(k * output_channels + row / 4) * 4 + row % 4]
}

/// Whether a layer doubles the planes.
pub open spec fn is_doubling(shape: Seq<usize>, options: ConvOptions) -> bool {
    options.groups == 1 && options.strides@[0] == 2 && options.strides@[1] == 2 && options.pads@[0]
        == 0 && options.pads@[1] == 0 && options.pads@[2] == 0 && options.pads@[3] == 0
        && shape[2] == 2 && shape[3] == 2
}

impl<F> ConvTranspose2d<F> {
    /// The layer's tensors go together, and the rearranged weights hold what the
    /// weights hold.
    pub open spec fn wf(self) -> bool {
        let shape = self.weight@.shape;
        &&& self.weight@.wf()
        &&& self.weight@.data is F32
        &&& shape.len() == 4
        &&& self.options.groups > 0
        &&& shape[0] as int % self.options.groups as int == 0
        &&& self.options.strides@[0] > 0 && self.options.strides@[1] > 0
        &&& self.bias matches Some(tensor) ==> tensor@.wf() && tensor@.data is F32
            && tensor@.data.len() == shape[1] * self.options.groups
        &&& self.matrix is Some == is_doubling(shape, self.options)
        &&& self.matrix matches Some(matrix) ==> is_matrix(
            matrix@,
            self.weight@.data->F32_0,
            shape[0] as int,
            shape[1] as int,
        )
        &&& self.large matches Some(packed) ==> self.matrix is Some && shape[1] * 4 % 16 == 0
            && shape[1] > 0 && interleaves(
            packed@,
            self.matrix->Some_0@,
            shape[1] * 4,
            shape[0] as int,
            16,
        )
    }

    /// The inputs of the layer's convolution.
    pub open spec fn operands(self, input: TensorView<F>) -> Seq<TensorView<F>> {
        match self.bias {
            Some(tensor) => seq![input, self.weight@, tensor@],
            None => seq![input, self.weight@],
        }
    }
}

/// Why a layer is refused; `None` where it is not.
pub open spec fn transpose_layer_error<F>(
    weight: TensorView<F>,
    bias: Option<TensorView<F>>,
    strides: Seq<usize>,
    groups: usize,
) -> Option<TensorError> {
    if weight.shape.len() != 4 {
        Some(TensorError::Rank)
    } else if weight.data is I64 {
        Some(TensorError::ExpectedF32)
    } else if groups == 0 {
        Some(TensorError::Geometry)
    } else if weight.shape[0] as int % groups as int != 0 {
        Some(TensorError::Channels)
    } else if strides[0] == 0 || strides[1] == 0 {
        Some(TensorError::Geometry)
    } else if bias is Some && bias->Some_0.data is I64 {
        Some(TensorError::ExpectedF32)
    } else if bias is Some && weight.shape[1] * groups > usize::MAX {
        Some(TensorError::ShapeOverflow)
    } else if bias is Some && bias->Some_0.data.len() != weight.shape[1] * groups {
        Some(TensorError::Bias)
    } else {
        None
    }
}

/// Rearranges the weights of a doubling layer by output channel and kernel cell.
#[verifier::spinoff_prover]
fn rearrange<F: Copy>(weight: &[F], input_channels: usize, output_channels: usize) -> (result: Vec<
    F,
>)
    requires
        weight@.len() == input_channels * output_channels * 4,
    ensures
        is_matrix(result@, weight@, input_channels as int, output_channels as int),
{
    let len: usize = weight.len();
    let mut matrix: Vec<F> = Vec::with_capacity(len);
    proof {
        assert(input_channels * output_channels * 4 == output_channels * 4 * input_channels)
            by (nonlinear_arith);
    }
    if input_channels == 0 || output_channels == 0 {
        proof {
            assert(output_channels * 4 * input_channels == 0) by (nonlinear_arith)
                requires
                    input_channels == 0 || output_channels == 0,
            ;
        }
        return matrix;
    }
    proof {
        assert(output_channels * 4 <= len) by (nonlinear_arith)
            requires
                len == output_channels * 4 * input_channels,
                input_channels >= 1,
        ;
        vstd::arithmetic::mul::lemma_mul_basics(input_channels as int);
    }
    for row in 0..output_channels * 4
        invariant
            len == weight@.len(),
            len == input_channels * output_channels * 4,
            output_channels * 4 <= len,
            matrix@.len() == row * input_channels,
            forall|r: int, k: int|
                0 <= r < row && 0 <= k < input_channels ==> #[trigger] matrix@[cell_at(
                    0,
                    input_channels as int,
                    r,
                    k,
                )] == weight@[(k * output_channels + r / 4) * 4 + r % 4],
    {
        for k in 0..input_channels
            invariant
                len == weight@.len(),
                len == input_channels * output_channels * 4,
                output_channels * 4 <= len,
                row < output_channels * 4,
                matrix@.len() == row * input_channels + k,
                forall|r: int, c: int|
                    0 <= r <= row && 0 <= c < input_channels && (r < row || c < k)
                        ==> #[trigger] matrix@[cell_at(0, input_channels as int, r, c)] == weight@[(
                    c * output_channels + r / 4) * 4 + r % 4],
        {
            proof {
                lemma_row_bound(
                    k as int,
                    input_channels as int,
                    row as int / 4,
                    output_channels as int,
                );
                lemma_scale(0, k as int, output_channels as int);
            }
            let ghost before = matrix@;
            matrix.push(weight[(k * output_channels + row / 4) * 4 + row % 4]);
            proof {
                assert forall|r: int, c: int|
                    0 <= r <= row && 0 <= c < input_channels && (r < row || c < k
                        + 1) implies #[trigger] matrix@[cell_at(0, input_channels as int, r, c)]
                    == weight@[(c * output_channels + r / 4) * 4 + r % 4] by {
                    if r < row || c < k {
                        if r < row {
                            lemma_row_bound(r, row as int, c, input_channels as int);
                        }
                        lemma_scale(0, r, input_channels as int);
                        assert(matrix@[cell_at(0, input_channels as int, r, c)]
                            == before[cell_at(0, input_channels as int, r, c)]);
                    }
                }
            }
        }
        assert((row + 1) * input_channels == row * input_channels + input_channels)
            by (nonlinear_arith);
    }
    matrix
}

impl<F: Copy> ConvTranspose2d<F> {
    /// A layer with the given weights, rearranged where it doubles the planes.
    /// `wide_kernels` tells whether large products interleave sixteen rows.
    #[verifier::spinoff_prover]
    pub fn new(
        weight: Tensor<F>,
        bias: Option<Tensor<F>>,
        strides: [usize; 2],
        pads: [usize; 4],
        groups: usize,
        wide_kernels: bool,
    ) -> (result: Result<ConvTranspose2d<F>, TensorError>)
        requires
            weight@.wf(),
            bias matches Some(tensor) ==> tensor@.wf(),
        ensures
            match result {
                Ok(layer) => {
                    &&& transpose_layer_error(
                        weight@,
                        bias_view(bias),
                        strides@,
                        groups,
                    ) is None
                    &&& layer.wf()
                    &&& layer.weight@ == weight@
                    &&& bias_view(layer.bias) == bias_view(bias)
                    &&& layer.options == (ConvOptions {
                        strides,
                        pads,
                        groups,
                        packed_pointwise: false,
                    })
                    &&& layer.large is Some == (layer.matrix is Some && wide_kernels
                        && 128 < weight@.shape[1] * 4 <= usize::MAX && weight@.shape[1] * 4 % 16
                        == 0)
                },
                Err(error) => transpose_layer_error(
                    weight@,
                    bias_view(bias),
                    strides@,
                    groups,
                ) == Some(error),
            },
    {
        let sizes: [usize; 4] = match shape4(weight.shape()) {
            Err(error) => {
                return Err(error);
            },
            Ok(sizes) => sizes,
        };
        let values: &[F] = match weight.as_f32() {
            Err(error) => {
                return Err(error);
            },
            Ok(values) => values,
        };
        if groups == 0 {
            return Err(TensorError::Geometry);
        }
        if sizes[0] % groups != 0 {
            return Err(TensorError::Channels);
        }
        if strides[0] == 0 || strides[1] == 0 {
            return Err(TensorError::Geometry);
        }
        if let Some(tensor) = &bias {
            match tensor.as_f32() {
                Err(error) => {
                    return Err(error);
                },
                Ok(values) => match sizes[1].checked_mul(groups) {
                    None => {
                        return Err(TensorError::ShapeOverflow);
                    },
                    Some(channels) => {
                        if values.len() != channels {
                            return Err(TensorError::Bias);
                        }
                    },
                },
            }
        }
        let options: ConvOptions = ConvOptions { strides, pads, groups, packed_pointwise: false };
        let doubling: bool = groups == 1 && strides[0] == 2 && strides[1] == 2 && pads[0] == 0
            && pads[1] == 0 && pads[2] == 0 && pads[3] == 0 && sizes[2] == 2 && sizes[3] == 2;
        assert(doubling == is_doubling(weight@.shape, options));
        if !doubling {
            return Ok(ConvTranspose2d { weight, bias, options, matrix: None, large: None });
        }
        proof {
            lemma_wf_count(weight@);
            assert(weight@.shape =~= seq![sizes@[0], sizes@[1], sizes@[2], sizes@[3]]);
            lemma_product4(sizes@[0], sizes@[1], sizes@[2], sizes@[3]);
        }
        let matrix: Vec<F> = rearrange(values, sizes[0], sizes[1]);
        let mut large: Option<Vec<F>> = None;
        if wide_kernels && sizes[1] > 32 && sizes[1] % 4 == 0 && sizes[1] <= usize::MAX / 4 {
            let rows: usize = sizes[1] * 4;
            proof {
                let inner: int = sizes@[0] as int;
                assert(rows * inner == inner * rows) by (nonlinear_arith);
                vstd::arithmetic::div_mod::lemma_mod_multiples_basic(inner, rows as int);
                vstd::arithmetic::div_mod::lemma_div_by_multiple(inner, rows as int);
            }
            match pack_rows(matrix.as_slice(), rows, 16) {
                Ok(packed) => {
                    large = Some(packed);
                },
                Err(_) => {
                    return Err(TensorError::Pack);
                },
            }
        }
        Ok(ConvTranspose2d { weight, bias, options, matrix: Some(matrix), large })
    }
}

/// The dimensions of what a doubling layer gives, or why an input is refused. A
/// plane needs cells only where there is a batch.
pub open spec fn doubled_shape_of<F>(layer: ConvTranspose2d<F>, input: TensorView<F>) -> Result<
    TransposeShape,
    TensorError,
> {
    let weight = layer.weight@.shape;
    if input.shape.len() != 4 {
        Err(TensorError::Rank)
    } else if weight[0] != input.shape[1] {
        Err(TensorError::Channels)
    } else if input.data is I64 {
        Err(TensorError::ExpectedF32)
    } else if input.shape[2] * 2 > usize::MAX || input.shape[3] * 2 > usize::MAX {
        Err(TensorError::ShapeOverflow)
    } else {
        let height = (input.shape[2] * 2) as usize;
        let width = (input.shape[3] * 2) as usize;
        if !counts(seq![input.shape[0], weight[1], height, width]) {
            Err(TensorError::ShapeOverflow)
        } else if input.shape[0] > 0 && (height == 0 || width == 0) {
            Err(TensorError::Geometry)
        } else {
            Ok(
                TransposeShape {
                    batch: input.shape[0],
                    input_channels: input.shape[1],
                    input_height: input.shape[2],
                    input_width: input.shape[3],
                    group_channels: weight[1],
                    output_channels: weight[1],
                    kernel_height: weight[2],
                    kernel_width: weight[3],
                    output_height: height,
                    output_width: width,
                },
            )
        }
    }
}

impl<F> ConvTranspose2d<F> {
    /// The dimensions of what the layer gives, or why an input is refused.
    pub open spec fn forward_shape(self, input: TensorView<F>) -> Result<
        TransposeShape,
        TensorError,
    > {
        if self.matrix is Some {
            doubled_shape_of(self, input)
        } else {
            transpose_shape_of(self.operands(input), self.options)
        }
    }
}

/// What the layer may give for an input.
pub open spec fn is_transpose_forward<F, M: Fn(F, F, F) -> F, G: Fn(F, F) -> F>(
    layer: ConvTranspose2d<F>,
    arithmetic: &Arithmetic<F, M>,
    addition: G,
    input: TensorView<F>,
    result: Result<TensorView<F>, TensorError>,
) -> bool {
    match (layer.forward_shape(input), result) {
        (Err(wanted), Err(error)) => error == wanted,
        (Ok(shape), Ok(tensor)) => is_transposed(
            arithmetic,
            addition,
            layer.options,
            shape,
            layer.operands(input),
            tensor,
        ),
        _ => false,
    }
}

/// A cell of the product is the sum of the doubling convolution.
proof fn lemma_doubling<F>(
    shape: TransposeShape,
    input: Seq<F>,
    weight: Seq<F>,
    matrix: Seq<F>,
    b: int,
    channel: int,
    y: int,
    x: int,
)
    requires
        shape.kernel_height == 2 && shape.kernel_width == 2,
        shape.group_channels == shape.output_channels,
        is_matrix(matrix, weight, shape.input_channels as int, shape.output_channels as int),
        0 <= b < shape.batch,
        0 <= channel < shape.output_channels,
        0 <= y < shape.input_height * 2,
        0 <= x < shape.input_width * 2,
        input.len() == shape.batch * shape.input_channels * shape.plane(),
    ensures
        ({
            let row = channel * 4 + (y % 2) * 2 + x % 2;
            let column = y / 2 * shape.input_width + x / 2;
            &&& 0 <= row < shape.output_channels * 4
            &&& 0 <= column < shape.plane()
            &&& dense_terms(
                matrix,
                row_of(input, shape.input_channels * shape.plane(), b),
                shape.input_channels as int,
                shape.plane(),
                row,
                column,
            ) == doubling_terms(shape, input, weight, b, channel, y, x)
        }),
{
    let row = channel * 4 + (y % 2) * 2 + x % 2;
    let column = y / 2 * shape.input_width + x / 2;
    let plane = shape.plane();
    let channels: int = shape.input_channels as int;
    let size: int = channels * plane;
    let part = row_of(input, size, b);
    lemma_row_bound(y / 2, shape.input_height as int, x / 2, shape.input_width as int);
    lemma_scale(0, y / 2, shape.input_width as int);
    assert(row / 4 == channel && row % 4 == (y % 2) * 2 + x % 2);
    let found = dense_terms(matrix, part, channels, plane, row, column);
    let wanted = doubling_terms(shape, input, weight, b, channel, y, x);
    assert forall|k: int| 0 <= k < channels implies found[k] == wanted[k] by {
        assert(matrix[cell_at(0, channels, row, k)] == weight[(k * shape.output_channels + row / 4)
            * 4 + row % 4]);
        lemma_row_bound(k, channels, column, plane);
        lemma_scale(0, k, plane);
        assert(b * size + (k * plane + column) == (b * channels + k) * plane + column)
            by (nonlinear_arith)
            requires
                size == channels * plane,
        ;
        assert((b + 1) * size == b * size + size) by (nonlinear_arith);
        assert(shape.batch * channels * plane == shape.batch * size) by (nonlinear_arith)
            requires
                size == channels * plane,
        ;
        assert((b + 1) * size <= shape.batch * size) by (nonlinear_arith)
            requires
                b + 1 <= shape.batch,
                size >= 0,
        ;
        lemma_scale(0, b, size);
        assert(part[k * plane + column] == input[b * size + (k * plane + column)]);
    }
    assert(found =~= wanted);
}

impl<F: Copy> ConvTranspose2d<F> {
    /// The dimensions of what a doubling layer gives.
    fn doubled_shape(&self, input: &Tensor<F>) -> (result: Result<TransposeShape, TensorError>)
        requires
            self.wf(),
            input@.wf(),
        ensures
            result == doubled_shape_of(*self, input@),
    {
        let sizes: [usize; 4] = match shape4(input.shape()) {
            Err(error) => {
                return Err(error);
            },
            Ok(sizes) => sizes,
        };
        let weight: [usize; 4] = match shape4(self.weight.shape()) {
            Err(error) => {
                return Err(error);
            },
            Ok(sizes) => sizes,
        };
        if weight[0] != sizes[1] {
            return Err(TensorError::Channels);
        }
        match input.as_f32() {
            Err(error) => {
                return Err(error);
            },
            Ok(_) => {},
        }
        let (height, width): (usize, usize) = match (
            sizes[2].checked_mul(2),
            sizes[3].checked_mul(2),
        ) {
            (Some(height), Some(width)) => (height, width),
            _ => {
                return Err(TensorError::ShapeOverflow);
            },
        };
        let dims: [usize; 4] = [sizes[0], weight[1], height, width];
        assert(dims@ =~= seq![sizes@[0], weight@[1], height, width]);
        if element_count(vstd::array::array_as_slice(&dims)).is_none() {
            return Err(TensorError::ShapeOverflow);
        }
        if sizes[0] > 0 && (height == 0 || width == 0) {
            return Err(TensorError::Geometry);
        }
        Ok(
            TransposeShape {
                batch: sizes[0],
                input_channels: sizes[1],
                input_height: sizes[2],
                input_width: sizes[3],
                group_channels: weight[1],
                output_channels: weight[1],
                kernel_height: weight[2],
                kernel_width: weight[3],
                output_height: height,
                output_width: width,
            },
        )
    }

    /// Doubles the planes of an input: one product gives the four cells that
    /// each input cell spreads to, and the bias is added as they are written.
    #[verifier::spinoff_prover]
    #[verifier::rlimit(40)]
    fn forward_2x2<M: Fn(F, F, F) -> F, G: Fn(F, F) -> F>(
        &self,
        arithmetic: &Arithmetic<F, M>,
        addition: &G,
        input: &[F],
        bias: Option<&[F]>,
        matrix: &Vec<F>,
        shape: &TransposeShape,
        total: usize,
    ) -> (result: Vec<F>)
        requires
            self.wf(),
            self.matrix == Some(*matrix),
            arithmetic.valid(),
            forall|a: F, b: F| #[trigger] call_requires(*addition, (a, b)),
            doubles(self.options, *shape),
            shape.output_height == shape.input_height * 2,
            shape.output_width == shape.input_width * 2,
            shape.group_channels == shape.output_channels,
            shape.input_channels == self.weight@.shape[0],
            shape.output_channels == self.weight@.shape[1],
            shape.batch > 0 && shape.input_channels > 0 && shape.output_channels > 0,
            shape.input_height > 0 && shape.input_width > 0,
            input@.len() == shape.batch * shape.input_channels * shape.plane(),
            total == shape.batch * shape.output_channels * shape.area(),
            bias matches Some(values) ==> values@.len() == shape.output_channels,
        ensures
            result@.len() == total,
            forall|index: int|
                0 <= index < total ==> transpose_cell(
                    arithmetic,
                    *addition,
                    self.options,
                    *shape,
                    input@,
                    self.weight@.data->F32_0,
                    bias,
                    index,
                    #[trigger] result@[index],
                ),
    {
        let len: usize = input.len();
        let channels: usize = shape.input_channels;
        let outputs: usize = shape.output_channels;
        let ghost cells: int = shape.plane();
        let ghost spread: int = shape.area();
        let ghost weight = self.weight@.data->F32_0;
        let matrix_len: usize = matrix.len();
        proof {
            assert(cells >= 1) by (nonlinear_arith)
                requires
                    cells == shape.input_height * shape.input_width,
                    shape.input_height >= 1,
                    shape.input_width >= 1,
            ;
            assert(spread == cells * 4) by (nonlinear_arith)
                requires
                    spread == shape.output_height * shape.output_width,
                    shape.output_height == shape.input_height * 2,
                    shape.output_width == shape.input_width * 2,
                    cells == shape.input_height * shape.input_width,
            ;
            assert(shape.batch * channels * cells == shape.batch * (channels * cells))
                by (nonlinear_arith);
            assert(shape.batch * outputs * spread == shape.batch * (outputs * spread))
                by (nonlinear_arith);
            assert(cells <= channels * cells <= len) by (nonlinear_arith)
                requires
                    len == shape.batch * (channels * cells),
                    shape.batch >= 1,
                    channels >= 1,
                    cells >= 1,
            ;
            assert(spread <= outputs * spread <= total) by (nonlinear_arith)
                requires
                    total == shape.batch * (outputs * spread),
                    shape.batch >= 1,
                    outputs >= 1,
                    spread >= 1,
            ;
            assert(outputs * 4 * cells == outputs * spread) by (nonlinear_arith)
                requires
                    spread == cells * 4,
            ;
            assert(outputs * 4 <= outputs * 4 * cells) by (nonlinear_arith)
                requires
                    cells >= 1,
                    outputs >= 1,
            ;
        }
        let plane: usize = shape.input_height * shape.input_width;
        let area: usize = shape.output_height * shape.output_width;
        let rows: usize = outputs * 4;
        let size: usize = outputs * area;
        let input_size: usize = channels * plane;
        let identity = |value: F| -> (result: F)
            ensures
                result == value,
            { value };
        let mut output: Vec<F> = Vec::with_capacity(total);
        proof {
            vstd::arithmetic::mul::lemma_mul_basics(size as int);
        }
        for b in 0..shape.batch
            invariant
                self.wf(),
                self.matrix == Some(*matrix),
                matrix_len == matrix@.len(),
                arithmetic.valid(),
                forall|a: F, b: F| #[trigger] call_requires(*addition, (a, b)),
                forall|a: F| #[trigger] call_requires(identity, (a,)),
                forall|a: F, r: F| #[trigger] call_ensures(identity, (a,), r) ==> r == a,
                doubles(self.options, *shape),
                shape.output_height == shape.input_height * 2,
                shape.output_width == shape.input_width * 2,
                shape.group_channels == shape.output_channels,
                shape.input_channels == self.weight@.shape[0],
                shape.output_channels == self.weight@.shape[1],
                weight == self.weight@.data->F32_0,
                channels == shape.input_channels,
                outputs == shape.output_channels,
                channels > 0 && outputs > 0,
                shape.input_width > 0,
                plane == shape.plane(),
                plane >= 1,
                area == shape.area(),
                area == plane * 4,
                rows == outputs * 4,
                size == outputs * area,
                size == rows * plane,
                input_size == channels * plane,
                len == input@.len(),
                len == shape.batch * input_size,
                len == shape.batch * shape.input_channels * shape.plane(),
                total == shape.batch * size,
                bias matches Some(values) ==> values@.len() == outputs,
                output@.len() == b * size,
                forall|index: int|
                    0 <= index < b * size ==> transpose_cell(
                        arithmetic,
                        *addition,
                        self.options,
                        *shape,
                        input@,
                        weight,
                        bias,
                        index,
                        #[trigger] output@[index],
                    ),
        {
            proof {
                assert((b + 1) * input_size <= shape.batch * input_size) by (nonlinear_arith)
                    requires
                        b + 1 <= shape.batch,
                        input_size >= 0,
                ;
                assert((b + 1) * input_size == b * input_size + input_size) by (nonlinear_arith);
                assert((b + 1) * size == b * size + size) by (nonlinear_arith);
                assert((b + 1) * size <= shape.batch * size) by (nonlinear_arith)
                    requires
                        b + 1 <= shape.batch,
                        size >= 0,
                ;
                lemma_scale(0, b as int, input_size as int);
                lemma_scale(0, b as int, size as int);
            }
            let start: usize = b * input_size;
            let part: &[F] = vstd::slice::slice_subrange(input, start, start + input_size);
            assert(part@ =~= row_of(input@, input_size as int, b as int));
            let mut tile: Vec<F> = crate::arena::zeroed(Vec::new(), size, arithmetic.zero);
            let mut done: bool = false;
            if let Some(packed) = &self.large {
                if channels <= usize::MAX / 96 {
                    gemm_packed_left_cached_blocked_16(
                        arithmetic,
                        tile.as_mut_slice(),
                        packed.as_slice(),
                        part,
                        rows,
                        channels,
                        plane,
                        None,
                        Some(&identity),
                    );
                    proof {
                        lemma_packed_product(
                            arithmetic,
                            Some(&identity),
                            None,
                            packed@,
                            matrix@,
                            part@,
                            rows as int,
                            channels as int,
                            plane as int,
                            plane as int,
                            16,
                            tile@,
                        );
                    }
                    done = true;
                }
            }
            if !done {
                gemm_with_activation(
                    arithmetic,
                    tile.as_mut_slice(),
                    matrix.as_slice(),
                    part,
                    rows,
                    channels,
                    plane,
                    None,
                    Some(&identity),
                );
            }
            assert(is_gemm(
                arithmetic,
                Some(&identity),
                None,
                None,
                matrix@,
                None,
                part@,
                rows as int,
                channels as int,
                plane as int,
                plane as int,
                tile@,
            ));
            let tile_len: usize = tile.len();
            for local in 0..size
                invariant
                    arithmetic.valid(),
                    forall|a: F, b: F| #[trigger] call_requires(*addition, (a, b)),
                    forall|a: F, r: F| #[trigger] call_ensures(identity, (a,), r) ==> r == a,
                    doubles(self.options, *shape),
                    shape.output_height == shape.input_height * 2,
                    shape.output_width == shape.input_width * 2,
                    shape.group_channels == shape.output_channels,
                    b < shape.batch,
                    channels == shape.input_channels,
                    outputs == shape.output_channels,
                    outputs > 0,
                    shape.input_width > 0,
                    plane == shape.plane(),
                    plane >= 1,
                    area == shape.area(),
                    area == plane * 4,
                    rows == outputs * 4,
                    size == outputs * area,
                    size == rows * plane,
                    tile_len == tile@.len(),
                    tile_len == size,
                    input_size == channels * plane,
                    input@.len() == shape.batch * shape.input_channels * shape.plane(),
                    part@ == row_of(input@, input_size as int, b as int),
                    is_matrix(matrix@, weight, channels as int, outputs as int),
                    is_gemm(
                        arithmetic,
                        Some(&identity),
                        None,
                        None,
                        matrix@,
                        None,
                        part@,
                        rows as int,
                        channels as int,
                        plane as int,
                        plane as int,
                        tile@,
                    ),
                    bias matches Some(values) ==> values@.len() == outputs,
                    b * size >= 0,
                    output@.len() == b * size + local,
                    forall|index: int|
                        0 <= index < b * size + local ==> transpose_cell(
                            arithmetic,
                            *addition,
                            self.options,
                            *shape,
                            input@,
                            weight,
                            bias,
                            index,
                            #[trigger] output@[index],
                        ),
            {
                let channel: usize = local / area;
                let cell: usize = local % area;
                let y: usize = cell / shape.output_width;
                let x: usize = cell % shape.output_width;
                proof {
                    lemma_encode(local as int, area as int);
                    lemma_encode(cell as int, shape.output_width as int);
                    assert(channel < outputs) by (nonlinear_arith)
                        requires
                            local < outputs * area,
                            local == channel * area + cell,
                            cell >= 0,
                            area >= 1,
                    ;
                    assert(y < shape.output_height) by (nonlinear_arith)
                        requires
                            cell < shape.output_height * shape.output_width,
                            cell == y * shape.output_width + x,
                            x >= 0,
                            shape.output_width >= 1,
                    ;
                    lemma_doubling(
                        *shape,
                        input@,
                        weight,
                        matrix@,
                        b as int,
                        channel as int,
                        y as int,
                        x as int,
                    );
                    lemma_scale(0, (y / 2) as int, shape.input_width as int);
                }
                let row: usize = channel * 4 + (y % 2) * 2 + x % 2;
                let column: usize = y / 2 * shape.input_width + x / 2;
                proof {
                    lemma_row_bound(row as int, rows as int, column as int, plane as int);
                    lemma_scale(0, row as int, plane as int);
                }
                let sum: F = tile[row * plane + column];
                let offset: F = match bias {
                    Some(values) => values[channel],
                    None => arithmetic.zero,
                };
                let value: F = addition(sum, offset);
                proof {
                    let index: int = b * size + local;
                    let terms = doubling_terms(
                        *shape,
                        input@,
                        weight,
                        b as int,
                        channel as int,
                        y as int,
                        x as int,
                    );
                    assert(sum == tile@[cell_at(0, plane as int, row as int, column as int)]);
                    assert(fused(
                        arithmetic.mul_add,
                        Some(&identity),
                        arithmetic.zero,
                        terms,
                        sum,
                    ));
                    let inner = choose|inner: F| #[trigger]
                        accumulates(arithmetic.mul_add, arithmetic.zero, terms, inner)
                            && crate::accumulate::activates(Some(&identity), inner, sum);
                    assert(inner == sum);
                    let flat: int = b * outputs + channel;
                    assert(index == flat * area + cell) by (nonlinear_arith)
                        requires
                            index == b * size + local,
                            size == outputs * area,
                            local == channel * area + cell,
                            flat == b * outputs + channel,
                    ;
                    lemma_decode(flat, cell as int, area as int);
                    lemma_decode(b as int, channel as int, outputs as int);
                    assert(offset == bias_at(arithmetic.zero, bias, channel as int));
                    assert(transpose_cell(
                        arithmetic,
                        *addition,
                        self.options,
                        *shape,
                        input@,
                        weight,
                        bias,
                        index,
                        value,
                    ));
                }
                output.push(value);
            }
        }
        output
    }

    /// Convolves an input.
    #[verifier::spinoff_prover]
    pub fn forward<M: Fn(F, F, F) -> F, G: Fn(F, F) -> F>(
        &self,
        arithmetic: &Arithmetic<F, M>,
        addition: &G,
        input: &Tensor<F>,
    ) -> (result: Result<Tensor<F>, TensorError>)
        requires
            self.wf(),
            arithmetic.valid(),
            forall|a: F, b: F| #[trigger] call_requires(*addition, (a, b)),
            input@.wf(),
        ensures
            is_transpose_forward(*self, arithmetic, *addition, input@, view_of(result)),
    {
        let mut inputs: Vec<Tensor<F>> = Vec::new();
        inputs.push(input.duplicate());
        inputs.push(self.weight.duplicate());
        if let Some(tensor) = &self.bias {
            inputs.push(tensor.duplicate());
        }
        proof {
            assert(views(inputs@) =~= self.operands(input@));
            assert forall|i: int| 0 <= i < inputs@.len() implies (#[trigger] inputs@[i])@.wf() by {
                assert(views(inputs@)[i] == inputs@[i]@);
            }
        }
        if let Some(matrix) = &self.matrix {
            let shape: TransposeShape = match self.doubled_shape(input) {
                Err(error) => {
                    return Err(error);
                },
                Ok(shape) => shape,
            };
            let bias: Option<&[F]> = match &self.bias {
                Some(tensor) => match tensor.as_f32() {
                    Ok(values) => Some(values),
                    Err(_) => None,
                },
                None => None,
            };
            if shape.batch == 0 {
                let dims: Vec<usize> = vec![
                    0,
                    shape.output_channels,
                    shape.output_height,
                    shape.output_width,
                ];
                assert(dims@ =~= shape.output());
                proof {
                    lemma_product4(
                        shape.batch,
                        shape.output_channels,
                        shape.output_height,
                        shape.output_width,
                    );
                    assert(0 * shape.output_channels == 0) by (nonlinear_arith);
                    assert(0 * (shape.output_height * shape.output_width) == 0)
                        by (nonlinear_arith);
                }
                let tensor: Tensor<F> = Tensor::new_f32(dims, Vec::new());
                proof {
                    let chosen = bias_at(arithmetic.zero, bias, 0);
                    assert(is_transposed(
                        arithmetic,
                        *addition,
                        self.options,
                        shape,
                        self.operands(input@),
                        tensor@,
                    ));
                }
                return Ok(tensor);
            }
            if shape.input_channels > 0 && shape.output_channels > 0 {
                let values: &[F] = match input.as_f32() {
                    Err(error) => {
                        return Err(error);
                    },
                    Ok(values) => values,
                };
                let dims: Vec<usize> = vec![
                    shape.batch,
                    shape.output_channels,
                    shape.output_height,
                    shape.output_width,
                ];
                assert(dims@ =~= shape.output());
                let total: usize = match element_count(dims.as_slice()) {
                    None => {
                        return Err(TensorError::ShapeOverflow);
                    },
                    Some(total) => total,
                };
                proof {
                    lemma_wf_count(input@);
                    let first = input@.shape;
                    assert(first =~= seq![first[0], first[1], first[2], first[3]]);
                    lemma_product4(first[0], first[1], first[2], first[3]);
                    lemma_product4(
                        shape.batch,
                        shape.output_channels,
                        shape.output_height,
                        shape.output_width,
                    );
                    lemma_product_bounds(dims@);
                    assert(shape.group_channels * 1 == shape.group_channels) by (nonlinear_arith);
                    assert((shape.input_height - 1) * 2 + 2 == shape.input_height * 2);
                    assert((shape.input_width - 1) * 2 + 2 == shape.input_width * 2);
                    assert(doubles(self.options, shape));
                }
                let output: Vec<F> = self.forward_2x2(
                    arithmetic,
                    addition,
                    values,
                    bias,
                    matrix,
                    &shape,
                    total,
                );
                let tensor: Tensor<F> = Tensor::new_f32(dims, output);
                proof {
                    let chosen = bias_at(arithmetic.zero, bias, 0);
                    assert(is_transposed(
                        arithmetic,
                        *addition,
                        self.options,
                        shape,
                        self.operands(input@),
                        tensor@,
                    ));
                }
                return Ok(tensor);
            }
        }
        conv_transpose(arithmetic, inputs.as_slice(), &self.options, addition)
    }
}

} // verus!
