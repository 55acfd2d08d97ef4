//! A convolution with weights of its own, prepared for the kernel that serves it.
use vstd::prelude::*;
use crate::accumulate::{activation_valid, Arithmetic};
use crate::conv::{
    conv, conv_error, conv_shape, conv_shape_of, is_conv, lemma_product4, ConvOptions, ConvShape,
};
use crate::conv_plan::{
    large_pointwise_work, packed_pointwise_block_rows, pair_rows, plan_conv, plan_of, ConvGeometry,
    ConvPlan, Platform,
};
use crate::elementwise::row_of;
use crate::index::{cell_at, lemma_scale};
use crate::kernels::is_gemm;
use crate::layout::{lemma_wf_count, shape4, views};
use crate::packing::{interleaves, lemma_packed_product, pack_rows};
use crate::panels::{spatial_cell, spatial_conv2d_direct, spatial_valid, uses_panels};
use crate::pointwise::run_packed_pointwise;
use crate::pooling::view_of;
use crate::shape::{counts, element_count, lemma_product_bounds, product};
use crate::tensor::{Tensor, TensorError, TensorView};
use crate::window::Window;

verus! {

/// A convolution layer.
pub struct Conv2d<F> {
    pub weight: Tensor<F>,
    pub bias: Option<Tensor<F>>,
    pub geometry: ConvGeometry,
    pub plan: ConvPlan,
    /// The weights interleaved as the plan says.
    pub packed: Option<Vec<F>>,
    /// The weights interleaved for large products.
    pub large: Option<Vec<F>>,
}

/// The values of a bias, where there is one.
pub open spec fn bias_view<F>(bias: Option<Tensor<F>>) -> Option<TensorView<F>> {
    match bias {
        Some(tensor) => Some(tensor@),
        None => None,
    }
}

impl<F> Conv2d<F> {
    /// The dimensions of the weights.
    pub open spec fn shape(self) -> Seq<usize> {
        seq![
            self.geometry.output_channels,
            self.geometry.channels_per_group,
            self.geometry.kernel_height,
            self.geometry.kernel_width,
        ]
    }

    /// The layer's tensors go with its dimensions, and the interleaved weights
    /// hold what the weights hold.
    pub open spec fn wf(self) -> bool {
        &&& self.weight@.wf()
        &&& self.weight@.data is F32
        &&& self.weight@.shape == self.shape()
        &&& self.weight@.data.len() == self.geometry.output_channels * self.geometry.inner()
        &&& self.geometry.groups > 0
        &&& self.geometry.strides@[0] > 0 && self.geometry.strides@[1] > 0
        &&& self.bias matches Some(tensor) ==> tensor@.wf() && tensor@.data is F32
            && tensor@.data.len() == self.geometry.output_channels
        &&& self.packed matches Some(packed) ==> self.plan.block_rows is Some && interleaves(
            packed@,
            self.weight@.data->F32_0,
            self.geometry.output_channels as int,
            self.geometry.inner(),
            self.plan.block_rows->Some_0 as int,
        )
        &&& self.plan.block_rows is Some ==> self.packed is Some && self.geometry.output_channels
            > 0
        &&& self.plan.direct_spatial ==> self.geometry.groups == 1 && self.geometry.output_channels
            % 4 == 0 && self.plan.block_rows == Some(6usize)
        &&& self.large matches Some(packed) ==> self.geometry.output_channels % 16 == 0
            && interleaves(
            packed@,
            self.weight@.data->F32_0,
            self.geometry.output_channels as int,
            self.geometry.inner(),
            16,
        )
    }

    /// How the layer's convolution moves.
    pub open spec fn options(self) -> ConvOptions {
        ConvOptions {
            strides: self.geometry.strides,
            pads: self.geometry.pads,
            groups: self.geometry.groups,
            packed_pointwise: false,
        }
    }

    /// The inputs of the layer's convolution.
    pub open spec fn operands(self, input: TensorView<F>) -> Seq<TensorView<F>> {
        match self.bias {
            Some(tensor) => seq![input, self.weight@, tensor@],
            None => seq![input, self.weight@],
        }
    }

    /// Whether the layer is a product of its interleaved weights with each batch
    /// of the input.
    pub open spec fn is_product(self, input: TensorView<F>) -> bool {
        &&& self.geometry.pointwise()
        &&& self.plan.block_rows == Some(6usize) || self.plan.block_rows == Some(12usize)
        &&& input.data is F32
        &&& input.shape.len() == 4
        &&& input.shape[1] == self.geometry.channels_per_group
        &&& input.shape[0] > 0 && input.shape[1] > 0 && input.shape[2] > 0 && input.shape[3] > 0
    }
}

impl<F> Conv2d<F> {
    /// The dimensions of the layer's convolution of an input.
    pub open spec fn conv_shape(self, input: TensorView<F>) -> Result<ConvShape, TensorError> {
        conv_shape_of(
            input.shape,
            self.weight@.shape,
            match self.bias {
                Some(tensor) => Some(tensor@.data.len()),
                None => None,
            },
            self.options(),
        )
    }

    /// Whether the windows of the input are summed where they stand.
    pub open spec fn is_direct(self, input: TensorView<F>) -> bool {
        &&& !self.is_product(input)
        &&& self.plan.direct_spatial
        &&& input.data is F32
        &&& self.conv_shape(input) is Ok
        &&& input.shape[0] > 0
        &&& self.geometry.inner() > 0
        &&& self.geometry.inner() * 16 <= usize::MAX
    }
}

/// `output` holds, for each batch of the input, the sums over the windows.
pub open spec fn is_batched_direct<F, M: Fn(F, F, F) -> F, A: Fn(F) -> F>(
    arithmetic: &Arithmetic<F, M>,
    activation: Option<&A>,
    panels: bool,
    packed: Seq<F>,
    bias: Option<&[F]>,
    window: Window,
    shape: ConvShape,
    input: Seq<F>,
    batches: int,
    output: Seq<F>,
) -> bool {
    let size: int = shape.output_channels * shape.area();
    &&& output.len() == batches * size
    &&& forall|b: int, channel: int, cell: int|
        0 <= b < batches && 0 <= channel < shape.output_channels && 0 <= cell < shape.area()
            ==> spatial_cell(
            arithmetic,
            activation,
            bias,
            panels,
            window,
            row_of(input, shape.input_channels * shape.plane(), b),
            packed,
            shape.output_channels as int,
            channel,
            cell / shape.output_width as int,
            cell % shape.output_width as int,
            #[trigger] row_of(output, size, b)[cell_at(0, shape.area(), channel, cell)],
        )
}

/// Why a layer is refused; `None` where it is not.
pub open spec fn layer_error<F>(
    weight: TensorView<F>,
    bias: Option<TensorView<F>>,
    strides: Seq<usize>,
    groups: usize,
) -> Option<TensorError> {
    if weight.shape.len() != 4 {
        Some(TensorError::Rank)
    } else if weight.data is I64 {
        Some(TensorError::ExpectedF32)
    } else if groups == 0 || strides[0] == 0 || strides[1] == 0 {
        Some(TensorError::Geometry)
    } else if bias is Some && bias->Some_0.data is I64 {
        Some(TensorError::ExpectedF32)
    } else if bias is Some && bias->Some_0.data.len() != weight.shape[0] {
        Some(TensorError::Bias)
    } else {
        None
    }
}

/// The product for each batch: `output` holds, for each batch of the input, the
/// weights times the channels.
pub open spec fn is_batched_product<F, M: Fn(F, F, F) -> F, A: Fn(F) -> F>(
    arithmetic: &Arithmetic<F, M>,
    activation: Option<&A>,
    weight: Seq<F>,
    bias: Option<&[F]>,
    input: TensorView<F>,
    rows: int,
    output: Seq<F>,
) -> bool {
    let inner: int = input.shape[1] as int;
    let plane: int = input.shape[2] * input.shape[3];
    &&& output.len() == input.shape[0] * (rows * plane)
    &&& forall|b: int|
        0 <= b < input.shape[0] ==> is_gemm(
            arithmetic,
            activation,
            bias,
            None,
            weight,
            None,
            row_of(input.data->F32_0, inner * plane, b),
            rows,
            inner,
            plane,
            plane,
            #[trigger] row_of(output, rows * plane, b),
        )
}

/// What the layer may give for an input.
pub open spec fn is_forward<F, M: Fn(F, F, F) -> F, A: Fn(F) -> F>(
    layer: Conv2d<F>,
    arithmetic: &Arithmetic<F, M>,
    activation: Option<&A>,
    single_thread: bool,
    input: TensorView<F>,
    result: Result<TensorView<F>, TensorError>,
) -> bool {
    if layer.is_product(input) {
        let shape = seq![
            input.shape[0],
            layer.geometry.output_channels,
            input.shape[2],
            input.shape[3],
        ];
        if !counts(shape) {
            result == Err::<TensorView<F>, TensorError>(TensorError::ShapeOverflow)
        } else {
            result matches Ok(tensor) && {
                &&& tensor.wf()
                &&& tensor.shape == shape
                &&& tensor.data is F32
                &&& exists|bias: Option<&[F]>|
                    (match bias {
                        Some(values) => layer.bias is Some && values@
                            == layer.bias->Some_0@.data->F32_0,
                        None => layer.bias is None,
                    }) && #[trigger] is_batched_product(
                        arithmetic,
                        activation,
                        layer.weight@.data->F32_0,
                        bias,
                        input,
                        layer.geometry.output_channels as int,
                        tensor.data->F32_0,
                    )
            }
        }
    } else if layer.is_direct(input) {
        let shape = layer.conv_shape(input)->Ok_0;
        let packed = layer.packed->Some_0@;
        let window = shape.window(layer.options());
        result matches Ok(tensor) && {
            &&& tensor.wf()
            &&& tensor.shape == shape.output()
            &&& tensor.data is F32
            &&& exists|bias: Option<&[F]>|
                (match bias {
                    Some(values) => layer.bias is Some && values@
                        == layer.bias->Some_0@.data->F32_0,
                    None => layer.bias is None,
                }) && #[trigger] is_batched_direct(
                    arithmetic,
                    activation,
                    uses_panels(
                        single_thread,
                        shape.output_channels as int,
                        packed.len() as int,
                        window.size(),
                    ),
                    packed,
                    bias,
                    window,
                    shape,
                    input.data->F32_0,
                    shape.batch as int,
                    tensor.data->F32_0,
                )
        }
    } else {
        match result {
            Ok(tensor) => conv_error(layer.operands(input), layer.options()) is None && is_conv(
                arithmetic,
                activation,
                layer.options(),
                layer.operands(input),
                tensor,
            ),
            Err(error) => conv_error(layer.operands(input), layer.options()) == Some(error),
        }
    }
}

/// The geometry of a layer, from the shape of its weights.
pub open spec fn geometry_of(
    shape: Seq<usize>,
    strides: [usize; 2],
    pads: [usize; 4],
    groups: usize,
) -> ConvGeometry {
    ConvGeometry {
        output_channels: shape[0],
        channels_per_group: shape[1],
        kernel_height: shape[2],
        kernel_width: shape[3],
        strides,
        pads,
        groups,
    }
}

/// Whether a plan has weights interleaved.
pub open spec fn packs(plan: ConvPlan) -> bool {
    plan.large_pointwise || plan.block_rows is Some
}

/// Whether a plan has weights interleaved that have no rows.
pub open spec fn packs_nothing(geometry: ConvGeometry, zeros: bool, platform: Platform) -> bool {
    geometry.output_channels == 0 && packs(plan_of(geometry, zeros, platform))
}

/// Interleaves the weights of a layer.
pub fn pack_conv_rows<F: Copy>(weight: &Tensor<F>, rows: usize, block_rows: usize) -> (result:
    Result<Vec<F>, TensorError>)
    requires
        weight@.wf(),
        weight@.data is F32,
        block_rows > 0,
        rows > 0 ==> weight@.data.len() % (rows as nat) == 0,
    ensures
        match result {
            Ok(packed) => rows > 0 && interleaves(
                packed@,
                weight@.data->F32_0,
                rows as int,
                (weight@.data.len() / (rows as nat)) as int,
                block_rows as int,
            ),
            Err(error) => rows == 0 && error == TensorError::Pack,
        },
{
    match weight.as_f32() {
        Err(error) => Err(error),
        Ok(values) => match pack_rows(values, rows, block_rows) {
            Ok(packed) => Ok(packed),
            Err(_) => Err(TensorError::Pack),
        },
    }
}

impl<F: Copy> Conv2d<F> {
    /// A layer with the given weights, interleaved as its plan says. `zeros`
    /// tells whether a lossless sparse form of the weights was found.
    pub fn new(
        weight: Tensor<F>,
        bias: Option<Tensor<F>>,
        strides: [usize; 2],
        pads: [usize; 4],
        groups: usize,
        zeros: bool,
        platform: Platform,
    ) -> (result: Result<Conv2d<F>, TensorError>)
        requires
            weight@.wf(),
            bias matches Some(tensor) ==> tensor@.wf(),
        ensures
            ({
                let refusal = layer_error(weight@, bias_view(bias), strides@, groups);
                let geometry = geometry_of(weight@.shape, strides, pads, groups);
                match result {
                    Ok(layer) => {
                        &&& refusal is None
                        &&& !packs_nothing(geometry, zeros, platform)
                        &&& layer.wf()
                        &&& layer.weight@ == weight@
                        &&& bias_view(layer.bias) == bias_view(bias)
                        &&& layer.geometry == geometry
                        &&& layer.shape() == weight@.shape
                        &&& layer.plan == plan_of(geometry, zeros, platform)
                        &&& layer.large is Some == layer.plan.large_pointwise
                    },
                    Err(error) => {
                        ||| refusal == Some(error)
                        ||| refusal is None && packs_nothing(geometry, zeros, platform) && error
                            == TensorError::Pack
                    },
                }
            }),
    {
        let sizes: [usize; 4] = match shape4(weight.shape()) {
            Err(error) => {
                return Err(error);
            },
            Ok(sizes) => sizes,
        };
        match weight.as_f32() {
            Err(error) => {
                return Err(error);
            },
            Ok(_) => {},
        }
        if groups == 0 || strides[0] == 0 || strides[1] == 0 {
            return Err(TensorError::Geometry);
        }
        if let Some(tensor) = &bias {
            match tensor.as_f32() {
                Err(error) => {
                    return Err(error);
                },
                Ok(values) => {
                    if values.len() != sizes[0] {
                        return Err(TensorError::Bias);
                    }
                },
            }
        }
        let geometry: ConvGeometry = ConvGeometry {
            output_channels: sizes[0],
            channels_per_group: sizes[1],
            kernel_height: sizes[2],
            kernel_width: sizes[3],
            strides,
            pads,
            groups,
        };
        let plan: ConvPlan = plan_conv(&geometry, zeros, platform);
        let rows: usize = sizes[0];
        proof {
            lemma_wf_count(weight@);
            assert(weight@.shape =~= seq![sizes@[0], sizes@[1], sizes@[2], sizes@[3]]);
            lemma_product4(sizes@[0], sizes@[1], sizes@[2], sizes@[3]);
            let inner: int = geometry.inner();
            assert(rows * sizes@[1] * (sizes@[2] * sizes@[3]) == rows * inner) by (nonlinear_arith)
                requires
                    inner == sizes@[1] * sizes@[2] * sizes@[3],
            ;
            if rows > 0 {
                assert(rows * inner == inner * rows) by (nonlinear_arith);
                vstd::arithmetic::div_mod::lemma_mod_multiples_basic(inner, rows as int);
                vstd::arithmetic::div_mod::lemma_div_by_multiple(inner, rows as int);
            }
        }
        let large: Option<Vec<F>> = if plan.large_pointwise {
            match pack_conv_rows(&weight, rows, 16) {
                Ok(packed) => Some(packed),
                Err(error) => {
                    return Err(error);
                },
            }
        } else {
            None
        };
        let packed: Option<Vec<F>> = match plan.block_rows {
            Some(block) => match pack_conv_rows(&weight, rows, block) {
                Ok(packed) => Some(packed),
                Err(error) => {
                    return Err(error);
                },
            },
            None => None,
        };
        Ok(Conv2d { weight, bias, geometry, plan, packed, large })
    }

    /// The groups of output channels that a pair of convolutions can use.
    pub fn packed_pointwise_block_rows(&self, platform: Platform) -> (result: Option<usize>)
        ensures
            result == pair_rows(self.geometry, self.plan, platform),
    {
        packed_pointwise_block_rows(&self.geometry, &self.plan, platform)
    }

    fn bias_values(&self) -> (result: Option<&[F]>)
        requires
            self.wf(),
        ensures
            match result {
                Some(values) => self.bias is Some && values@ == self.bias->Some_0@.data->F32_0,
                None => self.bias is None,
            },
    {
        match &self.bias {
            None => None,
            Some(tensor) => match tensor.as_f32() {
                Ok(values) => Some(values),
                Err(_) => None,
            },
        }
    }

    fn conv_options(&self) -> (result: ConvOptions)
        ensures
            result == self.options(),
    {
        ConvOptions {
            strides: self.geometry.strides,
            pads: self.geometry.pads,
            groups: self.geometry.groups,
            packed_pointwise: false,
        }
    }

    /// The number of weights of an output channel.
    fn inner_len(&self) -> (result: usize)
        requires
            self.wf(),
            self.geometry.output_channels > 0,
        ensures
            result == self.geometry.inner(),
    {
        let rows: usize = self.geometry.output_channels;
        match self.weight.as_f32() {
            Ok(values) => {
                proof {
                    let inner: int = self.geometry.inner();
                    assert(rows * inner == inner * rows) by (nonlinear_arith);
                    assert(inner >= 0) by (nonlinear_arith)
                        requires
                            inner == self.geometry.channels_per_group
                                * self.geometry.kernel_height * self.geometry.kernel_width,
                    ;
                    vstd::arithmetic::div_mod::lemma_div_by_multiple(inner, rows as int);
                }
                values.len() / rows
            },
            Err(_) => 0,
        }
    }

    #[verifier::spinoff_prover]
    fn run_direct<M: Fn(F, F, F) -> F, A: Fn(F) -> F>(
        &self,
        arithmetic: &Arithmetic<F, M>,
        activation: Option<&A>,
        single_thread: bool,
        input: &Tensor<F>,
        shape: &ConvShape,
    ) -> (result: Result<Tensor<F>, TensorError>)
        requires
            self.wf(),
            arithmetic.valid(),
            activation_valid(activation),
            input@.wf(),
            self.is_direct(input@),
            self.conv_shape(input@) == Ok::<ConvShape, TensorError>(*shape),
            shape.window(self.options()).reaches(
                shape.output_height as int,
                shape.output_width as int,
            ),
            shape.output_height > 0 && shape.output_width > 0,
        ensures
            is_forward(
                *self,
                arithmetic,
                activation,
                single_thread,
                input@,
                view_of(result),
            ),
            result matches Ok(tensor) ==> tensor@.wf(),
    {
        let values: &[F] = match input.as_f32() {
            Err(error) => {
                return Err(error);
            },
            Ok(values) => values,
        };
        let empty: Vec<F> = Vec::new();
        let packed: &Vec<F> = match &self.packed {
            Some(packed) => packed,
            None => &empty,
        };
        let bias: Option<&[F]> = self.bias_values();
        let window: Window = Window {
            channels: shape.channels_per_group,
            input_height: shape.input_height,
            input_width: shape.input_width,
            kernel_height: shape.kernel_height,
            kernel_width: shape.kernel_width,
            stride_y: self.geometry.strides[0],
            stride_x: self.geometry.strides[1],
            pad_y: self.geometry.pads[0],
            pad_x: self.geometry.pads[1],
        };
        assert(window == shape.window(self.options()));
        let rows: usize = shape.output_channels;
        let dims: Vec<usize> = vec![shape.batch, rows, shape.output_height, shape.output_width];
        assert(dims@ =~= shape.output());
        let total: usize = match element_count(dims.as_slice()) {
            None => {
                return Err(TensorError::ShapeOverflow);
            },
            Some(total) => total,
        };
        let len: usize = values.len();
        let ghost area: int = shape.area();
        let ghost plane: int = shape.plane();
        let ghost channels: int = shape.input_channels as int;
        let ghost panels = uses_panels(
            single_thread,
            rows as int,
            packed@.len() as int,
            window.size(),
        );
        proof {
            lemma_wf_count(input@);
            let dims_in = input@.shape;
            assert(dims_in =~= seq![dims_in[0], dims_in[1], dims_in[2], dims_in[3]]);
            lemma_product4(dims_in[0], dims_in[1], dims_in[2], dims_in[3]);
            lemma_product4(shape.batch, rows, shape.output_height, shape.output_width);
            lemma_product_bounds(dims@);
            assert(area >= 1) by (nonlinear_arith)
                requires
                    area == shape.output_height * shape.output_width,
                    shape.output_height >= 1,
                    shape.output_width >= 1,
            ;
            assert(shape.batch * rows * area == shape.batch * (rows * area)) by (nonlinear_arith);
            assert(shape.batch * channels * plane == shape.batch * (channels * plane))
                by (nonlinear_arith);
            assert(shape.channels_per_group * 1 == shape.channels_per_group) by (nonlinear_arith);
            lemma_scale(0, channels, plane);
            lemma_scale(0, shape.input_height as int, shape.input_width as int);
            assert(rows * area <= total && 0 < rows * area) by (nonlinear_arith)
                requires
                    total == shape.batch * (rows * area),
                    shape.batch >= 1,
                    rows >= 1,
                    area >= 1,
            ;
            assert(area <= rows * area) by (nonlinear_arith)
                requires
                    rows >= 1,
                    area >= 1,
            ;
            let input_size: int = channels * plane;
            assert(input_size <= len) by (nonlinear_arith)
                requires
                    len == shape.batch * input_size,
                    shape.batch >= 1,
                    input_size >= 0,
            ;
        }
        let cells: usize = shape.output_height * shape.output_width;
        let size: usize = rows * cells;
        let input_size: usize = len / shape.batch;
        proof {
            vstd::arithmetic::div_mod::lemma_div_by_multiple(channels * plane, shape.batch as int);
            assert(shape.batch * (channels * plane) == (channels * plane) * shape.batch)
                by (nonlinear_arith);
            vstd::arithmetic::mul::lemma_mul_basics(size as int);
        }
        let mut output: Vec<F> = Vec::new();
        for b in 0..shape.batch
            invariant
                arithmetic.valid(),
                activation_valid(activation),
                len == values@.len(),
                len == shape.batch * input_size,
                input_size == channels * plane,
                channels == shape.input_channels,
                plane == shape.plane(),
                area == shape.area(),
                cells == area,
                size == rows * area,
                rows == shape.output_channels,
                shape.batch * size <= usize::MAX,
                panels == uses_panels(
                    single_thread,
                    rows as int,
                    packed@.len() as int,
                    window.size(),
                ),
                spatial_valid(
                    window,
                    rows as int,
                    shape.output_height as int,
                    shape.output_width as int,
                    size as int,
                    input_size as int,
                    packed@.len() as int,
                    bias,
                ),
                output@.len() == b * size,
                is_batched_direct(
                    arithmetic,
                    activation,
                    panels,
                    packed@,
                    bias,
                    window,
                    *shape,
                    values@,
                    b as int,
                    output@,
                ),
        {
            proof {
                assert((b + 1) * input_size <= shape.batch * input_size) by (nonlinear_arith)
                    requires
                        b + 1 <= shape.batch,
                        input_size >= 0,
                ;
                assert((b + 1) * input_size == b * input_size + input_size) by (nonlinear_arith);
                assert((b + 1) * size == b * size + size) by (nonlinear_arith);
                lemma_scale(0, b as int, input_size as int);
            }
            let start: usize = b * input_size;
            let part: &[F] = vstd::slice::slice_subrange(values, start, start + input_size);
            let mut made: Vec<F> = crate::arena::zeroed(Vec::new(), size, arithmetic.zero);
            spatial_conv2d_direct(
                arithmetic,
                single_thread,
                made.as_mut_slice(),
                part,
                packed.as_slice(),
                bias,
                &window,
                rows,
                shape.output_height,
                shape.output_width,
                activation,
            );
            let ghost before = output@;
            let ghost values_made = made@;
            assert(part@ =~= row_of(values@, input_size as int, b as int));
            output.append(&mut made);
            proof {
                assert(output@ =~= before + values_made);
                assert forall|i: int, channel: int, cell: int|
                    0 <= i < b + 1 && 0 <= channel < rows && 0 <= cell < area implies spatial_cell(
                    arithmetic,
                    activation,
                    bias,
                    panels,
                    window,
                    row_of(values@, input_size as int, i),
                    packed@,
                    rows as int,
                    channel,
                    cell / shape.output_width as int,
                    cell % shape.output_width as int,
                    #[trigger] row_of(output@, size as int, i)[cell_at(0, area, channel, cell)],
                ) by {
                    if i < b {
                        assert((i + 1) * size <= b * size) by (nonlinear_arith)
                            requires
                                i + 1 <= b,
                                size >= 0,
                        ;
                        lemma_scale(0, i, size as int);
                        assert((i + 1) * size == i * size + size) by (nonlinear_arith);
                        assert(row_of(output@, size as int, i) =~= row_of(before, size as int, i));
                        assert(spatial_cell(
                            arithmetic,
                            activation,
                            bias,
                            panels,
                            window,
                            row_of(values@, input_size as int, i),
                            packed@,
                            rows as int,
                            channel,
                            cell / shape.output_width as int,
                            cell % shape.output_width as int,
                            row_of(before, size as int, i)[cell_at(0, area, channel, cell)],
                        ));
                    } else {
                        assert(row_of(output@, size as int, i) =~= values_made);
                        assert(spatial_cell(
                            arithmetic,
                            activation,
                            bias,
                            panels,
                            window,
                            part@,
                            packed@,
                            rows as int,
                            channel,
                            cell / shape.output_width as int,
                            cell % shape.output_width as int,
                            values_made[cell_at(0, area, channel, cell)],
                        ));
                    }
                }
            }
        }
        Ok(Tensor::new_f32(dims, output))
    }

    #[verifier::spinoff_prover]
    fn run_product<M: Fn(F, F, F) -> F, A: Fn(F) -> F>(
        &self,
        arithmetic: &Arithmetic<F, M>,
        activation: Option<&A>,
        single_thread: bool,
        input: &Tensor<F>,
    ) -> (result: Result<Tensor<F>, TensorError>)
        requires
            self.wf(),
            arithmetic.valid(),
            activation_valid(activation),
            input@.wf(),
            self.is_product(input@),
        ensures
            is_forward(
                *self,
                arithmetic,
                activation,
                single_thread,
                input@,
                view_of(result),
            ),
    {
        let shape: &[usize] = input.shape();
        let batch: usize = shape[0];
        let inner: usize = shape[1];
        let height: usize = shape[2];
        let width: usize = shape[3];
        let rows: usize = self.geometry.output_channels;
        let dims: Vec<usize> = vec![batch, rows, height, width];
        let ghost wanted = seq![batch, rows, height, width];
        assert(dims@ =~= wanted);
        let total: usize = match element_count(dims.as_slice()) {
            None => {
                return Err(TensorError::ShapeOverflow);
            },
            Some(total) => total,
        };
        let values: &[F] = match input.as_f32() {
            Err(error) => {
                return Err(error);
            },
            Ok(values) => values,
        };
        let len: usize = values.len();
        let bias: Option<&[F]> = self.bias_values();
        let ghost cells: int = height * width;
        let ghost dense = self.weight@.data->F32_0;
        proof {
            lemma_wf_count(input@);
            assert(shape@ =~= seq![batch, inner, height, width]);
            lemma_product4(batch, inner, height, width);
            lemma_product4(batch, rows, height, width);
            lemma_product_bounds(dims@);
            assert(cells >= 1) by (nonlinear_arith)
                requires
                    cells == height * width,
                    height >= 1,
                    width >= 1,
            ;
            assert(batch * inner * cells == batch * (inner * cells)) by (nonlinear_arith);
            assert(batch * rows * cells == batch * (rows * cells)) by (nonlinear_arith);
            assert(cells <= len) by (nonlinear_arith)
                requires
                    len == batch * (inner * cells),
                    batch >= 1,
                    inner >= 1,
                    cells >= 1,
            ;
            assert(inner * 1 * 1 == inner) by (nonlinear_arith);
            assert(self.geometry.inner() == inner);
        }
        let plane: usize = height * width;
        let block: usize = match self.plan.block_rows {
            Some(block) => block,
            None => 12,
        };
        let use_large: bool = self.large.is_some() && inner <= usize::MAX / 96
            && large_pointwise_work(batch, rows, inner, height, width);
        let output: Vec<F> = match (&self.large, use_large) {
            (Some(weight), true) => {
                let made: Vec<F> = run_packed_pointwise(
                    arithmetic,
                    activation,
                    weight.as_slice(),
                    bias,
                    values,
                    batch,
                    rows,
                    inner,
                    plane,
                    16,
                );
                proof {
                    self.lemma_dense(
                        arithmetic,
                        activation,
                        bias,
                        weight@,
                        16,
                        input@,
                        made@,
                    );
                }
                made
            },
            _ => match &self.packed {
                Some(weight) => {
                    let made: Vec<F> = run_packed_pointwise(
                        arithmetic,
                        activation,
                        weight.as_slice(),
                        bias,
                        values,
                        batch,
                        rows,
                        inner,
                        plane,
                        block,
                    );
                    proof {
                        self.lemma_dense(
                            arithmetic,
                            activation,
                            bias,
                            weight@,
                            block as int,
                            input@,
                            made@,
                        );
                    }
                    made
                },
                None => Vec::new(),
            },
        };
        assert(is_batched_product(
            arithmetic,
            activation,
            dense,
            bias,
            input@,
            rows as int,
            output@,
        ));
        Ok(Tensor::new_f32(dims, output))
    }

    /// The products with interleaved weights are those with the weights themselves.
    proof fn lemma_dense<M: Fn(F, F, F) -> F, A: Fn(F) -> F>(
        self,
        arithmetic: &Arithmetic<F, M>,
        activation: Option<&A>,
        bias: Option<&[F]>,
        packed: Seq<F>,
        block: int,
        input: TensorView<F>,
        output: Seq<F>,
    )
        requires
            self.wf(),
            self.is_product(input),
            self.geometry.inner() == input.shape[1],
            interleaves(
                packed,
                self.weight@.data->F32_0,
                self.geometry.output_channels as int,
                self.geometry.inner(),
                block,
            ),
            output.len() == input.shape[0] * (self.geometry.output_channels * (input.shape[2]
                * input.shape[3])),
            forall|b: int|
                0 <= b < input.shape[0] ==> is_gemm(
                    arithmetic,
                    activation,
                    bias,
                    None,
                    packed,
                    Some(block),
                    row_of(
                        input.data->F32_0,
                        input.shape[1] * (input.shape[2] * input.shape[3]),
                        b,
                    ),
                    self.geometry.output_channels as int,
                    input.shape[1] as int,
                    input.shape[2] * input.shape[3],
                    input.shape[2] * input.shape[3],
                    #[trigger] row_of(
                        output,
                        self.geometry.output_channels * (input.shape[2] * input.shape[3]),
                        b,
                    ),
                ),
        ensures
            is_batched_product(
                arithmetic,
                activation,
                self.weight@.data->F32_0,
                bias,
                input,
                self.geometry.output_channels as int,
                output,
            ),
    {
        let rows: int = self.geometry.output_channels as int;
        let inner: int = input.shape[1] as int;
        let plane: int = input.shape[2] * input.shape[3];
        assert forall|b: int| 0 <= b < input.shape[0] implies is_gemm(
            arithmetic,
            activation,
            bias,
            None,
            self.weight@.data->F32_0,
            None,
            row_of(input.data->F32_0, inner * plane, b),
            rows,
            inner,
            plane,
            plane,
            #[trigger] row_of(output, rows * plane, b),
        ) by {
            lemma_packed_product(
                arithmetic,
                activation,
                bias,
                packed,
                self.weight@.data->F32_0,
                row_of(input.data->F32_0, inner * plane, b),
                rows,
                inner,
                plane,
                plane,
                block,
                row_of(output, rows * plane, b),
            );
        }
    }

    /// Convolves an input.
    pub fn forward<M: Fn(F, F, F) -> F, A: Fn(F) -> F>(
        &self,
        arithmetic: &Arithmetic<F, M>,
        activation: Option<&A>,
        single_thread: bool,
        input: &Tensor<F>,
    ) -> (result: Result<Tensor<F>, TensorError>)
        requires
            self.wf(),
            arithmetic.valid(),
            activation_valid(activation),
            input@.wf(),
        ensures
            is_forward(
                *self,
                arithmetic,
                activation,
                single_thread,
                input@,
                view_of(result),
            ),
            result matches Ok(tensor) ==> tensor@.wf(),
    {
        let shape: &[usize] = input.shape();
        let product: bool = self.geometry.groups == 1 && self.geometry.kernel_height == 1
            && self.geometry.kernel_width == 1 && self.geometry.strides[0] == 1
            && self.geometry.strides[1] == 1 && self.geometry.pads[0] == 0
            && self.geometry.pads[1] == 0 && self.geometry.pads[2] == 0 && self.geometry.pads[3]
            == 0 && (match self.plan.block_rows {
            Some(block) => block == 6 || block == 12,
            None => false,
        }) && input.as_f32().is_ok() && shape.len() == 4 && shape[1]
            == self.geometry.channels_per_group && shape[0] > 0 && shape[1] > 0 && shape[2] > 0
            && shape[3] > 0;
        assert(product == self.is_product(input@));
        if product {
            return self.run_product(arithmetic, activation, single_thread, input);
        }
        if self.plan.direct_spatial && input.as_f32().is_ok() {
            let options: ConvOptions = self.conv_options();
            let bias_len: Option<usize> = match self.bias_values() {
                Some(values) => Some(values.len()),
                None => None,
            };
            let found: Result<ConvShape, TensorError> = conv_shape(
                shape,
                self.weight.shape(),
                bias_len,
                &options,
            );
            if let Ok(dims) = found {
                let inner: usize = self.inner_len();
                if dims.batch > 0 && inner > 0 && inner <= usize::MAX / 16 {
                    assert(self.is_direct(input@));
                    return self.run_direct(arithmetic, activation, single_thread, input, &dims);
                }
            }
        }
        assert(!self.is_direct(input@));
        let mut inputs: Vec<Tensor<F>> = Vec::new();
        inputs.push(input.duplicate());
        inputs.push(self.weight.duplicate());
        if let Some(tensor) = &self.bias {
            inputs.push(tensor.duplicate());
        }
        proof {
            assert(views(inputs@) =~= self.operands(input@));
            assert forall|i: int| 0 <= i < inputs@.len() implies (#[trigger] inputs@[i])@.wf() by {
                assert(views(inputs@)[i] == inputs@[i]@);
            }
        }
        let options: ConvOptions = self.conv_options();
        conv(arithmetic, inputs.as_slice(), &options, activation)
    }
}

} // verus!
