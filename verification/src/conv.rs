//! Convolution of tensors.
use crate::accumulate::{activation_valid, fused, Arithmetic};
use crate::convolution::convolve_rows;
use crate::index::{cell_at, lemma_decode, lemma_encode, lemma_row_bound, lemma_scale};
use crate::layout::{all_wf, conv_output_size, lemma_wf_count, shape4, views, window_count};
use crate::kernels::{bias_at, bias_has_len};
use crate::panels::im2col;
use crate::product::{blocked_product, packed_position, Initial, Product};
use crate::shape::{counts, element_count, lemma_product_bounds, product};
use crate::tensor::{DataView, Tensor, TensorError, TensorView};
use crate::window::Window;
use vstd::prelude::*;

verus! {

/// How a convolution moves over its input.
#[derive(Clone, Copy, Debug)]
pub struct ConvOptions {
    /// The vertical and horizontal stride.
    pub strides: [usize; 2],
    /// The padding above, to the left, below, and to the right.
    pub pads: [usize; 4],
    pub groups: usize,
    /// The weight is interleaved in groups of twelve output channels.
    pub packed_pointwise: bool,
}

/// The dimensions of a convolution.
#[derive(Clone, Copy, Debug, PartialEq, Eq, Structural)]
pub struct ConvShape {
    pub batch: usize,
    pub input_channels: usize,
    pub input_height: usize,
    pub input_width: usize,
    pub output_channels: usize,
    pub channels_per_group: usize,
    pub kernel_height: usize,
    pub kernel_width: usize,
    pub output_height: usize,
    pub output_width: usize,
}

impl ConvShape {
    /// The number of cells of an output plane.
    pub open spec fn area(self) -> int {
        self.output_height * self.output_width
    }

    /// The number of cells of an input plane.
    pub open spec fn plane(self) -> int {
        self.input_height * self.input_width
    }

    /// The shape of the output.
    pub open spec fn output(self) -> Seq<usize> {
        seq![self.batch, self.output_channels, self.output_height, self.output_width]
    }

    /// The window that one output channel sees.
    pub open spec fn window(self, options: ConvOptions) -> Window {
        Window {
            channels: self.channels_per_group,
            input_height: self.input_height,
            input_width: self.input_width,
            kernel_height: self.kernel_height,
            kernel_width: self.kernel_width,
            stride_y: options.strides@[0],
            stride_x: options.strides@[1],
            pad_y: options.pads@[0],
            pad_x: options.pads@[1],
        }
    }
}

/// The kernel is a single cell that moves over every cell of an unpadded input.
pub open spec fn is_pointwise(options: ConvOptions, shape: ConvShape) -> bool {
    shape.kernel_height == 1 && shape.kernel_width == 1 && options.strides@[0] == 1
        && options.strides@[1] == 1 && options.pads@[0] == 0 && options.pads@[1] == 0
        && options.pads@[2] == 0 && options.pads@[3] == 0 && options.groups == 1
}

/// The convolution is a product with the gathered cells: a pair for every kernel
/// position, also over the padding.
pub open spec fn gathers(options: ConvOptions, shape: ConvShape) -> bool {
    is_pointwise(options, shape) || (options.groups == 1 && !(options.strides@[0] == 1
        && options.strides@[1] == 1))
}

/// The dimensions of a convolution, or why it is refused.
pub open spec fn conv_shape_of(
    input: Seq<usize>,
    weight: Seq<usize>,
    bias: Option<nat>,
    options: ConvOptions,
) -> Result<ConvShape, TensorError> {
    if input.len() != 4 || weight.len() != 4 {
        Err(TensorError::Rank)
    } else if options.groups == 0 {
        Err(TensorError::Geometry)
    } else if input[1] != weight[1] * options.groups || weight[0] % options.groups != 0 {
        Err(TensorError::Channels)
    } else if bias is Some && bias->0 != weight[0] {
        Err(TensorError::Bias)
    } else {
        match window_count(
            input[2] as int,
            weight[2] as int,
            options.strides@[0] as int,
            options.pads@[0] as int,
            options.pads@[2] as int,
            false,
        ) {
            Err(error) => Err(error),
            Ok(output_height) => match window_count(
                input[3] as int,
                weight[3] as int,
                options.strides@[1] as int,
                options.pads@[1] as int,
                options.pads@[3] as int,
                false,
            ) {
                Err(error) => Err(error),
                Ok(output_width) => if counts(
                    seq![input[0], weight[0], output_height, output_width],
                ) {
                    Ok(
                        ConvShape {
                            batch: input[0],
                            input_channels: input[1],
                            input_height: input[2],
                            input_width: input[3],
                            output_channels: weight[0],
                            channels_per_group: weight[1],
                            kernel_height: weight[2],
                            kernel_width: weight[3],
                            output_height,
                            output_width,
                        },
                    )
                } else {
                    Err(TensorError::ShapeOverflow)
                },
            },
        }
    }
}

/// The dimensions of a convolution.
pub fn conv_shape(
    input: &[usize],
    weight: &[usize],
    bias: Option<usize>,
    options: &ConvOptions,
) -> (result: Result<ConvShape, TensorError>)
    ensures
        result == conv_shape_of(
            input@,
            weight@,
            match bias {
                Some(len) => Some(len as nat),
                None => None,
            },
            *options,
        ),
        result matches Ok(shape) ==> {
            &&& (shape.output_height - 1) * options.strides@[0] + shape.kernel_height <= usize::MAX
            &&& (shape.output_width - 1) * options.strides@[1] + shape.kernel_width <= usize::MAX
            &&& 0 < shape.output_height && 0 < shape.output_width
            &&& 0 < shape.kernel_height && 0 < shape.kernel_width
        },
{
    let input_dims: [usize; 4] = match shape4(input) {
        Err(error) => {
            return Err(error);
        },
        Ok(sizes) => sizes,
    };
    let weight_dims: [usize; 4] = match shape4(weight) {
        Err(error) => {
            return Err(error);
        },
        Ok(sizes) => sizes,
    };
    if options.groups == 0 {
        return Err(TensorError::Geometry);
    }
    match weight_dims[1].checked_mul(options.groups) {
        None => {
            return Err(TensorError::Channels);
        },
        Some(channels) => {
            if channels != input_dims[1] {
                return Err(TensorError::Channels);
            }
        },
    }
    if weight_dims[0] % options.groups != 0 {
        return Err(TensorError::Channels);
    }
    if let Some(len) = bias {
        if len != weight_dims[0] {
            return Err(TensorError::Bias);
        }
    }
    let output_height: usize = match conv_output_size(
        input_dims[2],
        weight_dims[2],
        options.strides[0],
        options.pads[0],
        options.pads[2],
        false,
    ) {
        Err(error) => {
            return Err(error);
        },
        Ok(size) => size,
    };
    let output_width: usize = match conv_output_size(
        input_dims[3],
        weight_dims[3],
        options.strides[1],
        options.pads[1],
        options.pads[3],
        false,
    ) {
        Err(error) => {
            return Err(error);
        },
        Ok(size) => size,
    };
    proof {
        lemma_window_reach(
            input_dims@[2] + options.pads@[0] + options.pads@[2],
            weight_dims@[2] as int,
            options.strides@[0] as int,
        );
        lemma_window_reach(
            input_dims@[3] + options.pads@[1] + options.pads@[3],
            weight_dims@[3] as int,
            options.strides@[1] as int,
        );
    }
    let dims: [usize; 4] = [input_dims[0], weight_dims[0], output_height, output_width];
    assert(dims@ =~= seq![input_dims@[0], weight_dims@[0], output_height, output_width]);
    let sizes: &[usize] = vstd::array::array_as_slice(&dims);
    if element_count(sizes).is_none() {
        return Err(TensorError::ShapeOverflow);
    }
    Ok(
        ConvShape {
            batch: input_dims[0],
            input_channels: input_dims[1],
            input_height: input_dims[2],
            input_width: input_dims[3],
            output_channels: weight_dims[0],
            channels_per_group: weight_dims[1],
            kernel_height: weight_dims[2],
            kernel_width: weight_dims[3],
            output_height,
            output_width,
        },
    )
}

/// The last window ends inside the padded input.
pub proof fn lemma_window_reach(padded: int, kernel: int, stride: int)
    requires
        0 < stride,
        kernel <= padded,
    ensures
        0 <= (padded - kernel) / stride * stride,
        (padded - kernel) / stride * stride + kernel <= padded,
{
    lemma_encode(padded - kernel, stride);
    lemma_scale(0, (padded - kernel) / stride, stride);
}

/// The element count of a four-dimensional shape.
pub proof fn lemma_product4(a: usize, b: usize, c: usize, d: usize)
    ensures
        product(seq![a, b, c, d]) == a * b * (c * d),
        counts(seq![a, b, c, d]) ==> a * b <= usize::MAX,
        counts(seq![a, b, c, d]) ==> a * b * (c * d) <= usize::MAX,
{
    let shape = seq![a, b, c, d];
    let three = shape.drop_last();
    let two = three.drop_last();
    let one = two.drop_last();
    assert(one.drop_last() =~= Seq::<usize>::empty());
    assert(product(one.drop_last()) == 1);
    assert(1 * a == a) by (nonlinear_arith);
    assert(product(one) == a);
    assert(product(two) == a * b);
    assert(product(three) == a * b * c);
    assert(product(shape) == a * b * c * d);
    assert(a * b * c * d == a * b * (c * d)) by (nonlinear_arith);
    assert(shape.take(2) =~= two);
    assert(shape.take(4) =~= shape);
}

/// The factor pairs of an output cell of a convolution.
pub open spec fn conv_terms<T>(
    zero: T,
    options: ConvOptions,
    shape: ConvShape,
    input: Seq<T>,
    weight: Seq<T>,
    batch: int,
    channel: int,
    cell: int,
) -> Seq<(T, T)> {
    let window = shape.window(options);
    let y: int = cell / shape.output_width as int;
    let x: int = cell % shape.output_width as int;
    if gathers(options, shape) {
        Seq::new(
            window.size() as nat,
            |k: int|
                (
                    weight[if options.packed_pointwise {
                        packed_position(
                            shape.output_channels as int,
                            window.size(),
                            12,
                            channel,
                            k,
                        )
                    } else {
                        cell_at(0, window.size(), channel, k)
                    }],
                    window.cell(
                        zero,
                        input,
                        batch * (shape.input_channels * shape.plane()),
                        y,
                        x,
                        k,
                    ),
                ),
        )
    } else {
        let group: int = channel / (shape.output_channels / options.groups) as int;
        window.all_terms(
            input,
            (batch * shape.input_channels + group * shape.channels_per_group) * shape.plane(),
            weight,
            channel * window.size(),
            1,
            y,
            x,
        )
    }
}

/// One output cell is what the convolution asks for.
pub open spec fn conv_cell<T, M: Fn(T, T, T) -> T, A: Fn(T) -> T>(
    arithmetic: &Arithmetic<T, M>,
    activation: Option<&A>,
    bias: Option<&[T]>,
    options: ConvOptions,
    shape: ConvShape,
    input: Seq<T>,
    weight: Seq<T>,
    batch: int,
    channel: int,
    cell: int,
    value: T,
) -> bool {
    fused(
        arithmetic.mul_add,
        activation,
        bias_at(arithmetic.zero, bias, channel),
        conv_terms(arithmetic.zero, options, shape, input, weight, batch, channel, cell),
        value,
    )
}

/// All output cells of the planes below `planes` are what the convolution asks
/// for. Planes run over the output channels first, then over the batch.
pub open spec fn conv_planes<T, M: Fn(T, T, T) -> T, A: Fn(T) -> T>(
    arithmetic: &Arithmetic<T, M>,
    activation: Option<&A>,
    bias: Option<&[T]>,
    options: ConvOptions,
    shape: ConvShape,
    input: Seq<T>,
    weight: Seq<T>,
    planes: int,
    output: Seq<T>,
) -> bool {
    forall|plane: int, cell: int|
        0 <= plane < planes && 0 <= cell < shape.area() ==> conv_cell(
            arithmetic,
            activation,
            bias,
            options,
            shape,
            input,
            weight,
            plane / shape.output_channels as int,
            plane % shape.output_channels as int,
            cell,
            #[trigger] output[cell_at(0, shape.area(), plane, cell)],
        )
}

/// The operands of a convolution belong together.
pub open spec fn conv_valid<T>(
    options: ConvOptions,
    shape: ConvShape,
    output_len: int,
    input_len: int,
    weight_len: int,
    bias: Option<&[T]>,
) -> bool {
    let window = shape.window(options);
    &&& window.reaches(shape.output_height as int, shape.output_width as int)
    &&& 0 < shape.output_height && 0 < shape.output_width
    &&& 0 < shape.kernel_height && 0 < shape.kernel_width
    &&& 0 < options.groups
    &&& shape.input_channels == shape.channels_per_group * options.groups
    &&& shape.output_channels % options.groups == 0
    &&& output_len == shape.batch * shape.output_channels * shape.area()
    &&& input_len == shape.batch * shape.input_channels * shape.plane()
    &&& weight_len == shape.output_channels * window.size()
    &&& bias_has_len(bias, shape.output_channels as int)
    &&& is_pointwise(options, shape) ==> shape.output_height == shape.input_height
        && shape.output_width == shape.input_width
}

/// Convolves each output plane where it stands.
fn conv_direct<T: Copy, M: Fn(T, T, T) -> T, A: Fn(T) -> T>(
    arithmetic: &Arithmetic<T, M>,
    output: &mut [T],
    input: &[T],
    weight: &[T],
    bias: Option<&[T]>,
    options: &ConvOptions,
    shape: &ConvShape,
    activation: Option<&A>,
)
    requires
        arithmetic.valid(),
        activation_valid(activation),
        shape.batch > 0 && shape.output_channels > 0,
        gathers(*options, *shape) ==> shape.input_channels == 0,
        conv_valid(
            *options,
            *shape,
            old(output)@.len() as int,
            input@.len() as int,
            weight@.len() as int,
            bias,
        ),
    ensures
        final(output)@.len() == old(output)@.len(),
        conv_planes(
            arithmetic,
            activation,
            bias,
            *options,
            *shape,
            input@,
            weight@,
            shape.batch * shape.output_channels,
            final(output)@,
        ),
{
    let window: Window = Window {
        channels: shape.channels_per_group,
        input_height: shape.input_height,
        input_width: shape.input_width,
        kernel_height: shape.kernel_height,
        kernel_width: shape.kernel_width,
        stride_y: options.strides[0],
        stride_x: options.strides[1],
        pad_y: options.pads[0],
        pad_x: options.pads[1],
    };
    let output_len: usize = output.len();
    let input_len: usize = input.len();
    let weight_len: usize = weight.len();
    let ghost size = window.size();
    let ghost area = shape.area();
    let ghost in_plane = shape.plane();
    let ghost oc = shape.output_channels as int;
    let ghost planes = shape.batch * shape.output_channels;
    proof {
        assert(0 < area) by (nonlinear_arith)
            requires
                area == shape.output_height * shape.output_width,
                0 < shape.output_height,
                0 < shape.output_width,
        ;
        lemma_scale(1, shape.batch as int, oc);
        lemma_scale(1, planes, area);
        assert(planes * area == area * planes) by (nonlinear_arith);
        lemma_scale(1, area, planes);
        lemma_scale(1, oc, size);
        lemma_encode(oc, options.groups as int);
        lemma_scale(0, shape.input_height as int, shape.input_width as int);
        assert(0 <= size) by {
            lemma_scale(0, shape.channels_per_group as int, shape.kernel_height as int);
            lemma_scale(
                0,
                shape.channels_per_group * shape.kernel_height,
                shape.kernel_width as int,
            );
        }
    }
    let plane_count: usize = shape.batch * shape.output_channels;
    let channels_per_output_group: usize = shape.output_channels / options.groups;
    proof {
        if channels_per_output_group == 0 {
            assert(0 * options.groups == 0) by (nonlinear_arith);
        }
    }
    let patch: usize = weight_len / shape.output_channels;
    proof {
        lemma_decode(size, 0, oc);
        assert(size * oc == oc * size) by (nonlinear_arith);
    }
    let output_plane: usize = shape.output_height * shape.output_width;
    for plane in 0..plane_count
        invariant
            arithmetic.valid(),
            activation_valid(activation),
            shape.batch > 0 && shape.output_channels > 0,
            gathers(*options, *shape) ==> shape.input_channels == 0,
            conv_valid(
                *options,
                *shape,
                output@.len() as int,
                input@.len() as int,
                weight@.len() as int,
                bias,
            ),
            window == shape.window(*options),
            output_len == output@.len(),
            input_len == input@.len(),
            weight_len == weight@.len(),
            size == window.size(),
            0 <= size <= weight_len,
            area == shape.area(),
            0 < area,
            in_plane == shape.plane(),
            0 <= in_plane,
            oc == shape.output_channels,
            planes == shape.batch * shape.output_channels,
            plane_count == planes,
            channels_per_output_group == oc / options.groups as int,
            channels_per_output_group > 0,
            oc == channels_per_output_group * options.groups,
            patch == size,
            output_plane == area,
            conv_planes(
                arithmetic,
                activation,
                bias,
                *options,
                *shape,
                input@,
                weight@,
                plane as int,
                output@,
            ),
    {
        let batch: usize = plane / shape.output_channels;
        let channel: usize = plane % shape.output_channels;
        let group: usize = channel / channels_per_output_group;
        let ghost cpg = shape.channels_per_group as int;
        let ghost ic = shape.input_channels as int;
        proof {
            lemma_encode(plane as int, oc);
            if batch >= shape.batch {
                lemma_scale(shape.batch as int, batch as int, oc);
            }
            lemma_encode(channel as int, channels_per_output_group as int);
            if group >= options.groups {
                lemma_scale(options.groups as int, group as int, channels_per_output_group as int);
                assert(options.groups * channels_per_output_group == channels_per_output_group
                    * options.groups) by (nonlinear_arith);
            }
            lemma_row_bound(plane as int, planes, 0, area);
            lemma_scale(channel + 1, oc, size);
            lemma_scale(0, channel as int, size);
            assert((channel + 1) * size == channel * size + size) by (nonlinear_arith);
            // The channels of the group lie inside the batch's input.
            lemma_scale(group + 1, options.groups as int, cpg);
            assert((group + 1) * cpg == group * cpg + cpg) by (nonlinear_arith);
            assert(options.groups * cpg == cpg * options.groups) by (nonlinear_arith);
            lemma_scale(0, group as int, cpg);
            lemma_scale(batch + 1, shape.batch as int, ic);
            lemma_scale(0, batch as int, ic);
            assert((batch + 1) * ic == batch * ic + ic) by (nonlinear_arith);
            lemma_scale(batch * ic + group * cpg + cpg, shape.batch * ic, in_plane);
            lemma_scale(0, batch * ic + group * cpg, in_plane);
            assert((batch * ic + group * cpg + cpg) * in_plane == (batch * ic + group * cpg)
                * in_plane + cpg * in_plane) by (nonlinear_arith);
            lemma_scale(0, cpg, in_plane);
            if ic == 0 {
                assert(cpg == 0) by (nonlinear_arith)
                    requires
                        cpg * options.groups == 0,
                        0 < options.groups,
                        0 <= cpg,
                ;
                assert(batch * ic + group * cpg == 0) by (nonlinear_arith)
                    requires
                        ic == 0,
                        cpg == 0,
                ;
                assert(0 * in_plane == 0) by (nonlinear_arith);
            } else {
                assert(0 < ic);
                lemma_scale(1, ic, shape.batch as int);
                assert(ic * shape.batch == shape.batch * ic) by (nonlinear_arith);
                lemma_scale(1, shape.batch * ic, in_plane);
            }
        }
        let input_base: usize = if shape.input_channels == 0 {
            0
        } else {
            let in_plane_len: usize = shape.input_height * shape.input_width;
            if in_plane_len == 0 {
                proof {
                    assert((batch * ic + group * cpg) * 0 == 0) by (nonlinear_arith);
                }
                0
            } else {
                proof {
                    lemma_scale(1, in_plane, batch * ic + group * cpg);
                    assert(in_plane * (batch * ic + group * cpg) == (batch * ic + group * cpg)
                        * in_plane) by (nonlinear_arith);
                }
                (batch * shape.input_channels + group * shape.channels_per_group) * in_plane_len
            }
        };
        assert(input_base == (batch * ic + group * cpg) * in_plane);
        let start: T = match bias {
            Some(values) => values[channel],
            None => arithmetic.zero,
        };
        let ghost before = output@;
        convolve_rows(
            arithmetic,
            output,
            plane * output_plane,
            input,
            input_base,
            weight,
            channel * patch,
            1,
            &window,
            start,
            0,
            shape.output_height,
            shape.output_width,
            activation,
        );
        proof {
            assert forall|p: int, cell: int| 0 <= p < plane + 1 && 0 <= cell < area implies conv_cell(
                arithmetic,
                activation,
                bias,
                *options,
                *shape,
                input@,
                weight@,
                p / oc,
                p % oc,
                cell,
                #[trigger] output@[cell_at(0, area, p, cell)],
            ) by {
                let position = cell_at(0, area, p, cell);
                lemma_row_bound(p, planes, cell, area);
                if p < plane {
                    lemma_row_bound(p, plane as int, cell, area);
                    assert(output@[position] == before[position]);
                } else {
                    let w = shape.output_width as int;
                    lemma_encode(cell, w);
                    let y = cell / w;
                    let x = cell % w;
                    if y >= shape.output_height {
                        lemma_scale(shape.output_height as int, y, w);
                    }
                    assert(cell_at(plane * area, w, y, x) == position);
                    let terms = conv_terms(
                        arithmetic.zero,
                        *options,
                        *shape,
                        input@,
                        weight@,
                        batch as int,
                        channel as int,
                        cell,
                    );
                    if gathers(*options, *shape) {
                        assert(size == 0) by {
                            assert(0 * shape.kernel_height == 0) by (nonlinear_arith);
                            assert(0 * shape.kernel_width == 0) by (nonlinear_arith);
                        }
                        assert(terms =~= window.all_terms(
                            input@,
                            input_base as int,
                            weight@,
                            channel * size,
                            1,
                            y,
                            x,
                        ));
                    }
                }
            }
        }
    }
}

/// Multiplies the weight with the gathered cells of each batch entry.
fn conv_gathered<T: Copy, M: Fn(T, T, T) -> T, A: Fn(T) -> T>(
    arithmetic: &Arithmetic<T, M>,
    output: &mut [T],
    input: &[T],
    weight: &[T],
    bias: Option<&[T]>,
    options: &ConvOptions,
    shape: &ConvShape,
    pointwise: bool,
    activation: Option<&A>,
)
    requires
        arithmetic.valid(),
        activation_valid(activation),
        shape.batch > 0 && shape.output_channels > 0 && shape.input_channels > 0,
        gathers(*options, *shape),
        pointwise == is_pointwise(*options, *shape),
        shape.window(*options).size() * shape.area() <= usize::MAX,
        conv_valid(
            *options,
            *shape,
            old(output)@.len() as int,
            input@.len() as int,
            weight@.len() as int,
            bias,
        ),
    ensures
        final(output)@.len() == old(output)@.len(),
        conv_planes(
            arithmetic,
            activation,
            bias,
            *options,
            *shape,
            input@,
            weight@,
            shape.batch * shape.output_channels,
            final(output)@,
        ),
{
    let window: Window = Window {
        channels: shape.channels_per_group,
        input_height: shape.input_height,
        input_width: shape.input_width,
        kernel_height: shape.kernel_height,
        kernel_width: shape.kernel_width,
        stride_y: options.strides[0],
        stride_x: options.strides[1],
        pad_y: options.pads[0],
        pad_x: options.pads[1],
    };
    let output_len: usize = output.len();
    let input_len: usize = input.len();
    let weight_len: usize = weight.len();
    let ghost size = window.size();
    let ghost area = shape.area();
    let ghost in_plane = shape.plane();
    let ghost oc = shape.output_channels as int;
    let ghost ic = shape.input_channels as int;
    let ghost planes = shape.batch * shape.output_channels;
    proof {
        assert(0 < area) by (nonlinear_arith)
            requires
                area == shape.output_height * shape.output_width,
                0 < shape.output_height,
                0 < shape.output_width,
        ;
        lemma_scale(0, shape.input_height as int, shape.input_width as int);
        lemma_scale(1, shape.batch as int, oc);
        lemma_scale(1, planes, area);
        lemma_scale(1, oc, size);
        assert(options.groups == 1);
        assert(shape.channels_per_group * 1 == shape.channels_per_group) by (nonlinear_arith);
        assert(shape.channels_per_group == shape.input_channels);
        assert(0 < size) by (nonlinear_arith)
            requires
                size == shape.channels_per_group * shape.kernel_height * shape.kernel_width,
                0 < shape.channels_per_group,
                0 < shape.kernel_height,
                0 < shape.kernel_width,
        ;
        lemma_decode(size, 0, oc);
        assert(size * oc == oc * size) by (nonlinear_arith);
        lemma_scale(1, oc, area);
        assert(shape.batch * oc * area == shape.batch * (oc * area)) by (nonlinear_arith);
        assert(shape.batch * ic * in_plane == shape.batch * (ic * in_plane)) by (nonlinear_arith);
        lemma_scale(1, shape.batch as int, oc * area);
        lemma_scale(0, ic, in_plane);
        lemma_scale(1, shape.batch as int, ic * in_plane);
        lemma_scale(1, ic, in_plane);
    }
    let patch: usize = weight_len / shape.output_channels;
    let output_plane: usize = shape.output_height * shape.output_width;
    let input_plane: usize = shape.input_height * shape.input_width;
    let initial: Initial<'_, T> = match bias {
        Some(values) => Initial::PerRow(values, 0),
        None => Initial::Constant(arithmetic.zero),
    };
    proof {
        vstd::arithmetic::mul::lemma_mul_basics(oc);
    }
    for batch in 0..shape.batch
        invariant
            arithmetic.valid(),
            activation_valid(activation),
            shape.batch > 0 && shape.output_channels > 0 && shape.input_channels > 0,
            gathers(*options, *shape),
            pointwise == is_pointwise(*options, *shape),
            conv_valid(
                *options,
                *shape,
                output@.len() as int,
                input@.len() as int,
                weight@.len() as int,
                bias,
            ),
            window == shape.window(*options),
            window.channels == shape.input_channels,
            output_len == output@.len(),
            input_len == input@.len(),
            weight_len == weight@.len(),
            size == window.size(),
            0 < size <= weight_len,
            size * area <= usize::MAX,
            area == shape.area(),
            0 < area <= oc * area,
            in_plane == shape.plane(),
            0 <= in_plane <= ic * in_plane,
            oc == shape.output_channels,
            ic == shape.input_channels,
            planes == shape.batch * shape.output_channels,
            output_len == shape.batch * (oc * area),
            input_len == shape.batch * (ic * in_plane),
            weight_len == oc * size,
            patch == size,
            output_plane == area,
            input_plane == in_plane,
            initial == match bias {
                Some(values) => Initial::PerRow(values, 0),
                None => Initial::Constant(arithmetic.zero),
            },
            conv_planes(
                arithmetic,
                activation,
                bias,
                *options,
                *shape,
                input@,
                weight@,
                batch * oc,
                output@,
            ),
    {
        proof {
            lemma_row_bound(batch as int, shape.batch as int, 0, oc * area);
            lemma_scale(batch + 1, shape.batch as int, ic * in_plane);
            lemma_scale(0, batch as int, ic * in_plane);
            assert((batch + 1) * (ic * in_plane) == batch * (ic * in_plane) + ic * in_plane)
                by (nonlinear_arith);
            assert((oc - 1) * area + area == oc * area) by (nonlinear_arith);
            lemma_scale(1, shape.batch as int, ic * in_plane);
            lemma_scale(1, shape.batch as int, oc * area);
        }
        let output_start: usize = batch * (shape.output_channels * output_plane);
        let input_start: usize = batch * (shape.input_channels * input_plane);
        let ghost before = output@;
        let product: Product = Product {
            rows: shape.output_channels,
            inner: patch,
            columns: output_plane,
            output_start,
            output_stride: output_plane,
            right_start: if pointwise {
                input_start
            } else {
                0
            },
            right_stride: output_plane,
            packed_left: options.packed_pointwise,
            block_rows: 12,
            depth_block: patch,
        };
        let ghost right: Seq<T>;
        if pointwise {
            proof {
                assert(ic * 1 * 1 == ic) by (nonlinear_arith);
                assert((size - 1) * area + area == size * area) by (nonlinear_arith);
                right = input@;
            }
            blocked_product(arithmetic, output, weight, input, product, initial, activation);
        } else {
            let columns: Vec<T> = im2col(
                arithmetic.zero,
                input,
                input_start,
                &window,
                shape.output_height,
                shape.output_width,
            );
            proof {
                assert((size - 1) * area + area == size * area) by (nonlinear_arith);
                right = columns@;
            }
            blocked_product(
                arithmetic,
                output,
                weight,
                columns.as_slice(),
                product,
                initial,
                activation,
            );
        }
        proof {
            assert forall|k: int, cell: int| 0 <= k < size && 0 <= cell < area implies #[trigger] right[cell_at(
                product.right_start as int,
                area,
                k,
                cell,
            )] == window.cell(
                arithmetic.zero,
                input@,
                input_start as int,
                cell / shape.output_width as int,
                cell % shape.output_width as int,
                k,
            ) by {
                if pointwise {
                    lemma_pointwise_cell(
                        window,
                        arithmetic.zero,
                        input@,
                        input_start as int,
                        k,
                        cell,
                    );
                }
            }
            assert forall|p: int, cell: int|
                0 <= p < (batch + 1) * oc && 0 <= cell < area implies conv_cell(
                arithmetic,
                activation,
                bias,
                *options,
                *shape,
                input@,
                weight@,
                p / oc,
                p % oc,
                cell,
                #[trigger] output@[cell_at(0, area, p, cell)],
            ) by {
                let position = cell_at(0, area, p, cell);
                assert((batch + 1) * oc == batch * oc + oc) by (nonlinear_arith);
                assert(batch * (oc * area) == batch * oc * area) by (nonlinear_arith);
                if p < batch * oc {
                    lemma_row_bound(p, batch * oc, cell, area);
                    assert(!product.writes(position));
                    assert(output@[position] == before[position]);
                } else {
                    let row = p - batch * oc;
                    lemma_decode(batch as int, row, oc);
                    assert(p * area == batch * oc * area + row * area) by (nonlinear_arith)
                        requires
                            p == batch * oc + row,
                    ;
                    assert(product.output_at(row, cell) == position);
                    assert(fused(
                        arithmetic.mul_add,
                        activation,
                        initial.value(row, cell, before[position]),
                        product.terms(weight@, right, row, cell),
                        output@[position],
                    ));
                    let expected = conv_terms(
                        arithmetic.zero,
                        *options,
                        *shape,
                        input@,
                        weight@,
                        batch as int,
                        row,
                        cell,
                    );
                    let found = product.terms(weight@, right, row, cell);
                    assert forall|k: int| 0 <= k < size implies found[k] == expected[k] by {
                        assert(right[cell_at(product.right_start as int, area, k, cell)]
                            == window.cell(
                            arithmetic.zero,
                            input@,
                            input_start as int,
                            cell / shape.output_width as int,
                            cell % shape.output_width as int,
                            k,
                        ));
                    }
                    assert(found =~= expected);
                }
            }
        }
    }
}

/// A single-cell kernel covers the input cell at the output's place.
proof fn lemma_pointwise_cell<T>(
    window: Window,
    zero: T,
    input: Seq<T>,
    base: int,
    k: int,
    cell: int,
)
    requires
        window.kernel_height == 1 && window.kernel_width == 1,
        window.stride_y == 1 && window.stride_x == 1,
        window.pad_y == 0 && window.pad_x == 0,
        0 <= k < window.channels,
        0 <= cell < window.plane(),
    ensures
        window.cell(
            zero,
            input,
            base,
            cell / window.input_width as int,
            cell % window.input_width as int,
            k,
        ) == input[cell_at(base, window.plane(), k, cell)],
{
    let w = window.input_width as int;
    if w == 0 {
        assert(window.input_height * window.input_width == 0) by (nonlinear_arith)
            requires
                window.input_width == 0,
        ;
    }
    lemma_encode(cell, w);
    let y = cell / w;
    let x = cell % w;
    if y >= window.input_height {
        lemma_scale(window.input_height as int, y, w);
    }
    vstd::arithmetic::div_mod::lemma_div_basics(k);
    lemma_decode(k, 0, 1);
    assert(k * 1 == k) by (nonlinear_arith);
    assert(y * 1 == y) by (nonlinear_arith);
    assert(x * 1 == x) by (nonlinear_arith);
    assert(window.kernel_x_of(k) == 0);
    assert(k / 1 == k);
    assert(window.kernel_y_of(k) == 0);
    assert(window.channel_of(k) == k);
    assert(window.covers(y, x, k));
}

/// The elements of an input, where there is one.
pub open spec fn optional_bias<F>(inputs: Seq<TensorView<F>>) -> Option<nat> {
    if inputs.len() == 3 {
        Some(inputs[2].data.len())
    } else {
        None
    }
}

/// Why a convolution is refused.
pub open spec fn conv_error<F>(inputs: Seq<TensorView<F>>, options: ConvOptions) -> Option<
    TensorError,
> {
    if inputs.len() != 2 && inputs.len() != 3 {
        Some(TensorError::InputCount)
    } else if inputs[0].data is I64 || inputs[1].data is I64 || (inputs.len() == 3
        && inputs[2].data is I64) {
        Some(TensorError::ExpectedF32)
    } else {
        match conv_shape_of(inputs[0].shape, inputs[1].shape, optional_bias(inputs), options) {
            Err(error) => Some(error),
            Ok(shape) => if product(shape.output()) > 0 && gathers(options, shape) && !is_pointwise(
                options,
                shape,
            ) && shape.window(options).size() * shape.area() > usize::MAX {
                Some(TensorError::ShapeOverflow)
            } else {
                None
            },
        }
    }
}

/// `result` is the convolution of the first input with the second, from the bias
/// in the third where there is one.
pub open spec fn is_conv<F, M: Fn(F, F, F) -> F, A: Fn(F) -> F>(
    arithmetic: &Arithmetic<F, M>,
    activation: Option<&A>,
    options: ConvOptions,
    inputs: Seq<TensorView<F>>,
    result: TensorView<F>,
) -> bool {
    conv_shape_of(inputs[0].shape, inputs[1].shape, optional_bias(inputs), options) matches Ok(
        shape,
    ) && {
        &&& result.wf()
        &&& result.shape == shape.output()
        &&& result.data is F32
        &&& exists|bias: Option<&[F]>|
            (match bias {
                Some(values) => inputs.len() == 3 && inputs[2].data == DataView::F32(values@),
                None => inputs.len() == 2,
            }) && #[trigger] conv_planes(
                arithmetic,
                activation,
                bias,
                options,
                shape,
                inputs[0].data->F32_0,
                inputs[1].data->F32_0,
                shape.batch * shape.output_channels,
                result.data->F32_0,
            )
    }
}

/// Convolves the first input with the second, from the bias in the third where
/// there is one.
pub fn conv<F: Copy, M: Fn(F, F, F) -> F, A: Fn(F) -> F>(
    arithmetic: &Arithmetic<F, M>,
    inputs: &[Tensor<F>],
    options: &ConvOptions,
    activation: Option<&A>,
) -> (result: Result<Tensor<F>, TensorError>)
    requires
        arithmetic.valid(),
        activation_valid(activation),
        all_wf(inputs@),
    ensures
        match result {
            Ok(tensor) => conv_error(views(inputs@), *options) is None && is_conv(
                arithmetic,
                activation,
                *options,
                views(inputs@),
                tensor@,
            ),
            Err(error) => conv_error(views(inputs@), *options) == Some(error),
        },
{
    if inputs.len() != 2 && inputs.len() != 3 {
        return Err(TensorError::InputCount);
    }
    let ghost all = views(inputs@);
    proof {
        assert forall|i: int| 0 <= i < inputs@.len() implies #[trigger] all[i] == inputs@[i]@ by {}
        assert(inputs@[0]@.wf() && inputs@[1]@.wf());
    }
    let input: &[F] = match inputs[0].as_f32() {
        Err(error) => {
            return Err(error);
        },
        Ok(values) => values,
    };
    let weight: &[F] = match inputs[1].as_f32() {
        Err(error) => {
            return Err(error);
        },
        Ok(values) => values,
    };
    let bias: Option<&[F]> = if inputs.len() == 3 {
        match inputs[2].as_f32() {
            Err(error) => {
                return Err(error);
            },
            Ok(values) => Some(values),
        }
    } else {
        None
    };
    let bias_len: Option<usize> = match bias {
        Some(values) => Some(values.len()),
        None => None,
    };
    let shape: ConvShape = match conv_shape(
        inputs[0].shape(),
        inputs[1].shape(),
        bias_len,
        options,
    ) {
        Err(error) => {
            return Err(error);
        },
        Ok(shape) => shape,
    };
    let ghost window = shape.window(*options);
    let ghost oc = shape.output_channels as int;
    let ghost area = shape.area();
    let ghost planes = shape.batch * shape.output_channels;
    proof {
        lemma_product4(
            shape.batch,
            shape.output_channels,
            shape.output_height,
            shape.output_width,
        );
        lemma_product_bounds(shape.output());
        assert(shape.output().take(4) =~= shape.output());
        lemma_wf_count(all[0]);
        lemma_wf_count(all[1]);
        assert(all[0].shape =~= seq![
            shape.batch,
            shape.input_channels,
            shape.input_height,
            shape.input_width,
        ]);
        lemma_product4(
            shape.batch,
            shape.input_channels,
            shape.input_height,
            shape.input_width,
        );
        assert(all[1].shape =~= seq![
            shape.output_channels,
            shape.channels_per_group,
            shape.kernel_height,
            shape.kernel_width,
        ]);
        lemma_product4(
            shape.output_channels,
            shape.channels_per_group,
            shape.kernel_height,
            shape.kernel_width,
        );
        assert(oc * shape.channels_per_group * (shape.kernel_height * shape.kernel_width) == oc * (
        shape.channels_per_group * shape.kernel_height * shape.kernel_width)) by (nonlinear_arith);
        assert(0 < area) by (nonlinear_arith)
            requires
                area == shape.output_height * shape.output_width,
                0 < shape.output_height,
                0 < shape.output_width,
        ;
        lemma_scale(0, shape.batch as int, oc);
        if shape.batch == 0 || oc == 0 {
            assert(planes == 0) by (nonlinear_arith)
                requires
                    planes == shape.batch * oc,
                    shape.batch == 0 || oc == 0,
            ;
            assert(0 * area == 0) by (nonlinear_arith);
        } else {
            assert(0 < planes) by (nonlinear_arith)
                requires
                    planes == shape.batch * oc,
                    0 < shape.batch,
                    0 < oc,
            ;
            lemma_scale(1, planes, area);
            assert(0 < planes * area);
        }
    }
    let mut output_shape: Vec<usize> = Vec::with_capacity(4);
    output_shape.push(shape.batch);
    output_shape.push(shape.output_channels);
    output_shape.push(shape.output_height);
    output_shape.push(shape.output_width);
    assert(output_shape@ =~= shape.output());
    let mut output: Vec<F> = Vec::new();
    if shape.batch == 0 || shape.output_channels == 0 {
        proof {
            assert(conv_planes(
                arithmetic,
                activation,
                bias,
                *options,
                shape,
                input@,
                weight@,
                planes,
                output@,
            ));
        }
        return Ok(Tensor::new_f32(output_shape, output));
    }
    proof {
        assert(planes * area == area * planes) by (nonlinear_arith);
        lemma_scale(1, planes, area);
        lemma_scale(1, oc, window.size());
    }
    let output_plane: usize = shape.output_height * shape.output_width;
    let total: usize = shape.batch * shape.output_channels * output_plane;
    for _index in 0..total
        invariant
            output@.len() == _index,
    {
        output.push(arithmetic.zero);
    }
    let pointwise: bool = shape.kernel_height == 1 && shape.kernel_width == 1 && options.strides[0]
        == 1 && options.strides[1] == 1 && options.pads[0] == 0 && options.pads[1] == 0
        && options.pads[2] == 0 && options.pads[3] == 0 && options.groups == 1;
    let gathered: bool = pointwise || (options.groups == 1 && !(options.strides[0] == 1
        && options.strides[1] == 1));
    proof {
        if pointwise {
            vstd::arithmetic::div_mod::lemma_div_basics(shape.input_height - 1);
            vstd::arithmetic::div_mod::lemma_div_basics(shape.input_width - 1);
        }
    }
    if gathered {
        if !pointwise {
            let patch: usize = weight.len() / shape.output_channels;
            proof {
                lemma_decode(window.size(), 0, oc);
                assert(window.size() * oc == oc * window.size()) by (nonlinear_arith);
            }
            if patch.checked_mul(output_plane).is_none() {
                return Err(TensorError::ShapeOverflow);
            }
        }
        if shape.input_channels > 0 {
            proof {
                if pointwise {
                    let cpg = shape.channels_per_group as int;
                    assert(cpg * 1 == cpg) by (nonlinear_arith);
                    assert(cpg * 1 * 1 == cpg) by (nonlinear_arith);
                    assert(shape.batch * shape.input_channels * area == shape.batch * (
                    shape.input_channels * area)) by (nonlinear_arith);
                    lemma_scale(0, shape.input_channels as int, area);
                    lemma_scale(1, shape.batch as int, shape.input_channels * area);
                }
            }
            conv_gathered(
                arithmetic,
                output.as_mut_slice(),
                input,
                weight,
                bias,
                options,
                &shape,
                pointwise,
                activation,
            );
            return Ok(Tensor::new_f32(output_shape, output));
        }
    }
    conv_direct(
        arithmetic,
        output.as_mut_slice(),
        input,
        weight,
        bias,
        options,
        &shape,
        activation,
    );
    Ok(Tensor::new_f32(output_shape, output))
}

} // verus!
