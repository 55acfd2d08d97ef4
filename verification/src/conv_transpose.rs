//! Transposed convolution of tensors.
use vstd::prelude::*;
use crate::accumulate::{accumulates, lemma_accumulate_none, lemma_accumulate_step, Arithmetic};
use crate::conv::{lemma_product4, ConvOptions};
use crate::index::{lemma_decode, lemma_encode, lemma_row_bound, lemma_scale};
use crate::kernels::bias_at;
use crate::layout::{all_wf, lemma_wf_count, shape4, views};
use crate::shape::{counts, element_count, lemma_product_bounds};
use crate::tensor::{Tensor, TensorError, TensorView};

verus! {

/// The dimensions of a transposed convolution.
#[derive(Clone, Copy, Debug, PartialEq, Eq, Structural)]
pub struct TransposeShape {
    pub batch: usize,
    pub input_channels: usize,
    pub input_height: usize,
    pub input_width: usize,
    /// The output channels of one group.
    pub group_channels: usize,
    pub output_channels: usize,
    pub kernel_height: usize,
    pub kernel_width: usize,
    pub output_height: usize,
    pub output_width: usize,
}

impl TransposeShape {
    /// The shape of the output.
    pub open spec fn output(self) -> Seq<usize> {
        seq![self.batch, self.output_channels, self.output_height, self.output_width]
    }

    /// The number of cells of an input plane.
    pub open spec fn plane(self) -> int {
        self.input_height * self.input_width
    }

    /// The number of cells of an output plane.
    pub open spec fn area(self) -> int {
        self.output_height * self.output_width
    }

    /// The input channels of one group.
    pub open spec fn depth(self, options: ConvOptions) -> int {
        self.input_channels as int / options.groups as int
    }

    /// The first input channel of the group of an output channel.
    pub open spec fn first(self, options: ConvOptions, channel: int) -> int {
        channel / self.group_channels as int * self.depth(options)
    }
}

/// The size of an output dimension; `None` where there is none.
pub open spec fn transposed_size(
    input: int,
    stride: int,
    kernel: int,
    before: int,
    after: int,
) -> Option<usize> {
    let full: int = (input - 1) * stride + kernel;
    if input < 1 || full > usize::MAX || full < before + after {
        None
    } else {
        Some((full - before - after) as usize)
    }
}

fn output_size(input: usize, stride: usize, kernel: usize, before: usize, after: usize) -> (result:
    Option<usize>)
    ensures
        result == transposed_size(
            input as int,
            stride as int,
            kernel as int,
            before as int,
            after as int,
        ),
{
    if input < 1 {
        return None;
    }
    let last: usize = input - 1;
    proof {
        lemma_scale(0, last as int, stride as int);
    }
    match last.checked_mul(stride) {
        None => None,
        Some(start) => match start.checked_add(kernel) {
            None => None,
            Some(full) => match full.checked_sub(before) {
                None => None,
                Some(rest) => rest.checked_sub(after),
            },
        },
    }
}

/// The dimensions of a transposed convolution, or why it is refused. A bias is
/// only read where there is a batch.
pub open spec fn transpose_shape_of<F>(inputs: Seq<TensorView<F>>, options: ConvOptions) -> Result<
    TransposeShape,
    TensorError,
> {
    if inputs.len() != 2 && inputs.len() != 3 {
        Err(TensorError::InputCount)
    } else if inputs[0].data is I64 || inputs[1].data is I64 || (inputs.len() == 3
        && inputs[2].data is I64) {
        Err(TensorError::ExpectedF32)
    } else if inputs[0].shape.len() != 4 || inputs[1].shape.len() != 4 {
        Err(TensorError::Rank)
    } else {
        let input = inputs[0].shape;
        let weight = inputs[1].shape;
        if weight[0] != input[1] {
            Err(TensorError::Channels)
        } else if options.groups == 0 {
            Err(TensorError::Geometry)
        } else if input[1] as int % options.groups as int != 0 {
            Err(TensorError::Channels)
        } else if weight[1] * options.groups > usize::MAX {
            Err(TensorError::ShapeOverflow)
        } else {
            match (
                transposed_size(
                    input[2] as int,
                    options.strides@[0] as int,
                    weight[2] as int,
                    options.pads@[0] as int,
                    options.pads@[2] as int,
                ),
                transposed_size(
                    input[3] as int,
                    options.strides@[1] as int,
                    weight[3] as int,
                    options.pads@[1] as int,
                    options.pads@[3] as int,
                ),
            ) {
                (Some(height), Some(width)) => {
                    let channels = (weight[1] * options.groups) as usize;
                    if height == 0 || width == 0 {
                        Err(TensorError::EmptyOutput)
                    } else if !counts(seq![input[0], channels, height, width]) {
                        Err(TensorError::ShapeOverflow)
                    } else if inputs.len() == 3 && input[0] > 0 && inputs[2].data.len()
                        < channels {
                        Err(TensorError::Bias)
                    } else {
                        Ok(
                            TransposeShape {
                                batch: input[0],
                                input_channels: input[1],
                                input_height: input[2],
                                input_width: input[3],
                                group_channels: weight[1],
                                output_channels: channels,
                                kernel_height: weight[2],
                                kernel_width: weight[3],
                                output_height: height,
                                output_width: width,
                            },
                        )
                    }
                },
                _ => Err(TensorError::Geometry),
            }
        }
    }
}

/// The kernel is two by two and moves by two over an input without padding and groups.
pub open spec fn doubles(options: ConvOptions, shape: TransposeShape) -> bool {
    shape.kernel_height == 2 && shape.kernel_width == 2 && options.strides@[0] == 2
        && options.strides@[1] == 2 && options.pads@[0] == 0 && options.pads@[1] == 0
        && options.pads@[2] == 0 && options.pads@[3] == 0 && options.groups == 1
}

/// The place of a weight.
pub open spec fn weight_at(
    shape: TransposeShape,
    input_channel: int,
    group_channel: int,
    kernel_y: int,
    kernel_x: int,
) -> int {
    ((input_channel * shape.group_channels + group_channel) * shape.kernel_height + kernel_y)
        * shape.kernel_width + kernel_x
}

/// The factor pairs of the first `count` input cells of a group, channel by
/// channel and row by row: those from which the kernel reaches the output cell.
pub open spec fn transpose_terms<F>(
    options: ConvOptions,
    shape: TransposeShape,
    input: Seq<F>,
    weight: Seq<F>,
    batch: int,
    channel: int,
    y: int,
    x: int,
    count: int,
) -> Seq<(F, F)>
    decreases count,
{
    if count <= 0 {
        Seq::empty()
    } else {
        let before = transpose_terms(
            options,
            shape,
            input,
            weight,
            batch,
            channel,
            y,
            x,
            count - 1,
        );
        let width: int = shape.input_width as int;
        let position: int = count - 1;
        let row: int = position / width;
        let input_x: int = position % width;
        let input_y: int = row % shape.input_height as int;
        let input_channel: int = shape.first(options, channel) + row / shape.input_height as int;
        let kernel_y: int = y + options.pads@[0] - input_y * options.strides@[0];
        let kernel_x: int = x + options.pads@[1] - input_x * options.strides@[1];
        if 0 <= kernel_y < shape.kernel_height && 0 <= kernel_x < shape.kernel_width {
            before.push(
                (
                    input[(batch * shape.input_channels + input_channel) * shape.plane() + (input_y
                        * width + input_x)],
                    weight[weight_at(
                        shape,
                        input_channel,
                        channel % shape.group_channels as int,
                        kernel_y,
                        kernel_x,
                    )],
                ),
            )
        } else {
            before
        }
    }
}

/// The factor pairs of an output cell of the doubling convolution.
pub open spec fn doubling_terms<F>(
    shape: TransposeShape,
    input: Seq<F>,
    weight: Seq<F>,
    batch: int,
    channel: int,
    y: int,
    x: int,
) -> Seq<(F, F)> {
    Seq::new(
        shape.input_channels as nat,
        |k: int|
            (
                weight[weight_at(shape, k, channel, y % 2, x % 2)],
                input[(batch * shape.input_channels + k) * shape.plane() + (y / 2
                    * shape.input_width + x / 2)],
            ),
    )
}

/// One output cell is what the transposed convolution asks for.
pub open spec fn transpose_cell<F, M: Fn(F, F, F) -> F, G: Fn(F, F) -> F>(
    arithmetic: &Arithmetic<F, M>,
    addition: G,
    options: ConvOptions,
    shape: TransposeShape,
    input: Seq<F>,
    weight: Seq<F>,
    bias: Option<&[F]>,
    index: int,
    value: F,
) -> bool {
    let plane: int = index / shape.area();
    let cell: int = index % shape.area();
    let batch: int = plane / shape.output_channels as int;
    let channel: int = plane % shape.output_channels as int;
    let y: int = cell / shape.output_width as int;
    let x: int = cell % shape.output_width as int;
    let start = bias_at(arithmetic.zero, bias, channel);
    if doubles(options, shape) {
        exists|sum: F| #[trigger]
            accumulates(
                arithmetic.mul_add,
                arithmetic.zero,
                doubling_terms(shape, input, weight, batch, channel, y, x),
                sum,
            ) && call_ensures(addition, (sum, start), value)
    } else {
        accumulates(
            arithmetic.mul_add,
            start,
            transpose_terms(
                options,
                shape,
                input,
                weight,
                batch,
                channel,
                y,
                x,
                shape.depth(options) * shape.input_height * shape.input_width,
            ),
            value,
        )
    }
}

/// `result` is the transposed convolution of its operands.
pub open spec fn is_transposed<F, M: Fn(F, F, F) -> F, G: Fn(F, F) -> F>(
    arithmetic: &Arithmetic<F, M>,
    addition: G,
    options: ConvOptions,
    shape: TransposeShape,
    inputs: Seq<TensorView<F>>,
    result: TensorView<F>,
) -> bool {
    &&& result.wf()
    &&& result.shape == shape.output()
    &&& result.data is F32
    &&& exists|bias: Option<&[F]>|
        #![trigger bias_at(arithmetic.zero, bias, 0)]
        (match bias {
            Some(values) => inputs.len() == 3 && values@ == inputs[2].data->F32_0,
            None => inputs.len() == 2,
        }) && forall|index: int|
            0 <= index < result.data.len() ==> transpose_cell(
                arithmetic,
                addition,
                options,
                shape,
                inputs[0].data->F32_0,
                inputs[1].data->F32_0,
                bias,
                index,
                #[trigger] result.data->F32_0[index],
            )
}

/// The dimensions of a transposed convolution.
pub fn transpose_shape<F: Copy>(inputs: &[Tensor<F>], options: &ConvOptions) -> (result: Result<
    TransposeShape,
    TensorError,
>)
    requires
        all_wf(inputs@),
    ensures
        result == transpose_shape_of(views(inputs@), *options),
{
    let count: usize = inputs.len();
    if count != 2 && count != 3 {
        return Err(TensorError::InputCount);
    }
    assert(views(inputs@)[0] == inputs@[0]@);
    assert(views(inputs@)[1] == inputs@[1]@);
    assert(inputs@[0]@.wf() && inputs@[1]@.wf());
    match inputs[0].as_f32() {
        Err(error) => {
            return Err(error);
        },
        Ok(_) => {},
    }
    match inputs[1].as_f32() {
        Err(error) => {
            return Err(error);
        },
        Ok(_) => {},
    }
    let bias_len: Option<usize> = if count == 3 {
        assert(views(inputs@)[2] == inputs@[2]@);
        assert(inputs@[2]@.wf());
        match inputs[2].as_f32() {
            Err(error) => {
                return Err(error);
            },
            Ok(values) => Some(values.len()),
        }
    } else {
        None
    };
    let input: [usize; 4] = match shape4(inputs[0].shape()) {
        Err(error) => {
            return Err(error);
        },
        Ok(sizes) => sizes,
    };
    let weight: [usize; 4] = match shape4(inputs[1].shape()) {
        Err(error) => {
            return Err(error);
        },
        Ok(sizes) => sizes,
    };
    if weight[0] != input[1] {
        return Err(TensorError::Channels);
    }
    if options.groups == 0 {
        return Err(TensorError::Geometry);
    }
    if input[1] % options.groups != 0 {
        return Err(TensorError::Channels);
    }
    let channels: usize = match weight[1].checked_mul(options.groups) {
        None => {
            return Err(TensorError::ShapeOverflow);
        },
        Some(channels) => channels,
    };
    let height: usize = match output_size(
        input[2],
        options.strides[0],
        weight[2],
        options.pads[0],
        options.pads[2],
    ) {
        None => {
            return Err(TensorError::Geometry);
        },
        Some(size) => size,
    };
    let width: usize = match output_size(
        input[3],
        options.strides[1],
        weight[3],
        options.pads[1],
        options.pads[3],
    ) {
        None => {
            return Err(TensorError::Geometry);
        },
        Some(size) => size,
    };
    if height == 0 || width == 0 {
        return Err(TensorError::EmptyOutput);
    }
    let dims: [usize; 4] = [input[0], channels, height, width];
    assert(dims@ =~= seq![input@[0], channels, height, width]);
    if element_count(vstd::array::array_as_slice(&dims)).is_none() {
        return Err(TensorError::ShapeOverflow);
    }
    if let Some(len) = bias_len {
        if input[0] > 0 && len < channels {
            return Err(TensorError::Bias);
        }
    }
    Ok(
        TransposeShape {
            batch: input[0],
            input_channels: input[1],
            input_height: input[2],
            input_width: input[3],
            group_channels: weight[1],
            output_channels: channels,
            kernel_height: weight[2],
            kernel_width: weight[3],
            output_height: height,
            output_width: width,
        },
    )
}

/// The operands of a transposed convolution have the lengths of its shape.
pub open spec fn operands_fit<F>(
    options: ConvOptions,
    shape: TransposeShape,
    input: Seq<F>,
    weight: Seq<F>,
    bias: Option<&[F]>,
) -> bool {
    &&& options.groups > 0
    &&& shape.input_channels as int % options.groups as int == 0
    &&& shape.output_channels == shape.group_channels * options.groups
    &&& input.len() == shape.batch * shape.input_channels * shape.plane()
    &&& weight.len() == shape.input_channels * shape.group_channels * (shape.kernel_height
        * shape.kernel_width)
    &&& input.len() <= usize::MAX
    &&& weight.len() <= usize::MAX
    &&& shape.output_height > 0
    &&& shape.output_width > 0
    &&& shape.output_height + options.pads@[0] <= usize::MAX
    &&& shape.output_width + options.pads@[1] <= usize::MAX
    &&& shape.batch * shape.output_channels * shape.area() <= usize::MAX
    &&& bias matches Some(values) ==> shape.batch == 0 || shape.output_channels <= values@.len()
}

/// An input cell lies within the input.
proof fn lemma_input_place(shape: TransposeShape, batch: int, channel: int, y: int, x: int)
    requires
        0 <= batch < shape.batch,
        0 <= channel < shape.input_channels,
        0 <= y < shape.input_height,
        0 <= x < shape.input_width,
    ensures
        0 <= batch * shape.input_channels,
        0 <= y * shape.input_width,
        0 <= (batch * shape.input_channels + channel) * shape.plane(),
        (batch * shape.input_channels + channel) * shape.plane() + (y * shape.input_width + x)
            < shape.batch * shape.input_channels * shape.plane(),
        y * shape.input_width + x < shape.plane(),
        batch * shape.input_channels + channel < shape.batch * shape.input_channels,
{
    lemma_row_bound(y, shape.input_height as int, x, shape.input_width as int);
    lemma_row_bound(batch, shape.batch as int, channel, shape.input_channels as int);
    lemma_row_bound(
        batch * shape.input_channels + channel,
        shape.batch * shape.input_channels,
        y * shape.input_width + x,
        shape.plane(),
    );
    lemma_scale(0, batch, shape.input_channels as int);
    lemma_scale(0, y, shape.input_width as int);
    lemma_scale(0, batch * shape.input_channels + channel, shape.plane());
}

/// A weight lies within the weights.
proof fn lemma_weight_place(
    shape: TransposeShape,
    input_channel: int,
    group_channel: int,
    kernel_y: int,
    kernel_x: int,
)
    requires
        0 <= input_channel < shape.input_channels,
        0 <= group_channel < shape.group_channels,
        0 <= kernel_y < shape.kernel_height,
        0 <= kernel_x < shape.kernel_width,
    ensures
        ({
            let pair = input_channel * shape.group_channels + group_channel;
            let row = pair * shape.kernel_height + kernel_y;
            &&& 0 <= input_channel * shape.group_channels
            &&& 0 <= pair * shape.kernel_height
            &&& 0 <= row * shape.kernel_width
            &&& pair < shape.input_channels * shape.group_channels
            &&& row <= row * shape.kernel_width + kernel_x
            &&& pair <= row
            &&& row * shape.kernel_width <= weight_at(
                shape,
                input_channel,
                group_channel,
                kernel_y,
                kernel_x,
            )
            &&& weight_at(shape, input_channel, group_channel, kernel_y, kernel_x)
                < shape.input_channels * shape.group_channels * (shape.kernel_height
                * shape.kernel_width)
        }),
{
    let pair = input_channel * shape.group_channels + group_channel;
    let pairs = shape.input_channels * shape.group_channels;
    let row = pair * shape.kernel_height + kernel_y;
    lemma_row_bound(
        input_channel,
        shape.input_channels as int,
        group_channel,
        shape.group_channels as int,
    );
    lemma_row_bound(pair, pairs, kernel_y, shape.kernel_height as int);
    lemma_row_bound(row, pairs * shape.kernel_height, kernel_x, shape.kernel_width as int);
    lemma_scale(0, input_channel, shape.group_channels as int);
    lemma_scale(0, pair, shape.kernel_height as int);
    lemma_scale(0, row, shape.kernel_width as int);
    assert(pairs * shape.kernel_height * shape.kernel_width == pairs * (shape.kernel_height
        * shape.kernel_width)) by (nonlinear_arith);
    assert(row <= row * shape.kernel_width) by (nonlinear_arith)
        requires
            row >= 0,
            shape.kernel_width >= 1,
    ;
    assert(pair <= pair * shape.kernel_height) by (nonlinear_arith)
        requires
            pair >= 0,
            shape.kernel_height >= 1,
    ;
}

/// A row from which the kernel does not reach the output cell adds no pairs.
proof fn lemma_skipped_row<F>(
    options: ConvOptions,
    shape: TransposeShape,
    input: Seq<F>,
    weight: Seq<F>,
    batch: int,
    channel: int,
    y: int,
    x: int,
    row: int,
    columns: int,
)
    requires
        0 <= row,
        0 <= columns <= shape.input_width,
        shape.input_height > 0,
        ({
            let kernel_y = y + options.pads@[0] - row % (shape.input_height as int)
                * options.strides@[0];
            !(0 <= kernel_y < shape.kernel_height)
        }),
    ensures
        transpose_terms(
            options,
            shape,
            input,
            weight,
            batch,
            channel,
            y,
            x,
            row * shape.input_width + columns,
        ) == transpose_terms(
            options,
            shape,
            input,
            weight,
            batch,
            channel,
            y,
            x,
            row * shape.input_width,
        ),
    decreases columns,
{
    if columns > 0 {
        lemma_skipped_row(
            options,
            shape,
            input,
            weight,
            batch,
            channel,
            y,
            x,
            row,
            columns - 1,
        );
        lemma_decode(row, columns - 1, shape.input_width as int);
        lemma_scale(0, row, shape.input_width as int);
    }
}

#[verifier::spinoff_prover]
fn transpose_sum<F: Copy, M: Fn(F, F, F) -> F>(
    arithmetic: &Arithmetic<F, M>,
    options: &ConvOptions,
    shape: &TransposeShape,
    input: &[F],
    weight: &[F],
    batch: usize,
    channel: usize,
    y: usize,
    x: usize,
    start: F,
) -> (result: F)
    requires
        arithmetic.valid(),
        operands_fit(*options, *shape, input@, weight@, None),
        batch < shape.batch,
        channel < shape.output_channels,
        y < shape.output_height,
        x < shape.output_width,
    ensures
        accumulates(
            arithmetic.mul_add,
            start,
            transpose_terms(
                *options,
                *shape,
                input@,
                weight@,
                batch as int,
                channel as int,
                y as int,
                x as int,
                shape.depth(*options) * shape.input_height * shape.input_width,
            ),
            result,
        ),
{
    let input_len: usize = input.len();
    let weight_len: usize = weight.len();
    if shape.group_channels == 0 {
        assert(shape.output_channels == 0) by (nonlinear_arith)
            requires
                shape.output_channels == shape.group_channels * options.groups,
                shape.group_channels == 0,
        ;
    }
    let depth: usize = shape.input_channels / options.groups;
    let group: usize = channel / shape.group_channels;
    let group_channel: usize = channel % shape.group_channels;
    proof {
        lemma_encode(channel as int, shape.group_channels as int);
        lemma_encode(shape.input_channels as int, options.groups as int);
        assert(group < options.groups) by (nonlinear_arith)
            requires
                channel < shape.group_channels * options.groups,
                channel == group * shape.group_channels + group_channel,
                group_channel >= 0,
                shape.group_channels > 0,
        ;
        assert(group * depth + depth <= shape.input_channels) by (nonlinear_arith)
            requires
                group + 1 <= options.groups,
                shape.input_channels == depth * options.groups,
                depth >= 0,
        ;
        lemma_scale(0, group as int, depth as int);
        vstd::arithmetic::mul::lemma_mul_basics(shape.input_height as int);
        vstd::arithmetic::mul::lemma_mul_basics(shape.input_width as int);
        lemma_accumulate_none(arithmetic.mul_add, start, Seq::<(F, F)>::empty());
    }
    let first: usize = group * depth;
    let padded_y: usize = y + options.pads[0];
    let padded_x: usize = x + options.pads[1];
    let mut sum: F = start;
    for offset in 0..depth
        invariant
            arithmetic.valid(),
            operands_fit(*options, *shape, input@, weight@, None),
            input_len == input@.len(),
            weight_len == weight@.len(),
            batch < shape.batch,
            shape.group_channels > 0,
            group_channel == channel as int % shape.group_channels as int,
            first == shape.first(*options, channel as int),
            first + depth <= shape.input_channels,
            padded_y == y + options.pads@[0],
            padded_x == x + options.pads@[1],
            accumulates(
                arithmetic.mul_add,
                start,
                transpose_terms(
                    *options,
                    *shape,
                    input@,
                    weight@,
                    batch as int,
                    channel as int,
                    y as int,
                    x as int,
                    offset * shape.input_height * shape.input_width,
                ),
                sum,
            ),
    {
        for input_y in 0..shape.input_height
            invariant
                arithmetic.valid(),
                operands_fit(*options, *shape, input@, weight@, None),
                input_len == input@.len(),
                weight_len == weight@.len(),
                batch < shape.batch,
                offset < depth,
                shape.group_channels > 0,
                group_channel == channel as int % shape.group_channels as int,
                first == shape.first(*options, channel as int),
                first + depth <= shape.input_channels,
                padded_y == y + options.pads@[0],
                padded_x == x + options.pads@[1],
                accumulates(
                    arithmetic.mul_add,
                    start,
                    transpose_terms(
                        *options,
                        *shape,
                        input@,
                        weight@,
                        batch as int,
                        channel as int,
                        y as int,
                        x as int,
                        (offset * shape.input_height + input_y) * shape.input_width,
                    ),
                    sum,
                ),
        {
            let ghost row: int = offset * shape.input_height + input_y;
            let input_channel: usize = first + offset;
            proof {
                lemma_decode(offset as int, input_y as int, shape.input_height as int);
                lemma_scale(0, offset as int, shape.input_height as int);
                let limit: int = usize::MAX as int;
                assert(input_y * options.strides@[0] <= limit * limit) by (nonlinear_arith)
                    requires
                        0 <= input_y <= limit,
                        0 <= options.strides@[0] <= limit,
                ;
                assert(limit * limit <= 0xffff_ffff_ffff_ffff * 0xffff_ffff_ffff_ffff)
                    by (nonlinear_arith)
                    requires
                        0 <= limit <= 0xffff_ffff_ffff_ffff,
                ;
                assert((row + 1) * shape.input_width == row * shape.input_width
                    + shape.input_width) by (nonlinear_arith);
                assert(row + 1 == offset * shape.input_height + (input_y + 1));
            }
            let reach_y: u128 = input_y as u128 * options.strides[0] as u128;
            if reach_y <= padded_y as u128 && padded_y as u128 - reach_y
                < shape.kernel_height as u128 {
                let kernel_y: usize = (padded_y as u128 - reach_y) as usize;
                assert(kernel_y == y + options.pads@[0] - input_y * options.strides@[0]);
                for input_x in 0..shape.input_width
                    invariant
                        arithmetic.valid(),
                        operands_fit(*options, *shape, input@, weight@, None),
                        input_len == input@.len(),
                        weight_len == weight@.len(),
                        batch < shape.batch,
                        offset < depth,
                        input_y < shape.input_height,
                        row == offset * shape.input_height + input_y,
                        row >= 0,
                        row / shape.input_height as int == offset,
                        row % shape.input_height as int == input_y,
                        input_channel == first + offset,
                        input_channel < shape.input_channels,
                        kernel_y == y + options.pads@[0] - input_y * options.strides@[0],
                        kernel_y < shape.kernel_height,
                        shape.group_channels > 0,
                        group_channel == channel as int % shape.group_channels as int,
                        first == shape.first(*options, channel as int),
                        padded_x == x + options.pads@[1],
                        accumulates(
                            arithmetic.mul_add,
                            start,
                            transpose_terms(
                                *options,
                                *shape,
                                input@,
                                weight@,
                                batch as int,
                                channel as int,
                                y as int,
                                x as int,
                                row * shape.input_width + input_x,
                            ),
                            sum,
                        ),
                {
                    let ghost before = transpose_terms(
                        *options,
                        *shape,
                        input@,
                        weight@,
                        batch as int,
                        channel as int,
                        y as int,
                        x as int,
                        row * shape.input_width + input_x,
                    );
                    proof {
                        lemma_decode(row, input_x as int, shape.input_width as int);
                        lemma_scale(0, row, shape.input_width as int);
                        let limit: int = usize::MAX as int;
                        assert(input_x * options.strides@[1] <= limit * limit)
                            by (nonlinear_arith)
                            requires
                                0 <= input_x <= limit,
                                0 <= options.strides@[1] <= limit,
                        ;
                        assert(limit * limit <= 0xffff_ffff_ffff_ffff * 0xffff_ffff_ffff_ffff)
                            by (nonlinear_arith)
                            requires
                                0 <= limit <= 0xffff_ffff_ffff_ffff,
                        ;
                    }
                    let reach_x: u128 = input_x as u128 * options.strides[1] as u128;
                    if reach_x <= padded_x as u128 && padded_x as u128 - reach_x
                        < shape.kernel_width as u128 {
                        let kernel_x: usize = (padded_x as u128 - reach_x) as usize;
                        proof {
                            assert(kernel_x == x + options.pads@[1] - input_x
                                * options.strides@[1]);
                            lemma_input_place(
                                *shape,
                                batch as int,
                                input_channel as int,
                                input_y as int,
                                input_x as int,
                            );
                            lemma_weight_place(
                                *shape,
                                input_channel as int,
                                group_channel as int,
                                kernel_y as int,
                                kernel_x as int,
                            );
                            lemma_plane_bound(
                                *shape,
                                batch as int,
                                input_channel as int,
                                input_len as int,
                            );
                        }
                        let plane: usize = shape.input_height * shape.input_width;
                        let left: F = input[(batch * shape.input_channels + input_channel) * plane
                            + (input_y * shape.input_width + input_x)];
                        let right: F = weight[((input_channel * shape.group_channels
                            + group_channel) * shape.kernel_height + kernel_y)
                            * shape.kernel_width + kernel_x];
                        let next: F = (arithmetic.mul_add)(left, right, sum);
                        proof {
                            lemma_accumulate_step(
                                arithmetic.mul_add,
                                start,
                                before,
                                sum,
                                (left, right),
                                next,
                            );
                        }
                        sum = next;
                    }
                }
            } else {
                proof {
                    lemma_skipped_row(
                        *options,
                        *shape,
                        input@,
                        weight@,
                        batch as int,
                        channel as int,
                        y as int,
                        x as int,
                        row,
                        shape.input_width as int,
                    );
                }
            }
        }
        assert((offset + 1) * shape.input_height == offset * shape.input_height
            + shape.input_height) by (nonlinear_arith);
    }
    assert(depth == shape.depth(*options));
    sum
}

/// The sizes on the way to the place of an input cell can be counted.
proof fn lemma_plane_bound(shape: TransposeShape, batch: int, channel: int, total: int)
    requires
        0 <= batch < shape.batch,
        0 <= channel < shape.input_channels,
        shape.input_height > 0,
        shape.input_width > 0,
        total == shape.batch * shape.input_channels * shape.plane(),
    ensures
        shape.plane() <= total,
        shape.batch * shape.input_channels <= total,
{
    assert(shape.plane() >= 1) by (nonlinear_arith)
        requires
            shape.plane() == shape.input_height * shape.input_width,
            shape.input_height > 0,
            shape.input_width > 0,
    ;
    assert(shape.batch * shape.input_channels >= 1) by (nonlinear_arith)
        requires
            shape.batch >= 1,
            shape.input_channels >= 1,
    ;
    let planes: int = shape.batch * shape.input_channels;
    let plane: int = shape.plane();
    assert(plane <= planes * plane && planes <= planes * plane) by (nonlinear_arith)
        requires
            planes >= 1,
            plane >= 1,
    ;
}

#[verifier::spinoff_prover]
fn doubling_sum<F: Copy, M: Fn(F, F, F) -> F>(
    arithmetic: &Arithmetic<F, M>,
    options: &ConvOptions,
    shape: &TransposeShape,
    input: &[F],
    weight: &[F],
    batch: usize,
    channel: usize,
    y: usize,
    x: usize,
) -> (result: F)
    requires
        arithmetic.valid(),
        operands_fit(*options, *shape, input@, weight@, None),
        doubles(*options, *shape),
        shape.output_height == shape.input_height * 2,
        shape.output_width == shape.input_width * 2,
        batch < shape.batch,
        channel < shape.output_channels,
        y < shape.output_height,
        x < shape.output_width,
    ensures
        accumulates(
            arithmetic.mul_add,
            arithmetic.zero,
            doubling_terms(
                *shape,
                input@,
                weight@,
                batch as int,
                channel as int,
                y as int,
                x as int,
            ),
            result,
        ),
{
    let input_len: usize = input.len();
    let weight_len: usize = weight.len();
    let ghost terms = doubling_terms(
        *shape,
        input@,
        weight@,
        batch as int,
        channel as int,
        y as int,
        x as int,
    );
    let mut sum: F = arithmetic.zero;
    proof {
        assert(terms.take(0) =~= Seq::<(F, F)>::empty());
        lemma_accumulate_none(arithmetic.mul_add, arithmetic.zero, terms.take(0));
    }
    for depth in 0..shape.input_channels
        invariant
            arithmetic.valid(),
            operands_fit(*options, *shape, input@, weight@, None),
            doubles(*options, *shape),
            shape.output_height == shape.input_height * 2,
            shape.output_width == shape.input_width * 2,
            input_len == input@.len(),
            weight_len == weight@.len(),
            batch < shape.batch,
            channel < shape.output_channels,
            y < shape.output_height,
            x < shape.output_width,
            terms == doubling_terms(
                *shape,
                input@,
                weight@,
                batch as int,
                channel as int,
                y as int,
                x as int,
            ),
            accumulates(
                arithmetic.mul_add,
                arithmetic.zero,
                terms.take(depth as int),
                sum,
            ),
    {
        let input_y: usize = y / 2;
        let input_x: usize = x / 2;
        let kernel_y: usize = y % 2;
        let kernel_x: usize = x % 2;
        proof {
            assert(shape.output_channels == shape.group_channels) by (nonlinear_arith)
                requires
                    shape.output_channels == shape.group_channels * options.groups,
                    options.groups == 1,
            ;
            lemma_input_place(
                *shape,
                batch as int,
                depth as int,
                input_y as int,
                input_x as int,
            );
            lemma_weight_place(
                *shape,
                depth as int,
                channel as int,
                kernel_y as int,
                kernel_x as int,
            );
            lemma_plane_bound(*shape, batch as int, depth as int, input_len as int);
        }
        let plane: usize = shape.input_height * shape.input_width;
        let left: F = weight[((depth * shape.group_channels + channel) * shape.kernel_height
            + kernel_y) * shape.kernel_width + kernel_x];
        let right: F = input[(batch * shape.input_channels + depth) * plane + (input_y
            * shape.input_width + input_x)];
        let next: F = (arithmetic.mul_add)(left, right, sum);
        proof {
            lemma_accumulate_step(
                arithmetic.mul_add,
                arithmetic.zero,
                terms.take(depth as int),
                sum,
                (left, right),
                next,
            );
            assert(terms[depth as int] == (left, right));
            assert(terms.take(depth + 1) =~= terms.take(depth as int).push((left, right)));
        }
        sum = next;
    }
    assert(terms.take(shape.input_channels as int) =~= terms);
    sum
}

#[verifier::spinoff_prover]
fn transpose_values<F: Copy, M: Fn(F, F, F) -> F, G: Fn(F, F) -> F>(
    arithmetic: &Arithmetic<F, M>,
    addition: &G,
    options: &ConvOptions,
    shape: &TransposeShape,
    input: &[F],
    weight: &[F],
    bias: Option<&[F]>,
    total: usize,
) -> (result: Vec<F>)
    requires
        arithmetic.valid(),
        forall|a: F, b: F| #[trigger] call_requires(*addition, (a, b)),
        operands_fit(*options, *shape, input@, weight@, bias),
        doubles(*options, *shape) ==> shape.output_height == shape.input_height * 2
            && shape.output_width == shape.input_width * 2,
        total == shape.batch * shape.output_channels * shape.area(),
    ensures
        result@.len() == total,
        forall|index: int|
            0 <= index < total ==> transpose_cell(
                arithmetic,
                *addition,
                *options,
                *shape,
                input@,
                weight@,
                bias,
                index,
                #[trigger] result@[index],
            ),
{
    let mut result: Vec<F> = Vec::with_capacity(total);
    if total == 0 {
        return result;
    }
    let ghost planes: int = shape.batch * shape.output_channels;
    proof {
        assert(shape.area() >= 1) by (nonlinear_arith)
            requires
                shape.area() == shape.output_height * shape.output_width,
                shape.output_height > 0,
                shape.output_width > 0,
        ;
        let area = shape.area();
        assert(planes >= 1 && area <= total && planes <= total) by (nonlinear_arith)
            requires
                total == planes * area,
                total > 0,
                area >= 1,
        ;
        assert(shape.output_channels >= 1) by (nonlinear_arith)
            requires
                planes == shape.batch * shape.output_channels,
                planes >= 1,
        ;
    }
    let area: usize = shape.output_height * shape.output_width;
    let double: bool = shape.kernel_height == 2 && shape.kernel_width == 2 && options.strides[0]
        == 2 && options.strides[1] == 2 && options.pads[0] == 0 && options.pads[1] == 0
        && options.pads[2] == 0 && options.pads[3] == 0 && options.groups == 1;
    assert(double == doubles(*options, *shape));
    for index in 0..total
        invariant
            arithmetic.valid(),
            forall|a: F, b: F| #[trigger] call_requires(*addition, (a, b)),
            operands_fit(*options, *shape, input@, weight@, bias),
            double ==> shape.output_height == shape.input_height * 2 && shape.output_width
                == shape.input_width * 2,
            double == doubles(*options, *shape),
            planes == shape.batch * shape.output_channels,
            total == planes * area,
            area == shape.area(),
            area >= 1,
            shape.output_channels >= 1,
            result@.len() == index,
            forall|i: int|
                0 <= i < index ==> transpose_cell(
                    arithmetic,
                    *addition,
                    *options,
                    *shape,
                    input@,
                    weight@,
                    bias,
                    i,
                    #[trigger] result@[i],
                ),
    {
        let plane: usize = index / area;
        let cell: usize = index % area;
        let batch: usize = plane / shape.output_channels;
        let channel: usize = plane % shape.output_channels;
        let y: usize = cell / shape.output_width;
        let x: usize = cell % shape.output_width;
        proof {
            lemma_encode(index as int, area as int);
            lemma_encode(plane as int, shape.output_channels as int);
            lemma_encode(cell as int, shape.output_width as int);
            assert(plane < planes) by (nonlinear_arith)
                requires
                    index < planes * area,
                    index == plane * area + cell,
                    cell >= 0,
                    area >= 1,
            ;
            assert(batch < shape.batch) by (nonlinear_arith)
                requires
                    plane < shape.batch * shape.output_channels,
                    plane == batch * shape.output_channels + channel,
                    channel >= 0,
                    shape.output_channels >= 1,
            ;
            assert(y < shape.output_height) by (nonlinear_arith)
                requires
                    cell < shape.output_height * shape.output_width,
                    cell == y * shape.output_width + x,
                    x >= 0,
                    shape.output_width > 0,
            ;
        }
        let start: F = match bias {
            Some(values) => values[channel],
            None => arithmetic.zero,
        };
        let value: F = if double {
            let sum: F = doubling_sum(
                arithmetic,
                options,
                shape,
                input,
                weight,
                batch,
                channel,
                y,
                x,
            );
            addition(sum, start)
        } else {
            transpose_sum(
                arithmetic,
                options,
                shape,
                input,
                weight,
                batch,
                channel,
                y,
                x,
                start,
            )
        };
        assert(transpose_cell(
            arithmetic,
            *addition,
            *options,
            *shape,
            input@,
            weight@,
            bias,
            index as int,
            value,
        ));
        result.push(value);
    }
    result
}

/// Transposes a convolution: each input cell spreads the kernel over the output.
/// The second input holds the weights by input channel, and a third one, where
/// it is given, a bias for each output channel. `addition` adds the bias where
/// the planes are doubled.
pub fn conv_transpose<F: Copy, M: Fn(F, F, F) -> F, G: Fn(F, F) -> F>(
    arithmetic: &Arithmetic<F, M>,
    inputs: &[Tensor<F>],
    options: &ConvOptions,
    addition: &G,
) -> (result: Result<Tensor<F>, TensorError>)
    requires
        arithmetic.valid(),
        forall|a: F, b: F| #[trigger] call_requires(*addition, (a, b)),
        all_wf(inputs@),
    ensures
        match (transpose_shape_of(views(inputs@), *options), result) {
            (Err(wanted), Err(error)) => error == wanted,
            (Ok(shape), Ok(tensor)) => is_transposed(
                arithmetic,
                *addition,
                *options,
                shape,
                views(inputs@),
                tensor@,
            ),
            _ => false,
        },
{
    let shape: TransposeShape = match transpose_shape(inputs, options) {
        Err(error) => {
            return Err(error);
        },
        Ok(shape) => shape,
    };
    assert(views(inputs@)[0] == inputs@[0]@);
    assert(views(inputs@)[1] == inputs@[1]@);
    assert(inputs@[0]@.wf() && inputs@[1]@.wf());
    let input: &[F] = match inputs[0].as_f32() {
        Err(error) => {
            return Err(error);
        },
        Ok(values) => values,
    };
    let weight: &[F] = match inputs[1].as_f32() {
        Err(error) => {
            return Err(error);
        },
        Ok(values) => values,
    };
    let bias: Option<&[F]> = if inputs.len() == 3 {
        assert(views(inputs@)[2] == inputs@[2]@);
        match inputs[2].as_f32() {
            Err(error) => {
                return Err(error);
            },
            Ok(values) => Some(values),
        }
    } else {
        None
    };
    let dims: Vec<usize> = vec![
        shape.batch,
        shape.output_channels,
        shape.output_height,
        shape.output_width,
    ];
    assert(dims@ =~= shape.output());
    let total: usize = match element_count(dims.as_slice()) {
        None => {
            return Err(TensorError::ShapeOverflow);
        },
        Some(total) => total,
    };
    let input_len: usize = input.len();
    let weight_len: usize = weight.len();
    proof {
        lemma_wf_count(inputs@[0]@);
        lemma_wf_count(inputs@[1]@);
        let first = inputs@[0]@.shape;
        let second = inputs@[1]@.shape;
        assert(first =~= seq![first[0], first[1], first[2], first[3]]);
        assert(second =~= seq![second[0], second[1], second[2], second[3]]);
        lemma_product4(first[0], first[1], first[2], first[3]);
        lemma_product4(second[0], second[1], second[2], second[3]);
        lemma_product4(
            shape.batch,
            shape.output_channels,
            shape.output_height,
            shape.output_width,
        );
        lemma_product_bounds(dims@);
        assert(operands_fit(*options, shape, input@, weight@, bias));
        if doubles(*options, shape) {
            assert((shape.input_height - 1) * 2 + 2 == shape.input_height * 2);
            assert((shape.input_width - 1) * 2 + 2 == shape.input_width * 2);
        }
    }
    let values: Vec<F> = transpose_values(
        arithmetic,
        addition,
        options,
        &shape,
        input,
        weight,
        bias,
        total,
    );
    let tensor: Tensor<F> = Tensor::new_f32(dims, values);
    proof {
        assert(match bias {
            Some(values) => inputs@.len() == 3 && values@ == inputs@[2]@.data->F32_0,
            None => inputs@.len() == 2,
        });
        let chosen = bias_at(arithmetic.zero, bias, 0);
    }
    Ok(tensor)
}

} // verus!
