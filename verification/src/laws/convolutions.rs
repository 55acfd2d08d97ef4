//! What a convolution is for.
use vstd::prelude::*;
use crate::accumulate::{accumulates, activates, Arithmetic};
use crate::conv::{
    conv_cell, conv_error, conv_planes, conv_shape_of, conv_terms, gathers, is_conv,
    ConvOptions, ConvShape,
};
use crate::index::{cell_at, lemma_decode, lemma_scale};
use crate::kernels::bias_at;
use crate::tensor::TensorView;
use crate::window::Window;
use super::{folded, lemma_folded};
use super::planes::{lemma_plane_place, plane_place};

verus! {

/// The channel, the row and the column of a place of a kernel, whose cells are counted
/// by columns first, then by rows, then by channels.
pub open spec fn kernel_cell(height: int, width: int, place: int) -> (int, int, int) {
    (place / width / height, place / width % height, place % width)
}

/// Whether a place of a kernel lies over the input, for the output cell at a row and a
/// column.
pub open spec fn over_input(
    input: Seq<usize>,
    weight: Seq<usize>,
    options: ConvOptions,
    y: int,
    x: int,
    place: int,
) -> bool {
    let (_, ky, kx) = kernel_cell(weight[2] as int, weight[3] as int, place);
    &&& 0 <= y * options.strides@[0] + ky - options.pads@[0] < input[2]
    &&& 0 <= x * options.strides@[1] + kx - options.pads@[1] < input[3]
}

/// The value of the input under a place of a kernel: that of the channel of the output
/// channel's group, or zero over the padding.
pub open spec fn value_under<F>(
    zero: F,
    input: TensorView<F>,
    weight: Seq<usize>,
    options: ConvOptions,
    batch: int,
    channel: int,
    y: int,
    x: int,
    place: int,
) -> F {
    let (c, ky, kx) = kernel_cell(weight[2] as int, weight[3] as int, place);
    let group = channel / (weight[0] as int / options.groups as int);
    if over_input(input.shape, weight, options, y, x, place) {
        input.data->F32_0[plane_place(
            input.shape[1] as int,
            input.shape[2] as int,
            input.shape[3] as int,
            batch,
            group * weight[1] + c,
            y * options.strides@[0] + ky - options.pads@[0],
            x * options.strides@[1] + kx - options.pads@[1],
        )]
    } else {
        zero
    }
}

/// The covered places of a window, in their order.
proof fn lemma_covered<T>(
    window: Window,
    input: Seq<T>,
    input_base: int,
    weight: Seq<T>,
    weight_base: int,
    y: int,
    x: int,
    count: nat,
) -> (places: Seq<int>)
    ensures
        ({
            let terms = window.terms(input, input_base, weight, weight_base, 1, y, x, count);
            &&& terms.len() == places.len()
            &&& forall|i: int|
                0 <= i < places.len() ==> {
                    &&& 0 <= #[trigger] places[i] < count
                    &&& window.covers(y, x, places[i])
                    &&& terms[i] == (
                        input[input_base + window.input_at(y, x, places[i])],
                        weight[weight_base + places[i]],
                    )
                }
            &&& forall|i: int, j: int| 0 <= i < j < places.len() ==> places[i] < places[j]
            &&& forall|place: int|
                0 <= place < count && window.covers(y, x, place) ==> #[trigger] places.contains(
                    place,
                )
        }),
    decreases count,
{
    if count == 0 {
        Seq::empty()
    } else {
        let last = count - 1;
        let before = lemma_covered(
            window,
            input,
            input_base,
            weight,
            weight_base,
            y,
            x,
            last as nat,
        );
        assert(last * 1 == last);
        let places = if window.covers(y, x, last) {
            before.push(last)
        } else {
            before
        };
        assert forall|place: int|
            0 <= place < count && window.covers(y, x, place) implies #[trigger] places.contains(
            place,
        ) by {
            if place == last {
                assert(places[before.len() as int] == place);
            } else {
                assert(before.contains(place));
                let k = choose|k: int| 0 <= k < before.len() && before[k] == place;
                assert(places[k] == place);
            }
        }
        places
    }
}

/// The value under a covered place is where the window finds it.
proof fn lemma_value_under<F>(
    zero: F,
    input: TensorView<F>,
    weight: Seq<usize>,
    options: ConvOptions,
    shape: ConvShape,
    batch: int,
    channel: int,
    y: int,
    x: int,
    place: int,
)
    requires
        options.groups > 0,
        input.shape.len() == 4 && weight.len() == 4,
        shape.input_channels == input.shape[1],
        shape.input_height == input.shape[2],
        shape.input_width == input.shape[3],
        shape.output_channels == weight[0],
        shape.channels_per_group == weight[1],
        shape.kernel_height == weight[2],
        shape.kernel_width == weight[3],
        0 < weight[2] && 0 < weight[3],
        0 <= place < shape.window(options).size(),
    ensures
        ({
            let window = shape.window(options);
            let group: int = channel / (shape.output_channels / options.groups) as int;
            let base = (batch * shape.input_channels + group * shape.channels_per_group)
                * shape.plane();
            &&& window.covers(y, x, place) == over_input(input.shape, weight, options, y, x, place)
            &&& window.cell(zero, input.data->F32_0, base, y, x, place) == value_under(
                zero,
                input,
                weight,
                options,
                batch,
                channel,
                y,
                x,
                place,
            )
        }),
{
    let window = shape.window(options);
    let group: int = channel / (shape.output_channels / options.groups) as int;
    let (c, ky, kx) = kernel_cell(weight[2] as int, weight[3] as int, place);
    let m = batch * shape.input_channels + group * shape.channels_per_group;
    let h: int = shape.input_height as int;
    let w: int = shape.input_width as int;
    let row = y * options.strides@[0] + ky - options.pads@[0];
    let column = x * options.strides@[1] + kx - options.pads@[1];
    assert(m * (h * w) + (c * (h * w) + (0 + row * w + column)) == ((m + c) * h + row) * w + column)
        by (nonlinear_arith);
    assert(batch * shape.input_channels + (group * weight[1] + c) == m + c);
}

/// What a convolution is for: each cell of the result is what folding pairs into the
/// bias of its channel may give, activated. The pairs stand for places of the kernel, in
/// the order of its channels, rows and columns; every place that lies over the input is
/// among them. A pair is the weight of the output channel at the place and the value of
/// the input under it, in one order or the other.
///
/// Returned are the places, the pairs, and their sum.
pub proof fn lemma_convolved_cell<F, M: Fn(F, F, F) -> F, A: Fn(F) -> F>(
    arithmetic: &Arithmetic<F, M>,
    activation: Option<&A>,
    options: ConvOptions,
    inputs: Seq<TensorView<F>>,
    output: TensorView<F>,
    batch: int,
    channel: int,
    y: int,
    x: int,
) -> (witness: (Seq<int>, Seq<(F, F)>, F))
    requires
        !options.packed_pointwise,
        conv_error(inputs, options) is None,
        is_conv(arithmetic, activation, options, inputs, output),
        0 <= batch < output.shape[0],
        0 <= channel < output.shape[1],
        0 <= y < output.shape[2],
        0 <= x < output.shape[3],
    ensures
        ({
            let (places, pairs, sum) = witness;
            let input = inputs[0];
            let weight = inputs[1];
            let size = weight.shape[1] * weight.shape[2] * weight.shape[3];
            let value = output.data->F32_0[plane_place(
                output.shape[1] as int,
                output.shape[2] as int,
                output.shape[3] as int,
                batch,
                channel,
                y,
                x,
            )];
            &&& output.shape.len() == 4 && output.shape[0] == input.shape[0] && output.shape[1]
                == weight.shape[0]
            &&& forall|i: int| 0 <= i < places.len() ==> 0 <= #[trigger] places[i] < size
            &&& forall|i: int, j: int| 0 <= i < j < places.len() ==> places[i] < places[j]
            &&& forall|place: int|
                0 <= place < size && over_input(input.shape, weight.shape, options, y, x, place)
                    ==> #[trigger] places.contains(place)
            &&& pairs.len() == places.len()
            &&& forall|i: int|
                0 <= i < places.len() ==> {
                    let factor = weight.data->F32_0[channel * size + #[trigger] places[i]];
                    let under = value_under(
                        arithmetic.zero,
                        input,
                        weight.shape,
                        options,
                        batch,
                        channel,
                        y,
                        x,
                        places[i],
                    );
                    pairs[i] == (factor, under) || pairs[i] == (under, factor)
                }
            &&& folded(
                arithmetic.mul_add,
                if inputs.len() == 3 {
                    inputs[2].data->F32_0[channel]
                } else {
                    arithmetic.zero
                },
                pairs,
                sum,
            )
            &&& match activation {
                Some(function) => call_ensures(*function, (sum,), value),
                None => value == sum,
            }
        }),
{
    let input = inputs[0];
    let weight = inputs[1];
    let values = input.data->F32_0;
    let factors = weight.data->F32_0;
    let shape = conv_shape_of(
        input.shape,
        weight.shape,
        crate::conv::optional_bias(inputs),
        options,
    )->Ok_0;
    let window = shape.window(options);
    let size = window.size();
    let bias = choose|bias: Option<&[F]>|
        (match bias {
            Some(values) => inputs.len() == 3 && inputs[2].data == crate::tensor::DataView::F32(
                values@,
            ),
            None => inputs.len() == 2,
        }) && #[trigger] conv_planes(
            arithmetic,
            activation,
            bias,
            options,
            shape,
            values,
            factors,
            shape.batch * shape.output_channels,
            output.data->F32_0,
        );
    let channels: int = shape.output_channels as int;
    let plane = batch * channels + channel;
    let cell = y * shape.output_width + x;
    lemma_plane_place(
        shape.batch as int,
        channels,
        shape.output_height as int,
        shape.output_width as int,
        batch,
        channel,
        y,
        x,
    );
    let place = plane_place(
        channels,
        shape.output_height as int,
        shape.output_width as int,
        batch,
        channel,
        y,
        x,
    );
    let value = output.data->F32_0[place];
    assert(cell_at(0, shape.area(), plane, cell) == place);
    assert(value == output.data->F32_0[cell_at(0, shape.area(), plane, cell)]);
    let terms = conv_terms(
        arithmetic.zero,
        options,
        shape,
        values,
        factors,
        batch,
        channel,
        cell,
    );
    assert(conv_cell(
        arithmetic,
        activation,
        bias,
        options,
        shape,
        values,
        factors,
        batch,
        channel,
        cell,
        value,
    ));
    let start = bias_at(arithmetic.zero, bias, channel);
    let sum = choose|sum: F| #[trigger]
        accumulates(arithmetic.mul_add, start, terms, sum) && activates(activation, sum, value);
    lemma_folded(arithmetic.mul_add, start, terms, sum);
    let group: int = channel / (shape.output_channels / options.groups) as int;
    let base = (batch * shape.input_channels + group * shape.channels_per_group) * shape.plane();
    assert forall|p: int| 0 <= p < size implies window.covers(y, x, p) == #[trigger] over_input(
        input.shape,
        weight.shape,
        options,
        y,
        x,
        p,
    ) by {
        lemma_value_under(
            arithmetic.zero,
            input,
            weight.shape,
            options,
            shape,
            batch,
            channel,
            y,
            x,
            p,
        );
    }
    if gathers(options, shape) {
        let places = Seq::new(size as nat, |p: int| p);
        assert(channels / 1 == channels);
        assert(channel / channels == 0) by {
            lemma_decode(0, channel, channels);
        }
        assert(base == batch * (shape.input_channels * shape.plane())) by {
            assert(group == 0);
            assert(0 * shape.channels_per_group == 0);
            let area = shape.plane();
            let count: int = shape.input_channels as int;
            assert(base == (batch * count) * area);
            assert((batch * count) * area == batch * (count * area)) by (nonlinear_arith);
        }
        assert forall|p: int|
            0 <= p < size && over_input(
                input.shape,
                weight.shape,
                options,
                y,
                x,
                p,
            ) implies #[trigger] places.contains(p) by {
            assert(places[p] == p);
        }
        lemma_size(window);
        assert forall|i: int| 0 <= i < places.len() implies terms[i] == (
            factors[channel * size + #[trigger] places[i]],
            value_under(
                arithmetic.zero,
                input,
                weight.shape,
                options,
                batch,
                channel,
                y,
                x,
                places[i],
            ),
        ) by {
            lemma_value_under(
                arithmetic.zero,
                input,
                weight.shape,
                options,
                shape,
                batch,
                channel,
                y,
                x,
                i,
            );
        }
        (places, terms, sum)
    } else {
        lemma_size(window);
        let places = lemma_covered(
            window,
            values,
            base,
            factors,
            channel * size,
            y,
            x,
            size as nat,
        );
        assert forall|i: int| 0 <= i < places.len() implies terms[i] == (
            value_under(
                arithmetic.zero,
                input,
                weight.shape,
                options,
                batch,
                channel,
                y,
                x,
                #[trigger] places[i],
            ),
            factors[channel * size + places[i]],
        ) by {
            lemma_value_under(
                arithmetic.zero,
                input,
                weight.shape,
                options,
                shape,
                batch,
                channel,
                y,
                x,
                places[i],
            );
        }
        (places, terms, sum)
    }
}

/// The number of the places of a kernel.
proof fn lemma_size(window: Window)
    ensures
        0 <= window.size(),
{
    lemma_scale(0, window.channels as int, window.kernel_height as int);
    lemma_scale(0, window.channels * window.kernel_height, window.kernel_width as int);
}

} // verus!
