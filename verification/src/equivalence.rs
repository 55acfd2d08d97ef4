//! Layers that are carried out together give what they give one behind the
//! other.
use vstd::prelude::*;
use crate::accumulate::{fused, Arithmetic};
use crate::broadcast::{
    binary_error, broadcast_value, combines, lemma_broadcast_same, lemma_broadcast_value_same,
};
use crate::conv::{
    conv_cell, conv_error, conv_planes, conv_shape_of, gathers, is_conv, optional_bias, ConvShape,
};
use crate::conv_layer::{is_batched_product, is_forward, Conv2d};
use crate::conv_plan::Platform;
use crate::convolution::{depthwise_kernel, same_window};
use crate::elementwise::row_of;
use crate::fused_layers::{
    is_depthwise_of, is_fused_pair, is_fused_result, is_fused_separable, is_pair_place, is_second,
    is_sequence, is_stage_of, pair_fits, separable_fits,
};
use crate::index::{cell_at, lemma_decode, lemma_encode, lemma_row_bound};
use crate::kernels::{bias_at, dense_terms, is_gemm};
use crate::layout::{lemma_wf_count, window_count};
use crate::pointwise::{
    channels_at, is_depthwise, is_pair, is_separable, is_stage, joins_all, place_of, Depthwise,
    Stage,
};
use crate::shape::{counts, product};
use crate::tensor::{DataView, TensorError, TensorView};
use crate::window::Window;

verus! {

proof fn lemma_four(shape: Seq<usize>)
    requires
        shape.len() == 4,
    ensures
        product(shape) == shape[0] * (shape[1] * (shape[2] * shape[3])),
{
    reveal_with_fuel(product, 5);
    let a: int = shape[0] as int;
    let b: int = shape[1] as int;
    let c: int = shape[2] as int;
    let d: int = shape[3] as int;
    assert(shape.drop_last().drop_last().drop_last().drop_last() =~= Seq::<usize>::empty());
    assert(product(shape) == a * b * c * d);
    assert(a * b * c * d == a * (b * (c * d))) by (nonlinear_arith);
}

/// A value of a batch stands at the same place in the tensor.
proof fn lemma_place_in_batch(channels: int, plane: int, b: int, channel: int, place: int)
    ensures
        place_of(channels, plane, b, channel, place) == b * (channels * plane) + (channel * plane
            + place),
{
    assert((b * channels + channel) * plane + place == b * (channels * plane) + (channel * plane
        + place)) by (nonlinear_arith);
}

/// A layer by a single cell whose places hold what its stage gives is a product
/// with each batch.
proof fn lemma_layer_product<F, M: Fn(F, F, F) -> F, A: Fn(F) -> F>(
    arithmetic: &Arithmetic<F, M>,
    activation: Option<&A>,
    layer: Conv2d<F>,
    stage: &Stage<F>,
    input: TensorView<F>,
    output: Seq<F>,
)
    requires
        layer.wf(),
        layer.packed is Some,
        layer.geometry.single(),
        layer.geometry.groups == 1,
        is_stage_of(layer, stage),
        input.wf(),
        input.data is F32,
        input.shape.len() == 4,
        input.shape[1] == layer.geometry.channels_per_group,
        input.shape[1] > 0 && input.shape[2] > 0 && input.shape[3] > 0,
        layer.geometry.output_channels > 0,
        output.len() == input.shape[0] * (layer.geometry.output_channels * (input.shape[2]
            * input.shape[3])),
        forall|b: int, place: int|
            0 <= b < input.shape[0] && 0 <= place < input.shape[2] * input.shape[3] ==> is_stage(
                arithmetic,
                activation,
                stage,
                channels_at(
                    input.data->F32_0,
                    input.shape[1] as int,
                    input.shape[2] * input.shape[3],
                    b,
                    place,
                ),
                #[trigger] channels_at(
                    output,
                    layer.geometry.output_channels as int,
                    input.shape[2] * input.shape[3],
                    b,
                    place,
                ),
            ),
    ensures
        is_batched_product(
            arithmetic,
            activation,
            layer.weight@.data->F32_0,
            stage.bias,
            input,
            layer.geometry.output_channels as int,
            output,
        ),
{
    let batch: int = input.shape[0] as int;
    let inner: int = input.shape[1] as int;
    let plane: int = input.shape[2] * input.shape[3];
    let rows: int = layer.geometry.output_channels as int;
    let values = input.data->F32_0;
    let weight = layer.weight@.data->F32_0;
    lemma_wf_count(input);
    lemma_four(input.shape);
    assert(plane > 0) by (nonlinear_arith)
        requires
            plane == input.shape[2] * input.shape[3],
            input.shape[2] > 0,
            input.shape[3] > 0,
    ;
    assert(rows * plane > 0) by (nonlinear_arith)
        requires
            rows > 0,
            plane > 0,
    ;
    assert(inner * plane > 0) by (nonlinear_arith)
        requires
            inner > 0,
            plane > 0,
    ;
    assert(layer.geometry.inner() == inner) by (nonlinear_arith)
        requires
            layer.geometry.inner() == layer.geometry.channels_per_group
                * layer.geometry.kernel_height * layer.geometry.kernel_width,
            layer.geometry.kernel_height == 1,
            layer.geometry.kernel_width == 1,
            inner == layer.geometry.channels_per_group,
    ;
    assert forall|b: int| 0 <= b < batch implies is_gemm(
        arithmetic,
        activation,
        stage.bias,
        None,
        weight,
        None,
        row_of(values, inner * plane, b),
        rows,
        inner,
        plane,
        plane,
        #[trigger] row_of(output, rows * plane, b),
    ) by {
        let right = row_of(values, inner * plane, b);
        let out = row_of(output, rows * plane, b);
        lemma_row_bound(b, batch, 0, rows * plane);
        lemma_row_bound(b, batch, 0, inner * plane);
        assert(out.len() == rows * plane);
        assert forall|row: int, column: int| 0 <= row < rows && 0 <= column < plane implies fused(
            arithmetic.mul_add,
            activation,
            bias_at(arithmetic.zero, stage.bias, row),
            dense_terms(weight, right, inner, plane, row, column),
            #[trigger] out[cell_at(0, plane, row, column)],
        ) by {
            let taken = channels_at(values, inner, plane, b, column);
            let given = channels_at(output, rows, plane, b, column);
            assert(is_stage(arithmetic, activation, stage, taken, given));
            lemma_place_in_batch(rows, plane, b, row, column);
            lemma_row_bound(row, rows, column, plane);
            assert(given[row] == out[cell_at(0, plane, row, column)]);
            let terms = dense_terms(weight, right, inner, plane, row, column);
            assert forall|k: int| 0 <= k < inner implies #[trigger] terms[k] == stage.terms(
                row,
                taken,
            )[k] by {
                lemma_place_in_batch(inner, plane, b, k, column);
                lemma_row_bound(k, inner, column, plane);
                assert(right[cell_at(0, plane, k, column)] == taken[k]);
            }
            assert(terms =~= stage.terms(row, taken));
        }
    }
}

/// The values of a tensor whose channels at each place are given.
pub open spec fn assembled<F>(
    batch: int,
    channels: int,
    plane: int,
    at: spec_fn(int, int) -> Seq<F>,
) -> Seq<F> {
    Seq::new(
        (batch * (channels * plane)) as nat,
        |i: int|
            at(i / (channels * plane), i % (channels * plane) % plane)[i % (channels * plane)
                / plane],
    )
}

/// The channels at a place of an assembled tensor are those that were given.
proof fn lemma_assembled<F>(
    batch: int,
    channels: int,
    plane: int,
    at: spec_fn(int, int) -> Seq<F>,
    b: int,
    place: int,
)
    requires
        0 <= b < batch,
        0 < channels,
        0 <= place < plane,
        at(b, place).len() == channels,
    ensures
        channels_at(assembled(batch, channels, plane, at), channels, plane, b, place) == at(
            b,
            place,
        ),
{
    let values = assembled(batch, channels, plane, at);
    let found = channels_at(values, channels, plane, b, place);
    assert forall|k: int| 0 <= k < channels implies #[trigger] found[k] == at(b, place)[k] by {
        lemma_place_in_batch(channels, plane, b, k, place);
        lemma_row_bound(k, channels, place, plane);
        let column: int = k * plane + place;
        lemma_row_bound(b, batch, column, channels * plane);
        lemma_decode(b, column, channels * plane);
        lemma_decode(k, place, plane);
    }
    assert(found =~= at(b, place));
}

/// A value is one of the channels at its place.
proof fn lemma_parts<F>(values: Seq<F>, batch: int, channels: int, plane: int, i: int)
    requires
        0 < channels,
        0 < plane,
        values.len() == batch * (channels * plane),
        0 <= i < values.len(),
    ensures
        ({
            let b = i / (channels * plane);
            let k = i % (channels * plane) / plane;
            let place = i % (channels * plane) % plane;
            &&& 0 <= b < batch
            &&& 0 <= k < channels
            &&& 0 <= place < plane
            &&& values[i] == channels_at(values, channels, plane, b, place)[k]
        }),
{
    let size: int = channels * plane;
    assert(size > 0) by (nonlinear_arith)
        requires
            channels > 0,
            plane > 0,
            size == channels * plane,
    ;
    lemma_encode(i, size);
    let b = i / size;
    let rest = i % size;
    lemma_encode(rest, plane);
    let k = rest / plane;
    let place = rest % plane;
    assert(b < batch) by (nonlinear_arith)
        requires
            b * size <= i,
            i < batch * size,
            size > 0,
    ;
    assert(k < channels) by (nonlinear_arith)
        requires
            k * plane <= rest,
            rest < channels * plane,
            plane > 0,
    ;
    lemma_place_in_batch(channels, plane, b, k, place);
}

/// What is seen of four dimensions and values.
pub open spec fn planes_view<F>(
    batch: usize,
    channels: usize,
    height: usize,
    width: usize,
    values: Seq<F>,
) -> TensorView<F> {
    TensorView { shape: seq![batch, channels, height, width], data: DataView::F32(values) }
}

/// What the first of two stages may give at a place such that the second gives
/// what was found there.
pub open spec fn is_link<F, M: Fn(F, F, F) -> F, A: Fn(F) -> F, G: Fn(F, F) -> F>(
    arithmetic: &Arithmetic<F, M>,
    activation: Option<&A>,
    first: &Stage<F>,
    second: &Stage<F>,
    residual: Option<&G>,
    values: Seq<F>,
    before: Seq<F>,
    after: Seq<F>,
    link: (Seq<F>, Seq<F>),
) -> bool {
    &&& is_stage(arithmetic, activation, first, values, link.0)
    &&& is_stage(arithmetic, None::<&A>, second, link.0, link.1)
    &&& joins_all(residual, before, link.1, after)
}

/// Two layers by a single cell that are carried out together give what the
/// second gives for what the first gives, with the input added where they are
/// residual.
#[verifier::spinoff_prover]
#[verifier::rlimit(60)]
pub proof fn lemma_pair_in_sequence<
    F,
    M: Fn(F, F, F) -> F,
    A: Fn(F) -> F,
    G: Fn(F, F) -> F,
>(
    arithmetic: &Arithmetic<F, M>,
    activation: Option<&A>,
    first: Conv2d<F>,
    second: Conv2d<F>,
    residual: Option<&G>,
    single_thread: bool,
    platform: Platform,
    one: &Stage<F>,
    two: &Stage<F>,
    input: TensorView<F>,
    result: TensorView<F>,
)
    requires
        first.wf(),
        second.wf(),
        input.wf(),
        pair_fits(first, second, input, residual is Some, platform),
        is_stage_of(first, one),
        is_stage_of(second, two),
        is_fused_pair(arithmetic, activation, one, two, residual, input, result),
        counts(
            seq![
                input.shape[0],
                first.geometry.output_channels,
                input.shape[2],
                input.shape[3],
            ],
        ),
    ensures
        is_sequence(
            arithmetic,
            activation,
            first,
            second,
            residual,
            single_thread,
            input,
            Ok(result),
        ),
{
    let batch: int = input.shape[0] as int;
    let plane: int = input.shape[2] * input.shape[3];
    let inner: int = first.geometry.channels_per_group as int;
    let middle: int = first.geometry.output_channels as int;
    let rows: int = second.geometry.output_channels as int;
    let values = input.data->F32_0;
    let output = result.data->F32_0;
    assert(plane > 0) by (nonlinear_arith)
        requires
            plane == input.shape[2] * input.shape[3],
            input.shape[2] > 0,
            input.shape[3] > 0,
    ;
    let before = |b: int, place: int|
        if residual is Some {
            channels_at(values, inner, plane, b, place)
        } else {
            channels_at(output, rows, plane, b, place)
        };
    let links = |b: int, place: int|
        choose|link: (Seq<F>, Seq<F>)| #[trigger]
            is_link(
                arithmetic,
                activation,
                one,
                two,
                residual,
                channels_at(values, inner, plane, b, place),
                before(b, place),
                channels_at(output, rows, plane, b, place),
                link,
            );
    let hidden_at = |b: int, place: int| links(b, place).0;
    let sums_at = |b: int, place: int| links(b, place).1;
    assert forall|b: int, place: int| 0 <= b < batch && 0 <= place < plane implies is_link(
        arithmetic,
        activation,
        one,
        two,
        residual,
        channels_at(values, inner, plane, b, place),
        before(b, place),
        #[trigger] channels_at(output, rows, plane, b, place),
        links(b, place),
    ) by {
        let taken = channels_at(values, inner, plane, b, place);
        let given = channels_at(output, rows, plane, b, place);
        assert(is_pair_place(arithmetic, activation, one, two, residual, taken, given));
        assert(is_pair(
            arithmetic,
            activation,
            one,
            two,
            residual,
            taken,
            before(b, place),
            given,
        ));
        let (hidden, sums) = choose|hidden: Seq<F>, sums: Seq<F>|
            #![trigger is_stage(arithmetic, activation, one, taken, hidden), is_stage(
                arithmetic,
                None::<&A>,
                two,
                hidden,
                sums,
            )]
            is_stage(arithmetic, activation, one, taken, hidden) && is_stage(
                arithmetic,
                None::<&A>,
                two,
                hidden,
                sums,
            ) && joins_all(residual, before(b, place), sums, given);
        assert(is_link(
            arithmetic,
            activation,
            one,
            two,
            residual,
            taken,
            before(b, place),
            given,
            (hidden, sums),
        ));
    }
    let hidden_values = assembled(batch, middle, plane, hidden_at);
    let sums_values = assembled(batch, rows, plane, sums_at);
    let hidden = planes_view(
        input.shape[0],
        first.geometry.output_channels,
        input.shape[2],
        input.shape[3],
        hidden_values,
    );
    let sums = planes_view(
        input.shape[0],
        second.geometry.output_channels,
        input.shape[2],
        input.shape[3],
        sums_values,
    );
    assert forall|b: int, place: int| 0 <= b < batch && 0 <= place < plane implies {
        &&& channels_at(hidden_values, middle, plane, b, place) == hidden_at(b, place)
        &&& channels_at(sums_values, rows, plane, b, place) == sums_at(b, place)
    } by {
        let given = channels_at(output, rows, plane, b, place);
        assert(is_stage(
            arithmetic,
            activation,
            one,
            channels_at(values, inner, plane, b, place),
            hidden_at(b, place),
        ));
        lemma_assembled(batch, middle, plane, hidden_at, b, place);
        lemma_assembled(batch, rows, plane, sums_at, b, place);
    }
    lemma_four(hidden.shape);
    lemma_four(result.shape);
    lemma_wf_count(result);
    assert(hidden.wf()) by {
        assert(hidden.shape =~= seq![
            input.shape[0],
            first.geometry.output_channels,
            input.shape[2],
            input.shape[3],
        ]);
        crate::shape::lemma_product_bounds(hidden.shape);
        assert(hidden.shape.take(4) =~= hidden.shape);
        assert(batch * (middle * plane) >= 0) by (nonlinear_arith)
            requires
                batch >= 0,
                middle >= 0,
                plane >= 0,
        ;
        assert(hidden_values.len() == product(hidden.shape));
    }
    assert(batch * (rows * plane) >= 0) by (nonlinear_arith)
        requires
            batch >= 0,
            rows >= 0,
            plane >= 0,
    ;
    assert(sums.shape =~= result.shape);
    assert(sums_values.len() == output.len());
    assert(sums.wf());
    assert forall|b: int, place: int| 0 <= b < batch && 0 <= place < plane implies is_stage(
        arithmetic,
        activation,
        one,
        channels_at(values, inner, plane, b, place),
        #[trigger] channels_at(hidden_values, middle, plane, b, place),
    ) by {
        let given = channels_at(output, rows, plane, b, place);
    }
    lemma_layer_product(arithmetic, activation, first, one, input, hidden_values);
    assert forall|b: int, place: int| 0 <= b < batch && 0 <= place < plane implies is_stage(
        arithmetic,
        None::<&A>,
        two,
        channels_at(hidden_values, middle, plane, b, place),
        #[trigger] channels_at(sums_values, rows, plane, b, place),
    ) by {
        let given = channels_at(output, rows, plane, b, place);
    }
    lemma_layer_product(arithmetic, None::<&A>, second, two, hidden, sums_values);
    assert(is_forward(first, arithmetic, activation, single_thread, input, Ok(hidden)));
    assert(is_forward(second, arithmetic, None::<&A>, single_thread, hidden, Ok(sums)));
    assert forall|i: int| 0 <= i < output.len() implies (match residual {
        Some(addition) => call_ensures(*addition, (values[i], sums_values[i]), output[i]),
        None => output[i] == sums_values[i],
    }) by {
        lemma_parts(output, batch, rows, plane, i);
        lemma_parts(sums_values, batch, rows, plane, i);
        let b = i / (rows * plane);
        let k = i % (rows * plane) / plane;
        let place = i % (rows * plane) % plane;
        let given = channels_at(output, rows, plane, b, place);
        assert(joins_all(residual, before(b, place), sums_at(b, place), given));
        if residual is Some {
            lemma_wf_count(input);
            lemma_four(input.shape);
            lemma_parts(values, batch, inner, plane, i);
        }
    }
    match residual {
        None => {
            assert(sums_values =~= output);
            assert(sums =~= result);
        },
        Some(addition) => {
            assert(sums.shape =~= input.shape);
            assert(result.shape =~= input.shape);
            lemma_broadcast_same(input.shape);
            lemma_wf_count(input);
            lemma_four(input.shape);
            assert forall|flat: int| 0 <= flat < result.data.len() implies call_ensures(
                *addition,
                (
                    broadcast_value(input, input.shape, flat),
                    broadcast_value(sums, input.shape, flat),
                ),
                #[trigger] result.data->F32_0[flat],
            ) by {
                lemma_broadcast_value_same(input, flat);
                lemma_broadcast_value_same(sums, flat);
            }
            assert(binary_error(seq![input, sums]) is None);
            assert(combines(*addition, *addition, input, sums, result));
        },
    }
    assert(is_second(
        arithmetic,
        None::<&A>,
        second,
        residual,
        single_thread,
        input,
        hidden,
        Ok(result),
    ));
}

/// The pairs of a window over one plane of a batch are those over the same plane
/// of the whole tensor.
proof fn lemma_window_in_batch<F>(
    window: Window,
    values: Seq<F>,
    start: int,
    size: int,
    base: int,
    weight: Seq<F>,
    weight_base: int,
    y: int,
    x: int,
    count: nat,
)
    requires
        window.channels == 1,
        window.kernel_height > 0,
        window.kernel_width > 0,
        count <= window.size(),
        0 <= start,
        start + size <= values.len(),
        0 <= base,
        base + window.plane() <= size,
    ensures
        window.terms(
            values.subrange(start, start + size),
            base,
            weight,
            weight_base,
            1,
            y,
            x,
            count,
        ) == window.terms(values, start + base, weight, weight_base, 1, y, x, count),
    decreases count,
{
    if count > 0 {
        let position: int = count - 1;
        lemma_window_in_batch(
            window,
            values,
            start,
            size,
            base,
            weight,
            weight_base,
            y,
            x,
            position as nat,
        );
        if window.covers(y, x, position) {
            let width: int = window.kernel_width as int;
            let height: int = window.kernel_height as int;
            lemma_encode(position, width);
            let line: int = position / width;
            assert(line < height) by (nonlinear_arith)
                requires
                    line * width <= position,
                    position < 1 * height * width,
                    width > 0,
            ;
            assert(line / height == 0) by {
                vstd::arithmetic::div_mod::lemma_basic_div(line, height);
            }
            assert(window.channel_of(position) == 0);
            assert(0 * window.plane() == 0);
            let row: int = window.input_y(y, window.kernel_y_of(position));
            let column: int = window.input_x(x, window.kernel_x_of(position));
            lemma_row_bound(row, window.input_height as int, column, window.input_width as int);
            assert(0 <= window.input_at(y, x, position) < window.plane());
        }
    }
}

/// A depthwise layer whose places hold what its kernels give is a convolution.
#[verifier::spinoff_prover]
#[verifier::rlimit(60)]
proof fn lemma_layer_depthwise<F, M: Fn(F, F, F) -> F, A: Fn(F) -> F>(
    arithmetic: &Arithmetic<F, M>,
    activation: Option<&A>,
    layer: Conv2d<F>,
    single_thread: bool,
    kernels: &Depthwise<F>,
    input: TensorView<F>,
    output: TensorView<F>,
)
    requires
        layer.wf(),
        layer.geometry.channels_per_group == 1,
        layer.geometry.kernel_height == layer.geometry.kernel_width,
        depthwise_kernel(layer.geometry.kernel_height as int),
        layer.geometry.steps_one(),
        forall|i: int|
            0 <= i < 4 ==> #[trigger] layer.geometry.pads@[i] == layer.geometry.kernel_height / 2,
        layer.geometry.groups == layer.geometry.output_channels,
        is_depthwise_of(layer, input, kernels),
        input.wf(),
        input.data is F32,
        input.shape.len() == 4,
        input.shape[0] > 0 && input.shape[2] > 0 && input.shape[3] > 0,
        input.shape[1] == layer.geometry.output_channels,
        input.shape[2] + layer.geometry.kernel_height <= usize::MAX,
        input.shape[3] + layer.geometry.kernel_height <= usize::MAX,
        output.wf(),
        output.data is F32,
        output.shape == input.shape,
        forall|b: int, place: int|
            0 <= b < input.shape[0] && 0 <= place < input.shape[2] * input.shape[3]
                ==> is_depthwise(
                arithmetic,
                activation,
                kernels,
                row_of(
                    input.data->F32_0,
                    input.shape[1] * (input.shape[2] * input.shape[3]),
                    b,
                ),
                place,
                #[trigger] channels_at(
                    output.data->F32_0,
                    input.shape[1] as int,
                    input.shape[2] * input.shape[3],
                    b,
                    place,
                ),
            ),
    ensures
        is_forward(layer, arithmetic, activation, single_thread, input, Ok(output)),
{
    let kernel = layer.geometry.kernel_height;
    let options = layer.options();
    let operands = layer.operands(input);
    let batch: int = input.shape[0] as int;
    let channels: int = input.shape[1] as int;
    let height = input.shape[2];
    let width = input.shape[3];
    let plane: int = height * width;
    let values = input.data->F32_0;
    let weight = layer.weight@.data->F32_0;
    let found = output.data->F32_0;
    lemma_wf_count(input);
    lemma_wf_count(output);
    lemma_four(input.shape);
    assert(plane > 0) by (nonlinear_arith)
        requires
            plane == height * width,
            height > 0,
            width > 0,
    ;
    let half = kernel / 2;
    assert(layer.geometry.pads@[0] == half && layer.geometry.pads@[1] == half);
    assert(layer.geometry.pads@[2] == half && layer.geometry.pads@[3] == half);
    assert(half + half + 1 == kernel);
    assert(window_count(height as int, kernel as int, 1, half as int, half as int, false) == Ok::<
        usize,
        TensorError,
    >(height));
    assert(window_count(width as int, kernel as int, 1, half as int, half as int, false) == Ok::<
        usize,
        TensorError,
    >(width));
    assert(channels > 0);
    assert(layer.geometry.output_channels % layer.geometry.groups == 0) by {
        vstd::arithmetic::div_mod::lemma_mod_self_0(channels);
    }
    assert(seq![input.shape[0], layer.geometry.output_channels, height, width] =~= input.shape);
    let shape = ConvShape {
        batch: input.shape[0],
        input_channels: input.shape[1],
        input_height: height,
        input_width: width,
        output_channels: layer.geometry.output_channels,
        channels_per_group: 1,
        kernel_height: kernel,
        kernel_width: kernel,
        output_height: height,
        output_width: width,
    };
    assert(conv_shape_of(input.shape, layer.weight@.shape, optional_bias(operands), options) == Ok::<
        ConvShape,
        TensorError,
    >(shape));
    assert(!layer.plan.direct_spatial);
    assert(!gathers(options, shape));
    assert(conv_error(operands, options) is None);
    let window = shape.window(options);
    assert(window == same_window(height, width, kernel));
    assert(window.size() == kernel * kernel) by (nonlinear_arith)
        requires
            window.size() == 1 * kernel * kernel,
    ;
    assert forall|p: int, cell: int|
        0 <= p < shape.batch * shape.output_channels && 0 <= cell < shape.area() implies conv_cell(
        arithmetic,
        activation,
        kernels.bias,
        options,
        shape,
        values,
        weight,
        p / shape.output_channels as int,
        p % shape.output_channels as int,
        cell,
        #[trigger] found[cell_at(0, shape.area(), p, cell)],
    ) by {
        lemma_encode(p, channels);
        let b: int = p / channels;
        let channel: int = p % channels;
        assert(b < batch) by (nonlinear_arith)
            requires
                b * channels <= p,
                p < batch * channels,
                channels > 0,
        ;
        let size: int = channels * plane;
        let part = row_of(values, size, b);
        let given = channels_at(found, channels, plane, b, cell);
        assert(is_depthwise(arithmetic, activation, kernels, part, cell, given));
        assert(given[channel] == found[cell_at(0, plane, p, cell)]);
        assert(size > 0) by (nonlinear_arith)
            requires
                size == channels * plane,
                channels > 0,
                plane > 0,
        ;
        lemma_row_bound(b, batch, 0, size);
        lemma_row_bound(channel, channels, 0, plane);
        assert(channel / 1 == channel);
        assert((layer.geometry.output_channels as int) / (options.groups as int) == 1) by {
            vstd::arithmetic::div_mod::lemma_div_by_self(channels);
        }
        assert((b * channels + channel * 1) * plane == b * size + channel * plane)
            by (nonlinear_arith)
            requires
                size == channels * plane,
        ;
        lemma_window_in_batch(
            window,
            values,
            b * size,
            size,
            channel * plane,
            weight,
            channel * (kernel * kernel),
            cell / width as int,
            cell % width as int,
            window.size() as nat,
        );
        assert(part =~= values.subrange(b * size, b * size + size));
    }
    assert(conv_planes(
        arithmetic,
        activation,
        kernels.bias,
        options,
        shape,
        values,
        weight,
        shape.batch * shape.output_channels,
        found,
    ));
    assert(is_conv(arithmetic, activation, options, operands, output));
}

/// A depthwise layer and one by a single cell that are carried out together give
/// what the second gives for what the first gives.
#[verifier::spinoff_prover]
#[verifier::rlimit(60)]
pub proof fn lemma_separable_in_sequence<F, M: Fn(F, F, F) -> F, A: Fn(F) -> F>(
    arithmetic: &Arithmetic<F, M>,
    activation: Option<&A>,
    depthwise: Conv2d<F>,
    pointwise: Conv2d<F>,
    single_thread: bool,
    platform: Platform,
    input: TensorView<F>,
    result: TensorView<F>,
) -> (middle: TensorView<F>)
    requires
        depthwise.wf(),
        pointwise.wf(),
        input.wf(),
        separable_fits(depthwise, pointwise, input, platform),
        is_fused_result(arithmetic, activation, depthwise, pointwise, input, result),
    ensures
        is_forward(depthwise, arithmetic, None::<&A>, single_thread, input, Ok(middle)),
        is_forward(pointwise, arithmetic, activation, single_thread, middle, Ok(result)),
{
    let (one, two) = choose|one: &Depthwise<F>, two: &Stage<F>|
        is_depthwise_of(depthwise, input, one) && is_stage_of(pointwise, two)
            && #[trigger] is_fused_separable(arithmetic, activation, one, two, input, result);
    let batch: int = input.shape[0] as int;
    let channels: int = input.shape[1] as int;
    let plane: int = input.shape[2] * input.shape[3];
    let rows: int = pointwise.geometry.output_channels as int;
    let values = input.data->F32_0;
    let output = result.data->F32_0;
    assert(plane > 0) by (nonlinear_arith)
        requires
            plane == input.shape[2] * input.shape[3],
            input.shape[2] > 0,
            input.shape[3] > 0,
    ;
    assert(is_fused_separable(arithmetic, activation, one, two, input, result));
    assert(one.plane() == plane);
    assert(one.channels * one.plane() == channels * plane);
    let middle_at = |b: int, place: int|
        choose|list: Seq<F>|
            #![trigger is_stage(
                arithmetic,
                activation,
                two,
                list,
                channels_at(output, rows, plane, b, place),
            )]
            is_depthwise(
                arithmetic,
                None::<&A>,
                one,
                row_of(values, channels * plane, b),
                place,
                list,
            ) && is_stage(
                arithmetic,
                activation,
                two,
                list,
                channels_at(output, rows, plane, b, place),
            );
    assert forall|b: int, place: int| 0 <= b < batch && 0 <= place < plane implies {
        &&& is_depthwise(
            arithmetic,
            None::<&A>,
            one,
            row_of(values, channels * plane, b),
            place,
            middle_at(b, place),
        )
        &&& is_stage(
            arithmetic,
            activation,
            two,
            middle_at(b, place),
            #[trigger] channels_at(output, rows, plane, b, place),
        )
    } by {
        assert(is_separable(
            arithmetic,
            activation,
            one,
            two,
            row_of(values, channels * plane, b),
            place,
            channels_at(output, rows, plane, b, place),
        ));
    }
    let middle_values = assembled(batch, channels, plane, middle_at);
    let middle = TensorView { shape: input.shape, data: DataView::F32(middle_values) };
    lemma_wf_count(input);
    lemma_four(input.shape);
    lemma_wf_count(result);
    lemma_four(result.shape);
    assert(middle_values.len() == values.len());
    assert(middle.wf());
    assert forall|b: int, place: int| 0 <= b < batch && 0 <= place < plane implies #[trigger]
        channels_at(middle_values, channels, plane, b, place) == middle_at(b, place) by {
        let given = channels_at(output, rows, plane, b, place);
        lemma_assembled(batch, channels, plane, middle_at, b, place);
    }
    assert forall|b: int, place: int| 0 <= b < batch && 0 <= place < plane implies is_depthwise(
        arithmetic,
        None::<&A>,
        one,
        row_of(values, channels * plane, b),
        place,
        #[trigger] channels_at(middle_values, channels, plane, b, place),
    ) by {
        let given = channels_at(output, rows, plane, b, place);
    }
    lemma_layer_depthwise(arithmetic, None::<&A>, depthwise, single_thread, one, input, middle);
    assert forall|b: int, place: int| 0 <= b < batch && 0 <= place < plane implies is_stage(
        arithmetic,
        activation,
        two,
        channels_at(middle_values, channels, plane, b, place),
        #[trigger] channels_at(output, rows, plane, b, place),
    ) by {
        assert(channels_at(middle_values, channels, plane, b, place) == middle_at(b, place));
    }
    lemma_layer_product(arithmetic, activation, pointwise, two, middle, output);
    assert(result.shape =~= seq![
        middle.shape[0],
        pointwise.geometry.output_channels,
        middle.shape[2],
        middle.shape[3],
    ]);
    middle
}

} // verus!
