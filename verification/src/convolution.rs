//! Convolution kernels over planes that are stored row by row.
use crate::accumulate::{activate, activation_valid, fused, Arithmetic};
use crate::index::{cell_at, lemma_decode, lemma_row_bound, lemma_scale};
use crate::kernels::{bias_at, bias_has_len};
use crate::window::{window_sum, Window};
use vstd::prelude::*;

verus! {

/// A block of output rows holds activated window sums, and nothing else of the
/// output has changed. `first_row` is the output row that the block starts with.
pub open spec fn is_convolved<T, M: Fn(T, T, T) -> T, A: Fn(T) -> T>(
    mul_add: M,
    activation: Option<&A>,
    window: Window,
    input: Seq<T>,
    input_base: int,
    weight: Seq<T>,
    weight_base: int,
    weight_step: int,
    start: T,
    first_row: int,
    rows: int,
    output_width: int,
    output_start: int,
    before: Seq<T>,
    after: Seq<T>,
) -> bool {
    &&& after.len() == before.len()
    &&& convolved_rows(
        mul_add,
        activation,
        window,
        input,
        input_base,
        weight,
        weight_base,
        weight_step,
        start,
        first_row,
        rows,
        output_width,
        output_start,
        after,
    )
    &&& forall|position: int|
        0 <= position < before.len() && !(output_start <= position < output_start + rows
            * output_width) ==> #[trigger] after[position] == before[position]
}

/// The cells of a block of output rows are activated window sums.
pub open spec fn convolved_rows<T, M: Fn(T, T, T) -> T, A: Fn(T) -> T>(
    mul_add: M,
    activation: Option<&A>,
    window: Window,
    input: Seq<T>,
    input_base: int,
    weight: Seq<T>,
    weight_base: int,
    weight_step: int,
    start: T,
    first_row: int,
    rows: int,
    output_width: int,
    output_start: int,
    output: Seq<T>,
) -> bool {
    forall|y: int, x: int|
        0 <= y < rows && 0 <= x < output_width ==> fused(
            mul_add,
            activation,
            start,
            window.all_terms(
                input,
                input_base,
                weight,
                weight_base,
                weight_step,
                first_row + y,
                x,
            ),
            #[trigger] output[cell_at(output_start, output_width, y, x)],
        )
}

/// Convolves a block of output rows.
pub fn convolve_rows<T: Copy, M: Fn(T, T, T) -> T, A: Fn(T) -> T>(
    arithmetic: &Arithmetic<T, M>,
    output: &mut [T],
    output_start: usize,
    input: &[T],
    input_base: usize,
    weight: &[T],
    weight_base: usize,
    weight_step: usize,
    window: &Window,
    start: T,
    first_row: usize,
    rows: usize,
    output_width: usize,
    activation: Option<&A>,
)
    requires
        arithmetic.valid(),
        activation_valid(activation),
        window.reaches(first_row + rows, output_width as int),
        window.size() <= usize::MAX,
        input_base + window.channels * window.plane() <= input@.len(),
        window.size() > 0 ==> weight_base + (window.size() - 1) * weight_step < weight@.len(),
        output_start + rows * output_width <= old(output)@.len(),
        first_row + rows <= usize::MAX,
    ensures
        is_convolved(
            arithmetic.mul_add,
            activation,
            *window,
            input@,
            input_base as int,
            weight@,
            weight_base as int,
            weight_step as int,
            start,
            first_row as int,
            rows as int,
            output_width as int,
            output_start as int,
            old(output)@,
            final(output)@,
        ),
{
    let output_len: usize = output.len();
    let ghost before = output@;
    for y in 0..rows
        invariant
            arithmetic.valid(),
            activation_valid(activation),
            window.reaches(first_row + rows, output_width as int),
            window.size() <= usize::MAX,
            input_base + window.channels * window.plane() <= input@.len(),
            window.size() > 0 ==> weight_base + (window.size() - 1) * weight_step < weight@.len(),
            output_len == output@.len(),
            before.len() == output_len,
            output_start + rows * output_width <= output_len,
            first_row + rows <= usize::MAX,
            forall|r: int, c: int|
                0 <= r < y && 0 <= c < output_width ==> fused(
                    arithmetic.mul_add,
                    activation,
                    start,
                    window.all_terms(
                        input@,
                        input_base as int,
                        weight@,
                        weight_base as int,
                        weight_step as int,
                        first_row + r,
                        c,
                    ),
                    #[trigger] output@[cell_at(output_start as int, output_width as int, r, c)],
                ),
            forall|position: int|
                0 <= position < output_len && !(output_start <= position < output_start + rows
                    * output_width) ==> #[trigger] output@[position] == before[position],
    {
        for x in 0..output_width
            invariant
                y < rows,
                arithmetic.valid(),
                activation_valid(activation),
                window.reaches(first_row + rows, output_width as int),
                window.size() <= usize::MAX,
                input_base + window.channels * window.plane() <= input@.len(),
                window.size() > 0 ==> weight_base + (window.size() - 1) * weight_step
                    < weight@.len(),
                output_len == output@.len(),
                before.len() == output_len,
                output_start + rows * output_width <= output_len,
                first_row + rows <= usize::MAX,
                forall|r: int, c: int|
                    0 <= r <= y && 0 <= c < output_width && (r < y || c < x) ==> fused(
                        arithmetic.mul_add,
                        activation,
                        start,
                        window.all_terms(
                            input@,
                            input_base as int,
                            weight@,
                            weight_base as int,
                            weight_step as int,
                            first_row + r,
                            c,
                        ),
                        #[trigger] output@[cell_at(output_start as int, output_width as int, r, c)],
                    ),
                forall|position: int|
                    0 <= position < output_len && !(output_start <= position < output_start + rows
                        * output_width) ==> #[trigger] output@[position] == before[position],
        {
            proof {
                lemma_row_bound(y as int, rows as int, x as int, output_width as int);
                lemma_scale(first_row + y, first_row + rows - 1, window.stride_y as int);
                lemma_scale(x as int, output_width - 1, window.stride_x as int);
            }
            let sum: T = window_sum(
                arithmetic,
                input,
                input_base,
                weight,
                weight_base,
                weight_step,
                window,
                first_row + y,
                x,
                start,
            );
            let value: T = activate(activation, sum);
            let ghost earlier = output@;
            output[output_start + y * output_width + x] = value;
            proof {
                assert forall|r: int, c: int|
                    0 <= r <= y && 0 <= c < output_width && (r < y || c < x + 1) implies fused(
                    arithmetic.mul_add,
                    activation,
                    start,
                    window.all_terms(
                        input@,
                        input_base as int,
                        weight@,
                        weight_base as int,
                        weight_step as int,
                        first_row + r,
                        c,
                    ),
                    #[trigger] output@[cell_at(output_start as int, output_width as int, r, c)],
                ) by {
                    let p = cell_at(output_start as int, output_width as int, r, c);
                    lemma_decode(r, c, output_width as int);
                    lemma_decode(y as int, x as int, output_width as int);
                    lemma_row_bound(r, rows as int, c, output_width as int);
                    if r != y || c != x {
                        assert(output@[p] == earlier[p]);
                    }
                }
            }
        }
    }
}

/// The window of a depthwise convolution that keeps the size of its plane.
pub open spec fn same_window(height: usize, width: usize, kernel: usize) -> Window {
    Window {
        channels: 1,
        input_height: height,
        input_width: width,
        kernel_height: kernel,
        kernel_width: kernel,
        stride_y: 1,
        stride_x: 1,
        pad_y: (kernel / 2) as usize,
        pad_x: (kernel / 2) as usize,
    }
}

/// The supported sizes of a depthwise kernel.
pub open spec fn depthwise_kernel(kernel: int) -> bool {
    kernel == 3 || kernel == 5 || kernel == 7 || kernel == 9
}

/// Convolves one plane with one kernel and keeps its size.
pub fn depthwise_conv2d_same<T: Copy, M: Fn(T, T, T) -> T, A: Fn(T) -> T>(
    arithmetic: &Arithmetic<T, M>,
    output: &mut [T],
    input: &[T],
    weights: &[T],
    height: usize,
    width: usize,
    kernel: usize,
    bias: T,
    activation: Option<&A>,
)
    requires
        arithmetic.valid(),
        activation_valid(activation),
        height > 0 && width > 0,
        depthwise_kernel(kernel as int),
        height + kernel <= usize::MAX && width + kernel <= usize::MAX,
        old(output)@.len() == height * width,
        input@.len() == height * width,
        weights@.len() == kernel * kernel,
    ensures
        is_convolved(
            arithmetic.mul_add,
            activation,
            same_window(height, width, kernel),
            input@,
            0,
            weights@,
            0,
            1,
            bias,
            0,
            height as int,
            width as int,
            0,
            old(output)@,
            final(output)@,
        ),
{
    let window: Window = Window {
        channels: 1,
        input_height: height,
        input_width: width,
        kernel_height: kernel,
        kernel_width: kernel,
        stride_y: 1,
        stride_x: 1,
        pad_y: kernel / 2,
        pad_x: kernel / 2,
    };
    proof {
        assert(1 * kernel * kernel == kernel * kernel) by (nonlinear_arith);
        assert(1 * (height * width) == height * width) by (nonlinear_arith);
        assert(kernel * kernel <= 81) by (nonlinear_arith)
            requires
                0 <= kernel <= 9,
        ;
    }
    convolve_rows(
        arithmetic,
        output,
        0,
        input,
        0,
        weights,
        0,
        1,
        &window,
        bias,
        0,
        height,
        width,
        activation,
    );
}

/// Convolves the rows `y_start .. y_start + rows` of each channel with the
/// channel's own kernel.
pub fn depthwise_conv2d_same_strip<T: Copy, M: Fn(T, T, T) -> T, A: Fn(T) -> T>(
    arithmetic: &Arithmetic<T, M>,
    output: &mut [T],
    input: &[T],
    weights: &[T],
    bias: Option<&[T]>,
    channels: usize,
    height: usize,
    width: usize,
    kernel: usize,
    y_start: usize,
    rows: usize,
    activation: Option<&A>,
)
    requires
        arithmetic.valid(),
        activation_valid(activation),
        channels > 0 && height > 0 && width > 0 && rows > 0,
        depthwise_kernel(kernel as int),
        height + kernel <= usize::MAX && width + kernel <= usize::MAX,
        y_start <= height && rows <= height - y_start,
        old(output)@.len() == channels * (rows * width),
        input@.len() == channels * (height * width),
        weights@.len() == channels * (kernel * kernel),
        bias_has_len(bias, channels as int),
    ensures
        final(output)@.len() == old(output)@.len(),
        forall|channel: int|
            0 <= channel < channels ==> #[trigger] convolved_rows(
                arithmetic.mul_add,
                activation,
                same_window(height, width, kernel),
                input@,
                channel * (height * width),
                weights@,
                channel * (kernel * kernel),
                1,
                bias_at(arithmetic.zero, bias, channel),
                y_start as int,
                rows as int,
                width as int,
                channel * (rows * width),
                final(output)@,
            ),
{
    let window: Window = Window {
        channels: 1,
        input_height: height,
        input_width: width,
        kernel_height: kernel,
        kernel_width: kernel,
        stride_y: 1,
        stride_x: 1,
        pad_y: kernel / 2,
        pad_x: kernel / 2,
    };
    let output_len: usize = output.len();
    let input_len: usize = input.len();
    let weights_len: usize = weights.len();
    proof {
        assert(1 * kernel * kernel == kernel * kernel) by (nonlinear_arith);
        assert(1 * (height * width) == height * width) by (nonlinear_arith);
        assert(0 < kernel * kernel <= 81) by (nonlinear_arith)
            requires
                0 < kernel <= 9,
        ;
        assert(0 < height * width) by (nonlinear_arith)
            requires
                0 < height,
                0 < width,
        ;
        assert(0 < rows * width) by (nonlinear_arith)
            requires
                0 < rows,
                0 < width,
        ;
    }
    for channel in 0..channels
        invariant
            arithmetic.valid(),
            activation_valid(activation),
            window == same_window(height, width, kernel),
            window.size() == kernel * kernel,
            window.channels * window.plane() == height * width,
            channels > 0 && height > 0 && width > 0 && rows > 0,
            0 < kernel * kernel <= 81,
            0 < height * width,
            0 < rows * width,
            height + kernel <= usize::MAX && width + kernel <= usize::MAX,
            y_start <= height && rows <= height - y_start,
            output_len == output@.len(),
            input_len == input@.len(),
            weights_len == weights@.len(),
            output@.len() == channels * (rows * width),
            input@.len() == channels * (height * width),
            weights@.len() == channels * (kernel * kernel),
            bias_has_len(bias, channels as int),
            forall|c: int|
                0 <= c < channel ==> #[trigger] convolved_rows(
                    arithmetic.mul_add,
                    activation,
                    window,
                    input@,
                    c * (height * width),
                    weights@,
                    c * (kernel * kernel),
                    1,
                    bias_at(arithmetic.zero, bias, c),
                    y_start as int,
                    rows as int,
                    width as int,
                    c * (rows * width),
                    output@,
                ),
    {
        proof {
            lemma_row_bound(channel as int, channels as int, 0, rows * width);
            lemma_row_bound(channel as int, channels as int, 0, height * width);
            lemma_row_bound(channel as int, channels as int, 0, kernel * kernel);
            lemma_scale(1, channels as int, rows * width);
            lemma_scale(1, channels as int, height * width);
            lemma_scale(1, channels as int, kernel * kernel);
        }
        let start: T = match bias {
            Some(values) => values[channel],
            None => arithmetic.zero,
        };
        let ghost before = output@;
        convolve_rows(
            arithmetic,
            output,
            channel * (rows * width),
            input,
            channel * (height * width),
            weights,
            channel * (kernel * kernel),
            1,
            &window,
            start,
            y_start,
            rows,
            width,
            activation,
        );
        proof {
            assert forall|c: int| 0 <= c < channel + 1 implies #[trigger] convolved_rows(
                arithmetic.mul_add,
                activation,
                window,
                input@,
                c * (height * width),
                weights@,
                c * (kernel * kernel),
                1,
                bias_at(arithmetic.zero, bias, c),
                y_start as int,
                rows as int,
                width as int,
                c * (rows * width),
                output@,
            ) by {
                if c < channel {
                    lemma_earlier_plane(
                        arithmetic.mul_add,
                        activation,
                        window,
                        input@,
                        c * (height * width),
                        weights@,
                        c * (kernel * kernel),
                        1,
                        bias_at(arithmetic.zero, bias, c),
                        y_start as int,
                        rows as int,
                        width as int,
                        c,
                        channel as int,
                        channels as int,
                        before,
                        output@,
                    );
                }
            }
        }
    }
}

/// A plane of output rows keeps its cells while a later plane is written.
proof fn lemma_earlier_plane<T, M: Fn(T, T, T) -> T, A: Fn(T) -> T>(
    mul_add: M,
    activation: Option<&A>,
    window: Window,
    input: Seq<T>,
    input_base: int,
    weight: Seq<T>,
    weight_base: int,
    weight_step: int,
    start: T,
    first_row: int,
    rows: int,
    output_width: int,
    plane: int,
    written: int,
    planes: int,
    before: Seq<T>,
    after: Seq<T>,
)
    requires
        0 <= plane < written < planes,
        before.len() == after.len(),
        before.len() >= planes * (rows * output_width),
        convolved_rows(
            mul_add,
            activation,
            window,
            input,
            input_base,
            weight,
            weight_base,
            weight_step,
            start,
            first_row,
            rows,
            output_width,
            plane * (rows * output_width),
            before,
        ),
        forall|position: int|
            0 <= position < before.len() && !(written * (rows * output_width) <= position < written
                * (rows * output_width) + rows * output_width) ==> #[trigger] after[position]
                == before[position],
    ensures
        convolved_rows(
            mul_add,
            activation,
            window,
            input,
            input_base,
            weight,
            weight_base,
            weight_step,
            start,
            first_row,
            rows,
            output_width,
            plane * (rows * output_width),
            after,
        ),
{
    assert forall|y: int, x: int| 0 <= y < rows && 0 <= x < output_width implies fused(
        mul_add,
        activation,
        start,
        window.all_terms(
            input,
            input_base,
            weight,
            weight_base,
            weight_step,
            first_row + y,
            x,
        ),
        #[trigger] after[cell_at(plane * (rows * output_width), output_width, y, x)],
    ) by {
        let p = cell_at(plane * (rows * output_width), output_width, y, x);
        lemma_row_bound(y, rows, x, output_width);
        lemma_row_bound(plane, written, y * output_width + x, rows * output_width);
        lemma_row_bound(plane, planes, y * output_width + x, rows * output_width);
        assert(before[p] == after[p]);
    }
}

/// The window of a three-by-three depthwise convolution that halves its plane.
pub open spec fn halving_window(height: usize, width: usize) -> Window {
    Window {
        channels: 1,
        input_height: height,
        input_width: width,
        kernel_height: 3,
        kernel_width: 3,
        stride_y: 2,
        stride_x: 2,
        pad_y: 1,
        pad_x: 1,
    }
}

/// Half of a size, rounded up.
pub open spec fn half(size: int) -> int {
    (size + 1) / 2
}

/// Convolves one plane with a three-by-three kernel at every second row and
/// column.
pub fn depthwise_conv2d_same_3x3_stride2<T: Copy, M: Fn(T, T, T) -> T, A: Fn(T) -> T>(
    arithmetic: &Arithmetic<T, M>,
    output: &mut [T],
    input: &[T],
    weights: &[T],
    height: usize,
    width: usize,
    bias: T,
    activation: Option<&A>,
)
    requires
        arithmetic.valid(),
        activation_valid(activation),
        height > 0 && width > 0,
        height + 3 <= usize::MAX && width + 3 <= usize::MAX,
        old(output)@.len() == half(height as int) * half(width as int),
        input@.len() == height * width,
        weights@.len() == 9,
    ensures
        is_convolved(
            arithmetic.mul_add,
            activation,
            halving_window(height, width),
            input@,
            0,
            weights@,
            0,
            1,
            bias,
            0,
            half(height as int),
            half(width as int),
            0,
            old(output)@,
            final(output)@,
        ),
{
    let window: Window = Window {
        channels: 1,
        input_height: height,
        input_width: width,
        kernel_height: 3,
        kernel_width: 3,
        stride_y: 2,
        stride_x: 2,
        pad_y: 1,
        pad_x: 1,
    };
    proof {
        assert(1 * (height * width) == height * width) by (nonlinear_arith);
    }
    convolve_rows(
        arithmetic,
        output,
        0,
        input,
        0,
        weights,
        0,
        1,
        &window,
        bias,
        0,
        (height + 1) / 2,
        (width + 1) / 2,
        activation,
    );
}

/// Convolves all input channels into a group of output channels whose weights are
/// interleaved.
pub fn spatial_conv2d_packed<T: Copy, M: Fn(T, T, T) -> T, A: Fn(T) -> T>(
    arithmetic: &Arithmetic<T, M>,
    output: &mut [T],
    output_start: usize,
    input: &[T],
    weight: &[T],
    weight_start: usize,
    window: &Window,
    output_channels: usize,
    output_height: usize,
    output_width: usize,
    bias: Option<&[T]>,
    bias_start: usize,
    activation: Option<&A>,
)
    requires
        arithmetic.valid(),
        activation_valid(activation),
        output_channels > 0,
        window.size() > 0,
        window.reaches(output_height as int, output_width as int),
        input@.len() == window.channels * window.plane(),
        weight_start + output_channels * window.size() <= weight@.len(),
        output_height > 0 && output_width > 0,
        output_start + output_channels * (output_height * output_width) <= old(output)@.len(),
        bias matches Some(values) ==> bias_start + output_channels <= values@.len(),
    ensures
        final(output)@.len() == old(output)@.len(),
        forall|channel: int|
            0 <= channel < output_channels ==> #[trigger] convolved_rows(
                arithmetic.mul_add,
                activation,
                *window,
                input@,
                0,
                weight@,
                weight_start + channel,
                output_channels as int,
                bias_at(arithmetic.zero, bias, bias_start + channel),
                0,
                output_height as int,
                output_width as int,
                output_start + channel * (output_height * output_width),
                final(output)@,
            ),
        forall|position: int|
            0 <= position < old(output)@.len() && !(output_start <= position < output_start
                + output_channels * (output_height * output_width))
                ==> #[trigger] final(output)@[position] == old(output)@[position],
{
    let output_len: usize = output.len();
    let weight_len: usize = weight.len();
    let ghost plane = output_height * output_width;
    let ghost initial = output@;
    proof {
        assert(0 < plane) by (nonlinear_arith)
            requires
                plane == output_height * output_width,
                0 < output_height,
                0 < output_width,
        ;
        lemma_scale(1, output_channels as int, window.size());
        assert((window.size() - 1) * output_channels + output_channels == output_channels
            * window.size()) by (nonlinear_arith);
        assert(1 * window.size() == window.size()) by (nonlinear_arith);
    }
    for channel in 0..output_channels
        invariant
            arithmetic.valid(),
            activation_valid(activation),
            0 < plane,
            plane == output_height * output_width,
            window.size() > 0,
            window.size() <= weight_len,
            window.reaches(output_height as int, output_width as int),
            input@.len() == window.channels * window.plane(),
            weight_len == weight@.len(),
            weight_start + output_channels * window.size() <= weight_len,
            (window.size() - 1) * output_channels + output_channels == output_channels
                * window.size(),
            output_len == output@.len(),
            initial.len() == output_len,
            output_start + output_channels * plane <= output_len,
            bias matches Some(values) ==> bias_start + output_channels <= values@.len(),
            forall|c: int|
                0 <= c < channel ==> #[trigger] convolved_rows(
                    arithmetic.mul_add,
                    activation,
                    *window,
                    input@,
                    0,
                    weight@,
                    weight_start + c,
                    output_channels as int,
                    bias_at(arithmetic.zero, bias, bias_start + c),
                    0,
                    output_height as int,
                    output_width as int,
                    output_start + c * plane,
                    output@,
                ),
            forall|position: int|
                0 <= position < output_len && !(output_start <= position < output_start
                    + output_channels * plane) ==> #[trigger] output@[position]
                    == initial[position],
    {
        proof {
            lemma_row_bound(channel as int, output_channels as int, 0, plane);
            lemma_scale(1, output_channels as int, plane);
        }
        let start: T = match bias {
            Some(values) => {
                assert(values@.len() == values.len());
                values[bias_start + channel]
            },
            None => arithmetic.zero,
        };
        let ghost before = output@;
        let plane_start: usize = output_start + channel * (output_height * output_width);
        convolve_rows(
            arithmetic,
            output,
            plane_start,
            input,
            0,
            weight,
            weight_start + channel,
            output_channels,
            window,
            start,
            0,
            output_height,
            output_width,
            activation,
        );
        proof {
            assert forall|c: int| 0 <= c < channel + 1 implies #[trigger] convolved_rows(
                arithmetic.mul_add,
                activation,
                *window,
                input@,
                0,
                weight@,
                weight_start + c,
                output_channels as int,
                bias_at(arithmetic.zero, bias, bias_start + c),
                0,
                output_height as int,
                output_width as int,
                output_start + c * plane,
                output@,
            ) by {
                if c < channel {
                    assert(convolved_rows(
                        arithmetic.mul_add,
                        activation,
                        *window,
                        input@,
                        0,
                        weight@,
                        weight_start + c,
                        output_channels as int,
                        bias_at(arithmetic.zero, bias, bias_start + c),
                        0,
                        output_height as int,
                        output_width as int,
                        output_start + c * plane,
                        before,
                    ));
                    assert forall|y: int, x: int|
                        0 <= y < output_height && 0 <= x < output_width implies fused(
                        arithmetic.mul_add,
                        activation,
                        bias_at(arithmetic.zero, bias, bias_start + c),
                        window.all_terms(
                            input@,
                            0,
                            weight@,
                            weight_start + c,
                            output_channels as int,
                            0 + y,
                            x,
                        ),
                        #[trigger] output@[cell_at(
                            output_start + c * plane,
                            output_width as int,
                            y,
                            x,
                        )],
                    ) by {
                        let p = cell_at(output_start + c * plane, output_width as int, y, x);
                        lemma_row_bound(y, output_height as int, x, output_width as int);
                        lemma_row_bound(c, channel as int, y * output_width + x, plane);
                        lemma_row_bound(c, output_channels as int, y * output_width + x, plane);
                        assert(before[p] == output@[p]);
                    }
                }
            }
        }
    }
}

} // verus!
