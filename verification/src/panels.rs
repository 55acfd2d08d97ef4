//! Spatial convolutions that gather the cells under the kernel before they
//! multiply.
use crate::accumulate::{activation_valid, fused, Arithmetic};
use crate::convolution::{convolved_rows, spatial_conv2d_packed};
use crate::index::{cell_at, lemma_decode, lemma_encode, lemma_row_bound, lemma_scale};
use crate::kernels::{bias_at, bias_has_len};
use crate::product::{blocked_product, group_height, packed_position, Initial, Product};
use crate::window::Window;
use vstd::prelude::*;

verus! {

/// The input cell under a kernel position, or `zero` over the padding.
fn window_cell<T: Copy>(
    zero: T,
    input: &[T],
    input_base: usize,
    window: &Window,
    output_y: usize,
    output_x: usize,
    position: usize,
) -> (result: T)
    requires
        window.reaches(output_y + 1, output_x + 1),
        position < window.size(),
        input_base + window.channels * window.plane() <= input@.len(),
    ensures
        result == window.cell(
            zero,
            input@,
            input_base as int,
            output_y as int,
            output_x as int,
            position as int,
        ),
{
    let input_len: usize = input.len();
    proof {
        if window.kernel_width == 0 || window.kernel_height == 0 {
            assert(window.channels * window.kernel_height * window.kernel_width == 0)
                by (nonlinear_arith)
                requires
                    window.kernel_width == 0 || window.kernel_height == 0,
            ;
        }
        lemma_encode(position as int, window.kernel_width as int);
        lemma_encode(position as int / window.kernel_width as int, window.kernel_height as int);
        lemma_scale(0, output_y as int, window.stride_y as int);
        lemma_scale(0, output_x as int, window.stride_x as int);
    }
    let kernel_x: usize = position % window.kernel_width;
    let row: usize = position / window.kernel_width;
    let kernel_y: usize = row % window.kernel_height;
    let channel: usize = row / window.kernel_height;
    let padded_y: usize = output_y * window.stride_y + kernel_y;
    let padded_x: usize = output_x * window.stride_x + kernel_x;
    if padded_y >= window.pad_y && padded_y - window.pad_y < window.input_height && padded_x
        >= window.pad_x && padded_x - window.pad_x < window.input_width {
        let y: usize = padded_y - window.pad_y;
        let x: usize = padded_x - window.pad_x;
        proof {
            assert(window.covers(output_y as int, output_x as int, position as int));
            window.lemma_input_at(output_y as int, output_x as int, position as int);
            lemma_row_bound(
                y as int,
                window.input_height as int,
                x as int,
                window.input_width as int,
            );
            lemma_row_bound(
                channel as int,
                window.channels as int,
                y * window.input_width + x,
                window.plane(),
            );
        }
        let plane: usize = window.input_height * window.input_width;
        input[input_base + (channel * plane + (y * window.input_width + x))]
    } else {
        zero
    }
}

/// Gathers the cells under each kernel position, one row of output cells after
/// the other, into a matrix with one row per kernel position.
pub fn im2col<T: Copy>(
    zero: T,
    input: &[T],
    input_base: usize,
    window: &Window,
    output_height: usize,
    output_width: usize,
) -> (columns: Vec<T>)
    requires
        window.reaches(output_height as int, output_width as int),
        window.size() * (output_height * output_width) <= usize::MAX,
        window.size() <= usize::MAX,
        output_height * output_width <= usize::MAX,
        input_base + window.channels * window.plane() <= input@.len(),
    ensures
        columns@.len() == window.size() * (output_height * output_width),
        forall|position: int, cell: int|
            0 <= position < window.size() && 0 <= cell < output_height * output_width
                ==> #[trigger] columns@[cell_at(0, output_height * output_width, position, cell)]
                == window.cell(
                zero,
                input@,
                input_base as int,
                cell / output_width as int,
                cell % output_width as int,
                position,
            ),
{
    proof {
        if window.channels > 0 {
            lemma_scale(1, window.channels as int, window.kernel_height as int);
            lemma_scale(
                0,
                window.channels * window.kernel_height,
                window.kernel_width as int,
            );
        }
        if window.kernel_width > 0 {
            lemma_scale(1, window.kernel_width as int, window.channels * window.kernel_height);
            assert(window.kernel_width * (window.channels * window.kernel_height)
                == window.channels * window.kernel_height * window.kernel_width)
                by (nonlinear_arith);
        }
        assert(0 * window.kernel_height == 0) by (nonlinear_arith);
        lemma_scale(0, window.channels as int, window.kernel_height as int);
    }
    let size: usize = if window.kernel_width == 0 {
        proof {
            assert(window.channels * window.kernel_height * window.kernel_width == 0)
                by (nonlinear_arith)
                requires
                    window.kernel_width == 0,
            ;
        }
        0
    } else {
        window.channels * window.kernel_height * window.kernel_width
    };
    let plane: usize = output_height * output_width;
    let mut columns: Vec<T> = Vec::with_capacity(size * plane);
    proof {
        vstd::arithmetic::mul::lemma_mul_basics(plane as int);
    }
    for position in 0..size
        invariant
            size == window.size(),
            plane == output_height * output_width,
            window.reaches(output_height as int, output_width as int),
            input_base + window.channels * window.plane() <= input@.len(),
            columns@.len() == position * plane,
            forall|p: int, cell: int|
                0 <= p < position && 0 <= cell < plane ==> #[trigger] columns@[cell_at(
                    0,
                    plane as int,
                    p,
                    cell,
                )] == window.cell(
                    zero,
                    input@,
                    input_base as int,
                    cell / output_width as int,
                    cell % output_width as int,
                    p,
                ),
    {
        for index in 0..plane
            invariant
                position < size,
                size == window.size(),
                plane == output_height * output_width,
                window.reaches(output_height as int, output_width as int),
                input_base + window.channels * window.plane() <= input@.len(),
                columns@.len() == position * plane + index,
                forall|p: int, cell: int|
                    0 <= p <= position && 0 <= cell < plane && (p < position || cell < index)
                        ==> #[trigger] columns@[cell_at(0, plane as int, p, cell)] == window.cell(
                        zero,
                        input@,
                        input_base as int,
                        cell / output_width as int,
                        cell % output_width as int,
                        p,
                    ),
        {
            proof {
                if output_width == 0 {
                    assert(output_height * output_width == 0) by (nonlinear_arith)
                        requires
                            output_width == 0,
                    ;
                }
                lemma_encode(index as int, output_width as int);
                let y = index as int / output_width as int;
                if y >= output_height {
                    lemma_scale(output_height as int, y, output_width as int);
                }
                lemma_scale(y, output_height - 1, window.stride_y as int);
                lemma_scale(
                    index as int % output_width as int,
                    output_width - 1,
                    window.stride_x as int,
                );
            }
            let value: T = window_cell(
                zero,
                input,
                input_base,
                window,
                index / output_width,
                index % output_width,
                position,
            );
            let ghost before = columns@;
            columns.push(value);
            proof {
                assert forall|p: int, cell: int|
                    0 <= p <= position && 0 <= cell < plane && (p < position || cell < index
                        + 1) implies #[trigger] columns@[cell_at(0, plane as int, p, cell)]
                    == window.cell(
                    zero,
                    input@,
                    input_base as int,
                    cell / output_width as int,
                    cell % output_width as int,
                    p,
                ) by {
                    lemma_row_bound(p, position + 1, cell, plane as int);
                    if p < position {
                        lemma_row_bound(p, position as int, cell, plane as int);
                    }
                    if p != position || cell != index {
                        assert(before[cell_at(0, plane as int, p, cell)] == columns@[cell_at(
                            0,
                            plane as int,
                            p,
                            cell,
                        )]);
                    }
                }
            }
        }
        assert((position + 1) * plane == position * plane + plane) by (nonlinear_arith);
    }
    columns
}

/// `panel` holds, for each kernel position, the cells under it from `columns`
/// neighbouring output cells; the rest of a panel row is `zero`.
pub open spec fn is_panel<T>(
    panel: Seq<T>,
    zero: T,
    input: Seq<T>,
    window: Window,
    output_y: int,
    output_x: int,
    columns: int,
) -> bool {
    forall|position: int, lane: int|
        0 <= position < window.size() && 0 <= lane < 16 ==> #[trigger] panel[cell_at(
            0,
            16,
            position,
            lane,
        )] == (if lane < columns {
            window.cell(zero, input, 0, output_y, output_x + lane, position)
        } else {
            zero
        })
}

/// Gathers the cells under the kernel from `columns` neighbouring output cells.
pub fn pack_spatial_panel<T: Copy>(
    zero: T,
    panel: &mut [T],
    input: &[T],
    window: &Window,
    output_y: usize,
    output_x: usize,
    columns: usize,
)
    requires
        columns <= 16,
        window.reaches(output_y + 1, output_x + columns),
        output_x + columns <= usize::MAX,
        old(panel)@.len() == window.size() * 16,
        input@.len() == window.channels * window.plane(),
    ensures
        final(panel)@.len() == old(panel)@.len(),
        is_panel(
            final(panel)@,
            zero,
            input@,
            *window,
            output_y as int,
            output_x as int,
            columns as int,
        ),
{
    let panel_len: usize = panel.len();
    let size: usize = panel_len / 16;
    for position in 0..size
        invariant
            columns <= 16,
            size == window.size(),
            panel_len == panel@.len(),
            panel_len == size * 16,
            window.reaches(output_y + 1, output_x + columns),
            output_x + columns <= usize::MAX,
            input@.len() == window.channels * window.plane(),
            forall|p: int, lane: int|
                0 <= p < position && 0 <= lane < 16 ==> #[trigger] panel@[cell_at(0, 16, p, lane)]
                    == (if lane < columns {
                    window.cell(zero, input@, 0, output_y as int, output_x + lane, p)
                } else {
                    zero
                }),
    {
        for lane in 0..16usize
            invariant
                position < size,
                columns <= 16,
                size == window.size(),
                panel_len == panel@.len(),
                panel_len == size * 16,
                window.reaches(output_y + 1, output_x + columns),
                output_x + columns <= usize::MAX,
                input@.len() == window.channels * window.plane(),
                forall|p: int, l: int|
                    0 <= p <= position && 0 <= l < 16 && (p < position || l < lane)
                        ==> #[trigger] panel@[cell_at(0, 16, p, l)] == (if l < columns {
                        window.cell(zero, input@, 0, output_y as int, output_x + l, p)
                    } else {
                        zero
                    }),
        {
            let value: T = if lane < columns {
                proof {
                    lemma_scale(
                        output_x + lane,
                        output_x + columns - 1,
                        window.stride_x as int,
                    );
                }
                window_cell(zero, input, 0, window, output_y, output_x + lane, position)
            } else {
                zero
            };
            panel[position * 16 + lane] = value;
        }
    }
}

/// Whether the weights, one panel and one tile of the output stay within one
/// megabyte of four-byte elements.
pub open spec fn panel_fits(weight_elements: int, patch_size: int, output_channels: int) -> bool {
    (weight_elements + patch_size * 16 + output_channels * 16) * 4 <= 1_048_576
}

/// Whether the weights, one panel and one tile of the output stay within one
/// megabyte.
pub fn spatial_panel_working_set_fits(
    weight_elements: usize,
    patch_size: usize,
    output_channels: usize,
) -> (result: bool)
    ensures
        result == panel_fits(
            weight_elements as int,
            patch_size as int,
            output_channels as int,
        ),
{
    let scratch: usize = match patch_size.checked_mul(16) {
        Some(value) => value,
        None => {
            return false;
        },
    };
    let elements: usize = match scratch.checked_add(weight_elements) {
        Some(value) => value,
        None => {
            return false;
        },
    };
    let tile: usize = match output_channels.checked_mul(16) {
        Some(value) => value,
        None => {
            return false;
        },
    };
    let total: usize = match elements.checked_add(tile) {
        Some(value) => value,
        None => {
            return false;
        },
    };
    match total.checked_mul(4) {
        Some(bytes) => bytes <= 1_048_576,
        None => false,
    }
}

/// Whether a convolution gathers panels: on one thread, with enough output
/// channels, and a small working set.
pub open spec fn uses_panels(
    single_thread: bool,
    output_channels: int,
    weight_elements: int,
    patch_size: int,
) -> bool {
    single_thread && output_channels >= 16 && panel_fits(
        weight_elements,
        patch_size,
        output_channels,
    )
}

/// The output channels that panels serve: all, but for a last pair behind full
/// groups of six.
pub open spec fn panel_rows(output_channels: int) -> int {
    if output_channels % 6 == 2 {
        output_channels - 2
    } else {
        output_channels
    }
}

/// The factor pairs of an output cell that is computed from a panel: one pair per
/// kernel position, with `zero` over the padding.
pub open spec fn patch_terms<T>(
    zero: T,
    window: Window,
    input: Seq<T>,
    weight: Seq<T>,
    output_channels: int,
    channel: int,
    output_y: int,
    output_x: int,
) -> Seq<(T, T)> {
    Seq::new(
        window.size() as nat,
        |position: int|
            (
                weight[packed_position(output_channels, window.size(), 6, channel, position)],
                window.cell(zero, input, 0, output_y, output_x, position),
            ),
    )
}

/// The factor pairs of an output cell that is computed where it stands: one pair
/// per kernel position over the input.
pub open spec fn direct_terms<T>(
    window: Window,
    input: Seq<T>,
    weight: Seq<T>,
    output_channels: int,
    channel: int,
    output_y: int,
    output_x: int,
) -> Seq<(T, T)> {
    window.all_terms(
        input,
        0,
        weight,
        packed_position(output_channels, window.size(), 6, channel, 0),
        group_height(output_channels, 6, channel),
        output_y,
        output_x,
    )
}

/// The factor pairs of an output cell of a direct spatial convolution.
pub open spec fn spatial_terms<T>(
    zero: T,
    panels: bool,
    window: Window,
    input: Seq<T>,
    weight: Seq<T>,
    output_channels: int,
    channel: int,
    output_y: int,
    output_x: int,
) -> Seq<(T, T)> {
    if panels && channel < panel_rows(output_channels) {
        patch_terms(zero, window, input, weight, output_channels, channel, output_y, output_x)
    } else {
        direct_terms(window, input, weight, output_channels, channel, output_y, output_x)
    }
}

/// One output cell is what the convolution asks for.
pub open spec fn spatial_cell<T, M: Fn(T, T, T) -> T, A: Fn(T) -> T>(
    arithmetic: &Arithmetic<T, M>,
    activation: Option<&A>,
    bias: Option<&[T]>,
    panels: bool,
    window: Window,
    input: Seq<T>,
    weight: Seq<T>,
    output_channels: int,
    channel: int,
    output_y: int,
    output_x: int,
    value: T,
) -> bool {
    fused(
        arithmetic.mul_add,
        activation,
        bias_at(arithmetic.zero, bias, channel),
        spatial_terms(
            arithmetic.zero,
            panels,
            window,
            input,
            weight,
            output_channels,
            channel,
            output_y,
            output_x,
        ),
        value,
    )
}

/// The operands of a direct spatial convolution belong together.
pub open spec fn spatial_valid<T>(
    window: Window,
    output_channels: int,
    output_height: int,
    output_width: int,
    output_len: int,
    input_len: int,
    weight_len: int,
    bias: Option<&[T]>,
) -> bool {
    &&& output_channels > 0 && output_channels % 4 == 0
    &&& output_height > 0 && output_width > 0
    &&& window.size() > 0
    &&& window.reaches(output_height, output_width)
    &&& window.size() * 16 <= usize::MAX
    &&& input_len == window.channels * window.plane()
    &&& output_len == output_channels * (output_height * output_width)
    &&& weight_len == output_channels * window.size()
    &&& bias_has_len(bias, output_channels)
}

/// Rows before a last pair keep their place when the pair is left out.
proof fn lemma_panel_rows(output_channels: int, inner: int, channel: int, position: int)
    requires
        0 < output_channels,
        output_channels % 4 == 0,
        0 <= channel < panel_rows(output_channels),
    ensures
        0 < panel_rows(output_channels) <= output_channels,
        packed_position(output_channels, inner, 6, channel, position) == packed_position(
            panel_rows(output_channels),
            inner,
            6,
            channel,
            position,
        ),
{
    lemma_encode(channel, 6);
    lemma_encode(output_channels, 6);
}

/// Convolves from panels, and the last pair of output channels where it stands.
#[verifier::spinoff_prover]
fn spatial_conv2d_micro_panels<T: Copy, M: Fn(T, T, T) -> T, A: Fn(T) -> T>(
    arithmetic: &Arithmetic<T, M>,
    output: &mut [T],
    input: &[T],
    weight: &[T],
    bias: Option<&[T]>,
    window: &Window,
    output_channels: usize,
    output_height: usize,
    output_width: usize,
    activation: Option<&A>,
)
    requires
        arithmetic.valid(),
        activation_valid(activation),
        spatial_valid(
            *window,
            output_channels as int,
            output_height as int,
            output_width as int,
            old(output)@.len() as int,
            input@.len() as int,
            weight@.len() as int,
            bias,
        ),
    ensures
        final(output)@.len() == old(output)@.len(),
        forall|channel: int, cell: int|
            0 <= channel < output_channels && 0 <= cell < output_height * output_width
                ==> spatial_cell(
                arithmetic,
                activation,
                bias,
                true,
                *window,
                input@,
                weight@,
                output_channels as int,
                channel,
                cell / output_width as int,
                cell % output_width as int,
                #[trigger] final(output)@[cell_at(
                    0,
                    output_height * output_width,
                    channel,
                    cell,
                )],
            ),
{
    let output_len: usize = output.len();
    let weight_len: usize = weight.len();
    let ghost size = window.size();
    let ghost area = output_height * output_width;
    proof {
        assert(0 < area) by (nonlinear_arith)
            requires
                area == output_height * output_width,
                0 < output_height,
                0 < output_width,
        ;
        lemma_scale(1, output_channels as int, area);
        lemma_scale(1, output_channels as int, size);
        lemma_panel_rows(output_channels as int, size, 0, 0);
        lemma_scale(1, output_height as int, output_width as int);
    }
    let patch_size: usize = weight_len / output_channels;
    proof {
        lemma_decode(size, 0, output_channels as int);
        assert(size * output_channels == output_channels * size) by (nonlinear_arith);
    }
    let plane: usize = output_height * output_width;
    let rows: usize = if output_channels % 6 == 2 {
        output_channels - 2
    } else {
        output_channels
    };
    let mut panel: Vec<T> = Vec::new();
    for _index in 0..patch_size * 16
        invariant
            panel@.len() == _index,
    {
        panel.push(arithmetic.zero);
    }
    let initial: Initial<'_, T> = match bias {
        Some(values) => Initial::PerRow(values, 0),
        None => Initial::Constant(arithmetic.zero),
    };
    let mut start: usize = 0;
    let mut output_y: usize = 0;
    proof {
        vstd::arithmetic::mul::lemma_mul_basics(output_width as int);
    }
    while output_y < output_height
        invariant
            arithmetic.valid(),
            activation_valid(activation),
            spatial_valid(
                *window,
                output_channels as int,
                output_height as int,
                output_width as int,
                output@.len() as int,
                input@.len() as int,
                weight@.len() as int,
                bias,
            ),
            output_len == output@.len(),
            weight_len == weight@.len(),
            size == window.size(),
            patch_size == size,
            plane == area,
            area == output_height * output_width,
            output_width <= area,
            rows == panel_rows(output_channels as int),
            0 < rows <= output_channels,
            panel@.len() == size * 16,
            initial == match bias {
                Some(values) => Initial::PerRow(values, 0),
                None => Initial::Constant(arithmetic.zero),
            },
            output_y <= output_height,
            start == output_y * output_width,
            forall|channel: int, cell: int|
                0 <= channel < rows && 0 <= cell < start ==> spatial_cell(
                    arithmetic,
                    activation,
                    bias,
                    true,
                    *window,
                    input@,
                    weight@,
                    output_channels as int,
                    channel,
                    cell / output_width as int,
                    cell % output_width as int,
                    #[trigger] output@[cell_at(0, area, channel, cell)],
                ),
        decreases output_height - output_y,
    {
        proof {
            lemma_row_bound(output_y as int, output_height as int, 0, output_width as int);
            lemma_scale(
                output_y as int,
                output_height - 1,
                window.stride_y as int,
            );
        }
        let mut output_x: usize = 0;
        while output_x < output_width
            invariant
                arithmetic.valid(),
                activation_valid(activation),
                spatial_valid(
                    *window,
                    output_channels as int,
                    output_height as int,
                    output_width as int,
                    output@.len() as int,
                    input@.len() as int,
                    weight@.len() as int,
                    bias,
                ),
                output_len == output@.len(),
                weight_len == weight@.len(),
                size == window.size(),
                patch_size == size,
                plane == area,
                area == output_height * output_width,
                output_width <= area,
                rows == panel_rows(output_channels as int),
                0 < rows <= output_channels,
                panel@.len() == size * 16,
                initial == match bias {
                    Some(values) => Initial::PerRow(values, 0),
                    None => Initial::Constant(arithmetic.zero),
                },
                output_y < output_height,
                start == output_y * output_width,
                start + output_width <= area,
                output_y * window.stride_y + window.kernel_height <= usize::MAX,
                output_x <= output_width,
                forall|channel: int, cell: int|
                    0 <= channel < rows && 0 <= cell < start + output_x ==> spatial_cell(
                        arithmetic,
                        activation,
                        bias,
                        true,
                        *window,
                        input@,
                        weight@,
                        output_channels as int,
                        channel,
                        cell / output_width as int,
                        cell % output_width as int,
                        #[trigger] output@[cell_at(0, area, channel, cell)],
                    ),
            decreases output_width - output_x,
        {
            let columns: usize = if output_width - output_x < 16 {
                output_width - output_x
            } else {
                16
            };
            proof {
                lemma_scale(
                    output_x + columns - 1,
                    output_width - 1,
                    window.stride_x as int,
                );
                lemma_scale(rows as int, output_channels as int, size);
                lemma_scale(rows as int, output_channels as int, area);
                assert((rows - 1) * area + area == rows * area) by (nonlinear_arith);
            }
            pack_spatial_panel(
                arithmetic.zero,
                panel.as_mut_slice(),
                input,
                window,
                output_y,
                output_x,
                columns,
            );
            let product: Product = Product {
                rows,
                inner: patch_size,
                columns,
                output_start: start + output_x,
                output_stride: plane,
                right_start: 0,
                right_stride: 16,
                packed_left: true,
                block_rows: 6,
                depth_block: patch_size,
            };
            let ghost before = output@;
            blocked_product(
                arithmetic,
                output,
                weight,
                panel.as_slice(),
                product,
                initial,
                activation,
            );
            proof {
                assert forall|channel: int, cell: int|
                    0 <= channel < rows && 0 <= cell < start + output_x + columns implies spatial_cell(
                    arithmetic,
                    activation,
                    bias,
                    true,
                    *window,
                    input@,
                    weight@,
                    output_channels as int,
                    channel,
                    cell / output_width as int,
                    cell % output_width as int,
                    #[trigger] output@[cell_at(0, area, channel, cell)],
                ) by {
                    let position = cell_at(0, area, channel, cell);
                    lemma_row_bound(channel, output_channels as int, cell, area);
                    if cell < start + output_x {
                        assert(!product.writes(position)) by {
                            let d = position - product.output_start;
                            if d >= 0 {
                                let wrapped = area + cell - product.output_start;
                                assert((channel - 1) * area + wrapped == d) by (nonlinear_arith)
                                    requires
                                        d == channel * area + cell - product.output_start,
                                        wrapped == area + cell - product.output_start,
                                ;
                                lemma_decode(channel - 1, wrapped, area);
                            }
                        }
                        assert(output@[position] == before[position]);
                    } else {
                        let lane = cell - (start + output_x);
                        assert(product.output_at(channel, lane) == position);
                        assert(fused(
                            arithmetic.mul_add,
                            activation,
                            initial.value(channel, lane, before[position]),
                            product.terms(weight@, panel@, channel, lane),
                            output@[position],
                        ));
                        lemma_decode(output_y as int, output_x + lane, output_width as int);
                        let expected = patch_terms(
                            arithmetic.zero,
                            *window,
                            input@,
                            weight@,
                            output_channels as int,
                            channel,
                            cell / output_width as int,
                            cell % output_width as int,
                        );
                        let found = product.terms(weight@, panel@, channel, lane);
                        assert forall|k: int| 0 <= k < size implies found[k] == expected[k] by {
                            lemma_panel_rows(output_channels as int, size, channel, k);
                            assert(panel@[cell_at(0, 16, k, lane)] == window.cell(
                                arithmetic.zero,
                                input@,
                                0,
                                output_y as int,
                                output_x + lane,
                                k,
                            ));
                        }
                        assert(found =~= expected);
                    }
                }
            }
            output_x = output_x + columns;
        }
        proof {
            assert((output_y + 1) * output_width == output_y * output_width + output_width)
                by (nonlinear_arith);
        }
        start = start + output_width;
        output_y = output_y + 1;
    }
    if rows < output_channels {
        let ghost before = output@;
        proof {
            lemma_scale(rows as int, output_channels as int, size);
            lemma_scale(rows as int, output_channels as int, area);
            lemma_scale(0, rows as int, size);
            lemma_scale(0, rows as int, area);
            assert((rows + 2) * area == rows * area + 2 * area) by (nonlinear_arith);
            assert((rows + 2) * size == rows * size + 2 * size) by (nonlinear_arith);
        }
        spatial_conv2d_packed(
            arithmetic,
            output,
            rows * plane,
            input,
            weight,
            rows * patch_size,
            window,
            2,
            output_height,
            output_width,
            bias,
            rows,
            activation,
        );
        proof {
            assert forall|channel: int, cell: int|
                0 <= channel < output_channels && 0 <= cell < area implies spatial_cell(
                arithmetic,
                activation,
                bias,
                true,
                *window,
                input@,
                weight@,
                output_channels as int,
                channel,
                cell / output_width as int,
                cell % output_width as int,
                #[trigger] output@[cell_at(0, area, channel, cell)],
            ) by {
                let position = cell_at(0, area, channel, cell);
                if channel < rows {
                    lemma_row_bound(channel, rows as int, cell, area);
                    assert(output@[position] == before[position]);
                } else {
                    let lane = channel - rows;
                    assert(convolved_rows(
                        arithmetic.mul_add,
                        activation,
                        *window,
                        input@,
                        0,
                        weight@,
                        rows * patch_size + lane,
                        2,
                        bias_at(arithmetic.zero, bias, rows + lane),
                        0,
                        output_height as int,
                        output_width as int,
                        rows * plane + lane * area,
                        output@,
                    ));
                    lemma_direct_cell(
                        arithmetic,
                        activation,
                        bias,
                        true,
                        *window,
                        input@,
                        weight@,
                        output_channels as int,
                        output_height as int,
                        output_width as int,
                        rows as int / 6,
                        lane,
                        cell,
                        output@,
                    );
                }
            }
        }
    }
}

/// A cell of a group of output channels that were convolved where they stand.
proof fn lemma_direct_cell<T, M: Fn(T, T, T) -> T, A: Fn(T) -> T>(
    arithmetic: &Arithmetic<T, M>,
    activation: Option<&A>,
    bias: Option<&[T]>,
    panels: bool,
    window: Window,
    input: Seq<T>,
    weight: Seq<T>,
    output_channels: int,
    output_height: int,
    output_width: int,
    group: int,
    lane: int,
    cell: int,
    output: Seq<T>,
)
    requires
        0 <= group,
        0 <= lane < group_height(output_channels, 6, group * 6),
        group * 6 + lane < output_channels,
        0 < output_width,
        0 <= cell < output_height * output_width,
        !panels || group * 6 + lane >= panel_rows(output_channels),
        convolved_rows(
            arithmetic.mul_add,
            activation,
            window,
            input,
            0,
            weight,
            group * 6 * window.size() + lane,
            group_height(output_channels, 6, group * 6),
            bias_at(arithmetic.zero, bias, group * 6 + lane),
            0,
            output_height,
            output_width,
            group * 6 * (output_height * output_width) + lane * (output_height * output_width),
            output,
        ),
    ensures
        spatial_cell(
            arithmetic,
            activation,
            bias,
            panels,
            window,
            input,
            weight,
            output_channels,
            group * 6 + lane,
            cell / output_width,
            cell % output_width,
            output[cell_at(0, output_height * output_width, group * 6 + lane, cell)],
        ),
{
    let area = output_height * output_width;
    let channel = group * 6 + lane;
    lemma_encode(cell, output_width);
    let y = cell / output_width;
    let x = cell % output_width;
    if y >= output_height {
        lemma_scale(output_height, y, output_width);
    }
    lemma_decode(group, lane, 6);
    lemma_decode(group, 0, 6);
    assert((group * 6 + lane) * area == group * 6 * area + lane * area) by (nonlinear_arith);
    assert(cell_at(group * 6 * area + lane * area, output_width, y, x) == cell_at(
        0,
        area,
        channel,
        cell,
    ));
    vstd::arithmetic::mul::lemma_mul_basics(group_height(output_channels, 6, channel));
    assert(packed_position(output_channels, window.size(), 6, channel, 0) == group * 6
        * window.size() + lane);
}

/// Convolves all input channels into all output channels. The weights are
/// interleaved in groups of six output channels.
pub fn spatial_conv2d_direct<T: Copy, M: Fn(T, T, T) -> T, A: Fn(T) -> T>(
    arithmetic: &Arithmetic<T, M>,
    single_thread: bool,
    output: &mut [T],
    input: &[T],
    weight: &[T],
    bias: Option<&[T]>,
    window: &Window,
    output_channels: usize,
    output_height: usize,
    output_width: usize,
    activation: Option<&A>,
)
    requires
        arithmetic.valid(),
        activation_valid(activation),
        spatial_valid(
            *window,
            output_channels as int,
            output_height as int,
            output_width as int,
            old(output)@.len() as int,
            input@.len() as int,
            weight@.len() as int,
            bias,
        ),
    ensures
        final(output)@.len() == old(output)@.len(),
        forall|channel: int, cell: int|
            0 <= channel < output_channels && 0 <= cell < output_height * output_width
                ==> spatial_cell(
                arithmetic,
                activation,
                bias,
                uses_panels(
                    single_thread,
                    output_channels as int,
                    weight@.len() as int,
                    window.size(),
                ),
                *window,
                input@,
                weight@,
                output_channels as int,
                channel,
                cell / output_width as int,
                cell % output_width as int,
                #[trigger] final(output)@[cell_at(
                    0,
                    output_height * output_width,
                    channel,
                    cell,
                )],
            ),
{
    let output_len: usize = output.len();
    let weight_len: usize = weight.len();
    let ghost size = window.size();
    let ghost area = output_height * output_width;
    proof {
        assert(0 < area) by (nonlinear_arith)
            requires
                area == output_height * output_width,
                0 < output_height,
                0 < output_width,
        ;
        lemma_scale(1, output_channels as int, area);
        lemma_scale(1, output_channels as int, size);
        lemma_decode(size, 0, output_channels as int);
        assert(size * output_channels == output_channels * size) by (nonlinear_arith);
    }
    let patch_size: usize = weight_len / output_channels;
    let plane: usize = output_height * output_width;
    if single_thread && output_channels >= 16 && spatial_panel_working_set_fits(
        weight_len,
        patch_size,
        output_channels,
    ) {
        spatial_conv2d_micro_panels(
            arithmetic,
            output,
            input,
            weight,
            bias,
            window,
            output_channels,
            output_height,
            output_width,
            activation,
        );
        return;
    }
    let mut row_start: usize = 0;
    let ghost mut group: int = 0;
    while row_start < output_channels
        invariant
            arithmetic.valid(),
            activation_valid(activation),
            spatial_valid(
                *window,
                output_channels as int,
                output_height as int,
                output_width as int,
                output@.len() as int,
                input@.len() as int,
                weight@.len() as int,
                bias,
            ),
            output_len == output@.len(),
            weight_len == weight@.len(),
            size == window.size(),
            patch_size == size,
            plane == area,
            area == output_height * output_width,
            0 < area,
            0 <= group,
            row_start <= output_channels,
            row_start < output_channels ==> row_start == group * 6,
            forall|channel: int, cell: int|
                0 <= channel < row_start && 0 <= cell < area ==> spatial_cell(
                    arithmetic,
                    activation,
                    bias,
                    false,
                    *window,
                    input@,
                    weight@,
                    output_channels as int,
                    channel,
                    cell / output_width as int,
                    cell % output_width as int,
                    #[trigger] output@[cell_at(0, area, channel, cell)],
                ),
        decreases output_channels - row_start,
    {
        let height: usize = if output_channels - row_start < 6 {
            output_channels - row_start
        } else {
            6
        };
        proof {
            lemma_decode(group, 0, 6);
            lemma_scale(row_start + height, output_channels as int, size);
            lemma_scale(row_start + height, output_channels as int, area);
            lemma_scale(0, row_start as int, size);
            lemma_scale(0, row_start as int, area);
            assert((row_start + height) * area == row_start * area + height * area)
                by (nonlinear_arith);
            assert((row_start + height) * size == row_start * size + height * size)
                by (nonlinear_arith);
            lemma_scale(1, height as int, area);
            lemma_scale(1, height as int, size);
        }
        let ghost before = output@;
        spatial_conv2d_packed(
            arithmetic,
            output,
            row_start * plane,
            input,
            weight,
            row_start * patch_size,
            window,
            height,
            output_height,
            output_width,
            bias,
            row_start,
            activation,
        );
        proof {
            assert forall|channel: int, cell: int|
                0 <= channel < row_start + height && 0 <= cell < area implies spatial_cell(
                arithmetic,
                activation,
                bias,
                false,
                *window,
                input@,
                weight@,
                output_channels as int,
                channel,
                cell / output_width as int,
                cell % output_width as int,
                #[trigger] output@[cell_at(0, area, channel, cell)],
            ) by {
                let position = cell_at(0, area, channel, cell);
                if channel < row_start {
                    lemma_row_bound(channel, row_start as int, cell, area);
                    assert(output@[position] == before[position]);
                } else {
                    let lane = channel - row_start;
                    assert(convolved_rows(
                        arithmetic.mul_add,
                        activation,
                        *window,
                        input@,
                        0,
                        weight@,
                        row_start * patch_size + lane,
                        height as int,
                        bias_at(arithmetic.zero, bias, row_start + lane),
                        0,
                        output_height as int,
                        output_width as int,
                        row_start * plane + lane * area,
                        output@,
                    ));
                    lemma_direct_cell(
                        arithmetic,
                        activation,
                        bias,
                        false,
                        *window,
                        input@,
                        weight@,
                        output_channels as int,
                        output_height as int,
                        output_width as int,
                        group,
                        lane,
                        cell,
                        output@,
                    );
                }
            }
            group = group + 1;
        }
        row_start = row_start + height;
    }
}

} // verus!
