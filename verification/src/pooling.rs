//! Pooling, nearest-neighbour scaling and channel-wise normalisation.
use vstd::prelude::*;
use crate::conv::lemma_product4;
use crate::index::{lemma_encode, lemma_row_bound, lemma_scale};
use crate::layout::{all_wf, conv_output_size, lemma_wf_count, shape4, views, window_count};
use crate::shape::{counts, element_count, lemma_product_bounds, lemma_product_split, product};
use crate::tensor::{DataView, Tensor, TensorData, TensorError, TensorView};
use crate::window::Window;

verus! {

/// How a pooling window moves over its input.
#[derive(Clone, Copy, Debug)]
pub struct PoolOptions {
    pub kernel: [usize; 2],
    pub strides: [usize; 2],
    /// The padding above, to the left, below, and to the right.
    pub pads: [usize; 4],
    pub ceil_mode: bool,
    /// Whether cells of the padding count where values are averaged.
    pub count_include_pad: bool,
}

/// The window of one plane.
pub open spec fn pool_window(options: PoolOptions, height: usize, width: usize) -> Window {
    Window {
        channels: 1,
        input_height: height,
        input_width: width,
        kernel_height: options.kernel@[0],
        kernel_width: options.kernel@[1],
        stride_y: options.strides@[0],
        stride_x: options.strides@[1],
        pad_y: options.pads@[0],
        pad_x: options.pads@[1],
    }
}

/// The input cells under the first `count` kernel positions, row by row.
pub open spec fn samples<F>(
    window: Window,
    input: Seq<F>,
    base: int,
    y: int,
    x: int,
    count: int,
) -> Seq<F>
    decreases count,
{
    if count <= 0 {
        Seq::empty()
    } else {
        let before = samples(window, input, base, y, x, count - 1);
        let input_y = window.input_y(y, (count - 1) / window.kernel_width as int);
        let input_x = window.input_x(x, (count - 1) % window.kernel_width as int);
        if 0 <= input_y < window.input_height && 0 <= input_x < window.input_width {
            before.push(input[base + input_y * window.input_width + input_x])
        } else {
            before
        }
    }
}

/// The dimensions of a pooled tensor, or why it is refused.
pub open spec fn pool_shape_of<F>(inputs: Seq<TensorView<F>>, options: PoolOptions) -> Result<
    Seq<usize>,
    TensorError,
> {
    if inputs.len() != 1 {
        Err(TensorError::InputCount)
    } else if inputs[0].data is I64 {
        Err(TensorError::ExpectedF32)
    } else if inputs[0].shape.len() != 4 {
        Err(TensorError::Rank)
    } else {
        let shape = inputs[0].shape;
        match window_count(
            shape[2] as int,
            options.kernel@[0] as int,
            options.strides@[0] as int,
            options.pads@[0] as int,
            options.pads@[2] as int,
            options.ceil_mode,
        ) {
            Err(error) => Err(error),
            Ok(height) => match window_count(
                shape[3] as int,
                options.kernel@[1] as int,
                options.strides@[1] as int,
                options.pads@[1] as int,
                options.pads@[3] as int,
                options.ceil_mode,
            ) {
                Err(error) => Err(error),
                Ok(width) => if !counts(seq![shape[0], shape[1], height, width]) {
                    Err(TensorError::ShapeOverflow)
                } else if shape[0] * shape[1] > 0 && options.kernel@[0] * options.kernel@[1]
                    > usize::MAX {
                    Err(TensorError::KernelTooLarge)
                } else {
                    Ok(seq![shape[0], shape[1], height, width])
                },
            },
        }
    }
}

/// The number by which a sum over a window is divided.
pub open spec fn pool_count(options: PoolOptions, covered: int) -> int {
    if options.count_include_pad {
        options.kernel@[0] * options.kernel@[1]
    } else {
        covered
    }
}

/// `value` is what the reduction may give for the window of an output cell.
pub open spec fn pools_cell<F, R: Fn(Vec<F>, usize) -> F>(
    reduce: R,
    options: PoolOptions,
    input: TensorView<F>,
    height: int,
    width: int,
    index: int,
    value: F,
) -> bool {
    let window = pool_window(options, input.shape[2], input.shape[3]);
    let plane: int = index / (height * width);
    let cell: int = index % (height * width);
    let covered = samples(
        window,
        input.data->F32_0,
        plane * (input.shape[2] * input.shape[3]),
        cell / width,
        cell % width,
        options.kernel@[0] * options.kernel@[1],
    );
    exists|list: Vec<F>|
        list@ == covered && #[trigger] call_ensures(
            reduce,
            (list, pool_count(options, covered.len() as int) as usize),
            value,
        )
}

/// Whether `result` holds what the reduction may give for every window.
pub open spec fn is_pooled<F, R: Fn(Vec<F>, usize) -> F>(
    reduce: R,
    options: PoolOptions,
    input: TensorView<F>,
    shape: Seq<usize>,
    result: TensorView<F>,
) -> bool {
    &&& result.wf()
    &&& result.shape == shape
    &&& result.data is F32
    &&& forall|index: int|
        0 <= index < result.data.len() ==> pools_cell(
            reduce,
            options,
            input,
            shape[2] as int,
            shape[3] as int,
            index,
            #[trigger] result.data->F32_0[index],
        )
}

/// The input cells under the kernel.
fn window_samples<F: Copy>(
    window: &Window,
    input: &[F],
    base: usize,
    y: usize,
    x: usize,
) -> (result: Vec<F>)
    requires
        window.kernel_height * window.kernel_width <= usize::MAX,
        window.input_height + window.pad_y <= usize::MAX,
        window.input_width + window.pad_x <= usize::MAX,
        base + window.input_height * window.input_width <= input@.len(),
    ensures
        result@ == samples(
            *window,
            input@,
            base as int,
            y as int,
            x as int,
            window.kernel_height * window.kernel_width,
        ),
        result@.len() <= window.kernel_height * window.kernel_width,
{
    let len: usize = input.len();
    let count: usize = window.kernel_height * window.kernel_width;
    let mut result: Vec<F> = Vec::new();
    for position in 0..count
        invariant
            len == input@.len(),
            count == window.kernel_height * window.kernel_width,
            window.input_height + window.pad_y <= usize::MAX,
            window.input_width + window.pad_x <= usize::MAX,
            base + window.input_height * window.input_width <= len,
            result@ == samples(
                *window,
                input@,
                base as int,
                y as int,
                x as int,
                position as int,
            ),
            result@.len() <= position,
    {
        if window.kernel_width == 0 {
            assert(count == 0) by (nonlinear_arith)
                requires
                    count == window.kernel_height * window.kernel_width,
                    window.kernel_width == 0,
            ;
        }
        let kernel_y: usize = position / window.kernel_width;
        let kernel_x: usize = position % window.kernel_width;
        proof {
            let limit: int = usize::MAX as int;
            assert(y * window.stride_y <= limit * limit) by (nonlinear_arith)
                requires
                    0 <= y <= limit,
                    0 <= window.stride_y <= limit,
            ;
            assert(x * window.stride_x <= limit * limit) by (nonlinear_arith)
                requires
                    0 <= x <= limit,
                    0 <= window.stride_x <= limit,
            ;
            assert(limit <= 0xffff_ffff_ffff_ffff);
            assert(limit * limit <= 0xffff_ffff_ffff_ffff * 0xffff_ffff_ffff_ffff)
                by (nonlinear_arith)
                requires
                    0 <= limit <= 0xffff_ffff_ffff_ffff,
            ;
        }
        let padded_y: u128 = y as u128 * window.stride_y as u128 + kernel_y as u128;
        let padded_x: u128 = x as u128 * window.stride_x as u128 + kernel_x as u128;
        let last_y: u128 = (window.pad_y + window.input_height) as u128;
        let last_x: u128 = (window.pad_x + window.input_width) as u128;
        if padded_y >= window.pad_y as u128 && padded_y < last_y && padded_x
            >= window.pad_x as u128 && padded_x < last_x {
            let input_y: usize = (padded_y - window.pad_y as u128) as usize;
            let input_x: usize = (padded_x - window.pad_x as u128) as usize;
            proof {
                assert(input_y == window.input_y(y as int, kernel_y as int));
                assert(input_x == window.input_x(x as int, kernel_x as int));
                lemma_row_bound(
                    input_y as int,
                    window.input_height as int,
                    input_x as int,
                    window.input_width as int,
                );
                lemma_scale(0, input_y as int, window.input_width as int);
            }
            result.push(input[base + input_y * window.input_width + input_x]);
        }
    }
    result
}

/// Pools the planes of a tensor. `reduce` gives the value of an output cell from
/// the input cells under the window and the number to divide by.
#[verifier::spinoff_prover]
pub fn pool<F: Copy, R: Fn(Vec<F>, usize) -> F>(
    inputs: &[Tensor<F>],
    options: &PoolOptions,
    reduce: &R,
) -> (result: Result<Tensor<F>, TensorError>)
    requires
        all_wf(inputs@),
        forall|list: Vec<F>, count: usize| #[trigger] call_requires(*reduce, (list, count)),
    ensures
        match (pool_shape_of(views(inputs@), *options), result) {
            (Err(wanted), Err(error)) => error == wanted,
            (Ok(shape), Ok(tensor)) => is_pooled(*reduce, *options, inputs@[0]@, shape, tensor@),
            _ => false,
        },
{
    if inputs.len() != 1 {
        return Err(TensorError::InputCount);
    }
    let input: &Tensor<F> = &inputs[0];
    assert(views(inputs@)[0] == input@);
    assert(input@.wf());
    let values: &[F] = match input.as_f32() {
        Err(error) => {
            return Err(error);
        },
        Ok(values) => values,
    };
    let sizes: [usize; 4] = match shape4(input.shape()) {
        Err(error) => {
            return Err(error);
        },
        Ok(sizes) => sizes,
    };
    let height: usize = match conv_output_size(
        sizes[2],
        options.kernel[0],
        options.strides[0],
        options.pads[0],
        options.pads[2],
        options.ceil_mode,
    ) {
        Err(error) => {
            return Err(error);
        },
        Ok(size) => size,
    };
    let width: usize = match conv_output_size(
        sizes[3],
        options.kernel[1],
        options.strides[1],
        options.pads[1],
        options.pads[3],
        options.ceil_mode,
    ) {
        Err(error) => {
            return Err(error);
        },
        Ok(size) => size,
    };
    let shape: Vec<usize> = vec![sizes[0], sizes[1], height, width];
    assert(shape@ =~= seq![sizes@[0], sizes@[1], height, width]);
    let total: usize = match element_count(shape.as_slice()) {
        None => {
            return Err(TensorError::ShapeOverflow);
        },
        Some(total) => total,
    };
    let mut output: Vec<F> = Vec::with_capacity(total);
    let window: Window = Window {
        channels: 1,
        input_height: sizes[2],
        input_width: sizes[3],
        kernel_height: options.kernel[0],
        kernel_width: options.kernel[1],
        stride_y: options.strides[0],
        stride_x: options.strides[1],
        pad_y: options.pads[0],
        pad_x: options.pads[1],
    };
    let ghost area: int = height * width;
    let ghost plane_size: int = sizes@[2] * sizes@[3];
    let ghost planes: int = sizes@[0] * sizes@[1];
    let len: usize = values.len();
    proof {
        lemma_wf_count(input@);
        lemma_product4(sizes@[0], sizes@[1], height, width);
        lemma_product4(sizes@[0], sizes@[1], sizes@[2], sizes@[3]);
        assert(input@.shape =~= seq![sizes@[0], sizes@[1], sizes@[2], sizes@[3]]);
        lemma_product_bounds(shape@);
        assert(total == planes * area);
        assert(len == planes * plane_size);
        assert(area > 0) by (nonlinear_arith)
            requires
                area == height * width,
                height > 0,
                width > 0,
        ;
    }
    if total == 0 {
        assert(planes == 0) by (nonlinear_arith)
            requires
                planes * area == 0,
                area > 0,
        ;
        return Ok(Tensor::new_f32(shape, output));
    }
    proof {
        assert(planes >= 1 && area <= total) by (nonlinear_arith)
            requires
                total == planes * area,
                total > 0,
                area > 0,
        ;
    }
    let kernel_cells: usize = match options.kernel[0].checked_mul(options.kernel[1]) {
        None => {
            return Err(TensorError::KernelTooLarge);
        },
        Some(cells) => cells,
    };
    proof {
        assert(plane_size <= len) by (nonlinear_arith)
            requires
                len == planes * plane_size,
                planes >= 1,
                plane_size >= 0,
        ;
        assert(plane_size >= 0) by (nonlinear_arith)
            requires
                plane_size == sizes@[2] * sizes@[3],
        ;
    }
    let cells: usize = height * width;
    let input_cells: usize = sizes[2] * sizes[3];
    for index in 0..total
        invariant
            forall|list: Vec<F>, count: usize| #[trigger] call_requires(*reduce, (list, count)),
            window == pool_window(*options, sizes@[2], sizes@[3]),
            input@.shape == seq![sizes@[0], sizes@[1], sizes@[2], sizes@[3]],
            input@.data == DataView::F32(values@),
            kernel_cells == options.kernel@[0] * options.kernel@[1],
            sizes@[2] + options.pads@[0] <= usize::MAX,
            sizes@[3] + options.pads@[1] <= usize::MAX,
            cells == height * width,
            cells > 0,
            width > 0,
            input_cells == sizes@[2] * sizes@[3],
            len == values@.len(),
            len == planes * input_cells,
            total == planes * cells,
            output@.len() == index,
            forall|i: int|
                0 <= i < index ==> pools_cell(
                    *reduce,
                    *options,
                    input@,
                    height as int,
                    width as int,
                    i,
                    #[trigger] output@[i],
                ),
    {
        let plane: usize = index / cells;
        let cell: usize = index % cells;
        proof {
            lemma_encode(index as int, cells as int);
            assert(plane < planes) by (nonlinear_arith)
                requires
                    index < planes * cells,
                    index == plane * cells + cell,
                    cell >= 0,
                    cells > 0,
            ;
            assert(plane * input_cells + input_cells <= planes * input_cells) by (nonlinear_arith)
                requires
                    plane + 1 <= planes,
                    input_cells >= 0,
            ;
            lemma_scale(0, plane as int, input_cells as int);
        }
        let list: Vec<F> = window_samples(
            &window,
            values,
            plane * input_cells,
            cell / width,
            cell % width,
        );
        let count: usize = if options.count_include_pad {
            kernel_cells
        } else {
            list.len()
        };
        let ghost kept = list;
        let value: F = reduce(list, count);
        assert(call_ensures(*reduce, (kept, count), value));
        assert(input@.shape[2] == sizes@[2] && input@.shape[3] == sizes@[3]);
        assert(input@.data->F32_0 == values@);
        assert(kept@ == samples(
            window,
            values@,
            plane * (input@.shape[2] * input@.shape[3]),
            cell as int / width as int,
            cell as int % width as int,
            options.kernel@[0] * options.kernel@[1],
        ));
        assert(count == pool_count(*options, kept@.len() as int) as usize);
        assert(pools_cell(
            *reduce,
            *options,
            input@,
            height as int,
            width as int,
            index as int,
            value,
        ));
        output.push(value);
    }
    Ok(Tensor::new_f32(shape, output))
}

/// The size that a scaled dimension gets, or why it is refused.
pub open spec fn size_of_request(value: i64) -> Result<usize, TensorError> {
    if value < 0 || value > usize::MAX {
        Err(TensorError::DimensionRange)
    } else {
        Ok(value as usize)
    }
}

/// Why a tensor cannot be scaled to a size; `None` where it can. Without planes
/// there are no cells to show, so that none need be there.
pub open spec fn scale_error(shape: Seq<usize>, height: usize, width: usize) -> Option<
    TensorError,
> {
    if height == 0 || width == 0 || (shape[0] > 0 && shape[1] > 0 && (shape[2] == 0 || shape[3]
        == 0)) {
        Some(TensorError::EmptyOutput)
    } else if !counts(seq![shape[0], shape[1], height, width]) {
        Some(TensorError::ShapeOverflow)
    } else {
        None
    }
}

/// The place of the cell that a cell of the scaled plane shows.
pub open spec fn nearest(shape: Seq<usize>, height: int, width: int, index: int) -> int {
    let plane: int = index / (height * width);
    let cell: int = index % (height * width);
    let y: int = (cell / width) * shape[2] / height;
    let x: int = (cell % width) * shape[3] / width;
    plane * (shape[2] * shape[3]) + (y * shape[3] + x)
}

/// The tensor scaled to a size: each cell shows the one at the same relative place.
pub open spec fn scaled<F>(input: TensorView<F>, height: usize, width: usize) -> TensorView<F> {
    let shape = seq![input.shape[0], input.shape[1], height, width];
    TensorView {
        shape,
        data: DataView::F32(
            Seq::new(
                product(shape) as nat,
                |index: int|
                    input.data->F32_0[nearest(input.shape, height as int, width as int, index)],
            ),
        ),
    }
}

/// Scales the planes of a tensor to a size.
#[verifier::spinoff_prover]
pub fn scale_nearest<F: Copy>(input: &Tensor<F>, height: usize, width: usize) -> (result: Result<
    Tensor<F>,
    TensorError,
>)
    requires
        input@.wf(),
        input@.shape.len() == 4,
        input@.data is F32,
    ensures
        match result {
            Ok(tensor) => scale_error(input@.shape, height, width) is None && tensor@.wf()
                && tensor@ == scaled(input@, height, width),
            Err(error) => scale_error(input@.shape, height, width) == Some(error),
        },
{
    let source: &[usize] = input.shape();
    let values: &[F] = match input.as_f32() {
        Err(error) => {
            return Err(error);
        },
        Ok(values) => values,
    };
    let input_height: usize = source[2];
    let input_width: usize = source[3];
    if height == 0 || width == 0 || (source[0] > 0 && source[1] > 0 && (input_height == 0
        || input_width == 0)) {
        return Err(TensorError::EmptyOutput);
    }
    let shape: Vec<usize> = vec![source[0], source[1], height, width];
    assert(shape@ =~= seq![source@[0], source@[1], height, width]);
    let total: usize = match element_count(shape.as_slice()) {
        None => {
            return Err(TensorError::ShapeOverflow);
        },
        Some(total) => total,
    };
    let ghost planes: int = source@[0] * source@[1];
    let ghost area: int = height * width;
    let ghost plane_size: int = input_height * input_width;
    let len: usize = values.len();
    let mut output: Vec<F> = Vec::with_capacity(total);
    let ghost wanted = scaled(input@, height, width);
    proof {
        lemma_wf_count(input@);
        lemma_product4(source@[0], source@[1], height, width);
        lemma_product4(source@[0], source@[1], source@[2], source@[3]);
        assert(source@ =~= seq![source@[0], source@[1], source@[2], source@[3]]);
        lemma_product_bounds(shape@);
        assert(area > 0) by (nonlinear_arith)
            requires
                area == height * width,
                height > 0,
                width > 0,
        ;
    }
    if total == 0 {
        assert(wanted.data->F32_0 =~= output@);
        return Ok(Tensor::new_f32(shape, output));
    }
    proof {
        assert(source@[0] > 0 && source@[1] > 0) by (nonlinear_arith)
            requires
                total == source@[0] * source@[1] * area,
                total > 0,
        ;
        assert(plane_size > 0) by (nonlinear_arith)
            requires
                plane_size == input_height * input_width,
                input_height > 0,
                input_width > 0,
        ;
    }
    proof {
        assert(planes >= 1 && area <= total) by (nonlinear_arith)
            requires
                total == planes * area,
                total > 0,
                area > 0,
        ;
        assert(plane_size <= len) by (nonlinear_arith)
            requires
                len == planes * plane_size,
                planes >= 1,
                plane_size >= 0,
        ;
    }
    let cells: usize = height * width;
    let input_cells: usize = input_height * input_width;
    for index in 0..total
        invariant
            wanted == scaled(input@, height, width),
            input@.shape == source@,
            input@.data == DataView::F32(values@),
            input_height == source@[2],
            input_width == source@[3],
            input_height > 0,
            input_width > 0,
            height > 0,
            width > 0,
            cells == height * width,
            cells > 0,
            input_cells == input_height * input_width,
            len == values@.len(),
            len == planes * input_cells,
            total == planes * cells,
            wanted.data->F32_0.len() == total,
            output@ == wanted.data->F32_0.take(index as int),
    {
        let plane: usize = index / cells;
        let cell: usize = index % cells;
        let output_y: usize = cell / width;
        let output_x: usize = cell % width;
        proof {
            lemma_encode(index as int, cells as int);
            lemma_encode(cell as int, width as int);
            assert(plane < planes) by (nonlinear_arith)
                requires
                    index < planes * cells,
                    index == plane * cells + cell,
                    cell >= 0,
                    cells > 0,
            ;
            assert(output_y < height) by (nonlinear_arith)
                requires
                    cell < height * width,
                    cell == output_y * width + output_x,
                    output_x >= 0,
                    width > 0,
            ;
            lemma_nearest_bound(output_y as int, height as int, input_height as int);
            lemma_nearest_bound(output_x as int, width as int, input_width as int);
            let limit: int = usize::MAX as int;
            assert(output_y * input_height <= limit * limit) by (nonlinear_arith)
                requires
                    0 <= output_y <= limit,
                    0 <= input_height <= limit,
            ;
            assert(output_x * input_width <= limit * limit) by (nonlinear_arith)
                requires
                    0 <= output_x <= limit,
                    0 <= input_width <= limit,
            ;
            assert(limit * limit <= 0xffff_ffff_ffff_ffff * 0xffff_ffff_ffff_ffff)
                by (nonlinear_arith)
                requires
                    0 <= limit <= 0xffff_ffff_ffff_ffff,
            ;
        }
        let y: usize = (output_y as u128 * input_height as u128 / height as u128) as usize;
        let x: usize = (output_x as u128 * input_width as u128 / width as u128) as usize;
        proof {
            lemma_row_bound(y as int, input_height as int, x as int, input_width as int);
            lemma_row_bound(
                plane as int,
                planes,
                y * input_width + x,
                input_cells as int,
            );
            lemma_scale(0, y as int, input_width as int);
            lemma_scale(0, plane as int, input_cells as int);
        }
        output.push(values[plane * input_cells + (y * input_width + x)]);
        proof {
            assert(wanted.data->F32_0[index as int] == values@[nearest(
                source@,
                height as int,
                width as int,
                index as int,
            )]);
            assert(output@ =~= wanted.data->F32_0.take(index + 1));
        }
    }
    assert(wanted.data->F32_0.take(total as int) =~= wanted.data->F32_0);
    Ok(Tensor::new_f32(shape, output))
}

proof fn lemma_nearest_bound(place: int, size: int, source: int)
    requires
        0 <= place < size,
        0 < source,
    ensures
        0 <= place * source / size < source,
        0 <= place * source,
{
    assert(0 <= place * source < size * source) by (nonlinear_arith)
        requires
            0 <= place < size,
            0 < source,
    ;
    let quotient = place * source / size;
    lemma_encode(place * source, size);
    assert(0 <= quotient < source) by (nonlinear_arith)
        requires
            place * source == quotient * size + place * source % size,
            0 <= place * source % size < size,
            0 <= place * source < size * source,
            0 < size,
    ;
}

/// Why a tensor cannot be resized; `None` where it can. The last input tells
/// the size, or factors for it.
pub open spec fn resize_error<F>(inputs: Seq<TensorView<F>>) -> Option<TensorError> {
    if inputs.len() < 3 {
        Some(TensorError::InputCount)
    } else if inputs[0].data is I64 {
        Some(TensorError::ExpectedF32)
    } else if inputs[0].shape.len() != 4 {
        Some(TensorError::Rank)
    } else if inputs.last().data.len() != 4 {
        Some(TensorError::LengthMismatch)
    } else {
        match inputs.last().data {
            DataView::I64(sizes) => match (size_of_request(sizes[2]), size_of_request(sizes[3])) {
                (Err(error), _) => Some(error),
                (_, Err(error)) => Some(error),
                (Ok(height), Ok(width)) => scale_error(inputs[0].shape, height, width),
            },
            DataView::F32(_) => None,
        }
    }
}

/// Whether `result` is what resizing gives.
pub open spec fn is_resized<F, S: Fn(usize, F) -> usize>(
    scale: S,
    inputs: Seq<TensorView<F>>,
    result: Result<TensorView<F>, TensorError>,
) -> bool {
    if resize_error(inputs) is Some {
        result == Err::<TensorView<F>, TensorError>(resize_error(inputs)->Some_0)
    } else {
        let input = inputs[0];
        match inputs.last().data {
            DataView::I64(sizes) => result == Ok::<TensorView<F>, TensorError>(
                scaled(input, sizes[2] as usize, sizes[3] as usize),
            ),
            DataView::F32(factors) => exists|height: usize, width: usize|
                call_ensures(scale, (input.shape[2], factors[2]), height) && #[trigger] call_ensures(
                    scale,
                    (input.shape[3], factors[3]),
                    width,
                ) && #[trigger] is_scaled(input, height, width, result),
        }
    }
}

/// Whether `result` is what scaling to a size gives.
pub open spec fn is_scaled<F>(
    input: TensorView<F>,
    height: usize,
    width: usize,
    result: Result<TensorView<F>, TensorError>,
) -> bool {
    result == match scale_error(input.shape, height, width) {
        Some(error) => Err::<TensorView<F>, TensorError>(error),
        None => Ok(scaled(input, height, width)),
    }
}

/// What a result holds.
pub open spec fn view_of<F>(result: Result<Tensor<F>, TensorError>) -> Result<
    TensorView<F>,
    TensorError,
> {
    match result {
        Ok(tensor) => Ok(tensor@),
        Err(error) => Err(error),
    }
}

fn requested(value: i64) -> (result: Result<usize, TensorError>)
    ensures
        result == size_of_request(value),
{
    if value < 0 || value as u64 > usize::MAX as u64 {
        Err(TensorError::DimensionRange)
    } else {
        Ok(value as usize)
    }
}

/// Resizes the planes of a tensor to the size that the last input tells.
/// `scale` gives the size of a dimension from a factor.
pub fn resize<F: Copy, S: Fn(usize, F) -> usize>(
    inputs: &[Tensor<F>],
    scale: &S,
) -> (result: Result<Tensor<F>, TensorError>)
    requires
        all_wf(inputs@),
        forall|size: usize, factor: F| #[trigger] call_requires(*scale, (size, factor)),
    ensures
        is_resized(*scale, views(inputs@), view_of(result)),
        result matches Ok(tensor) ==> tensor@.wf(),
{
    let count: usize = inputs.len();
    if count < 3 {
        return Err(TensorError::InputCount);
    }
    let input: &Tensor<F> = &inputs[0];
    let target: &Tensor<F> = &inputs[count - 1];
    assert(views(inputs@)[0] == input@);
    assert(views(inputs@).last() == target@);
    assert(input@.wf() && target@.wf());
    match input.as_f32() {
        Err(error) => {
            return Err(error);
        },
        Ok(_) => {},
    }
    let sizes: [usize; 4] = match shape4(input.shape()) {
        Err(error) => {
            return Err(error);
        },
        Ok(sizes) => sizes,
    };
    match target.data() {
        TensorData::I64(values) => {
            if values.len() != 4 {
                return Err(TensorError::LengthMismatch);
            }
            let height: usize = match requested(values[2]) {
                Err(error) => {
                    return Err(error);
                },
                Ok(height) => height,
            };
            let width: usize = match requested(values[3]) {
                Err(error) => {
                    return Err(error);
                },
                Ok(width) => width,
            };
            scale_nearest(input, height, width)
        },
        TensorData::F32(values) => {
            if values.len() != 4 {
                return Err(TensorError::LengthMismatch);
            }
            let height: usize = scale(sizes[2], values[2]);
            let width: usize = scale(sizes[3], values[3]);
            let result: Result<Tensor<F>, TensorError> = scale_nearest(input, height, width);
            proof {
                assert(call_ensures(*scale, (input@.shape[2], values@[2]), height));
                assert(call_ensures(*scale, (input@.shape[3], values@[3]), width));
                assert(is_scaled(input@, height, width, view_of(result)));
            }
            result
        },
    }
}

/// Scaling to the size that a tensor has gives the tensor itself.
pub proof fn lemma_scaled_same<F>(input: TensorView<F>)
    requires
        input.wf(),
        input.shape.len() == 4,
        input.data is F32,
    ensures
        scaled(input, input.shape[2], input.shape[3]) == input,
{
    let shape = input.shape;
    let result = scaled(input, shape[2], shape[3]);
    lemma_wf_count(input);
    assert(result.shape =~= shape);
    let height: int = shape[2] as int;
    let width: int = shape[3] as int;
    let values = input.data->F32_0;
    let copied = result.data->F32_0;
    assert(copied.len() == values.len());
    assert forall|index: int| 0 <= index < copied.len() implies copied[index] == values[index] by {
        let area: int = height * width;
        lemma_product4(shape[0], shape[1], shape[2], shape[3]);
        assert(shape =~= seq![shape[0], shape[1], shape[2], shape[3]]);
        if height == 0 || width == 0 {
            assert(shape[0] * shape[1] * area == 0) by (nonlinear_arith)
                requires
                    area == height * width,
                    height == 0 || width == 0,
            ;
        }
        assert(area > 0) by (nonlinear_arith)
            requires
                area == height * width,
                height > 0,
                width > 0,
        ;
        let cell: int = index % area;
        lemma_encode(index, area);
        lemma_encode(cell, width);
        vstd::arithmetic::div_mod::lemma_div_by_multiple(cell / width, height);
        vstd::arithmetic::div_mod::lemma_div_by_multiple(cell % width, width);
    }
    assert(copied =~= values);
}

/// Why a normalisation is refused; `None` where it is not.
pub open spec fn normalization_error<F>(inputs: Seq<TensorView<F>>) -> Option<TensorError> {
    if inputs.len() != 5 {
        Some(TensorError::InputCount)
    } else if inputs[0].shape.len() < 2 {
        Some(TensorError::Rank)
    } else if !counts(inputs[0].shape.skip(2)) {
        Some(TensorError::ShapeOverflow)
    } else if inputs[1].data is I64 || inputs[2].data is I64 || inputs[3].data is I64
        || inputs[4].data is I64 {
        Some(TensorError::ExpectedF32)
    } else if inputs[1].data.len() != inputs[0].shape[1] || inputs[2].data.len()
        != inputs[0].shape[1] || inputs[3].data.len() != inputs[0].shape[1]
        || inputs[4].data.len() != inputs[0].shape[1] {
        Some(TensorError::ShapeMismatch)
    } else if inputs[0].data is I64 {
        Some(TensorError::ExpectedF32)
    } else if product(inputs[0].shape.skip(2)) == 0 {
        Some(TensorError::EmptyOutput)
    } else {
        None
    }
}

/// Whether each channel has the factor and offset of its parameters.
pub open spec fn folds_parameters<F, P: Fn(F, F, F, F) -> (F, F)>(
    parameters: P,
    scale: Seq<F>,
    bias: Seq<F>,
    mean: Seq<F>,
    variance: Seq<F>,
    folded: Seq<(F, F)>,
) -> bool {
    &&& folded.len() == scale.len()
    &&& forall|channel: int|
        0 <= channel < folded.len() ==> call_ensures(
            parameters,
            (scale[channel], bias[channel], mean[channel], variance[channel]),
            #[trigger] folded[channel],
        )
}

/// Whether every value is multiplied and shifted by its channel's parameters.
pub open spec fn is_normalized<F, M: Fn(F, F, F) -> F>(
    mul_add: M,
    input: TensorView<F>,
    folded: Seq<(F, F)>,
    result: TensorView<F>,
) -> bool {
    &&& result.wf()
    &&& result.shape == input.shape
    &&& result.data is F32
    &&& result.data.len() == input.data.len()
    &&& forall|i: int|
        0 <= i < input.data.len() ==> {
            let channel = i / product(input.shape.skip(2)) % (input.shape[1] as int);
            call_ensures(
                mul_add,
                (input.data->F32_0[i], folded[channel].0, folded[channel].1),
                #[trigger] result.data->F32_0[i],
            )
        }
}

/// Normalises each channel. `parameters` gives a channel's factor and offset
/// from its scale, bias, mean and variance.
#[verifier::spinoff_prover]
pub fn batch_normalization<F: Copy, P: Fn(F, F, F, F) -> (F, F), M: Fn(F, F, F) -> F>(
    inputs: &[Tensor<F>],
    parameters: &P,
    mul_add: &M,
) -> (result: Result<Tensor<F>, TensorError>)
    requires
        all_wf(inputs@),
        forall|a: F, b: F, c: F, d: F| #[trigger] call_requires(*parameters, (a, b, c, d)),
        forall|a: F, b: F, c: F| #[trigger] call_requires(*mul_add, (a, b, c)),
    ensures
        match result {
            Ok(tensor) => {
                &&& normalization_error(views(inputs@)) is None
                &&& exists|folded: Seq<(F, F)>| #[trigger]
                    folds_parameters(
                        *parameters,
                        inputs@[1]@.data->F32_0,
                        inputs@[2]@.data->F32_0,
                        inputs@[3]@.data->F32_0,
                        inputs@[4]@.data->F32_0,
                        folded,
                    ) && is_normalized(*mul_add, inputs@[0]@, folded, tensor@)
            },
            Err(error) => normalization_error(views(inputs@)) == Some(error),
        },
{
    if inputs.len() != 5 {
        return Err(TensorError::InputCount);
    }
    let input: &Tensor<F> = &inputs[0];
    assert(views(inputs@)[0] == input@);
    assert(views(inputs@)[1] == inputs@[1]@);
    assert(views(inputs@)[2] == inputs@[2]@);
    assert(views(inputs@)[3] == inputs@[3]@);
    assert(views(inputs@)[4] == inputs@[4]@);
    assert(input@.wf() && inputs@[1]@.wf() && inputs@[2]@.wf() && inputs@[3]@.wf()
        && inputs@[4]@.wf());
    let shape: &[usize] = input.shape();
    let rank: usize = shape.len();
    if rank < 2 {
        return Err(TensorError::Rank);
    }
    let channels: usize = shape[1];
    let tail: &[usize] = vstd::slice::slice_subrange(shape, 2, rank);
    assert(tail@ =~= shape@.skip(2));
    let size: usize = match element_count(tail) {
        None => {
            return Err(TensorError::ShapeOverflow);
        },
        Some(size) => size,
    };
    proof {
        lemma_product_bounds(tail@);
        assert(tail@.take(tail@.len() as int) =~= tail@);
    }
    let scale: &[F] = match inputs[1].as_f32() {
        Err(error) => {
            return Err(error);
        },
        Ok(values) => values,
    };
    let bias: &[F] = match inputs[2].as_f32() {
        Err(error) => {
            return Err(error);
        },
        Ok(values) => values,
    };
    let mean: &[F] = match inputs[3].as_f32() {
        Err(error) => {
            return Err(error);
        },
        Ok(values) => values,
    };
    let variance: &[F] = match inputs[4].as_f32() {
        Err(error) => {
            return Err(error);
        },
        Ok(values) => values,
    };
    if scale.len() != channels || bias.len() != channels || mean.len() != channels || variance.len()
        != channels {
        return Err(TensorError::ShapeMismatch);
    }
    let values: &[F] = match input.as_f32() {
        Err(error) => {
            return Err(error);
        },
        Ok(values) => values,
    };
    if size == 0 {
        return Err(TensorError::EmptyOutput);
    }
    let mut folded: Vec<(F, F)> = Vec::with_capacity(channels);
    for channel in 0..channels
        invariant
            forall|a: F, b: F, c: F, d: F| #[trigger] call_requires(*parameters, (a, b, c, d)),
            scale@.len() == channels,
            bias@.len() == channels,
            mean@.len() == channels,
            variance@.len() == channels,
            folded@.len() == channel,
            forall|c: int|
                0 <= c < channel ==> call_ensures(
                    *parameters,
                    (scale@[c], bias@[c], mean@[c], variance@[c]),
                    #[trigger] folded@[c],
                ),
    {
        let pair: (F, F) = parameters(scale[channel], bias[channel], mean[channel], variance[channel]);
        folded.push(pair);
    }
    assert(folds_parameters(*parameters, scale@, bias@, mean@, variance@, folded@));
    let total: usize = values.len();
    proof {
        lemma_wf_count(input@);
        lemma_product_split(shape@, 2);
        if channels == 0 {
            let head = shape@.take(2);
            assert(head.last() == 0);
            assert(product(head) == 0) by (nonlinear_arith)
                requires
                    product(head) == product(head.drop_last()) * 0,
            ;
            assert(total == 0) by (nonlinear_arith)
                requires
                    total == product(head) * product(tail@),
                    product(head) == 0,
            ;
        }
    }
    let mut output: Vec<F> = Vec::with_capacity(total);
    for index in 0..total
        invariant
            forall|a: F, b: F, c: F| #[trigger] call_requires(*mul_add, (a, b, c)),
            total == values@.len(),
            total > 0 ==> channels > 0,
            size > 0,
            size == product(shape@.skip(2)),
            channels == shape@[1],
            folded@.len() == channels,
            output@.len() == index,
            forall|i: int|
                0 <= i < index ==> {
                    let channel = i / product(shape@.skip(2)) % (shape@[1] as int);
                    call_ensures(
                        *mul_add,
                        (values@[i], folded@[channel].0, folded@[channel].1),
                        #[trigger] output@[i],
                    )
                },
    {
        let channel: usize = index / size % channels;
        let value: F = mul_add(values[index], folded[channel].0, folded[channel].1);
        output.push(value);
    }
    let tensor: Tensor<F> = Tensor::new_f32(vstd::slice::slice_to_vec(shape), output);
    assert(is_normalized(*mul_add, input@, folded@, tensor@));
    Ok(tensor)
}

} // verus!
