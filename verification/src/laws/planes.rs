//! What enlarging, pooling and normalizing planes are for.
use vstd::prelude::*;
use crate::conv::lemma_product4;
use crate::index::{lemma_decode, lemma_encode, lemma_row_bound, lemma_scale};
use crate::layout::{lemma_wf_count, window_count};
use crate::pooling::{
    is_pooled, pool_shape_of, pool_window, pools_cell, samples, scale_error, scaled, PoolOptions,
};
use crate::reduction::pools_planes;
use crate::tensor::{TensorError, TensorView};
use crate::window::Window;

verus! {

/// The place of a cell of the planes of a batch.
pub open spec fn plane_place(
    channels: int,
    height: int,
    width: int,
    batch: int,
    channel: int,
    y: int,
    x: int,
) -> int {
    ((batch * channels + channel) * height + y) * width + x
}

/// The plane, the row and the column are found again in the place of a cell.
pub proof fn lemma_plane_place(
    batches: int,
    channels: int,
    height: int,
    width: int,
    batch: int,
    channel: int,
    y: int,
    x: int,
)
    requires
        0 <= batch < batches,
        0 <= channel < channels,
        0 <= y < height,
        0 <= x < width,
    ensures
        ({
            let place = plane_place(channels, height, width, batch, channel, y, x);
            let plane = batch * channels + channel;
            &&& 0 <= place < batches * channels * (height * width)
            &&& 0 <= plane < batches * channels
            &&& place == plane * (height * width) + (y * width + x)
            &&& 0 <= y * width + x < height * width
            &&& place / (height * width) == plane
            &&& place % (height * width) == y * width + x
            &&& (y * width + x) / width == y
            &&& (y * width + x) % width == x
            &&& plane / channels == batch
            &&& plane % channels == channel
        }),
{
    let plane = batch * channels + channel;
    let area = height * width;
    lemma_row_bound(batch, batches, channel, channels);
    lemma_row_bound(y, height, x, width);
    lemma_row_bound(plane, batches * channels, y * width + x, area);
    lemma_decode(y, x, width);
    lemma_decode(batch, channel, channels);
    lemma_decode(plane, y * width + x, area);
    assert((plane * height + y) * width + x == plane * (height * width) + (y * width + x))
        by (nonlinear_arith);
}

/// What the sizes of a sliding window are for: the last window starts inside the
/// padded side, it ends inside where the count is rounded down, and one more window
/// would not.
pub proof fn lemma_window_count(
    input: int,
    kernel: int,
    stride: int,
    pad_start: int,
    pad_end: int,
    ceil: bool,
    count: usize,
)
    requires
        window_count(input, kernel, stride, pad_start, pad_end, ceil) == Ok::<usize, TensorError>(
            count,
        ),
        0 <= input,
    ensures
        ({
            let padded = input + pad_start + pad_end;
            &&& 0 < stride && 0 < kernel <= padded
            &&& 0 < count
            &&& !ceil ==> (count - 1) * stride + kernel <= padded < count * stride + kernel
            &&& ceil ==> (count - 2) * stride + kernel < padded <= (count - 1) * stride + kernel
                || count == 1 && padded == kernel
        }),
{
    let padded = input + pad_start + pad_end;
    let free: int = if ceil {
        padded - kernel + stride - 1
    } else {
        padded - kernel
    };
    let found = free / stride + 1;
    lemma_encode(free, stride);
    assert(0 <= free / stride);
    assert(free / stride <= padded - kernel) by {
        let steps = free / stride;
        if steps > padded - kernel {
            assert(steps * stride >= steps + stride - 1) by (nonlinear_arith)
                requires
                    steps >= 1,
                    stride >= 1,
            ;
        }
    }
    assert(count == found);
    assert((count - 1) * stride == free / stride * stride);
    assert((count - 2) * stride == (count - 1) * stride - stride) by (nonlinear_arith);
    assert(count * stride == (count - 1) * stride + stride) by (nonlinear_arith);
}

/// What enlarging to the nearest cell is for: each cell of the result is the cell of
/// the input that lies at the same part of the height and of the width, rounded down,
/// in the same plane.
pub proof fn lemma_nearest_cell<F>(
    input: TensorView<F>,
    height: usize,
    width: usize,
    batch: int,
    channel: int,
    y: int,
    x: int,
)
    requires
        input.wf(),
        input.shape.len() == 4,
        input.data is F32,
        scale_error(input.shape, height, width) is None,
        0 <= batch < input.shape[0],
        0 <= channel < input.shape[1],
        0 <= y < height,
        0 <= x < width,
    ensures
        ({
            let output = scaled(input, height, width);
            let source_y = y * input.shape[2] / height as int;
            let source_x = x * input.shape[3] / width as int;
            &&& output.shape == seq![input.shape[0], input.shape[1], height, width]
            &&& 0 <= source_y < input.shape[2]
            &&& 0 <= source_x < input.shape[3]
            &&& output.data is F32
            &&& output.data->F32_0.len() == input.shape[0] * input.shape[1] * (height * width)
            &&& output.data->F32_0[plane_place(
                input.shape[1] as int,
                height as int,
                width as int,
                batch,
                channel,
                y,
                x,
            )] == input.data->F32_0[plane_place(
                input.shape[1] as int,
                input.shape[2] as int,
                input.shape[3] as int,
                batch,
                channel,
                source_y,
                source_x,
            )]
        }),
{
    let shape = input.shape;
    lemma_product4(shape[0], shape[1], height, width);
    lemma_plane_place(
        shape[0] as int,
        shape[1] as int,
        height as int,
        width as int,
        batch,
        channel,
        y,
        x,
    );
    lemma_share(y, height as int, shape[2] as int);
    lemma_share(x, width as int, shape[3] as int);
    lemma_plane_place(
        shape[0] as int,
        shape[1] as int,
        shape[2] as int,
        shape[3] as int,
        batch,
        channel,
        y * shape[2] / height as int,
        x * shape[3] / width as int,
    );
}

/// A part of a side is a place of another.
proof fn lemma_share(place: int, size: int, source: int)
    requires
        0 <= place < size,
        0 < source,
    ensures
        0 <= place * source / size < source,
{
    lemma_encode(place * source, size);
    lemma_scale(0, place, source);
    assert(place * source < size * source) by (nonlinear_arith)
        requires
            place < size,
            0 < source,
    ;
    let share = place * source / size;
    assert(share * size <= place * source);
    if share >= source {
        lemma_scale(source, share, size);
        assert(source * size == size * source) by (nonlinear_arith);
    }
}

/// What enlarging by a whole factor is for: each cell is repeated `factor` times along
/// both sides.
pub proof fn lemma_repeated_cell<F>(
    input: TensorView<F>,
    factor: usize,
    height: usize,
    width: usize,
    batch: int,
    channel: int,
    y: int,
    x: int,
)
    requires
        input.wf(),
        input.shape.len() == 4,
        input.data is F32,
        factor > 0,
        height == input.shape[2] * factor,
        width == input.shape[3] * factor,
        scale_error(input.shape, height, width) is None,
        0 <= batch < input.shape[0],
        0 <= channel < input.shape[1],
        0 <= y < height,
        0 <= x < width,
    ensures
        scaled(input, height, width).data->F32_0[plane_place(
            input.shape[1] as int,
            height as int,
            width as int,
            batch,
            channel,
            y,
            x,
        )] == input.data->F32_0[plane_place(
            input.shape[1] as int,
            input.shape[2] as int,
            input.shape[3] as int,
            batch,
            channel,
            y / factor as int,
            x / factor as int,
        )],
{
    lemma_nearest_cell(input, height, width, batch, channel, y, x);
    lemma_factor(y, input.shape[2] as int, factor as int);
    lemma_factor(x, input.shape[3] as int, factor as int);
}

proof fn lemma_factor(place: int, size: int, factor: int)
    requires
        0 <= place,
        0 < size,
        0 < factor,
    ensures
        place * size / (size * factor) == place / factor,
{
    assert(place * size == size * place) by (nonlinear_arith);
    vstd::arithmetic::div_mod::lemma_truncate_middle(place, factor, size);
    vstd::arithmetic::div_mod::lemma_div_multiples_vanish_quotient(size, place, factor);
}

/// Whether places of a window list, in their order, those of its cells that lie over
/// the input: the first row and column under the window are `top` and `left`, which
/// padding may put outside.
pub open spec fn lists_covered(
    kernel_height: int,
    kernel_width: int,
    height: int,
    width: int,
    top: int,
    left: int,
    places: Seq<(int, int)>,
) -> bool {
    &&& forall|i: int|
        0 <= i < places.len() ==> {
            &&& 0 <= (#[trigger] places[i]).0 < kernel_height && 0 <= places[i].1 < kernel_width
            &&& 0 <= top + places[i].0 < height && 0 <= left + places[i].1 < width
        }
    &&& forall|i: int, j: int|
        0 <= i < j < places.len() ==> {
            ||| (#[trigger] places[i]).0 < (#[trigger] places[j]).0
            ||| places[i].0 == places[j].0 && places[i].1 < places[j].1
        }
    &&& forall|y: int, x: int|
        0 <= y < kernel_height && 0 <= x < kernel_width && 0 <= top + y < height && 0 <= left + x
            < width ==> #[trigger] places.contains((y, x))
}

/// The samples of a window are those of the cells that lie over the input.
proof fn lemma_samples<F>(
    window: Window,
    input: Seq<F>,
    base: int,
    y: int,
    x: int,
    count: int,
) -> (places: Seq<(int, int)>)
    requires
        0 <= count <= window.kernel_height * window.kernel_width,
        0 < window.kernel_height && 0 < window.kernel_width,
    ensures
        ({
            let top = y * window.stride_y - window.pad_y;
            let left = x * window.stride_x - window.pad_x;
            let list = samples(window, input, base, y, x, count);
            &&& list.len() == places.len()
            &&& forall|i: int|
                0 <= i < places.len() ==> {
                    &&& 0 <= (#[trigger] places[i]).0 < window.kernel_height
                    &&& 0 <= places[i].1 < window.kernel_width
                    &&& places[i].0 * window.kernel_width + places[i].1 < count
                    &&& 0 <= top + places[i].0 < window.input_height
                    &&& 0 <= left + places[i].1 < window.input_width
                    &&& list[i] == input[base + (top + places[i].0) * window.input_width + left
                        + places[i].1]
                }
            &&& forall|i: int, j: int|
                0 <= i < j < places.len() ==> {
                    ||| (#[trigger] places[i]).0 < (#[trigger] places[j]).0
                    ||| places[i].0 == places[j].0 && places[i].1 < places[j].1
                }
            &&& forall|ky: int, kx: int|
                0 <= ky < window.kernel_height && 0 <= kx < window.kernel_width && ky
                    * window.kernel_width + kx < count && 0 <= top + ky < window.input_height && 0
                    <= left + kx < window.input_width ==> #[trigger] places.contains((ky, kx))
        }),
    decreases count,
{
    if count <= 0 {
        let places = Seq::<(int, int)>::empty();
        let top = y * window.stride_y - window.pad_y;
        let left = x * window.stride_x - window.pad_x;
        assert forall|ky: int, kx: int|
            0 <= ky < window.kernel_height && 0 <= kx < window.kernel_width && ky
                * window.kernel_width + kx < count && 0 <= top + ky < window.input_height && 0
                <= left + kx < window.input_width implies #[trigger] places.contains((ky, kx)) by {
            lemma_scale(0, ky, window.kernel_width as int);
        }
        places
    } else {
        let top = y * window.stride_y - window.pad_y;
        let left = x * window.stride_x - window.pad_x;
        let kw: int = window.kernel_width as int;
        let row = (count - 1) / kw;
        let column = (count - 1) % kw;
        let before = lemma_samples(window, input, base, y, x, count - 1);
        lemma_encode(count - 1, kw);
        assert(row < window.kernel_height) by {
            if row >= window.kernel_height {
                lemma_scale(window.kernel_height as int, row, kw);
            }
        }
        let over = 0 <= top + row < window.input_height && 0 <= left + column < window.input_width;
        let places = if over {
            before.push((row, column))
        } else {
            before
        };
        assert forall|i: int, j: int| 0 <= i < j < places.len() implies {
            ||| (#[trigger] places[i]).0 < (#[trigger] places[j]).0
            ||| places[i].0 == places[j].0 && places[i].1 < places[j].1
        } by {
            if j == before.len() {
                assert(before[i].0 * kw + before[i].1 < count - 1);
                if before[i].0 > row {
                    lemma_scale(row + 1, before[i].0, kw);
                    assert((row + 1) * kw == row * kw + kw) by (nonlinear_arith);
                }
            } else {
                assert(places[i] == before[i] && places[j] == before[j]);
            }
        }
        assert forall|ky: int, kx: int|
            0 <= ky < window.kernel_height && 0 <= kx < window.kernel_width && ky
                * window.kernel_width + kx < count && 0 <= top + ky < window.input_height && 0
                <= left + kx < window.input_width implies #[trigger] places.contains((ky, kx)) by {
            if ky * kw + kx == count - 1 {
                lemma_decode(ky, kx, kw);
                assert(places[before.len() as int] == (ky, kx));
            } else {
                assert(before.contains((ky, kx)));
                let k = choose|k: int| 0 <= k < before.len() && before[k] == (ky, kx);
                assert(places[k] == (ky, kx));
            }
        }
        places
    }
}

/// What pooling is for: each cell of the result is what the function may give for the
/// cells of the input under its window, row by row, and for their number, or for the
/// number of all cells of the window where padding counts.
///
/// Returned are the list that the function was given, for each of its values its row
/// and column in the window, and the number.
pub proof fn lemma_pooled_cell<F, R: Fn(Vec<F>, usize) -> F>(
    reduce: R,
    options: PoolOptions,
    input: TensorView<F>,
    shape: Seq<usize>,
    output: TensorView<F>,
    batch: int,
    channel: int,
    y: int,
    x: int,
) -> (witness: (Vec<F>, Seq<(int, int)>, usize))
    requires
        input.wf(),
        pool_shape_of(seq![input], options) == Ok::<Seq<usize>, TensorError>(shape),
        is_pooled(reduce, options, input, shape, output),
        0 <= batch < shape[0],
        0 <= channel < shape[1],
        0 <= y < shape[2],
        0 <= x < shape[3],
    ensures
        ({
            let (list, places, count) = witness;
            let top = y * options.strides@[0] - options.pads@[0];
            let left = x * options.strides@[1] - options.pads@[1];
            &&& output.shape == shape
            &&& shape.len() == 4 && shape[0] == input.shape[0] && shape[1] == input.shape[1]
            &&& lists_covered(
                options.kernel@[0] as int,
                options.kernel@[1] as int,
                input.shape[2] as int,
                input.shape[3] as int,
                top,
                left,
                places,
            )
            &&& list@.len() == places.len()
            &&& forall|i: int|
                0 <= i < places.len() ==> list@[i] == input.data->F32_0[plane_place(
                    input.shape[1] as int,
                    input.shape[2] as int,
                    input.shape[3] as int,
                    batch,
                    channel,
                    top + (#[trigger] places[i]).0,
                    left + places[i].1,
                )]
            &&& call_ensures(
                reduce,
                (list, count),
                output.data->F32_0[plane_place(
                    shape[1] as int,
                    shape[2] as int,
                    shape[3] as int,
                    batch,
                    channel,
                    y,
                    x,
                )],
            )
            &&& count == if options.count_include_pad {
                options.kernel@[0] * options.kernel@[1]
            } else {
                list@.len() as int
            }
        }),
{
    let height: int = shape[2] as int;
    let width: int = shape[3] as int;
    let place = plane_place(shape[1] as int, height, width, batch, channel, y, x);
    let window = pool_window(options, input.shape[2], input.shape[3]);
    let size: int = options.kernel@[0] * options.kernel@[1];
    let plane = batch * shape[1] + channel;
    let base = plane * (input.shape[2] * input.shape[3]);
    lemma_plane_place(shape[0] as int, shape[1] as int, height, width, batch, channel, y, x);
    lemma_wf_count(output);
    assert(shape =~= seq![shape[0], shape[1], shape[2], shape[3]]);
    lemma_product4(shape[0], shape[1], shape[2], shape[3]);
    assert(pools_cell(reduce, options, input, height, width, place, output.data->F32_0[place]));
    lemma_scale(0, options.kernel@[0] as int, options.kernel@[1] as int);
    let places = lemma_samples(window, input.data->F32_0, base, y, x, size);
    let covered = samples(window, input.data->F32_0, base, y, x, size);
    let list = choose|list: Vec<F>|
        list@ == covered && #[trigger] call_ensures(
            reduce,
            (list, crate::pooling::pool_count(options, covered.len() as int) as usize),
            output.data->F32_0[place],
        );
    let top = y * options.strides@[0] - options.pads@[0];
    let left = x * options.strides@[1] - options.pads@[1];
    assert forall|i: int| 0 <= i < places.len() implies list@[i] == input.data->F32_0[plane_place(
        input.shape[1] as int,
        input.shape[2] as int,
        input.shape[3] as int,
        batch,
        channel,
        top + (#[trigger] places[i]).0,
        left + places[i].1,
    )] by {
        lemma_plane_place(
            shape[0] as int,
            shape[1] as int,
            input.shape[2] as int,
            input.shape[3] as int,
            batch,
            channel,
            top + places[i].0,
            left + places[i].1,
        );
    }
    assert forall|ky: int, kx: int|
        0 <= ky < options.kernel@[0] && 0 <= kx < options.kernel@[1] && 0 <= top + ky
            < input.shape[2] && 0 <= left + kx < input.shape[3] implies #[trigger] places.contains(
        (ky, kx),
    ) by {
        lemma_row_bound(ky, options.kernel@[0] as int, kx, options.kernel@[1] as int);
    }
    assert(list@.len() <= usize::MAX) by {
        lemma_vec_len(list);
    }
    let count: usize = crate::pooling::pool_count(options, covered.len() as int) as usize;
    assert(call_ensures(reduce, (list, count), output.data->F32_0[place]));
    assert(!options.count_include_pad ==> count == list@.len());
    assert(shape[0] * shape[1] > 0) by (nonlinear_arith)
        requires
            shape[0] > 0,
            shape[1] > 0,
    ;
    assert(options.count_include_pad ==> count == size);
    assert(lists_covered(
        options.kernel@[0] as int,
        options.kernel@[1] as int,
        input.shape[2] as int,
        input.shape[3] as int,
        top,
        left,
        places,
    ));
    (list, places, count)
}

/// The length of a list can be counted.
proof fn lemma_vec_len<F>(list: Vec<F>)
    ensures
        list@.len() <= usize::MAX,
{
    assert(list@.len() == list.len());
}

/// What averaging planes is for: each plane is reduced to one value, which the function
/// may give for all cells of that plane, row by row.
///
/// Returned is the list that the function was given.
pub proof fn lemma_plane_mean<F, R: Fn(Vec<F>) -> F>(
    reduce: R,
    input: TensorView<F>,
    output: TensorView<F>,
    batch: int,
    channel: int,
) -> (list: Vec<F>)
    requires
        input.wf(),
        input.shape.len() == 4,
        input.data is F32,
        pools_planes(reduce, input, output),
        0 <= batch < input.shape[0],
        0 <= channel < input.shape[1],
    ensures
        output.shape == seq![input.shape[0], input.shape[1], 1usize, 1usize],
        call_ensures(reduce, (list,), output.data->F32_0[batch * input.shape[1] + channel]),
        list@.len() == input.shape[2] * input.shape[3],
        forall|y: int, x: int|
            0 <= y < input.shape[2] && 0 <= x < input.shape[3] ==> list@[y * input.shape[3] + x] == input.data->F32_0[#[trigger] plane_place(
                input.shape[1] as int,
                input.shape[2] as int,
                input.shape[3] as int,
                batch,
                channel,
                y,
                x,
            )],
{
    let shape = input.shape;
    let area: int = shape[2] * shape[3];
    let plane = batch * shape[1] + channel;
    let count: int = shape[0] * shape[1];
    lemma_row_bound(batch, shape[0] as int, channel, shape[1] as int);
    lemma_wf_count(input);
    lemma_wf_count(output);
    lemma_product4(shape[0], shape[1], shape[2], shape[3]);
    lemma_product4(shape[0], shape[1], 1, 1);
    assert(shape =~= seq![shape[0], shape[1], shape[2], shape[3]]);
    assert(count * (1 * 1) == count);
    lemma_scale(0, shape[2] as int, shape[3] as int);
    lemma_scale(plane + 1, count, area);
    lemma_scale(0, plane, area);
    assert((plane + 1) * area == plane * area + area) by (nonlinear_arith);
    let row = crate::elementwise::row_of(input.data->F32_0, area, plane);
    let value = output.data->F32_0[plane];
    assert(crate::reduction::reduces(reduce, row, value));
    let list = choose|list: Vec<F>| list@ == row && #[trigger] call_ensures(
        reduce,
        (list,),
        value,
    );
    assert forall|y: int, x: int|
        0 <= y < input.shape[2] && 0 <= x < input.shape[3] implies list@[y * input.shape[3] + x] == input.data->F32_0[#[trigger] plane_place(
        input.shape[1] as int,
        input.shape[2] as int,
        input.shape[3] as int,
        batch,
        channel,
        y,
        x,
    )] by {
        lemma_plane_place(
            shape[0] as int,
            shape[1] as int,
            shape[2] as int,
            shape[3] as int,
            batch,
            channel,
            y,
            x,
        );
    }
    list
}

} // verus!
