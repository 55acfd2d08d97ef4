//! Laws of pictures: what a pixel of a result shows of the picture that was given.
use vstd::prelude::*;
use crate::chunks::{
    chunk_count, chunk_start, chunk_width, lemma_chunks_cover, lemma_chunks_overlap, split_error,
    widest,
};
use crate::images::{is_crop, scaled_bytes, Image};
use crate::preprocess::{is_prepared, is_recognizer_input, Crop, PreparedInput};
use crate::rectify::{shows, Spot};
use crate::single::Single;

verus! {

/// What turning a picture upright is for. A pixel of the result shows a spot of the
/// image: the colours handed to `blend` are those of the pixel at the spot, of the
/// one right of it, of the one below it and of the one below and right of it; beyond
/// the last column or row the last one stands for the next. The spot is what `place`
/// gives, moved into the image. Returned is the spot.
pub proof fn lemma_rectified_pixel<
    P: Fn(u32, u32, u32, u32) -> Spot,
    B: Fn(u8, u8, u8, u8, Single, Single) -> u8,
>(
    image: Image,
    place: P,
    blend: B,
    width: u32,
    height: u32,
    x: int,
    y: int,
    pixels: Seq<u8>,
) -> (spot: Spot)
    requires
        image.width > 0 && image.height > 0,
        0 <= x < width && 0 <= y < height,
        shows(image, place, blend, width, height, x, y, pixels),
    ensures
        call_ensures(place, (width, height, x as u32, y as u32), spot),
        ({
            let wide = image.width as int;
            let high = image.height as int;
            let column = if spot.x < wide {
                spot.x as int
            } else {
                wide - 1
            };
            let row = if spot.y < high {
                spot.y as int
            } else {
                high - 1
            };
            let next = if column + 1 < wide {
                column + 1
            } else {
                column
            };
            let below = if row + 1 < high {
                row + 1
            } else {
                row
            };
            forall|channel: int|
                0 <= channel < 3 ==> call_ensures(
                    blend,
                    (
                        image.pixels@[(row * wide + column) * 3 + channel],
                        image.pixels@[(row * wide + next) * 3 + channel],
                        image.pixels@[(below * wide + column) * 3 + channel],
                        image.pixels@[(below * wide + next) * 3 + channel],
                        spot.across,
                        spot.down,
                    ),
                    #[trigger] pixels[(y * width + x) * 3 + channel],
                )
        }),
{
    let spot = choose|spot: Spot|
        {
            &&& #[trigger] call_ensures(place, (width, height, x as u32, y as u32), spot)
            &&& crate::rectify::blends(image, blend, spot, 0, pixels[(y * width + x) * 3 + 0])
            &&& crate::rectify::blends(image, blend, spot, 1, pixels[(y * width + x) * 3 + 1])
            &&& crate::rectify::blends(image, blend, spot, 2, pixels[(y * width + x) * 3 + 2])
        };
    let wide = image.width as int;
    let high = image.height as int;
    let column = if spot.x < wide {
        spot.x as int
    } else {
        wide - 1
    };
    let row = if spot.y < high {
        spot.y as int
    } else {
        high - 1
    };
    let next = if column + 1 < wide {
        column + 1
    } else {
        column
    };
    let below = if row + 1 < high {
        row + 1
    } else {
        row
    };
    assert forall|channel: int| 0 <= channel < 3 implies call_ensures(
        blend,
        (
            image.pixels@[(row * wide + column) * 3 + channel],
            image.pixels@[(row * wide + next) * 3 + channel],
            image.pixels@[(below * wide + column) * 3 + channel],
            image.pixels@[(below * wide + next) * 3 + channel],
            spot.across,
            spot.down,
        ),
        #[trigger] pixels[(y * width + x) * 3 + channel],
    ) by {
        assert(channel == 0 || channel == 1 || channel == 2);
        assert(crate::rectify::blends(
            image,
            blend,
            spot,
            channel,
            pixels[(y * width + x) * 3 + channel],
        ));
    }
    spot
}

/// What cutting a part out of an image is for: a pixel of the part is the pixel of
/// the image that is as far from its corner, and the part is as large as it was asked
/// to be unless the image ends before.
pub proof fn lemma_cropped_pixels(
    image: Image,
    x: u32,
    y: u32,
    width: u32,
    height: u32,
    result: Image,
)
    requires
        is_crop(image, x, y, width, height, result),
    ensures
        result.pixels@.len() == result.width * result.height * 3,
        result.width <= width && result.height <= height,
        result.width > 0 ==> x + result.width <= image.width,
        result.height > 0 ==> y + result.height <= image.height,
        result.width < width ==> x + result.width >= image.width,
        result.height < height ==> y + result.height >= image.height,
        forall|column: int, row: int, channel: int|
            0 <= column < result.width && 0 <= row < result.height && 0 <= channel < 3
                ==> #[trigger] result.pixels@[(row * result.width + column) * 3 + channel]
                == image.pixels@[((y + row) * image.width + (x + column)) * 3 + channel],
{
    assert forall|column: int, row: int, channel: int|
        0 <= column < result.width && 0 <= row < result.height && 0 <= channel
            < 3 implies #[trigger] result.pixels@[(row * result.width + column) * 3 + channel]
        == image.pixels@[((y + row) * image.width + (x + column)) * 3 + channel] by {
        assert(result.at(column, row, channel) == image.at(x + column, y + row, channel));
    }
}

/// What preparing a picture for a model is for: three planes, of blue, green and red,
/// each with the value of the colour of the pixel at the same place, and zero in the
/// columns right of the picture.
pub proof fn lemma_prepared_values<F, V: Fn(usize, u8) -> F>(
    width: int,
    height: int,
    pixels: Seq<u8>,
    zero: F,
    value: V,
    data: Seq<F>,
    columns: int,
)
    requires
        is_prepared(width, height, pixels, zero, value, data, columns),
    ensures
        data.len() == 3 * height * columns,
        forall|y: int, x: int|
            0 <= y < height && 0 <= x < columns && x < width ==> {
                let blue = #[trigger] data[y * columns + x];
                &&& call_ensures(value, (0usize, pixels[(y * width + x) * 3 + 2]), blue)
                &&& call_ensures(
                    value,
                    (1usize, pixels[(y * width + x) * 3 + 1]),
                    data[height * columns + (y * columns + x)],
                )
                &&& call_ensures(
                    value,
                    (2usize, pixels[(y * width + x) * 3]),
                    data[2 * (height * columns) + (y * columns + x)],
                )
            },
        forall|y: int, x: int|
            0 <= y < height && 0 <= x < columns && x >= width ==> {
                &&& #[trigger] data[y * columns + x] == zero
                &&& data[height * columns + (y * columns + x)] == zero
                &&& data[2 * (height * columns) + (y * columns + x)] == zero
            },
{
    assert(3 * (height * columns) == 3 * height * columns) by (nonlinear_arith);
    assert forall|y: int, x: int| 0 <= y < height && 0 <= x < columns implies {
        &&& #[trigger] data[y * columns + x] == data[crate::preprocess::value_at(
            height,
            columns,
            0,
            y,
            x,
        )]
        &&& data[height * columns + (y * columns + x)] == data[crate::preprocess::value_at(
            height,
            columns,
            1,
            y,
            x,
        )]
        &&& data[2 * (height * columns) + (y * columns + x)] == data[crate::preprocess::value_at(
            height,
            columns,
            2,
            y,
            x,
        )]
    } by {
        assert(0 * (height * columns) == 0);
        assert(1 * (height * columns) == height * columns);
    }
}

/// What the input of the recognizer is: 48 rows, as many columns as the canvas, and in
/// them at the left the part of the image, resampled to the width that keeps its
/// proportions or to that of the canvas where it is wider; right of it zeros. Returned
/// is the part.
pub proof fn lemma_recognizer_input<F, V: Fn(usize, u8) -> F>(
    image: Image,
    part: Crop,
    natural_width: u32,
    canvas_width: u32,
    zero: F,
    value: V,
    input: PreparedInput<F>,
) -> (cropped: Image)
    requires
        is_recognizer_input(
            image,
            part,
            natural_width,
            canvas_width,
            zero,
            value,
            input,
        ),
    ensures
        input.rows() == 48 && input.columns() == canvas_width,
        is_crop(image, part.x, part.y, part.width, part.height, cropped),
        ({
            let width = if natural_width < canvas_width {
                natural_width
            } else {
                canvas_width
            };
            let pixels = scaled_bytes(
                cropped.width,
                cropped.height,
                cropped.pixels@,
                width,
                48u32,
            );
            let data = input.values();
            &&& data.len() == 3 * 48 * canvas_width
            &&& forall|y: int, x: int|
                0 <= y < 48 && 0 <= x < width ==> {
                    let blue = #[trigger] data[y * canvas_width + x];
                    &&& call_ensures(value, (0usize, pixels[(y * width + x) * 3 + 2]), blue)
                    &&& call_ensures(
                        value,
                        (1usize, pixels[(y * width + x) * 3 + 1]),
                        data[48 * canvas_width + (y * canvas_width + x)],
                    )
                    &&& call_ensures(
                        value,
                        (2usize, pixels[(y * width + x) * 3]),
                        data[2 * (48 * canvas_width) + (y * canvas_width + x)],
                    )
                }
            &&& forall|y: int, x: int|
                0 <= y < 48 && width <= x < canvas_width ==> {
                    &&& #[trigger] data[y * canvas_width + x] == zero
                    &&& data[48 * canvas_width + (y * canvas_width + x)] == zero
                    &&& data[2 * (48 * canvas_width) + (y * canvas_width + x)] == zero
                }
        }),
{
    let width = if natural_width < canvas_width {
        natural_width
    } else {
        canvas_width
    };
    let cropped = choose|cropped: Image| #[trigger]
        is_crop(image, part.x, part.y, part.width, part.height, cropped) && is_prepared(
            width as int,
            48,
            scaled_bytes(cropped.width, cropped.height, cropped.pixels@, width, 48u32),
            zero,
            value,
            input.values(),
            canvas_width as int,
        );
    lemma_prepared_values(
        width as int,
        48,
        scaled_bytes(cropped.width, cropped.height, cropped.pixels@, width, 48u32),
        zero,
        value,
        input.values(),
        canvas_width as int,
    );
    cropped
}

/// What cutting a line into parts is for. Every part has the height of the line and
/// shows its columns from a start on; none is wider than 320 columns for 48 rows allow,
/// and all but the last are as wide as that. The first begins at the first column, each
/// begins behind the one before it and, where a part can have two columns, before that
/// one ends, and the last ends with the line. There are at most 64. Returned are the
/// starts.
pub proof fn lemma_split_line(image: Image, parts: Seq<Image>) -> (starts: Seq<int>)
    requires
        image.wf(),
        split_error(image.width as int, image.height as int) is None,
        parts.len() == chunk_count(image.width as int, widest(image.height as int)),
        forall|i: int|
            0 <= i < parts.len() ==> is_crop(
                image,
                chunk_start(widest(image.height as int), i) as u32,
                0,
                chunk_width(image.width as int, widest(image.height as int), i) as u32,
                image.height,
                #[trigger] parts[i],
            ),
    ensures
        image.width > 0 && image.height > 0,
        1 <= parts.len() <= 64,
        starts.len() == parts.len(),
        starts[0] == 0,
        starts[parts.len() - 1] + parts[parts.len() - 1].width == image.width,
        forall|i: int|
            0 <= i < parts.len() ==> {
                let part = #[trigger] parts[i];
                &&& part.height == image.height
                &&& 1 <= part.width
                &&& part.width == 1 || part.width * 48 <= image.height * 320
                &&& 0 <= starts[i] && starts[i] + part.width <= image.width
                &&& forall|x: int, y: int, channel: int|
                    0 <= x < part.width && 0 <= y < part.height && 0 <= channel < 3
                        ==> #[trigger] part.pixels@[(y * part.width + x) * 3 + channel]
                        == image.pixels@[(y * image.width + (starts[i] + x)) * 3 + channel]
            },
        forall|i: int|
            0 <= i < parts.len() - 1 ==> {
                let part = #[trigger] parts[i];
                &&& (part.width + 1) * 48 > image.height * 320
                &&& starts[i] < starts[i + 1] <= starts[i] + part.width
                &&& part.width >= 2 ==> starts[i + 1] < starts[i] + part.width
                &&& part.width >= 6 ==> (starts[i] + part.width - starts[i + 1]) * 6 <= part.width
                    < (starts[i] + part.width - starts[i + 1] + 1) * 6
            },
{
    let most = widest(image.height as int);
    let total = image.width as int;
    let count = chunk_count(total, most);
    let starts = Seq::new(count as nat, |i: int| chunk_start(most, i));
    assert(most >= 1);
    lemma_chunks_cover(total, most, 0);
    assert(most * 48 <= image.height * 320 || most == 1);
    assert((most + 1) * 48 > image.height * 320);
    assert forall|i: int| 0 <= i < parts.len() implies {
        let part = #[trigger] parts[i];
        &&& part.height == image.height
        &&& part.width == chunk_width(total, most, i)
        &&& 1 <= part.width
        &&& part.width == 1 || part.width * 48 <= image.height * 320
        &&& 0 <= starts[i] && starts[i] + part.width <= image.width
        &&& forall|x: int, y: int, channel: int|
            0 <= x < part.width && 0 <= y < part.height && 0 <= channel < 3
                ==> #[trigger] part.pixels@[(y * part.width + x) * 3 + channel]
                == image.pixels@[(y * image.width + (starts[i] + x)) * 3 + channel]
    } by {
        let part = parts[i];
        lemma_start_inside(total, most, i);
        assert(1 <= chunk_width(total, most, i) <= most);
        let start = chunk_start(most, i) as u32;
        assert(start == chunk_start(most, i));
        lemma_cropped_pixels(
            image,
            start,
            0,
            chunk_width(total, most, i) as u32,
            image.height,
            part,
        );
    }
    assert forall|i: int| 0 <= i < parts.len() - 1 implies {
        let part = #[trigger] parts[i];
        &&& (part.width + 1) * 48 > image.height * 320
        &&& starts[i] < starts[i + 1] <= starts[i] + part.width
        &&& part.width >= 2 ==> starts[i + 1] < starts[i] + part.width
        &&& part.width >= 6 ==> (starts[i] + part.width - starts[i + 1]) * 6 <= part.width < (
        starts[i] + part.width - starts[i + 1] + 1) * 6
    } by {
        lemma_chunks_overlap(total, most, i);
        lemma_start_inside(total, most, i);
        lemma_start_inside(total, most, i + 1);
        let part = parts[i];
        assert(part.width == chunk_width(total, most, i));
    }
    starts
}

proof fn lemma_start_inside(width: int, most: int, index: int)
    requires
        most >= 1,
        width >= 1,
        0 <= index < chunk_count(width, most),
    ensures
        0 <= chunk_start(most, index) < width,
        index < chunk_count(width, most) - 1 ==> chunk_start(most, index) + most < width
            && chunk_start(most, index + 1) - chunk_start(most, index) == most
            - crate::chunks::shared(most),
{
    let stride = crate::chunks::step(most);
    if width > most {
        let over = width - most;
        let more = (over + stride - 1) / stride;
        assert(more * stride >= over && (more - 1) * stride < over && more >= 1)
            by (nonlinear_arith)
            requires
                more == (over + stride - 1) / stride,
                stride >= 1,
                over >= 1,
        ;
        assert(0 <= index * stride) by (nonlinear_arith)
            requires
                0 <= index,
                stride >= 1,
        ;
        if index <= more - 1 {
            assert(index * stride <= (more - 1) * stride) by (nonlinear_arith)
                requires
                    index <= more - 1,
                    stride >= 1,
            ;
        } else {
            assert((index - 1) * stride <= (more - 1) * stride) by (nonlinear_arith)
                requires
                    index - 1 <= more - 1,
                    stride >= 1,
            ;
            assert(index * stride == (index - 1) * stride + stride) by (nonlinear_arith);
        }
        assert((index + 1) * stride == index * stride + stride) by (nonlinear_arith);
    } else {
        assert(index == 0);
        assert(0 * stride == 0);
    }
}

} // verus!
