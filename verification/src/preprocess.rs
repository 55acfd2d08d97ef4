//! Model inputs: planes of blue, green and red values, with zeros to the right.
use vstd::prelude::*;
use crate::images::{
    byte_at, byte_count, crop, is_crop, lemma_byte_at, remaining, resizable, resize, scaled_bytes,
    Image,
};
use crate::index::{lemma_decode, lemma_encode};

verus! {

/// The rows of a recognizer input.
pub const RECOGNIZER_HEIGHT: u32 = 48;

/// The shape of a detector input.
pub const DETECTOR_SHAPE: [usize; 4] = [1, 3, 416, 736];

/// The shape of a recognizer input.
pub const RECOGNIZER_SHAPE: [usize; 4] = [1, 3, 48, 320];

/// Why an input could not be prepared.
#[derive(Clone, Copy, Debug, PartialEq, Eq, Structural)]
pub enum PreprocessError {
    /// The crop has no pixels.
    EmptyCrop,
    /// The input has another shape than the model.
    Shape { height: usize, width: usize },
}

/// A model input.
#[derive(Clone)]
pub struct PreparedInput<F> {
    pub data: Vec<F>,
    height: usize,
    width: usize,
}

impl<F> PreparedInput<F> {
    /// The values.
    pub closed spec fn values(self) -> Seq<F> {
        self.data@
    }

    /// The number of rows.
    pub closed spec fn rows(self) -> usize {
        self.height
    }

    /// The number of columns.
    pub closed spec fn columns(self) -> usize {
        self.width
    }

    /// The shape: one batch of three planes.
    pub fn shape(&self) -> (result: [usize; 4])
        ensures
            result@ == seq![1usize, 3usize, self.rows(), self.columns()],
    {
        let shape: [usize; 4] = [1, 3, self.height, self.width];
        assert(shape@ =~= seq![1usize, 3usize, self.rows(), self.columns()]);
        shape
    }
}

/// A part of an image.
#[derive(Clone, Copy, Debug, PartialEq, Eq, Structural)]
pub struct Crop {
    pub x: u32,
    pub y: u32,
    pub width: u32,
    pub height: u32,
}

/// The number of values of an input.
pub open spec fn value_count(rows: int, columns: int) -> int {
    3 * (rows * columns)
}

/// The place of a value.
pub open spec fn value_at(rows: int, columns: int, channel: int, y: int, x: int) -> int {
    channel * (rows * columns) + (y * columns + x)
}

/// Whether an input holds the values of an image: the value of each pixel in
/// the planes of blue, green and red, and zero right of the image.
pub open spec fn is_prepared<F, V: Fn(usize, u8) -> F>(
    width: int,
    height: int,
    pixels: Seq<u8>,
    zero: F,
    value: V,
    data: Seq<F>,
    columns: int,
) -> bool {
    &&& data.len() == value_count(height, columns)
    &&& forall|channel: int, y: int, x: int|
        0 <= channel < 3 && 0 <= y < height && 0 <= x < columns ==> if x < width {
            call_ensures(
                value,
                (channel as usize, pixels[byte_at(width, x, y, 2 - channel)]),
                #[trigger] data[value_at(height, columns, channel, y, x)],
            )
        } else {
            data[value_at(height, columns, channel, y, x)] == zero
        }
}

/// What holds of one place of the input.
spec fn cell_prepared<F, V: Fn(usize, u8) -> F>(
    image: Image,
    zero: F,
    value: V,
    data: Seq<F>,
    columns: int,
    index: int,
) -> bool {
    let height: int = image.height as int;
    let plane: int = height * columns;
    let channel: int = index / plane;
    let y: int = (index % plane) / columns;
    let x: int = (index % plane) % columns;
    if x < image.width {
        call_ensures(
            value,
            (channel as usize, image.pixels@[byte_at(image.width as int, x, y, 2 - channel)]),
            data[index],
        )
    } else {
        data[index] == zero
    }
}

/// The values of an image as a model input of `columns` columns.
#[verifier::spinoff_prover]
pub fn normalized_bgr<F: Copy, V: Fn(usize, u8) -> F>(
    image: &Image,
    columns: usize,
    zero: F,
    value: &V,
) -> (result: PreparedInput<F>)
    requires
        image.wf(),
        image.width <= columns,
        value_count(image.height as int, columns as int) <= usize::MAX,
        forall|channel: usize, byte: u8| channel < 3 ==> call_requires(*value, (channel, byte)),
    ensures
        result.rows() == image.height,
        result.columns() == columns,
        is_prepared(
            image.width as int,
            image.height as int,
            image.pixels@,
            zero,
            *value,
            result.values(),
            columns as int,
        ),
{
    let height: usize = image.height as usize;
    let width: usize = image.width as usize;
    let mut data: Vec<F> = Vec::new();
    let ghost count: int = height * columns;
    assert(height * columns >= 0) by (nonlinear_arith)
        requires
            height >= 0,
            columns >= 0,
    ;
    let plane: usize = height * columns;
    let bytes: usize = image.pixels.len();
    for channel in 0..3usize
        invariant
            image.wf(),
            height == image.height,
            width == image.width,
            bytes == image.pixels@.len(),
            width <= columns,
            plane == height * columns,
            plane * 3 <= usize::MAX,
            data@.len() == channel * plane,
            forall|channel: usize, byte: u8| channel < 3 ==> call_requires(*value, (channel, byte)),
            forall|i: int|
                0 <= i < data@.len() ==> #[trigger] cell_prepared(
                    *image,
                    zero,
                    *value,
                    data@,
                    columns as int,
                    i,
                ),
    {
        assert(channel * plane + plane == (channel + 1) * plane) by (nonlinear_arith);
        for place in 0..plane
            invariant
                image.wf(),
                height == image.height,
                width == image.width,
                bytes == image.pixels@.len(),
                width <= columns,
                channel < 3,
                plane == height * columns,
                plane * 3 <= usize::MAX,
                data@.len() == channel * plane + place,
                forall|channel: usize, byte: u8|
                    channel < 3 ==> call_requires(*value, (channel, byte)),
                forall|i: int|
                    0 <= i < data@.len() ==> #[trigger] cell_prepared(
                        *image,
                        zero,
                        *value,
                        data@,
                        columns as int,
                        i,
                    ),
        {
            assert(columns > 0) by (nonlinear_arith)
                requires
                    place < height * columns,
                    place >= 0,
                    height >= 0,
            ;
            let y: usize = place / columns;
            let x: usize = place % columns;
            proof {
                lemma_encode(place as int, columns as int);
                assert(y < height) by (nonlinear_arith)
                    requires
                        place == y * columns + x,
                        place < height * columns,
                        x >= 0,
                        y >= 0,
                        columns > 0,
                ;
                lemma_decode(channel as int, place as int, plane as int);
            }
            let ghost before = data@;
            let ghost index: int = channel * plane + place;
            if x < width {
                proof {
                    lemma_byte_at(
                        width as int,
                        height as int,
                        x as int,
                        y as int,
                        2 - channel,
                    );
                    assert(image.pixels@.len() == byte_count(width as int, height as int));
                }
                let byte: u8 = image.pixels[(y * width + x) * 3 + (2 - channel)];
                let converted: F = value(channel, byte);
                data.push(converted);
            } else {
                data.push(zero);
            }
            assert forall|i: int| 0 <= i < data@.len() implies #[trigger] cell_prepared(
                *image,
                zero,
                *value,
                data@,
                columns as int,
                i,
            ) by {
                if i < before.len() {
                    assert(data@[i] == before[i]);
                    assert(cell_prepared(*image, zero, *value, before, columns as int, i));
                } else {
                    assert(i == index);
                }
            }
        }
    }
    proof {
        assert forall|channel: int, y: int, x: int|
            0 <= channel < 3 && 0 <= y < height && 0 <= x < columns implies if x < width {
            call_ensures(
                *value,
                (channel as usize, image.pixels@[byte_at(width as int, x, y, 2 - channel)]),
                #[trigger] data@[value_at(height as int, columns as int, channel, y, x)],
            )
        } else {
            data@[value_at(height as int, columns as int, channel, y, x)] == zero
        } by {
            let place: int = y * columns + x;
            assert(0 <= place < plane) by (nonlinear_arith)
                requires
                    place == y * columns + x,
                    0 <= y < height,
                    0 <= x < columns,
                    plane == height * columns,
            ;
            lemma_decode(y, x, columns as int);
            lemma_decode(channel, place, plane as int);
            let index: int = channel * plane + place;
            assert(index < 3 * plane) by (nonlinear_arith)
                requires
                    index == channel * plane + place,
                    channel <= 2,
                    place < plane,
            ;
            assert(channel * plane >= 0) by (nonlinear_arith)
                requires
                    channel >= 0,
                    plane >= 0,
            ;
            assert(cell_prepared(*image, zero, *value, data@, columns as int, index));
        }
    }
    PreparedInput { data, height, width: columns }
}

/// Whether an input has a shape.
pub open spec fn has_shape<F>(input: PreparedInput<F>, height: usize, width: usize) -> bool {
    input.rows() == height && input.columns() == width
}

/// Checks the shape of an input.
pub fn assert_shape<F>(input: &PreparedInput<F>, expected: [usize; 4]) -> (result: Result<
    (),
    PreprocessError,
>)
    ensures
        result == if seq![1usize, 3usize, input.rows(), input.columns()] == expected@ {
            Ok::<(), PreprocessError>(())
        } else {
            Err(PreprocessError::Shape { height: input.rows(), width: input.columns() })
        },
{
    let shape: [usize; 4] = input.shape();
    assert(shape@[0] == 1 && shape@[1] == 3 && shape@[2] == input.rows() && shape@[3]
        == input.columns());
    if shape[0] == expected[0] && shape[1] == expected[1] && shape[2] == expected[2] && shape[3]
        == expected[3] {
        assert(shape@ =~= expected@);
        Ok(())
    } else {
        Err(PreprocessError::Shape { height: input.height, width: input.width })
    }
}

/// A detector input of the given size: the image resampled to it.
pub fn prepare_detector<F: Copy, V: Fn(usize, u8) -> F>(
    image: &Image,
    target_width: u32,
    target_height: u32,
    zero: F,
    value: &V,
) -> (result: PreparedInput<F>)
    requires
        image.wf(),
        resizable(image.width, image.height, target_width, target_height),
        forall|channel: usize, byte: u8| channel < 3 ==> call_requires(*value, (channel, byte)),
    ensures
        has_shape(result, target_height as usize, target_width as usize),
        is_prepared(
            target_width as int,
            target_height as int,
            scaled_bytes(image.width, image.height, image.pixels@, target_width, target_height),
            zero,
            *value,
            result.values(),
            target_width as int,
        ),
{
    let scaled: Image = resize(image, target_width, target_height);
    proof {
        assert(target_height * target_width == target_width * target_height) by (nonlinear_arith);
    }
    normalized_bgr(&scaled, target_width as usize, zero, value)
}

/// A detector input of the size that the model was built for.
pub fn prepare_fixed_detector<F: Copy, V: Fn(usize, u8) -> F>(
    image: &Image,
    target_width: u32,
    target_height: u32,
    zero: F,
    value: &V,
) -> (result: Result<PreparedInput<F>, PreprocessError>)
    requires
        image.wf(),
        resizable(image.width, image.height, target_width, target_height),
        forall|channel: usize, byte: u8| channel < 3 ==> call_requires(*value, (channel, byte)),
    ensures
        match result {
            Ok(input) => {
                &&& target_height == 416 && target_width == 736
                &&& has_shape(input, 416, 736)
                &&& is_prepared(
                    736,
                    416,
                    scaled_bytes(image.width, image.height, image.pixels@, 736, 416),
                    zero,
                    *value,
                    input.values(),
                    736,
                )
            },
            Err(error) => {
                &&& target_height != 416 || target_width != 736
                &&& error == PreprocessError::Shape {
                    height: target_height as usize,
                    width: target_width as usize,
                }
            },
        },
{
    let prepared: PreparedInput<F> = prepare_detector(
        image,
        target_width,
        target_height,
        zero,
        value,
    );
    let expected: [usize; 4] = DETECTOR_SHAPE;
    assert(expected@ =~= seq![1usize, 3usize, 416usize, 736usize]);
    let ghost given = seq![1usize, 3usize, prepared.rows(), prepared.columns()];
    assert(given[2] == prepared.rows() && given[3] == prepared.columns());
    match assert_shape(&prepared, expected) {
        Ok(()) => {
            assert(given == expected@);
            Ok(prepared)
        },
        Err(error) => Err(error),
    }
}

/// The width to which a crop is scaled.
pub open spec fn scaled_width(natural: u32, canvas: u32) -> u32 {
    if natural < canvas {
        natural
    } else {
        canvas
    }
}

/// Whether an input is a crop of an image, scaled to the recognizer's height
/// and put at the left of the canvas.
pub open spec fn is_recognizer_input<F, V: Fn(usize, u8) -> F>(
    image: Image,
    part: Crop,
    natural_width: u32,
    canvas_width: u32,
    zero: F,
    value: V,
    input: PreparedInput<F>,
) -> bool {
    let width: u32 = scaled_width(natural_width, canvas_width);
    &&& has_shape(input, RECOGNIZER_HEIGHT as usize, canvas_width as usize)
    &&& exists|cropped: Image| #[trigger]
        is_crop(image, part.x, part.y, part.width, part.height, cropped) && is_prepared(
            width as int,
            RECOGNIZER_HEIGHT as int,
            scaled_bytes(cropped.width, cropped.height, cropped.pixels@, width, RECOGNIZER_HEIGHT),
            zero,
            value,
            input.values(),
            canvas_width as int,
        )
}

/// A recognizer input: a crop of an image, scaled to the recognizer's height.
/// `natural_width` is the width that keeps the proportions of the crop.
pub fn prepare_recognizer<F: Copy, V: Fn(usize, u8) -> F>(
    image: &Image,
    part: Crop,
    natural_width: u32,
    canvas_width: u32,
    zero: F,
    value: &V,
) -> (result: Result<PreparedInput<F>, PreprocessError>)
    requires
        image.wf(),
        part.width != 0 && part.height != 0 ==> resizable(
            remaining(image.width, part.x, part.width),
            remaining(image.height, part.y, part.height),
            scaled_width(natural_width, canvas_width),
            RECOGNIZER_HEIGHT,
        ),
        canvas_width * 144 <= usize::MAX,
        forall|channel: usize, byte: u8| channel < 3 ==> call_requires(*value, (channel, byte)),
    ensures
        match result {
            Ok(input) => {
                &&& part.width != 0 && part.height != 0
                &&& is_recognizer_input(
                    *image,
                    part,
                    natural_width,
                    canvas_width,
                    zero,
                    *value,
                    input,
                )
            },
            Err(error) => {
                &&& part.width == 0 || part.height == 0
                &&& error == PreprocessError::EmptyCrop
            },
        },
{
    if part.width == 0 || part.height == 0 {
        return Err(PreprocessError::EmptyCrop);
    }
    let cropped: Image = crop(image, part.x, part.y, part.width, part.height);
    let width: u32 = if natural_width < canvas_width {
        natural_width
    } else {
        canvas_width
    };
    let scaled: Image = resize(&cropped, width, RECOGNIZER_HEIGHT);
    Ok(normalized_bgr(&scaled, canvas_width as usize, zero, value))
}

/// The part of an image that was asked for, or else all of it.
pub open spec fn chosen_part(image: Image, part: Option<Crop>) -> Crop {
    match part {
        Some(part) => part,
        None => Crop { x: 0, y: 0, width: image.width, height: image.height },
    }
}

/// A recognizer input of the size that the model was built for. Without a
/// crop the whole image is taken.
pub fn prepare_fixed_recognizer<F: Copy, V: Fn(usize, u8) -> F>(
    image: &Image,
    part: Option<Crop>,
    natural_width: u32,
    zero: F,
    value: &V,
) -> (result: Result<PreparedInput<F>, PreprocessError>)
    requires
        image.wf(),
        ({
            let chosen = chosen_part(*image, part);
            chosen.width != 0 && chosen.height != 0 ==> resizable(
                remaining(image.width, chosen.x, chosen.width),
                remaining(image.height, chosen.y, chosen.height),
                scaled_width(natural_width, 320),
                RECOGNIZER_HEIGHT,
            )
        }),
        forall|channel: usize, byte: u8| channel < 3 ==> call_requires(*value, (channel, byte)),
    ensures
        ({
            let chosen = chosen_part(*image, part);
            match result {
                Ok(input) => {
                    &&& chosen.width != 0 && chosen.height != 0
                    &&& is_recognizer_input(
                        *image,
                        chosen,
                        natural_width,
                        320,
                        zero,
                        *value,
                        input,
                    )
                },
                Err(error) => {
                    &&& chosen.width == 0 || chosen.height == 0
                    &&& error == PreprocessError::EmptyCrop
                },
            }
        }),
{
    let chosen: Crop = match part {
        Some(part) => part,
        None => Crop { x: 0, y: 0, width: image.width, height: image.height },
    };
    match prepare_recognizer(image, chosen, natural_width, 320, zero, value) {
        Ok(prepared) => {
            let expected: [usize; 4] = RECOGNIZER_SHAPE;
            assert(expected@ =~= seq![1usize, 3usize, 48usize, 320usize]);
            match assert_shape(&prepared, expected) {
                Ok(()) => Ok(prepared),
                Err(error) => Err(error),
            }
        },
        Err(error) => Err(error),
    }
}

/// The sides of a box: left, top, right, bottom.
#[derive(Clone, Copy, Debug, PartialEq, Eq, Structural)]
pub struct Sides {
    pub left: u32,
    pub top: u32,
    pub right: u32,
    pub bottom: u32,
}

impl Sides {
    /// Whether the box has pixels.
    pub open spec fn filled(self) -> bool {
        self.left < self.right && self.top < self.bottom
    }

    /// The part of an image within the box.
    pub open spec fn part(self) -> Crop {
        Crop {
            x: self.left,
            y: self.top,
            width: (self.right - self.left) as u32,
            height: (self.bottom - self.top) as u32,
        }
    }
}

/// Whether the box at `index` is the first of the widest among those with pixels.
pub open spec fn is_longest(boxes: Seq<Sides>, index: int) -> bool {
    &&& 0 <= index < boxes.len()
    &&& boxes[index].filled()
    &&& forall|i: int|
        0 <= i < boxes.len() && #[trigger] boxes[i].filled() ==> boxes[i].right - boxes[i].left
            <= boxes[index].right - boxes[index].left
    &&& forall|i: int|
        0 <= i < index && #[trigger] boxes[i].filled() ==> boxes[i].right - boxes[i].left
            < boxes[index].right - boxes[index].left
}

/// The widest box with pixels, the first of those of equal width.
pub fn longest_crop(boxes: &[Sides]) -> (result: Option<Crop>)
    ensures
        match result {
            Some(part) => exists|index: int| #[trigger]
                is_longest(boxes@, index) && part == boxes@[index].part(),
            None => forall|i: int| 0 <= i < boxes@.len() ==> !#[trigger] boxes@[i].filled(),
        },
{
    let mut best: Option<Crop> = None;
    let ghost mut place: int = 0;
    for index in 0..boxes.len()
        invariant
            match best {
                Some(part) => {
                    &&& 0 <= place < index
                    &&& is_longest(boxes@.take(index as int), place)
                    &&& part == boxes@[place].part()
                },
                None => forall|i: int| 0 <= i < index ==> !#[trigger] boxes@[i].filled(),
            },
    {
        let sides: Sides = boxes[index];
        let ghost head = boxes@.take(index as int);
        let ghost longer = boxes@.take(index + 1);
        proof {
            assert forall|i: int| 0 <= i < index implies #[trigger] longer[i] == head[i] by {}
            assert(longer[index as int] == sides);
            assert forall|i: int| 0 <= i < index implies #[trigger] head[i] == boxes@[i] by {}
        }
        if sides.left < sides.right && sides.top < sides.bottom {
            let part: Crop = Crop {
                x: sides.left,
                y: sides.top,
                width: sides.right - sides.left,
                height: sides.bottom - sides.top,
            };
            let wider: bool = match best {
                Some(current) => part.width > current.width,
                None => true,
            };
            proof {
                if wider {
                    assert forall|i: int|
                        0 <= i < index && #[trigger] longer[i].filled() implies longer[i].right
                        - longer[i].left < sides.right - sides.left by {
                        assert(longer[i] == boxes@[i]);
                        if best is Some {
                            assert(head[i].filled());
                        }
                    }
                    assert(is_longest(longer, index as int));
                    place = index as int;
                } else {
                    assert(is_longest(longer, place));
                }
            }
            if wider {
                best = Some(part);
            }
        } else {
            proof {
                if best is Some {
                    assert(is_longest(longer, place));
                }
            }
        }
    }
    assert(boxes@.take(boxes@.len() as int) =~= boxes@);
    best
}

} // verus!
