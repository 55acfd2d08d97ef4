//! Images of eight-bit red, green and blue, and the operations on them that
//! the `image` crate provides.
use vstd::prelude::*;

verus! {

/// The longest edge whose pixels keep their places where single precision rounds.
pub const EDGE_LIMIT: u32 = 1_048_576;

/// An image, row by row, with three bytes for each pixel.
pub struct Image {
    pub width: u32,
    pub height: u32,
    pub pixels: Vec<u8>,
}

impl Image {
    /// Whether the bytes go with the size.
    pub open spec fn wf(self) -> bool {
        self.pixels@.len() == byte_count(self.width as int, self.height as int)
    }

    /// The colour of a pixel: 0 is red, 1 is green, 2 is blue.
    pub open spec fn at(self, x: int, y: int, channel: int) -> u8 {
        self.pixels@[byte_at(self.width as int, x, y, channel)]
    }

    /// An image from its size and its bytes; `None` where they do not go together.
    pub fn from_pixels(width: u32, height: u32, pixels: Vec<u8>) -> (result: Option<Image>)
        ensures
            match result {
                Some(image) => image.wf() && image.width == width && image.height == height
                    && image.pixels@ == pixels@,
                None => pixels@.len() != byte_count(width as int, height as int),
            },
    {
        let wide: u128 = width as u128;
        let high: u128 = height as u128;
        assert(wide * high * 3 <= 0xffff_ffff * 0xffff_ffff * 3) by (nonlinear_arith)
            requires
                wide <= 0xffff_ffff,
                high <= 0xffff_ffff,
        ;
        assert(wide * high <= wide * high * 3) by (nonlinear_arith)
            requires
                wide * high >= 0,
        ;
        if pixels.len() as u128 == wide * high * 3 {
            Some(Image { width, height, pixels })
        } else {
            None
        }
    }
}

/// The number of bytes of an image.
pub open spec fn byte_count(width: int, height: int) -> int {
    width * height * 3
}

/// The place of the byte of a pixel and a colour.
pub open spec fn byte_at(width: int, x: int, y: int, channel: int) -> int {
    (y * width + x) * 3 + channel
}

/// The bytes of a pixel of the image lie within its bytes.
pub proof fn lemma_byte_at(width: int, height: int, x: int, y: int, channel: int)
    requires
        0 <= x < width,
        0 <= y < height,
        0 <= channel < 3,
    ensures
        0 <= byte_at(width, x, y, channel) < byte_count(width, height),
        0 <= y * width <= y * width + x < width * height,
{
    assert(y * width + x < width * height) by (nonlinear_arith)
        requires
            0 <= x < width,
            0 <= y < height,
    ;
    assert(y * width >= 0) by (nonlinear_arith)
        requires
            y >= 0,
            width > 0,
    ;
}

/// The part of an extent that remains from a start, at most `wanted`.
pub open spec fn remaining(extent: u32, start: u32, wanted: u32) -> u32 {
    let left: u32 = if start > extent {
        0
    } else {
        (extent - start) as u32
    };
    if wanted > left {
        left
    } else {
        wanted
    }
}

/// Whether an image is the part of another that begins at `x` and `y` and is
/// at most `width` by `height`.
pub open spec fn is_crop(
    image: Image,
    x: u32,
    y: u32,
    width: u32,
    height: u32,
    result: Image,
) -> bool {
    &&& result.wf()
    &&& result.width == remaining(image.width, x, width)
    &&& result.height == remaining(image.height, y, height)
    &&& forall|column: int, row: int, channel: int|
        0 <= column < result.width && 0 <= row < result.height && 0 <= channel < 3
            ==> #[trigger] result.at(column, row, channel) == image.at(
            x + column,
            y + row,
            channel,
        )
}

/// `image::imageops::crop_imm` and `SubImage::to_image`: the part of an image
/// that begins at `x` and `y`, cut off at the image's edges.
#[verifier::external_body]
fn crop_imm(image: &Image, x: u32, y: u32, width: u32, height: u32) -> (result: Image)
    requires
        image.wf(),
        image.width > 0,
        image.height > 0,
    ensures
        is_crop(*image, x, y, width, height, result),
{
    let source = image::RgbImage::from_raw(image.width, image.height, image.pixels.clone())
        .expect("the bytes go with the size");
    let part = image::imageops::crop_imm(&source, x, y, width, height).to_image();
    Image { width: part.width(), height: part.height(), pixels: part.into_raw() }
}

fn remaining_of(extent: u32, start: u32, wanted: u32) -> (result: u32)
    ensures
        result == remaining(extent, start, wanted),
{
    let left: u32 = if start > extent {
        0
    } else {
        extent - start
    };
    if wanted > left {
        left
    } else {
        wanted
    }
}

/// The part of an image that begins at `x` and `y`, cut off at the image's edges.
pub fn crop(image: &Image, x: u32, y: u32, width: u32, height: u32) -> (result: Image)
    requires
        image.wf(),
    ensures
        is_crop(*image, x, y, width, height, result),
{
    if image.width == 0 || image.height == 0 {
        let wide: u32 = remaining_of(image.width, x, width);
        let high: u32 = remaining_of(image.height, y, height);
        assert(byte_count(wide as int, high as int) == 0) by (nonlinear_arith)
            requires
                wide == 0 || high == 0,
                byte_count(wide as int, high as int) == wide * high * 3,
        ;
        return Image { width: wide, height: high, pixels: Vec::new() };
    }
    crop_imm(image, x, y, width, height)
}

/// The bytes that `image::imageops::resize` gives with the triangle filter.
pub uninterp spec fn resampled(
    width: u32,
    height: u32,
    pixels: Seq<u8>,
    new_width: u32,
    new_height: u32,
) -> Seq<u8>;

/// The bytes of an image at another size: black where the image has no pixels.
pub open spec fn scaled_bytes(
    width: u32,
    height: u32,
    pixels: Seq<u8>,
    new_width: u32,
    new_height: u32,
) -> Seq<u8> {
    if width == 0 || height == 0 {
        Seq::new(byte_count(new_width as int, new_height as int) as nat, |i: int| 0u8)
    } else {
        resampled(width, height, pixels, new_width, new_height)
    }
}

/// Whether an edge can be resampled: its old or its new length is within the
/// limit. Longer ones lose their places to rounding, and a pixel may then have
/// no weights.
pub open spec fn resamples(length: u32, new_length: u32) -> bool {
    length <= EDGE_LIMIT || new_length <= EDGE_LIMIT
}

/// Whether an image can be resized: the new one has pixels and can be held in
/// memory, and so can what is made on the way to it, where something is: an image
/// of the old width and the new height with four numbers of four bytes for each
/// pixel, and a list, twice as long as need be, of one such number for each row.
pub open spec fn resizable(width: u32, height: u32, new_width: u32, new_height: u32) -> bool {
    &&& 0 < new_width && 0 < new_height
    &&& new_width * new_height * 3 <= isize::MAX
    &&& {
        ||| width == 0 || height == 0
        ||| width == new_width && height == new_height
        ||| resamples(width, new_width) && resamples(height, new_height) && width * new_height * 16
            <= isize::MAX && height * 8 <= isize::MAX
    }
}

/// Whether an image can be resized.
pub fn is_resizable(width: u32, height: u32, new_width: u32, new_height: u32) -> (result: bool)
    ensures
        result == resizable(width, height, new_width, new_height),
{
    if new_width == 0 || new_height == 0 {
        return false;
    }
    let wide: u128 = width as u128;
    let high: u128 = height as u128;
    let new_wide: u128 = new_width as u128;
    let new_high: u128 = new_height as u128;
    assert(wide * new_high <= 0xffff_ffff * 0xffff_ffff) by (nonlinear_arith)
        requires
            wide <= 0xffff_ffff,
            new_high <= 0xffff_ffff,
    ;
    assert(new_wide * new_high <= 0xffff_ffff * 0xffff_ffff) by (nonlinear_arith)
        requires
            new_wide <= 0xffff_ffff,
            new_high <= 0xffff_ffff,
    ;
    if new_wide * new_high * 3 > isize::MAX as u128 {
        return false;
    }
    if width == 0 || height == 0 || (width == new_width && height == new_height) {
        return true;
    }
    (width <= EDGE_LIMIT || new_width <= EDGE_LIMIT) && (height <= EDGE_LIMIT || new_height
        <= EDGE_LIMIT) && wide * new_high * 16 <= isize::MAX as u128 && high * 8
        <= isize::MAX as u128
}

/// `image::imageops::resize` with `FilterType::Triangle`: the bytes are
/// `resampled`, three for each new pixel. An image that has the new size
/// already is copied.
#[verifier::external_body]
fn resize_triangle(image: &Image, new_width: u32, new_height: u32) -> (result: Image)
    requires
        image.wf(),
        image.width > 0,
        image.height > 0,
        resizable(image.width, image.height, new_width, new_height),
    ensures
        result.wf(),
        result.width == new_width,
        result.height == new_height,
        result.pixels@ == resampled(
            image.width,
            image.height,
            image.pixels@,
            new_width,
            new_height,
        ),
        image.width == new_width && image.height == new_height ==> result.pixels@ == image.pixels@,
{
    let source = image::RgbImage::from_raw(image.width, image.height, image.pixels.clone())
        .expect("the bytes go with the size");
    let filter = image::imageops::FilterType::Triangle;
    let scaled = image::imageops::resize(&source, new_width, new_height, filter);
    Image { width: scaled.width(), height: scaled.height(), pixels: scaled.into_raw() }
}

/// The image resampled to another size; a black one where it has no pixels.
pub fn resize(image: &Image, new_width: u32, new_height: u32) -> (result: Image)
    requires
        image.wf(),
        resizable(image.width, image.height, new_width, new_height),
    ensures
        result.wf(),
        result.width == new_width,
        result.height == new_height,
        result.pixels@ == scaled_bytes(
            image.width,
            image.height,
            image.pixels@,
            new_width,
            new_height,
        ),
        image.width == new_width && image.height == new_height ==> result.pixels@ == image.pixels@,
{
    if image.width == 0 || image.height == 0 {
        let wide: u128 = new_width as u128;
        let high: u128 = new_height as u128;
        assert(0 <= wide * high * 3 <= 0xffff_ffff * 0xffff_ffff * 3) by (nonlinear_arith)
            requires
                wide <= 0xffff_ffff,
                high <= 0xffff_ffff,
        ;
        assert(wide * high <= wide * high * 3) by (nonlinear_arith)
            requires
                wide * high >= 0,
        ;
        let count: usize = (wide * high * 3) as usize;
        let mut pixels: Vec<u8> = Vec::with_capacity(count);
        while pixels.len() < count
            invariant
                pixels@.len() <= count,
                forall|i: int| 0 <= i < pixels@.len() ==> pixels@[i] == 0,
            decreases count - pixels@.len(),
        {
            pixels.push(0);
        }
        assert(pixels@ =~= scaled_bytes(
            image.width,
            image.height,
            image.pixels@,
            new_width,
            new_height,
        ));
        return Image { width: new_width, height: new_height, pixels };
    }
    resize_triangle(image, new_width, new_height)
}

} // verus!
