//! The picture inside an outline, turned upright.
use vstd::prelude::*;
use crate::images::{byte_at, byte_count, lemma_byte_at, Image};
use crate::single::Single;

verus! {

/// A corner of an outline.
#[derive(Clone, Copy, Debug, PartialEq, Eq, Structural)]
pub struct Corner {
    pub x: Single,
    pub y: Single,
}

/// Why a picture could not be turned upright.
#[derive(Clone, Copy, Debug, PartialEq, Eq, Structural)]
pub enum RectifyError {
    /// The image has no pixels.
    EmptyImage,
    /// A corner is not finite.
    NonFinite,
    /// The outline has no size, or one that cannot be held.
    Size,
}

/// A point of an image: the pixel that holds it, and how far it lies from that
/// pixel's middle towards the next ones across and down.
#[derive(Clone, Copy)]
pub struct Spot {
    pub x: u32,
    pub y: u32,
    pub across: Single,
    pub down: Single,
}

/// The lesser of two numbers.
pub open spec fn at_most(value: int, limit: int) -> int {
    if value < limit {
        value
    } else {
        limit
    }
}

/// Whether a colour may be what the colours of the four pixels around a spot are
/// blended to. Beyond the last row or column the last one is taken.
pub open spec fn blends<B: Fn(u8, u8, u8, u8, Single, Single) -> u8>(
    image: Image,
    blend: B,
    spot: Spot,
    channel: int,
    colour: u8,
) -> bool {
    let left = at_most(spot.x as int, image.width - 1);
    let top = at_most(spot.y as int, image.height - 1);
    let right = at_most(left + 1, image.width - 1);
    let bottom = at_most(top + 1, image.height - 1);
    call_ensures(
        blend,
        (
            image.at(left, top, channel),
            image.at(right, top, channel),
            image.at(left, bottom, channel),
            image.at(right, bottom, channel),
            spot.across,
            spot.down,
        ),
        colour,
    )
}

/// Whether the colours of a pixel are those at its spot in the image.
pub open spec fn shows<
    P: Fn(u32, u32, u32, u32) -> Spot,
    B: Fn(u8, u8, u8, u8, Single, Single) -> u8,
>(image: Image, place: P, blend: B, width: u32, height: u32, x: int, y: int, result: Seq<u8>) -> bool {
    exists|spot: Spot|
        {
            &&& #[trigger] call_ensures(place, (width, height, x as u32, y as u32), spot)
            &&& blends(image, blend, spot, 0, result[byte_at(width as int, x, y, 0)])
            &&& blends(image, blend, spot, 1, result[byte_at(width as int, x, y, 1)])
            &&& blends(image, blend, spot, 2, result[byte_at(width as int, x, y, 2)])
        }
}

/// Whether all corners are finite.
pub open spec fn corners_finite(polygon: Seq<Corner>) -> bool {
    forall|i: int| 0 <= i < polygon.len() ==> (#[trigger] polygon[i]).x.finite() && polygon[i].y.finite()
}

fn are_corners_finite(polygon: &[Corner; 4]) -> (result: bool)
    ensures
        result == corners_finite(polygon@),
{
    for index in 0..4usize
        invariant
            forall|i: int|
                0 <= i < index ==> (#[trigger] polygon@[i]).x.finite() && polygon@[i].y.finite(),
    {
        let corner: Corner = polygon[index];
        if !corner.x.is_finite() || !corner.y.is_finite() {
            assert(!(polygon@[index as int].x.finite() && polygon@[index as int].y.finite()));
            return false;
        }
    }
    true
}

fn colour_at(image: &Image, x: u32, y: u32, channel: usize) -> (result: u8)
    requires
        image.wf(),
        x < image.width,
        y < image.height,
        channel < 3,
    ensures
        result == image.at(x as int, y as int, channel as int),
{
    proof {
        lemma_byte_at(
            image.width as int,
            image.height as int,
            x as int,
            y as int,
            channel as int,
        );
    }
    let length: usize = image.pixels.len();
    assert(length == byte_count(image.width as int, image.height as int));
    let row: usize = y as usize * image.width as usize;
    image.pixels[(row + x as usize) * 3 + channel]
}

/// The picture inside an outline. `measure` tells its size from the corners,
/// `place` the spot of the image that a pixel of the picture shows, and `blend`
/// one colour from those of the four pixels around a spot.
#[verifier::spinoff_prover]
pub fn rectify_text_crop<
    S: Fn([Corner; 4]) -> Option<(u32, u32)>,
    P: Fn(u32, u32, u32, u32) -> Spot,
    B: Fn(u8, u8, u8, u8, Single, Single) -> u8,
>(image: &Image, polygon: [Corner; 4], measure: &S, place: &P, blend: &B) -> (result: Result<
    Image,
    RectifyError,
>)
    requires
        image.wf(),
        forall|corners: [Corner; 4]| #[trigger] call_requires(*measure, (corners,)),
        forall|w: u32, h: u32, x: u32, y: u32| #[trigger] call_requires(*place, (w, h, x, y)),
        forall|a: u8, b: u8, c: u8, d: u8, across: Single, down: Single| #[trigger]
            call_requires(*blend, (a, b, c, d, across, down)),
    ensures
        match result {
            Ok(picture) => {
                &&& image.width > 0 && image.height > 0
                &&& corners_finite(polygon@)
                &&& picture.wf()
                &&& call_ensures(*measure, (polygon,), Some((picture.width, picture.height)))
                &&& forall|x: int, y: int|
                    0 <= x < picture.width && 0 <= y < picture.height ==> #[trigger] shows(
                        *image,
                        *place,
                        *blend,
                        picture.width,
                        picture.height,
                        x,
                        y,
                        picture.pixels@,
                    )
            },
            Err(RectifyError::EmptyImage) => image.width == 0 || image.height == 0,
            Err(RectifyError::NonFinite) => image.width > 0 && image.height > 0
                && !corners_finite(polygon@),
            Err(RectifyError::Size) => {
                &&& image.width > 0 && image.height > 0
                &&& corners_finite(polygon@)
                &&& exists|size: Option<(u32, u32)>| #[trigger]
                    call_ensures(*measure, (polygon,), size) && match size {
                        None => true,
                        Some((width, height)) => byte_count(width as int, height as int)
                            > usize::MAX,
                    }
            },
        },
{
    if image.width == 0 || image.height == 0 {
        return Err(RectifyError::EmptyImage);
    }
    if !are_corners_finite(&polygon) {
        return Err(RectifyError::NonFinite);
    }
    let size: Option<(u32, u32)> = measure(polygon);
    assert(call_ensures(*measure, (polygon,), size));
    let (width, height): (u32, u32) = match size {
        None => {
            return Err(RectifyError::Size);
        },
        Some(size) => size,
    };
    let wide: u128 = width as u128;
    let high: u128 = height as u128;
    assert(wide * high * 3 <= 0xffff_ffff * 0xffff_ffff * 3) by (nonlinear_arith)
        requires
            wide <= 0xffff_ffff,
            high <= 0xffff_ffff,
    ;
    assert(wide * high <= wide * high * 3) by (nonlinear_arith)
        requires
            wide * high >= 0,
    ;
    if wide * high * 3 > usize::MAX as u128 {
        return Err(RectifyError::Size);
    }
    let mut pixels: Vec<u8> = Vec::new();
    assert(byte_count(width as int, 0) == 0);
    for y in 0..height
        invariant
            image.wf(),
            image.width > 0 && image.height > 0,
            forall|w: u32, h: u32, x: u32, y: u32| #[trigger] call_requires(*place, (w, h, x, y)),
            forall|a: u8, b: u8, c: u8, d: u8, across: Single, down: Single| #[trigger]
                call_requires(*blend, (a, b, c, d, across, down)),
            pixels@.len() == byte_count(width as int, y as int),
            forall|column: int, row: int|
                0 <= column < width && 0 <= row < y ==> #[trigger] shows(
                    *image,
                    *place,
                    *blend,
                    width,
                    height,
                    column,
                    row,
                    pixels@,
                ),
    {
        proof {
            assert(byte_count(width as int, y as int) == (y * width + 0) * 3) by (nonlinear_arith)
                requires
                    byte_count(width as int, y as int) == width * y * 3,
            ;
            assert forall|column: int, row: int|
                0 <= column < width && 0 <= row && row * width + column < y
                    * width implies #[trigger] shows(
                *image,
                *place,
                *blend,
                width,
                height,
                column,
                row,
                pixels@,
            ) by {
                assert(row < y) by (nonlinear_arith)
                    requires
                        row * width + column < y * width,
                        0 <= column,
                        width >= 0,
                ;
            }
        }
        for x in 0..width
            invariant
                y < height,
                image.wf(),
                image.width > 0 && image.height > 0,
                forall|w: u32, h: u32, x: u32, y: u32| #[trigger]
                    call_requires(*place, (w, h, x, y)),
                forall|a: u8, b: u8, c: u8, d: u8, across: Single, down: Single| #[trigger]
                    call_requires(*blend, (a, b, c, d, across, down)),
                pixels@.len() == (y * width + x) * 3,
                forall|column: int, row: int|
                    0 <= column < width && 0 <= row && row * width + column < y * width + x
                        ==> #[trigger] shows(
                        *image,
                        *place,
                        *blend,
                        width,
                        height,
                        column,
                        row,
                        pixels@,
                    ),
        {
            let spot: Spot = place(width, height, x, y);
            let last_column: u32 = image.width - 1;
            let last_row: u32 = image.height - 1;
            let left: u32 = if spot.x < last_column {
                spot.x
            } else {
                last_column
            };
            let top: u32 = if spot.y < last_row {
                spot.y
            } else {
                last_row
            };
            let right: u32 = if left < last_column {
                left + 1
            } else {
                last_column
            };
            let bottom: u32 = if top < last_row {
                top + 1
            } else {
                last_row
            };
            let ghost before = pixels@;
            for channel in 0..3usize
                invariant
                    image.wf(),
                    left < image.width && right < image.width,
                    top < image.height && bottom < image.height,
                    left == at_most(spot.x as int, image.width - 1),
                    top == at_most(spot.y as int, image.height - 1),
                    right == at_most(left + 1, image.width - 1),
                    bottom == at_most(top + 1, image.height - 1),
                    forall|a: u8, b: u8, c: u8, d: u8, across: Single, down: Single| #[trigger]
                        call_requires(*blend, (a, b, c, d, across, down)),
                    pixels@.len() == before.len() + channel,
                    pixels@.take(before.len() as int) =~= before,
                    forall|c: int|
                        0 <= c < channel ==> blends(
                            *image,
                            *blend,
                            spot,
                            c,
                            #[trigger] pixels@[before.len() + c],
                        ),
            {
                let colour: u8 = blend(
                    colour_at(image, left, top, channel),
                    colour_at(image, right, top, channel),
                    colour_at(image, left, bottom, channel),
                    colour_at(image, right, bottom, channel),
                    spot.across,
                    spot.down,
                );
                let ghost earlier = pixels@;
                pixels.push(colour);
                assert(pixels@.take(before.len() as int) =~= earlier.take(before.len() as int));
            }
            proof {
                assert(blends(*image, *blend, spot, 0, pixels@[before.len() as int + 0]));
                assert(blends(*image, *blend, spot, 1, pixels@[before.len() as int + 1]));
                assert(blends(*image, *blend, spot, 2, pixels@[before.len() as int + 2]));
                assert(call_ensures(*place, (width, height, x, y), spot));
                assert(shows(*image, *place, *blend, width, height, x as int, y as int, pixels@));
                assert forall|column: int, row: int|
                    0 <= column < width && 0 <= row && row * width + column < y * width + x
                        + 1 implies #[trigger] shows(
                    *image,
                    *place,
                    *blend,
                    width,
                    height,
                    column,
                    row,
                    pixels@,
                ) by {
                    if row * width + column < y * width + x {
                        assert(shows(
                            *image,
                            *place,
                            *blend,
                            width,
                            height,
                            column,
                            row,
                            before,
                        ));
                        assert(row * width >= 0) by (nonlinear_arith)
                            requires
                                row >= 0,
                                width >= 0,
                        ;
                        assert forall|c: int| 0 <= c < 3 implies pixels@[#[trigger] byte_at(
                            width as int,
                            column,
                            row,
                            c,
                        )] == before[byte_at(width as int, column, row, c)] by {
                            assert(pixels@.take(before.len() as int)[byte_at(
                                width as int,
                                column,
                                row,
                                c,
                            )] == pixels@[byte_at(width as int, column, row, c)]);
                        }
                        assert(byte_at(width as int, column, row, 0) >= 0);
                        assert(byte_at(width as int, column, row, 1) >= 0);
                        assert(byte_at(width as int, column, row, 2) >= 0);
                    } else {
                        crate::index::lemma_decode(row, column, width as int);
                        crate::index::lemma_decode(y as int, x as int, width as int);
                    }
                }
            }
        }
        proof {
            assert((y + 1) * width == y * width + width) by (nonlinear_arith);
            assert(byte_count(width as int, y + 1) == (y * width + width) * 3) by (nonlinear_arith)
                requires
                    byte_count(width as int, y + 1) == width * (y + 1) * 3,
            ;
            assert forall|column: int, row: int|
                0 <= column < width && 0 <= row < y + 1 implies #[trigger] shows(
                *image,
                *place,
                *blend,
                width,
                height,
                column,
                row,
                pixels@,
            ) by {
                assert(row * width + column < y * width + width) by (nonlinear_arith)
                    requires
                        row <= y,
                        column < width,
                        width >= 0,
                ;
            }
        }
    }
    Ok(Image { width, height, pixels })
}

} // verus!
