//! Long text lines cut into parts that fit the recognizer.
use vstd::prelude::*;
use crate::images::{crop, is_crop, Image};

verus! {

/// The most parts that a line is cut into.
pub const MAX_RECOGNITION_CHUNKS: usize = 64;

/// Why a line could not be cut.
#[derive(Clone, Copy, Debug, PartialEq, Eq, Structural)]
pub enum SplitError {
    /// The line has no pixels.
    EmptyCrop,
    /// The widest part is too wide to count.
    WidthOverflow,
    /// The line needs more than the most parts.
    TooManyChunks,
}

/// The widest part of a line of this height: 320 columns for 48 rows.
pub open spec fn widest(height: int) -> int {
    if height * 320 / 48 < 1 {
        1
    } else {
        height * 320 / 48
    }
}

/// The number of columns that neighbouring parts share.
pub open spec fn shared(widest: int) -> int {
    if widest > 1 {
        if widest / 6 < 1 {
            1
        } else {
            widest / 6
        }
    } else {
        0
    }
}

/// The distance between the starts of neighbouring parts.
pub open spec fn step(widest: int) -> int {
    widest - shared(widest)
}

/// The number of parts of a line.
pub open spec fn chunk_count(width: int, widest: int) -> int {
    if width <= widest {
        1
    } else {
        1 + (width - widest + step(widest) - 1) / step(widest)
    }
}

/// The first column of a part.
pub open spec fn chunk_start(widest: int, index: int) -> int {
    index * step(widest)
}

/// The width of a part.
pub open spec fn chunk_width(width: int, widest: int, index: int) -> int {
    if width - chunk_start(widest, index) < widest {
        width - chunk_start(widest, index)
    } else {
        widest
    }
}

/// Why a line cannot be cut; `None` where it can.
pub open spec fn split_error(width: int, height: int) -> Option<SplitError> {
    if width == 0 || height == 0 {
        Some(SplitError::EmptyCrop)
    } else if height * 320 > usize::MAX || widest(height) > u32::MAX {
        Some(SplitError::WidthOverflow)
    } else if chunk_count(width, widest(height)) > MAX_RECOGNITION_CHUNKS {
        Some(SplitError::TooManyChunks)
    } else {
        None
    }
}

proof fn lemma_step(widest: int)
    requires
        widest >= 1,
    ensures
        1 <= step(widest) <= widest,
        0 <= shared(widest) < widest,
        widest > 1 ==> shared(widest) >= 1,
{
}

/// All parts but the last leave columns for the next, and the last reaches the end.
proof fn lemma_count(width: int, widest: int)
    requires
        widest >= 1,
        width >= 1,
    ensures
        chunk_count(width, widest) >= 1,
        forall|i: int|
            0 <= i < chunk_count(width, widest) - 1 ==> #[trigger] chunk_start(widest, i) + widest
                < width,
        chunk_start(widest, chunk_count(width, widest) - 1) + widest >= width,
        forall|i: int|
            0 <= i < chunk_count(width, widest) ==> 0 <= #[trigger] chunk_start(widest, i) < width,
{
    lemma_step(widest);
    let stride = step(widest);
    let count = chunk_count(width, widest);
    if width > widest {
        let over = width - widest;
        let parts = (over + stride - 1) / stride;
        assert(parts * stride >= over && (parts - 1) * stride < over && parts >= 1)
            by (nonlinear_arith)
            requires
                parts == (over + stride - 1) / stride,
                stride >= 1,
                over >= 1,
        ;
        assert forall|i: int| 0 <= i < count - 1 implies #[trigger] chunk_start(widest, i) + widest
            < width by {
            assert(i * stride <= (parts - 1) * stride) by (nonlinear_arith)
                requires
                    i <= parts - 1,
                    stride >= 1,
            ;
        }
        assert forall|i: int| 0 <= i < count implies 0 <= #[trigger] chunk_start(widest, i)
            < width by {
            assert(0 <= i * stride) by (nonlinear_arith)
                requires
                    0 <= i,
                    stride >= 1,
            ;
            if i > 0 {
                assert(chunk_start(widest, i - 1) + widest < width);
                assert(i * stride == (i - 1) * stride + stride) by (nonlinear_arith);
            }
        }
    } else {
        assert(chunk_start(widest, 0) == 0);
    }
}

/// The parts of a line cover every column; each has at least one column and
/// none is wider than the widest; the first begins at the first column and the
/// last ends at the last.
pub proof fn lemma_chunks_cover(width: int, widest: int, column: int)
    requires
        widest >= 1,
        0 <= column < width,
    ensures
        chunk_start(widest, 0) == 0,
        chunk_start(widest, chunk_count(width, widest) - 1) + chunk_width(
            width,
            widest,
            chunk_count(width, widest) - 1,
        ) == width,
        forall|i: int|
            0 <= i < chunk_count(width, widest) ==> 1 <= #[trigger] chunk_width(width, widest, i)
                <= widest,
        exists|i: int|
            0 <= i < chunk_count(width, widest) && chunk_start(widest, i) <= column < chunk_start(
                widest,
                i,
            ) + #[trigger] chunk_width(width, widest, i),
{
    lemma_step(widest);
    lemma_count(width, widest);
    let stride = step(widest);
    let count = chunk_count(width, widest);
    assert(chunk_start(widest, 0) == 0);
    assert forall|i: int| 0 <= i < count implies 1 <= #[trigger] chunk_width(width, widest, i)
        <= widest by {
        assert(0 <= chunk_start(widest, i) < width);
    }
    let q = column / stride;
    assert(0 <= q && q * stride <= column < q * stride + stride) by (nonlinear_arith)
        requires
            q == column / stride,
            stride >= 1,
            column >= 0,
    ;
    if q < count {
        assert(chunk_start(widest, q) == q * stride);
        assert(chunk_start(widest, q) <= column < chunk_start(widest, q) + chunk_width(
            width,
            widest,
            q,
        ));
    } else {
        let last = count - 1;
        assert(last * stride <= column) by (nonlinear_arith)
            requires
                last <= q,
                q * stride <= column,
                stride >= 1,
        ;
        assert(chunk_start(widest, last) <= column < chunk_start(widest, last) + chunk_width(
            width,
            widest,
            last,
        ));
    }
}

/// Neighbouring parts share the same number of columns, at least one where a
/// part can have more than one.
pub proof fn lemma_chunks_overlap(width: int, widest: int, index: int)
    requires
        widest >= 1,
        width >= 1,
        0 <= index < chunk_count(width, widest) - 1,
    ensures
        chunk_start(widest, index) + chunk_width(width, widest, index) - chunk_start(
            widest,
            index + 1,
        ) == shared(widest),
        widest > 1 ==> shared(widest) >= 1,
{
    lemma_step(widest);
    lemma_count(width, widest);
    let stride = step(widest);
    assert((index + 1) * stride == index * stride + stride) by (nonlinear_arith);
    assert(chunk_start(widest, index) + widest < width);
}

/// Cuts a line into parts of the recognizer's proportions that overlap.
pub fn split_recognition_crop(image: &Image) -> (result: Result<Vec<Image>, SplitError>)
    requires
        image.wf(),
    ensures
        match (split_error(image.width as int, image.height as int), result) {
            (Some(wanted), Err(error)) => error == wanted,
            (None, Ok(parts)) => {
                let most = widest(image.height as int);
                &&& parts@.len() == chunk_count(image.width as int, most)
                &&& forall|i: int|
                    0 <= i < parts@.len() ==> is_crop(
                        *image,
                        chunk_start(most, i) as u32,
                        0,
                        chunk_width(image.width as int, most, i) as u32,
                        image.height,
                        #[trigger] parts@[i],
                    )
            },
            _ => false,
        },
{
    if image.width == 0 || image.height == 0 {
        return Err(SplitError::EmptyCrop);
    }
    let product: u64 = image.height as u64 * 320;
    if product > usize::MAX as u64 {
        return Err(SplitError::WidthOverflow);
    }
    let scaled: u64 = product / 48;
    let wide: u64 = if scaled < 1 {
        1
    } else {
        scaled
    };
    if wide > u32::MAX as u64 {
        return Err(SplitError::WidthOverflow);
    }
    let most: u32 = wide as u32;
    let overlap: u32 = if most > 1 {
        if most / 6 < 1 {
            1
        } else {
            most / 6
        }
    } else {
        0
    };
    let stride: u32 = most - overlap;
    let ghost count = chunk_count(image.width as int, most as int);
    proof {
        lemma_step(most as int);
        lemma_count(image.width as int, most as int);
    }
    let mut parts: Vec<Image> = Vec::new();
    let mut start: u32 = 0;
    assert(chunk_start(most as int, 0) == 0);
    loop
        invariant_except_break
            parts@.len() < count,
            start == chunk_start(most as int, parts@.len() as int),
            start < image.width,
        invariant
            image.wf(),
            image.width > 0,
            image.height > 0,
            image.height * 320 <= usize::MAX,
            most == widest(image.height as int),
            stride == step(most as int),
            count == chunk_count(image.width as int, most as int),
            parts@.len() <= MAX_RECOGNITION_CHUNKS,
            forall|i: int|
                0 <= i < parts@.len() ==> is_crop(
                    *image,
                    chunk_start(most as int, i) as u32,
                    0,
                    chunk_width(image.width as int, most as int, i) as u32,
                    image.height,
                    #[trigger] parts@[i],
                ),
        ensures
            parts@.len() == count,
        decreases count - parts@.len(),
    {
        if parts.len() == MAX_RECOGNITION_CHUNKS {
            return Err(SplitError::TooManyChunks);
        }
        let ghost index: int = parts@.len() as int;
        proof {
            lemma_count(image.width as int, most as int);
        }
        let left: u32 = image.width - start;
        let width: u32 = if left < most {
            left
        } else {
            most
        };
        parts.push(crop(image, start, 0, width, image.height));
        if width == left {
            assert(index == count - 1) by {
                if index < count - 1 {
                    assert(chunk_start(most as int, index) + most < image.width);
                }
            }
            break;
        }
        proof {
            assert(index < count - 1) by {
                if index == count - 1 {
                    assert(chunk_start(most as int, count - 1) + most >= image.width);
                }
            }
            assert((index + 1) * stride == index * stride + stride) by (nonlinear_arith);
            assert(0 <= chunk_start(most as int, index + 1) < image.width);
        }
        start = start + stride;
    }
    Ok(parts)
}

} // verus!
