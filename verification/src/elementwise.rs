//! Kernels that rewrite a slice one element, or one row, at a time.
use crate::accumulate::Arithmetic;
use crate::index::lemma_row_bound;
use vstd::prelude::*;

verus! {

/// Sets every element.
pub fn fill<T: Copy>(values: &mut [T], value: T)
    ensures
        final(values)@ == Seq::new(old(values)@.len(), |index: int| value),
{
    let len: usize = values.len();
    for index in 0..len
        invariant
            len == values@.len(),
            forall|i: int| 0 <= i < index ==> #[trigger] values@[i] == value,
    {
        values[index] = value;
    }
    assert(values@ =~= Seq::new(len as nat, |index: int| value));
}

/// Replaces each element by the operation's result on it and on the element of
/// `input` at the same position.
pub fn zip_in_place<T: Copy, F: Fn(T, T) -> T>(output: &mut [T], input: &[T], operation: &F)
    requires
        old(output)@.len() == input@.len(),
        forall|a: T, b: T| #[trigger] call_requires(*operation, (a, b)),
    ensures
        final(output)@.len() == old(output)@.len(),
        forall|index: int|
            0 <= index < old(output)@.len() ==> call_ensures(
                *operation,
                (old(output)@[index], input@[index]),
                #[trigger] final(output)@[index],
            ),
{
    let ghost before = output@;
    let len: usize = output.len();
    for index in 0..len
        invariant
            len == output@.len(),
            before.len() == len,
            input@.len() == len,
            forall|a: T, b: T| #[trigger] call_requires(*operation, (a, b)),
            forall|i: int|
                0 <= i < index ==> call_ensures(
                    *operation,
                    (before[i], input@[i]),
                    #[trigger] output@[i],
                ),
            forall|i: int| index <= i < len ==> output@[i] == before[i],
    {
        let value: T = operation(output[index], input[index]);
        output[index] = value;
    }
}

/// Replaces each element by the operation's result on it.
pub fn unary_in_place<T: Copy, F: Fn(T) -> T>(values: &mut [T], operation: &F)
    requires
        forall|a: T| #[trigger] call_requires(*operation, (a,)),
    ensures
        final(values)@.len() == old(values)@.len(),
        forall|index: int|
            0 <= index < old(values)@.len() ==> call_ensures(
                *operation,
                (old(values)@[index],),
                #[trigger] final(values)@[index],
            ),
{
    let ghost before = values@;
    let len: usize = values.len();
    for index in 0..len
        invariant
            len == values@.len(),
            before.len() == len,
            forall|a: T| #[trigger] call_requires(*operation, (a,)),
            forall|i: int|
                0 <= i < index ==> call_ensures(*operation, (before[i],), #[trigger] values@[i]),
            forall|i: int| index <= i < len ==> values@[i] == before[i],
    {
        let value: T = operation(values[index]);
        values[index] = value;
    }
}

/// Adds a scaled slice: each element becomes the multiply-add of the input, the
/// scale and itself.
pub fn axpy<T: Copy, M: Fn(T, T, T) -> T>(
    arithmetic: &Arithmetic<T, M>,
    output: &mut [T],
    input: &[T],
    scale: T,
)
    requires
        arithmetic.valid(),
        old(output)@.len() == input@.len(),
    ensures
        final(output)@.len() == old(output)@.len(),
        forall|index: int|
            0 <= index < old(output)@.len() ==> call_ensures(
                arithmetic.mul_add,
                (input@[index], scale, old(output)@[index]),
                #[trigger] final(output)@[index],
            ),
{
    let ghost before = output@;
    let len: usize = output.len();
    for index in 0..len
        invariant
            arithmetic.valid(),
            len == output@.len(),
            before.len() == len,
            input@.len() == len,
            forall|i: int|
                0 <= i < index ==> call_ensures(
                    arithmetic.mul_add,
                    (input@[i], scale, before[i]),
                    #[trigger] output@[i],
                ),
            forall|i: int| index <= i < len ==> output@[i] == before[i],
    {
        let value: T = (arithmetic.mul_add)(input[index], scale, output[index]);
        output[index] = value;
    }
}

/// Scales every element and adds a constant, in one multiply-add.
pub fn affine_in_place<T: Copy, M: Fn(T, T, T) -> T>(
    arithmetic: &Arithmetic<T, M>,
    values: &mut [T],
    scale: T,
    bias: T,
)
    requires
        arithmetic.valid(),
    ensures
        final(values)@.len() == old(values)@.len(),
        forall|index: int|
            0 <= index < old(values)@.len() ==> call_ensures(
                arithmetic.mul_add,
                (old(values)@[index], scale, bias),
                #[trigger] final(values)@[index],
            ),
{
    let ghost before = values@;
    let len: usize = values.len();
    for index in 0..len
        invariant
            arithmetic.valid(),
            len == values@.len(),
            before.len() == len,
            forall|i: int|
                0 <= i < index ==> call_ensures(
                    arithmetic.mul_add,
                    (before[i], scale, bias),
                    #[trigger] values@[i],
                ),
            forall|i: int| index <= i < len ==> values@[i] == before[i],
    {
        let value: T = (arithmetic.mul_add)(values[index], scale, bias);
        values[index] = value;
    }
}

/// `result` is a gated value added to the value itself, rounded once for the
/// product and once for the sum.
pub open spec fn residual_of<T, M: Fn(T, T, T) -> T>(
    arithmetic: &Arithmetic<T, M>,
    one: T,
    original: T,
    gate: T,
    result: T,
) -> bool {
    exists|scaled: T| #[trigger]
        call_ensures(arithmetic.mul_add, (original, gate, arithmetic.zero), scaled) && call_ensures(
            arithmetic.mul_add,
            (scaled, one, original),
            result,
        )
}

/// Adds to each element its product with its factor. The product and the sum are
/// two separate steps.
pub fn residual_mul_in_place<T: Copy, M: Fn(T, T, T) -> T>(
    arithmetic: &Arithmetic<T, M>,
    one: T,
    values: &mut [T],
    gate: T,
)
    requires
        arithmetic.valid(),
    ensures
        final(values)@.len() == old(values)@.len(),
        forall|index: int|
            0 <= index < old(values)@.len() ==> residual_of(
                arithmetic,
                one,
                old(values)@[index],
                gate,
                #[trigger] final(values)@[index],
            ),
{
    let ghost before = values@;
    let len: usize = values.len();
    for index in 0..len
        invariant
            arithmetic.valid(),
            len == values@.len(),
            before.len() == len,
            forall|i: int|
                0 <= i < index ==> residual_of(
                    arithmetic,
                    one,
                    before[i],
                    gate,
                    #[trigger] values@[i],
                ),
            forall|i: int| index <= i < len ==> values@[i] == before[i],
    {
        let original: T = values[index];
        let scaled: T = (arithmetic.mul_add)(original, gate, arithmetic.zero);
        let value: T = (arithmetic.mul_add)(scaled, one, original);
        values[index] = value;
    }
}

/// The row of a row-major matrix.
pub open spec fn row_of<T>(values: Seq<T>, columns: int, row: int) -> Seq<T> {
    values.subrange(row * columns, (row + 1) * columns)
}

/// A row operation accepts every row and keeps its length.
pub open spec fn keeps_length<T, F: Fn(Vec<T>) -> Vec<T>>(operation: F) -> bool {
    &&& forall|row: Vec<T>| #[trigger] call_requires(operation, (row,))
    &&& forall|row: Vec<T>, result: Vec<T>| #[trigger]
        call_ensures(operation, (row,), result) ==> result@.len() == row@.len()
}

/// `after` is a row that the operation may give for a row with the elements of
/// `before`.
pub open spec fn row_result<T, F: Fn(Vec<T>) -> Vec<T>>(
    operation: F,
    before: Seq<T>,
    after: Seq<T>,
) -> bool {
    exists|row: Vec<T>, result: Vec<T>| #[trigger]
        call_ensures(operation, (row,), result) && row@ == before && result@ == after
}

/// Replaces each row of a row-major matrix by what the operation gives for it.
pub fn rows_in_place<T: Copy, F: Fn(Vec<T>) -> Vec<T>>(
    values: &mut [T],
    columns: usize,
    operation: &F,
)
    requires
        columns > 0,
        old(values)@.len() % (columns as nat) == 0,
        keeps_length(*operation),
    ensures
        final(values)@.len() == old(values)@.len(),
        forall|row: int|
            0 <= row < old(values)@.len() / (columns as nat) ==> row_result(
                *operation,
                row_of(old(values)@, columns as int, row),
                #[trigger] row_of(final(values)@, columns as int, row),
            ),
{
    let ghost before = values@;
    let len: usize = values.len();
    let rows: usize = len / columns;
    proof {
        vstd::arithmetic::div_mod::lemma_fundamental_div_mod(len as int, columns as int);
        assert(columns * rows == rows * columns) by (nonlinear_arith);
    }
    for row in 0..rows
        invariant
            columns > 0,
            len == values@.len(),
            before.len() == len,
            len == rows * columns,
            keeps_length(*operation),
            forall|r: int|
                0 <= r < row ==> row_result(
                    *operation,
                    row_of(before, columns as int, r),
                    #[trigger] row_of(values@, columns as int, r),
                ),
            forall|i: int| row * columns <= i < len ==> values@[i] == before[i],
    {
        proof {
            lemma_row_bound(row as int, rows as int, 0, columns as int);
        }
        let start: usize = row * columns;
        let mut source: Vec<T> = Vec::new();
        for column in 0..columns
            invariant
                len == values@.len(),
                start + columns <= len,
                source@ == values@.subrange(start as int, start + column),
        {
            source.push(values[start + column]);
            assert(source@ =~= values@.subrange(start as int, start + column + 1));
        }
        let ghost row_before = source@;
        assert(row_before =~= row_of(before, columns as int, row as int));
        let result: Vec<T> = operation(source);
        let ghost earlier = values@;
        for column in 0..columns
            invariant
                len == values@.len(),
                earlier.len() == len,
                start + columns <= len,
                result@.len() == columns,
                forall|i: int| 0 <= i < column ==> #[trigger] values@[start + i] == result@[i],
                forall|i: int|
                    0 <= i < len && !(start <= i < start + column) ==> #[trigger] values@[i]
                        == earlier[i],
        {
            values[start + column] = result[column];
        }
        assert(row_of(values@, columns as int, row as int) =~= result@) by {
            assert forall|i: int| 0 <= i < columns implies #[trigger] row_of(
                values@,
                columns as int,
                row as int,
            )[i] == result@[i] by {
                assert(values@[start + i] == result@[i]);
            }
        }
        assert forall|r: int| 0 <= r < row + 1 implies row_result(
            *operation,
            row_of(before, columns as int, r),
            #[trigger] row_of(values@, columns as int, r),
        ) by {
            if r < row {
                lemma_row_bound(r, row as int, 0, columns as int);
                assert(row_of(values@, columns as int, r) =~= row_of(earlier, columns as int, r));
            }
        }
    }
}

/// The cell of a plane, where the plane has one at this row and column.
pub open spec fn plane_cell<T>(input: Seq<T>, height: int, width: int, y: int, x: int) -> Option<
    T,
> {
    if y < height && x < width {
        Some(input[crate::index::cell_at(0, width, y, x)])
    } else {
        None
    }
}

/// `result` is the maximum over the two-by-two window whose upper left cell is
/// given, taken first to the right, then below, then below to the right; cells
/// beyond the right and lower edge are left out.
pub open spec fn window_maximum<T, F: Fn(T, T) -> T>(
    maximum: F,
    input: Seq<T>,
    height: int,
    width: int,
    y: int,
    x: int,
    result: T,
) -> bool {
    exists|first: T, second: T|
        #![trigger folds(maximum, first, plane_cell(input, height, width, y + 1, x), second)]
        folds(
            maximum,
            input[crate::index::cell_at(0, width, y, x)],
            plane_cell(input, height, width, y, x + 1),
            first,
        ) && folds(maximum, first, plane_cell(input, height, width, y + 1, x), second) && folds(
            maximum,
            second,
            plane_cell(input, height, width, y + 1, x + 1),
            result,
        )
}

/// `result` is what the operation may give for two values; without the second
/// value it is the first.
pub open spec fn folds<T, F: Fn(T, T) -> T>(operation: F, first: T, second: Option<T>, result: T) -> bool {
    match second {
        Some(value) => call_ensures(operation, (first, value), result),
        None => result == first,
    }
}

/// Replaces a plane by the maximum of each cell and its neighbours to the right,
/// below, and below to the right.
pub fn max_pool_2x2_same_upper<T: Copy, F: Fn(T, T) -> T>(
    output: &mut [T],
    input: &[T],
    width: usize,
    maximum: &F,
)
    requires
        forall|a: T, b: T| #[trigger] call_requires(*maximum, (a, b)),
        old(output)@.len() == input@.len(),
        width > 0,
        input@.len() % (width as nat) == 0,
    ensures
        final(output)@.len() == old(output)@.len(),
        forall|y: int, x: int|
            0 <= y < input@.len() / (width as nat) && 0 <= x < width ==> window_maximum(
                *maximum,
                input@,
                (input@.len() / (width as nat)) as int,
                width as int,
                y,
                x,
                #[trigger] final(output)@[crate::index::cell_at(0, width as int, y, x)],
            ),
{
    let len: usize = input.len();
    let height: usize = len / width;
    proof {
        vstd::arithmetic::div_mod::lemma_fundamental_div_mod(len as int, width as int);
        assert(width * height == height * width) by (nonlinear_arith);
    }
    for y in 0..height
        invariant
            forall|a: T, b: T| #[trigger] call_requires(*maximum, (a, b)),
            width > 0,
            len == input@.len(),
            output@.len() == len,
            len == height * width,
            forall|r: int, c: int|
                0 <= r < y && 0 <= c < width ==> window_maximum(
                    *maximum,
                    input@,
                    height as int,
                    width as int,
                    r,
                    c,
                    #[trigger] output@[crate::index::cell_at(0, width as int, r, c)],
                ),
    {
        for x in 0..width
            invariant
                y < height,
                forall|a: T, b: T| #[trigger] call_requires(*maximum, (a, b)),
                width > 0,
                len == input@.len(),
                output@.len() == len,
                len == height * width,
                forall|r: int, c: int|
                    0 <= r <= y && 0 <= c < width && (r < y || c < x) ==> window_maximum(
                        *maximum,
                        input@,
                        height as int,
                        width as int,
                        r,
                        c,
                        #[trigger] output@[crate::index::cell_at(0, width as int, r, c)],
                    ),
        {
            proof {
                lemma_row_bound(y as int, height as int, x as int, width as int);
                if y + 1 < height {
                    lemma_row_bound(y + 1, height as int, x as int, width as int);
                }
            }
            let here: usize = y * width + x;
            let ghost w = width as int;
            let start: T = input[here];
            let mut value: T = start;
            if x + 1 < width {
                value = maximum(value, input[here + 1]);
            }
            let ghost first = value;
            if y + 1 < height {
                value = maximum(value, input[here + width]);
            }
            let ghost second = value;
            if y + 1 < height && x + 1 < width {
                value = maximum(value, input[here + width + 1]);
            }
            let ghost before = output@;
            output[here] = value;
            proof {
                let h = height as int;
                assert(folds(*maximum, start, plane_cell(input@, h, w, y as int, x + 1), first));
                assert(folds(*maximum, first, plane_cell(input@, h, w, y + 1, x as int), second));
                assert(folds(*maximum, second, plane_cell(input@, h, w, y + 1, x + 1), value));
                assert(window_maximum(*maximum, input@, height as int, w, y as int, x as int, value));
                assert forall|r: int, c: int|
                    0 <= r <= y && 0 <= c < width && (r < y || c < x + 1) implies window_maximum(
                    *maximum,
                    input@,
                    height as int,
                    w,
                    r,
                    c,
                    #[trigger] output@[crate::index::cell_at(0, w, r, c)],
                ) by {
                    crate::index::lemma_decode(r, c, w);
                    crate::index::lemma_decode(y as int, x as int, w);
                    lemma_row_bound(r, height as int, c, w);
                    if r != y || c != x {
                        assert(output@[crate::index::cell_at(0, w, r, c)]
                            == before[crate::index::cell_at(0, w, r, c)]);
                    }
                }
            }
        }
    }
}

} // verus!
