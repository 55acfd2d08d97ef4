//! Convolutions by a single cell that follow one another, tile by tile.
use vstd::prelude::*;
use crate::accumulate::{activation_valid, fused, Arithmetic};
use crate::convolution::{
    convolved_rows, depthwise_conv2d_same_strip, depthwise_kernel, same_window,
};
use crate::index::{cell_at, lemma_decode, lemma_encode, lemma_row_bound, lemma_scale};
use crate::elementwise::row_of;
use crate::kernels::{
    bias_at, bias_has_len, gemm_packed_left_blocked_6, gemm_packed_left_cached_blocked_16,
    gemm_packed_left_tile, gemm_packed_left_with_activation, is_gemm, packed_terms,
};
use crate::product::packed_position;

verus! {

/// A convolution by a single cell, with its weights interleaved in groups of
/// `block_rows` output channels.
pub struct Stage<'a, F> {
    pub weight: &'a [F],
    pub bias: Option<&'a [F]>,
    pub rows: usize,
    pub inner: usize,
    pub block_rows: usize,
}

impl<'a, F> Stage<'a, F> {
    /// The operands have the lengths of the channel counts.
    pub open spec fn valid(&self) -> bool {
        &&& self.rows > 0
        &&& self.inner > 0
        &&& self.weight@.len() == self.rows * self.inner
        &&& bias_has_len(self.bias, self.rows as int)
        &&& self.block_rows == 6 || self.block_rows == 12
    }

    /// The factor pairs of an output channel at a place with the given input channels.
    pub open spec fn terms(&self, row: int, values: Seq<F>) -> Seq<(F, F)> {
        Seq::new(
            self.inner as nat,
            |k: int|
                (
                    self.weight@[packed_position(
                        self.rows as int,
                        self.inner as int,
                        self.block_rows as int,
                        row,
                        k,
                    )],
                    values[k],
                ),
        )
    }
}

/// `output` holds the output channels at a place with the given input channels.
pub open spec fn is_stage<F, M: Fn(F, F, F) -> F, A: Fn(F) -> F>(
    arithmetic: &Arithmetic<F, M>,
    activation: Option<&A>,
    stage: &Stage<F>,
    values: Seq<F>,
    output: Seq<F>,
) -> bool {
    &&& output.len() == stage.rows
    &&& forall|row: int|
        0 <= row < stage.rows ==> fused(
            arithmetic.mul_add,
            activation,
            bias_at(arithmetic.zero, stage.bias, row),
            stage.terms(row, values),
            #[trigger] output[row],
        )
}

/// A column of a row-major matrix that is part of a wider one.
pub open spec fn column_of<F>(values: Seq<F>, stride: int, rows: int, column: int) -> Seq<F> {
    Seq::new(rows as nat, |row: int| values[cell_at(0, stride, row, column)])
}

/// The channels of a tensor at a place.
pub open spec fn channels_at<F>(
    values: Seq<F>,
    channels: int,
    plane: int,
    batch: int,
    place: int,
) -> Seq<F> {
    Seq::new(channels as nat, |k: int| values[place_of(channels, plane, batch, k, place)])
}

/// The place of a value of a tensor.
pub open spec fn place_of(
    channels: int,
    plane: int,
    batch: int,
    channel: int,
    place: int,
) -> int {
    (batch * channels + channel) * plane + place
}

/// The columns of a product are stages.
proof fn lemma_columns<F, M: Fn(F, F, F) -> F, A: Fn(F) -> F>(
    arithmetic: &Arithmetic<F, M>,
    activation: Option<&A>,
    stage: &Stage<F>,
    right: Seq<F>,
    columns: int,
    right_stride: int,
    output: Seq<F>,
    column: int,
)
    requires
        0 <= column < columns,
        is_gemm(
            arithmetic,
            activation,
            stage.bias,
            None,
            stage.weight@,
            Some(stage.block_rows as int),
            right,
            stage.rows as int,
            stage.inner as int,
            columns,
            right_stride,
            output,
        ),
    ensures
        is_stage(
            arithmetic,
            activation,
            stage,
            column_of(right, right_stride, stage.inner as int, column),
            column_of(output, columns, stage.rows as int, column),
        ),
{
    let values = column_of(right, right_stride, stage.inner as int, column);
    let results = column_of(output, columns, stage.rows as int, column);
    assert forall|row: int| 0 <= row < stage.rows implies fused(
        arithmetic.mul_add,
        activation,
        bias_at(arithmetic.zero, stage.bias, row),
        stage.terms(row, values),
        #[trigger] results[row],
    ) by {
        let terms = packed_terms(
            stage.weight@,
            right,
            stage.rows as int,
            stage.inner as int,
            stage.block_rows as int,
            right_stride,
            row,
            column,
        );
        assert(terms =~= stage.terms(row, values));
        assert(results[row] == output[cell_at(0, columns, row, column)]);
    }
}

/// What the residual addition may give; without one it is the sum.
pub open spec fn joins<F, G: Fn(F, F) -> F>(
    residual: Option<&G>,
    before: F,
    sum: F,
    after: F,
) -> bool {
    match residual {
        Some(addition) => call_ensures(*addition, (before, sum), after),
        None => after == sum,
    }
}

/// The residual addition, where there is one, accepts all operands.
pub open spec fn residual_valid<F, G: Fn(F, F) -> F>(residual: Option<&G>) -> bool {
    residual matches Some(addition) ==> forall|a: F, b: F| #[trigger]
        call_requires(*addition, (a, b))
}

/// Different cells of a tile and a plane have different places.
proof fn lemma_place_unique(
    plane: int,
    first_row: int,
    first_place: int,
    second_row: int,
    second_place: int,
)
    requires
        0 <= first_place < plane,
        0 <= second_place < plane,
        0 <= first_row,
        0 <= second_row,
        first_row * plane + first_place == second_row * plane + second_place,
    ensures
        first_row == second_row,
        first_place == second_place,
{
    lemma_decode(first_row, first_place, plane);
    lemma_decode(second_row, second_place, plane);
}

/// Writes the rows of a tile into the planes that begin at `first_row`, from
/// column `start` on.
#[verifier::spinoff_prover]
pub fn write_tile<F: Copy, G: Fn(F, F) -> F>(
    output: &mut Vec<F>,
    first_row: usize,
    plane: usize,
    start: usize,
    tile: &[F],
    rows: usize,
    columns: usize,
    residual: Option<&G>,
)
    requires
        residual_valid(residual),
        columns > 0,
        start + columns <= plane,
        (first_row + rows) * plane <= old(output)@.len(),
        tile@.len() == rows * columns,
    ensures
        final(output)@.len() == old(output)@.len(),
        forall|row: int, column: int|
            0 <= row < rows && 0 <= column < columns ==> joins(
                residual,
                old(output)@[(first_row + row) * plane + (start + column)],
                tile@[cell_at(0, columns as int, row, column)],
                #[trigger] final(output)@[(first_row + row) * plane + (start + column)],
            ),
        forall|row: int, place: int|
            0 <= row && 0 <= place < plane && row * plane + place < old(output)@.len() && !(
            first_row <= row < first_row + rows && start <= place < start + columns)
                ==> #[trigger] final(output)@[row * plane + place] == old(output)@[row * plane
                + place],
{
    let len: usize = output.len();
    let ghost before = output@;
    let tile_len: usize = tile.len();
    let mut tile_start: usize = 0;
    proof {
        vstd::arithmetic::mul::lemma_mul_basics(columns as int);
        vstd::arithmetic::mul::lemma_mul_basics(plane as int);
    }
    for row in 0..rows
        invariant
            residual_valid(residual),
            columns > 0,
            start + columns <= plane,
            len == before.len(),
            len == output@.len(),
            tile_len == tile@.len(),
            tile_len == rows * columns,
            (first_row + rows) * plane <= len,
            tile_start == row * columns,
            forall|r: int, c: int|
                0 <= r < row && 0 <= c < columns ==> joins(
                    residual,
                    before[(first_row + r) * plane + (start + c)],
                    tile@[cell_at(0, columns as int, r, c)],
                    #[trigger] output@[(first_row + r) * plane + (start + c)],
                ),
            forall|r: int, place: int|
                0 <= r && 0 <= place < plane && r * plane + place < len && !(first_row <= r
                    < first_row + row && start <= place < start + columns)
                    ==> #[trigger] output@[r * plane + place] == before[r * plane + place],
    {
        proof {
            assert((first_row + row) * plane + plane <= (first_row + rows) * plane)
                by (nonlinear_arith)
                requires
                    row + 1 <= rows,
                    plane >= 0,
            ;
            lemma_scale(0, (first_row + row) as int, plane as int);
            assert(first_row + row <= (first_row + row) * plane) by (nonlinear_arith)
                requires
                    plane >= 1,
                    first_row + row >= 0,
            ;
            assert(row * columns + columns == (row + 1) * columns) by (nonlinear_arith);
            assert((row + 1) * columns <= rows * columns) by (nonlinear_arith)
                requires
                    row + 1 <= rows,
                    columns >= 0,
            ;
        }
        let base: usize = (first_row + row) * plane + start;
        for column in 0..columns
            invariant
                residual_valid(residual),
                row < rows,
                columns > 0,
                start + columns <= plane,
                len == before.len(),
                len == output@.len(),
                tile_len == tile@.len(),
                tile_start == row * columns,
                tile_start + columns <= tile_len,
                base == (first_row + row) * plane + start,
                base + columns <= len,
                (first_row + rows) * plane <= len,
                forall|r: int, c: int|
                    0 <= r <= row && 0 <= c < columns && (r < row || c < column) ==> joins(
                        residual,
                        before[(first_row + r) * plane + (start + c)],
                        tile@[cell_at(0, columns as int, r, c)],
                        #[trigger] output@[(first_row + r) * plane + (start + c)],
                    ),
                forall|r: int, place: int|
                    0 <= r && 0 <= place < plane && r * plane + place < len && !(first_row <= r
                        <= first_row + row && start <= place < start + columns && (r < first_row
                        + row || place < start + column)) ==> #[trigger] output@[r * plane
                        + place] == before[r * plane + place],
        {
            let here: usize = base + column;
            let value: F = tile[tile_start + column];
            proof {
                assert(output@[(first_row + row) * plane + (start + column)] == before[(first_row
                    + row) * plane + (start + column)]);
            }
            let joined: F = match residual {
                Some(addition) => addition(output[here], value),
                None => value,
            };
            let ghost old_output = output@;
            output.set(here, joined);
            proof {
                assert forall|r: int, c: int|
                    0 <= r <= row && 0 <= c < columns && (r < row || c < column + 1) implies joins(
                    residual,
                    before[(first_row + r) * plane + (start + c)],
                    tile@[cell_at(0, columns as int, r, c)],
                    #[trigger] output@[(first_row + r) * plane + (start + c)],
                ) by {
                    if r == row && c == column {
                        assert((first_row + r) * plane + (start + c) == here);
                    } else {
                        if (first_row + r) * plane + (start + c) == here {
                            lemma_place_unique(
                                plane as int,
                                first_row + r,
                                start + c,
                                (first_row + row) as int,
                                (start + column) as int,
                            );
                        }
                        lemma_row_bound(
                            first_row + r,
                            (first_row + rows) as int,
                            start + c,
                            plane as int,
                        );
                        lemma_scale(0, first_row + r, plane as int);
                        assert(output@[(first_row + r) * plane + (start + c)]
                            == old_output[(first_row + r) * plane + (start + c)]);
                    }
                }
                assert forall|r: int, place: int|
                    0 <= r && 0 <= place < plane && r * plane + place < len && !(first_row <= r
                        <= first_row + row && start <= place < start + columns && (r < first_row
                        + row || place < start + column + 1)) implies #[trigger] output@[r * plane
                    + place] == before[r * plane + place] by {
                    if r * plane + place == here {
                        lemma_place_unique(
                            plane as int,
                            r,
                            place,
                            (first_row + row) as int,
                            (start + column) as int,
                        );
                    }
                    assert(old_output[r * plane + place] == before[r * plane + place]);
                }
            }
        }
        tile_start = tile_start + columns;
    }
}

/// Writes the rows of a tile into the planes that begin at `first_row`, from
/// column `start` on, in place of what is there.
fn write_plain_tile<F: Copy>(
    output: &mut Vec<F>,
    first_row: usize,
    plane: usize,
    start: usize,
    tile: &[F],
    rows: usize,
    columns: usize,
)
    requires
        columns > 0,
        start + columns <= plane,
        (first_row + rows) * plane <= old(output)@.len(),
        tile@.len() == rows * columns,
    ensures
        final(output)@.len() == old(output)@.len(),
        forall|row: int, column: int|
            0 <= row < rows && 0 <= column < columns ==> #[trigger] final(output)@[(first_row + row)
                * plane + (start + column)] == tile@[cell_at(0, columns as int, row, column)],
        forall|row: int, place: int|
            0 <= row && 0 <= place < plane && row * plane + place < old(output)@.len() && !(
            first_row <= row < first_row + rows && start <= place < start + columns)
                ==> #[trigger] final(output)@[row * plane + place] == old(output)@[row * plane
                + place],
{
    let second = |before: F, sum: F| -> (after: F)
        ensures
            after == sum,
        { sum };
    write_tile(output, first_row, plane, start, tile, rows, columns, Some(&second));
}

/// The columns of a place are what two stages make of the input: the first with
/// its activation, the second without, and the residual addition behind it.
pub open spec fn is_pair<F, M: Fn(F, F, F) -> F, A: Fn(F) -> F, G: Fn(F, F) -> F>(
    arithmetic: &Arithmetic<F, M>,
    activation: Option<&A>,
    first: &Stage<F>,
    second: &Stage<F>,
    residual: Option<&G>,
    values: Seq<F>,
    before: Seq<F>,
    after: Seq<F>,
) -> bool {
    exists|hidden: Seq<F>, sums: Seq<F>|
        #![trigger is_stage(arithmetic, activation, first, values, hidden), is_stage(
            arithmetic,
            None::<&A>,
            second,
            hidden,
            sums,
        )]
        is_stage(arithmetic, activation, first, values, hidden) && is_stage(
            arithmetic,
            None::<&A>,
            second,
            hidden,
            sums,
        ) && joins_all(residual, before, sums, after)
}

/// Every channel is what the residual addition may give.
pub open spec fn joins_all<F, G: Fn(F, F) -> F>(
    residual: Option<&G>,
    before: Seq<F>,
    sums: Seq<F>,
    after: Seq<F>,
) -> bool {
    &&& after.len() == sums.len()
    &&& before.len() == sums.len()
    &&& forall|row: int|
        0 <= row < sums.len() ==> joins(residual, before[row], sums[row], #[trigger] after[row])
}

/// The number of columns that are computed together.
pub fn tile_columns(threads: usize, hidden_channels: usize) -> (result: usize)
    ensures
        result == if threads == 1 && hidden_channels <= 512 {
            32int
        } else {
            16
        },
{
    if threads == 1 && hidden_channels <= 512 {
        32
    } else {
        16
    }
}

/// The input, weights and output of a pair of stages have the right lengths.
pub open spec fn pair_valid<F>(
    first: &Stage<F>,
    second: &Stage<F>,
    input: Seq<F>,
    output: Seq<F>,
    batch: int,
    plane: int,
) -> bool {
    &&& first.valid()
    &&& second.valid()
    &&& second.inner == first.rows
    &&& plane > 0
    &&& input.len() == batch * first.inner * plane
    &&& output.len() == batch * second.rows * plane
    &&& first.rows * 32 <= usize::MAX
    &&& second.rows * 32 <= usize::MAX
}

/// The planes of a batch lie within the tensor.
proof fn lemma_batch(batch: int, channels: int, plane: int, b: int)
    requires
        0 <= b < batch,
        0 <= channels,
        0 <= plane,
    ensures
        0 <= b * channels,
        (b * channels + channels) * plane <= batch * channels * plane,
        b * channels * plane <= (b * channels + channels) * plane,
{
    lemma_scale(0, b, channels);
    assert(b * channels + channels <= batch * channels) by (nonlinear_arith)
        requires
            b + 1 <= batch,
            0 <= channels,
    ;
    lemma_scale(b * channels + channels, batch * channels, plane);
    lemma_scale(b * channels, b * channels + channels, plane);
}

/// The columns of a tile lie within the planes of a batch.
proof fn lemma_tile_bounds(
    channels: int,
    plane: int,
    b: int,
    start: int,
    columns: int,
    total: int,
)
    requires
        1 <= channels,
        0 <= b,
        0 <= start,
        1 <= columns,
        start + columns <= plane,
        0 <= b * channels,
        (b * channels + channels) * plane <= total,
    ensures
        0 <= b * channels * plane,
        b * channels <= b * channels * plane,
        0 <= (channels - 1) * plane,
        b * channels * plane + start + ((channels - 1) * plane + columns) <= total,
{
    lemma_scale(0, b * channels, plane);
    lemma_scale(0, channels - 1, plane);
    let whole: int = b * channels;
    assert(whole <= whole * plane) by (nonlinear_arith)
        requires
            whole >= 0,
            plane >= 1,
    ;
    assert((whole + channels) * plane == whole * plane + (channels - 1) * plane + plane)
        by (nonlinear_arith);
}

/// A cell of the part that a tile sees is a cell of the input.
proof fn lemma_part_place(
    channels: int,
    plane: int,
    b: int,
    start: int,
    columns: int,
    k: int,
    column: int,
)
    requires
        0 <= k < channels,
        0 <= column < columns,
        0 <= plane,
    ensures
        place_of(channels, plane, b, k, start + column) == b * channels * plane + start + cell_at(
            0,
            plane,
            k,
            column,
        ),
        0 <= cell_at(0, plane, k, column) < (channels - 1) * plane + columns,
{
    let whole: int = b * channels;
    assert((whole + k) * plane == whole * plane + k * plane) by (nonlinear_arith);
    lemma_scale(0, k, plane);
    lemma_scale(k, channels - 1, plane);
}

/// The planes of an earlier batch come before those of a later one.
proof fn lemma_earlier(rows: int, plane: int, i: int, b: int, row: int, place: int)
    requires
        0 <= i < b,
        0 <= row < rows,
        0 <= place < plane,
    ensures
        0 <= (i * rows + row) * plane + place < b * rows * plane,
{
    lemma_row_bound(i, b, row, rows);
    lemma_row_bound(i * rows + row, b * rows, place, plane);
}

/// Computes two convolutions by a single cell that follow one another, the
/// first with an activation, tile by tile: the columns of a tile are carried
/// through both before the next is begun. With a residual addition the sums
/// are added to what the output holds.
#[verifier::spinoff_prover]
#[verifier::rlimit(60)]
pub fn run_pointwise_pair_tiles<F: Copy, M: Fn(F, F, F) -> F, A: Fn(F) -> F, G: Fn(F, F) -> F>(
    arithmetic: &Arithmetic<F, M>,
    threads: usize,
    first: &Stage<F>,
    second: &Stage<F>,
    activation: Option<&A>,
    residual: Option<&G>,
    input: &[F],
    output: &mut Vec<F>,
    batch: usize,
    plane: usize,
)
    requires
        arithmetic.valid(),
        activation_valid(activation),
        residual_valid(residual),
        pair_valid(first, second, input@, old(output)@, batch as int, plane as int),
    ensures
        final(output)@.len() == old(output)@.len(),
        forall|b: int, place: int|
            0 <= b < batch && 0 <= place < plane ==> is_pair(
                arithmetic,
                activation,
                first,
                second,
                residual,
                channels_at(input@, first.inner as int, plane as int, b, place),
                channels_at(old(output)@, second.rows as int, plane as int, b, place),
                #[trigger] channels_at(
                    final(output)@,
                    second.rows as int,
                    plane as int,
                    b,
                    place,
                ),
            ),
{
    let width: usize = tile_columns(threads, first.rows);
    let input_len: usize = input.len();
    let len: usize = output.len();
    let ghost before = output@;
    let channels: usize = first.inner;
    let rows: usize = second.rows;
    for b in 0..batch
        invariant
            arithmetic.valid(),
            activation_valid(activation),
            residual_valid(residual),
            pair_valid(first, second, input@, before, batch as int, plane as int),
            width == 32 || width == 16,
            input_len == input@.len(),
            channels == first.inner,
            rows == second.rows,
            len == before.len(),
            len == output@.len(),
            forall|i: int, place: int|
                0 <= i < b && 0 <= place < plane ==> is_pair(
                    arithmetic,
                    activation,
                    first,
                    second,
                    residual,
                    channels_at(input@, channels as int, plane as int, i, place),
                    channels_at(before, rows as int, plane as int, i, place),
                    #[trigger] channels_at(output@, rows as int, plane as int, i, place),
                ),
            forall|i: int| b * rows * plane <= i < len ==> #[trigger] output@[i] == before[i],
    {
        proof {
            lemma_batch(batch as int, channels as int, plane as int, b as int);
            lemma_batch(batch as int, rows as int, plane as int, b as int);
        }
        let mut start: usize = 0;
        let ghost opened = output@;
        proof {
            assert forall|row: int, place: int|
                b * rows <= row && 0 <= place < plane && row * plane + place
                    < len implies #[trigger] output@[row * plane + place] == before[row * plane
                + place] by {
                lemma_scale(b * rows, row, plane as int);
            }
        }
        while start < plane
            invariant
                arithmetic.valid(),
                activation_valid(activation),
                residual_valid(residual),
                pair_valid(first, second, input@, before, batch as int, plane as int),
                width == 32 || width == 16,
                input_len == input@.len(),
                channels == first.inner,
                rows == second.rows,
                b < batch,
                len == before.len(),
                len == output@.len(),
                len == opened.len(),
                start <= plane,
                0 <= b * channels,
                0 <= b * rows,
                (b * channels + channels) * plane <= input_len,
                (b * rows + rows) * plane <= len,
                forall|i: int| 0 <= i < b * rows * plane ==> output@[i] == opened[i],
                forall|i: int| b * rows * plane <= i < len ==> #[trigger] opened[i] == before[i],
                forall|place: int|
                    0 <= place < start ==> is_pair(
                        arithmetic,
                        activation,
                        first,
                        second,
                        residual,
                        channels_at(input@, channels as int, plane as int, b as int, place),
                        channels_at(before, rows as int, plane as int, b as int, place),
                        #[trigger] channels_at(
                            output@,
                            rows as int,
                            plane as int,
                            b as int,
                            place,
                        ),
                    ),
                forall|row: int, place: int|
                    b * rows <= row && start <= place < plane && row * plane + place < len
                        ==> #[trigger] output@[row * plane + place] == before[row * plane + place],
                forall|row: int, place: int|
                    b * rows + rows <= row && 0 <= place < plane && row * plane + place < len
                        ==> #[trigger] output@[row * plane + place] == before[row * plane + place],
            decreases plane - start,
        {
            let left: usize = plane - start;
            let columns: usize = if left < width {
                left
            } else {
                width
            };
            proof {
                lemma_tile_bounds(
                    channels as int,
                    plane as int,
                    b as int,
                    start as int,
                    columns as int,
                    input_len as int,
                );
                lemma_scale(0, columns as int, first.rows as int);
                lemma_scale(0, columns as int, rows as int);
                assert(first.rows * columns <= first.rows * 32) by (nonlinear_arith)
                    requires
                        columns <= 32,
                        first.rows >= 0,
                ;
                assert(rows * columns <= rows * 32) by (nonlinear_arith)
                    requires
                        columns <= 32,
                        rows >= 0,
                ;
                assert(b * rows + rows <= (b * rows + rows) * plane) by (nonlinear_arith)
                    requires
                        plane >= 1,
                        b * rows + rows >= 0,
                ;
                assert((first.rows - 1) * columns + columns == first.rows * columns)
                    by (nonlinear_arith);
            }
            let part_start: usize = b * channels * plane + start;
            let part_len: usize = (channels - 1) * plane + columns;
            let part: &[F] = vstd::slice::slice_subrange(
                input,
                part_start,
                part_start + part_len,
            );
            let mut hidden: Vec<F> = crate::arena::zeroed(
                Vec::new(),
                first.rows * columns,
                arithmetic.zero,
            );
            gemm_packed_left_tile(
                arithmetic,
                hidden.as_mut_slice(),
                first.weight,
                part,
                first.rows,
                channels,
                columns,
                plane,
                first.bias,
                activation,
                first.block_rows,
            );
            let mut tile: Vec<F> = crate::arena::zeroed(
                Vec::new(),
                rows * columns,
                arithmetic.zero,
            );
            let none: Option<&A> = None;
            gemm_packed_left_tile(
                arithmetic,
                tile.as_mut_slice(),
                second.weight,
                hidden.as_slice(),
                rows,
                first.rows,
                columns,
                columns,
                second.bias,
                none,
                second.block_rows,
            );
            let ghost made = output@;
            write_tile(output, b * rows, plane, start, tile.as_slice(), rows, columns, residual);
            proof {
                assert forall|place: int| 0 <= place < start + columns implies is_pair(
                    arithmetic,
                    activation,
                    first,
                    second,
                    residual,
                    channels_at(input@, channels as int, plane as int, b as int, place),
                    channels_at(before, rows as int, plane as int, b as int, place),
                    #[trigger] channels_at(output@, rows as int, plane as int, b as int, place),
                ) by {
                    let now = channels_at(output@, rows as int, plane as int, b as int, place);
                    if place < start {
                        let then = channels_at(made, rows as int, plane as int, b as int, place);
                        assert forall|row: int| 0 <= row < rows implies now[row] == then[row] by {
                            lemma_row_bound(b * rows + row, b * rows + rows, place, plane as int);
                            assert(output@[(b * rows + row) * plane + place] == made[(b * rows
                                + row) * plane + place]);
                        }
                        assert(now =~= then);
                    } else {
                        let column = place - start;
                        let values = channels_at(
                            input@,
                            channels as int,
                            plane as int,
                            b as int,
                            place,
                        );
                        let source = column_of(part@, plane as int, channels as int, column);
                        assert(source =~= values) by {
                            assert forall|k: int| 0 <= k < channels implies source[k]
                                == values[k] by {
                                lemma_part_place(
                                    channels as int,
                                    plane as int,
                                    b as int,
                                    start as int,
                                    columns as int,
                                    k,
                                    column,
                                );
                            }
                        }
                        lemma_columns(
                            arithmetic,
                            activation,
                            first,
                            part@,
                            columns as int,
                            plane as int,
                            hidden@,
                            column,
                        );
                        lemma_columns(
                            arithmetic,
                            none,
                            second,
                            hidden@,
                            columns as int,
                            columns as int,
                            tile@,
                            column,
                        );
                        let inner = column_of(hidden@, columns as int, first.rows as int, column);
                        let sums = column_of(tile@, columns as int, rows as int, column);
                        let then = channels_at(before, rows as int, plane as int, b as int, place);
                        assert forall|row: int| 0 <= row < rows implies joins(
                            residual,
                            then[row],
                            sums[row],
                            #[trigger] now[row],
                        ) by {
                            lemma_row_bound(b * rows + row, b * rows + rows, place, plane as int);
                            assert(made[(b * rows + row) * plane + place] == before[(b * rows
                                + row) * plane + place]);
                            assert(output@[(b * rows + row) * plane + (start + column)]
                                == now[row]);
                        }
                        assert(joins_all(residual, then, sums, now));
                        assert(is_stage(arithmetic, activation, first, values, inner));
                        assert(is_stage(arithmetic, None::<&A>, second, inner, sums));
                    }
                }
                assert forall|i: int| 0 <= i < b * rows * plane implies output@[i]
                    == opened[i] by {
                    lemma_encode(i, plane as int);
                    let row = i / plane as int;
                    let place = i % plane as int;
                    assert(row < b * rows) by (nonlinear_arith)
                        requires
                            i < b * rows * plane,
                            i == row * plane + place,
                            place >= 0,
                            plane > 0,
                    ;
                    lemma_scale(b * rows, b * rows + rows, plane as int);
                    assert(row >= 0) by (nonlinear_arith)
                        requires
                            i >= 0,
                            i == row * plane + place,
                            place < plane,
                            plane > 0,
                    ;
                    assert(output@[row * plane + place] == made[row * plane + place]);
                }
                assert forall|row: int, place: int|
                    b * rows <= row && start + columns <= place < plane && row * plane + place
                        < len implies #[trigger] output@[row * plane + place] == before[row
                    * plane + place] by {
                    assert(output@[row * plane + place] == made[row * plane + place]);
                }
                assert forall|row: int, place: int|
                    b * rows + rows <= row && 0 <= place < plane && row * plane + place
                        < len implies #[trigger] output@[row * plane + place] == before[row
                    * plane + place] by {
                    assert(output@[row * plane + place] == made[row * plane + place]);
                }
            }
            start = start + columns;
        }
        proof {
            let done: int = b * rows + rows;
            assert((b + 1) * rows * plane == done * plane) by (nonlinear_arith)
                requires
                    done == b * rows + rows,
            ;
            assert forall|i: int, place: int|
                0 <= i < b + 1 && 0 <= place < plane implies is_pair(
                arithmetic,
                activation,
                first,
                second,
                residual,
                channels_at(input@, channels as int, plane as int, i, place),
                channels_at(before, rows as int, plane as int, i, place),
                #[trigger] channels_at(output@, rows as int, plane as int, i, place),
            ) by {
                if i < b {
                    let now = channels_at(output@, rows as int, plane as int, i, place);
                    let then = channels_at(opened, rows as int, plane as int, i, place);
                    assert forall|row: int| 0 <= row < rows implies now[row] == then[row] by {
                        lemma_earlier(
                            rows as int,
                            plane as int,
                            i,
                            b as int,
                            row,
                            place,
                        );
                    }
                    assert(now =~= then);
                }
            }
            assert forall|i: int| (b + 1) * rows * plane <= i < len implies #[trigger] output@[i]
                == before[i] by {
                lemma_encode(i, plane as int);
                let row = i / plane as int;
                let place = i % plane as int;
                assert(row >= done) by (nonlinear_arith)
                    requires
                        i >= done * plane,
                        i == row * plane + place,
                        place < plane,
                        plane > 0,
                ;
                assert(output@[row * plane + place] == before[row * plane + place]);
            }
        }
    }
}

/// A convolution of each channel with a kernel of its own.
pub struct Depthwise<'a, F> {
    pub weight: &'a [F],
    pub bias: Option<&'a [F]>,
    pub channels: usize,
    pub height: usize,
    pub width: usize,
    pub kernel: usize,
}

impl<'a, F> Depthwise<'a, F> {
    /// The operands have the lengths of the channel count and the kernel.
    pub open spec fn valid(&self) -> bool {
        &&& self.channels > 0
        &&& self.height > 0
        &&& self.width > 0
        &&& depthwise_kernel(self.kernel as int)
        &&& self.height + self.kernel <= usize::MAX
        &&& self.width + self.kernel <= usize::MAX
        &&& self.weight@.len() == self.channels * (self.kernel * self.kernel)
        &&& bias_has_len(self.bias, self.channels as int)
    }

    /// The number of cells of a plane.
    pub open spec fn plane(&self) -> int {
        self.height * self.width
    }
}

/// `values` holds the channels of the depthwise convolution at a place.
pub open spec fn is_depthwise<F, M: Fn(F, F, F) -> F, A: Fn(F) -> F>(
    arithmetic: &Arithmetic<F, M>,
    activation: Option<&A>,
    depthwise: &Depthwise<F>,
    input: Seq<F>,
    place: int,
    values: Seq<F>,
) -> bool {
    &&& values.len() == depthwise.channels
    &&& forall|channel: int|
        0 <= channel < depthwise.channels ==> fused(
            arithmetic.mul_add,
            activation,
            bias_at(arithmetic.zero, depthwise.bias, channel),
            same_window(depthwise.height, depthwise.width, depthwise.kernel).all_terms(
                input,
                channel * depthwise.plane(),
                depthwise.weight@,
                channel * (depthwise.kernel * depthwise.kernel),
                1,
                place / depthwise.width as int,
                place % depthwise.width as int,
            ),
            #[trigger] values[channel],
        )
}

/// The channels of a place are what a depthwise convolution and a stage behind
/// it make of the input.
pub open spec fn is_separable<F, M: Fn(F, F, F) -> F, A: Fn(F) -> F>(
    arithmetic: &Arithmetic<F, M>,
    activation: Option<&A>,
    depthwise: &Depthwise<F>,
    stage: &Stage<F>,
    input: Seq<F>,
    place: int,
    output: Seq<F>,
) -> bool {
    exists|middle: Seq<F>|
        #![trigger is_stage(arithmetic, activation, stage, middle, output)]
        is_depthwise(arithmetic, None::<&A>, depthwise, input, place, middle) && is_stage(
            arithmetic,
            activation,
            stage,
            middle,
            output,
        )
}

/// The input, weights and output of a separable convolution have the right lengths.
pub open spec fn separable_valid<F>(
    depthwise: &Depthwise<F>,
    stage: &Stage<F>,
    input: Seq<F>,
    output: Seq<F>,
    batch: int,
) -> bool {
    &&& depthwise.valid()
    &&& stage.valid()
    &&& stage.inner == depthwise.channels
    &&& input.len() == batch * depthwise.channels * depthwise.plane()
    &&& output.len() == batch * stage.rows * depthwise.plane()
    &&& stage.rows * 16 <= usize::MAX
}

/// The rows of a strip.
pub const STRIP_ROWS: usize = 4;

/// The columns of a tile.
pub const TILE_COLUMNS: usize = 16;

/// The sizes of a strip of rows can be counted.
proof fn lemma_strip_bounds(
    channels: int,
    height: int,
    width: int,
    y_start: int,
    rows: int,
    total: int,
)
    requires
        1 <= channels,
        1 <= width,
        1 <= rows,
        0 <= y_start,
        y_start + rows <= height,
        total == channels * (height * width),
    ensures
        1 <= height * width <= total,
        0 <= y_start * width,
        0 <= rows * width,
        y_start * width + rows * width <= height * width,
        channels * (rows * width) <= total,
{
    assert(1 <= height * width) by (nonlinear_arith)
        requires
            1 <= height,
            1 <= width,
    ;
    let plane: int = height * width;
    assert(plane <= channels * plane) by (nonlinear_arith)
        requires
            1 <= channels,
            1 <= plane,
    ;
    lemma_scale(0, y_start, width);
    lemma_scale(0, rows, width);
    lemma_scale(y_start + rows, height, width);
    assert((y_start + rows) * width == y_start * width + rows * width) by (nonlinear_arith);
    let part: int = rows * width;
    assert(channels * part <= channels * plane) by (nonlinear_arith)
        requires
            part <= plane,
            1 <= channels,
    ;
}

/// A place of a strip is a place of the plane.
proof fn lemma_strip_place(y_start: int, width: int, rows: int, q: int)
    requires
        0 < width,
        0 <= q < rows * width,
        0 <= y_start,
    ensures
        (y_start * width + q) / width == y_start + q / width,
        (y_start * width + q) % width == q % width,
        0 <= q / width < rows,
        0 <= q % width < width,
        q / width * width + q % width == q,
{
    lemma_encode(q, width);
    assert(0 <= q / width < rows) by (nonlinear_arith)
        requires
            q == q / width * width + q % width,
            0 <= q < rows * width,
            0 <= q % width < width,
    ;
    assert(y_start * width + q == (y_start + q / width) * width + q % width) by (nonlinear_arith)
        requires
            q == q / width * width + q % width,
    ;
    lemma_decode(y_start + q / width, q % width, width);
}

/// Computes one strip of rows of a separable convolution.
#[verifier::spinoff_prover]
#[verifier::rlimit(60)]
fn run_strip<F: Copy, M: Fn(F, F, F) -> F, A: Fn(F) -> F>(
    arithmetic: &Arithmetic<F, M>,
    activation: Option<&A>,
    depthwise: &Depthwise<F>,
    stage: &Stage<F>,
    input: &[F],
    output: &mut Vec<F>,
    b: usize,
    y_start: usize,
    rows: usize,
)
    requires
        arithmetic.valid(),
        activation_valid(activation),
        depthwise.valid(),
        stage.valid(),
        stage.inner == depthwise.channels,
        stage.rows * 16 <= usize::MAX,
        input@.len() == depthwise.channels * depthwise.plane(),
        (b * stage.rows + stage.rows) * depthwise.plane() <= old(output)@.len(),
        0 < rows,
        y_start + rows <= depthwise.height,
    ensures
        final(output)@.len() == old(output)@.len(),
        forall|place: int|
            y_start * depthwise.width <= place < (y_start + rows) * depthwise.width
                ==> is_separable(
                arithmetic,
                activation,
                depthwise,
                stage,
                input@,
                place,
                #[trigger] channels_at(
                    final(output)@,
                    stage.rows as int,
                    depthwise.plane(),
                    b as int,
                    place,
                ),
            ),
        forall|row: int, place: int|
            0 <= row && 0 <= place < depthwise.plane() && row * depthwise.plane() + place
                < old(output)@.len() && !(b * stage.rows <= row < b * stage.rows + stage.rows
                && y_start * depthwise.width <= place < (y_start + rows) * depthwise.width)
                ==> #[trigger] final(output)@[row * depthwise.plane() + place] == old(
                output,
            )@[row * depthwise.plane() + place],
{
    let channels: usize = depthwise.channels;
    let width: usize = depthwise.width;
    let len: usize = output.len();
    let input_len: usize = input.len();
    let ghost plane_size: int = depthwise.plane();
    let ghost before = output@;
    proof {
        lemma_strip_bounds(
            channels as int,
            depthwise.height as int,
            width as int,
            y_start as int,
            rows as int,
            input_len as int,
        );
        lemma_scale(0, b as int, stage.rows as int);
        let whole: int = b * stage.rows + stage.rows;
        assert(whole <= whole * plane_size && plane_size <= whole * plane_size)
            by (nonlinear_arith)
            requires
                whole >= 1,
                plane_size >= 1,
        ;
    }
    let plane: usize = depthwise.height * width;
    let strip_plane: usize = rows * width;
    let mut strip: Vec<F> = crate::arena::zeroed(
        Vec::new(),
        channels * strip_plane,
        arithmetic.zero,
    );
    let none: Option<&A> = None;
    depthwise_conv2d_same_strip(
        arithmetic,
        strip.as_mut_slice(),
        input,
        depthwise.weight,
        depthwise.bias,
        channels,
        depthwise.height,
        width,
        depthwise.kernel,
        y_start,
        rows,
        none,
    );
    let strip_len: usize = strip.len();
    let first: usize = y_start * width;
    let mut start: usize = 0;
    proof {
        assert forall|row: int, place: int|
            0 <= row && 0 <= place < plane && row * plane + place < len implies #[trigger] output@[row
            * plane + place] == before[row * plane + place] by {}
    }
    while start < strip_plane
        invariant
            arithmetic.valid(),
            activation_valid(activation),
            depthwise.valid(),
            stage.valid(),
            none is None,
            stage.inner == channels,
            channels == depthwise.channels,
            width == depthwise.width,
            plane == depthwise.plane(),
            stage.rows * 16 <= usize::MAX,
            (b * stage.rows + stage.rows) * plane <= len,
            b * stage.rows + stage.rows <= len,
            0 <= b * stage.rows,
            len == output@.len(),
            len == before.len(),
            y_start + rows <= depthwise.height,
            strip_plane == rows * width,
            strip_len == strip@.len(),
            strip_len == channels * strip_plane,
            first == y_start * width,
            first + strip_plane <= plane,
            start <= strip_plane,
            forall|channel: int|
                0 <= channel < channels ==> #[trigger] convolved_rows(
                    arithmetic.mul_add,
                    none,
                    same_window(depthwise.height, width, depthwise.kernel),
                    input@,
                    channel * (depthwise.height * width),
                    depthwise.weight@,
                    channel * (depthwise.kernel * depthwise.kernel),
                    1,
                    bias_at(arithmetic.zero, depthwise.bias, channel),
                    y_start as int,
                    rows as int,
                    width as int,
                    channel * (rows * width),
                    strip@,
                ),
            forall|place: int|
                first <= place < first + start ==> is_separable(
                    arithmetic,
                    activation,
                    depthwise,
                    stage,
                    input@,
                    place,
                    #[trigger] channels_at(
                        output@,
                        stage.rows as int,
                        plane as int,
                        b as int,
                        place,
                    ),
                ),
            forall|row: int, place: int|
                0 <= row && 0 <= place < plane && row * plane + place < len && !(b * stage.rows
                    <= row < b * stage.rows + stage.rows && first <= place < first + start)
                    ==> #[trigger] output@[row * plane + place] == before[row * plane + place],
        decreases strip_plane - start,
    {
        let left: usize = strip_plane - start;
        let columns: usize = if left < TILE_COLUMNS {
            left
        } else {
            TILE_COLUMNS
        };
        proof {
            lemma_tile_bounds(
                channels as int,
                strip_plane as int,
                0,
                start as int,
                columns as int,
                strip_len as int,
            );
            assert(stage.rows * columns <= stage.rows * 16) by (nonlinear_arith)
                requires
                    columns <= 16,
                    stage.rows >= 0,
            ;
            assert((0 * channels + channels) * strip_plane == channels * strip_plane)
                by (nonlinear_arith);
        }
        let part: &[F] = vstd::slice::slice_subrange(strip.as_slice(), start, strip_len);
        let mut tile: Vec<F> = crate::arena::zeroed(
            Vec::new(),
            stage.rows * columns,
            arithmetic.zero,
        );
        gemm_packed_left_tile(
            arithmetic,
            tile.as_mut_slice(),
            stage.weight,
            part,
            stage.rows,
            channels,
            columns,
            strip_plane,
            stage.bias,
            activation,
            stage.block_rows,
        );
        let ghost made = output@;
        write_plain_tile(
            output,
            b * stage.rows,
            plane,
            first + start,
            tile.as_slice(),
            stage.rows,
            columns,
        );
        proof {
            assert forall|place: int| first <= place < first + start + columns implies is_separable(
                arithmetic,
                activation,
                depthwise,
                stage,
                input@,
                place,
                #[trigger] channels_at(output@, stage.rows as int, plane as int, b as int, place),
            ) by {
                let rows_out: int = stage.rows as int;
                let now = channels_at(output@, rows_out, plane as int, b as int, place);
                if place < first + start {
                    let then = channels_at(made, rows_out, plane as int, b as int, place);
                    assert forall|row: int| 0 <= row < rows_out implies now[row] == then[row] by {
                        lemma_row_bound(
                            b * rows_out + row,
                            b * rows_out + rows_out,
                            place,
                            plane as int,
                        );
                        assert(output@[(b * rows_out + row) * plane + place] == made[(b * rows_out
                            + row) * plane + place]);
                    }
                    assert(now =~= then);
                } else {
                    let column = place - first - start;
                    lemma_columns(
                        arithmetic,
                        activation,
                        stage,
                        part@,
                        columns as int,
                        strip_plane as int,
                        tile@,
                        column,
                    );
                    let middle = column_of(part@, strip_plane as int, channels as int, column);
                    let sums = column_of(tile@, columns as int, rows_out, column);
                    assert forall|row: int| 0 <= row < rows_out implies now[row] == sums[row] by {
                        assert(output@[(b * rows_out + row) * plane + (first + start + column)]
                            == tile@[cell_at(0, columns as int, row, column)]);
                    }
                    assert(now =~= sums);
                    let q = start + column;
                    lemma_strip_place(y_start as int, width as int, rows as int, q);
                    assert forall|channel: int| 0 <= channel < channels implies fused(
                        arithmetic.mul_add,
                        none,
                        bias_at(arithmetic.zero, depthwise.bias, channel),
                        same_window(depthwise.height, width, depthwise.kernel).all_terms(
                            input@,
                            channel * depthwise.plane(),
                            depthwise.weight@,
                            channel * (depthwise.kernel * depthwise.kernel),
                            1,
                            place / width as int,
                            place % width as int,
                        ),
                        #[trigger] middle[channel],
                    ) by {
                        lemma_part_place(
                            channels as int,
                            strip_plane as int,
                            0,
                            start as int,
                            columns as int,
                            channel,
                            column,
                        );
                        assert(convolved_rows(
                            arithmetic.mul_add,
                            none,
                            same_window(depthwise.height, width, depthwise.kernel),
                            input@,
                            channel * (depthwise.height * width),
                            depthwise.weight@,
                            channel * (depthwise.kernel * depthwise.kernel),
                            1,
                            bias_at(arithmetic.zero, depthwise.bias, channel),
                            y_start as int,
                            rows as int,
                            width as int,
                            channel * (rows * width),
                            strip@,
                        ));
                        let y = q / width as int;
                        let x = q % width as int;
                        assert(strip@[cell_at(channel * (rows * width), width as int, y, x)]
                            == middle[channel]);
                    }
                    assert(is_depthwise(
                        arithmetic,
                        None::<&A>,
                        depthwise,
                        input@,
                        place,
                        middle,
                    ));
                    assert(is_stage(arithmetic, activation, stage, middle, now));
                }
            }
            assert forall|row: int, place: int|
                0 <= row && 0 <= place < plane && row * plane + place < len && !(b * stage.rows
                    <= row < b * stage.rows + stage.rows && first <= place < first + start
                    + columns) implies #[trigger] output@[row * plane + place] == before[row
                * plane + place] by {
                assert(output@[row * plane + place] == made[row * plane + place]);
            }
        }
        start = start + columns;
    }
    assert((y_start + rows) * width == y_start * width + rows * width) by (nonlinear_arith);
}

/// Computes a depthwise convolution and a convolution by a single cell behind
/// it, strip by strip: the rows of a strip are carried through both before the
/// next is begun.
#[verifier::spinoff_prover]
#[verifier::rlimit(60)]
pub fn run_depthwise_pointwise<F: Copy, M: Fn(F, F, F) -> F, A: Fn(F) -> F>(
    arithmetic: &Arithmetic<F, M>,
    activation: Option<&A>,
    depthwise: &Depthwise<F>,
    stage: &Stage<F>,
    input: &[F],
    output: &mut Vec<F>,
    batch: usize,
)
    requires
        arithmetic.valid(),
        activation_valid(activation),
        separable_valid(depthwise, stage, input@, old(output)@, batch as int),
    ensures
        final(output)@.len() == old(output)@.len(),
        forall|b: int, place: int|
            0 <= b < batch && 0 <= place < depthwise.plane() ==> is_separable(
                arithmetic,
                activation,
                depthwise,
                stage,
                row_of(input@, depthwise.channels * depthwise.plane(), b),
                place,
                #[trigger] channels_at(
                    final(output)@,
                    stage.rows as int,
                    depthwise.plane(),
                    b,
                    place,
                ),
            ),
{
    let len: usize = output.len();
    let input_len: usize = input.len();
    let ghost plane: int = depthwise.plane();
    let ghost rows: int = stage.rows as int;
    for b in 0..batch
        invariant
            arithmetic.valid(),
            activation_valid(activation),
            depthwise.valid(),
            stage.valid(),
            stage.inner == depthwise.channels,
            stage.rows * 16 <= usize::MAX,
            plane == depthwise.plane(),
            rows == stage.rows,
            len == output@.len(),
            input_len == input@.len(),
            input_len == batch * depthwise.channels * plane,
            len == batch * rows * plane,
            forall|i: int, place: int|
                0 <= i < b && 0 <= place < plane ==> is_separable(
                    arithmetic,
                    activation,
                    depthwise,
                    stage,
                    row_of(input@, depthwise.channels * plane, i),
                    place,
                    #[trigger] channels_at(output@, rows, plane, i, place),
                ),
    {
        let ghost opened = output@;
        proof {
            lemma_batch(batch as int, depthwise.channels as int, plane, b as int);
            lemma_batch(batch as int, rows, plane, b as int);
            assert(plane >= 1) by (nonlinear_arith)
                requires
                    plane == depthwise.height * depthwise.width,
                    depthwise.height > 0,
                    depthwise.width > 0,
            ;
            let size: int = depthwise.channels * plane;
            assert(size >= plane) by (nonlinear_arith)
                requires
                    size == depthwise.channels * plane,
                    depthwise.channels >= 1,
                    plane >= 1,
            ;
            assert(batch * depthwise.channels * plane == batch * size) by (nonlinear_arith)
                requires
                    size == depthwise.channels * plane,
            ;
            assert((b + 1) * size <= batch * size) by (nonlinear_arith)
                requires
                    b + 1 <= batch,
                    size >= 0,
            ;
            assert((b + 1) * size == b * size + size) by (nonlinear_arith);
            lemma_scale(0, b as int, size);
        }
        let size: usize = depthwise.channels * (depthwise.height * depthwise.width);
        let part: &[F] = vstd::slice::slice_subrange(input, b * size, b * size + size);
        assert(part@ =~= row_of(input@, size as int, b as int));
        let mut y_start: usize = 0;
        proof {
            vstd::arithmetic::mul::lemma_mul_basics(depthwise.width as int);
        }
        while y_start < depthwise.height
            invariant
                arithmetic.valid(),
                activation_valid(activation),
                depthwise.valid(),
                stage.valid(),
                stage.inner == depthwise.channels,
                stage.rows * 16 <= usize::MAX,
                plane == depthwise.plane(),
                plane >= 1,
                rows == stage.rows,
                b < batch,
                len == output@.len(),
                len == opened.len(),
                len == batch * rows * plane,
                (b * rows + rows) * plane <= len,
                0 <= b * rows,
                size == depthwise.channels * plane,
                part@ == row_of(input@, size as int, b as int),
                part@.len() == size,
                y_start <= depthwise.height,
                forall|place: int|
                    0 <= place < y_start * depthwise.width ==> is_separable(
                        arithmetic,
                        activation,
                        depthwise,
                        stage,
                        part@,
                        place,
                        #[trigger] channels_at(output@, rows, plane, b as int, place),
                    ),
                forall|row: int, place: int|
                    0 <= row < b * rows && 0 <= place < plane ==> #[trigger] output@[row * plane
                        + place] == opened[row * plane + place],
            decreases depthwise.height - y_start,
        {
            let left: usize = depthwise.height - y_start;
            let strip_rows: usize = if left < STRIP_ROWS {
                left
            } else {
                STRIP_ROWS
            };
            let ghost made = output@;
            run_strip(
                arithmetic,
                activation,
                depthwise,
                stage,
                part,
                output,
                b,
                y_start,
                strip_rows,
            );
            proof {
                let next: int = (y_start + strip_rows) as int;
                lemma_scale(y_start as int, depthwise.height as int, depthwise.width as int);
                assert forall|place: int| 0 <= place < next * depthwise.width implies is_separable(
                    arithmetic,
                    activation,
                    depthwise,
                    stage,
                    part@,
                    place,
                    #[trigger] channels_at(output@, rows, plane, b as int, place),
                ) by {
                    if place < y_start * depthwise.width {
                        let now = channels_at(output@, rows, plane, b as int, place);
                        let then = channels_at(made, rows, plane, b as int, place);
                        assert forall|row: int| 0 <= row < rows implies now[row] == then[row] by {
                            lemma_row_bound(b * rows + row, b * rows + rows, place, plane);
                            assert(output@[(b * rows + row) * plane + place] == made[(b * rows
                                + row) * plane + place]);
                        }
                        assert(now =~= then);
                    }
                }
                assert forall|row: int, place: int|
                    0 <= row < b * rows && 0 <= place < plane implies #[trigger] output@[row
                    * plane + place] == opened[row * plane + place] by {
                    lemma_row_bound(row, b * rows + rows, place, plane);
                    assert(output@[row * plane + place] == made[row * plane + place]);
                }
            }
            y_start = y_start + strip_rows;
        }
        proof {
            assert forall|i: int, place: int|
                0 <= i < b + 1 && 0 <= place < plane implies is_separable(
                arithmetic,
                activation,
                depthwise,
                stage,
                row_of(input@, depthwise.channels * plane, i),
                place,
                #[trigger] channels_at(output@, rows, plane, i, place),
            ) by {
                if i < b {
                    let now = channels_at(output@, rows, plane, i, place);
                    let then = channels_at(opened, rows, plane, i, place);
                    assert forall|row: int| 0 <= row < rows implies now[row] == then[row] by {
                        lemma_row_bound(i, b as int, row, rows);
                        lemma_scale(0, i, rows);
                        assert(output@[(i * rows + row) * plane + place] == opened[(i * rows + row)
                            * plane + place]);
                    }
                    assert(now =~= then);
                }
            }
        }
    }
}

/// Computes a convolution by a single cell with weights interleaved in groups
/// of six, twelve or sixteen output channels, batch by batch.
#[verifier::spinoff_prover]
pub fn run_packed_pointwise<F: Copy, M: Fn(F, F, F) -> F, A: Fn(F) -> F>(
    arithmetic: &Arithmetic<F, M>,
    activation: Option<&A>,
    weight: &[F],
    bias: Option<&[F]>,
    input: &[F],
    batch: usize,
    rows: usize,
    inner: usize,
    plane: usize,
    block_rows: usize,
) -> (result: Vec<F>)
    requires
        arithmetic.valid(),
        activation_valid(activation),
        rows > 0 && inner > 0 && plane > 0,
        block_rows == 6 || block_rows == 12 || block_rows == 16,
        block_rows == 16 ==> rows % 16 == 0 && inner * 96 <= usize::MAX,
        weight@.len() == rows * inner,
        bias_has_len(bias, rows as int),
        input@.len() == batch * (inner * plane),
        batch * (rows * plane) <= usize::MAX,
    ensures
        result@.len() == batch * (rows * plane),
        forall|b: int|
            0 <= b < batch ==> is_gemm(
                arithmetic,
                activation,
                bias,
                None,
                weight@,
                Some(block_rows as int),
                row_of(input@, inner * plane, b),
                rows as int,
                inner as int,
                plane as int,
                plane as int,
                #[trigger] row_of(result@, rows * plane, b),
            ),
{
    let input_len: usize = input.len();
    let mut result: Vec<F> = Vec::new();
    if batch == 0 {
        return result;
    }
    proof {
        assert(inner * plane <= batch * (inner * plane) && rows * plane <= batch * (rows * plane))
            by (nonlinear_arith)
            requires
                batch >= 1,
                inner >= 1,
                rows >= 1,
                plane >= 1,
        ;
        vstd::arithmetic::mul::lemma_mul_basics(rows * plane);
    }
    let input_size: usize = inner * plane;
    let size: usize = rows * plane;
    for b in 0..batch
        invariant
            arithmetic.valid(),
            activation_valid(activation),
            rows > 0 && inner > 0 && plane > 0,
            block_rows == 6 || block_rows == 12 || block_rows == 16,
            block_rows == 16 ==> rows % 16 == 0 && inner * 96 <= usize::MAX,
            weight@.len() == rows * inner,
            bias_has_len(bias, rows as int),
            input_size == inner * plane,
            size == rows * plane,
            input_len == input@.len(),
            input_len == batch * input_size,
            batch * size <= usize::MAX,
            result@.len() == b * size,
            forall|i: int|
                0 <= i < b ==> is_gemm(
                    arithmetic,
                    activation,
                    bias,
                    None,
                    weight@,
                    Some(block_rows as int),
                    row_of(input@, input_size as int, i),
                    rows as int,
                    inner as int,
                    plane as int,
                    plane as int,
                    #[trigger] row_of(result@, size as int, i),
                ),
    {
        proof {
            assert((b + 1) * input_size <= batch * input_size) by (nonlinear_arith)
                requires
                    b + 1 <= batch,
                    input_size >= 0,
            ;
            assert((b + 1) * input_size == b * input_size + input_size) by (nonlinear_arith);
            assert((b + 1) * size == b * size + size) by (nonlinear_arith);
            lemma_scale(0, b as int, input_size as int);
        }
        let start: usize = b * input_size;
        let part: &[F] = vstd::slice::slice_subrange(input, start, start + input_size);
        let mut values: Vec<F> = crate::arena::zeroed(Vec::new(), size, arithmetic.zero);
        if block_rows == 16 {
            gemm_packed_left_cached_blocked_16(
                arithmetic,
                values.as_mut_slice(),
                weight,
                part,
                rows,
                inner,
                plane,
                bias,
                activation,
            );
        } else if block_rows == 6 {
            gemm_packed_left_blocked_6(
                arithmetic,
                values.as_mut_slice(),
                weight,
                part,
                rows,
                inner,
                plane,
                bias,
                activation,
            );
        } else {
            gemm_packed_left_with_activation(
                arithmetic,
                values.as_mut_slice(),
                weight,
                part,
                rows,
                inner,
                plane,
                bias,
                activation,
            );
        }
        let ghost before = result@;
        let ghost made = values@;
        assert(part@ =~= row_of(input@, input_size as int, b as int));
        result.append(&mut values);
        proof {
            assert(result@ =~= before + made);
            assert forall|i: int| 0 <= i < b + 1 implies is_gemm(
                arithmetic,
                activation,
                bias,
                None,
                weight@,
                Some(block_rows as int),
                row_of(input@, input_size as int, i),
                rows as int,
                inner as int,
                plane as int,
                plane as int,
                #[trigger] row_of(result@, size as int, i),
            ) by {
                if i < b {
                    assert((i + 1) * size <= b * size) by (nonlinear_arith)
                        requires
                            i + 1 <= b,
                            size >= 0,
                    ;
                    lemma_scale(0, i, size as int);
                    assert((i + 1) * size == i * size + size) by (nonlinear_arith);
                    assert(row_of(result@, size as int, i) =~= row_of(before, size as int, i));
                } else {
                    assert(row_of(result@, size as int, i) =~= made);
                }
            }
        }
    }
    result
}

} // verus!
