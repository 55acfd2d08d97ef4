//! Products of matrices that are stored in flat slices, dense or interleaved.
use crate::accumulate::{accumulates, activate, activates, activation_valid, fused, Arithmetic};
use crate::index::{cell_at, in_block, lemma_decode, lemma_encode, lemma_row_bound, lemma_scale};
use vstd::prelude::*;

verus! {

/// Where the operands of a block product lie in their slices.
///
/// The factor pair of row `r`, column `c` and depth `k` is
/// `left[left_start + r * left_row_step + k * left_step]` and
/// `right[right_start + k * right_step + c * right_column_step]`; the result
/// goes to `output[output_start + r * output_stride + c]`.
#[derive(Clone, Copy)]
pub struct Block {
    pub rows: usize,
    pub inner: usize,
    pub columns: usize,
    pub output_start: usize,
    pub output_stride: usize,
    pub left_start: usize,
    pub left_row_step: usize,
    pub left_step: usize,
    pub right_start: usize,
    pub right_step: usize,
    pub right_column_step: usize,
}

impl Block {
    /// The position of the left factor.
    pub open spec fn left_at(&self, row: int, index: int) -> int {
        self.left_start + row * self.left_row_step + index * self.left_step
    }

    /// The position of the right factor.
    pub open spec fn right_at(&self, index: int, column: int) -> int {
        self.right_start + index * self.right_step + column * self.right_column_step
    }

    /// The position of the result.
    #[verifier::inline]
    pub open spec fn output_at(&self, row: int, column: int) -> int {
        cell_at(self.output_start as int, self.output_stride as int, row, column)
    }

    /// Whether a position of the output belongs to the block.
    pub open spec fn writes(&self, position: int) -> bool {
        in_block(
            position,
            self.output_start as int,
            self.output_stride as int,
            self.rows as int,
            self.columns as int,
        )
    }

    /// The last cell that is read or written lies inside each slice, and rows of
    /// the output do not overlap.
    pub open spec fn fits(&self, output_len: int, left_len: int, right_len: int) -> bool {
        &&& self.columns <= self.output_stride
        &&& self.rows > 0 && self.columns > 0 ==> self.output_at(self.rows - 1, self.columns - 1)
            < output_len
        &&& self.rows > 0 && self.inner > 0 ==> self.left_at(self.rows - 1, self.inner - 1)
            < left_len
        &&& self.inner > 0 && self.columns > 0 ==> self.right_at(self.inner - 1, self.columns - 1)
            < right_len
    }

    /// The factor pairs of one output cell.
    pub open spec fn terms<T>(&self, left: Seq<T>, right: Seq<T>, row: int, column: int) -> Seq<
        (T, T),
    > {
        Seq::new(
            self.inner as nat,
            |index: int| (left[self.left_at(row, index)], right[self.right_at(index, column)]),
        )
    }
}

/// The value an output cell starts from.
#[derive(Clone, Copy)]
pub enum Initial<'a, T> {
    /// Every cell starts from one value.
    Constant(T),
    /// A cell starts from the entry of its row.
    PerRow(&'a [T], usize),
    /// A cell starts from the entry of its column.
    PerColumn(&'a [T], usize),
    /// A cell goes on from its present value.
    Accumulate,
}

impl<'a, T> Initial<'a, T> {
    /// The entries of all rows and columns exist.
    pub open spec fn covers(&self, rows: int, columns: int) -> bool {
        match *self {
            Initial::PerRow(values, start) => start + rows <= values@.len(),
            Initial::PerColumn(values, start) => start + columns <= values@.len(),
            _ => true,
        }
    }

    /// The value that the cell starts from, where `present` is what it holds.
    pub open spec fn value(&self, row: int, column: int, present: T) -> T {
        match *self {
            Initial::Constant(value) => value,
            Initial::PerRow(values, start) => values@[start + row],
            Initial::PerColumn(values, start) => values@[start + column],
            Initial::Accumulate => present,
        }
    }
}

impl<'a, T: Copy> Initial<'a, T> {
    /// The value that the cell starts from, where `present` is what it holds.
    pub fn get(&self, row: usize, column: usize, present: T) -> (result: T)
        requires
            self.covers(row + 1, column + 1),
        ensures
            result == self.value(row as int, column as int, present),
    {
        match *self {
            Initial::Constant(value) => value,
            Initial::PerRow(values, start) => {
                assert(values@.len() == values.len());
                values[start + row]
            },
            Initial::PerColumn(values, start) => {
                assert(values@.len() == values.len());
                values[start + column]
            },
            Initial::Accumulate => present,
        }
    }
}

/// A position inside the extreme row and index of an operand is inside the
/// operand.
proof fn lemma_offset_bound(
    start: int,
    row: int,
    rows: int,
    row_step: int,
    index: int,
    inner: int,
    step: int,
)
    requires
        0 <= start,
        0 <= row < rows,
        0 <= index < inner,
        0 <= row_step,
        0 <= step,
    ensures
        0 <= row * row_step,
        0 <= index * step,
        start + row * row_step + index * step <= start + (rows - 1) * row_step + (inner - 1)
            * step,
{
    lemma_scale(row, rows - 1, row_step);
    lemma_scale(index, inner - 1, step);
    lemma_scale(0, row, row_step);
    lemma_scale(0, index, step);
}

/// Computes the block product `activation(initial + left * right)`.
pub fn block_product<T: Copy, M: Fn(T, T, T) -> T, A: Fn(T) -> T>(
    arithmetic: &Arithmetic<T, M>,
    output: &mut [T],
    left: &[T],
    right: &[T],
    block: Block,
    initial: Initial<'_, T>,
    activation: Option<&A>,
)
    requires
        arithmetic.valid(),
        activation_valid(activation),
        block.fits(old(output)@.len() as int, left@.len() as int, right@.len() as int),
        initial.covers(block.rows as int, block.columns as int),
    ensures
        final(output)@.len() == old(output)@.len(),
        forall|row: int, column: int|
            0 <= row < block.rows && 0 <= column < block.columns ==> fused(
                arithmetic.mul_add,
                activation,
                initial.value(row, column, old(output)@[block.output_at(row, column)]),
                block.terms(left@, right@, row, column),
                #[trigger] final(output)@[block.output_at(row, column)],
            ),
        forall|position: int|
            0 <= position < old(output)@.len() && !block.writes(position)
                ==> #[trigger] final(output)@[position] == old(output)@[position],
{
    let ghost before = output@;
    let stride: usize = block.output_stride;
    let output_len: usize = output.len();
    let left_len: usize = left.len();
    let right_len: usize = right.len();
    for row in 0..block.rows
        invariant
            output_len == before.len(),
            left_len == left@.len(),
            right_len == right@.len(),
            stride == block.output_stride,
            arithmetic.valid(),
            activation_valid(activation),
            block.fits(before.len() as int, left@.len() as int, right@.len() as int),
            initial.covers(block.rows as int, block.columns as int),
            output@.len() == before.len(),
            forall|r: int, c: int|
                0 <= r < row && 0 <= c < block.columns ==> fused(
                    arithmetic.mul_add,
                    activation,
                    initial.value(r, c, before[block.output_at(r, c)]),
                    block.terms(left@, right@, r, c),
                    #[trigger] output@[block.output_at(r, c)],
                ),
            forall|r: int, c: int|
                row <= r < block.rows && 0 <= c < block.columns
                    ==> #[trigger] output@[block.output_at(r, c)] == before[block.output_at(r, c)],
            forall|position: int|
                0 <= position < before.len() && !block.writes(position)
                    ==> #[trigger] output@[position] == before[position],
    {
        for column in 0..block.columns
            invariant
                output_len == before.len(),
                left_len == left@.len(),
                right_len == right@.len(),
                row < block.rows,
                stride == block.output_stride,
                arithmetic.valid(),
                activation_valid(activation),
                block.fits(before.len() as int, left@.len() as int, right@.len() as int),
                initial.covers(block.rows as int, block.columns as int),
                output@.len() == before.len(),
                forall|r: int, c: int|
                    0 <= r <= row && 0 <= c < block.columns && (r < row || c < column) ==> fused(
                        arithmetic.mul_add,
                        activation,
                        initial.value(r, c, before[block.output_at(r, c)]),
                        block.terms(left@, right@, r, c),
                        #[trigger] output@[block.output_at(r, c)],
                    ),
                forall|r: int, c: int|
                    row <= r < block.rows && 0 <= c < block.columns && (r > row || c >= column)
                        ==> #[trigger] output@[block.output_at(r, c)] == before[block.output_at(
                        r,
                        c,
                    )],
                forall|position: int|
                    0 <= position < before.len() && !block.writes(position)
                        ==> #[trigger] output@[position] == before[position],
        {
            proof {
                lemma_offset_bound(
                    block.output_start as int,
                    row as int,
                    block.rows as int,
                    stride as int,
                    column as int,
                    block.columns as int,
                    1,
                );
                lemma_decode(row as int, column as int, stride as int);
            }
            let position: usize = block.output_start + row * stride + column;
            let ghost r0 = row as int;
            let ghost c0 = column as int;
            assert(position == block.output_at(r0, c0));
            let ghost start = initial.value(r0, c0, before[position as int]);
            let ghost terms = block.terms(left@, right@, r0, c0);
            let mut sum: T = initial.get(row, column, output[position]);
            proof {
                crate::accumulate::lemma_accumulate_none(arithmetic.mul_add, sum, terms.take(0));
            }
            for index in 0..block.inner
                invariant
                    left_len == left@.len(),
                    right_len == right@.len(),
                    arithmetic.valid(),
                    row < block.rows,
                    column < block.columns,
                    r0 == row,
                    c0 == column,
                    block.fits(before.len() as int, left@.len() as int, right@.len() as int),
                    terms == block.terms(left@, right@, r0, c0),
                    accumulates(arithmetic.mul_add, start, terms.take(index as int), sum),
            {
                proof {
                    lemma_offset_bound(
                        block.left_start as int,
                        row as int,
                        block.rows as int,
                        block.left_row_step as int,
                        index as int,
                        block.inner as int,
                        block.left_step as int,
                    );
                    lemma_offset_bound(
                        block.right_start as int,
                        index as int,
                        block.inner as int,
                        block.right_step as int,
                        column as int,
                        block.columns as int,
                        block.right_column_step as int,
                    );
                }
                let left_position: usize = block.left_start + row * block.left_row_step + index
                    * block.left_step;
                let right_position: usize = block.right_start + index * block.right_step + column
                    * block.right_column_step;
                let ghost partial = sum;
                sum = (arithmetic.mul_add)(left[left_position], right[right_position], sum);
                proof {
                    crate::accumulate::lemma_accumulate_step(
                        arithmetic.mul_add,
                        start,
                        terms.take(index as int),
                        partial,
                        terms[index as int],
                        sum,
                    );
                    assert(terms.take(index as int).push(terms[index as int]) =~= terms.take(
                        index + 1,
                    ));
                }
            }
            assert(terms.take(block.inner as int) =~= terms);
            let ghost written = output@;
            let value: T = activate(activation, sum);
            output[position] = value;
            proof {
                assert forall|r: int, c: int|
                    0 <= r < block.rows && 0 <= c < block.columns && (r != r0 || c != c0) implies
                    #[trigger] output@[block.output_at(r, c)] == written[block.output_at(r, c)] by {
                    lemma_decode(r, c, stride as int);
                    lemma_offset_bound(
                        block.output_start as int,
                        r,
                        block.rows as int,
                        stride as int,
                        c,
                        block.columns as int,
                        1,
                    );
                }
            }
        }
    }
}

/// The number of rows in the packed group that holds `row`: groups have `block`
/// rows, and the last one holds what is left.
pub open spec fn group_height(rows: int, block: int, row: int) -> int {
    let start: int = (row / block) * block;
    if rows - start < block {
        rows - start
    } else {
        block
    }
}

/// The position of an element of a matrix of `rows` by `inner` whose rows are
/// interleaved in groups of `block`: a group holds its rows' elements of one
/// depth next to each other.
pub open spec fn packed_position(rows: int, inner: int, block: int, row: int, index: int) -> int {
    (row / block) * block * inner + index * group_height(rows, block, row) + row % block
}

/// The shape of a product, and how its operands are stored.
#[derive(Clone, Copy)]
pub struct Product {
    pub rows: usize,
    pub inner: usize,
    pub columns: usize,
    pub output_start: usize,
    pub output_stride: usize,
    pub right_start: usize,
    pub right_stride: usize,
    /// The left operand is interleaved in groups of `block_rows` rows.
    pub packed_left: bool,
    pub block_rows: usize,
    pub depth_block: usize,
}

impl Product {
    /// The position of the left factor.
    pub open spec fn left_at(&self, row: int, index: int) -> int {
        if self.packed_left {
            packed_position(
                self.rows as int,
                self.inner as int,
                self.block_rows as int,
                row,
                index,
            )
        } else {
            cell_at(0, self.inner as int, row, index)
        }
    }

    /// The factor pairs of one output cell.
    pub open spec fn terms<T>(&self, left: Seq<T>, right: Seq<T>, row: int, column: int) -> Seq<
        (T, T),
    > {
        Seq::new(
            self.inner as nat,
            |index: int|
                (
                    left[self.left_at(row, index)],
                    right[cell_at(
                        self.right_start as int,
                        self.right_stride as int,
                        index,
                        column,
                    )],
                ),
        )
    }

    /// The position of the result.
    #[verifier::inline]
    pub open spec fn output_at(&self, row: int, column: int) -> int {
        cell_at(self.output_start as int, self.output_stride as int, row, column)
    }

    /// Whether a position of the output belongs to the product.
    pub open spec fn writes(&self, position: int) -> bool {
        in_block(
            position,
            self.output_start as int,
            self.output_stride as int,
            self.rows as int,
            self.columns as int,
        )
    }

    /// The operands hold the whole product, and rows of the output do not
    /// overlap.
    pub open spec fn fits(&self, output_len: int, left_len: int, right_len: int) -> bool {
        &&& self.rows > 0 && self.inner > 0 && self.columns > 0
        &&& self.block_rows > 0 && self.depth_block > 0
        &&& self.columns <= self.output_stride
        &&& self.output_at(self.rows - 1, self.columns - 1) < output_len
        &&& self.rows * self.inner <= left_len
        &&& cell_at(
            self.right_start as int,
            self.right_stride as int,
            self.inner - 1,
            self.columns - 1,
        ) < right_len
    }
}

/// What an output cell holds once the first `depth` of all its terms are
/// folded: its present value while there are none, and the activated sum when
/// there are all.
spec fn folded<T, M: Fn(T, T, T) -> T, A: Fn(T) -> T>(
    mul_add: M,
    activation: Option<&A>,
    initial: T,
    terms: Seq<(T, T)>,
    depth: int,
    present: T,
    value: T,
) -> bool {
    if depth == 0 {
        value == present
    } else if depth < terms.len() {
        accumulates(mul_add, initial, terms.take(depth), value)
    } else {
        fused(mul_add, activation, initial, terms, value)
    }
}

/// The cells of a block of a product: a group of rows and a range of depths.
spec fn product_block(
    product: Product,
    row_start: int,
    height: int,
    depth_start: int,
    depth: int,
) -> Block {
    Block {
        rows: height as usize,
        inner: depth as usize,
        columns: product.columns,
        output_start: (product.output_start + row_start * product.output_stride) as usize,
        output_stride: product.output_stride,
        left_start: (row_start * product.inner + depth_start * (if product.packed_left {
            height
        } else {
            1
        })) as usize,
        left_row_step: if product.packed_left {
            1
        } else {
            product.inner
        },
        left_step: if product.packed_left {
            height as usize
        } else {
            1
        },
        right_start: (product.right_start + depth_start * product.right_stride) as usize,
        right_step: product.right_stride,
        right_column_step: 1,
    }
}

/// The bounds of one group of rows and one range of depths of a product.
proof fn lemma_product_block(
    product: Product,
    output_len: int,
    left_len: int,
    right_len: int,
    group: int,
    height: int,
    depth_start: int,
    depth: int,
)
    requires
        product.fits(output_len, left_len, right_len),
        output_len <= usize::MAX,
        left_len <= usize::MAX,
        right_len <= usize::MAX,
        0 <= group,
        group * product.block_rows < product.rows,
        height == group_height(product.rows as int, product.block_rows as int, group * product.block_rows),
        0 <= depth_start,
        0 < depth,
        depth_start + depth <= product.inner,
    ensures
        0 < height <= product.block_rows,
        group * product.block_rows + height <= product.rows,
        0 <= group * product.block_rows,
        0 <= group * product.block_rows * product.output_stride,
        0 <= product.output_start + group * product.block_rows * product.output_stride
            <= usize::MAX,
        0 <= group * product.block_rows * product.inner <= usize::MAX,
        0 <= depth_start * height,
        0 <= depth_start * product.right_stride,
        0 <= group * product.block_rows * product.inner + depth_start * height <= usize::MAX,
        0 <= group * product.block_rows * product.inner + depth_start <= usize::MAX,
        0 <= product.right_start + depth_start * product.right_stride <= usize::MAX,
        product_block(product, group * product.block_rows, height, depth_start, depth).fits(
            output_len,
            left_len,
            right_len,
        ),
{
    let row_start = group * product.block_rows;
    lemma_decode(group, 0, product.block_rows as int);
    assert(row_start / product.block_rows as int == group);
    lemma_scale(0, group, product.block_rows as int);
    lemma_scale(0, row_start, product.output_stride as int);
    lemma_scale(row_start + height, product.rows as int, product.output_stride as int);
    lemma_scale(row_start + height, product.rows as int, product.inner as int);
    lemma_scale(0, row_start, product.inner as int);
    lemma_scale(0, depth_start, height);
    lemma_scale(0, depth_start, product.right_stride as int);
    lemma_scale(depth_start + depth, product.inner as int, height);
    lemma_scale(depth_start + depth - 1, product.inner - 1, product.right_stride as int);
    assert((row_start + height) * product.output_stride == row_start * product.output_stride + (
    height - 1) * product.output_stride + product.output_stride) by (nonlinear_arith);
    assert(product.rows * product.output_stride == (product.rows - 1) * product.output_stride
        + product.output_stride) by (nonlinear_arith);
    assert((row_start + height) * product.inner == row_start * product.inner + height
        * product.inner) by (nonlinear_arith);
    assert(height * product.inner == product.inner * height) by (nonlinear_arith);
    assert((depth_start + depth) * height == depth_start * height + (depth - 1) * height + height)
        by (nonlinear_arith);
    assert((height - 1) * product.inner + product.inner == height * product.inner)
        by (nonlinear_arith);
    assert((depth_start + depth - 1) * product.right_stride == depth_start * product.right_stride
        + (depth - 1) * product.right_stride) by (nonlinear_arith);
    lemma_scale(0, height - 1, product.output_stride as int);
    lemma_scale(0, depth - 1, product.right_stride as int);
    lemma_scale(0, depth - 1, height);
    lemma_scale(0, height - 1, product.inner as int);
}

/// A group of rows of a product reads and writes what the product does.
proof fn lemma_product_terms<T>(
    product: Product,
    left: Seq<T>,
    right: Seq<T>,
    output_len: int,
    group: int,
    height: int,
    depth_start: int,
    depth: int,
    row: int,
    column: int,
)
    requires
        product.fits(output_len, left.len() as int, right.len() as int),
        output_len <= usize::MAX,
        left.len() <= usize::MAX,
        right.len() <= usize::MAX,
        0 <= group,
        group * product.block_rows < product.rows,
        height == group_height(product.rows as int, product.block_rows as int, group * product.block_rows),
        0 <= depth_start,
        0 < depth,
        depth_start + depth <= product.inner,
        0 <= row < height,
        0 <= column < product.columns,
    ensures
        product.terms(left, right, group * product.block_rows + row, column).subrange(
            depth_start,
            depth_start + depth,
        ) == product_block(product, group * product.block_rows, height, depth_start, depth).terms(
            left,
            right,
            row,
            column,
        ),
        product_block(product, group * product.block_rows, height, depth_start, depth).output_at(
            row,
            column,
        ) == product.output_at(group * product.block_rows + row, column),
{
    let row_start = group * product.block_rows;
    lemma_product_block(
        product,
        output_len,
        left.len() as int,
        right.len() as int,
        group,
        height,
        depth_start,
        depth,
    );
    let block = product_block(product, row_start, height, depth_start, depth);
    lemma_decode(group, row, product.block_rows as int);
    lemma_decode(group, 0, product.block_rows as int);
    let whole = product.terms(left, right, row_start + row, column).subrange(
        depth_start,
        depth_start + depth,
    );
    let part = block.terms(left, right, row, column);
    assert((row_start + row) * product.output_stride == row_start * product.output_stride + row
        * product.output_stride) by (nonlinear_arith);
    assert((row_start + row) * product.inner == row_start * product.inner + row * product.inner)
        by (nonlinear_arith);
    assert forall|k: int| 0 <= k < depth implies whole[k] == part[k] by {
        assert((depth_start + k) * height == depth_start * height + k * height)
            by (nonlinear_arith);
        assert((depth_start + k) * product.right_stride == depth_start * product.right_stride + k
            * product.right_stride) by (nonlinear_arith);
    }
    assert(whole =~= part);
}

/// Computes a whole product, one group of rows and one range of depths at a
/// time. Sums that a range of depths leaves unfinished wait in the output.
#[verifier::spinoff_prover]
pub fn blocked_product<T: Copy, M: Fn(T, T, T) -> T, A: Fn(T) -> T>(
    arithmetic: &Arithmetic<T, M>,
    output: &mut [T],
    left: &[T],
    right: &[T],
    product: Product,
    initial: Initial<'_, T>,
    activation: Option<&A>,
)
    requires
        arithmetic.valid(),
        activation_valid(activation),
        product.fits(old(output)@.len() as int, left@.len() as int, right@.len() as int),
        initial.covers(product.rows as int, product.columns as int),
    ensures
        final(output)@.len() == old(output)@.len(),
        forall|row: int, column: int|
            0 <= row < product.rows && 0 <= column < product.columns ==> fused(
                arithmetic.mul_add,
                activation,
                initial.value(row, column, old(output)@[product.output_at(row, column)]),
                product.terms(left@, right@, row, column),
                #[trigger] final(output)@[product.output_at(row, column)],
            ),
        forall|position: int|
            0 <= position < old(output)@.len() && !product.writes(position)
                ==> #[trigger] final(output)@[position] == old(output)@[position],
{
    let ghost before = output@;
    let output_len: usize = output.len();
    let left_len: usize = left.len();
    let right_len: usize = right.len();
    let mut depth_start: usize = 0;
    while depth_start < product.inner
        invariant
            output_len == before.len(),
            left_len == left@.len(),
            right_len == right@.len(),
            arithmetic.valid(),
            activation_valid(activation),
            product.fits(before.len() as int, left@.len() as int, right@.len() as int),
            initial.covers(product.rows as int, product.columns as int),
            output@.len() == before.len(),
            depth_start <= product.inner,
            forall|row: int, column: int|
                0 <= row < product.rows && 0 <= column < product.columns ==> folded(
                    arithmetic.mul_add,
                    activation,
                    initial.value(row, column, before[product.output_at(row, column)]),
                    product.terms(left@, right@, row, column),
                    depth_start as int,
                    before[product.output_at(row, column)],
                    #[trigger] output@[product.output_at(row, column)],
                ),
            forall|position: int|
                0 <= position < before.len() && !product.writes(position)
                    ==> #[trigger] output@[position] == before[position],
        decreases product.inner - depth_start,
    {
        let depth: usize = if product.inner - depth_start < product.depth_block {
            product.inner - depth_start
        } else {
            product.depth_block
        };
        let ghost next = depth_start + depth;
        let mut row_start: usize = 0;
        let ghost mut group: int = 0;
        while row_start < product.rows
            invariant
                output_len == before.len(),
                left_len == left@.len(),
                right_len == right@.len(),
                arithmetic.valid(),
                activation_valid(activation),
                product.fits(before.len() as int, left@.len() as int, right@.len() as int),
                initial.covers(product.rows as int, product.columns as int),
                output@.len() == before.len(),
                0 < depth,
                depth_start + depth <= product.inner,
                next == depth_start + depth,
                row_start <= product.rows,
                row_start < product.rows ==> row_start == group * product.block_rows,
                0 <= group,
                forall|row: int, column: int|
                    0 <= row < product.rows && 0 <= column < product.columns ==> folded(
                        arithmetic.mul_add,
                        activation,
                        initial.value(row, column, before[product.output_at(row, column)]),
                        product.terms(left@, right@, row, column),
                        if row < row_start {
                            next
                        } else {
                            depth_start as int
                        },
                        before[product.output_at(row, column)],
                        #[trigger] output@[product.output_at(row, column)],
                    ),
                forall|position: int|
                    0 <= position < before.len() && !product.writes(position)
                        ==> #[trigger] output@[position] == before[position],
            decreases product.rows - row_start,
        {
            let height: usize = if product.rows - row_start < product.block_rows {
                product.rows - row_start
            } else {
                product.block_rows
            };
            proof {
                lemma_decode(group, 0, product.block_rows as int);
                lemma_product_block(
                    product,
                    before.len() as int,
                    left@.len() as int,
                    right@.len() as int,
                    group,
                    height as int,
                    depth_start as int,
                    depth as int,
                );
            }
            let block: Block = Block {
                rows: height,
                inner: depth,
                columns: product.columns,
                output_start: product.output_start + row_start * product.output_stride,
                output_stride: product.output_stride,
                left_start: row_start * product.inner + if product.packed_left {
                    depth_start * height
                } else {
                    depth_start
                },
                left_row_step: if product.packed_left {
                    1
                } else {
                    product.inner
                },
                left_step: if product.packed_left {
                    height
                } else {
                    1
                },
                right_start: product.right_start + depth_start * product.right_stride,
                right_step: product.right_stride,
                right_column_step: 1,
            };
            assert(block == product_block(
                product,
                row_start as int,
                height as int,
                depth_start as int,
                depth as int,
            ));
            let block_initial: Initial<'_, T> = if depth_start == 0 {
                match initial {
                    Initial::PerRow(values, start) => {
                        assert(values@.len() == values.len());
                        Initial::PerRow(values, start + row_start)
                    },
                    other => other,
                }
            } else {
                Initial::Accumulate
            };
            let block_activation: Option<&A> = if depth_start + depth == product.inner {
                activation
            } else {
                None
            };
            let ghost earlier = output@;
            block_product(
                arithmetic,
                output,
                left,
                right,
                block,
                block_initial,
                block_activation,
            );
            proof {
                assert forall|row: int, column: int|
                    0 <= row < product.rows && 0 <= column < product.columns implies folded(
                    arithmetic.mul_add,
                    activation,
                    initial.value(row, column, before[product.output_at(row, column)]),
                    product.terms(left@, right@, row, column),
                    if row < row_start + height {
                        next
                    } else {
                        depth_start as int
                    },
                    before[product.output_at(row, column)],
                    #[trigger] output@[product.output_at(row, column)],
                ) by {
                    let position = product.output_at(row, column);
                    lemma_row_bound(
                        row,
                        product.rows as int,
                        column,
                        product.output_stride as int,
                    );
                    lemma_scale(row, product.rows - 1, product.output_stride as int);
                    assert(0 <= position < before.len());
                    if row_start <= row < row_start + height {
                        let r = row - row_start;
                        lemma_product_terms(
                            product,
                            left@,
                            right@,
                            before.len() as int,
                            group,
                            height as int,
                            depth_start as int,
                            depth as int,
                            r,
                            column,
                        );
                        assert(block.output_at(r, column) == position);
                        lemma_block_folded(
                            arithmetic.mul_add,
                            activation,
                            block_activation,
                            initial.value(row, column, before[position]),
                            block_initial.value(r, column, earlier[position]),
                            product.terms(left@, right@, row, column),
                            depth_start as int,
                            depth as int,
                            before[position],
                            earlier[position],
                            output@[position],
                        );
                    } else {
                        lemma_decode(row - row_start, column, product.output_stride as int);
                        assert((row - row_start) * product.output_stride == row
                            * product.output_stride - row_start * product.output_stride)
                            by (nonlinear_arith);
                        assert(!block.writes(position)) by {
                            if row < row_start {
                                lemma_row_bound(
                                    row,
                                    row_start as int,
                                    column,
                                    product.output_stride as int,
                                );
                            }
                        }
                        assert(output@[position] == earlier[position]);
                    }
                }
                assert forall|position: int|
                    0 <= position < before.len() && !product.writes(
                        position,
                    ) implies #[trigger] output@[position] == before[position] by {
                    if block.writes(position) {
                        let start = row_start * product.output_stride;
                        let d = position - product.output_start - start;
                        let stride = product.output_stride as int;
                        lemma_encode(d, stride);
                        lemma_decode(row_start + d / stride, d % stride, stride);
                        assert((row_start + d / stride) * stride == start + (d / stride) * stride)
                            by (nonlinear_arith)
                            requires
                                start == row_start * stride,
                        ;
                    }
                }
                group = group + 1;
                assert(group * product.block_rows == (group - 1) * product.block_rows
                    + product.block_rows) by (nonlinear_arith);
            }
            row_start = row_start + height;
        }
        depth_start = depth_start + depth;
    }
}

/// Folding one more range of depths into a cell.
proof fn lemma_block_folded<T, M: Fn(T, T, T) -> T, A: Fn(T) -> T>(
    mul_add: M,
    activation: Option<&A>,
    block_activation: Option<&A>,
    initial: T,
    block_initial: T,
    terms: Seq<(T, T)>,
    depth_start: int,
    depth: int,
    present: T,
    earlier: T,
    value: T,
)
    requires
        0 <= depth_start,
        0 < depth,
        depth_start + depth <= terms.len(),
        folded(mul_add, activation, initial, terms, depth_start, present, earlier),
        block_initial == (if depth_start == 0 {
            initial
        } else {
            earlier
        }),
        block_activation == (if depth_start + depth == terms.len() {
            activation
        } else {
            None
        }),
        fused(
            mul_add,
            block_activation,
            block_initial,
            terms.subrange(depth_start, depth_start + depth),
            value,
        ),
    ensures
        folded(mul_add, activation, initial, terms, depth_start + depth, present, value),
{
    let part = terms.subrange(depth_start, depth_start + depth);
    let sum = choose|sum: T| #[trigger]
        accumulates(mul_add, block_initial, part, sum) && activates(block_activation, sum, value);
    let total = terms.take(depth_start + depth);
    assert(accumulates(mul_add, initial, total, sum)) by {
        if depth_start == 0 {
            assert(part =~= total);
        } else {
            crate::accumulate::lemma_accumulate_blocks(
                mul_add,
                initial,
                terms.take(depth_start),
                earlier,
                part,
                sum,
            );
            assert(terms.take(depth_start) + part =~= total);
        }
    }
    if depth_start + depth == terms.len() {
        assert(total =~= terms);
    }
}

} // verus!
