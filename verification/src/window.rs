//! Sums over the window that a convolution sees from one output cell.
use crate::accumulate::{accumulates, lemma_accumulate_none, lemma_accumulate_step, Arithmetic};
use crate::index::{cell_at, lemma_decode, lemma_encode, lemma_row_bound, lemma_scale};
use vstd::prelude::*;

verus! {

/// The geometry of a convolution: its input planes, its kernel, its strides and
/// the padding before the first row and column.
#[derive(Clone, Copy, Debug, PartialEq, Eq, Structural)]
pub struct Window {
    pub channels: usize,
    pub input_height: usize,
    pub input_width: usize,
    pub kernel_height: usize,
    pub kernel_width: usize,
    pub stride_y: usize,
    pub stride_x: usize,
    pub pad_y: usize,
    pub pad_x: usize,
}

impl Window {
    /// The number of kernel positions, over all channels.
    pub open spec fn size(&self) -> int {
        self.channels * self.kernel_height * self.kernel_width
    }

    /// The number of cells of an input plane.
    pub open spec fn plane(&self) -> int {
        self.input_height * self.input_width
    }

    /// The channel of a kernel position. Positions run over the kernel's columns
    /// first, then its rows, then the channels.
    pub open spec fn channel_of(&self, position: int) -> int {
        position / self.kernel_width as int / self.kernel_height as int
    }

    /// The kernel row of a kernel position.
    pub open spec fn kernel_y_of(&self, position: int) -> int {
        position / self.kernel_width as int % self.kernel_height as int
    }

    /// The kernel column of a kernel position.
    pub open spec fn kernel_x_of(&self, position: int) -> int {
        position % self.kernel_width as int
    }

    /// The input row under a kernel row, which padding may put outside the input.
    pub open spec fn input_y(&self, output_y: int, kernel_y: int) -> int {
        output_y * self.stride_y + kernel_y - self.pad_y
    }

    /// The input column under a kernel column.
    pub open spec fn input_x(&self, output_x: int, kernel_x: int) -> int {
        output_x * self.stride_x + kernel_x - self.pad_x
    }

    /// Whether a kernel position lies over the input rather than its padding.
    pub open spec fn covers(&self, output_y: int, output_x: int, position: int) -> bool {
        &&& 0 <= self.input_y(output_y, self.kernel_y_of(position)) < self.input_height
        &&& 0 <= self.input_x(output_x, self.kernel_x_of(position)) < self.input_width
    }

    /// The place of the input cell under a kernel position, relative to the first
    /// channel.
    pub open spec fn input_at(&self, output_y: int, output_x: int, position: int) -> int {
        self.channel_of(position) * self.plane() + cell_at(
            0,
            self.input_width as int,
            self.input_y(output_y, self.kernel_y_of(position)),
            self.input_x(output_x, self.kernel_x_of(position)),
        )
    }

    /// Positions of the kernel over the last output cell can be counted.
    pub open spec fn reaches(&self, output_height: int, output_width: int) -> bool {
        &&& (output_height - 1) * self.stride_y + self.kernel_height <= usize::MAX
        &&& (output_width - 1) * self.stride_x + self.kernel_width <= usize::MAX
    }

    /// The factor pairs of the first `count` kernel positions: the input cells
    /// that they cover with their weights. Padding contributes no pair.
    pub open spec fn terms<T>(
        &self,
        input: Seq<T>,
        input_base: int,
        weight: Seq<T>,
        weight_base: int,
        weight_step: int,
        output_y: int,
        output_x: int,
        count: nat,
    ) -> Seq<(T, T)>
        decreases count,
    {
        if count == 0 {
            Seq::empty()
        } else {
            let position = count - 1;
            let before = self.terms(
                input,
                input_base,
                weight,
                weight_base,
                weight_step,
                output_y,
                output_x,
                position as nat,
            );
            if self.covers(output_y, output_x, position) {
                before.push(
                    (
                        input[input_base + self.input_at(output_y, output_x, position)],
                        weight[weight_base + position * weight_step],
                    ),
                )
            } else {
                before
            }
        }
    }

    /// The factor pairs of all kernel positions.
    pub open spec fn all_terms<T>(
        &self,
        input: Seq<T>,
        input_base: int,
        weight: Seq<T>,
        weight_base: int,
        weight_step: int,
        output_y: int,
        output_x: int,
    ) -> Seq<(T, T)> {
        self.terms(
            input,
            input_base,
            weight,
            weight_base,
            weight_step,
            output_y,
            output_x,
            self.size() as nat,
        )
    }

    /// The input cell under a kernel position, or `zero` over the padding.
    pub open spec fn cell<T>(
        &self,
        zero: T,
        input: Seq<T>,
        input_base: int,
        output_y: int,
        output_x: int,
        position: int,
    ) -> T {
        if self.covers(output_y, output_x, position) {
            input[input_base + self.input_at(output_y, output_x, position)]
        } else {
            zero
        }
    }

    /// A kernel position is made of its channel, row and column.
    pub proof fn lemma_position(&self, channel: int, kernel_y: int, kernel_x: int)
        requires
            0 <= channel < self.channels,
            0 <= kernel_y < self.kernel_height,
            0 <= kernel_x < self.kernel_width,
        ensures
            0 <= (channel * self.kernel_height + kernel_y) * self.kernel_width + kernel_x
                < self.size(),
            0 <= channel * self.kernel_height,
            0 <= (channel * self.kernel_height + kernel_y) * self.kernel_width,
            channel * self.kernel_height + kernel_y < self.channels * self.kernel_height,
            self.channel_of(
                (channel * self.kernel_height + kernel_y) * self.kernel_width + kernel_x,
            ) == channel,
            self.kernel_y_of(
                (channel * self.kernel_height + kernel_y) * self.kernel_width + kernel_x,
            ) == kernel_y,
            self.kernel_x_of(
                (channel * self.kernel_height + kernel_y) * self.kernel_width + kernel_x,
            ) == kernel_x,
    {
        lemma_row_bound(channel, self.channels as int, kernel_y, self.kernel_height as int);
        lemma_row_bound(
            channel * self.kernel_height + kernel_y,
            self.channels * self.kernel_height,
            kernel_x,
            self.kernel_width as int,
        );
        lemma_decode(
            channel * self.kernel_height + kernel_y,
            kernel_x,
            self.kernel_width as int,
        );
        lemma_decode(channel, kernel_y, self.kernel_height as int);
    }

    /// A covered input cell lies inside the input planes.
    pub proof fn lemma_input_at(&self, output_y: int, output_x: int, position: int)
        requires
            0 <= position < self.size(),
            self.covers(output_y, output_x, position),
        ensures
            0 <= self.channel_of(position) < self.channels,
            0 <= self.input_at(output_y, output_x, position) < self.channels * self.plane(),
            0 <= self.channel_of(position) * self.plane(),
    {
        let y = self.input_y(output_y, self.kernel_y_of(position));
        let x = self.input_x(output_x, self.kernel_x_of(position));
        let row = position / self.kernel_width as int;
        if self.kernel_width == 0 {
            assert(self.channels * self.kernel_height * self.kernel_width == 0) by (nonlinear_arith)
                requires
                    self.kernel_width == 0,
            ;
        }
        lemma_encode(position, self.kernel_width as int);
        assert(row < self.channels * self.kernel_height) by {
            if row >= self.channels * self.kernel_height {
                lemma_scale(
                    self.channels * self.kernel_height,
                    row,
                    self.kernel_width as int,
                );
            }
        }
        if self.kernel_height == 0 {
            assert(self.channels * self.kernel_height == 0) by (nonlinear_arith)
                requires
                    self.kernel_height == 0,
            ;
        }
        lemma_encode(row, self.kernel_height as int);
        let channel = self.channel_of(position);
        assert(channel < self.channels) by {
            if channel >= self.channels {
                lemma_scale(self.channels as int, channel, self.kernel_height as int);
            }
        }
        lemma_row_bound(y, self.input_height as int, x, self.input_width as int);
        lemma_row_bound(
            channel,
            self.channels as int,
            y * self.input_width + x,
            self.plane(),
        );
    }
}

/// Folds the input cells under the kernel, with their weights, into `start`.
pub fn window_sum<T: Copy, M: Fn(T, T, T) -> T>(
    arithmetic: &Arithmetic<T, M>,
    input: &[T],
    input_base: usize,
    weight: &[T],
    weight_base: usize,
    weight_step: usize,
    window: &Window,
    output_y: usize,
    output_x: usize,
    start: T,
) -> (result: T)
    requires
        arithmetic.valid(),
        window.reaches(output_y + 1, output_x + 1),
        window.size() <= usize::MAX,
        input_base + window.channels * window.plane() <= input@.len(),
        window.size() > 0 ==> weight_base + (window.size() - 1) * weight_step < weight@.len(),
    ensures
        accumulates(
            arithmetic.mul_add,
            start,
            window.all_terms(
                input@,
                input_base as int,
                weight@,
                weight_base as int,
                weight_step as int,
                output_y as int,
                output_x as int,
            ),
            result,
        ),
{
    let mut sum: T = start;
    let input_len: usize = input.len();
    let weight_len: usize = weight.len();
    proof {
        lemma_accumulate_none(arithmetic.mul_add, start, Seq::<(T, T)>::empty());
        vstd::arithmetic::mul::lemma_mul_basics(window.kernel_height as int);
        vstd::arithmetic::mul::lemma_mul_basics(window.kernel_width as int);
    }
    let mut position: usize = 0;
    for channel in 0..window.channels
        invariant
            arithmetic.valid(),
            window.reaches(output_y + 1, output_x + 1),
            window.size() <= usize::MAX,
            input_len == input@.len(),
            weight_len == weight@.len(),
            input_base + window.channels * window.plane() <= input@.len(),
            window.size() > 0 ==> weight_base + (window.size() - 1) * weight_step < weight@.len(),
            window.kernel_height > 0 && window.kernel_width > 0 ==> position == channel
                * window.kernel_height * window.kernel_width,
            window.kernel_height == 0 || window.kernel_width == 0 ==> position == 0,
            accumulates(
                arithmetic.mul_add,
                start,
                window.terms(
                    input@,
                    input_base as int,
                    weight@,
                    weight_base as int,
                    weight_step as int,
                    output_y as int,
                    output_x as int,
                    position as nat,
                ),
                sum,
            ),
    {
        for kernel_y in 0..window.kernel_height
            invariant
                channel < window.channels,
                arithmetic.valid(),
                window.reaches(output_y + 1, output_x + 1),
                window.size() <= usize::MAX,
                input_len == input@.len(),
                weight_len == weight@.len(),
                input_base + window.channels * window.plane() <= input@.len(),
                window.size() > 0 ==> weight_base + (window.size() - 1) * weight_step
                    < weight@.len(),
                window.kernel_height > 0 && window.kernel_width > 0 ==> position == (channel
                    * window.kernel_height + kernel_y) * window.kernel_width,
                window.kernel_height == 0 || window.kernel_width == 0 ==> position == 0,
                accumulates(
                    arithmetic.mul_add,
                    start,
                    window.terms(
                        input@,
                        input_base as int,
                        weight@,
                        weight_base as int,
                        weight_step as int,
                        output_y as int,
                        output_x as int,
                        position as nat,
                    ),
                    sum,
                ),
        {
            proof {
                lemma_scale(0, output_y as int, window.stride_y as int);
            }
            let padded_y: usize = output_y * window.stride_y + kernel_y;
            for kernel_x in 0..window.kernel_width
                invariant
                    channel < window.channels,
                    kernel_y < window.kernel_height,
                    padded_y == output_y * window.stride_y + kernel_y,
                    arithmetic.valid(),
                    window.reaches(output_y + 1, output_x + 1),
                    window.size() <= usize::MAX,
                    input_len == input@.len(),
                    weight_len == weight@.len(),
                    input_base + window.channels * window.plane() <= input@.len(),
                    window.size() > 0 ==> weight_base + (window.size() - 1) * weight_step
                        < weight@.len(),
                    window.kernel_height > 0 && window.kernel_width > 0 ==> position == (channel
                        * window.kernel_height + kernel_y) * window.kernel_width + kernel_x,
                    window.kernel_height == 0 || window.kernel_width == 0 ==> position == 0,
                    accumulates(
                        arithmetic.mul_add,
                        start,
                        window.terms(
                            input@,
                            input_base as int,
                            weight@,
                            weight_base as int,
                            weight_step as int,
                            output_y as int,
                            output_x as int,
                            position as nat,
                        ),
                        sum,
                    ),
            {
                proof {
                    lemma_scale(0, output_x as int, window.stride_x as int);
                    window.lemma_position(channel as int, kernel_y as int, kernel_x as int);
                    lemma_scale(position as int, window.size() - 1, weight_step as int);
                    lemma_scale(0, position as int, weight_step as int);
                }
                let ghost at = position as int;
                let ghost terms = window.terms(
                    input@,
                    input_base as int,
                    weight@,
                    weight_base as int,
                    weight_step as int,
                    output_y as int,
                    output_x as int,
                    position as nat,
                );
                let padded_x: usize = output_x * window.stride_x + kernel_x;
                let weight_value: T = weight[weight_base + position * weight_step];
                if padded_y >= window.pad_y && padded_y - window.pad_y < window.input_height
                    && padded_x >= window.pad_x && padded_x - window.pad_x < window.input_width {
                    let y: usize = padded_y - window.pad_y;
                    let x: usize = padded_x - window.pad_x;
                    proof {
                        assert(window.covers(output_y as int, output_x as int, at));
                        window.lemma_input_at(output_y as int, output_x as int, at);
                        lemma_row_bound(
                            y as int,
                            window.input_height as int,
                            x as int,
                            window.input_width as int,
                        );
                        lemma_row_bound(
                            channel as int,
                            window.channels as int,
                            y * window.input_width + x,
                            window.plane(),
                        );
                    }
                    let plane: usize = window.input_height * window.input_width;
                    let cell: usize = input_base + (channel * plane + (y * window.input_width + x));
                    let ghost partial = sum;
                    sum = (arithmetic.mul_add)(input[cell], weight_value, sum);
                    proof {
                        lemma_accumulate_step(
                            arithmetic.mul_add,
                            start,
                            terms,
                            partial,
                            (input@[cell as int], weight_value),
                            sum,
                        );
                    }
                }
                position = position + 1;
            }
            proof {
                assert((channel * window.kernel_height + kernel_y + 1) * window.kernel_width == (
                channel * window.kernel_height + kernel_y) * window.kernel_width
                    + window.kernel_width) by (nonlinear_arith);
            }
        }
        proof {
            assert((channel + 1) * window.kernel_height == channel * window.kernel_height
                + window.kernel_height) by (nonlinear_arith);
        }
    }
    proof {
        if window.kernel_height == 0 || window.kernel_width == 0 {
            assert(window.size() == 0) by {
                assert(window.channels * window.kernel_height * window.kernel_width == 0)
                    by (nonlinear_arith)
                    requires
                        window.kernel_height == 0 || window.kernel_width == 0,
                ;
            }
        }
    }
    sum
}

} // verus!
