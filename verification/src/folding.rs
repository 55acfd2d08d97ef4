//! Weights of several layers made into those of one.
use vstd::prelude::*;
use crate::conv::lemma_product4;
use crate::elementwise::folds;
use crate::index::{lemma_encode, lemma_row_bound, lemma_scale};
use crate::layout::{lemma_wf_count, shape4};
use crate::shape::{count_of, element_count, lemma_product_bounds, product};
use crate::tensor::{Tensor, TensorError, TensorView};

verus! {

/// The parameters of a normalisation, one of each for every channel.
pub struct Norm<F> {
    pub gamma: Vec<F>,
    pub beta: Vec<F>,
    pub mean: Vec<F>,
    pub variance: Vec<F>,
}

impl<F> Norm<F> {
    /// There is a parameter of each kind for every channel.
    pub open spec fn fits(self, channels: int) -> bool {
        self.gamma@.len() == channels && self.beta@.len() == channels && self.mean@.len()
            == channels && self.variance@.len() == channels
    }
}

/// The channel of a weight where `row` weights belong together.
pub open spec fn channel_of(index: int, row: int, channels: int) -> int {
    index / row % channels
}

/// Whether a layer's weights and bias are folded with a normalisation: the
/// weights times their channel's scale, and the bias shifted.
pub open spec fn is_folded<
    F,
    S: Fn(F, F) -> F,
    T: Fn(F, F) -> F,
    H: Fn(F, F, F, F) -> F,
>(
    scale: S,
    times: T,
    shift: H,
    norm: Norm<F>,
    channels: int,
    row: int,
    weight: Seq<F>,
    bias: Seq<F>,
    scales: Seq<F>,
    new_weight: Seq<F>,
    new_bias: Seq<F>,
) -> bool {
    &&& scales.len() == channels
    &&& forall|c: int|
        0 <= c < channels ==> call_ensures(
            scale,
            (norm.gamma@[c], norm.variance@[c]),
            #[trigger] scales[c],
        )
    &&& new_weight.len() == weight.len()
    &&& forall|i: int|
        0 <= i < weight.len() ==> call_ensures(
            times,
            (weight[i], scales[channel_of(i, row, channels)]),
            #[trigger] new_weight[i],
        )
    &&& new_bias.len() == channels
    &&& forall|c: int|
        0 <= c < channels ==> call_ensures(
            shift,
            (bias[c], norm.mean@[c], scales[c], norm.beta@[c]),
            #[trigger] new_bias[c],
        )
}

fn fold<F: Copy, S: Fn(F, F) -> F, T: Fn(F, F) -> F, H: Fn(F, F, F, F) -> F>(
    scale: &S,
    times: &T,
    shift: &H,
    norm: &Norm<F>,
    channels: usize,
    row: usize,
    weight: &[F],
    bias: &[F],
) -> (result: (Ghost<Seq<F>>, Vec<F>, Vec<F>))
    requires
        channels > 0,
        row > 0,
        norm.fits(channels as int),
        bias@.len() == channels,
        forall|a: F, b: F| #[trigger] call_requires(*scale, (a, b)),
        forall|a: F, b: F| #[trigger] call_requires(*times, (a, b)),
        forall|a: F, b: F, c: F, d: F| #[trigger] call_requires(*shift, (a, b, c, d)),
    ensures
        is_folded(
            *scale,
            *times,
            *shift,
            *norm,
            channels as int,
            row as int,
            weight@,
            bias@,
            result.0@,
            result.1@,
            result.2@,
        ),
{
    let mut scales: Vec<F> = Vec::with_capacity(channels);
    let mut new_bias: Vec<F> = Vec::with_capacity(channels);
    for channel in 0..channels
        invariant
            norm.fits(channels as int),
            bias@.len() == channels,
            forall|a: F, b: F| #[trigger] call_requires(*scale, (a, b)),
            forall|a: F, b: F, c: F, d: F| #[trigger] call_requires(*shift, (a, b, c, d)),
            scales@.len() == channel,
            new_bias@.len() == channel,
            forall|c: int|
                0 <= c < channel ==> call_ensures(
                    *scale,
                    (norm.gamma@[c], norm.variance@[c]),
                    #[trigger] scales@[c],
                ),
            forall|c: int|
                0 <= c < channel ==> call_ensures(
                    *shift,
                    (bias@[c], norm.mean@[c], scales@[c], norm.beta@[c]),
                    #[trigger] new_bias@[c],
                ),
    {
        let factor: F = scale(norm.gamma[channel], norm.variance[channel]);
        let offset: F = shift(bias[channel], norm.mean[channel], factor, norm.beta[channel]);
        scales.push(factor);
        new_bias.push(offset);
    }
    let mut new_weight: Vec<F> = Vec::with_capacity(weight.len());
    for index in 0..weight.len()
        invariant
            channels > 0,
            row > 0,
            scales@.len() == channels,
            forall|a: F, b: F| #[trigger] call_requires(*times, (a, b)),
            new_weight@.len() == index,
            forall|i: int|
                0 <= i < index ==> call_ensures(
                    *times,
                    (weight@[i], scales@[channel_of(i, row as int, channels as int)]),
                    #[trigger] new_weight@[i],
                ),
    {
        let channel: usize = index / row % channels;
        let value: F = times(weight[index], scales[channel]);
        new_weight.push(value);
    }
    (Ghost(scales@), new_weight, new_bias)
}

/// Why weights cannot be folded; `None` where they can. `transposed` weights
/// have the output channels second.
pub open spec fn fold_error<F>(
    weight: TensorView<F>,
    bias: Option<TensorView<F>>,
    channels: usize,
    transposed: bool,
) -> Option<TensorError> {
    let place: int = if transposed {
        1
    } else {
        0
    };
    if weight.shape.len() <= place || weight.shape[place] != channels {
        Some(TensorError::ShapeMismatch)
    } else if weight.data is I64 {
        Some(TensorError::ExpectedF32)
    } else if bias is Some && bias->Some_0.data is I64 {
        Some(TensorError::ExpectedF32)
    } else if bias is Some && bias->Some_0.data.len() != channels {
        Some(TensorError::Bias)
    } else if channels == 0 || (transposed && weight.shape[0] == 0) {
        Some(TensorError::Features)
    } else {
        None
    }
}

/// The number of weights that belong together: those of an output channel, or,
/// transposed, those of a kernel.
pub open spec fn fold_row(shape: Seq<usize>, transposed: bool) -> int {
    if transposed {
        product(shape.skip(2))
    } else {
        product(shape.skip(1))
    }
}

/// The values of a bias, or zeros.
pub open spec fn bias_or_zeros<F>(bias: Option<TensorView<F>>, zero: F, channels: int) -> Seq<F> {
    match bias {
        Some(tensor) => tensor.data->F32_0,
        None => Seq::new(channels as nat, |i: int| zero),
    }
}

/// What a reference to a bias holds.
pub open spec fn borrowed_view<F>(bias: Option<&Tensor<F>>) -> Option<TensorView<F>> {
    match bias {
        Some(tensor) => Some(tensor@),
        None => None,
    }
}

/// Folds a normalisation into the weights and the bias of a convolution.
#[verifier::spinoff_prover]
pub fn fold_batch_norm<F: Copy, S: Fn(F, F) -> F, T: Fn(F, F) -> F, H: Fn(F, F, F, F) -> F>(
    scale: &S,
    times: &T,
    shift: &H,
    zero: F,
    weight: &Tensor<F>,
    bias: Option<&Tensor<F>>,
    norm: &Norm<F>,
    channels: usize,
    transposed: bool,
) -> (result: Result<(Tensor<F>, Tensor<F>), TensorError>)
    requires
        weight@.wf(),
        bias matches Some(tensor) ==> tensor@.wf(),
        norm.fits(channels as int),
        forall|a: F, b: F| #[trigger] call_requires(*scale, (a, b)),
        forall|a: F, b: F| #[trigger] call_requires(*times, (a, b)),
        forall|a: F, b: F, c: F, d: F| #[trigger] call_requires(*shift, (a, b, c, d)),
    ensures
        match result {
            Ok((new_weight, new_bias)) => {
                &&& fold_error(weight@, borrowed_view(bias), channels, transposed) is None
                &&& new_weight@.wf() && new_bias@.wf()
                &&& new_weight@.shape == weight@.shape
                &&& new_bias@.shape == seq![channels]
                &&& new_weight@.data is F32 && new_bias@.data is F32
                &&& exists|scales: Seq<F>| #[trigger]
                    is_folded(
                        *scale,
                        *times,
                        *shift,
                        *norm,
                        channels as int,
                        fold_row(weight@.shape, transposed),
                        weight@.data->F32_0,
                        bias_or_zeros(borrowed_view(bias), zero, channels as int),
                        scales,
                        new_weight@.data->F32_0,
                        new_bias@.data->F32_0,
                    )
            },
            Err(error) => fold_error(weight@, borrowed_view(bias), channels, transposed) == Some(
                error,
            ),
        },
{
    let shape: &[usize] = weight.shape();
    let rank: usize = shape.len();
    let place: usize = if transposed {
        1
    } else {
        0
    };
    if rank <= place || shape[place] != channels {
        return Err(TensorError::ShapeMismatch);
    }
    let values: &[F] = match weight.as_f32() {
        Err(error) => {
            return Err(error);
        },
        Ok(values) => values,
    };
    let old_bias: Vec<F> = match bias {
        Some(tensor) => match tensor.as_f32() {
            Err(error) => {
                return Err(error);
            },
            Ok(values) => {
                if values.len() != channels {
                    return Err(TensorError::Bias);
                }
                vstd::slice::slice_to_vec(values)
            },
        },
        None => crate::arena::zeroed(Vec::new(), channels, zero),
    };
    if channels == 0 || (transposed && shape[0] == 0) {
        return Err(TensorError::Features);
    }
    let dims: Vec<usize> = vec![channels];
    proof {
        assert(dims@ =~= seq![channels]);
        lemma_one(channels);
        assert(old_bias@ =~= bias_or_zeros(borrowed_view(bias), zero, channels as int));
    }
    if values.len() == 0 {
        let (Ghost(scales), new_weight, new_bias): (Ghost<Seq<F>>, Vec<F>, Vec<F>) = fold(
            scale,
            times,
            shift,
            norm,
            channels,
            1,
            values,
            old_bias.as_slice(),
        );
        assert(is_folded(
            *scale,
            *times,
            *shift,
            *norm,
            channels as int,
            fold_row(shape@, transposed),
            values@,
            old_bias@,
            scales,
            new_weight@,
            new_bias@,
        ));
        return Ok(
            (
                Tensor::new_f32(vstd::slice::slice_to_vec(shape), new_weight),
                Tensor::new_f32(dims, new_bias),
            ),
        );
    }
    let tail: &[usize] = vstd::slice::slice_subrange(shape, place + 1, rank);
    assert(tail@ =~= shape@.skip(place + 1));
    proof {
        lemma_wf_count(weight@);
        crate::layout::lemma_no_zero(shape@);
        assert forall|d: int| 0 <= d < tail@.len() implies #[trigger] tail@[d] > 0 by {
            assert(tail@[d] == shape@[place + 1 + d]);
        }
        lemma_product_bounds(tail@);
        crate::shape::lemma_product_split(shape@, place + 1);
        let head = shape@.take(place + 1);
        assert forall|d: int| 0 <= d < head.len() implies #[trigger] head[d] > 0 by {
            assert(head[d] == shape@[d]);
        }
        lemma_product_bounds(head);
        assert(product(tail@) <= product(shape@)) by (nonlinear_arith)
            requires
                product(shape@) == product(head) * product(tail@),
                product(head) >= 1,
                product(tail@) >= 1,
        ;
        crate::layout::lemma_counts(tail@);
        assert(shape@[place as int] > 0);
    }
    let row: usize = match element_count(tail) {
        None => {
            return Err(TensorError::ShapeOverflow);
        },
        Some(row) => row,
    };
    proof {
        assert(tail@.take(tail@.len() as int) =~= tail@);
        assert(row == fold_row(shape@, transposed));
    }
    let (Ghost(scales), new_weight, new_bias): (Ghost<Seq<F>>, Vec<F>, Vec<F>) = fold(
        scale,
        times,
        shift,
        norm,
        channels,
        row,
        values,
        old_bias.as_slice(),
    );
    Ok(
        (
            Tensor::new_f32(vstd::slice::slice_to_vec(shape), new_weight),
            Tensor::new_f32(dims, new_bias),
        ),
    )
}

proof fn lemma_one(size: usize)
    ensures
        count_of(seq![size]) == Some(size),
{
    let shape = seq![size];
    assert(shape.drop_last() =~= Seq::<usize>::empty());
    assert(product(shape.drop_last()) == 1);
    assert(1 * size == size) by (nonlinear_arith);
    assert(product(shape) == size);
    assert forall|k: int| 0 <= k <= 1 implies #[trigger] product(shape.take(k)) <= usize::MAX by {
        if k == 0 {
            assert(shape.take(0) =~= Seq::<usize>::empty());
        } else {
            assert(shape.take(1) =~= shape);
        }
    }
}

/// Why three kernels cannot be made one; `None` where they can.
pub open spec fn fuse_error<F>(
    symmetric: TensorView<F>,
    symmetric_bias: TensorView<F>,
    vertical: TensorView<F>,
    vertical_bias: TensorView<F>,
    horizontal: TensorView<F>,
    horizontal_bias: TensorView<F>,
) -> Option<TensorError> {
    let shape = symmetric.shape;
    if shape.len() != 4 {
        Some(TensorError::Rank)
    } else if shape[2] != shape[3] || shape[2] % 2 != 1 {
        Some(TensorError::Geometry)
    } else if vertical.shape != seq![shape[0], shape[1], shape[2], 1usize] {
        Some(TensorError::ShapeMismatch)
    } else if horizontal.shape != seq![shape[0], shape[1], 1usize, shape[3]] {
        Some(TensorError::ShapeMismatch)
    } else if symmetric_bias.shape != seq![shape[0]] || vertical_bias.shape != seq![shape[0]]
        || horizontal_bias.shape != seq![shape[0]] {
        Some(TensorError::Bias)
    } else if vertical.data is I64 || horizontal.data is I64 || symmetric.data is I64
        || vertical_bias.data is I64 || horizontal_bias.data is I64 || symmetric_bias.data is I64 {
        Some(TensorError::ExpectedF32)
    } else {
        None
    }
}

/// The weight of the upright kernel that is added to a cell: those of the middle
/// column have one.
pub open spec fn upright_at<F>(vertical: Seq<F>, kernel: int, index: int) -> Option<F> {
    if index % kernel == kernel / 2 {
        Some(vertical[index / kernel / kernel * kernel + index / kernel % kernel])
    } else {
        None
    }
}

/// The weight of the level kernel that is added to a cell: those of the middle
/// row have one.
pub open spec fn level_at<F>(horizontal: Seq<F>, kernel: int, index: int) -> Option<F> {
    if index / kernel % kernel == kernel / 2 {
        Some(horizontal[index / kernel / kernel * kernel + index % kernel])
    } else {
        None
    }
}

/// A weight is that of the square kernel, with the weight of the upright kernel
/// added in the middle column and then that of the level kernel in the middle row.
pub open spec fn is_fused_cell<F, G: Fn(F, F) -> F>(
    addition: G,
    symmetric: Seq<F>,
    vertical: Seq<F>,
    horizontal: Seq<F>,
    kernel: int,
    index: int,
    value: F,
) -> bool {
    exists|middle: F| #[trigger]
        folds(addition, symmetric[index], upright_at(vertical, kernel, index), middle) && folds(
            addition,
            middle,
            level_at(horizontal, kernel, index),
            value,
        )
}

/// A bias is the sum of the three.
pub open spec fn is_fused_bias<F, G: Fn(F, F) -> F>(
    addition: G,
    symmetric: F,
    vertical: F,
    horizontal: F,
    value: F,
) -> bool {
    exists|middle: F| #[trigger]
        call_ensures(addition, (symmetric, vertical), middle) && call_ensures(
            addition,
            (middle, horizontal),
            value,
        )
}

fn same_dims(shape: &[usize], first: usize, second: usize, third: usize, fourth: usize) -> (result:
    bool)
    ensures
        result == (shape@ == seq![first, second, third, fourth]),
{
    let wanted: [usize; 4] = [first, second, third, fourth];
    let slice: &[usize] = vstd::array::array_as_slice(&wanted);
    assert(slice@ =~= seq![first, second, third, fourth]);
    crate::broadcast::same_shape(shape, slice)
}

fn is_vector(shape: &[usize], size: usize) -> (result: bool)
    ensures
        result == (shape@ == seq![size]),
{
    let wanted: [usize; 1] = [size];
    let slice: &[usize] = vstd::array::array_as_slice(&wanted);
    assert(slice@ =~= seq![size]);
    crate::broadcast::same_shape(shape, slice)
}

/// Makes a square kernel, an upright one and a level one into one square kernel.
#[verifier::spinoff_prover]
pub fn fuse_intraclass_conv<F: Copy, G: Fn(F, F) -> F>(
    addition: &G,
    symmetric_weight: &Tensor<F>,
    symmetric_bias: &Tensor<F>,
    vertical_weight: &Tensor<F>,
    vertical_bias: &Tensor<F>,
    horizontal_weight: &Tensor<F>,
    horizontal_bias: &Tensor<F>,
) -> (result: Result<(Tensor<F>, Tensor<F>), TensorError>)
    requires
        forall|a: F, b: F| #[trigger] call_requires(*addition, (a, b)),
        symmetric_weight@.wf() && symmetric_bias@.wf(),
        vertical_weight@.wf() && vertical_bias@.wf(),
        horizontal_weight@.wf() && horizontal_bias@.wf(),
    ensures
        match result {
            Ok((weight, bias)) => {
                &&& fuse_error(
                    symmetric_weight@,
                    symmetric_bias@,
                    vertical_weight@,
                    vertical_bias@,
                    horizontal_weight@,
                    horizontal_bias@,
                ) is None
                &&& weight@.wf() && bias@.wf()
                &&& weight@.shape == symmetric_weight@.shape
                &&& bias@.shape == seq![symmetric_weight@.shape[0]]
                &&& weight@.data is F32 && bias@.data is F32
                &&& forall|i: int|
                    0 <= i < weight@.data.len() ==> is_fused_cell(
                        *addition,
                        symmetric_weight@.data->F32_0,
                        vertical_weight@.data->F32_0,
                        horizontal_weight@.data->F32_0,
                        symmetric_weight@.shape[2] as int,
                        i,
                        #[trigger] weight@.data->F32_0[i],
                    )
                &&& forall|c: int|
                    0 <= c < bias@.data.len() ==> is_fused_bias(
                        *addition,
                        symmetric_bias@.data->F32_0[c],
                        vertical_bias@.data->F32_0[c],
                        horizontal_bias@.data->F32_0[c],
                        #[trigger] bias@.data->F32_0[c],
                    )
            },
            Err(error) => fuse_error(
                symmetric_weight@,
                symmetric_bias@,
                vertical_weight@,
                vertical_bias@,
                horizontal_weight@,
                horizontal_bias@,
            ) == Some(error),
        },
{
    let sizes: [usize; 4] = match shape4(symmetric_weight.shape()) {
        Err(error) => {
            return Err(error);
        },
        Ok(sizes) => sizes,
    };
    let outputs: usize = sizes[0];
    let inputs: usize = sizes[1];
    let kernel: usize = sizes[2];
    if kernel != sizes[3] || kernel % 2 != 1 {
        return Err(TensorError::Geometry);
    }
    if !same_dims(vertical_weight.shape(), outputs, inputs, kernel, 1) {
        return Err(TensorError::ShapeMismatch);
    }
    if !same_dims(horizontal_weight.shape(), outputs, inputs, 1, kernel) {
        return Err(TensorError::ShapeMismatch);
    }
    if !is_vector(symmetric_bias.shape(), outputs) || !is_vector(vertical_bias.shape(), outputs)
        || !is_vector(horizontal_bias.shape(), outputs) {
        return Err(TensorError::Bias);
    }
    let vertical: &[F] = match vertical_weight.as_f32() {
        Err(error) => {
            return Err(error);
        },
        Ok(values) => values,
    };
    let horizontal: &[F] = match horizontal_weight.as_f32() {
        Err(error) => {
            return Err(error);
        },
        Ok(values) => values,
    };
    let symmetric: &[F] = match symmetric_weight.as_f32() {
        Err(error) => {
            return Err(error);
        },
        Ok(values) => values,
    };
    let upright: &[F] = match vertical_bias.as_f32() {
        Err(error) => {
            return Err(error);
        },
        Ok(values) => values,
    };
    let level: &[F] = match horizontal_bias.as_f32() {
        Err(error) => {
            return Err(error);
        },
        Ok(values) => values,
    };
    let square: &[F] = match symmetric_bias.as_f32() {
        Err(error) => {
            return Err(error);
        },
        Ok(values) => values,
    };
    let total: usize = symmetric.len();
    let vertical_len: usize = vertical.len();
    let horizontal_len: usize = horizontal.len();
    let ghost pairs: int = outputs * inputs;
    proof {
        lemma_wf_count(symmetric_weight@);
        lemma_wf_count(vertical_weight@);
        lemma_wf_count(horizontal_weight@);
        lemma_wf_count(symmetric_bias@);
        lemma_wf_count(vertical_bias@);
        lemma_wf_count(horizontal_bias@);
        assert(symmetric_weight@.shape =~= seq![outputs, inputs, kernel, kernel]);
        lemma_product4(outputs, inputs, kernel, kernel);
        lemma_product4(outputs, inputs, kernel, 1);
        lemma_product4(outputs, inputs, 1, kernel);
        assert(kernel * 1 == kernel && 1 * kernel == kernel) by (nonlinear_arith);
        assert(pairs * (kernel * kernel) == pairs * kernel * kernel) by (nonlinear_arith);
        lemma_one(outputs);
    }
    let center: usize = kernel / 2;
    let mut weight: Vec<F> = Vec::with_capacity(total);
    for index in 0..total
        invariant
            forall|a: F, b: F| #[trigger] call_requires(*addition, (a, b)),
            total == symmetric@.len(),
            total == pairs * kernel * kernel,
            vertical_len == vertical@.len(),
            horizontal_len == horizontal@.len(),
            vertical_len == pairs * kernel,
            horizontal_len == pairs * kernel,
            kernel > 0,
            center == kernel / 2,
            weight@.len() == index,
            forall|i: int|
                0 <= i < index ==> is_fused_cell(
                    *addition,
                    symmetric@,
                    vertical@,
                    horizontal@,
                    kernel as int,
                    i,
                    #[trigger] weight@[i],
                ),
    {
        let column: usize = index % kernel;
        let line: usize = index / kernel;
        let row: usize = line % kernel;
        let pair: usize = line / kernel;
        proof {
            lemma_encode(index as int, kernel as int);
            lemma_encode(line as int, kernel as int);
            assert(line < pairs * kernel) by (nonlinear_arith)
                requires
                    index < pairs * kernel * kernel,
                    index == line * kernel + column,
                    column >= 0,
                    kernel > 0,
            ;
            assert(pair < pairs) by (nonlinear_arith)
                requires
                    line < pairs * kernel,
                    line == pair * kernel + row,
                    row >= 0,
                    kernel > 0,
            ;
            lemma_row_bound(pair as int, pairs, row as int, kernel as int);
            lemma_row_bound(pair as int, pairs, column as int, kernel as int);
            lemma_scale(0, pair as int, kernel as int);
        }
        let start: F = symmetric[index];
        let middle: F = if column == center {
            addition(start, vertical[pair * kernel + row])
        } else {
            start
        };
        let value: F = if row == center {
            addition(middle, horizontal[pair * kernel + column])
        } else {
            middle
        };
        proof {
            assert(folds(
                *addition,
                symmetric@[index as int],
                upright_at(vertical@, kernel as int, index as int),
                middle,
            ));
            assert(folds(
                *addition,
                middle,
                level_at(horizontal@, kernel as int, index as int),
                value,
            ));
        }
        weight.push(value);
    }
    let mut bias: Vec<F> = Vec::with_capacity(outputs);
    for channel in 0..outputs
        invariant
            forall|a: F, b: F| #[trigger] call_requires(*addition, (a, b)),
            square@.len() == outputs,
            upright@.len() == outputs,
            level@.len() == outputs,
            bias@.len() == channel,
            forall|c: int|
                0 <= c < channel ==> is_fused_bias(
                    *addition,
                    square@[c],
                    upright@[c],
                    level@[c],
                    #[trigger] bias@[c],
                ),
    {
        let middle: F = addition(square[channel], upright[channel]);
        let value: F = addition(middle, level[channel]);
        assert(is_fused_bias(
            *addition,
            square@[channel as int],
            upright@[channel as int],
            level@[channel as int],
            value,
        ));
        bias.push(value);
    }
    let dims: Vec<usize> = vec![outputs];
    assert(dims@ =~= seq![outputs]);
    Ok(
        (
            Tensor::new_f32(vstd::slice::slice_to_vec(symmetric_weight.shape()), weight),
            Tensor::new_f32(dims, bias),
        ),
    )
}

} // verus!
