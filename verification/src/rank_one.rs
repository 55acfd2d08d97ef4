//! Convolutions whose kernels differ by a factor only: a depthwise convolution
//! and one by a single cell in place of one dense convolution.
use vstd::prelude::*;
use crate::conv::lemma_product4;
use crate::elementwise::row_of;
use crate::index::{cell_at, lemma_decode, lemma_encode, lemma_row_bound, lemma_scale};
use crate::layout::lemma_wf_count;
use crate::shape::{count_of, lemma_product_bounds, product};
use crate::tensor::{DataView, Tensor, TensorError, TensorView};

verus! {

/// Why weights were not factored.
#[derive(Clone, Copy, Debug, PartialEq, Eq, Structural)]
pub enum FactorError {
    /// The kernel is not odd.
    Kernel,
    /// The weights have another shape, or are no numbers.
    Tensor(TensorError),
    /// A weight is infinite or not a number.
    NonFinite,
    /// The factors of an input channel could not be found.
    Degenerate,
    /// The product of the factors is too far from the weights.
    NotSeparable,
}

/// The kernels of an input channel, by output channel.
pub open spec fn kernels_of<F>(
    source: Seq<F>,
    inputs: int,
    outputs: int,
    spatial: int,
    channel: int,
) -> Seq<F> {
    Seq::new(
        (outputs * spatial) as nat,
        |i: int| source[(i / spatial * inputs + channel) * spatial + i % spatial],
    )
}

/// The factors of an input channel: `depthwise` holds its kernel and `pointwise`
/// its factor for each output channel.
pub open spec fn is_factored<F, C: Fn(Vec<F>, usize) -> Option<(Vec<F>, Vec<F>)>>(
    factor: C,
    source: Seq<F>,
    inputs: int,
    outputs: int,
    spatial: int,
    channel: int,
    depthwise: Seq<F>,
    pointwise: Seq<F>,
) -> bool {
    exists|kernels: Vec<F>, found: Option<(Vec<F>, Vec<F>)>|
        kernels@ == kernels_of(source, inputs, outputs, spatial, channel)
            && #[trigger] call_ensures(factor, (kernels, spatial as usize), found) && match found {
            Some((direction, scales)) => {
                &&& row_of(depthwise, spatial, channel) == direction@
                &&& scales@.len() == outputs
                &&& forall|o: int|
                    0 <= o < outputs ==> #[trigger] pointwise[cell_at(0, inputs, o, channel)]
                        == scales@[o]
            },
            None => false,
        }
}

/// The factors of an input channel could not be found.
pub open spec fn is_degenerate<F, C: Fn(Vec<F>, usize) -> Option<(Vec<F>, Vec<F>)>>(
    factor: C,
    source: Seq<F>,
    inputs: int,
    outputs: int,
    spatial: int,
    channel: int,
) -> bool {
    exists|kernels: Vec<F>, found: Option<(Vec<F>, Vec<F>)>|
        kernels@ == kernels_of(source, inputs, outputs, spatial, channel)
            && #[trigger] call_ensures(factor, (kernels, spatial as usize), found) && match found {
            Some((direction, scales)) => direction@.len() != spatial || scales@.len() != outputs,
            None => true,
        }
}

/// Whether the test is known to say `answer` of the factors.
pub open spec fn judges<F, P: Fn(Vec<F>, Vec<F>, Vec<F>, usize) -> bool>(
    accept: P,
    source: Seq<F>,
    depthwise: Seq<F>,
    pointwise: Seq<F>,
    spatial: int,
    answer: bool,
) -> bool {
    exists|first: Vec<F>, second: Vec<F>, third: Vec<F>|
        first@ == source && second@ == depthwise && third@ == pointwise && #[trigger] call_ensures(
            accept,
            (first, second, third, spatial as usize),
            answer,
        )
}

/// All factors, by input channel.
pub open spec fn all_factored<F, C: Fn(Vec<F>, usize) -> Option<(Vec<F>, Vec<F>)>>(
    factor: C,
    source: Seq<F>,
    inputs: int,
    outputs: int,
    spatial: int,
    depthwise: Seq<F>,
    pointwise: Seq<F>,
) -> bool {
    &&& depthwise.len() == inputs * spatial
    &&& pointwise.len() == outputs * inputs
    &&& forall|channel: int|
        0 <= channel < inputs ==> #[trigger] is_factored(
            factor,
            source,
            inputs,
            outputs,
            spatial,
            channel,
            depthwise,
            pointwise,
        )
}

/// What was found for the first `count` input channels.
spec fn collected<F, C: Fn(Vec<F>, usize) -> Option<(Vec<F>, Vec<F>)>>(
    factor: C,
    source: Seq<F>,
    inputs: int,
    outputs: int,
    spatial: int,
    used: Seq<Vec<F>>,
    found: Seq<(Vec<F>, Vec<F>)>,
    columns: Seq<Vec<F>>,
    depthwise: Seq<F>,
    count: int,
) -> bool {
    forall|c: int|
        0 <= c < count ==> {
            &&& (#[trigger] used[c])@ == kernels_of(source, inputs, outputs, spatial, c)
            &&& call_ensures(factor, (used[c], spatial as usize), Some(found[c]))
            &&& found[c].0@.len() == spatial
            &&& found[c].1@.len() == outputs
            &&& columns[c]@ == found[c].1@
            &&& row_of(depthwise, spatial, c) == found[c].0@
        }
}

/// Whether a test says that some weight is not finite.
pub open spec fn finds_non_finite<F, Q: Fn(F) -> bool>(finite: Q, source: Seq<F>) -> bool {
    exists|i: int|
        0 <= i < source.len() && call_ensures(finite, (#[trigger] source[i],), false)
}

/// Whether a test says that all weights are finite.
pub open spec fn finds_finite<F, Q: Fn(F) -> bool>(finite: Q, source: Seq<F>) -> bool {
    forall|i: int| 0 <= i < source.len() ==> call_ensures(finite, (#[trigger] source[i],), true)
}

/// Whether the factors of weights without values could not be counted.
pub open spec fn factors_overflow(in_channels: int, out_channels: int, kernel_size: int) -> bool {
    let spatial: int = kernel_size * kernel_size;
    spatial > usize::MAX || in_channels * spatial > usize::MAX || out_channels * in_channels
        > usize::MAX
}

/// What taking the weights of a dense convolution apart may give.
pub open spec fn takes_apart<
    F,
    Q: Fn(F) -> bool,
    C: Fn(Vec<F>, usize) -> Option<(Vec<F>, Vec<F>)>,
    P: Fn(Vec<F>, Vec<F>, Vec<F>, usize) -> bool,
>(
    finite: Q,
    factor: C,
    accept: P,
    weight: TensorView<F>,
    in_channels: usize,
    out_channels: usize,
    kernel_size: usize,
    result: Result<(TensorView<F>, TensorView<F>), FactorError>,
) -> bool {
    let spatial: int = kernel_size * kernel_size;
    let inputs: int = in_channels as int;
    let outputs: int = out_channels as int;
    let shape = seq![out_channels, in_channels, kernel_size, kernel_size];
    let source = weight.data->F32_0;
    if kernel_size % 2 == 0 {
        result == Err::<(TensorView<F>, TensorView<F>), FactorError>(FactorError::Kernel)
    } else if weight.shape != shape {
        result == Err::<(TensorView<F>, TensorView<F>), FactorError>(
            FactorError::Tensor(TensorError::ShapeMismatch),
        )
    } else if weight.data is I64 {
        result == Err::<(TensorView<F>, TensorView<F>), FactorError>(
            FactorError::Tensor(TensorError::ExpectedF32),
        )
    } else if factors_overflow(inputs, outputs, kernel_size as int) {
        result == Err::<(TensorView<F>, TensorView<F>), FactorError>(
            FactorError::Tensor(TensorError::ShapeOverflow),
        )
    } else {
        match result {
            Ok((depthwise, pointwise)) => {
                &&& finds_finite(finite, source)
                &&& depthwise.wf() && pointwise.wf()
                &&& depthwise.shape == seq![in_channels, 1usize, kernel_size, kernel_size]
                &&& pointwise.shape == seq![out_channels, in_channels, 1usize, 1usize]
                &&& depthwise.data is F32 && pointwise.data is F32
                &&& all_factored(
                    factor,
                    source,
                    inputs,
                    outputs,
                    spatial,
                    depthwise.data->F32_0,
                    pointwise.data->F32_0,
                )
                &&& judges(
                    accept,
                    source,
                    depthwise.data->F32_0,
                    pointwise.data->F32_0,
                    spatial,
                    true,
                )
            },
            Err(FactorError::NonFinite) => finds_non_finite(finite, source),
            Err(FactorError::Degenerate) => {
                &&& finds_finite(finite, source)
                &&& exists|channel: int|
                    0 <= channel < inputs && #[trigger] is_degenerate(
                        factor,
                        source,
                        inputs,
                        outputs,
                        spatial,
                        channel,
                    )
            },
            Err(FactorError::NotSeparable) => {
                &&& finds_finite(finite, source)
                &&& exists|depthwise: Seq<F>, pointwise: Seq<F>|
                    all_factored(
                        factor,
                        source,
                        inputs,
                        outputs,
                        spatial,
                        depthwise,
                        pointwise,
                    ) && #[trigger] judges(accept, source, depthwise, pointwise, spatial, false)
            },
            _ => false,
        }
    }
}

/// What is seen of factors.
pub open spec fn factors_seen<F>(factors: Result<(Tensor<F>, Tensor<F>), FactorError>) -> Result<
    (TensorView<F>, TensorView<F>),
    FactorError,
> {
    match factors {
        Ok((depthwise, pointwise)) => Ok((depthwise@, pointwise@)),
        Err(error) => Err(error),
    }
}

/// The factors of the weights of a dense convolution. `factor` finds those of one
/// input channel from its kernels by output channel, `accept` tells whether
/// their product is near enough to the weights; both are told the cells of a
/// kernel.
#[verifier::spinoff_prover]
#[verifier::rlimit(40)]
pub fn factor_rank_one_conv_weight<
    F: Copy,
    Q: Fn(F) -> bool,
    C: Fn(Vec<F>, usize) -> Option<(Vec<F>, Vec<F>)>,
    P: Fn(Vec<F>, Vec<F>, Vec<F>, usize) -> bool,
>(
    weight: &Tensor<F>,
    in_channels: usize,
    out_channels: usize,
    kernel_size: usize,
    finite: &Q,
    factor: &C,
    accept: &P,
) -> (result: Result<(Tensor<F>, Tensor<F>), FactorError>)
    requires
        weight@.wf(),
        forall|a: F| #[trigger] call_requires(*finite, (a,)),
        forall|a: Vec<F>, cells: usize| #[trigger] call_requires(*factor, (a, cells)),
        forall|a: Vec<F>, b: Vec<F>, c: Vec<F>, cells: usize| #[trigger]
            call_requires(*accept, (a, b, c, cells)),
    ensures
        takes_apart(
            *finite,
            *factor,
            *accept,
            weight@,
            in_channels,
            out_channels,
            kernel_size,
            factors_seen(result),
        ),
        result matches Ok((depthwise, pointwise)) ==> depthwise@.wf() && pointwise@.wf(),
{
    if kernel_size % 2 == 0 {
        return Err(FactorError::Kernel);
    }
    let shape: &[usize] = weight.shape();
    let wanted: [usize; 4] = [out_channels, in_channels, kernel_size, kernel_size];
    let dims: &[usize] = vstd::array::array_as_slice(&wanted);
    assert(dims@ =~= seq![out_channels, in_channels, kernel_size, kernel_size]);
    if !crate::broadcast::same_shape(shape, dims) {
        return Err(FactorError::Tensor(TensorError::ShapeMismatch));
    }
    let source: &[F] = match weight.as_f32() {
        Err(error) => {
            return Err(FactorError::Tensor(error));
        },
        Ok(values) => values,
    };
    let total: usize = source.len();
    let spatial: usize = match kernel_size.checked_mul(kernel_size) {
        Some(spatial) => spatial,
        None => {
            return Err(FactorError::Tensor(TensorError::ShapeOverflow));
        },
    };
    let inputs: usize = in_channels;
    let outputs: usize = out_channels;
    if inputs.checked_mul(spatial).is_none() || outputs.checked_mul(inputs).is_none() {
        return Err(FactorError::Tensor(TensorError::ShapeOverflow));
    }
    proof {
        lemma_wf_count(weight@);
        lemma_product4(outputs, inputs, kernel_size, kernel_size);
        assert(spatial >= 1) by (nonlinear_arith)
            requires
                spatial == kernel_size * kernel_size,
                kernel_size >= 1,
        ;
        vstd::arithmetic::mul::lemma_mul_basics(spatial as int);
    }
    for index in 0..total
        invariant
            total == source@.len(),
            weight@.data == DataView::F32(source@),
            weight@.shape == seq![out_channels, in_channels, kernel_size, kernel_size],
            kernel_size % 2 == 1,
            !factors_overflow(in_channels as int, out_channels as int, kernel_size as int),
            forall|a: F| #[trigger] call_requires(*finite, (a,)),
            forall|i: int|
                0 <= i < index ==> call_ensures(*finite, (#[trigger] source@[i],), true),
    {
        if !finite(source[index]) {
            assert(call_ensures(*finite, (source@[index as int],), false));
            return Err(FactorError::NonFinite);
        }
    }
    assert(finds_finite(*finite, source@));
    let mut depthwise: Vec<F> = Vec::new();
    let mut columns: Vec<Vec<F>> = Vec::new();
    let ghost mut used: Seq<Vec<F>> = Seq::empty();
    let ghost mut found: Seq<(Vec<F>, Vec<F>)> = Seq::empty();
    for channel in 0..inputs
        invariant
            total == source@.len(),
            total == outputs * inputs * spatial,
            spatial == kernel_size * kernel_size,
            spatial >= 1,
            outputs == out_channels,
            inputs == in_channels,
            total <= usize::MAX,
            inputs * spatial <= usize::MAX,
            weight@.data == DataView::F32(source@),
            weight@.shape == seq![out_channels, in_channels, kernel_size, kernel_size],
            kernel_size % 2 == 1,
            !factors_overflow(in_channels as int, out_channels as int, kernel_size as int),
            finds_finite(*finite, source@),
            forall|a: Vec<F>, cells: usize| #[trigger] call_requires(*factor, (a, cells)),
            depthwise@.len() == channel * spatial,
            columns@.len() == channel,
            used.len() == channel,
            found.len() == channel,
            collected(
                *factor,
                source@,
                inputs as int,
                outputs as int,
                spatial as int,
                used,
                found,
                columns@,
                depthwise@,
                channel as int,
            ),
    {
        let ghost wanted_kernels = kernels_of(
            source@,
            inputs as int,
            outputs as int,
            spatial as int,
            channel as int,
        );
        let mut kernels: Vec<F> = Vec::new();
        assert(wanted_kernels.take(0) =~= kernels@);
        assert(outputs * spatial <= outputs * inputs * spatial) by (nonlinear_arith)
            requires
                inputs >= 1,
                outputs >= 0,
                spatial >= 0,
        ;
        let count: usize = outputs * spatial;
        for place in 0..count
            invariant
                total == source@.len(),
                total == outputs * inputs * spatial,
                spatial >= 1,
                channel < inputs,
                count == outputs * spatial,
                wanted_kernels == kernels_of(
                    source@,
                    inputs as int,
                    outputs as int,
                    spatial as int,
                    channel as int,
                ),
                kernels@ == wanted_kernels.take(place as int),
        {
            let output: usize = place / spatial;
            let cell: usize = place % spatial;
            proof {
                lemma_encode(place as int, spatial as int);
                assert(output < outputs) by (nonlinear_arith)
                    requires
                        place < outputs * spatial,
                        place == output * spatial + cell,
                        cell >= 0,
                        spatial >= 1,
                ;
                lemma_row_bound(output as int, outputs as int, channel as int, inputs as int);
                lemma_row_bound(
                    output * inputs + channel,
                    outputs * inputs,
                    cell as int,
                    spatial as int,
                );
                lemma_scale(0, output as int, inputs as int);
                lemma_scale(0, output * inputs + channel, spatial as int);
                assert(output * inputs + channel <= (output * inputs + channel) * spatial)
                    by (nonlinear_arith)
                    requires
                        spatial >= 1,
                        output * inputs + channel >= 0,
                ;
            }
            kernels.push(source[(output * inputs + channel) * spatial + cell]);
            assert(kernels@ =~= wanted_kernels.take(place + 1));
        }
        assert(wanted_kernels.take(count as int) =~= wanted_kernels);
        let ghost kept = kernels;
        let answer: Option<(Vec<F>, Vec<F>)> = factor(kernels, spatial);
        let ghost told = answer;
        assert(kernel_size * kernel_size == spatial as int);
        assert(call_ensures(*factor, (kept, (spatial as int) as usize), told));
        match answer {
            None => {
                assert(is_degenerate(
                    *factor,
                    weight@.data->F32_0,
                    in_channels as int,
                    out_channels as int,
                    kernel_size * kernel_size,
                    channel as int,
                ));
                return Err(FactorError::Degenerate);
            },
            Some((direction, scales)) => {
                if direction.len() != spatial || scales.len() != outputs {
                    assert(is_degenerate(
                        *factor,
                        weight@.data->F32_0,
                        in_channels as int,
                        out_channels as int,
                        kernel_size * kernel_size,
                        channel as int,
                    ));
                    return Err(FactorError::Degenerate);
                }
                let ghost pair = (direction, scales);
                let ghost before = depthwise@;
                let ghost old_used = used;
                let ghost old_found = found;
                let mut part: Vec<F> = direction;
                let ghost made = part@;
                depthwise.append(&mut part);
                columns.push(scales);
                proof {
                    used = used.push(kept);
                    found = found.push(pair);
                    assert(depthwise@ =~= before + made);
                    assert((channel + 1) * spatial == channel * spatial + spatial)
                        by (nonlinear_arith);
                    assert forall|c: int| 0 <= c < channel + 1 implies {
                        &&& (#[trigger] used[c])@ == kernels_of(
                            source@,
                            inputs as int,
                            outputs as int,
                            spatial as int,
                            c,
                        )
                        &&& call_ensures(*factor, (used[c], spatial), Some(found[c]))
                        &&& found[c].0@.len() == spatial
                        &&& found[c].1@.len() == outputs
                        &&& columns@[c]@ == found[c].1@
                        &&& row_of(depthwise@, spatial as int, c) == found[c].0@
                    } by {
                        if c < channel {
                            assert(used[c] == old_used[c]);
                            assert(found[c] == old_found[c]);
                            assert((c + 1) * spatial <= channel * spatial) by (nonlinear_arith)
                                requires
                                    c + 1 <= channel,
                                    spatial >= 1,
                            ;
                            lemma_scale(0, c, spatial as int);
                            assert((c + 1) * spatial == c * spatial + spatial)
                                by (nonlinear_arith);
                            assert(row_of(depthwise@, spatial as int, c) =~= row_of(
                                before,
                                spatial as int,
                                c,
                            ));
                        } else {
                            assert(row_of(depthwise@, spatial as int, c) =~= made);
                        }
                    }
                    assert(collected(
                        *factor,
                        source@,
                        inputs as int,
                        outputs as int,
                        spatial as int,
                        used,
                        found,
                        columns@,
                        depthwise@,
                        channel + 1,
                    ));
                }
            },
        }
    }
    let mut pointwise: Vec<F> = Vec::new();
    let cells: usize = outputs * inputs;
    for index in 0..cells
        invariant
            cells == outputs * inputs,
            columns@.len() == inputs,
            found.len() == inputs,
            used.len() == inputs,
            collected(
                *factor,
                source@,
                inputs as int,
                outputs as int,
                spatial as int,
                used,
                found,
                columns@,
                depthwise@,
                inputs as int,
            ),
            pointwise@.len() == index,
            forall|i: int|
                0 <= i < index ==> #[trigger] pointwise@[i] == found[i % inputs as int].1@[i
                    / inputs as int],
    {
        if inputs == 0 {
            assert(cells == 0) by (nonlinear_arith)
                requires
                    cells == outputs * inputs,
                    inputs == 0,
            ;
        }
        let output: usize = index / inputs;
        let channel: usize = index % inputs;
        proof {
            lemma_encode(index as int, inputs as int);
            assert(output < outputs) by (nonlinear_arith)
                requires
                    index < outputs * inputs,
                    index == output * inputs + channel,
                    channel >= 0,
                    inputs >= 1,
            ;
            assert(used[channel as int]@.len() >= 0);
        }
        pointwise.push(columns[channel][output]);
    }
    proof {
        assert forall|channel: int| 0 <= channel < inputs implies #[trigger] is_factored(
            *factor,
            source@,
            inputs as int,
            outputs as int,
            spatial as int,
            channel,
            depthwise@,
            pointwise@,
        ) by {
            let kernels = used[channel];
            let answer = Some(found[channel]);
            assert(call_ensures(*factor, (kernels, spatial), answer));
            assert forall|o: int| 0 <= o < outputs implies #[trigger] pointwise@[cell_at(
                0,
                inputs as int,
                o,
                channel,
            )] == found[channel].1@[o] by {
                lemma_decode(o, channel, inputs as int);
                lemma_row_bound(o, outputs as int, channel, inputs as int);
                lemma_scale(0, o, inputs as int);
            }
        }
        assert(all_factored(
            *factor,
            source@,
            inputs as int,
            outputs as int,
            spatial as int,
            depthwise@,
            pointwise@,
        ));
    }
    let first: Vec<F> = vstd::slice::slice_to_vec(source);
    let second: Vec<F> = vstd::slice::slice_to_vec(depthwise.as_slice());
    let third: Vec<F> = vstd::slice::slice_to_vec(pointwise.as_slice());
    let ghost (one, two, three) = (first, second, third);
    let accepted: bool = accept(first, second, third, spatial);
    assert(call_ensures(*accept, (one, two, three, spatial), accepted));
    assert(judges(*accept, source@, depthwise@, pointwise@, spatial as int, accepted));
    if !accepted {
        return Err(FactorError::NotSeparable);
    }
    let depthwise_shape: Vec<usize> = vec![inputs, 1, kernel_size, kernel_size];
    let pointwise_shape: Vec<usize> = vec![outputs, inputs, 1, 1];
    proof {
        assert(depthwise_shape@ =~= seq![inputs, 1usize, kernel_size, kernel_size]);
        assert(pointwise_shape@ =~= seq![outputs, inputs, 1usize, 1usize]);
        assert(inputs * 1 == inputs) by (nonlinear_arith);
        assert(inputs * 1 * spatial == inputs * spatial) by (nonlinear_arith);
        assert(outputs * inputs * (1 * 1) == outputs * inputs) by (nonlinear_arith);
        lemma_counts4(inputs, 1, kernel_size, kernel_size);
        lemma_counts4(outputs, inputs, 1, 1);
    }
    Ok(
        (
            Tensor::new_f32(depthwise_shape, depthwise),
            Tensor::new_f32(pointwise_shape, pointwise),
        ),
    )
}

/// A shape of four dimensions can be counted where its products can.
proof fn lemma_counts4(a: usize, b: usize, c: usize, d: usize)
    requires
        a * b <= usize::MAX,
        a * b * (c * d) <= usize::MAX,
        a * b * c <= usize::MAX || d >= 1,
    ensures
        count_of(seq![a, b, c, d]) == Some((a * b * (c * d)) as usize),
{
    let shape = seq![a, b, c, d];
    lemma_product4(a, b, c, d);
    let three = shape.drop_last();
    let two = three.drop_last();
    let one = two.drop_last();
    assert(one.drop_last() =~= Seq::<usize>::empty());
    assert(product(one.drop_last()) == 1);
    assert(1 * a == a) by (nonlinear_arith);
    assert(product(one) == a);
    assert(product(two) == a * b);
    assert(product(three) == a * b * c);
    if d >= 1 {
        assert(a * b * c <= a * b * (c * d)) by (nonlinear_arith)
            requires
                d >= 1,
                a >= 0,
                b >= 0,
                c >= 0,
        ;
    }
    assert forall|k: int| 0 <= k <= 4 implies #[trigger] product(shape.take(k)) <= usize::MAX by {
        assert(shape.take(0) =~= Seq::<usize>::empty());
        assert(shape.take(1) =~= one);
        assert(shape.take(2) =~= two);
        assert(shape.take(3) =~= three);
        assert(shape.take(4) =~= shape);
    }
    lemma_product_bounds(shape);
}

} // verus!
